//! Camera: what its input amounts to, and where the attention current leads.

use vstd::prelude::*;

use crate::graph::adjacency::Csr;
use crate::scalar::Scalar;

verus! {

/// The nearest of the first `n` particles: the earlier one holds its place unless a later
/// one is strictly nearer. What is not a number is never nearer, and nothing is nearer
/// than it.
pub open spec fn nearest_of(distances: Seq<Scalar>, n: nat) -> int
    decreases n,
{
    if n <= 1 {
        0
    } else {
        let held = nearest_of(distances, (n - 1) as nat);
        if distances[n - 1].less(distances[held]) {
            n - 1
        } else {
            held
        }
    }
}

/// The strongest of the first `n` weights: a later one takes the place unless it is
/// strictly weaker.
pub open spec fn strongest_of(weights: Seq<Scalar>, n: nat) -> int
    decreases n,
{
    if n <= 1 {
        0
    } else {
        let held = strongest_of(weights, (n - 1) as nat);
        if weights[n - 1].less(weights[held]) {
            held
        } else {
            n - 1
        }
    }
}

/// The nearest particle, given the distance of each.
pub fn nearest(distances: &[Scalar]) -> (r: Option<usize>)
    ensures
        r is None <==> distances.len() == 0,
        r matches Some(i) ==> i < distances.len() && i == nearest_of(distances@, distances@.len()),
{
    if distances.len() == 0 {
        return None;
    }
    let mut held: usize = 0;
    let mut k: usize = 1;
    while k < distances.len()
        invariant
            1 <= k <= distances.len(),
            held < k,
            held == nearest_of(distances@, k as nat),
        decreases distances.len() - k,
    {
        if distances[k].is_less(distances[held]) {
            held = k;
        }
        k = k + 1;
    }
    Some(held)
}

/// The strongest of the weights.
pub fn strongest(weights: &[Scalar]) -> (r: Option<usize>)
    ensures
        r is None <==> weights.len() == 0,
        r matches Some(i) ==> i < weights.len() && i == strongest_of(weights@, weights@.len()),
{
    if weights.len() == 0 {
        return None;
    }
    let mut held: usize = 0;
    let mut k: usize = 1;
    while k < weights.len()
        invariant
            1 <= k <= weights.len(),
            held < k,
            held == strongest_of(weights@, k as nat),
        decreases weights.len() - k,
    {
        if !weights[k].is_less(weights[held]) {
            held = k;
        }
        k = k + 1;
    }
    Some(held)
}

/// Law: where all distances are numbers, the nearest particle is at the least distance,
/// and the first one there.
pub proof fn law_nearest_is_first_least(distances: Seq<Scalar>, n: nat)
    requires
        0 < n <= distances.len(),
        forall|i: int| 0 <= i < n ==> !(#[trigger] distances[i]).nan(),
    ensures
        0 <= nearest_of(distances, n) < n,
        forall|i: int|
            0 <= i < n ==> distances[nearest_of(distances, n)].rank() <= (#[trigger] distances[i]).rank(),
        forall|i: int|
            0 <= i < nearest_of(distances, n) ==> distances[nearest_of(distances, n)].rank() < (
            #[trigger] distances[i]).rank(),
    decreases n,
{
    if n > 1 {
        law_nearest_is_first_least(distances, (n - 1) as nat);
        let held = nearest_of(distances, (n - 1) as nat);
        assert(distances[n - 1].less(distances[held]) == (distances[n - 1].rank()
            < distances[held].rank()));
    }
}

/// Law: where all weights are numbers, the strongest is the greatest, and the last one
/// that is.
pub proof fn law_strongest_is_last_greatest(weights: Seq<Scalar>, n: nat)
    requires
        0 < n <= weights.len(),
        forall|i: int| 0 <= i < n ==> !(#[trigger] weights[i]).nan(),
    ensures
        0 <= strongest_of(weights, n) < n,
        forall|i: int|
            0 <= i < n ==> (#[trigger] weights[i]).rank() <= weights[strongest_of(weights, n)].rank(),
        forall|i: int|
            strongest_of(weights, n) < i < n ==> (#[trigger] weights[i]).rank() < weights[strongest_of(
                weights,
                n,
            )].rank(),
    decreases n,
{
    if n > 1 {
        law_strongest_is_last_greatest(weights, (n - 1) as nat);
        let held = strongest_of(weights, (n - 1) as nat);
        assert(weights[n - 1].less(weights[held]) == (weights[n - 1].rank() < weights[held].rank()));
    }
}

/// The entry of row `i` with the strongest weight.
pub open spec fn strongest_entry(csr: &Csr<Scalar>, i: int) -> int {
    let row = csr.values@.subrange(csr.row_ptr[i] as int, csr.row_ptr[i + 1] as int);
    csr.row_ptr[i] + strongest_of(row, row.len())
}

/// Where the attention current leads: from the nearest particle along its strongest edge.
/// `distances` holds the camera's distance to each particle that has a position.
pub fn follow_target(modifier_held: bool, distances: &[Scalar], csr: &Csr<Scalar>) -> (target:
    Option<usize>)
    requires
        csr.wf(),
        modifier_held && csr.n > 0 && distances.len() > 0 ==> nearest_of(
            distances@,
            distances@.len(),
        ) < csr.n,
    ensures
        ({
            let near = nearest_of(distances@, distances@.len());
            if !modifier_held || csr.n == 0 || distances.len() == 0 || csr.row_ptr[near] == csr.row_ptr[near + 1] {
                target is None
            } else {
                &&& target == Some(csr.col_idx[strongest_entry(csr, near)] as usize)
                &&& target.unwrap() < csr.n
            }
        }),
{
    if !modifier_held || csr.n == 0 {
        return None;
    }
    let near: usize = match nearest(distances) {
        Some(i) => i,
        None => return None,
    };
    assert(csr.row_ptr[near as int] <= csr.row_ptr[near + 1] <= csr.row_ptr[csr.n as int]);
    let (cols, vals) = csr.row(near);
    match strongest(vals) {
        Some(e) => {
            assert(cols@[e as int] == csr.col_idx[csr.row_ptr[near as int] + e]);
            Some(cols[e] as usize)
        },
        None => None,
    }
}

/// What a frame's cursor events amount to.
#[derive(Debug)]
pub struct CursorTrack<S> {
    /// where the cursor was last seen, for the next frame
    pub last: Option<[S; 2]>,
    /// the moves that turn the camera, from where to where
    pub drags: Vec<([S; 2], [S; 2])>,
}

/// Where the cursor was before event `k`: at the event before it, or where it was last seen.
pub open spec fn cursor_before<S>(last: Option<[S; 2]>, events: Seq<[S; 2]>, k: int) -> Option<
    [S; 2],
> {
    if k == 0 {
        last
    } else {
        Some(events[k - 1])
    }
}

/// The moves of the first `count` events; the first one is no move where it is not known
/// where the cursor was before it.
pub open spec fn moves<S>(last: Option<[S; 2]>, events: Seq<[S; 2]>, count: nat) -> Seq<
    ([S; 2], [S; 2]),
>
    decreases count,
{
    if count == 0 {
        Seq::empty()
    } else {
        let before = moves(last, events, (count - 1) as nat);
        match cursor_before(last, events, count - 1) {
            Some(from) => before.push((from, events[count - 1])),
            None => before,
        }
    }
}

/// Follows the cursor through a frame. The cursor is forgotten when nothing is dragged, and
/// also when no event came: the release of a button may have been swallowed, and events that
/// resume would then make the camera jump.
pub fn track_cursor<S: Copy>(last: Option<[S; 2]>, dragging: bool, events: &[[S; 2]]) -> (track:
    CursorTrack<S>)
    ensures
        track.drags@ == if dragging {
            moves(last, events@, events@.len())
        } else {
            Seq::empty()
        },
        track.last == if dragging && events.len() > 0 {
            Some(events@.last())
        } else {
            None
        },
{
    let mut drags: Vec<([S; 2], [S; 2])> = Vec::new();
    let mut seen: Option<[S; 2]> = last;
    let mut k: usize = 0;
    while k < events.len()
        invariant
            k <= events.len(),
            seen == cursor_before(last, events@, k as int),
            drags@ == if dragging {
                moves(last, events@, k as nat)
            } else {
                Seq::empty()
            },
        decreases events.len() - k,
    {
        let cur: [S; 2] = events[k];
        if let Some(from) = seen {
            if dragging {
                drags.push((from, cur));
            }
        }
        seen = Some(cur);
        k = k + 1;
    }
    let last_seen: Option<[S; 2]> = if dragging && events.len() > 0 {
        seen
    } else {
        None
    };
    CursorTrack { last: last_seen, drags }
}

/// Law: while a drag goes on, frame after frame, the moves follow each other without a gap:
/// each starts where the one before it ended.
pub proof fn law_drags_are_continuous<S>(
    last: Option<[S; 2]>,
    first: Seq<[S; 2]>,
    second: Seq<[S; 2]>,
)
    requires
        first.len() > 0,
    ensures
        moves(last, first + second, (first + second).len()) == moves(last, first, first.len())
            + moves(Some(first.last()), second, second.len()),
    decreases second.len(),
{
    let all = first + second;
    if second.len() == 0 {
        assert(all =~= first);
        assert(moves(last, first, first.len()) + moves(Some(first.last()), second, 0) =~= moves(
            last,
            first,
            first.len(),
        ));
    } else {
        let rest = second.drop_last();
        law_drags_are_continuous(last, first, rest);
        let n = (all.len() - 1) as nat;
        assert(all.drop_last() =~= first + rest);
        lemma_moves_prefix(last, all, first + rest, n);
        lemma_moves_prefix(Some(first.last()), second, rest, rest.len());
        let from = cursor_before(Some(first.last()), second, rest.len() as int).unwrap();
        assert(cursor_before(last, all, n as int) == Some(from));
        assert(moves(last, all, all.len()) =~= moves(last, first, first.len()) + moves(
            Some(first.last()),
            second,
            second.len(),
        ));
    }
}

proof fn lemma_moves_prefix<S>(last: Option<[S; 2]>, a: Seq<[S; 2]>, b: Seq<[S; 2]>, count: nat)
    requires
        count <= a.len(),
        count <= b.len(),
        forall|k: int| 0 <= k < count ==> #[trigger] a[k] == b[k],
    ensures
        moves(last, a, count) == moves(last, b, count),
    decreases count,
{
    if count > 0 {
        lemma_moves_prefix(last, a, b, (count - 1) as nat);
        assert(a[count - 1] == b[count - 1]);
        if count > 1 {
            assert(a[count - 2] == b[count - 2]);
        }
    }
}

/// The time of a warp: how far it has got, capped at its duration, and whether it is over.
pub fn warp_clock(advanced: Scalar, duration: Scalar) -> (r: (Scalar, bool))
    ensures
        r.0 == advanced.lower(duration),
        r.1 == duration.at_most(r.0),
{
    let elapsed = advanced.min(duration);
    (elapsed, duration.is_at_most(elapsed))
}

/// Law: what is not a number is nearest only as the first distance, and then nothing is nearer;
/// as the last weight it is the strongest.
pub proof fn law_no_number_keeps_its_place(values: Seq<Scalar>, n: nat)
    requires
        0 < n <= values.len(),
    ensures
        0 <= nearest_of(values, n) < n,
        values[0].nan() ==> nearest_of(values, n) == 0,
        values[nearest_of(values, n)].nan() ==> nearest_of(values, n) == 0,
        0 <= strongest_of(values, n) < n,
        values[n - 1].nan() ==> strongest_of(values, n) == n - 1,
    decreases n,
{
    if n > 1 {
        law_no_number_keeps_its_place(values, (n - 1) as nat);
    }
}

/// Law: the attention current leads along an edge of the particle, and where all weights of its
/// edges are numbers, none of them is heavier, and none that comes later is as heavy.
pub proof fn law_current_takes_the_heaviest_edge(csr: &Csr<Scalar>, i: int, e: int)
    requires
        csr.wf(),
        0 <= i < csr.n,
        csr.row_ptr[i] <= e < csr.row_ptr[i + 1],
        forall|k: int| csr.row_ptr[i] <= k < csr.row_ptr[i + 1] ==> !(#[trigger] csr.values[k]).nan(),
    ensures
        csr.row_ptr[i] <= strongest_entry(csr, i) < csr.row_ptr[i + 1],
        csr.values[e].at_most(csr.values[strongest_entry(csr, i)]),
        strongest_entry(csr, i) < e ==> csr.values[e].less(csr.values[strongest_entry(csr, i)]),
{
    let from = csr.row_ptr[i] as int;
    let to = csr.row_ptr[i + 1] as int;
    assert(csr.row_ptr[i + 1] <= csr.row_ptr[csr.n as int]);
    let row = csr.values@.subrange(from, to);
    assert forall|k: int| 0 <= k < row.len() implies !(#[trigger] row[k]).nan() by {
        assert(row[k] == csr.values[from + k]);
    }
    law_strongest_is_last_greatest(row, row.len());
    assert(row[e - from] == csr.values[e]);
    let s = strongest_of(row, row.len());
    assert(row[s] == csr.values[from + s]);
}

/// Law: every event is the end of a move that starts at the event before it; the first event is
/// one only where the cursor had been seen, and its move then starts there.
pub proof fn law_moves_join_events<S>(last: Option<[S; 2]>, events: Seq<[S; 2]>, count: nat, k: int)
    requires
        count <= events.len(),
        0 <= k < count,
    ensures
        last is Some ==> moves(last, events, count).len() == count && moves(last, events, count)[k]
            == (if k == 0 {
            last.unwrap()
        } else {
            events[k - 1]
        }, events[k]),
        last is None ==> moves(last, events, count).len() == count - 1 && (k > 0 ==> moves(
            last,
            events,
            count,
        )[k - 1] == (events[k - 1], events[k])),
    decreases count,
{
    if count > 1 {
        if k < count - 1 {
            law_moves_join_events(last, events, (count - 1) as nat, k);
        } else {
            law_moves_join_events(last, events, (count - 1) as nat, 0);
        }
    } else {
        assert(moves(last, events, 0).len() == 0);
    }
}

} // verus!
