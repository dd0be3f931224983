//! The paint pass: one kernel per frame.
//!
//! Per pixel: edge glow first, splats composited over it back to front, and sphere
//! impostors ray-cast on top. What stands here is what the kernel is handed: the depth
//! order, the interleaved particle records, and the edge segments.

use std::collections::HashSet;
use vstd::prelude::*;

use crate::frame::cull::{solid_particles, sort_by_index, TierLevel};
use crate::order::gather;
use crate::ranking::rank_descending;
use crate::scalar::Scalar;

verus! {

broadcast use vstd::std_specs::hash::group_hash_axioms;

// ── Depth order ──────────────────────────────────────────────────────────────

/// The particles of a visible set, in order.
pub open spec fn indices_of(entries: Seq<(u32, TierLevel)>) -> Seq<u32> {
    entries.map_values(|e: (u32, TierLevel)| e.0)
}

/// Particle `a` compares before particle `b`: it is farther away, or as far and of lower
/// index. A depth that is not a number is as far as every other. `depths` holds the depth of
/// each particle.
pub open spec fn is_farther(depths: Seq<Scalar>, a: u32, b: u32) -> bool {
    let (x, y) = (depths[a as int], depths[b as int]);
    if x.nan() || y.nan() || x.rank() == y.rank() {
        a < b
    } else {
        y.less(x)
    }
}

/// The comparisons of the visible particles do not contradict each other.
pub open spec fn are_comparable(entries: Seq<(u32, TierLevel)>, depths: Seq<Scalar>) -> bool {
    forall|a: u32, b: u32, c: u32|
        indices_of(entries).contains(a) && indices_of(entries).contains(b) && indices_of(
            entries,
        ).contains(c) && #[trigger] is_farther(depths, a, b) && #[trigger] is_farther(depths, b, c)
            ==> is_farther(depths, a, c)
}

/// Entry `k` has a depth that is a number, and a lower index than `p`.
pub open spec fn is_depth_below(
    entries: Seq<(u32, TierLevel)>,
    depths: Seq<Scalar>,
    k: int,
    p: u32,
) -> bool {
    0 <= k < entries.len() && entries[k].0 < p && !depths[entries[k].0 as int].nan()
}

/// The least depth of the visible particles of lower index than `p`, among the first `upto`
/// entries.
pub open spec fn least_depth_below(
    entries: Seq<(u32, TierLevel)>,
    depths: Seq<Scalar>,
    p: u32,
    upto: nat,
) -> int
    decreases upto,
{
    if upto == 0 {
        crate::ranking::ABOVE_ALL as int
    } else {
        let k = upto - 1;
        let rest = least_depth_below(entries, depths, p, k as nat);
        let rank = depths[entries[k].0 as int].rank();
        if is_depth_below(entries, depths, k, p) && rank < rest {
            rank
        } else {
            rest
        }
    }
}

/// How far away particle `p` is drawn. One whose depth is not a number is drawn as far away as
/// the nearest visible particle of lower index, which is where its index alone puts it.
pub open spec fn drawn_depth(entries: Seq<(u32, TierLevel)>, depths: Seq<Scalar>, p: u32) -> int {
    if depths[p as int].nan() {
        least_depth_below(entries, depths, p, entries.len())
    } else {
        depths[p as int].rank()
    }
}

/// Particle `a` is drawn before particle `b` or with it: farther away, or as far and of no
/// higher index.
pub open spec fn drawn_before(
    entries: Seq<(u32, TierLevel)>,
    depths: Seq<Scalar>,
    a: u32,
    b: u32,
) -> bool {
    let (da, db) = (drawn_depth(entries, depths, a), drawn_depth(entries, depths, b));
    da > db || (da == db && a <= b)
}

/// `sorted` lists the particles of `entries` back to front.
pub open spec fn is_depth_order(
    entries: Seq<(u32, TierLevel)>,
    depths: Seq<Scalar>,
    sorted: Seq<u32>,
) -> bool {
    &&& sorted.to_multiset() == indices_of(entries).to_multiset()
    &&& forall|i: int, j: int|
        0 <= i < j < sorted.len() ==> drawn_before(
            entries,
            depths,
            #[trigger] sorted[i],
            #[trigger] sorted[j],
        )
}

/// `sorted` follows the comparisons.
pub open spec fn follows_depths(depths: Seq<Scalar>, sorted: Seq<u32>) -> bool {
    forall|i: int, j: int|
        0 <= i < j < sorted.len() ==> sorted[i] == sorted[j] || is_farther(
            depths,
            #[trigger] sorted[i],
            #[trigger] sorted[j],
        )
}

/// `f` is what `least_depth_below` says of particle `p`.
spec fn is_least_depth_below(
    entries: Seq<(u32, TierLevel)>,
    depths: Seq<Scalar>,
    p: u32,
    f: int,
) -> bool {
    &&& f <= crate::ranking::ABOVE_ALL
    &&& forall|k: int| #[trigger]
        is_depth_below(entries, depths, k, p) ==> f <= depths[entries[k].0 as int].rank()
    &&& f == crate::ranking::ABOVE_ALL || exists|k: int| #[trigger]
        is_depth_below(entries, depths, k, p) && depths[entries[k].0 as int].rank() == f
}

proof fn lemma_least_upto(
    entries: Seq<(u32, TierLevel)>,
    depths: Seq<Scalar>,
    p: u32,
    upto: nat,
)
    requires
        upto <= entries.len(),
    ensures
        ({
            let f = least_depth_below(entries, depths, p, upto);
            &&& f <= crate::ranking::ABOVE_ALL
            &&& forall|k: int|
                k < upto && #[trigger] is_depth_below(entries, depths, k, p) ==> f
                    <= depths[entries[k].0 as int].rank()
            &&& f == crate::ranking::ABOVE_ALL || exists|k: int| #[trigger]
                is_depth_below(entries, depths, k, p) && depths[entries[k].0 as int].rank() == f
        }),
    decreases upto,
{
    if upto > 0 {
        lemma_least_upto(entries, depths, p, (upto - 1) as nat);
        let f = least_depth_below(entries, depths, p, upto);
        let rest = least_depth_below(entries, depths, p, (upto - 1) as nat);
        if f != rest {
            assert(is_depth_below(entries, depths, upto - 1, p));
        } else if rest != crate::ranking::ABOVE_ALL {
            let k = choose|k: int| #[trigger]
                is_depth_below(entries, depths, k, p) && depths[entries[k].0 as int].rank() == rest;
            assert(is_depth_below(entries, depths, k, p));
        }
    }
}

/// Only one depth is the least.
proof fn lemma_least_unique(
    entries: Seq<(u32, TierLevel)>,
    depths: Seq<Scalar>,
    p: u32,
    f: int,
)
    requires
        is_least_depth_below(entries, depths, p, f),
    ensures
        least_depth_below(entries, depths, p, entries.len()) == f,
{
    lemma_least_upto(entries, depths, p, entries.len());
    let g = least_depth_below(entries, depths, p, entries.len());
    if f < g {
        let k = choose|k: int| #[trigger]
            is_depth_below(entries, depths, k, p) && depths[entries[k].0 as int].rank() == f;
        assert(g <= depths[entries[k].0 as int].rank());
    } else if g < f {
        let k = choose|k: int| #[trigger]
            is_depth_below(entries, depths, k, p) && depths[entries[k].0 as int].rank() == g;
        assert(f <= depths[entries[k].0 as int].rank());
    }
}

/// The depth of each entry.
spec fn depths_of(entries: Seq<(u32, TierLevel)>, depths: Seq<Scalar>) -> Seq<Scalar> {
    entries.map_values(|e: (u32, TierLevel)| depths[e.0 as int])
}

/// The place of each entry: its index.
spec fn places_of(entries: Seq<(u32, TierLevel)>) -> Seq<int> {
    entries.map_values(|e: (u32, TierLevel)| e.0 as int)
}

/// An entry stands as high as its particle is drawn far away.
proof fn lemma_drawn_depth(entries: Seq<(u32, TierLevel)>, depths: Seq<Scalar>, c: int)
    requires
        0 <= c < entries.len(),
    ensures
        drawn_depth(entries, depths, entries[c].0) == crate::ranking::standing(
            depths_of(entries, depths),
            places_of(entries),
            c,
        ),
{
    let (values, places) = (depths_of(entries, depths), places_of(entries));
    let p = entries[c].0;
    if depths[p as int].nan() {
        crate::ranking::lemma_lowest_before(values, places, c);
        let f = crate::ranking::lowest_before(values, places, c, values.len());
        assert forall|k: int| #[trigger] is_depth_below(entries, depths, k, p) implies f
            <= depths[entries[k].0 as int].rank() by {
            assert(crate::ranking::is_number_before(values, places, k, c));
        }
        if f != crate::ranking::ABOVE_ALL {
            let d = choose|d: int| #[trigger]
                crate::ranking::is_number_before(values, places, d, c) && values[d].rank() == f;
            assert(is_depth_below(entries, depths, d, p));
        }
        lemma_least_unique(entries, depths, p, f);
    }
}

/// Sorts particles back to front. `depths` holds the depth of each particle of the graph.
/// Ties break on the index, so two particles at the same depth keep the same order every
/// frame. A depth that is not a number ties with every other.
pub fn sort_by_depth(entries: &[(u32, TierLevel)], depths: &[Scalar]) -> (sorted: Vec<u32>)
    requires
        forall|k: int| 0 <= k < entries.len() ==> (#[trigger] entries[k]).0 < depths.len(),
    ensures
        is_depth_order(entries@, depths@, sorted@),
        are_comparable(entries@, depths@) ==> follows_depths(depths@, sorted@),
{
    let mut values: Vec<Scalar> = Vec::with_capacity(entries.len());
    let mut places: Vec<usize> = Vec::with_capacity(entries.len());
    let mut all: Vec<u32> = Vec::with_capacity(entries.len());
    let mut k: usize = 0;
    while k < entries.len()
        invariant
            k <= entries.len(),
            values.len() == k,
            places.len() == k,
            all.len() == k,
            forall|i: int| 0 <= i < entries.len() ==> (#[trigger] entries[i]).0 < depths.len(),
            forall|i: int| 0 <= i < k ==> #[trigger] all[i] == entries[i].0,
            forall|i: int| 0 <= i < k ==> #[trigger] places[i] == entries[i].0,
            forall|i: int| 0 <= i < k ==> #[trigger] values[i] == depths[entries[i].0 as int],
        decreases entries.len() - k,
    {
        let entry: (u32, TierLevel) = entries[k];
        let idx: u32 = entry.0;
        all.push(idx);
        places.push(idx as usize);
        values.push(depths[idx as usize]);
        k = k + 1;
    }
    let order = rank_descending(values.as_slice(), places.as_slice());
    let sorted = gather(all.as_slice(), order.as_slice());
    proof {
        assert(all@ =~= indices_of(entries@));
        assert(values@ =~= depths_of(entries@, depths@));
        assert(crate::ranking::numbers(places@) =~= places_of(entries@));
        crate::order::lemma_reordered_multiset(all@, order@, sorted@);
        assert forall|i: int, j: int| 0 <= i < j < sorted.len() implies drawn_before(
            entries@,
            depths@,
            #[trigger] sorted@[i],
            #[trigger] sorted@[j],
        ) by {
            let (a, b) = (order@[i] as int, order@[j] as int);
            assert(crate::ranking::stands_before(
                values@,
                places_of(entries@),
                order@[i] as int,
                order@[j] as int,
            ));
            lemma_drawn_depth(entries@, depths@, a);
            lemma_drawn_depth(entries@, depths@, b);
        }
        if are_comparable(entries@, depths@) {
            law_depth_order_follows_depths(entries@, depths@, sorted@);
        }
    }
    sorted
}

/// Law: where the comparisons of the visible particles do not contradict each other, the depth
/// order follows them.
pub proof fn law_depth_order_follows_depths(
    entries: Seq<(u32, TierLevel)>,
    depths: Seq<Scalar>,
    sorted: Seq<u32>,
)
    requires
        is_depth_order(entries, depths, sorted),
        are_comparable(entries, depths),
    ensures
        follows_depths(depths, sorted),
{
    broadcast use vstd::seq_lib::group_to_multiset_ensures;

    let all = indices_of(entries);
    assert forall|i: int, j: int| 0 <= i < j < sorted.len() implies sorted[i] == sorted[j]
        || is_farther(depths, #[trigger] sorted[i], #[trigger] sorted[j]) by {
        let (a, b) = (sorted[i], sorted[j]);
        assert(drawn_before(entries, depths, a, b));
        assert(sorted.contains(a) && sorted.contains(b));
        assert(sorted.to_multiset().count(a) > 0 && sorted.to_multiset().count(b) > 0);
        assert(all.contains(a) && all.contains(b));
        if a != b && is_farther(depths, b, a) {
            lemma_farther_is_drawn_before(entries, depths, b, a);
        }
    }
}

/// A visible particle that compares before another is drawn before it.
proof fn lemma_farther_is_drawn_before(
    entries: Seq<(u32, TierLevel)>,
    depths: Seq<Scalar>,
    a: u32,
    b: u32,
)
    requires
        are_comparable(entries, depths),
        indices_of(entries).contains(a),
        indices_of(entries).contains(b),
        a != b,
        is_farther(depths, a, b),
    ensures
        !drawn_before(entries, depths, b, a),
{
    let all = indices_of(entries);
    lemma_least_upto(entries, depths, a, entries.len());
    lemma_least_upto(entries, depths, b, entries.len());
    let (x, y) = (depths[a as int], depths[b as int]);
    let f = drawn_depth(entries, depths, a);
    if x.nan() && f != crate::ranking::ABOVE_ALL {
        let k = choose|k: int| #[trigger]
            is_depth_below(entries, depths, k, a) && depths[entries[k].0 as int].rank() == f;
        let d = entries[k].0;
        assert(all[k] == d);
        assert(is_farther(depths, d, a));
        assert(is_farther(depths, d, b));
        if y.nan() {
            assert(is_depth_below(entries, depths, k, b));
        }
    } else if !x.nan() && y.nan() {
        let k = choose|k: int| 0 <= k < all.len() && all[k] == a;
        assert(is_depth_below(entries, depths, k, b));
    }
}

/// How far away a particle is drawn depends on which particles are visible, not on their order.
proof fn lemma_drawn_depth_ignores_order(
    first: Seq<(u32, TierLevel)>,
    second: Seq<(u32, TierLevel)>,
    depths: Seq<Scalar>,
    p: u32,
)
    requires
        indices_of(first).to_multiset() == indices_of(second).to_multiset(),
    ensures
        drawn_depth(first, depths, p) == drawn_depth(second, depths, p),
{
    broadcast use vstd::seq_lib::group_to_multiset_ensures;

    let (a, b) = (indices_of(first), indices_of(second));
    assert forall|v: u32| a.contains(v) == b.contains(v) by {
        assert(a.contains(v) <==> a.to_multiset().count(v) > 0);
        assert(b.contains(v) <==> b.to_multiset().count(v) > 0);
    }
    lemma_least_upto(first, depths, p, first.len());
    let f = least_depth_below(first, depths, p, first.len());
    assert forall|k: int| #[trigger] is_depth_below(second, depths, k, p) implies f
        <= depths[second[k].0 as int].rank() by {
        assert(b[k] == second[k].0);
        assert(a.contains(second[k].0));
        let j = choose|j: int| 0 <= j < a.len() && a[j] == second[k].0;
        assert(is_depth_below(first, depths, j, p));
    }
    if f != crate::ranking::ABOVE_ALL {
        let k = choose|k: int| #[trigger]
            is_depth_below(first, depths, k, p) && depths[first[k].0 as int].rank() == f;
        assert(a[k] == first[k].0);
        assert(b.contains(first[k].0));
        let j = choose|j: int| 0 <= j < b.len() && b[j] == first[k].0;
        assert(is_depth_below(second, depths, j, p));
    }
    lemma_least_unique(second, depths, p, f);
}

/// Law: the depth order depends on which particles are visible and how deep they are, not
/// on the order in which the cull lists them.
pub proof fn law_depth_order_ignores_cull_order(
    first: Seq<(u32, TierLevel)>,
    second: Seq<(u32, TierLevel)>,
    depths: Seq<Scalar>,
    sorted_first: Seq<u32>,
    sorted_second: Seq<u32>,
)
    requires
        indices_of(first).to_multiset() == indices_of(second).to_multiset(),
        is_depth_order(first, depths, sorted_first),
        is_depth_order(second, depths, sorted_second),
    ensures
        sorted_first == sorted_second,
{
    let leq = |a: u32, b: u32| drawn_before(first, depths, a, b);
    assert(vstd::relations::total_ordering(leq));
    assert(vstd::relations::sorted_by(sorted_first, leq)) by {
        assert forall|i: int, j: int| 0 <= i < j < sorted_first.len() implies #[trigger] leq(
            sorted_first[i],
            sorted_first[j],
        ) by {
            assert(drawn_before(first, depths, sorted_first[i], sorted_first[j]));
        }
    }
    assert(vstd::relations::sorted_by(sorted_second, leq)) by {
        assert forall|i: int, j: int| 0 <= i < j < sorted_second.len() implies #[trigger] leq(
            sorted_second[i],
            sorted_second[j],
        ) by {
            assert(drawn_before(second, depths, sorted_second[i], sorted_second[j]));
            lemma_drawn_depth_ignores_order(first, second, depths, sorted_second[i]);
            lemma_drawn_depth_ignores_order(first, second, depths, sorted_second[j]);
        }
    }
    vstd::seq_lib::lemma_sorted_unique(sorted_first, sorted_second, leq);
}

/// Law: every visible particle is drawn as often as it is listed, and of two whose depths are
/// numbers the deeper comes first, or the one of lower index where they are as deep.
pub proof fn law_deeper_particles_come_first(
    entries: Seq<(u32, TierLevel)>,
    depths: Seq<Scalar>,
    sorted: Seq<u32>,
    i: int,
    j: int,
)
    requires
        is_depth_order(entries, depths, sorted),
        0 <= i < j < sorted.len(),
        !depths[sorted[i] as int].nan(),
        !depths[sorted[j] as int].nan(),
    ensures
        sorted.len() == entries.len(),
        !depths[sorted[i] as int].less(depths[sorted[j] as int]),
        !depths[sorted[j] as int].less(depths[sorted[i] as int]) ==> sorted[i] <= sorted[j],
        exists|k: int| 0 <= k < entries.len() && (#[trigger] entries[k]).0 == sorted[i],
{
    broadcast use vstd::seq_lib::group_to_multiset_ensures;

    assert(drawn_before(entries, depths, sorted[i], sorted[j]));
    let all = indices_of(entries);
    vstd::seq_lib::to_multiset_len(sorted);
    vstd::seq_lib::to_multiset_len(all);
    assert(sorted.contains(sorted[i]));
    assert(all.to_multiset().count(sorted[i]) > 0);
    assert(all.contains(sorted[i]));
    let k = choose|k: int| 0 <= k < all.len() && all[k] == sorted[i];
    assert(entries[k].0 == sorted[i]);
}

// ── Edge segments ────────────────────────────────────────────────────────────

/// Patterns of the narrowest and the widest half width of an edge, 0.25 and 0.6.
pub const NARROWEST: u32 = 0x3e80_0000;

pub const WIDEST: u32 = 0x3f19_999a;

/// The half width of an edge: `width`, clamped.
pub open spec fn half_width(width: Scalar) -> Scalar {
    if width.less(Scalar { bits: NARROWEST }) {
        Scalar { bits: NARROWEST }
    } else if (Scalar { bits: WIDEST }).less(width) {
        Scalar { bits: WIDEST }
    } else {
        width
    }
}

/// Law: a half width is kept between 0.25 and 0.6: one in between stays as it is, one below or
/// above becomes the nearest of the two.
pub proof fn law_half_widths_are_clamped(width: Scalar)
    ensures
        !width.nan() ==> (Scalar { bits: 0x3e80_0000 }).at_most(half_width(width)) && half_width(
            width,
        ).at_most(Scalar { bits: 0x3f19_999a }),
        (Scalar { bits: 0x3e80_0000 }).at_most(width) && width.at_most(
            Scalar { bits: 0x3f19_999a },
        ) ==> half_width(width) == width,
        width.less(Scalar { bits: 0x3e80_0000 }) ==> half_width(width).bits == 0x3e80_0000,
        (Scalar { bits: 0x3f19_999a }).less(width) ==> half_width(width).bits == 0x3f19_999a,
        width.nan() ==> half_width(width) == width,
{
}

/// The width of edge `k`; zero where none is given.
pub open spec fn width_at(widths: Seq<Scalar>, k: int) -> Scalar {
    if k < widths.len() {
        widths[k]
    } else {
        Scalar { bits: 0 }
    }
}

/// The record of an edge: both ends on screen, the half width, and the glow's colour,
/// patterns of (0.05, 0.60, 0.10).
pub open spec fn segment_of(a: [Scalar; 2], b: [Scalar; 2], width: Scalar) -> Seq<Scalar> {
    seq![
        a[0],
        a[1],
        b[0],
        b[1],
        half_width(width),
        Scalar { bits: 0x3d4c_cccd },
        Scalar { bits: 0x3f19_999a },
        Scalar { bits: 0x3dcc_cccd },
    ]
}

/// The records of the first `count` edges; an edge with an end off screen has none.
pub open spec fn segments_of(
    edges: Seq<(u32, u32)>,
    widths: Seq<Scalar>,
    screen: Seq<Option<[Scalar; 2]>>,
    count: nat,
) -> Seq<Scalar>
    decreases count,
{
    if count == 0 {
        Seq::empty()
    } else {
        let k = count - 1;
        let before = segments_of(edges, widths, screen, k as nat);
        match (screen[edges[k].0 as int], screen[edges[k].1 as int]) {
            (Some(a), Some(b)) => before + segment_of(a, b, width_at(widths, k)),
            _ => before,
        }
    }
}

/// Law: an edge has a record exactly where both of its ends are on screen. The record stands after
/// those of the edges before it and holds where the first end is, where the second is, the half
/// width, and one colour for all edges; an edge without a width is as narrow as can be.
pub proof fn law_edges_on_screen_have_records(
    edges: Seq<(u32, u32)>,
    widths: Seq<Scalar>,
    screen: Seq<Option<[Scalar; 2]>>,
    count: nat,
    k: int,
)
    requires
        count <= edges.len(),
    ensures
        segments_of(edges, widths, screen, count).len() == 8 * edges.take(count as int).filter(
            |edge: (u32, u32)| screen[edge.0 as int] is Some && screen[edge.1 as int] is Some,
        ).len(),
        0 <= k < count && screen[edges[k].0 as int] is Some && screen[edges[k].1 as int] is Some
            ==> {
            let m = edges.take(k).filter(
                |edge: (u32, u32)| screen[edge.0 as int] is Some && screen[edge.1 as int] is Some,
            ).len() as int;
            let segs = segments_of(edges, widths, screen, count);
            &&& 8 * m + 8 <= segs.len()
            &&& segs[8 * m] == screen[edges[k].0 as int].unwrap()[0]
            &&& segs[8 * m + 1] == screen[edges[k].0 as int].unwrap()[1]
            &&& segs[8 * m + 2] == screen[edges[k].1 as int].unwrap()[0]
            &&& segs[8 * m + 3] == screen[edges[k].1 as int].unwrap()[1]
            &&& k < widths.len() ==> segs[8 * m + 4] == half_width(widths[k])
            &&& widths.len() <= k ==> segs[8 * m + 4].bits == 0x3e80_0000
            &&& segs[8 * m + 5].bits == 0x3d4c_cccd
            &&& segs[8 * m + 6].bits == 0x3f19_999a
            &&& segs[8 * m + 7].bits == 0x3dcc_cccd
        },
    decreases count,
{
    reveal(Seq::filter);
    if count > 0 {
        let last = count - 1;
        law_edges_on_screen_have_records(edges, widths, screen, last as nat, k);
        assert(edges.take(count as int).drop_last() =~= edges.take(last));
        assert(edges.take(count as int).last() == edges[last]);
    }
}

/// The glow segments of the edges whose ends are both on screen. `screen` holds where each
/// particle appears, if it does; `widths` the unclamped half width of each edge.
pub fn edge_segments(
    edge_list: &[(u32, u32)],
    widths: &[Scalar],
    screen: &[Option<[Scalar; 2]>],
) -> (segs: Vec<Scalar>)
    requires
        forall|k: int|
            0 <= k < edge_list.len() ==> (#[trigger] edge_list[k]).0 < screen.len()
                && edge_list[k].1 < screen.len(),
    ensures
        segs@ == segments_of(edge_list@, widths@, screen@, edge_list@.len()),
{
    let mut segs: Vec<Scalar> = Vec::new();
    let mut k: usize = 0;
    while k < edge_list.len()
        invariant
            k <= edge_list.len(),
            forall|i: int|
                0 <= i < edge_list.len() ==> (#[trigger] edge_list[i]).0 < screen.len()
                    && edge_list[i].1 < screen.len(),
            segs@ == segments_of(edge_list@, widths@, screen@, k as nat),
        decreases edge_list.len() - k,
    {
        let edge: (u32, u32) = edge_list[k];
        let width = if k < widths.len() {
            widths[k]
        } else {
            Scalar { bits: 0 }
        };
        if let (Some(a), Some(b)) = (screen[edge.0 as usize], screen[edge.1 as usize]) {
            let ghost before = segs@;
            segs.push(a[0]);
            segs.push(a[1]);
            segs.push(b[0]);
            segs.push(b[1]);
            segs.push(clamp_width(width));
            segs.push(Scalar { bits: 0x3d4c_cccd });
            segs.push(Scalar { bits: 0x3f19_999a });
            segs.push(Scalar { bits: 0x3dcc_cccd });
            assert(segs@ =~= before + segment_of(a, b, width_at(widths@, k as int)));
        }
        k = k + 1;
    }
    segs
}

fn clamp_width(width: Scalar) -> (r: Scalar)
    ensures
        r == half_width(width),
{
    if width.is_less(Scalar { bits: NARROWEST }) {
        Scalar { bits: NARROWEST }
    } else if (Scalar { bits: WIDEST }).is_less(width) {
        Scalar { bits: WIDEST }
    } else {
        width
    }
}

// ── Particle records ─────────────────────────────────────────────────────────

/// Value `c` of a particle's record: position, radius, colour, and a mark.
pub open spec fn record_value<S>(
    idx: int,
    positions: Seq<S>,
    radii: Seq<S>,
    colors: Seq<S>,
    mark: S,
    c: int,
) -> S {
    if c < 3 {
        positions[3 * idx + c]
    } else if c == 3 {
        radii[idx]
    } else if c < 7 {
        colors[3 * idx + c - 4]
    } else {
        mark
    }
}

/// Particle `idx` has a position, a radius and a colour.
pub open spec fn is_drawable<S>(idx: int, positions: Seq<S>, radii: Seq<S>, colors: Seq<S>) -> bool {
    3 * idx + 2 < positions.len() && idx < radii.len() && 3 * idx + 2 < colors.len()
}

fn push_record<S: Copy>(
    out: &mut Vec<S>,
    idx: u32,
    positions: &[S],
    radii: &[S],
    colors: &[S],
    mark: S,
)
    requires
        is_drawable(idx as int, positions@, radii@, colors@),
    ensures
        final(out).len() == old(out).len() + 8,
        forall|i: int| 0 <= i < old(out).len() ==> #[trigger] final(out)@[i] == old(out)@[i],
        forall|c: int|
            0 <= c < 8 ==> #[trigger] final(out)@[old(out).len() + c] == record_value(
                idx as int,
                positions@,
                radii@,
                colors@,
                mark,
                c,
            ),
{
    assert(3 * idx + 2 < positions.len());
    let b: usize = idx as usize * 3;
    out.push(positions[b]);
    out.push(positions[b + 1]);
    out.push(positions[b + 2]);
    out.push(radii[idx as usize]);
    out.push(colors[b]);
    out.push(colors[b + 1]);
    out.push(colors[b + 2]);
    out.push(mark);
}

/// What the kernel is handed: the splats back to front, the spheres, and how many of each
/// there are, with the number of edge segments.
pub struct PaintPlan<S> {
    pub splats: Vec<S>,
    pub spheres: Vec<S>,
    pub counts: [u32; 4],
}

/// `out` holds the records of `idxs`, the mark of each given by `mark`.
pub open spec fn holds_records<S>(
    idxs: Seq<u32>,
    positions: Seq<S>,
    radii: Seq<S>,
    colors: Seq<S>,
    mark: spec_fn(u32) -> S,
    out: Seq<S>,
) -> bool {
    &&& out.len() == 8 * idxs.len()
    &&& forall|k: int, c: int|
        0 <= k < idxs.len() && 0 <= c < 8 ==> #[trigger] out[8 * k + c] == record_value(
            idxs[k] as int,
            positions,
            radii,
            colors,
            mark(idxs[k]),
            c,
        )
}

/// The particles that have a sphere, in the cull's order.
pub open spec fn solids(visible: Seq<(u32, TierLevel)>) -> Seq<u32> {
    crate::frame::cull::indices_where(visible, |t: TierLevel| t.solid())
}

/// The particles that have a sphere, by index. Of two spheres that a ray hits at the same
/// distance the kernel keeps the first, so the cull's order must not decide which that is.
pub open spec fn spheres_of(visible: Seq<(u32, TierLevel)>) -> Seq<u32> {
    crate::frame::cull::by_index(solids(visible))
}

/// `plan` lays the frame out: a record for each splat, marked with `one` where the particle
/// also has a sphere; a record for each sphere, by particle index, or a blank one where there
/// are none.
pub open spec fn is_plan_of<S>(
    sorted: Seq<u32>,
    visible: Seq<(u32, TierLevel)>,
    positions: Seq<S>,
    radii: Seq<S>,
    colors: Seq<S>,
    segment_values: usize,
    zero: S,
    one: S,
    plan: &PaintPlan<S>,
) -> bool {
    let solid = spheres_of(visible);
    let mark = |idx: u32|
        if solid.contains(idx) {
            one
        } else {
            zero
        };
    &&& holds_records(sorted, positions, radii, colors, mark, plan.splats@)
    &&& if solid.len() == 0 {
        plan.spheres@ == Seq::new(8, |i: int| zero)
    } else {
        holds_records(solid, positions, radii, colors, |idx: u32| zero, plan.spheres@)
    }
    &&& plan.counts[0] == sorted.len()
    &&& plan.counts[1] == solid.len()
    &&& plan.counts[2] == segment_values / 8
    &&& plan.counts[3] == 0
}

/// Lays a frame out for the kernel. A splat of a particle that also has a sphere is marked
/// with `one`, so that the kernel leaves the particle to the sphere; all other marks are
/// `zero`. Without particles there is nothing to paint. The kernel counts in 32 bits.
pub fn plan_paint<S: Copy>(
    sorted: &[u32],
    visible: &[(u32, TierLevel)],
    positions: &[S],
    radii: &[S],
    colors: &[S],
    segment_values: usize,
    zero: S,
    one: S,
) -> (plan: Option<PaintPlan<S>>)
    requires
        forall|k: int|
            0 <= k < sorted.len() ==> is_drawable(
                #[trigger] sorted[k] as int,
                positions@,
                radii@,
                colors@,
            ),
        forall|k: int|
            0 <= k < visible.len() ==> is_drawable(
                (#[trigger] visible[k]).0 as int,
                positions@,
                radii@,
                colors@,
            ),
        sorted.len() <= u32::MAX,
        solids(visible@).len() <= u32::MAX,
        segment_values / 8 <= u32::MAX,
    ensures
        plan is None <==> sorted.len() == 0,
        plan matches Some(p) ==> is_plan_of(
            sorted@,
            visible@,
            positions@,
            radii@,
            colors@,
            segment_values,
            zero,
            one,
            &p,
        ),
{
    if sorted.len() == 0 {
        return None;
    }
    let n: u32 = sorted.len() as u32;
    let solid_idx = sort_by_index(solid_particles(visible).as_slice());
    let ghost solid = solid_idx@;
    proof {
        crate::frame::cull::lemma_kept_is_visible(visible@, |t: TierLevel| t.solid());
        crate::frame::cull::lemma_by_index(solids(visible@));
        assert forall|m: int| 0 <= m < solid.len() implies is_drawable(
            #[trigger] solid[m] as int,
            positions@,
            radii@,
            colors@,
        ) by {
            assert(solid.contains(solid[m]));
            let kept = solids(visible@);
            let i = choose|i: int| 0 <= i < kept.len() && kept[i] == solid[m];
            assert(kept[i] == solid[m]);
            let k = choose|k: int|
                0 <= k < visible.len() && (#[trigger] visible@[k]).0 == kept[i];
            assert(visible@[k].0 == solid[m]);
        }
    }
    let mut solid_set: HashSet<u32> = HashSet::new();
    let mut k: usize = 0;
    while k < solid_idx.len()
        invariant
            k <= solid_idx.len(),
            solid == solid_idx@,
            forall|v: u32| #[trigger] solid_set@.contains(v) <==> solid.take(k as int).contains(v),
        decreases solid_idx.len() - k,
    {
        let idx: u32 = solid_idx[k];
        solid_set.insert(idx);
        proof {
            let before = solid.take(k as int);
            let now = solid.take(k + 1);
            assert(now[k as int] == idx);
            assert forall|v: u32| #[trigger] solid_set@.contains(v) <==> now.contains(v) by {
                if before.contains(v) {
                    let i = choose|i: int| 0 <= i < before.len() && before[i] == v;
                    assert(now[i] == v);
                }
                if now.contains(v) && v != idx {
                    let i = choose|i: int| 0 <= i < now.len() && now[i] == v;
                    assert(before[i] == v);
                }
            }
        }
        k = k + 1;
    }
    assert(solid.take(solid_idx.len() as int) =~= solid);
    let ghost mark = |idx: u32|
        if solid.contains(idx) {
            one
        } else {
            zero
        };
    let mut splats: Vec<S> = Vec::new();
    let mut i: usize = 0;
    while i < sorted.len()
        invariant
            i <= sorted.len(),
            forall|j: int|
                0 <= j < sorted.len() ==> is_drawable(
                    #[trigger] sorted[j] as int,
                    positions@,
                    radii@,
                    colors@,
                ),
            forall|v: u32| #[trigger] solid_set@.contains(v) <==> solid.contains(v),
            mark == (|idx: u32|
                if solid.contains(idx) {
                    one
                } else {
                    zero
                }),
            holds_records(sorted@.take(i as int), positions@, radii@, colors@, mark, splats@),
        decreases sorted.len() - i,
    {
        let idx: u32 = sorted[i];
        let flag: S = if solid_set.contains(&idx) {
            one
        } else {
            zero
        };
        let ghost before = splats@;
        push_record(&mut splats, idx, positions, radii, colors, flag);
        proof {
            lemma_records_push(
                sorted@.take(i as int),
                idx,
                positions@,
                radii@,
                colors@,
                mark,
                before,
                splats@,
            );
            assert(sorted@.take(i as int).push(idx) =~= sorted@.take(i + 1));
        }
        i = i + 1;
    }
    assert(sorted@.take(sorted.len() as int) =~= sorted@);
    let mut spheres: Vec<S> = Vec::new();
    let ghost plain = |idx: u32| zero;
    let mut j: usize = 0;
    while j < solid_idx.len()
        invariant
            j <= solid_idx.len(),
            solid == solid_idx@,
            forall|m: int|
                0 <= m < solid.len() ==> is_drawable(
                    #[trigger] solid[m] as int,
                    positions@,
                    radii@,
                    colors@,
                ),
            plain == (|idx: u32| zero),
            holds_records(solid.take(j as int), positions@, radii@, colors@, plain, spheres@),
        decreases solid_idx.len() - j,
    {
        let idx: u32 = solid_idx[j];
        assert(solid[j as int] == idx);
        let ghost before = spheres@;
        push_record(&mut spheres, idx, positions, radii, colors, zero);
        proof {
            lemma_records_push(
                solid.take(j as int),
                idx,
                positions@,
                radii@,
                colors@,
                plain,
                before,
                spheres@,
            );
            assert(solid.take(j as int).push(idx) =~= solid.take(j + 1));
        }
        j = j + 1;
    }
    if solid_idx.len() == 0 {
        spheres = blank(zero);
    }
    let m: u32 = solid_idx.len() as u32;
    let n_edges: u32 = (segment_values / 8) as u32;
    Some(PaintPlan { splats, spheres, counts: [n, m, n_edges, 0] })
}

/// Law: what the kernel is handed does not depend on the order in which the cull lists the
/// particles: the splats, the spheres and the counts are the same.
pub proof fn law_plans_ignore_cull_order<S>(
    sorted: Seq<u32>,
    first: Seq<(u32, TierLevel)>,
    second: Seq<(u32, TierLevel)>,
    positions: Seq<S>,
    radii: Seq<S>,
    colors: Seq<S>,
    segment_values: usize,
    zero: S,
    one: S,
    plan_first: &PaintPlan<S>,
    plan_second: &PaintPlan<S>,
)
    requires
        first.to_multiset() == second.to_multiset(),
        is_plan_of(sorted, first, positions, radii, colors, segment_values, zero, one, plan_first),
        is_plan_of(sorted, second, positions, radii, colors, segment_values, zero, one, plan_second),
    ensures
        plan_first.splats@ == plan_second.splats@,
        plan_first.counts@ == plan_second.counts@,
        plan_first.spheres@ == plan_second.spheres@,
{
    let (a, b) = (spheres_of(first), spheres_of(second));
    crate::frame::cull::lemma_kept_multiset(first, second, |t: TierLevel| t.solid());
    crate::frame::cull::lemma_by_index_unique(solids(first), solids(second));
    let mark = |idx: u32|
        if a.contains(idx) {
            one
        } else {
            zero
        };
    assert forall|i: int| 0 <= i < plan_first.splats@.len() implies plan_first.splats@[i]
        == plan_second.splats@[i] by {
        let (k, c) = (i / 8, i % 8);
        assert(plan_first.splats@[8 * k + c] == plan_second.splats@[8 * k + c]);
    }
    assert(plan_first.splats@ =~= plan_second.splats@);
    assert(plan_first.counts@ =~= plan_second.counts@);
    if a.len() > 0 {
        assert forall|i: int| 0 <= i < plan_first.spheres@.len() implies plan_first.spheres@[i]
            == plan_second.spheres@[i] by {
            let (k, c) = (i / 8, i % 8);
            assert(plan_first.spheres@[8 * k + c] == plan_second.spheres@[8 * k + c]);
        }
        assert(plan_first.spheres@ =~= plan_second.spheres@);
    }
}

/// Eight values that stand for an empty list.
pub fn blank<S: Copy>(zero: S) -> (out: Vec<S>)
    ensures
        out@ == Seq::new(8, |i: int| zero),
{
    let mut out: Vec<S> = Vec::with_capacity(8);
    let mut i: usize = 0;
    while i < 8
        invariant
            i <= 8,
            out.len() == i,
            forall|j: int| 0 <= j < i ==> #[trigger] out[j] == zero,
        decreases 8 - i,
    {
        out.push(zero);
        i = i + 1;
    }
    assert(out@ =~= Seq::new(8, |i: int| zero));
    out
}

proof fn lemma_records_push<S>(
    idxs: Seq<u32>,
    idx: u32,
    positions: Seq<S>,
    radii: Seq<S>,
    colors: Seq<S>,
    mark: spec_fn(u32) -> S,
    out: Seq<S>,
    longer: Seq<S>,
)
    requires
        holds_records(idxs, positions, radii, colors, mark, out),
        longer.len() == out.len() + 8,
        forall|i: int| 0 <= i < out.len() ==> #[trigger] longer[i] == out[i],
        forall|c: int|
            0 <= c < 8 ==> #[trigger] longer[out.len() + c] == record_value(
                idx as int,
                positions,
                radii,
                colors,
                mark(idx),
                c,
            ),
    ensures
        holds_records(idxs.push(idx), positions, radii, colors, mark, longer),
{
    let all = idxs.push(idx);
    assert forall|k: int, c: int| 0 <= k < all.len() && 0 <= c < 8 implies #[trigger] longer[8 * k
        + c] == record_value(all[k] as int, positions, radii, colors, mark(all[k]), c) by {
        if k < idxs.len() {
            assert(longer[8 * k + c] == out[8 * k + c]);
            assert(all[k] == idxs[k]);
        } else {
            assert(longer[out.len() + c] == longer[8 * k + c]);
        }
    }
}

// ── Kernels ──────────────────────────────────────────────────────────────────

/// The paint kernel, in Metal's language.
pub const PAINT_MSL: &'static str = r#"
#include <metal_stdlib>
using namespace metal;

struct Camera {
    float4x4 view_proj;
    float4   planes[6];
    float2   viewport;
    float    near;
    float    far;
    // The camera's own basis, in world space. A ray cannot be rebuilt from
    // view_proj's columns: those are the basis already multiplied through the
    // projection, so they carry the aspect and depth scales and are not unit
    // vectors in any frame. Reading them as a basis puts every ray-cast
    // sphere somewhere the rest of the scene is not.
    float4   cam_pos;
    float4   cam_right;
    float4   cam_up;
    float4   cam_fwd;
};

// The single light both tiers are lit by. Written normalized rather than
// normalize()d so the constant is identical in both languages.
constant float3 LIGHT = float3(0.36370f, 0.72739f, 0.58191f);

static float seg_dist(float2 p, float2 a, float2 b) {
    float2 ab = b - a;
    float t = clamp(dot(p - a, ab) / max(dot(ab, ab), 1e-6f), 0.0f, 1.0f);
    return length(p - a - ab * t);
}

static float intersect_sphere(float3 O, float3 D, float3 C, float r) {
    float3 oc = O - C;
    float  a  = dot(D, D);
    float  hb = dot(D, oc);
    float  cc = dot(oc, oc) - r * r;
    float  disc = hb * hb - a * cc;
    if (disc < 0.0f) return -1.0f;
    float sq = sqrt(disc);
    float t0 = (-hb - sq) / a;
    if (t0 > 0.0f) return t0;
    float t1 = (-hb + sq) / a;
    return (t1 > 0.0f) ? t1 : -1.0f;
}

kernel void paint(
    device const float4 *splats    [[buffer(0)]],  // 2/splat: xyz r | rgb -, back-to-front
    device const float4 *spheres   [[buffer(1)]],  // 2/sphere: same layout, T2 subset
    device const float4 *segments  [[buffer(2)]],  // 2/edge: x0 y0 x1 y1 | hw r g b
    device uint         *dstbuf    [[buffer(3)]],  // packed RGBA8
    constant Camera     &camera    [[buffer(4)]],
    constant uint4      &counts    [[buffer(5)]],  // n_splats n_t2 n_edges -
    constant uint2      &viewport  [[buffer(6)]],
    uint2               gid        [[thread_position_in_grid]])
{
    uint W = viewport.x;
    uint H = viewport.y;
    if (gid.x >= W || gid.y >= H) return;
    float2 pix_f = float2(float(gid.x) + 0.5f, float(gid.y) + 0.5f);

    // ── edges: additive glow on black ──
    float3 rgb = float3(0.0f);
    float  a   = 0.0f;
    for (uint e = 0; e < counts.z; ++e) {
        float4 s0 = segments[e*2];
        float4 s1 = segments[e*2+1];
        float d = seg_dist(pix_f, s0.xy, s0.zw);
        // Analytic coverage across exactly one pixel: the edge of the line
        // lands where the line ends, instead of a pixel past it.
        float alpha = (1.0f - smoothstep(s1.x - 0.5f, s1.x + 0.5f, d)) * 0.85f;
        if (alpha <= 0.0f) continue;
        rgb += s1.yzw * alpha * (1.0f - a);
        a = min(a + alpha, 1.0f);
    }

    // ── gaussian splats over the glow (front-to-back accumulate) ──
    float3 g_rgb = float3(0.0f);
    float  g_a   = 0.0f;
    for (uint i = 0; i < counts.x; ++i) {
        if (g_a >= 0.9999f) break;
        float4 pr = splats[i*2];
        float4 clip = camera.view_proj * float4(pr.xyz, 1.0f);
        if (clip.w <= 0.0f) continue;
        float2 ndc = clip.xy / clip.w;
        float2 screen = float2((ndc.x * 0.5f + 0.5f) * float(W),
                               (1.0f - (ndc.y * 0.5f + 0.5f)) * float(H));
        float proj_r = max(pr.w * camera.cam_up.w
                           / clip.w * float(H) * 0.5f, 0.5f);
        float4 col = splats[i*2+1];
        // Solid particles belong to the sphere pass. Drawing them here as well
        // only puts a second, softer copy under the first.
        if (col.w > 0.5f) continue;
        float2 delta = pix_f - screen;
        float d = length(delta);
        // The silhouette the sphere pass would have given this particle, with
        // one pixel of coverage at the edge. A gaussian was about half this
        // wide, so a particle crossing the tier threshold changed size in one
        // frame — that step is what flickers while zooming.
        float alpha = clamp(proj_r + 0.5f - d, 0.0f, 1.0f);
        if (alpha <= 0.0f) continue;
        // Lit as the ball it stands for: the offset within the disc is the
        // surface normal, and the shading is the sphere pass's, term for term.
        float2 nd = delta / max(proj_r, 1e-4f);
        float nz = sqrt(max(0.0f, 1.0f - min(dot(nd, nd), 1.0f)));
        float3 nrm = normalize(float3(nd.x, -nd.y, nz));
        // Including the rim. The sphere pass has one, and a particle crossing
        // the tier threshold must not change brightness as it changes path —
        // during an orbit particles cross it constantly, and a step in
        // brightness on every crossing is what reads as flicker. nz is the
        // normal's component toward the camera, which is what the sphere pass
        // computes as dot(n, -ray).
        float3 lit = col.xyz * (0.2f + 0.8f * max(0.0f, dot(nrm, LIGHT)))
                   + pow(1.0f - nz, 3.0f) * 0.4f;
        g_rgb += lit * alpha * (1.0f - g_a);
        g_a   += alpha * (1.0f - g_a);
    }
    rgb = g_rgb + rgb * (1.0f - g_a);

    // ── T2 sphere impostors on top ──
    if (counts.y > 0) {
        float3 cam_origin = camera.cam_pos.xyz;
        float2 ndc;
        ndc.x =  (pix_f.x) / float(W) * 2.0f - 1.0f;
        ndc.y = -(pix_f.y) / float(H) * 2.0f + 1.0f;
        // The focal scales come from the camera, not from view_proj: those
        // entries carry right.x and up.y with them and are only the focal
        // length while the camera is unrotated. Taking them from the matrix
        // stretches x and y by different amounts the moment the graph is
        // turned, which is a sphere drawn as an ellipse.
        float3 ray_world = normalize(camera.cam_right.xyz * (ndc.x / camera.cam_right.w)
                                   + camera.cam_up.xyz    * (ndc.y / camera.cam_up.w)
                                   + camera.cam_fwd.xyz);

        float  t_min = 1e9f;
        float3 hit_n = float3(0.0f, 0.0f, 1.0f);
        float3 hit_col = float3(0.0f);
        bool   hit_any = false;
        for (uint i = 0; i < counts.y; ++i) {
            float4 pr = spheres[i*2];
            float t = intersect_sphere(cam_origin, ray_world, pr.xyz, pr.w);
            if (t > 0.0f && t < t_min) {
                t_min = t;
                hit_any = true;
                hit_n = normalize(cam_origin + t * ray_world - pr.xyz);
                hit_col = spheres[i*2+1].xyz;
            }
        }
        if (hit_any) {
            float  diff  = max(0.0f, dot(hit_n, LIGHT));
            float  rim   = pow(1.0f - max(0.0f, dot(hit_n, -ray_world)), 3.0f) * 0.4f;
            rgb = hit_col * (0.2f + 0.8f * diff) + rim;
        }
    }

    rgb = clamp(rgb, 0.0f, 1.0f);
    dstbuf[gid.y * W + gid.x] = uint(rgb.x * 255.0f)
                              | (uint(rgb.y * 255.0f) << 8)
                              | (uint(rgb.z * 255.0f) << 16)
                              | (255u << 24);
}
"#;

/// The same kernel in WebGPU's language.
pub const PAINT_WGSL: &'static str = r#"
struct Camera {
    view_proj: mat4x4<f32>,
    planes: array<vec4<f32>, 6>,
    viewport: vec2<f32>,
    near: f32,
    far: f32,
    // The camera's own basis, in world space. A ray cannot be rebuilt from
    // view_proj's columns: those are the basis already multiplied through the
    // projection, so they carry the aspect and depth scales and are not unit
    // vectors in any frame. Reading them as a basis puts every ray-cast
    // sphere somewhere the rest of the scene is not.
    cam_pos: vec4<f32>,
    cam_right: vec4<f32>,
    cam_up: vec4<f32>,
    cam_fwd: vec4<f32>,
};

@group(0) @binding(0) var<storage, read> splats: array<vec4<f32>>;
@group(0) @binding(1) var<storage, read> spheres: array<vec4<f32>>;
@group(0) @binding(2) var<storage, read> segments: array<vec4<f32>>;
@group(0) @binding(3) var<storage, read_write> dstbuf: array<u32>;
@group(0) @binding(4) var<uniform> camera: Camera;
@group(0) @binding(5) var<uniform> counts: vec4<u32>;
@group(0) @binding(6) var<uniform> viewport: vec2<u32>;

// The single light both tiers are lit by. Written normalized rather than
// normalize()d so the constant is identical in both languages.
const LIGHT = vec3<f32>(0.36370, 0.72739, 0.58191);

fn seg_dist(p: vec2<f32>, a: vec2<f32>, b: vec2<f32>) -> f32 {
    let ab = b - a;
    let t = clamp(dot(p - a, ab) / max(dot(ab, ab), 1e-6), 0.0, 1.0);
    return length(p - a - ab * t);
}

fn intersect_sphere(O: vec3<f32>, D: vec3<f32>, C: vec3<f32>, r: f32) -> f32 {
    let oc = O - C;
    let a = dot(D, D);
    let hb = dot(D, oc);
    let cc = dot(oc, oc) - r * r;
    let disc = hb * hb - a * cc;
    if (disc < 0.0) { return -1.0; }
    let sq = sqrt(disc);
    let t0 = (-hb - sq) / a;
    if (t0 > 0.0) { return t0; }
    let t1 = (-hb + sq) / a;
    if (t1 > 0.0) { return t1; }
    return -1.0;
}

@compute @workgroup_size(16, 16)
fn paint(@builtin(global_invocation_id) gid: vec3<u32>) {
    let W = viewport.x;
    let H = viewport.y;
    if (gid.x >= W || gid.y >= H) { return; }
    let pix_f = vec2<f32>(f32(gid.x) + 0.5, f32(gid.y) + 0.5);

    // edges: additive glow on black
    var rgb = vec3<f32>(0.0);
    var a = 0.0;
    for (var e = 0u; e < counts.z; e++) {
        let s0 = segments[e*2u];
        let s1 = segments[e*2u+1u];
        let d = seg_dist(pix_f, s0.xy, s0.zw);
        // Analytic coverage across exactly one pixel: the edge of the line
        // lands where the line ends, instead of a pixel past it.
        let alpha = (1.0 - smoothstep(s1.x - 0.5, s1.x + 0.5, d)) * 0.85;
        if (alpha <= 0.0) { continue; }
        rgb += s1.yzw * alpha * (1.0 - a);
        a = min(a + alpha, 1.0);
    }

    // gaussian splats over the glow
    var g_rgb = vec3<f32>(0.0);
    var g_a = 0.0;
    for (var i = 0u; i < counts.x; i++) {
        if (g_a >= 0.9999) { break; }
        let pr = splats[i*2u];
        let clip = camera.view_proj * vec4<f32>(pr.xyz, 1.0);
        if (clip.w <= 0.0) { continue; }
        let ndc = clip.xy / clip.w;
        let screen = vec2<f32>((ndc.x * 0.5 + 0.5) * f32(W),
                               (1.0 - (ndc.y * 0.5 + 0.5)) * f32(H));
        let proj_r = max(pr.w * camera.cam_up.w
                         / clip.w * f32(H) * 0.5, 0.5);
        let col = splats[i*2u+1u];
        // Solid particles belong to the sphere pass. Drawing them here as well
        // only puts a second, softer copy under the first.
        if (col.w > 0.5) { continue; }
        let delta = pix_f - screen;
        let d = length(delta);
        // The silhouette the sphere pass would have given this particle, with
        // one pixel of coverage at the edge. A gaussian was about half this
        // wide, so a particle crossing the tier threshold changed size in one
        // frame — that step is what flickers while zooming.
        let alpha = clamp(proj_r + 0.5 - d, 0.0, 1.0);
        if (alpha <= 0.0) { continue; }
        // Lit as the ball it stands for: the offset within the disc is the
        // surface normal, and the shading is the sphere pass's, term for term.
        let nd = delta / max(proj_r, 1e-4);
        let nz = sqrt(max(0.0, 1.0 - min(dot(nd, nd), 1.0)));
        let nrm = normalize(vec3<f32>(nd.x, -nd.y, nz));
        // Including the rim. The sphere pass has one, and a particle crossing
        // the tier threshold must not change brightness as it changes path —
        // during an orbit particles cross it constantly, and a step in
        // brightness on every crossing is what reads as flicker. nz is the
        // normal's component toward the camera, which is what the sphere pass
        // computes as dot(n, -ray).
        let lit = col.xyz * (0.2 + 0.8 * max(0.0, dot(nrm, LIGHT)))
                + pow(1.0 - nz, 3.0) * 0.4;
        g_rgb += lit * alpha * (1.0 - g_a);
        g_a   += alpha * (1.0 - g_a);
    }
    rgb = g_rgb + rgb * (1.0 - g_a);

    // T2 sphere impostors on top
    if (counts.y > 0u) {
        let cam_origin = camera.cam_pos.xyz;
        let ndc2 = vec2<f32>(pix_f.x / f32(W) * 2.0 - 1.0,
                             -(pix_f.y / f32(H) * 2.0 - 1.0));
        // The focal scales come from the camera, not from view_proj: those
        // entries carry right.x and up.y with them and are only the focal
        // length while the camera is unrotated. Taking them from the matrix
        // stretches x and y by different amounts the moment the graph is
        // turned, which is a sphere drawn as an ellipse.
        let ray_world = normalize(camera.cam_right.xyz * (ndc2.x / camera.cam_right.w)
                                + camera.cam_up.xyz    * (ndc2.y / camera.cam_up.w)
                                + camera.cam_fwd.xyz);

        var t_min = 1e9;
        var hit_n = vec3<f32>(0.0, 0.0, 1.0);
        var hit_col = vec3<f32>(0.0);
        var hit_any = false;
        for (var i = 0u; i < counts.y; i++) {
            let pr = spheres[i*2u];
            let t = intersect_sphere(cam_origin, ray_world, pr.xyz, pr.w);
            if (t > 0.0 && t < t_min) {
                t_min = t;
                hit_any = true;
                hit_n = normalize(cam_origin + t * ray_world - pr.xyz);
                hit_col = spheres[i*2u+1u].xyz;
            }
        }
        if (hit_any) {
            let diff = max(0.0, dot(hit_n, LIGHT));
            let rim = pow(1.0 - max(0.0, dot(hit_n, -ray_world)), 3.0) * 0.4;
            rgb = hit_col * (0.2 + 0.8 * diff) + rim;
        }
    }

    rgb = clamp(rgb, vec3<f32>(0.0), vec3<f32>(1.0));
    dstbuf[gid.y * W + gid.x] = u32(rgb.x * 255.0)
                              | (u32(rgb.y * 255.0) << 8u)
                              | (u32(rgb.z * 255.0) << 16u)
                              | (255u << 24u);
}
"#;

/// Law: a splat's record holds the particle's position, radius and colour, and a mark that is
/// `one` exactly where the particle is visible at T0, T1 or T2, and so has a sphere.
pub proof fn law_splats_hold_their_particles<S>(
    sorted: Seq<u32>,
    visible: Seq<(u32, TierLevel)>,
    positions: Seq<S>,
    radii: Seq<S>,
    colors: Seq<S>,
    segment_values: usize,
    zero: S,
    one: S,
    plan: &PaintPlan<S>,
    k: int,
)
    requires
        is_plan_of(sorted, visible, positions, radii, colors, segment_values, zero, one, plan),
        0 <= k < sorted.len(),
    ensures
        ({
            let idx = sorted[k];
            let solid = exists|j: int|
                0 <= j < visible.len() && (#[trigger] visible[j]).0 == idx && (visible[j].1
                    == TierLevel::T0 || visible[j].1 == TierLevel::T1 || visible[j].1
                    == TierLevel::T2);
            &&& plan.splats@.len() == 8 * sorted.len()
            &&& plan.splats@[8 * k] == positions[3 * idx as int]
            &&& plan.splats@[8 * k + 1] == positions[3 * idx + 1]
            &&& plan.splats@[8 * k + 2] == positions[3 * idx + 2]
            &&& plan.splats@[8 * k + 3] == radii[idx as int]
            &&& plan.splats@[8 * k + 4] == colors[3 * idx as int]
            &&& plan.splats@[8 * k + 5] == colors[3 * idx + 1]
            &&& plan.splats@[8 * k + 6] == colors[3 * idx + 2]
            &&& plan.splats@[8 * k + 7] == if solid {
                one
            } else {
                zero
            }
        }),
{
    let listed = solids(visible);
    crate::frame::cull::lemma_by_index(listed);
    let idx = sorted[k];
    assert(spheres_of(visible).contains(idx) <==> listed.contains(idx));
    lemma_solids(visible, idx);
    assert(plan.splats@[8 * k + 0] == plan.splats@[8 * k]);
}

/// A particle is among those with a sphere exactly where it is visible at one of their tiers.
proof fn lemma_solids(visible: Seq<(u32, TierLevel)>, idx: u32)
    ensures
        solids(visible).contains(idx) <==> exists|j: int|
            0 <= j < visible.len() && (#[trigger] visible[j]).0 == idx && (visible[j].1
                == TierLevel::T0 || visible[j].1 == TierLevel::T1 || visible[j].1 == TierLevel::T2),
    decreases visible.len(),
{
    let listed = solids(visible);
    if visible.len() > 0 {
        let before = visible.drop_last();
        let listed_before = solids(before);
        lemma_solids(before, idx);
        let last = visible.last();
        assert(visible[visible.len() - 1] == last);
        if listed.contains(idx) {
            let m = choose|m: int| 0 <= m < listed.len() && listed[m] == idx;
            if m < listed_before.len() {
                assert(listed_before[m] == idx);
                let j = choose|j: int|
                    0 <= j < before.len() && (#[trigger] before[j]).0 == idx && (before[j].1
                        == TierLevel::T0 || before[j].1 == TierLevel::T1 || before[j].1
                        == TierLevel::T2);
                assert(visible[j] == before[j]);
            }
        }
        if exists|j: int|
            0 <= j < visible.len() && (#[trigger] visible[j]).0 == idx && (visible[j].1
                == TierLevel::T0 || visible[j].1 == TierLevel::T1 || visible[j].1
                == TierLevel::T2) {
            let j = choose|j: int|
                0 <= j < visible.len() && (#[trigger] visible[j]).0 == idx && (visible[j].1
                    == TierLevel::T0 || visible[j].1 == TierLevel::T1 || visible[j].1
                    == TierLevel::T2);
            if j < before.len() {
                assert(before[j] == visible[j]);
                let m = choose|m: int| 0 <= m < listed_before.len() && listed_before[m] == idx;
                assert(listed[m] == idx);
            } else {
                assert(listed[listed.len() - 1] == idx);
            }
        }
    }
}

/// Law: the spheres are the particles visible at T0, T1 or T2, by index, each in a record of its
/// position, radius and colour; the counts are those of splats, spheres and segments.
pub proof fn law_spheres_hold_their_particles<S>(
    sorted: Seq<u32>,
    visible: Seq<(u32, TierLevel)>,
    positions: Seq<S>,
    radii: Seq<S>,
    colors: Seq<S>,
    segment_values: usize,
    zero: S,
    one: S,
    plan: &PaintPlan<S>,
    j: int,
)
    requires
        is_plan_of(sorted, visible, positions, radii, colors, segment_values, zero, one, plan),
        0 <= j < visible.len(),
        visible[j].1 == TierLevel::T0 || visible[j].1 == TierLevel::T1 || visible[j].1
            == TierLevel::T2,
    ensures
        plan.counts[0] == sorted.len(),
        plan.counts[2] == segment_values / 8,
        plan.counts[3] == 0,
        8 * plan.counts[1] == plan.spheres@.len(),
        exists|m: int|
            0 <= m < plan.counts[1] && #[trigger] plan.spheres@[8 * m] == positions[3
                * visible[j].0 as int] && plan.spheres@[8 * m + 1] == positions[3 * visible[j].0
                + 1] && plan.spheres@[8 * m + 2] == positions[3 * visible[j].0 + 2]
                && plan.spheres@[8 * m + 3] == radii[visible[j].0 as int] && plan.spheres@[8 * m
                + 4] == colors[3 * visible[j].0 as int] && plan.spheres@[8 * m + 5] == colors[3
                * visible[j].0 + 1] && plan.spheres@[8 * m + 6] == colors[3 * visible[j].0 + 2]
                && plan.spheres@[8 * m + 7] == zero,
{
    let idx = visible[j].0;
    let spheres = spheres_of(visible);
    crate::frame::cull::lemma_by_index(solids(visible));
    lemma_solids(visible, idx);
    assert(spheres.contains(idx));
    let m = choose|m: int| 0 <= m < spheres.len() && spheres[m] == idx;
    assert(plan.spheres@[8 * m + 0] == plan.spheres@[8 * m]);
}

} // verus!
