//! Cluster hierarchy: four scales over the spectral coordinates.
//!
//! At each scale the particles of one grid cell form a cluster. Clusters are labelled
//! canonically, so that the labels depend on nothing but the clusters themselves, and
//! each cluster becomes a node with the box of its members.

use std::collections::HashMap;
use vstd::prelude::*;

use crate::bytes::push_word;
use crate::epoch::eigensolver::SpectralCoords;
use crate::order::invert;
use crate::ranking::rank_descending;
use crate::scalar::{Scalar, INFINITY, NEG_INFINITY};

verus! {

broadcast use vstd::std_specs::hash::group_hash_axioms;

// ── Grid clustering ──────────────────────────────────────────────────────────

/// A cell of the grid.
pub type Cell = (i32, i32, i32);

/// `ids` numbers the cells in the order in which they first occur.
pub open spec fn numbers_cells(cells: Seq<Cell>, ids: Seq<u32>) -> bool {
    &&& ids.len() == cells.len()
    &&& forall|p: int, q: int|
        0 <= p < cells.len() && 0 <= q < cells.len() ==> (#[trigger] ids[p] == #[trigger] ids[q]
            <==> cells[p] == cells[q])
    &&& forall|p: int, c: u32|
        0 <= p < ids.len() && c < ids[p] ==> #[trigger] occurs_before(ids, c, p)
}

/// Id `c` occurs before position `p`.
pub open spec fn occurs_before(ids: Seq<u32>, c: u32, p: int) -> bool {
    exists|q: int| 0 <= q < p && #[trigger] ids[q] == c
}

spec fn cell_key(cell: Cell) -> int {
    ((cell.0 + 0x8000_0000) * 0x1_0000_0000 + (cell.1 + 0x8000_0000)) * 0x1_0000_0000 + (cell.2
        + 0x8000_0000)
}

proof fn lemma_cell_key_injective(a: Cell, b: Cell)
    ensures
        cell_key(a) == cell_key(b) <==> a == b,
        0 <= cell_key(a) < 0x1_0000_0000_0000_0000_0000_0000,
{
}

fn key_of(cell: Cell) -> (key: u128)
    ensures
        key == cell_key(cell),
{
    let x: u128 = (cell.0 as i64 + 0x8000_0000i64) as u128;
    let y: u128 = (cell.1 as i64 + 0x8000_0000i64) as u128;
    let z: u128 = (cell.2 as i64 + 0x8000_0000i64) as u128;
    (x * 0x1_0000_0000 + y) * 0x1_0000_0000 + z
}

/// Gives each particle the number of its cell, cells numbered in the order in which they
/// first occur.
pub fn grid_cluster(cells: &[Cell]) -> (ids: Vec<u32>)
    requires
        cells.len() <= u32::MAX,
    ensures
        numbers_cells(cells@, ids@),
{
    let mut cell_to_id: HashMap<u128, u32> = HashMap::new();
    let mut ids: Vec<u32> = Vec::with_capacity(cells.len());
    let mut next_id: u32 = 0;
    let mut p: usize = 0;
    while p < cells.len()
        invariant
            p <= cells.len() <= u32::MAX,
            ids.len() == p,
            next_id <= p,
            numbers_cells(cells@.take(p as int), ids@),
            forall|q: int| 0 <= q < p ==> #[trigger] ids[q] < next_id,
            forall|c: u32| c < next_id ==> #[trigger] occurs_before(ids@, c, p as int),
            forall|q: int|
                0 <= q < p ==> cell_to_id@.dom().contains(cell_key(#[trigger] cells@[q]) as u128)
                    && cell_to_id@[cell_key(cells@[q]) as u128] == ids[q],
            forall|key: u128| #[trigger]
                cell_to_id@.dom().contains(key) ==> exists|q: int|
                    0 <= q < p && cell_key(#[trigger] cells@[q]) == key,
        decreases cells.len() - p,
    {
        let cell = cells[p];
        let key = key_of(cell);
        let ghost before = ids@;
        let ghost seen = cell_to_id@;
        proof {
            assert forall|q: int| 0 <= q < p implies (cell_key(#[trigger] cells@[q]) as u128 == key
                <==> cells@[q] == cell) by {
                lemma_cell_key_injective(cells@[q], cell);
            }
        }
        let known: Option<u32> = match cell_to_id.get(&key) {
            Some(id) => Some(*id),
            None => None,
        };
        let id: u32 = match known {
            Some(id) => id,
            None => {
                let id: u32 = next_id;
                next_id = next_id + 1;
                cell_to_id.insert(key, id);
                id
            },
        };
        ids.push(id);
        proof {
            let now = cells@.take(p + 1);
            if known is Some {
                let q = choose|q: int| 0 <= q < p && cell_key(#[trigger] cells@[q]) == key;
                assert(cells@[q] == cell && before[q] == id);
            }
            assert forall|a: int, b: int| 0 <= a < now.len() && 0 <= b < now.len() implies (
            #[trigger] ids@[a] == #[trigger] ids@[b] <==> now[a] == now[b]) by {
                if a < p && b < p {
                    assert(before[a] == before[b] <==> cells@.take(p as int)[a] == cells@.take(
                        p as int,
                    )[b]);
                } else if a < p {
                    assert(cell_key(cells@[a]) as u128 == key <==> cells@[a] == cell);
                } else if b < p {
                    assert(cell_key(cells@[b]) as u128 == key <==> cells@[b] == cell);
                }
            }
            assert forall|a: int, c: u32| 0 <= a < ids.len() && c < ids@[a] implies #[trigger] occurs_before(
                ids@,
                c,
                a,
            ) by {
                assert(occurs_before(before, c, a)) by {
                    if a == p {
                        assert(occurs_before(before, c, p as int));
                    }
                }
                let q = choose|q: int| 0 <= q < a && #[trigger] before[q] == c;
                assert(ids@[q] == c);
            }
            assert forall|c: u32| c < next_id implies #[trigger] occurs_before(ids@, c, p + 1) by {
                if c == id {
                    assert(ids@[p as int] == c);
                } else {
                    assert(occurs_before(before, c, p as int));
                    let q = choose|q: int| 0 <= q < p && #[trigger] before[q] == c;
                    assert(ids@[q] == c);
                }
            }
            assert forall|q: int| 0 <= q < p + 1 implies cell_to_id@.dom().contains(
                cell_key(#[trigger] cells@[q]) as u128,
            ) && cell_to_id@[cell_key(cells@[q]) as u128] == ids[q] by {
                if q < p {
                    assert(seen.dom().contains(cell_key(cells@[q]) as u128));
                }
            }
            assert forall|k: u128| #[trigger] cell_to_id@.dom().contains(k) implies exists|q: int|
                0 <= q < p + 1 && cell_key(#[trigger] cells@[q]) == k by {
                if seen.dom().contains(k) {
                    let q = choose|q: int| 0 <= q < p && cell_key(#[trigger] cells@[q]) == k;
                    assert(cell_key(cells@[q]) == k);
                } else {
                    assert(cell_key(cells@[p as int]) == k);
                }
            }
        }
        p = p + 1;
    }
    assert(cells@.take(cells.len() as int) =~= cells@);
    ids
}

// ── Canonical labels ─────────────────────────────────────────────────────────

/// One more than the highest id; zero without ids.
pub open spec fn label_count(ids: Seq<u32>) -> nat
    decreases ids.len(),
{
    if ids.len() == 0 {
        0
    } else {
        let before = label_count(ids.drop_last());
        if ids.last() + 1 > before {
            (ids.last() + 1) as nat
        } else {
            before
        }
    }
}

/// Every id is below the count, and the count is the highest id and one.
pub proof fn lemma_label_count(ids: Seq<u32>)
    ensures
        forall|p: int| 0 <= p < ids.len() ==> #[trigger] ids[p] < label_count(ids),
        ids.len() > 0 ==> exists|p: int|
            0 <= p < ids.len() && #[trigger] ids[p] + 1 == label_count(ids),
    decreases ids.len(),
{
    if ids.len() > 0 {
        let before = ids.drop_last();
        lemma_label_count(before);
        assert forall|p: int| 0 <= p < ids.len() implies #[trigger] ids[p] < label_count(ids) by {
            if p < before.len() {
                assert(before[p] < label_count(before));
            }
        }
        if ids.last() + 1 > label_count(before) {
            assert(ids[ids.len() - 1] + 1 == label_count(ids));
        } else {
            assert(before.len() > 0);
            let p = choose|p: int|
                0 <= p < before.len() && #[trigger] before[p] + 1 == label_count(before);
            assert(ids[p] + 1 == label_count(ids));
        }
    }
}

/// One more than the highest id; zero without ids.
pub fn cluster_count(ids: &[u32]) -> (count: usize)
    requires
        forall|p: int| 0 <= p < ids.len() ==> #[trigger] ids[p] < u32::MAX,
    ensures
        count == label_count(ids@),
{
    let mut count: usize = 0;
    let mut p: usize = 0;
    while p < ids.len()
        invariant
            p <= ids.len(),
            forall|q: int| 0 <= q < ids.len() ==> #[trigger] ids[q] < u32::MAX,
            count == label_count(ids@.take(p as int)),
        decreases ids.len() - p,
    {
        assert(ids@.take(p + 1).drop_last() =~= ids@.take(p as int));
        let above: usize = ids[p] as usize + 1;
        if above > count {
            count = above;
        }
        p = p + 1;
    }
    assert(ids@.take(ids.len() as int) =~= ids@);
    count
}

/// `p` is the first particle with id `c`.
pub open spec fn is_first_member(ids: Seq<u32>, c: int, p: int) -> bool {
    0 <= p < ids.len() && ids[p] == c && forall|q: int| 0 <= q < p ==> #[trigger] ids[q] != c
}

/// The first particle with id `c`; the highest index of all when there is none.
pub open spec fn first_member(ids: Seq<u32>, c: int) -> int {
    if exists|p: int| is_first_member(ids, c, p) {
        choose|p: int| is_first_member(ids, c, p)
    } else {
        usize::MAX as int
    }
}

proof fn lemma_first_member(ids: Seq<u32>, c: int, p: int)
    requires
        is_first_member(ids, c, p),
    ensures
        first_member(ids, c) == p,
{
    let q = first_member(ids, c);
    assert(is_first_member(ids, c, q));
    if q < p {
        assert(ids[q] != c);
    } else if p < q {
        assert(ids[p] != c);
    }
}

proof fn lemma_no_member(ids: Seq<u32>, c: int)
    requires
        forall|p: int| 0 <= p < ids.len() ==> #[trigger] ids[p] != c,
    ensures
        first_member(ids, c) == usize::MAX,
{
    if exists|p: int| is_first_member(ids, c, p) {
        let p = choose|p: int| is_first_member(ids, c, p);
        assert(ids[p] != c);
    }
}

/// A used id has a first member.
proof fn lemma_first_member_exists(ids: Seq<u32>, c: int, p: int)
    requires
        0 <= p < ids.len(),
        ids[p] == c,
    ensures
        is_first_member(ids, c, first_member(ids, c)),
        first_member(ids, c) <= p,
    decreases p,
{
    if exists|q: int| 0 <= q < p && #[trigger] ids[q] == c {
        let q = choose|q: int| 0 <= q < p && #[trigger] ids[q] == c;
        lemma_first_member_exists(ids, c, q);
    } else {
        assert(is_first_member(ids, c, p));
        lemma_first_member(ids, c, p);
    }
}

/// The place of each of the `count` clusters: its first member.
pub open spec fn cluster_places(ids: Seq<u32>, count: nat) -> Seq<int> {
    Seq::new(count, |c: int| first_member(ids, c))
}

/// Cluster `a` is labelled before cluster `b`: it has more focus, or the same focus and
/// an earlier first member. Two clusters without members keep their order.
pub open spec fn labelled_before(ids: Seq<u32>, focus: Seq<Scalar>, a: int, b: int) -> bool {
    crate::ranking::stands_before(focus, cluster_places(ids, focus.len()), a, b)
}

/// `order` lists all clusters in the order in which they are labelled.
pub open spec fn lists_clusters(ids: Seq<u32>, focus: Seq<Scalar>, order: Seq<usize>) -> bool {
    &&& order.len() == focus.len()
    &&& crate::order::covers(order, 0, focus.len() as int)
    &&& forall|i: int, j: int|
        0 <= i < j < order.len() ==> labelled_before(
            ids,
            focus,
            #[trigger] order[i] as int,
            #[trigger] order[j] as int,
        )
}

/// `labels` are the canonical labels of the clusters that `ids` describes, `focus` being
/// the focus of each cluster.
pub open spec fn is_canonical(ids: Seq<u32>, focus: Seq<Scalar>, labels: Seq<u32>) -> bool {
    &&& labels.len() == ids.len()
    &&& exists|order: Seq<usize>| #[trigger] relabels(ids, focus, labels, order)
}

/// `labels` gives each cluster its place in `order`.
pub open spec fn relabels(
    ids: Seq<u32>,
    focus: Seq<Scalar>,
    labels: Seq<u32>,
    order: Seq<usize>,
) -> bool {
    &&& lists_clusters(ids, focus, order)
    &&& forall|p: int|
        0 <= p < ids.len() ==> (#[trigger] labels[p]) < order.len() && order[labels[p] as int]
            == ids[p]
}

/// Labels ascend as the clusters compare: by focus, the stronger first, then by first member;
/// a focus that is not a number ties with every other.
pub open spec fn follows_comparison(ids: Seq<u32>, focus: Seq<Scalar>, labels: Seq<u32>) -> bool {
    forall|p: int, q: int|
        0 <= p < ids.len() && 0 <= q < ids.len() ==> (#[trigger] labels[p] < #[trigger] labels[q]
            <==> crate::ranking::compares_before(
            focus,
            cluster_places(ids, focus.len()),
            ids[p] as int,
            ids[q] as int,
        ))
}

/// Relabels clusters: by focus descending, then by first member ascending. `focus` holds
/// the focus of each cluster; one that is not a number ties with every other. Returns the
/// highest id.
pub fn canonicalize_ids(ids: &mut Vec<u32>, focus: &[Scalar]) -> (max_id: u32)
    requires
        focus.len() == label_count(old(ids)@),
        focus.len() <= u32::MAX,
    ensures
        is_canonical(old(ids)@, focus@, final(ids)@),
        crate::ranking::is_consistent(focus@, cluster_places(old(ids)@, focus@.len()))
            ==> follows_comparison(old(ids)@, focus@, final(ids)@),
        max_id == if old(ids).len() == 0 {
            0
        } else {
            label_count(old(ids)@) - 1
        },
{
    let ghost before = ids@;
    proof {
        lemma_label_count(before);
    }
    let count: usize = focus.len();
    let firsts = first_members(ids.as_slice(), count);
    let order = rank_descending(focus, firsts.as_slice());
    proof {
        assert(crate::ranking::numbers(firsts@) =~= cluster_places(before, focus@.len()));
    }
    let remap = invert(order.as_slice());
    let mut p: usize = 0;
    while p < ids.len()
        invariant
            p <= ids.len(),
            ids.len() == before.len(),
            order.len() == remap.len() == count <= u32::MAX,
            crate::order::covers(order@, 0, count as int),
            forall|q: int| 0 <= q < order.len() ==> remap[#[trigger] order[q] as int] == q as u32,
            forall|q: int| 0 <= q < before.len() ==> #[trigger] before[q] < count,
            forall|q: int| p <= q < ids.len() ==> #[trigger] ids[q] == before[q],
            forall|q: int|
                0 <= q < p ==> (#[trigger] ids[q]) < order.len() && order[ids[q] as int]
                    == before[q],
        decreases ids.len() - p,
    {
        let id: u32 = ids[p];
        proof {
            assert(before[p as int] < count);
            assert(order@.contains(id as usize));
            let q = choose|q: int| 0 <= q < order.len() && order@[q] == id as usize;
            assert(remap[order[q] as int] == q as u32);
        }
        ids.set(p, remap[id as usize]);
        p = p + 1;
    }
    proof {
        assert(relabels(before, focus@, ids@, order@));
        if crate::ranking::is_consistent(focus@, cluster_places(before, focus@.len())) {
            law_labels_follow_comparison(before, focus@, ids@);
        }
    }
    if count == 0 {
        0
    } else {
        (count - 1) as u32
    }
}

/// The first member of each cluster.
fn first_members(ids: &[u32], count: usize) -> (firsts: Vec<usize>)
    requires
        forall|p: int| 0 <= p < ids.len() ==> #[trigger] ids[p] < count,
    ensures
        firsts.len() == count,
        forall|c: int| 0 <= c < count ==> #[trigger] firsts[c] == first_member(ids@, c),
{
    let mut firsts: Vec<usize> = vec![usize::MAX; count];
    let mut p: usize = 0;
    while p < ids.len()
        invariant
            p <= ids.len(),
            firsts.len() == count,
            forall|q: int| 0 <= q < ids.len() ==> #[trigger] ids[q] < count,
            forall|c: int|
                0 <= c < count ==> {
                    ||| #[trigger] firsts[c] < p && is_first_member(ids@, c, firsts[c] as int)
                    ||| firsts[c] == usize::MAX && forall|q: int|
                        0 <= q < p ==> #[trigger] ids@[q] != c
                },
        decreases ids.len() - p,
    {
        let ghost before = firsts@;
        let c: usize = ids[p] as usize;
        if p < firsts[c] {
            firsts.set(c, p);
            assert(is_first_member(ids@, c as int, p as int));
        }
        p = p + 1;
    }
    proof {
        assert forall|c: int| 0 <= c < count implies #[trigger] firsts[c] == first_member(ids@, c) by {
            if firsts[c] < ids.len() && is_first_member(ids@, c, firsts[c] as int) {
                lemma_first_member(ids@, c, firsts[c] as int);
            } else {
                lemma_no_member(ids@, c);
            }
        }
    }
    firsts
}

/// Every id below `count` is used, and no other.
pub open spec fn is_compact(ids: Seq<u32>, count: nat) -> bool {
    &&& forall|p: int| 0 <= p < ids.len() ==> #[trigger] ids[p] < count
    &&& forall|c: u32| c < count ==> #[trigger] ids.contains(c)
}

/// Two labellings describe the same clusters.
pub open spec fn same_clusters(a: Seq<u32>, b: Seq<u32>) -> bool {
    &&& a.len() == b.len()
    &&& forall|p: int, q: int|
        0 <= p < a.len() && 0 <= q < a.len() ==> (#[trigger] a[p] == #[trigger] a[q] <==> b[p]
            == b[q])
}

/// Law: the numbers that cells get leave no gap.
pub proof fn law_cell_numbers_are_compact(cells: Seq<Cell>, ids: Seq<u32>)
    requires
        numbers_cells(cells, ids),
    ensures
        is_compact(ids, label_count(ids)),
{
    lemma_label_count(ids);
    assert forall|c: u32| c < label_count(ids) implies #[trigger] ids.contains(c) by {
        let p = choose|p: int| 0 <= p < ids.len() && #[trigger] ids[p] + 1 == label_count(ids);
        if c < ids[p] {
            assert(occurs_before(ids, c, p));
            let q = choose|q: int| 0 <= q < p && #[trigger] ids[q] == c;
            assert(ids[q] == c);
        } else {
            assert(ids[p] == c);
        }
    }
}

/// Law: canonical labels describe the same clusters, and leave no gap where the ids left
/// none.
pub proof fn law_canonical_labels_keep_clusters(
    ids: Seq<u32>,
    focus: Seq<Scalar>,
    labels: Seq<u32>,
)
    requires
        is_compact(ids, focus.len()),
        focus.len() <= u32::MAX,
        is_canonical(ids, focus, labels),
    ensures
        same_clusters(ids, labels),
        is_compact(labels, focus.len()),
{
    let order = choose|order: Seq<usize>| #[trigger] relabels(ids, focus, labels, order);
    lemma_clusters_distinct(ids, focus, order);
    assert forall|p: int, q: int| 0 <= p < ids.len() && 0 <= q < ids.len() implies (#[trigger] ids[p]
        == #[trigger] ids[q] <==> labels[p] == labels[q]) by {
        assert(order[labels[p] as int] == ids[p]);
        assert(order[labels[q] as int] == ids[q]);
    }
    assert forall|v: u32| v < focus.len() implies #[trigger] labels.contains(v) by {
        let c = order[v as int] as u32;
        assert(ids.contains(c));
        let p = choose|p: int| 0 <= p < ids.len() && ids[p] == c;
        assert(order[labels[p] as int] == ids[p]);
        assert(labels[p] == v);
    }
}

proof fn lemma_clusters_distinct(ids: Seq<u32>, focus: Seq<Scalar>, order: Seq<usize>)
    requires
        lists_clusters(ids, focus, order),
    ensures
        order.no_duplicates(),
{
    assert forall|i: int, j: int| 0 <= i < order.len() && 0 <= j < order.len() && i != j implies order[i]
        != order[j] by {
        if i < j {
            assert(labelled_before(ids, focus, order[i] as int, order[j] as int));
        } else {
            assert(labelled_before(ids, focus, order[j] as int, order[i] as int));
        }
    }
}

/// Labels ascend as the clusters do.
pub proof fn lemma_labels_follow_order(
    ids: Seq<u32>,
    focus: Seq<Scalar>,
    labels: Seq<u32>,
    p: int,
    q: int,
)
    requires
        is_canonical(ids, focus, labels),
        0 <= p < ids.len(),
        0 <= q < ids.len(),
    ensures
        labels[p] < labels[q] <==> labelled_before(ids, focus, ids[p] as int, ids[q] as int),
{
    let order = choose|order: Seq<usize>| #[trigger] relabels(ids, focus, labels, order);
    assert(order[labels[p] as int] == ids[p]);
    assert(order[labels[q] as int] == ids[q]);
    if labels[q] < labels[p] {
        assert(labelled_before(
            ids,
            focus,
            order[labels[q] as int] as int,
            order[labels[p] as int] as int,
        ));
    }
}

/// Law: where the comparisons of the clusters do not contradict each other, the canonical
/// labels follow them.
pub proof fn law_labels_follow_comparison(ids: Seq<u32>, focus: Seq<Scalar>, labels: Seq<u32>)
    requires
        is_canonical(ids, focus, labels),
        forall|p: int| 0 <= p < ids.len() ==> #[trigger] ids[p] < focus.len(),
        crate::ranking::is_consistent(focus, cluster_places(ids, focus.len())),
    ensures
        follows_comparison(ids, focus, labels),
{
    assert forall|p: int, q: int| 0 <= p < ids.len() && 0 <= q < ids.len() implies (
    #[trigger] labels[p] < #[trigger] labels[q] <==> crate::ranking::compares_before(
        focus,
        cluster_places(ids, focus.len()),
        ids[p] as int,
        ids[q] as int,
    )) by {
        lemma_labels_follow_order(ids, focus, labels, p, q);
        crate::ranking::law_standing_agrees_with_comparison(
            focus,
            cluster_places(ids, focus.len()),
            ids[p] as int,
            ids[q] as int,
        );
    }
}

/// Clusters that have the same members have the same first member.
proof fn lemma_same_first_member(a: Seq<u32>, b: Seq<u32>, p: int)
    requires
        same_clusters(a, b),
        0 <= p < a.len(),
    ensures
        first_member(a, a[p] as int) == first_member(b, b[p] as int),
{
    lemma_first_member_exists(a, a[p] as int, p);
    let m = first_member(a, a[p] as int);
    assert(a[m] == a[p]);
    assert forall|q: int| 0 <= q < m implies #[trigger] b[q] != b[p] by {
        assert(a[q] != a[p]);
    }
    assert(is_first_member(b, b[p] as int, m));
    lemma_first_member(b, b[p] as int, m);
}

/// The cluster of a particle stands as high under either numbering.
proof fn lemma_same_standing(
    a: Seq<u32>,
    focus_a: Seq<Scalar>,
    b: Seq<u32>,
    focus_b: Seq<Scalar>,
    p: int,
)
    requires
        is_compact(a, focus_a.len()),
        is_compact(b, focus_b.len()),
        focus_a.len() <= u32::MAX,
        focus_b.len() <= u32::MAX,
        same_clusters(a, b),
        forall|p: int|
            0 <= p < a.len() ==> focus_a[#[trigger] a[p] as int].rank()
                == focus_b[b[p] as int].rank(),
        0 <= p < a.len(),
    ensures
        crate::ranking::standing(focus_a, cluster_places(a, focus_a.len()), a[p] as int)
            == crate::ranking::standing(focus_b, cluster_places(b, focus_b.len()), b[p] as int),
{
    let (x, y) = (a[p] as int, b[p] as int);
    let (places_a, places_b) = (
        cluster_places(a, focus_a.len()),
        cluster_places(b, focus_b.len()),
    );
    lemma_same_first_member(a, b, p);
    assert(focus_a[x].rank() == focus_b[y].rank());
    if focus_a[x].nan() {
        crate::ranking::lemma_lowest_before(focus_a, places_a, x);
        let f = crate::ranking::lowest_before(focus_a, places_a, x, focus_a.len());
        assert forall|d: int| #[trigger]
            crate::ranking::is_number_before(focus_b, places_b, d, y) implies f
            <= focus_b[d].rank() by {
            let m = lemma_placed_alike(b, focus_b, a, focus_a, d, p);
            assert(crate::ranking::is_number_before(focus_a, places_a, a[m] as int, x));
            assert(focus_a[a[m] as int].rank() == focus_b[b[m] as int].rank());
        }
        if f != crate::ranking::ABOVE_ALL {
            let d = choose|d: int| #[trigger]
                crate::ranking::is_number_before(focus_a, places_a, d, x) && focus_a[d].rank()
                    == f;
            let m = lemma_placed_alike(a, focus_a, b, focus_b, d, p);
            assert(focus_a[a[m] as int].rank() == focus_b[b[m] as int].rank());
            assert(crate::ranking::is_number_before(focus_b, places_b, b[m] as int, y));
        }
        crate::ranking::lemma_lowest_unique(focus_b, places_b, y, f);
    }
}

/// A cluster placed before that of particle `p` is so under either numbering; `m` is one of
/// its members.
proof fn lemma_placed_alike(
    a: Seq<u32>,
    focus_a: Seq<Scalar>,
    b: Seq<u32>,
    focus_b: Seq<Scalar>,
    d: int,
    p: int,
) -> (m: int)
    requires
        is_compact(a, focus_a.len()),
        is_compact(b, focus_b.len()),
        focus_a.len() <= u32::MAX,
        same_clusters(a, b),
        0 <= p < a.len(),
        0 <= d < focus_a.len(),
        crate::ranking::is_earlier(cluster_places(a, focus_a.len()), d, a[p] as int),
    ensures
        0 <= m < a.len(),
        a[m] == d,
        crate::ranking::is_earlier(cluster_places(b, focus_b.len()), b[m] as int, b[p] as int),
{
    assert(a.contains(d as u32));
    let m = choose|m: int| 0 <= m < a.len() && a[m] == d as u32;
    lemma_same_first_member(a, b, m);
    lemma_same_first_member(a, b, p);
    lemma_first_member_exists(a, d, m);
    lemma_first_member_exists(a, a[p] as int, p);
    assert(a[m] < focus_a.len() && a[p] < focus_a.len());
    assert(b[m] < focus_b.len() && b[p] < focus_b.len());
    m
}

/// Law: canonical labels depend on the clusters and their focus alone, not on the ids that
/// described them.
pub proof fn law_canonical_labels_are_unique(
    a: Seq<u32>,
    focus_a: Seq<Scalar>,
    labels_a: Seq<u32>,
    b: Seq<u32>,
    focus_b: Seq<Scalar>,
    labels_b: Seq<u32>,
)
    requires
        is_compact(a, focus_a.len()),
        is_compact(b, focus_b.len()),
        focus_a.len() <= u32::MAX,
        focus_b.len() <= u32::MAX,
        same_clusters(a, b),
        forall|p: int|
            0 <= p < a.len() ==> focus_a[#[trigger] a[p] as int].rank()
                == focus_b[b[p] as int].rank(),
        is_canonical(a, focus_a, labels_a),
        is_canonical(b, focus_b, labels_b),
    ensures
        labels_a == labels_b,
{
    law_canonical_labels_keep_clusters(a, focus_a, labels_a);
    law_canonical_labels_keep_clusters(b, focus_b, labels_b);
    assert forall|p: int, q: int| 0 <= p < a.len() && 0 <= q < a.len() implies (
    #[trigger] labels_a[p] < #[trigger] labels_a[q] <==> labels_b[p] < labels_b[q]) by {
        lemma_labels_follow_order(a, focus_a, labels_a, p, q);
        lemma_labels_follow_order(b, focus_b, labels_b, p, q);
        lemma_same_first_member(a, b, p);
        lemma_same_first_member(a, b, q);
        lemma_same_standing(a, focus_a, b, focus_b, p);
        lemma_same_standing(a, focus_a, b, focus_b, q);
        assert(a[p] < focus_a.len() && a[q] < focus_a.len());
        assert(b[p] < focus_b.len() && b[q] < focus_b.len());
        lemma_first_member_exists(a, a[p] as int, p);
        lemma_first_member_exists(a, a[q] as int, q);
        assert(a[p] == a[q] <==> b[p] == b[q]);
    }
    assert forall|p: int| 0 <= p < labels_a.len() implies labels_a[p] == labels_b[p] by {
        lemma_compact_labels_agree(labels_a, focus_a.len(), labels_b, focus_b.len(), p);
    }
    assert(labels_a =~= labels_b);
}

proof fn lemma_compact_labels_agree(f: Seq<u32>, kf: nat, g: Seq<u32>, kg: nat, p: int)
    requires
        f.len() == g.len(),
        is_compact(f, kf),
        is_compact(g, kg),
        forall|i: int, j: int|
            0 <= i < f.len() && 0 <= j < f.len() ==> (#[trigger] f[i] < #[trigger] f[j] <==> g[i]
                < g[j]),
        0 <= p < f.len(),
    ensures
        f[p] == g[p],
    decreases f[p],
{
    if g[p] < f[p] {
        assert(f.contains(g[p]));
        let q = choose|q: int| 0 <= q < f.len() && f[q] == g[p];
        lemma_compact_labels_agree(f, kf, g, kg, q);
        assert(f[q] < f[p] <==> g[q] < g[p]);
    } else if f[p] < g[p] {
        assert(g.contains(f[p]));
        let q = choose|q: int| 0 <= q < g.len() && g[q] == f[p];
        assert(f[q] < f[p] <==> g[q] < g[p]);
        lemma_compact_labels_agree(f, kf, g, kg, q);
    }
}

// ── Boxes ────────────────────────────────────────────────────────────────────

/// One node of the hierarchy.
#[derive(Clone, Copy)]
pub struct BvhNode {
    pub aabb_min: [Scalar; 3],
    pub focus_sum: Scalar,
    pub aabb_max: [Scalar; 3],
    /// node index of the first child; the others follow among the nodes of the same scale,
    /// but not always side by side
    pub child_start: u32,
    /// number of children
    pub child_count: u32,
    /// 1 = leaf, 0 = internal
    pub is_leaf: u32,
    /// first particle index in the leaf; 0 in an internal node
    pub leaf_start: u32,
    /// particle count in the leaf; 0 in an internal node
    pub leaf_count: u32,
}

/// Nodes of all four scales, and the cluster of each particle at each scale.
pub struct Bvh {
    pub nodes: Vec<BvhNode>,
    pub cluster_ids: Vec<[u32; 4]>,
}

/// The clusters of one scale before they are labelled: the id of each particle, and the
/// focus of each cluster.
pub struct Level {
    pub ids: Vec<u32>,
    pub focus: Vec<Scalar>,
}

impl Level {
    /// Each of the `n` particles is in a cluster, and no cluster is empty.
    pub open spec fn wf(&self, n: int) -> bool {
        self.ids.len() == n && is_compact(self.ids@, self.focus@.len())
    }
}

/// `m` is the lowest coordinate `d` of the first `upto` particles that are labelled `c`.
pub open spec fn is_lowest(
    coords: &SpectralCoords<Scalar>,
    labels: Seq<u32>,
    c: int,
    upto: int,
    d: int,
    m: Scalar,
) -> bool {
    &&& !m.nan()
    &&& forall|q: int|
        0 <= q < upto && #[trigger] labels[q] == c && !coords.coord(q, d).nan() ==> m.rank()
            <= coords.coord(q, d).rank()
    &&& m.bits == INFINITY || exists|q: int|
        0 <= q < upto && #[trigger] labels[q] == c && coords.coord(q, d) == m
}

/// `m` is the highest coordinate `d` of the first `upto` particles that are labelled `c`.
pub open spec fn is_highest(
    coords: &SpectralCoords<Scalar>,
    labels: Seq<u32>,
    c: int,
    upto: int,
    d: int,
    m: Scalar,
) -> bool {
    &&& !m.nan()
    &&& forall|q: int|
        0 <= q < upto && #[trigger] labels[q] == c && !coords.coord(q, d).nan()
            ==> coords.coord(q, d).rank() <= m.rank()
    &&& m.bits == NEG_INFINITY || exists|q: int|
        0 <= q < upto && #[trigger] labels[q] == c && coords.coord(q, d) == m
}

/// The box of `node` is the tightest around the first `upto` particles labelled `c`.
pub open spec fn is_box(
    coords: &SpectralCoords<Scalar>,
    labels: Seq<u32>,
    c: int,
    upto: int,
    node: BvhNode,
) -> bool {
    forall|d: int|
        #![trigger node.aabb_min[d]]
        #![trigger node.aabb_max[d]]
        0 <= d < 3 ==> is_lowest(coords, labels, c, upto, d, node.aabb_min[d]) && is_highest(
            coords,
            labels,
            c,
            upto,
            d,
            node.aabb_max[d],
        )
}

fn aabb_empty(focus_sum: Scalar, leaf: bool) -> (node: BvhNode)
    ensures
        forall|d: int| 0 <= d < 3 ==> #[trigger] node.aabb_min[d] == (Scalar { bits: INFINITY }),
        forall|d: int|
            0 <= d < 3 ==> #[trigger] node.aabb_max[d] == (Scalar { bits: NEG_INFINITY }),
        node.focus_sum == focus_sum,
        node.is_leaf == if leaf {
            1u32
        } else {
            0u32
        },
        node.child_start == 0,
        node.child_count == 0,
        node.leaf_start == 0,
        node.leaf_count == 0,
{
    let low = Scalar { bits: INFINITY };
    let high = Scalar { bits: NEG_INFINITY };
    BvhNode {
        aabb_min: [low, low, low],
        focus_sum,
        aabb_max: [high, high, high],
        child_start: 0,
        child_count: 0,
        is_leaf: if leaf {
            1
        } else {
            0
        },
        leaf_start: 0,
        leaf_count: 0,
    }
}

fn aabb_expand(node: &BvhNode, pos: [Scalar; 3]) -> (r: BvhNode)
    ensures
        forall|d: int| 0 <= d < 3 ==> #[trigger] r.aabb_min[d] == node.aabb_min[d].lower(pos[d]),
        forall|d: int| 0 <= d < 3 ==> #[trigger] r.aabb_max[d] == node.aabb_max[d].higher(pos[d]),
        r.focus_sum == node.focus_sum,
        r.is_leaf == node.is_leaf,
        r.child_start == node.child_start,
        r.child_count == node.child_count,
        r.leaf_start == node.leaf_start,
        r.leaf_count == node.leaf_count,
{
    BvhNode {
        aabb_min: [
            node.aabb_min[0].min(pos[0]),
            node.aabb_min[1].min(pos[1]),
            node.aabb_min[2].min(pos[2]),
        ],
        aabb_max: [
            node.aabb_max[0].max(pos[0]),
            node.aabb_max[1].max(pos[1]),
            node.aabb_max[2].max(pos[2]),
        ],
        focus_sum: node.focus_sum,
        child_start: node.child_start,
        child_count: node.child_count,
        is_leaf: node.is_leaf,
        leaf_start: node.leaf_start,
        leaf_count: node.leaf_count,
    }
}

/// One more particle widens the box of its cluster.
proof fn lemma_box_grows(
    coords: &SpectralCoords<Scalar>,
    labels: Seq<u32>,
    c: int,
    p: int,
    node: BvhNode,
    wider: BvhNode,
)
    requires
        is_box(coords, labels, c, p, node),
        0 <= p < labels.len(),
        labels[p] == c,
        forall|d: int|
            0 <= d < 3 ==> #[trigger] wider.aabb_min[d] == node.aabb_min[d].lower(
                coords.coord(p, d),
            ),
        forall|d: int|
            0 <= d < 3 ==> #[trigger] wider.aabb_max[d] == node.aabb_max[d].higher(
                coords.coord(p, d),
            ),
    ensures
        is_box(coords, labels, c, p + 1, wider),
{
    assert forall|d: int|
        #![trigger wider.aabb_min[d]]
        #![trigger wider.aabb_max[d]]
        0 <= d < 3 implies is_lowest(coords, labels, c, p + 1, d, wider.aabb_min[d]) && is_highest(
        coords,
        labels,
        c,
        p + 1,
        d,
        wider.aabb_max[d],
    ) by {
        assert(wider.aabb_min[d] == node.aabb_min[d].lower(coords.coord(p, d)));
        assert(wider.aabb_max[d] == node.aabb_max[d].higher(coords.coord(p, d)));
        assert(is_lowest(coords, labels, c, p, d, node.aabb_min[d]));
        assert(is_highest(coords, labels, c, p, d, node.aabb_max[d]));
        assert(labels[p] == c);
    }
}

/// A particle of another cluster leaves the box as it is.
proof fn lemma_box_stays(
    coords: &SpectralCoords<Scalar>,
    labels: Seq<u32>,
    c: int,
    p: int,
    node: BvhNode,
)
    requires
        is_box(coords, labels, c, p, node),
        0 <= p < labels.len(),
        labels[p] != c,
    ensures
        is_box(coords, labels, c, p + 1, node),
{
    assert forall|d: int|
        #![trigger node.aabb_min[d]]
        #![trigger node.aabb_max[d]]
        0 <= d < 3 implies is_lowest(coords, labels, c, p + 1, d, node.aabb_min[d]) && is_highest(
        coords,
        labels,
        c,
        p + 1,
        d,
        node.aabb_max[d],
    ) by {
        assert(is_lowest(coords, labels, c, p, d, node.aabb_min[d]));
        assert(is_highest(coords, labels, c, p, d, node.aabb_max[d]));
    }
}

/// How many of the first `upto` particles are labelled `c`.
pub open spec fn member_count(labels: Seq<u32>, c: int, upto: nat) -> nat
    decreases upto,
{
    if upto == 0 {
        0
    } else {
        member_count(labels, c, (upto - 1) as nat) + if labels[upto - 1] == c {
            1nat
        } else {
            0
        }
    }
}

proof fn lemma_member_count_bound(labels: Seq<u32>, c: int, upto: nat)
    ensures
        member_count(labels, c, upto) <= upto,
    decreases upto,
{
    if upto > 0 {
        lemma_member_count_bound(labels, c, (upto - 1) as nat);
    }
}

/// The node counts the members of cluster `c` among the first `upto` particles and starts at
/// the first, where it is a leaf.
spec fn counts_members(labels: Seq<u32>, c: int, upto: int, leaf: bool, node: BvhNode) -> bool {
    if leaf {
        &&& node.leaf_count == member_count(labels, c, upto as nat)
        &&& node.leaf_count == 0 ==> node.leaf_start == 0 && forall|q: int|
            0 <= q < upto ==> #[trigger] labels[q] != c
        &&& node.leaf_count > 0 ==> is_first_member(labels, c, node.leaf_start as int)
            && node.leaf_start < upto
    } else {
        node.leaf_start == 0 && node.leaf_count == 0
    }
}

/// The nodes of one scale, not yet linked to their children.
fn level_nodes(
    coords: &SpectralCoords<Scalar>,
    labels: &Vec<u32>,
    sums: &Vec<Scalar>,
    leaf: bool,
) -> (nodes: Vec<BvhNode>)
    requires
        coords.wf(),
        labels.len() == coords.n,
        coords.n <= u32::MAX,
        forall|p: int| 0 <= p < labels.len() ==> #[trigger] labels[p] < sums.len(),
    ensures
        nodes.len() == sums.len(),
        forall|c: int|
            0 <= c < nodes.len() ==> is_box(
                coords,
                labels@,
                c,
                coords.n as int,
                #[trigger] nodes[c],
            ) && has_sum(nodes[c], sums[c], leaf) && counts_members(
                labels@,
                c,
                coords.n as int,
                leaf,
                nodes[c],
            ) && nodes[c].child_start == 0 && nodes[c].child_count == 0,
{
    let mut nodes: Vec<BvhNode> = Vec::with_capacity(sums.len());
    let mut c: usize = 0;
    while c < sums.len()
        invariant
            c <= sums.len(),
            nodes.len() == c,
            forall|k: int|
                0 <= k < c ==> is_box(coords, labels@, k, 0, #[trigger] nodes[k]) && has_sum(
                    nodes[k],
                    sums[k],
                    leaf,
                ) && counts_members(labels@, k, 0, leaf, nodes[k]) && nodes[k].child_start == 0
                    && nodes[k].child_count == 0,
        decreases sums.len() - c,
    {
        let node = aabb_empty(sums[c], leaf);
        nodes.push(node);
        c = c + 1;
    }
    let mut p: usize = 0;
    while p < coords.n
        invariant
            coords.wf(),
            p <= coords.n,
            labels.len() == coords.n,
            coords.n <= u32::MAX,
            nodes.len() == sums.len(),
            forall|q: int| 0 <= q < labels.len() ==> #[trigger] labels[q] < sums.len(),
            forall|k: int|
                0 <= k < nodes.len() ==> is_box(coords, labels@, k, p as int, #[trigger] nodes[k])
                    && has_sum(nodes[k], sums[k], leaf) && counts_members(
                    labels@,
                    k,
                    p as int,
                    leaf,
                    nodes[k],
                ) && nodes[k].child_start == 0 && nodes[k].child_count == 0,
        decreases coords.n - p,
    {
        let id: usize = labels[p] as usize;
        let ghost before = nodes@;
        let pos = coords.position(p);
        let mut wider = aabb_expand(&nodes[id], pos);
        proof {
            assert(counts_members(labels@, id as int, p as int, leaf, before[id as int]));
            lemma_member_count_bound(labels@, id as int, p as nat);
        }
        if leaf {
            if wider.leaf_count == 0 {
                wider.leaf_start = p as u32;
                assert(is_first_member(labels@, id as int, p as int));
            }
            wider.leaf_count = wider.leaf_count + 1;
        }
        nodes.set(id, wider);
        proof {
            assert forall|k: int| 0 <= k < nodes.len() implies counts_members(
                labels@,
                k,
                p + 1,
                leaf,
                #[trigger] nodes[k],
            ) by {
                assert(counts_members(labels@, k, p as int, leaf, before[k]));
            }
            assert forall|k: int| 0 <= k < nodes.len() implies is_box(
                coords,
                labels@,
                k,
                p + 1,
                #[trigger] nodes[k],
            ) by {
                if k == id {
                    lemma_box_grows(coords, labels@, k, p as int, before[k], wider);
                } else {
                    lemma_box_stays(coords, labels@, k, p as int, before[k]);
                }
            }
        }
        p = p + 1;
    }
    nodes
}

/// The node's focus, and whether it is a leaf.
pub open spec fn has_sum(node: BvhNode, sum: Scalar, leaf: bool) -> bool {
    &&& node.focus_sum == sum
    &&& node.is_leaf == if leaf {
        1u32
    } else {
        0u32
    }
}

// ── Layout on the device ─────────────────────────────────────────────────────

/// Bytes of a node on the device.
pub const NODE_SIZE: usize = 48;

/// The words of a node, in the order of its fields.
pub open spec fn node_words(node: &BvhNode) -> Seq<u32> {
    seq![
        node.aabb_min[0].bits,
        node.aabb_min[1].bits,
        node.aabb_min[2].bits,
        node.focus_sum.bits,
        node.aabb_max[0].bits,
        node.aabb_max[1].bits,
        node.aabb_max[2].bits,
        node.child_start,
        node.child_count,
        node.is_leaf,
        node.leaf_start,
        node.leaf_count,
    ]
}

/// `words` one after the other, each in four bytes, least significant first.
pub open spec fn words_bytes(words: Seq<u32>) -> Seq<u8>
    decreases words.len(),
{
    if words.len() == 0 {
        Seq::empty()
    } else {
        words_bytes(words.drop_last()) + crate::bytes::le_bytes(words.last() as nat, 4)
    }
}

proof fn lemma_words_bytes_len(words: Seq<u32>)
    ensures
        words_bytes(words).len() == 4 * words.len(),
    decreases words.len(),
{
    if words.len() > 0 {
        lemma_words_bytes_len(words.drop_last());
        crate::bytes::lemma_le_limits();
        crate::bytes::lemma_le_roundtrip(words.last() as nat, 4);
    }
}

/// A node as the kernels declare it.
pub fn node_bytes(node: &BvhNode) -> (out: Vec<u8>)
    ensures
        out.len() == NODE_SIZE,
        out@ == words_bytes(node_words(node)),
{
    let words: [u32; 12] = [
        node.aabb_min[0].bits,
        node.aabb_min[1].bits,
        node.aabb_min[2].bits,
        node.focus_sum.bits,
        node.aabb_max[0].bits,
        node.aabb_max[1].bits,
        node.aabb_max[2].bits,
        node.child_start,
        node.child_count,
        node.is_leaf,
        node.leaf_start,
        node.leaf_count,
    ];
    assert(words@ =~= node_words(node));
    let mut out: Vec<u8> = Vec::with_capacity(NODE_SIZE);
    let mut k: usize = 0;
    while k < 12
        invariant
            k <= 12,
            words@ == node_words(node),
            out@ == words_bytes(words@.take(k as int)),
        decreases 12 - k,
    {
        push_word(&mut out, words[k]);
        k = k + 1;
        assert(words@.take(k as int).drop_last() =~= words@.take(k - 1));
    }
    proof {
        assert(words@.take(12) =~= words@);
        lemma_words_bytes_len(words@);
    }
    out
}

// ── Children ─────────────────────────────────────────────────────────────────

/// The coarser cluster that a finer cluster belongs to: that of its first member.
pub open spec fn parent_of(fine: Seq<u32>, coarse: Seq<u32>, c: int) -> int {
    coarse[first_member(fine, c)] as int
}

/// How many of the first `upto` finer clusters belong to the coarser cluster `parent`.
pub open spec fn child_total(fine: Seq<u32>, coarse: Seq<u32>, parent: int, upto: nat) -> nat
    decreases upto,
{
    if upto == 0 {
        0
    } else {
        child_total(fine, coarse, parent, (upto - 1) as nat) + if parent_of(fine, coarse, upto - 1)
            == parent {
            1nat
        } else {
            0
        }
    }
}

/// `c` is the first finer cluster that belongs to `parent`.
pub open spec fn is_first_child(fine: Seq<u32>, coarse: Seq<u32>, parent: int, c: int) -> bool {
    &&& parent_of(fine, coarse, c) == parent
    &&& forall|b: int| 0 <= b < c ==> #[trigger] parent_of(fine, coarse, b) != parent
}

/// The node of `parent` counts its children among the first `upto` finer clusters and
/// starts at the first; `offset` is the node index of finer cluster 0.
pub open spec fn is_linked(
    fine: Seq<u32>,
    coarse: Seq<u32>,
    parent: int,
    upto: nat,
    offset: int,
    node: BvhNode,
) -> bool {
    &&& node.child_count == child_total(fine, coarse, parent, upto)
    &&& node.child_count == 0 ==> node.child_start == 0 && forall|c: int|
        0 <= c < upto ==> #[trigger] parent_of(fine, coarse, c) != parent
    &&& node.child_count > 0 ==> exists|c: int|
        0 <= c < upto && #[trigger] is_first_child(fine, coarse, parent, c) && node.child_start == (
        offset + c) as u32
}

fn link_children(
    nodes: &mut Vec<BvhNode>,
    fine: &Vec<u32>,
    coarse: &Vec<u32>,
    fine_count: usize,
    offset: usize,
)
    requires
        fine.len() == coarse.len(),
        is_compact(fine@, fine_count as nat),
        fine_count <= u32::MAX,
        offset + fine_count <= usize::MAX,
        forall|p: int| 0 <= p < coarse.len() ==> #[trigger] coarse[p] < old(nodes).len(),
        forall|k: int|
            0 <= k < old(nodes).len() ==> (#[trigger] old(nodes)[k]).child_start == 0 && old(
                nodes,
            )[k].child_count == 0,
    ensures
        final(nodes).len() == old(nodes).len(),
        forall|k: int|
            0 <= k < old(nodes).len() ==> is_linked(
                fine@,
                coarse@,
                k,
                fine_count as nat,
                offset as int,
                #[trigger] final(nodes)[k],
            ) && same_but_links(old(nodes)[k], final(nodes)[k]),
{
    let ghost before = nodes@;
    let firsts = first_members(fine.as_slice(), fine_count);
    let mut c: usize = 0;
    while c < fine_count
        invariant
            c <= fine_count <= u32::MAX,
            offset + fine_count <= usize::MAX,
            firsts.len() == fine_count,
            fine.len() == coarse.len(),
            is_compact(fine@, fine_count as nat),
            nodes.len() == before.len(),
            forall|p: int| 0 <= p < coarse.len() ==> #[trigger] coarse[p] < nodes.len(),
            forall|k: int| 0 <= k < fine_count ==> #[trigger] firsts[k] == first_member(fine@, k),
            forall|k: int|
                0 <= k < nodes.len() ==> is_linked(
                    fine@,
                    coarse@,
                    k,
                    c as nat,
                    offset as int,
                    #[trigger] nodes[k],
                ) && same_but_links(before[k], nodes[k]),
        decreases fine_count - c,
    {
        proof {
            let id = c as u32;
            assert(fine@.contains(id));
            let p = choose|p: int| 0 <= p < fine.len() && fine@[p] == id;
            lemma_first_member_exists(fine@, c as int, p);
        }
        let ghost old_nodes = nodes@;
        let parent: usize = coarse[firsts[c]] as usize;
        let mut node = nodes[parent];
        proof {
            lemma_child_total_bound(fine@, coarse@, parent as int, c as nat);
        }
        if node.child_count == 0 {
            node.child_start = #[verifier::truncate] ((offset + c) as u32);
        }
        node.child_count = node.child_count + 1;
        nodes.set(parent, node);
        proof {
            assert(parent_of(fine@, coarse@, c as int) == parent);
            assert forall|k: int| 0 <= k < nodes.len() implies is_linked(
                fine@,
                coarse@,
                k,
                (c + 1) as nat,
                offset as int,
                #[trigger] nodes[k],
            ) && same_but_links(before[k], nodes[k]) by {
                let was = old_nodes[k];
                assert(is_linked(fine@, coarse@, k, c as nat, offset as int, was));
                if k == parent {
                    if was.child_count == 0 {
                        assert(is_first_child(fine@, coarse@, k, c as int));
                    } else {
                        let f = choose|f: int|
                            0 <= f < c && #[trigger] is_first_child(fine@, coarse@, k, f)
                                && was.child_start == (offset + f) as u32;
                        assert(is_first_child(fine@, coarse@, k, f));
                    }
                } else if was.child_count > 0 {
                    let f = choose|f: int|
                        0 <= f < c && #[trigger] is_first_child(fine@, coarse@, k, f)
                            && was.child_start == (offset + f) as u32;
                    assert(is_first_child(fine@, coarse@, k, f));
                }
            }
        }
        c = c + 1;
    }
}

proof fn lemma_child_total_bound(fine: Seq<u32>, coarse: Seq<u32>, parent: int, upto: nat)
    ensures
        child_total(fine, coarse, parent, upto) <= upto,
    decreases upto,
{
    if upto > 0 {
        lemma_child_total_bound(fine, coarse, parent, (upto - 1) as nat);
    }
}

/// The nodes differ in nothing but their children.
pub open spec fn same_but_links(a: BvhNode, b: BvhNode) -> bool {
    &&& a.aabb_min == b.aabb_min
    &&& a.aabb_max == b.aabb_max
    &&& a.focus_sum == b.focus_sum
    &&& a.is_leaf == b.is_leaf
    &&& a.leaf_start == b.leaf_start
    &&& a.leaf_count == b.leaf_count
}

// ── Builder ──────────────────────────────────────────────────────────────────

/// The labels of all particles at scale `l`.
pub open spec fn labels_at(cluster_ids: Seq<[u32; 4]>, l: int) -> Seq<u32> {
    Seq::new(cluster_ids.len(), |p: int| cluster_ids[p][l])
}

/// The node index of cluster 0 of scale `l`: the scales follow each other, finest first.
pub open spec fn level_offset(levels: Seq<Level>, l: nat) -> nat
    decreases l,
{
    if l == 0 {
        0
    } else {
        level_offset(levels, (l - 1) as nat) + levels[l - 1].focus@.len()
    }
}

/// The node of cluster `c` at scale `l`: its box is the tightest around its members, its
/// focus is that of the cluster, the finest scale holds the leaves, which count their members
/// and start at the first, and each other node is linked to the clusters of the next finer
/// scale that belong to it.
pub open spec fn is_cluster_node(
    coords: &SpectralCoords<Scalar>,
    levels: Seq<Level>,
    labels: Seq<Seq<u32>>,
    l: int,
    c: int,
    node: BvhNode,
) -> bool {
    &&& is_box(coords, labels[l], c, coords.n as int, node)
    &&& node.is_leaf == if l == 0 {
        1u32
    } else {
        0u32
    }
    &&& l == 0 ==> {
        &&& node.leaf_start == first_member(labels[l], c) as u32
        &&& node.leaf_count == member_count(labels[l], c, labels[l].len())
    }
    &&& l > 0 ==> node.leaf_start == 0 && node.leaf_count == 0
    &&& forall|p: int|
        0 <= p < labels[l].len() && #[trigger] labels[l][p] == c ==> node.focus_sum
            == levels[l].focus@[levels[l].ids@[p] as int]
    &&& l == 0 ==> node.child_start == 0 && node.child_count == 0
    &&& l > 0 ==> is_linked(
        labels[l - 1],
        labels[l],
        c,
        levels[l - 1].focus@.len(),
        level_offset(levels, (l - 1) as nat) as int,
        node,
    )
}

/// Scale `l` of the hierarchy is complete.
pub open spec fn is_level(
    coords: &SpectralCoords<Scalar>,
    levels: Seq<Level>,
    labels: Seq<Seq<u32>>,
    nodes: Seq<BvhNode>,
    l: int,
) -> bool {
    &&& is_canonical(levels[l].ids@, levels[l].focus@, labels[l])
    &&& forall|c: int|
        0 <= c < levels[l].focus@.len() ==> is_cluster_node(
            coords,
            levels,
            labels,
            l,
            c,
            #[trigger] nodes[level_offset(levels, l as nat) + c],
        )
}

/// `bvh` is the cluster hierarchy of `levels` over `coords`.
pub open spec fn is_hierarchy_of(
    coords: &SpectralCoords<Scalar>,
    levels: Seq<Level>,
    bvh: &Bvh,
) -> bool {
    let labels = Seq::new(4, |l: int| labels_at(bvh.cluster_ids@, l));
    &&& bvh.cluster_ids.len() == coords.n
    &&& bvh.nodes.len() == level_offset(levels, 4)
    &&& forall|l: int| 0 <= l < 4 ==> #[trigger] is_level(coords, levels, labels, bvh.nodes@, l)
}

/// Labels the clusters of one scale: the label of each particle, and the focus of each
/// labelled cluster.
fn label_level(level: &Level, n: usize) -> (r: (Vec<u32>, Vec<Scalar>))
    requires
        level.wf(n as int),
        n <= u32::MAX,
    ensures
        is_canonical(level.ids@, level.focus@, r.0@),
        is_compact(r.0@, level.focus@.len()),
        r.1.len() == level.focus.len(),
        level.focus.len() <= n,
        forall|p: int|
            0 <= p < n ==> r.1@[#[trigger] r.0@[p] as int] == level.focus@[level.ids@[p] as int],
{
    let ghost ids = level.ids@;
    let ghost focus = level.focus@;
    proof {
        lemma_label_count(ids);
        lemma_compact_count(ids, focus.len());
    }
    let mut labels: Vec<u32> = level.ids.clone();
    assert(labels@ =~= ids);
    canonicalize_ids(&mut labels, level.focus.as_slice());
    proof {
        law_canonical_labels_keep_clusters(ids, focus, labels@);
    }
    let mut sums: Vec<Scalar> = vec![Scalar { bits: 0 }; level.focus.len()];
    let mut p: usize = 0;
    while p < n
        invariant
            p <= n,
            ids == level.ids@,
            focus == level.focus@,
            ids.len() == n,
            labels.len() == n,
            sums.len() == focus.len(),
            is_compact(ids, focus.len()),
            is_compact(labels@, focus.len()),
            same_clusters(ids, labels@),
            forall|q: int| 0 <= q < p ==> sums@[#[trigger] labels@[q] as int] == focus[ids[q] as int],
        decreases n - p,
    {
        let ghost before = sums@;
        assert(ids[p as int] < focus.len() && labels@[p as int] < focus.len());
        let sum: Scalar = level.focus[level.ids[p] as usize];
        sums.set(labels[p] as usize, sum);
        assert forall|q: int| 0 <= q < p + 1 implies sums@[#[trigger] labels@[q] as int]
            == focus[ids[q] as int] by {
            assert(ids[q] == ids[p as int] <==> labels@[q] == labels@[p as int]);
            if q < p {
                assert(before[labels@[q] as int] == focus[ids[q] as int]);
            }
        }
        p = p + 1;
    }
    (labels, sums)
}

/// Compact ids count up to their number of clusters, of which there are no more than ids.
pub proof fn lemma_compact_count(ids: Seq<u32>, count: nat)
    requires
        is_compact(ids, count),
        ids.len() <= u32::MAX,
    ensures
        label_count(ids) == count,
        count <= ids.len(),
{
    lemma_label_count(ids);
    if count > u32::MAX {
        lemma_pigeonhole(ids, 0x1_0000_0000);
    }
    if ids.len() == 0 {
        if count > 0 {
            assert(ids.contains(0u32));
        }
    } else {
        let p = choose|p: int| 0 <= p < ids.len() && #[trigger] ids[p] + 1 == label_count(ids);
        assert(ids[p] < count);
        if label_count(ids) < count {
            let c = label_count(ids) as u32;
            assert(ids.contains(c));
        }
        lemma_pigeonhole(ids, label_count(ids));
    }
}

/// A sequence that contains `count` different values is at least that long.
pub proof fn lemma_pigeonhole(ids: Seq<u32>, count: nat)
    requires
        forall|c: u32| c < count ==> #[trigger] ids.contains(c),
        count <= 0x1_0000_0000,
    ensures
        count <= ids.len(),
    decreases count,
{
    if count > 0 {
        let top = (count - 1) as u32;
        assert(ids.contains(top));
        let p = choose|p: int| 0 <= p < ids.len() && ids[p] == top;
        let rest = ids.remove(p);
        assert forall|c: u32| c < count - 1 implies #[trigger] rest.contains(c) by {
            assert(ids.contains(c));
            let q = choose|q: int| 0 <= q < ids.len() && ids[q] == c;
            if q < p {
                assert(rest[q] == c);
            } else {
                assert(rest[q - 1] == c);
            }
        }
        lemma_pigeonhole(rest, (count - 1) as nat);
    }
}

/// Builds the hierarchy: labels the clusters of each scale, and gives each cluster a node
/// with the box of its members, linked to its clusters of the next finer scale.
pub fn build(coords: &SpectralCoords<Scalar>, levels: &[Level; 4]) -> (bvh: Bvh)
    requires
        coords.wf(),
        coords.n <= u32::MAX,
        forall|l: int| 0 <= l < 4 ==> (#[trigger] levels@[l]).wf(coords.n as int),
    ensures
        is_hierarchy_of(coords, levels@, &bvh),
{
    let n: usize = coords.n;
    let mut cluster_ids: Vec<[u32; 4]> = vec![[0u32; 4]; n];
    let mut nodes: Vec<BvhNode> = Vec::new();
    let mut finer: Vec<u32> = Vec::new();
    let mut finer_offset: usize = 0;
    let ghost mut labels: Seq<Seq<u32>> = Seq::empty();
    let mut l: usize = 0;
    while l < 4
        invariant
            l <= 4,
            n == coords.n <= u32::MAX,
            coords.wf(),
            forall|j: int| 0 <= j < 4 ==> (#[trigger] levels@[j]).wf(coords.n as int),
            cluster_ids.len() == n,
            labels.len() == l,
            forall|j: int| 0 <= j < l ==> (#[trigger] labels[j]).len() == n,
            forall|j: int, p: int|
                0 <= j < l && 0 <= p < n ==> cluster_ids@[p][j] == #[trigger] labels[j][p],
            nodes.len() == level_offset(levels@, l as nat),
            forall|j: int| 0 <= j < l ==> #[trigger] is_level(coords, levels@, labels, nodes@, j),
            l > 0 ==> {
                &&& finer@ == labels[l - 1]
                &&& is_compact(finer@, levels@[l - 1].focus@.len())
                &&& levels@[l - 1].focus@.len() <= n
                &&& finer_offset == level_offset(levels@, (l - 1) as nat)
            },
        decreases 4 - l,
    {
        let level = &levels[l];
        assert(levels@[l as int].wf(coords.n as int));
        let (ids, sums) = label_level(level, n);
        let ghost labels_before = labels;
        let ghost nodes_before = nodes@;
        let mut fresh = level_nodes(coords, &ids, &sums, l == 0);
        let ghost unlinked = fresh@;
        if l > 0 {
            let fine_count: usize = levels[l - 1].focus.len();
            link_children(&mut fresh, &finer, &ids, fine_count, finer_offset);
        }
        let offset: usize = nodes.len();
        assign_level(&mut cluster_ids, &ids, l);
        append_nodes(&mut nodes, &fresh);
        proof {
            labels = labels_before.push(ids@);
            assert forall|c: int| 0 <= c < level.focus@.len() implies is_cluster_node(
                coords,
                levels@,
                labels,
                l as int,
                c,
                #[trigger] nodes@[level_offset(levels@, l as nat) + c],
            ) by {
                let node = nodes@[offset + c];
                assert(node == fresh@[c]);
                let plain = unlinked[c];
                assert(is_box(coords, ids@, c, n as int, plain) && has_sum(plain, sums@[c], l == 0));
                assert(is_box(coords, ids@, c, n as int, node));
                if l == 0 {
                    assert(counts_members(ids@, c, n as int, true, plain));
                    let label = c as u32;
                    assert(ids@.contains(label));
                    let p = choose|p: int| 0 <= p < ids.len() && ids@[p] == label;
                    assert(ids@[p] == c);
                    lemma_first_member(ids@, c, node.leaf_start as int);
                }
            }
            assert forall|j: int| 0 <= j < l + 1 implies #[trigger] is_level(
                coords,
                levels@,
                labels,
                nodes@,
                j,
            ) by {
                if j < l {
                    assert(is_level(coords, levels@, labels_before, nodes_before, j));
                    lemma_level_stays(
                        coords,
                        levels@,
                        labels_before,
                        labels,
                        nodes_before,
                        nodes@,
                        j,
                    );
                }
            }
        }
        finer = ids;
        finer_offset = offset;
        l = l + 1;
    }
    let bvh = Bvh { nodes, cluster_ids };
    proof {
        let found = Seq::new(4, |j: int| labels_at(bvh.cluster_ids@, j));
        assert forall|j: int| 0 <= j < 4 implies #[trigger] found[j] == labels[j] by {
            assert(found[j] =~= labels[j]);
        }
        assert(found =~= labels);
    }
    bvh
}

/// A complete scale stays complete when coarser scales follow.
proof fn lemma_level_stays(
    coords: &SpectralCoords<Scalar>,
    levels: Seq<Level>,
    labels: Seq<Seq<u32>>,
    more_labels: Seq<Seq<u32>>,
    nodes: Seq<BvhNode>,
    more_nodes: Seq<BvhNode>,
    j: int,
)
    requires
        0 <= j < labels.len() < more_labels.len(),
        forall|k: int| 0 <= k < labels.len() ==> #[trigger] more_labels[k] == labels[k],
        nodes.len() == level_offset(levels, labels.len()),
        nodes.len() <= more_nodes.len(),
        forall|k: int| 0 <= k < nodes.len() ==> #[trigger] more_nodes[k] == nodes[k],
        is_level(coords, levels, labels, nodes, j),
    ensures
        is_level(coords, levels, more_labels, more_nodes, j),
{
    lemma_offsets_ascend(levels, (j + 1) as nat, labels.len());
    let offset = level_offset(levels, j as nat);
    assert forall|c: int| 0 <= c < levels[j].focus@.len() implies is_cluster_node(
        coords,
        levels,
        more_labels,
        j,
        c,
        #[trigger] more_nodes[offset + c],
    ) by {
        assert(more_nodes[offset + c] == nodes[offset + c]);
        assert(is_cluster_node(coords, levels, labels, j, c, nodes[offset + c]));
        assert(more_labels[j] == labels[j]);
        if j > 0 {
            assert(more_labels[j - 1] == labels[j - 1]);
        }
    }
}

proof fn lemma_offsets_ascend(levels: Seq<Level>, a: nat, b: nat)
    requires
        a <= b,
    ensures
        level_offset(levels, a) <= level_offset(levels, b),
    decreases b,
{
    if a < b {
        lemma_offsets_ascend(levels, a, (b - 1) as nat);
    }
}

fn assign_level(cluster_ids: &mut Vec<[u32; 4]>, ids: &Vec<u32>, l: usize)
    requires
        l < 4,
        old(cluster_ids).len() == ids.len(),
    ensures
        final(cluster_ids).len() == ids.len(),
        forall|p: int, j: int|
            0 <= p < ids.len() && 0 <= j < 4 ==> #[trigger] final(cluster_ids)@[p][j] == if j == l {
                ids@[p]
            } else {
                old(cluster_ids)@[p][j]
            },
{
    let ghost before = cluster_ids@;
    let mut p: usize = 0;
    while p < ids.len()
        invariant
            p <= ids.len(),
            l < 4,
            cluster_ids.len() == ids.len() == before.len(),
            forall|q: int| p <= q < ids.len() ==> #[trigger] cluster_ids@[q] == before[q],
            forall|q: int, j: int|
                0 <= q < p && 0 <= j < 4 ==> #[trigger] cluster_ids@[q][j] == if j == l {
                    ids@[q]
                } else {
                    before[q][j]
                },
        decreases ids.len() - p,
    {
        let mut row = cluster_ids[p];
        row[l] = ids[p];
        cluster_ids.set(p, row);
        p = p + 1;
    }
}

fn append_nodes(nodes: &mut Vec<BvhNode>, fresh: &Vec<BvhNode>)
    ensures
        final(nodes)@ == old(nodes)@ + fresh@,
{
    let ghost before = nodes@;
    let mut k: usize = 0;
    assert(nodes@ =~= before + fresh@.take(0));
    while k < fresh.len()
        invariant
            k <= fresh.len(),
            nodes@ == before + fresh@.take(k as int),
        decreases fresh.len() - k,
    {
        nodes.push(fresh[k]);
        k = k + 1;
        assert(nodes@ =~= before + fresh@.take(k as int));
    }
    assert(fresh@.take(fresh.len() as int) =~= fresh@);
}

/// Law: at every scale the box of a particle's cluster contains the particle, in every
/// coordinate that is a number.
pub proof fn law_boxes_contain_members(
    coords: &SpectralCoords<Scalar>,
    levels: Seq<Level>,
    bvh: &Bvh,
    l: int,
    p: int,
    d: int,
)
    requires
        is_hierarchy_of(coords, levels, bvh),
        0 <= l < 4,
        levels[l].wf(coords.n as int),
        coords.n <= u32::MAX,
        0 <= p < coords.n,
        0 <= d < 3,
        !coords.coord(p, d).nan(),
    ensures
        ({
            let node = bvh.nodes@[level_offset(levels, l as nat) + bvh.cluster_ids@[p][l]];
            node.aabb_min[d].at_most(coords.coord(p, d)) && coords.coord(p, d).at_most(
                node.aabb_max[d],
            )
        }),
{
    let labels = Seq::new(4, |j: int| labels_at(bvh.cluster_ids@, j));
    assert(is_level(coords, levels, labels, bvh.nodes@, l));
    lemma_compact_count(levels[l].ids@, levels[l].focus@.len());
    law_canonical_labels_keep_clusters(levels[l].ids@, levels[l].focus@, labels[l]);
    let c = labels[l][p] as int;
    assert(labels[l][p] < levels[l].focus@.len());
    let node = bvh.nodes@[level_offset(levels, l as nat) + c];
    assert(is_cluster_node(coords, levels, labels, l, c, node));
    assert(is_lowest(coords, labels[l], c, coords.n as int, d, node.aabb_min[d]));
    assert(is_highest(coords, labels[l], c, coords.n as int, d, node.aabb_max[d]));
}

/// Law: every particle has a cluster at every scale, and every cluster has its node.
pub proof fn law_particles_are_assigned(
    coords: &SpectralCoords<Scalar>,
    levels: Seq<Level>,
    bvh: &Bvh,
    l: int,
    p: int,
)
    requires
        is_hierarchy_of(coords, levels, bvh),
        0 <= l < 4,
        levels[l].wf(coords.n as int),
        coords.n <= u32::MAX,
        0 <= p < coords.n,
    ensures
        bvh.cluster_ids@[p][l] < levels[l].focus@.len(),
        bvh.cluster_ids@[p][l] != u32::MAX,
        level_offset(levels, l as nat) + bvh.cluster_ids@[p][l] < bvh.nodes.len(),
{
    let labels = Seq::new(4, |j: int| labels_at(bvh.cluster_ids@, j));
    assert(is_level(coords, levels, labels, bvh.nodes@, l));
    lemma_compact_count(levels[l].ids@, levels[l].focus@.len());
    law_canonical_labels_keep_clusters(levels[l].ids@, levels[l].focus@, labels[l]);
    assert(labels[l][p] < levels[l].focus@.len());
    lemma_offsets_ascend(levels, (l + 1) as nat, 4);
}

/// The same labels have the same first child and number of children.
proof fn lemma_links_agree(
    fine: Seq<u32>,
    coarse: Seq<u32>,
    parent: int,
    upto: nat,
    offset: int,
    a: BvhNode,
    b: BvhNode,
)
    requires
        is_linked(fine, coarse, parent, upto, offset, a),
        is_linked(fine, coarse, parent, upto, offset, b),
    ensures
        a.child_start == b.child_start,
        a.child_count == b.child_count,
{
    if a.child_count > 0 {
        let x = choose|c: int|
            0 <= c < upto && #[trigger] is_first_child(fine, coarse, parent, c) && a.child_start
                == (offset + c) as u32;
        let y = choose|c: int|
            0 <= c < upto && #[trigger] is_first_child(fine, coarse, parent, c) && b.child_start
                == (offset + c) as u32;
        assert(is_first_child(fine, coarse, parent, x) && is_first_child(fine, coarse, parent, y));
        if x < y {
            assert(parent_of(fine, coarse, x) != parent);
        } else if y < x {
            assert(parent_of(fine, coarse, y) != parent);
        }
    }
}

proof fn lemma_offsets_agree(levels_a: Seq<Level>, levels_b: Seq<Level>, l: nat)
    requires
        l <= 4,
        forall|j: int|
            0 <= j < 4 ==> (#[trigger] levels_a[j]).focus@.len() == levels_b[j].focus@.len(),
    ensures
        level_offset(levels_a, l) == level_offset(levels_b, l),
    decreases l,
{
    if l > 0 {
        lemma_offsets_agree(levels_a, levels_b, (l - 1) as nat);
        assert(levels_a[l - 1].focus@.len() == levels_b[l - 1].focus@.len());
    }
}

/// A node index belongs to one scale and one cluster of it.
proof fn lemma_node_has_cluster(levels: Seq<Level>, count: nat, k: int) -> (place: (int, int))
    requires
        0 <= k < level_offset(levels, count),
    ensures
        0 <= place.0 < count,
        0 <= place.1 < levels[place.0].focus@.len(),
        k == level_offset(levels, place.0 as nat) + place.1,
    decreases count,
{
    let l = (count - 1) as nat;
    if k < level_offset(levels, l) {
        lemma_node_has_cluster(levels, l, k)
    } else {
        (l as int, k - level_offset(levels, l))
    }
}

/// The nodes agree in everything that does not depend on coordinates: their place in the
/// tree, their particles and the strength of their focus.
pub open spec fn same_in_tree(a: BvhNode, b: BvhNode) -> bool {
    &&& a.child_start == b.child_start
    &&& a.child_count == b.child_count
    &&& a.is_leaf == b.is_leaf
    &&& a.leaf_start == b.leaf_start
    &&& a.leaf_count == b.leaf_count
    &&& a.focus_sum.rank() == b.focus_sum.rank()
}

/// Law: the labels of all particles at all scales, the nodes and the way from node to node
/// depend on nothing but which particles are together and how strong each cluster is. Whoever
/// builds the hierarchy of the same clusters arrives at the same tree.
pub proof fn law_hierarchies_are_unique(
    coords_a: &SpectralCoords<Scalar>,
    levels_a: Seq<Level>,
    a: &Bvh,
    coords_b: &SpectralCoords<Scalar>,
    levels_b: Seq<Level>,
    b: &Bvh,
)
    requires
        coords_a.n == coords_b.n,
        coords_a.n <= u32::MAX,
        forall|l: int| 0 <= l < 4 ==> (#[trigger] levels_a[l]).wf(coords_a.n as int),
        forall|l: int| 0 <= l < 4 ==> (#[trigger] levels_b[l]).wf(coords_b.n as int),
        forall|l: int|
            0 <= l < 4 ==> same_clusters((#[trigger] levels_a[l]).ids@, levels_b[l].ids@),
        forall|l: int, p: int|
            0 <= l < 4 && 0 <= p < coords_a.n ==> levels_a[l].focus@[#[trigger] levels_a[l].ids@[p] as int].rank()
                == levels_b[l].focus@[levels_b[l].ids@[p] as int].rank(),
        is_hierarchy_of(coords_a, levels_a, a),
        is_hierarchy_of(coords_b, levels_b, b),
    ensures
        a.cluster_ids@ == b.cluster_ids@,
        a.nodes.len() == b.nodes.len(),
        forall|k: int| 0 <= k < a.nodes.len() ==> same_in_tree(#[trigger] a.nodes@[k], b.nodes@[k]),
{
    let all_a = Seq::new(4, |l: int| labels_at(a.cluster_ids@, l));
    let all_b = Seq::new(4, |l: int| labels_at(b.cluster_ids@, l));
    assert forall|l: int| 0 <= l < 4 implies #[trigger] all_a[l] == all_b[l] by {
        assert(is_level(coords_a, levels_a, all_a, a.nodes@, l));
        assert(is_level(coords_b, levels_b, all_b, b.nodes@, l));
        assert(levels_a[l].wf(coords_a.n as int) && levels_b[l].wf(coords_b.n as int));
        lemma_compact_count(levels_a[l].ids@, levels_a[l].focus@.len());
        lemma_compact_count(levels_b[l].ids@, levels_b[l].focus@.len());
        lemma_pigeonhole(levels_a[l].ids@, levels_a[l].focus@.len());
        lemma_pigeonhole(levels_b[l].ids@, levels_b[l].focus@.len());
        law_canonical_labels_are_unique(
            levels_a[l].ids@,
            levels_a[l].focus@,
            all_a[l],
            levels_b[l].ids@,
            levels_b[l].focus@,
            all_b[l],
        );
    }
    assert(all_a =~= all_b);
    assert forall|l: int| 0 <= l < 4 implies (#[trigger] levels_a[l]).focus@.len()
        == levels_b[l].focus@.len() by {
        assert(is_level(coords_a, levels_a, all_a, a.nodes@, l));
        assert(is_level(coords_b, levels_b, all_b, b.nodes@, l));
        assert(levels_a[l].wf(coords_a.n as int) && levels_b[l].wf(coords_b.n as int));
        lemma_compact_count(levels_a[l].ids@, levels_a[l].focus@.len());
        lemma_compact_count(levels_b[l].ids@, levels_b[l].focus@.len());
        law_canonical_labels_keep_clusters(levels_a[l].ids@, levels_a[l].focus@, all_a[l]);
        law_canonical_labels_keep_clusters(levels_b[l].ids@, levels_b[l].focus@, all_b[l]);
        lemma_compact_count(all_a[l], levels_a[l].focus@.len());
        lemma_compact_count(all_a[l], levels_b[l].focus@.len());
    }
    lemma_offsets_agree(levels_a, levels_b, 4);
    assert forall|k: int| 0 <= k < a.nodes.len() implies same_in_tree(
        #[trigger] a.nodes@[k],
        b.nodes@[k],
    ) by {
        let (l, c) = lemma_node_has_cluster(levels_a, 4, k);
        lemma_offsets_agree(levels_a, levels_b, l as nat);
        assert(is_level(coords_a, levels_a, all_a, a.nodes@, l));
        assert(is_level(coords_b, levels_b, all_b, b.nodes@, l));
        let (x, y) = (a.nodes@[k], b.nodes@[k]);
        assert(levels_a[l].focus@.len() == levels_b[l].focus@.len());
        assert(is_cluster_node(coords_a, levels_a, all_a, l, c, x));
        assert(is_cluster_node(coords_b, levels_b, all_b, l, c, y));
        if l > 0 {
            lemma_offsets_agree(levels_a, levels_b, (l - 1) as nat);
            assert(levels_a[l - 1].focus@.len() == levels_b[l - 1].focus@.len());
            lemma_links_agree(
                all_a[l - 1],
                all_a[l],
                c,
                levels_a[l - 1].focus@.len(),
                level_offset(levels_a, (l - 1) as nat) as int,
                x,
                y,
            );
        }
        assert(levels_a[l].wf(coords_a.n as int));
        lemma_compact_count(levels_a[l].ids@, levels_a[l].focus@.len());
        law_canonical_labels_keep_clusters(levels_a[l].ids@, levels_a[l].focus@, all_a[l]);
        assert(all_a[l].contains(c as u32));
        let p = choose|p: int| 0 <= p < all_a[l].len() && all_a[l][p] == c as u32;
        assert(all_a[l][p] == c && all_b[l][p] == c);
        assert(levels_a[l].focus@[levels_a[l].ids@[p] as int].rank()
            == levels_b[l].focus@[levels_b[l].ids@[p] as int].rank());
    }
    assert forall|p: int| 0 <= p < a.cluster_ids.len() implies a.cluster_ids@[p]
        == b.cluster_ids@[p] by {
        assert forall|l: int| 0 <= l < 4 implies a.cluster_ids@[p][l] == b.cluster_ids@[p][l] by {
            assert(all_a[l] == all_b[l]);
            assert(all_a[l][p] == all_b[l][p]);
        }
        assert(a.cluster_ids@[p] =~= b.cluster_ids@[p]);
    }
    assert(a.cluster_ids@ =~= b.cluster_ids@);
}

/// Law: the first particle is in cell 0, and of two cells the one that occurs first has the lower
/// number.
pub proof fn law_cells_are_numbered_as_they_occur(cells: Seq<Cell>, ids: Seq<u32>, p: int, q: int)
    requires
        numbers_cells(cells, ids),
        0 <= p < q < cells.len(),
        forall|r: int| 0 <= r < q ==> #[trigger] cells[r] != cells[q],
    ensures
        ids[0] == 0,
        ids[p] < ids[q],
{
    if 0 < ids[0] {
        assert(occurs_before(ids, 0, 0));
    }
    if ids[q] < ids[p] {
        assert(occurs_before(ids, ids[q], p));
        let r = choose|r: int| 0 <= r < p && #[trigger] ids[r] == ids[q];
        assert(cells[r] == cells[q]);
    } else if ids[q] == ids[p] {
        assert(cells[p] == cells[q]);
    }
}

/// Law: of two clusters whose focus is a number the stronger has the lower label, and of two as
/// strong the one whose first particle comes first.
pub proof fn law_stronger_clusters_come_first(
    ids: Seq<u32>,
    focus: Seq<Scalar>,
    labels: Seq<u32>,
    p: int,
    q: int,
)
    requires
        is_canonical(ids, focus, labels),
        forall|r: int| 0 <= r < ids.len() ==> #[trigger] ids[r] < focus.len(),
        0 <= p < ids.len(),
        0 <= q < ids.len(),
        !focus[ids[p] as int].nan(),
        !focus[ids[q] as int].nan(),
    ensures
        focus[ids[q] as int].less(focus[ids[p] as int]) ==> labels[p] < labels[q],
        !focus[ids[p] as int].less(focus[ids[q] as int]) && !focus[ids[q] as int].less(
            focus[ids[p] as int],
        ) && p < q && (forall|r: int| 0 <= r <= p ==> #[trigger] ids[r] != ids[q]) ==> labels[p]
            < labels[q],
        ids[p] == ids[q] ==> labels[p] == labels[q],
{
    lemma_labels_follow_order(ids, focus, labels, p, q);
    lemma_labels_follow_order(ids, focus, labels, q, p);
    lemma_first_member_exists(ids, ids[p] as int, p);
    lemma_first_member_exists(ids, ids[q] as int, q);
    let places = cluster_places(ids, focus.len());
    assert(places[ids[p] as int] == first_member(ids, ids[p] as int));
    assert(places[ids[q] as int] == first_member(ids, ids[q] as int));
    let m = first_member(ids, ids[q] as int);
    assert(ids[m] == ids[q]);
}

/// Law: a cluster's box reaches no farther than its particles do: each of its bounds is the
/// coordinate of one of them, where one of them has a coordinate that is a number.
pub proof fn law_boxes_are_tight(
    coords: &SpectralCoords<Scalar>,
    levels: Seq<Level>,
    bvh: &Bvh,
    l: int,
    p: int,
    d: int,
)
    requires
        is_hierarchy_of(coords, levels, bvh),
        0 <= l < 4,
        levels[l].wf(coords.n as int),
        coords.n <= u32::MAX,
        0 <= p < coords.n,
        0 <= d < 3,
        coords.coord(p, d).finite(),
    ensures
        ({
            let node = bvh.nodes@[level_offset(levels, l as nat) + bvh.cluster_ids@[p][l]];
            &&& exists|q: int|
                0 <= q < coords.n && (#[trigger] bvh.cluster_ids@[q])[l] == bvh.cluster_ids@[p][l]
                    && coords.coord(q, d) == node.aabb_min[d]
            &&& exists|q: int|
                0 <= q < coords.n && (#[trigger] bvh.cluster_ids@[q])[l] == bvh.cluster_ids@[p][l]
                    && coords.coord(q, d) == node.aabb_max[d]
        }),
{
    let labels = Seq::new(4, |j: int| labels_at(bvh.cluster_ids@, j));
    assert(is_level(coords, levels, labels, bvh.nodes@, l));
    law_particles_are_assigned(coords, levels, bvh, l, p);
    law_boxes_contain_members(coords, levels, bvh, l, p, d);
    let c = labels[l][p] as int;
    let node = bvh.nodes@[level_offset(levels, l as nat) + c];
    assert(is_cluster_node(coords, levels, labels, l, c, node));
    assert(is_lowest(coords, labels[l], c, coords.n as int, d, node.aabb_min[d]));
    assert(is_highest(coords, labels[l], c, coords.n as int, d, node.aabb_max[d]));
    let a = choose|q: int|
        0 <= q < coords.n && #[trigger] labels[l][q] == c && coords.coord(q, d)
            == node.aabb_min[d];
    let b = choose|q: int|
        0 <= q < coords.n && #[trigger] labels[l][q] == c && coords.coord(q, d)
            == node.aabb_max[d];
    assert(bvh.cluster_ids@[a][l] == c);
    assert(bvh.cluster_ids@[b][l] == c);
}

/// Law: the finest scale holds the leaves: the node of a particle's cluster there starts at the
/// first particle of the cluster and counts all of them. No other scale has leaves.
pub proof fn law_leaves_hold_their_particles(
    coords: &SpectralCoords<Scalar>,
    levels: Seq<Level>,
    bvh: &Bvh,
    l: int,
    p: int,
)
    requires
        is_hierarchy_of(coords, levels, bvh),
        0 <= l < 4,
        levels[l].wf(coords.n as int),
        coords.n <= u32::MAX,
        0 <= p < coords.n,
    ensures
        ({
            let c = bvh.cluster_ids@[p][l];
            let node = bvh.nodes@[level_offset(levels, l as nat) + c];
            &&& node.is_leaf == 1 <==> l == 0
            &&& node.is_leaf == 0 <==> l > 0
            &&& l == 0 ==> {
                &&& node.leaf_start <= p
                &&& bvh.cluster_ids@[node.leaf_start as int][0] == c
                &&& forall|q: int|
                    0 <= q < node.leaf_start ==> (#[trigger] bvh.cluster_ids@[q])[0] != c
                &&& node.leaf_count == bvh.cluster_ids@.filter(|row: [u32; 4]| row[0] == c).len()
            }
            &&& l > 0 ==> node.leaf_start == 0 && node.leaf_count == 0
        }),
{
    let labels = Seq::new(4, |j: int| labels_at(bvh.cluster_ids@, j));
    assert(is_level(coords, levels, labels, bvh.nodes@, l));
    law_particles_are_assigned(coords, levels, bvh, l, p);
    let c = labels[l][p] as int;
    let node = bvh.nodes@[level_offset(levels, l as nat) + c];
    assert(is_cluster_node(coords, levels, labels, l, c, node));
    if l == 0 {
        lemma_first_member_exists(labels[0], c, p);
        let m = first_member(labels[0], c);
        assert(labels[0][m] == bvh.cluster_ids@[m][0]);
        assert forall|q: int| 0 <= q < m implies (#[trigger] bvh.cluster_ids@[q])[0] != c by {
            assert(labels[0][q] != c);
        }
        lemma_members_are_counted(bvh.cluster_ids@, c as u32, labels[0].len());
        assert(bvh.cluster_ids@.take(labels[0].len() as int) =~= bvh.cluster_ids@);
    }
}

proof fn lemma_members_are_counted(cluster_ids: Seq<[u32; 4]>, c: u32, upto: nat)
    requires
        upto <= cluster_ids.len(),
    ensures
        member_count(labels_at(cluster_ids, 0), c as int, upto) == cluster_ids.take(
            upto as int,
        ).filter(|row: [u32; 4]| row[0] == c).len(),
    decreases upto,
{
    reveal(Seq::filter);
    if upto > 0 {
        lemma_members_are_counted(cluster_ids, c, (upto - 1) as nat);
        assert(cluster_ids.take(upto as int).drop_last() =~= cluster_ids.take(upto - 1));
    }
}

/// Law: the node of a particle's cluster carries the focus that the cluster was given.
pub proof fn law_nodes_carry_their_focus(
    coords: &SpectralCoords<Scalar>,
    levels: Seq<Level>,
    bvh: &Bvh,
    l: int,
    p: int,
)
    requires
        is_hierarchy_of(coords, levels, bvh),
        0 <= l < 4,
        levels[l].wf(coords.n as int),
        coords.n <= u32::MAX,
        0 <= p < coords.n,
    ensures
        bvh.nodes@[level_offset(levels, l as nat) + bvh.cluster_ids@[p][l]].focus_sum
            == levels[l].focus@[levels[l].ids@[p] as int],
{
    let labels = Seq::new(4, |j: int| labels_at(bvh.cluster_ids@, j));
    assert(is_level(coords, levels, labels, bvh.nodes@, l));
    law_particles_are_assigned(coords, levels, bvh, l, p);
    let c = labels[l][p] as int;
    let node = bvh.nodes@[level_offset(levels, l as nat) + c];
    assert(is_cluster_node(coords, levels, labels, l, c, node));
    assert(labels[l][p] == c);
}

/// Law: the scales follow each other, the finest first, each with a node per cluster.
pub proof fn law_scales_follow_each_other(levels: Seq<Level>)
    ensures
        level_offset(levels, 0) == 0,
        level_offset(levels, 1) == levels[0].focus@.len(),
        level_offset(levels, 2) == levels[0].focus@.len() + levels[1].focus@.len(),
        level_offset(levels, 3) == levels[0].focus@.len() + levels[1].focus@.len()
            + levels[2].focus@.len(),
        level_offset(levels, 4) == levels[0].focus@.len() + levels[1].focus@.len()
            + levels[2].focus@.len() + levels[3].focus@.len(),
{
    reveal_with_fuel(level_offset, 5);
}

/// Law: particle `p` being the first of its cluster, that cluster is a child of the cluster that
/// `p` is in at the next coarser scale: its parent counts it, and the parent's first child is
/// such a cluster too and comes no later. A node of the finest scale has no children.
pub proof fn law_clusters_are_children(
    coords: &SpectralCoords<Scalar>,
    levels: Seq<Level>,
    bvh: &Bvh,
    l: int,
    p: int,
)
    requires
        is_hierarchy_of(coords, levels, bvh),
        0 <= l < 3,
        levels[l].wf(coords.n as int),
        levels[l + 1].wf(coords.n as int),
        coords.n <= u32::MAX,
        level_offset(levels, 4) <= u32::MAX,
        0 <= p < coords.n,
        forall|q: int| 0 <= q < p ==> (#[trigger] bvh.cluster_ids@[q])[l] != bvh.cluster_ids@[p][l],
    ensures
        ({
            let child = level_offset(levels, l as nat) + bvh.cluster_ids@[p][l];
            let parent = bvh.nodes@[level_offset(levels, (l + 1) as nat)
                + bvh.cluster_ids@[p][l + 1]];
            &&& 0 < parent.child_count
            &&& level_offset(levels, l as nat) <= parent.child_start <= child
            &&& exists|q: int|
                0 <= q < coords.n && (#[trigger] bvh.cluster_ids@[q])[l + 1]
                    == bvh.cluster_ids@[p][l + 1] && level_offset(levels, l as nat)
                    + bvh.cluster_ids@[q][l] == parent.child_start && (forall|r: int|
                    0 <= r < q ==> (#[trigger] bvh.cluster_ids@[r])[l] != bvh.cluster_ids@[q][l])
            &&& l == 0 ==> bvh.nodes@[child].child_count == 0 && bvh.nodes@[child].child_start == 0
        }),
{
    let labels = Seq::new(4, |j: int| labels_at(bvh.cluster_ids@, j));
    assert(is_level(coords, levels, labels, bvh.nodes@, l));
    assert(is_level(coords, levels, labels, bvh.nodes@, l + 1));
    law_particles_are_assigned(coords, levels, bvh, l, p);
    law_particles_are_assigned(coords, levels, bvh, l + 1, p);
    let fine = labels[l];
    let coarse = labels[l + 1];
    let c = fine[p] as int;
    let a = coarse[p] as int;
    let offset = level_offset(levels, l as nat) as int;
    let upto = levels[l].focus@.len();
    let parent = bvh.nodes@[level_offset(levels, (l + 1) as nat) + a];
    assert(is_cluster_node(coords, levels, labels, l + 1, a, parent));
    assert(is_cluster_node(coords, levels, labels, l, c, bvh.nodes@[offset + c]));
    assert(is_linked(fine, coarse, a, upto, offset, parent));
    assert forall|q: int| 0 <= q < p implies #[trigger] fine[q] != c by {
        assert(bvh.cluster_ids@[q][l] != bvh.cluster_ids@[p][l]);
    }
    assert(is_first_member(fine, c, p));
    lemma_first_member(fine, c, p);
    assert(parent_of(fine, coarse, c) == a);
    assert(parent.child_count > 0);
    let b = choose|b: int|
        0 <= b < upto && #[trigger] is_first_child(fine, coarse, a, b) && parent.child_start == (
        offset + b) as u32;
    assert(is_first_child(fine, coarse, a, b) && parent.child_start == (offset + b) as u32);
    if c < b {
        assert(parent_of(fine, coarse, c) != a);
    }
    lemma_offsets_ascend(levels, (l + 1) as nat, 4);
    assert(parent.child_start == offset + b);
    lemma_compact_count(levels[l].ids@, upto);
    law_canonical_labels_keep_clusters(levels[l].ids@, levels[l].focus@, fine);
    assert(fine.contains(b as u32));
    let m = choose|m: int| 0 <= m < fine.len() && fine[m] == b as u32;
    lemma_first_member_exists(fine, b, m);
    let q = first_member(fine, b);
    assert(bvh.cluster_ids@[q][l] == b && bvh.cluster_ids@[q][l + 1] == a);
    assert forall|r: int| 0 <= r < q implies (#[trigger] bvh.cluster_ids@[r])[l]
        != bvh.cluster_ids@[q][l] by {
        assert(fine[r] != b);
    }
}

/// Law: on the device a node is the box's lower corner, the focus, the upper corner, the first
/// child and the number of children, whether it is a leaf, its first particle and their number, a
/// word of four bytes each.
pub proof fn law_nodes_have_their_layout(node: &BvhNode, i: int)
    requires
        0 <= i < 12,
    ensures
        words_bytes(node_words(node)).len() == 48,
        crate::bytes::le_value(words_bytes(node_words(node)).subrange(4 * i, 4 * i + 4)) == if i
            < 3 {
            node.aabb_min[i].bits
        } else if i == 3 {
            node.focus_sum.bits
        } else if i < 7 {
            node.aabb_max[i - 4].bits
        } else if i == 7 {
            node.child_start
        } else if i == 8 {
            node.child_count
        } else if i == 9 {
            node.is_leaf
        } else if i == 10 {
            node.leaf_start
        } else {
            node.leaf_count
        },
{
    lemma_words_bytes_len(node_words(node));
    lemma_word_at(node_words(node), i);
}

proof fn lemma_word_at(words: Seq<u32>, i: int)
    requires
        0 <= i < words.len(),
    ensures
        crate::bytes::le_value(words_bytes(words).subrange(4 * i, 4 * i + 4)) == words[i],
    decreases words.len(),
{
    let before = words.drop_last();
    lemma_words_bytes_len(before);
    lemma_words_bytes_len(words);
    crate::bytes::lemma_le_limits();
    crate::bytes::lemma_le_roundtrip(words.last() as nat, 4);
    if i < before.len() {
        lemma_word_at(before, i);
        assert(words_bytes(words).subrange(4 * i, 4 * i + 4) =~= words_bytes(before).subrange(
            4 * i,
            4 * i + 4,
        ));
    } else {
        assert(words_bytes(words).subrange(4 * i, 4 * i + 4) =~= crate::bytes::le_bytes(
            words.last() as nat,
            4,
        ));
    }
}

} // verus!
