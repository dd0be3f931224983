//! Compressed sparse row (CSR) adjacency matrix.
//!
//! Built from links and a particle index. Symmetric: a link between p and q contributes
//! to (p,q) and to (q,p) alike. The weight of an entry is the stake of all links between
//! its two particles, normalised by the largest single stake and clamped to [0,1].
//!
//! The matrix is generic in its entries: `build` gives exact fractions, and whoever
//! computes with approximate numbers exchanges the values and keeps the structure.

use vstd::prelude::*;

use crate::graph::snapshot::Cyberlink;
use crate::graph::vocab::ParticleIndex;
use crate::order::stable_order;

verus! {

/// Compressed sparse row matrix.
pub struct Csr<W> {
    /// number of rows (= number of particles)
    pub n: usize,
    /// length n+1; `row_ptr[i]` = first entry of row i
    pub row_ptr: Vec<u32>,
    /// column of each entry
    pub col_idx: Vec<u32>,
    /// weight of each entry
    pub values: Vec<W>,
}

/// A weight between 0 and 1: `part` of `whole`.
#[derive(Clone, Copy, Debug, PartialEq, Eq, Structural)]
pub struct Weight {
    pub part: u128,
    pub whole: u128,
}

impl Weight {
    /// The fraction is defined and lies in [0,1].
    pub open spec fn wf(self) -> bool {
        self.part <= self.whole && 0 < self.whole
    }
}

impl<W> Csr<W> {
    /// Entry `e` lies in row `i`.
    pub open spec fn in_row(&self, i: int, e: int) -> bool {
        self.row_ptr[i] <= e < self.row_ptr[i + 1]
    }

    /// The rows partition the entries in order, and the columns of each row are distinct,
    /// ascending and inside the matrix.
    pub open spec fn wf(&self) -> bool {
        &&& self.row_ptr.len() == self.n + 1
        &&& self.values.len() == self.col_idx.len()
        &&& self.row_ptr[0] == 0
        &&& self.row_ptr[self.n as int] == self.col_idx.len()
        &&& forall|i: int, j: int|
            0 <= i <= j <= self.n ==> #[trigger] self.row_ptr[i] <= #[trigger] self.row_ptr[j]
        &&& forall|e: int| 0 <= e < self.col_idx.len() ==> #[trigger] self.col_idx[e] < self.n
        &&& forall|i: int, e: int, f: int|
            0 <= i < self.n && #[trigger] self.in_row(i, e) && #[trigger] self.in_row(i, f) && e < f
                ==> self.col_idx[e] < self.col_idx[f]
    }

    /// Entry `e` is the entry at row `i` and column `j`.
    pub open spec fn is_entry(&self, i: int, j: int, e: int) -> bool {
        self.in_row(i, e) && self.col_idx[e] == j
    }

    /// The matrix of no particles.
    pub fn empty() -> (csr: Self)
        ensures
            csr.wf(),
            csr.n == 0,
            csr.col_idx@ == Seq::<u32>::empty(),
    {
        let mut row_ptr: Vec<u32> = Vec::new();
        row_ptr.push(0);
        Csr { n: 0, row_ptr, col_idx: Vec::new(), values: Vec::new() }
    }

    /// Number of entries.
    pub fn nnz(&self) -> (r: usize)
        ensures
            r == self.col_idx.len(),
    {
        self.col_idx.len()
    }

    /// Columns and weights of row `i`.
    pub fn row(&self, i: usize) -> (r: (&[u32], &[W]))
        requires
            self.wf(),
            i < self.n,
        ensures
            r.0@ == self.col_idx@.subrange(
                self.row_ptr[i as int] as int,
                self.row_ptr[i + 1] as int,
            ),
            r.1@ == self.values@.subrange(self.row_ptr[i as int] as int, self.row_ptr[i + 1] as int),
    {
        assert(self.row_ptr[i + 1] <= self.row_ptr[self.n as int]);
        assert(self.row_ptr[i as int] <= self.row_ptr[i + 1]);
        let s: usize = self.row_ptr[i] as usize;
        let e: usize = self.row_ptr[i + 1] as usize;
        (&self.col_idx.as_slice()[s..e], &self.values.as_slice()[s..e])
    }

    /// Number of neighbours of particle `i`.
    pub fn degree(&self, i: usize) -> (d: u32)
        requires
            self.wf(),
            i < self.n,
        ensures
            d == self.row_ptr[i + 1] - self.row_ptr[i as int],
    {
        assert(self.row_ptr[i as int] <= self.row_ptr[i + 1]);
        self.row_ptr[i + 1] - self.row_ptr[i]
    }

    /// The same entries with other weights.
    pub fn with_values<V>(self, values: Vec<V>) -> (csr: Csr<V>)
        requires
            self.wf(),
            values.len() == self.values.len(),
        ensures
            csr.wf(),
            csr.n == self.n,
            csr.row_ptr == self.row_ptr,
            csr.col_idx == self.col_idx,
            csr.values == values,
    {
        let csr = Csr { n: self.n, row_ptr: self.row_ptr, col_idx: self.col_idx, values };
        proof {
            assert forall|i: int, e: int, f: int|
                0 <= i < csr.n && #[trigger] csr.in_row(i, e) && #[trigger] csr.in_row(i, f) && e
                    < f implies csr.col_idx[e] < csr.col_idx[f] by {
                assert(self.in_row(i, e) && self.in_row(i, f));
            }
        }
        csr
    }
}

/// The index that a vocabulary gives a hash.
pub open spec fn index_in(hashes: Seq<[u8; 32]>, hash: [u8; 32]) -> u32 {
    hashes.index_of(hash) as u32
}

/// The link joins two different particles of the vocabulary.
pub open spec fn is_edge(hashes: Seq<[u8; 32]>, link: Cyberlink) -> bool {
    &&& hashes.contains(link.from)
    &&& hashes.contains(link.to)
    &&& index_in(hashes, link.from) != index_in(hashes, link.to)
}

/// The link joins `p` and `q`, in either direction.
pub open spec fn joins(hashes: Seq<[u8; 32]>, link: Cyberlink, p: int, q: int) -> bool {
    let a = index_in(hashes, link.from);
    let b = index_in(hashes, link.to);
    is_edge(hashes, link) && ((a == p && b == q) || (a == q && b == p))
}

/// Some link joins `p` and `q`.
pub open spec fn are_joined(
    links: Seq<Cyberlink>,
    hashes: Seq<[u8; 32]>,
    p: int,
    q: int,
) -> bool {
    exists|k: int| 0 <= k < links.len() && joins(hashes, #[trigger] links[k], p, q)
}

/// How many pairs of particles are joined: links that join a pair again do not count.
pub open spec fn pair_count(links: Seq<Cyberlink>, hashes: Seq<[u8; 32]>) -> nat
    decreases links.len(),
{
    if links.len() == 0 {
        0
    } else {
        let before = links.drop_last();
        let p = index_in(hashes, links.last().from) as int;
        let q = index_in(hashes, links.last().to) as int;
        pair_count(before, hashes) + if is_edge(hashes, links.last()) && !are_joined(
            before,
            hashes,
            p,
            q,
        ) {
            1nat
        } else {
            0
        }
    }
}

/// The stake of all links that join `p` and `q`.
pub open spec fn total_stake(
    links: Seq<Cyberlink>,
    hashes: Seq<[u8; 32]>,
    p: int,
    q: int,
) -> nat
    decreases links.len(),
{
    if links.len() == 0 {
        0
    } else {
        total_stake(links.drop_last(), hashes, p, q) + if joins(hashes, links.last(), p, q) {
            links.last().amount as nat
        } else {
            0
        }
    }
}

/// The largest stake of a single link, at least 1.
pub open spec fn largest_stake(links: Seq<Cyberlink>, hashes: Seq<[u8; 32]>) -> nat
    decreases links.len(),
{
    if links.len() == 0 {
        1
    } else {
        let before = largest_stake(links.drop_last(), hashes);
        if is_edge(hashes, links.last()) && links.last().amount > before {
            links.last().amount as nat
        } else {
            before
        }
    }
}

/// The weight of the entry at `p` and `q`.
pub open spec fn is_weight(
    links: Seq<Cyberlink>,
    hashes: Seq<[u8; 32]>,
    p: int,
    q: int,
    w: Weight,
) -> bool {
    let whole = largest_stake(links, hashes);
    let total = total_stake(links, hashes, p, q);
    &&& w.whole == whole
    &&& w.part == if total < whole {
        total
    } else {
        whole
    }
}

/// `csr` is the adjacency matrix of `links` over the vocabulary `hashes`.
pub open spec fn is_adjacency_of(
    csr: &Csr<Weight>,
    links: Seq<Cyberlink>,
    hashes: Seq<[u8; 32]>,
) -> bool {
    &&& csr.wf()
    &&& csr.n == hashes.len()
    &&& forall|p: int, e: int|
        0 <= p < csr.n && #[trigger] csr.in_row(p, e) ==> {
            &&& are_joined(links, hashes, p, csr.col_idx[e] as int)
            &&& is_weight(links, hashes, p, csr.col_idx[e] as int, csr.values[e])
        }
    &&& forall|p: int, q: int| #[trigger]
        are_joined(links, hashes, p, q) ==> exists|e: int| csr.is_entry(p, q, e)
}

#[derive(Clone, Copy)]
struct Edge {
    row: u32,
    col: u32,
    amount: u128,
}

spec fn edge_total(edges: Seq<Edge>, p: int, q: int) -> nat
    decreases edges.len(),
{
    if edges.len() == 0 {
        0
    } else {
        edge_total(edges.drop_last(), p, q) + if edges.last().row == p && edges.last().col == q {
            edges.last().amount as nat
        } else {
            0
        }
    }
}

spec fn is_listed(edges: Seq<Edge>, p: int, q: int) -> bool {
    exists|k: int|
        0 <= k < edges.len() && (#[trigger] edges[k]).row == p && edges[k].col == q
}

/// What the list of directed edges of `links` is.
spec fn lists_edges(edges: Seq<Edge>, links: Seq<Cyberlink>, hashes: Seq<[u8; 32]>) -> bool {
    &&& forall|p: int, q: int| #[trigger]
        edge_total(edges, p, q) == total_stake(links, hashes, p, q)
    &&& forall|p: int, q: int| #[trigger]
        is_listed(edges, p, q) <==> are_joined(links, hashes, p, q)
    &&& forall|k: int|
        0 <= k < edges.len() ==> (#[trigger] edges[k]).row < hashes.len() && edges[k].col
            < hashes.len() && edges[k].amount <= largest_stake(links, hashes)
}

proof fn lemma_edge_total_push(edges: Seq<Edge>, e: Edge, p: int, q: int)
    ensures
        edge_total(edges.push(e), p, q) == edge_total(edges, p, q) + if e.row == p && e.col == q {
            e.amount as nat
        } else {
            0
        },
        is_listed(edges.push(e), p, q) <==> is_listed(edges, p, q) || (e.row == p && e.col == q),
{
    let all = edges.push(e);
    assert(all.drop_last() =~= edges);
    if is_listed(edges, p, q) {
        let k = choose|k: int|
            0 <= k < edges.len() && (#[trigger] edges[k]).row == p && edges[k].col == q;
        assert(all[k] == edges[k]);
    }
    if e.row == p && e.col == q {
        assert(all[edges.len() as int] == e);
    }
    if is_listed(all, p, q) {
        let k = choose|k: int|
            0 <= k < all.len() && (#[trigger] all[k]).row == p && all[k].col == q;
        if k < edges.len() {
            assert(edges[k] == all[k]);
        }
    }
}

proof fn lemma_are_joined_push(links: Seq<Cyberlink>, hashes: Seq<[u8; 32]>, p: int, q: int)
    requires
        links.len() > 0,
    ensures
        are_joined(links, hashes, p, q) <==> are_joined(links.drop_last(), hashes, p, q) || joins(
            hashes,
            links.last(),
            p,
            q,
        ),
{
    let before = links.drop_last();
    if are_joined(before, hashes, p, q) {
        let k = choose|k: int| 0 <= k < before.len() && joins(hashes, #[trigger] before[k], p, q);
        assert(links[k] == before[k]);
    }
    if are_joined(links, hashes, p, q) {
        let k = choose|k: int| 0 <= k < links.len() && joins(hashes, #[trigger] links[k], p, q);
        if k < before.len() {
            assert(before[k] == links[k]);
        }
    }
}

fn list_edges(links: &[Cyberlink], vocab: &ParticleIndex) -> (r: (Vec<Edge>, u128))
    requires
        vocab.wf(),
    ensures
        lists_edges(r.0@, links@, vocab@),
        r.1 == largest_stake(links@, vocab@),
        r.1 >= 1,
{
    let n: usize = vocab.len();
    let mut edges: Vec<Edge> = Vec::new();
    let mut largest: u128 = 1;
    let mut k: usize = 0;
    proof {
        assert forall|p: int, q: int| #[trigger] is_listed(edges@, p, q) <==> are_joined(
            links@.take(0),
            vocab@,
            p,
            q,
        ) by {}
    }
    while k < links.len()
        invariant
            vocab.wf(),
            n == vocab@.len(),
            k <= links.len(),
            lists_edges(edges@, links@.take(k as int), vocab@),
            largest == largest_stake(links@.take(k as int), vocab@),
            largest >= 1,
        decreases links.len() - k,
    {
        let link = links[k];
        let ghost hashes = vocab@;
        let ghost seen = links@.take(k as int);
        let ghost now = links@.take(k + 1);
        let ghost before = edges@;
        proof {
            assert(now.drop_last() =~= seen);
            assert(now.last() == link);
            assert forall|p: int, q: int| #[trigger] are_joined(now, hashes, p, q) <==> are_joined(
                seen,
                hashes,
                p,
                q,
            ) || joins(hashes, link, p, q) by {
                lemma_are_joined_push(now, hashes, p, q);
            }
            if is_edge(hashes, link) {
                assert(hashes.index_of(link.from) < hashes.len() && hashes.index_of(link.to)
                    < hashes.len());
                lemma_truncation_shrinks(hashes.index_of(link.from));
                lemma_truncation_shrinks(hashes.index_of(link.to));
            }
        }
        let from = vocab.get(&link.from);
        let to = vocab.get(&link.to);
        if let (Some(p), Some(q)) = (from, to) {
            if p != q {
                let there = Edge { row: p, col: q, amount: link.amount };
                let back = Edge { row: q, col: p, amount: link.amount };
                if link.amount > largest {
                    largest = link.amount;
                }
                edges.push(there);
                edges.push(back);
                proof {
                    assert forall|i: int, j: int|
                        edge_total(edges@, i, j) == total_stake(now, hashes, i, j) && (is_listed(
                            edges@,
                            i,
                            j,
                        ) <==> are_joined(now, hashes, i, j)) by {
                        lemma_edge_total_push(before, there, i, j);
                        lemma_edge_total_push(before.push(there), back, i, j);
                        assert(edge_total(before, i, j) == total_stake(seen, hashes, i, j));
                        assert(is_listed(before, i, j) <==> are_joined(seen, hashes, i, j));
                        assert(are_joined(now, hashes, i, j) <==> are_joined(seen, hashes, i, j)
                            || joins(hashes, link, i, j));
                    }
                }
            }
        }
        k = k + 1;
    }
    assert(links@.take(links.len() as int) =~= links@);
    (edges, largest)
}

/// The pairs that are joined, each in both directions.
spec fn joined_pairs(links: Seq<Cyberlink>, hashes: Seq<[u8; 32]>) -> Set<(int, int)> {
    Set::new(|v: (int, int)| are_joined(links, hashes, v.0, v.1))
}

proof fn lemma_joined_pairs(links: Seq<Cyberlink>, hashes: Seq<[u8; 32]>)
    ensures
        joined_pairs(links, hashes).finite(),
        joined_pairs(links, hashes).len() == 2 * pair_count(links, hashes),
    decreases links.len(),
{
    let all = joined_pairs(links, hashes);
    if links.len() == 0 {
        assert(all =~= Set::<(int, int)>::empty());
    } else {
        let before = links.drop_last();
        let last = links.last();
        let some = joined_pairs(before, hashes);
        lemma_joined_pairs(before, hashes);
        assert forall|v: (int, int)| #[trigger] all.contains(v) <==> some.contains(v) || joins(
            hashes,
            last,
            v.0,
            v.1,
        ) by {
            lemma_are_joined_push(links, hashes, v.0, v.1);
        }
        let p = index_in(hashes, last.from) as int;
        let q = index_in(hashes, last.to) as int;
        lemma_joined_both_ways(before, hashes, p, q);
        if is_edge(hashes, last) {
            assert(all =~= some.insert((p, q)).insert((q, p)));
        } else {
            assert(all =~= some);
        }
    }
}

proof fn lemma_joined_both_ways(links: Seq<Cyberlink>, hashes: Seq<[u8; 32]>, p: int, q: int)
    ensures
        are_joined(links, hashes, p, q) == are_joined(links, hashes, q, p),
{
    assert forall|a: int, b: int| #[trigger] are_joined(links, hashes, a, b) implies are_joined(
        links,
        hashes,
        b,
        a,
    ) by {
        let k = choose|k: int| 0 <= k < links.len() && joins(hashes, #[trigger] links[k], a, b);
        assert(joins(hashes, links[k], b, a));
    }
}

/// There are no more entries than joined pairs, counted in both directions.
proof fn lemma_entries_are_pairs(
    rows: Seq<int>,
    cols: Seq<u32>,
    links: Seq<Cyberlink>,
    hashes: Seq<[u8; 32]>,
)
    requires
        rows.len() == cols.len(),
        forall|e: int, f: int|
            0 <= e < f < rows.len() ==> #[trigger] rows[e] < #[trigger] rows[f] || (rows[e]
                == rows[f] && cols[e] < cols[f]),
        forall|e: int|
            0 <= e < rows.len() ==> are_joined(links, hashes, #[trigger] rows[e], cols[e] as int),
    ensures
        rows.len() <= 2 * pair_count(links, hashes),
{
    let pairs = Seq::new(rows.len(), |e: int| (rows[e], cols[e] as int));
    assert forall|e: int, f: int| 0 <= e < f < pairs.len() implies pairs[e] != pairs[f] by {
        assert(rows[e] < rows[f] || (rows[e] == rows[f] && cols[e] < cols[f]));
    }
    assert(pairs.no_duplicates());
    pairs.unique_seq_to_set();
    lemma_joined_pairs(links, hashes);
    let all = joined_pairs(links, hashes);
    assert forall|v: (int, int)| #[trigger] pairs.to_set().contains(v) implies all.contains(v) by {
        let e = choose|e: int| 0 <= e < pairs.len() && pairs[e] == v;
        assert(are_joined(links, hashes, rows[e], cols[e] as int));
    }
    vstd::set_lib::lemma_len_subset(pairs.to_set(), all);
}

/// Truncating an index to its type does not enlarge it.
proof fn lemma_truncation_shrinks(i: int)
    requires
        0 <= i <= usize::MAX,
    ensures
        i as u32 <= i,
{
    let u = i as u64;
    assert(u as u32 <= u) by (bit_vector);
    assert(i as u32 == u as u32);
}

spec fn edge_key(e: Edge) -> int {
    e.row * 0x1_0000_0000 + e.col
}

fn key_of(e: &Edge) -> (key: i128)
    ensures
        key == edge_key(*e),
{
    e.row as i128 * 0x1_0000_0000i128 + e.col as i128
}

proof fn lemma_edge_key_injective(a: Edge, b: Edge)
    ensures
        edge_key(a) == edge_key(b) <==> a.row == b.row && a.col == b.col,
        edge_key(a) < edge_key(b) <==> a.row < b.row || (a.row == b.row && a.col < b.col),
{
}

/// Edges with another key add nothing.
proof fn lemma_edge_total_gap(edges: Seq<Edge>, p: int, q: int, a: int, b: int)
    requires
        0 <= a <= b <= edges.len(),
        forall|i: int|
            a <= i < b ==> (#[trigger] edges[i]).row != p || edges[i].col != q,
    ensures
        edge_total(edges.take(b), p, q) == edge_total(edges.take(a), p, q),
    decreases b - a,
{
    if a < b {
        lemma_edge_total_gap(edges, p, q, a, b - 1);
        assert(edges.take(b).drop_last() =~= edges.take(b - 1));
        assert(edges.take(b).last() == edges[b - 1]);
    }
}

/// Position `t` of the order starts a group of edges with one key.
spec fn starts_group(edges: Seq<Edge>, order: Seq<usize>, t: int) -> bool {
    t == 0 || edge_key(edges[order[t - 1] as int]) != edge_key(edges[order[t] as int])
}

/// Along the order keys do not descend, and equal keys keep the order of their indices.
spec fn is_sorted(edges: Seq<Edge>, order: Seq<usize>) -> bool {
    &&& order.len() == edges.len()
    &&& crate::order::covers(order, 0, edges.len() as int)
    &&& forall|a: int, b: int|
        0 <= a < b < order.len() ==> {
            let x = edge_key(edges[#[trigger] order[a] as int]);
            let y = edge_key(edges[#[trigger] order[b] as int]);
            x < y || (x == y && order[a] < order[b])
        }
}

/// Before the first edge of a group, no edge has the group's key; between two edges that
/// follow each other in the order neither has.
proof fn lemma_group_gap(edges: Seq<Edge>, order: Seq<usize>, t: int)
    requires
        is_sorted(edges, order),
        edges.len() <= usize::MAX,
        0 <= t < order.len(),
    ensures
        forall|i: int|
            (if starts_group(edges, order, t) {
                0
            } else {
                order[t - 1] + 1
            }) <= i < order[t] ==> edge_key(#[trigger] edges[i]) != edge_key(edges[order[t] as int]),
{
    let from: int = if starts_group(edges, order, t) {
        0
    } else {
        order[t - 1] + 1
    };
    assert forall|i: int| from <= i < order[t] implies edge_key(#[trigger] edges[i]) != edge_key(
        edges[order[t] as int],
    ) by {
        assert(order.contains(i as usize));
        let u = choose|u: int| 0 <= u < order.len() && order[u] == i as usize;
        if u < t {
            if u < t - 1 {
                let x = edge_key(edges[order[u] as int]);
                let y = edge_key(edges[order[t - 1] as int]);
                assert(x < y || (x == y && order[u] < order[t - 1]));
            }
            assert(edge_key(edges[order[t - 1] as int]) <= edge_key(edges[order[t] as int]));
        } else if u > t {
            assert(edge_key(edges[order[t] as int]) < edge_key(edges[order[u] as int])
                || order[t] < order[u]);
        }
    }
}

/// After the last edge of a group, no edge has the group's key.
proof fn lemma_group_end(edges: Seq<Edge>, order: Seq<usize>, t: int)
    requires
        is_sorted(edges, order),
        edges.len() <= usize::MAX,
        0 <= t < order.len(),
        t + 1 < order.len() ==> starts_group(edges, order, t + 1),
    ensures
        forall|i: int|
            order[t] < i < edges.len() ==> edge_key(#[trigger] edges[i]) != edge_key(
                edges[order[t] as int],
            ),
{
    assert forall|i: int| order[t] < i < edges.len() implies edge_key(#[trigger] edges[i])
        != edge_key(edges[order[t] as int]) by {
        assert(order.contains(i as usize));
        let u = choose|u: int| 0 <= u < order.len() && order[u] == i as usize;
        if u < t {
            let x = edge_key(edges[order[u] as int]);
            let y = edge_key(edges[order[t] as int]);
            assert(x < y || (x == y && order[u] < order[t]));
        } else if u > t {
            let x = edge_key(edges[order[t] as int]);
            let y = edge_key(edges[order[t + 1] as int]);
            assert(x < y || (x == y && order[t] < order[t + 1]));
            if u > t + 1 {
                let z = edge_key(edges[order[u] as int]);
                assert(y < z || (y == z && order[t + 1] < order[u]));
            }
        }
    }
}

fn sort_edges(edges: &Vec<Edge>) -> (order: Vec<usize>)
    ensures
        is_sorted(edges@, order@),
{
    let mut keys: Vec<i128> = Vec::with_capacity(edges.len());
    let mut k: usize = 0;
    while k < edges.len()
        invariant
            k <= edges.len(),
            keys.len() == k,
            forall|i: int| 0 <= i < k ==> #[trigger] keys[i] == edge_key(edges[i]),
        decreases edges.len() - k,
    {
        keys.push(key_of(&edges[k]));
        k = k + 1;
    }
    let order = stable_order(keys.as_slice());
    proof {
        assert forall|a: int, b: int| 0 <= a < b < order.len() implies {
            let x = edge_key(edges@[#[trigger] order@[a] as int]);
            let y = edge_key(edges@[#[trigger] order@[b] as int]);
            x < y || (x == y && order@[a] < order@[b])
        } by {
            assert(crate::order::precedes(keys@, order@[a] as int, order@[b] as int));
            assert(keys[order[a] as int] == edge_key(edges[order[a] as int]));
            assert(keys[order[b] as int] == edge_key(edges[order[b] as int]));
        }
    }
    order
}

spec fn min_nat(a: nat, b: nat) -> nat {
    if a < b {
        a
    } else {
        b
    }
}

/// The entry of `edge` has been written.
spec fn has_entry(rows: Seq<int>, cols: Seq<u32>, edge: Edge) -> bool {
    exists|x: int| 0 <= x < rows.len() && #[trigger] rows[x] == edge.row && cols[x] == edge.col
}

/// Lengthens the row table to `target` rows, the new rows starting at `value`.
fn fill_rows(row_ptr: &mut Vec<u32>, target: usize, value: u32)
    ensures
        final(row_ptr).len() == if old(row_ptr).len() < target {
            target
        } else {
            old(row_ptr).len()
        },
        forall|i: int|
            0 <= i < final(row_ptr).len() ==> #[trigger] final(row_ptr)[i] == if i < old(
                row_ptr,
            ).len() {
                old(row_ptr)[i]
            } else {
                value
            },
{
    let ghost before = row_ptr@;
    while row_ptr.len() < target
        invariant
            row_ptr.len() >= before.len(),
            row_ptr.len() <= if before.len() < target {
                target as nat
            } else {
                before.len()
            },
            forall|i: int|
                0 <= i < row_ptr.len() ==> #[trigger] row_ptr[i] == if i < before.len() {
                    before[i]
                } else {
                    value
                },
        decreases target - row_ptr.len(),
    {
        row_ptr.push(value);
    }
}

proof fn lemma_rows_make_adjacency(
    csr: &Csr<Weight>,
    rows: Seq<int>,
    edges: Seq<Edge>,
    order: Seq<usize>,
    links: Seq<Cyberlink>,
    hashes: Seq<[u8; 32]>,
)
    requires
        csr.n == hashes.len(),
        csr.row_ptr.len() == csr.n + 1,
        rows.len() == csr.col_idx.len() == csr.values.len(),
        csr.row_ptr[csr.n as int] == rows.len(),
        forall|e: int|
            0 <= e < rows.len() ==> 0 <= #[trigger] rows[e] < csr.n && csr.col_idx[e] < csr.n,
        forall|e: int, f: int|
            0 <= e < f < rows.len() ==> #[trigger] rows[e] < #[trigger] rows[f] || (rows[e]
                == rows[f] && csr.col_idx[e] < csr.col_idx[f]),
        forall|i: int, e: int|
            0 <= i < csr.row_ptr.len() && 0 <= e < rows.len() ==> (e < #[trigger] csr.row_ptr[i]
                <==> #[trigger] rows[e] < i),
        forall|i: int| 0 <= i < csr.row_ptr.len() ==> #[trigger] csr.row_ptr[i] <= rows.len(),
        forall|e: int|
            0 <= e < rows.len() ==> is_listed(edges, #[trigger] rows[e], csr.col_idx[e] as int)
                && is_weight(links, hashes, rows[e], csr.col_idx[e] as int, csr.values[e]),
        crate::order::covers(order, 0, edges.len() as int),
        edges.len() <= usize::MAX,
        forall|s: int|
            0 <= s < order.len() ==> has_entry(
                rows,
                csr.col_idx@,
                edges[#[trigger] order[s] as int],
            ),
        lists_edges(edges, links, hashes),
    ensures
        is_adjacency_of(csr, links, hashes),
{
    if csr.row_ptr[0] > 0 {
        assert(rows[0] < 0);
    }
    assert forall|i: int, j: int| 0 <= i <= j <= csr.n implies #[trigger] csr.row_ptr[i]
        <= #[trigger] csr.row_ptr[j] by {
        if csr.row_ptr[i] > csr.row_ptr[j] {
            let e = csr.row_ptr[j] as int;
            assert(rows[e] < i);
            assert(!(rows[e] < j));
        }
    }
    assert forall|i: int, e: int| 0 <= i < csr.n && #[trigger] csr.in_row(i, e) implies 0 <= e
        < rows.len() && rows[e] == i by {
        assert(csr.row_ptr[i + 1] <= rows.len());
        assert(e < csr.row_ptr[i + 1] <==> rows[e] < i + 1);
        assert(e < csr.row_ptr[i] <==> rows[e] < i);
    }
    assert forall|i: int, e: int, f: int|
        0 <= i < csr.n && #[trigger] csr.in_row(i, e) && #[trigger] csr.in_row(i, f) && e
            < f implies csr.col_idx[e] < csr.col_idx[f] by {
        assert(rows[e] == i && rows[f] == i);
    }
    assert forall|e: int| 0 <= e < csr.col_idx.len() implies #[trigger] csr.col_idx[e] < csr.n by {
        assert(0 <= rows[e]);
    }
    assert forall|p: int, e: int| 0 <= p < csr.n && #[trigger] csr.in_row(p, e) implies are_joined(
        links,
        hashes,
        p,
        csr.col_idx[e] as int,
    ) && is_weight(links, hashes, p, csr.col_idx[e] as int, csr.values[e]) by {
        assert(rows[e] == p);
        assert(is_listed(edges, p, csr.col_idx[e] as int));
    }
    assert forall|p: int, q: int| #[trigger] are_joined(links, hashes, p, q) implies exists|e: int|
        csr.is_entry(p, q, e) by {
        assert(is_listed(edges, p, q));
        let k = choose|k: int|
            0 <= k < edges.len() && (#[trigger] edges[k]).row == p && edges[k].col == q;
        assert(order.contains(k as usize));
        let s = choose|s: int| 0 <= s < order.len() && order[s] == k as usize;
        assert(has_entry(rows, csr.col_idx@, edges[order[s] as int]));
        let x = choose|x: int|
            0 <= x < rows.len() && #[trigger] rows[x] == edges[k].row && csr.col_idx@[x]
                == edges[k].col;
        assert(x < csr.row_ptr[p + 1] <==> rows[x] < p + 1);
        assert(x < csr.row_ptr[p] <==> rows[x] < p);
        assert(csr.is_entry(p, q, x));
    }
}

/// The entries written so far: row by row, columns ascending, with the start of each row.
spec fn rows_ok(rows: Seq<int>, cols: Seq<u32>, row_ptr: Seq<u32>, n: int) -> bool {
    &&& rows.len() == cols.len()
    &&& row_ptr.len() <= n
    &&& row_ptr.len() == if rows.len() == 0 {
        0
    } else {
        rows.last() + 1
    }
    &&& forall|e: int|
        0 <= e < rows.len() ==> 0 <= #[trigger] rows[e] < row_ptr.len() && cols[e] < n
    &&& forall|e: int, f: int|
        0 <= e < f < rows.len() ==> #[trigger] rows[e] < #[trigger] rows[f] || (rows[e] == rows[f]
            && cols[e] < cols[f])
    &&& forall|i: int, e: int|
        0 <= i < row_ptr.len() && 0 <= e < rows.len() ==> (e < #[trigger] row_ptr[i]
            <==> #[trigger] rows[e] < i)
    &&& forall|i: int| 0 <= i < row_ptr.len() ==> #[trigger] row_ptr[i] <= rows.len()
}

proof fn lemma_rows_append(
    rows: Seq<int>,
    cols: Seq<u32>,
    row_ptr: Seq<u32>,
    longer: Seq<u32>,
    r: u32,
    c: u32,
    n: int,
)
    requires
        rows_ok(rows, cols, row_ptr, n),
        r < n,
        c < n,
        rows.len() > 0 ==> rows.last() < r || (rows.last() == r && cols.last() < c),
        longer.len() == if row_ptr.len() < r + 1 {
            (r + 1) as nat
        } else {
            row_ptr.len()
        },
        forall|i: int|
            0 <= i < longer.len() ==> #[trigger] longer[i] == if i < row_ptr.len() {
                row_ptr[i] as nat
            } else {
                rows.len()
            },
    ensures
        rows_ok(rows.push(r as int), cols.push(c), longer, n),
{
    let rows2 = rows.push(r as int);
    let cols2 = cols.push(c);
    let last = rows.len() - 1;
    assert forall|e: int, f: int| 0 <= e < f < rows2.len() implies #[trigger] rows2[e]
        < #[trigger] rows2[f] || (rows2[e] == rows2[f] && cols2[e] < cols2[f]) by {
        if f == rows.len() {
            assert(rows[last] < r || (rows[last] == r && cols[last] < c));
            if e < last {
                assert(rows[e] < rows[last] || (rows[e] == rows[last] && cols[e] < cols[last]));
            }
        } else {
            assert(rows[e] < rows[f] || (rows[e] == rows[f] && cols[e] < cols[f]));
        }
    }
    assert forall|i: int, e: int| 0 <= i < longer.len() && 0 <= e < rows2.len() implies (e
        < #[trigger] longer[i] <==> #[trigger] rows2[e] < i) by {
        if e < rows.len() {
            assert(rows[e] < row_ptr.len());
            if i < row_ptr.len() {
                assert(e < row_ptr[i] <==> rows[e] < i);
            }
        } else if i < row_ptr.len() {
            assert(row_ptr[i] <= rows.len());
        }
    }
    assert forall|e: int| 0 <= e < rows2.len() implies 0 <= #[trigger] rows2[e] < longer.len()
        && cols2[e] < n by {
        if e < rows.len() {
            assert(0 <= rows[e] < row_ptr.len());
        }
    }
}

/// Adds up the group of edges that starts at position `t` of the order, clamped to
/// `whole`, and gives the position after it.
fn add_group(edges: &Vec<Edge>, order: &Vec<usize>, t: usize, whole: u128) -> (r: (usize, u128))
    requires
        is_sorted(edges@, order@),
        t < order.len(),
        starts_group(edges@, order@, t as int),
        forall|k: int| 0 <= k < edges.len() ==> (#[trigger] edges@[k]).amount <= whole,
    ensures
        t < r.0 <= order.len(),
        forall|s: int|
            t <= s < r.0 ==> edge_key(edges@[#[trigger] order@[s] as int]) == edge_key(
                edges@[order@[t as int] as int],
            ),
        r.0 < order.len() ==> starts_group(edges@, order@, r.0 as int),
        r.1 == min_nat(
            edge_total(
                edges@,
                edges@[order@[t as int] as int].row as int,
                edges@[order@[t as int] as int].col as int,
            ),
            whole as nat,
        ),
{
    let first = edges[order[t]];
    let r: u32 = first.row;
    let c: u32 = first.col;
    let ghost start = t as int;
    let mut t: usize = t;
    let mut part: u128 = first.amount;
    proof {
        lemma_group_gap(edges@, order@, t as int);
        let at = order[t as int] as int;
        assert forall|i: int| 0 <= i < at implies (#[trigger] edges@[i]).row != r || edges@[i].col
            != c by {
            lemma_edge_key_injective(edges@[i], first);
        }
        lemma_edge_total_gap(edges@, r as int, c as int, 0, at);
        assert(edges@.take(at + 1).drop_last() =~= edges@.take(at));
        assert(edges@.take(at + 1).last() == first);
        assert(edge_total(edges@.take(0), r as int, c as int) == 0);
        assert(edges@[at].amount <= whole);
    }
    t = t + 1;
    while t < order.len() && edges[order[t]].row == r && edges[order[t]].col == c
        invariant
            is_sorted(edges@, order@),
            forall|k: int| 0 <= k < edges.len() ==> (#[trigger] edges@[k]).amount <= whole,
            0 <= start < t <= order.len(),
            forall|s: int|
                start <= s < t ==> edges@[#[trigger] order@[s] as int].row == r
                    && edges@[order@[s] as int].col == c,
            part == min_nat(
                edge_total(edges@.take(order@[t - 1] + 1), r as int, c as int),
                whole as nat,
            ),
        decreases order.len() - t,
    {
        let e = edges[order[t]];
        proof {
            let prev = edges@[order@[t - 1] as int];
            lemma_edge_key_injective(prev, e);
            assert(!starts_group(edges@, order@, t as int));
            lemma_group_gap(edges@, order@, t as int);
            let from = order@[t - 1] + 1;
            let at = order@[t as int] as int;
            assert(order@[t - 1] < order@[t as int]);
            assert forall|i: int| from <= i < at implies (#[trigger] edges@[i]).row != r
                || edges@[i].col != c by {
                lemma_edge_key_injective(edges@[i], e);
            }
            lemma_edge_total_gap(edges@, r as int, c as int, from, at);
            assert(edges@.take(at + 1).drop_last() =~= edges@.take(at));
            assert(edges@.take(at + 1).last() == e);
        }
        part = if e.amount >= whole - part {
            whole
        } else {
            part + e.amount
        };
        t = t + 1;
    }
    proof {
        let last = order@[t - 1] as int;
        if t < order.len() {
            lemma_edge_key_injective(edges@[order@[t as int] as int], edges@[last]);
        }
        lemma_group_end(edges@, order@, t - 1);
        assert forall|i: int| last + 1 <= i < edges.len() implies (#[trigger] edges@[i]).row != r
            || edges@[i].col != c by {
            lemma_edge_key_injective(edges@[i], edges@[last]);
        }
        lemma_edge_total_gap(edges@, r as int, c as int, last + 1, edges.len() as int);
        assert(edges@.take(edges.len() as int) =~= edges@);
        assert forall|s: int| start <= s < t implies edge_key(
            edges@[#[trigger] order@[s] as int],
        ) == edge_key(first) by {
            lemma_edge_key_injective(edges@[order@[s] as int], first);
        }
    }
    (t, part)
}

impl Csr<Weight> {
    /// The adjacency matrix of `links` over the particles of `vocab`. Links that mention an
    /// unknown particle or join a particle to itself are left out; parallel links add up.
    /// Entry offsets are 32 bits wide, so there may be no more entries than that.
    pub fn build(links: &[Cyberlink], vocab: &ParticleIndex) -> (csr: Self)
        requires
            vocab.wf(),
            2 * pair_count(links@, vocab@) <= u32::MAX,
        ensures
            is_adjacency_of(&csr, links@, vocab@),
    {
        let n: usize = vocab.len();
        let (edges, whole) = list_edges(links, vocab);
        let order = sort_edges(&edges);
        let ghost hashes = vocab@;

        let mut col_idx: Vec<u32> = Vec::new();
        let mut values: Vec<Weight> = Vec::new();
        let mut row_ptr: Vec<u32> = Vec::new();
        let ghost mut rows: Seq<int> = Seq::empty();

        let mut t: usize = 0;
        while t < order.len()
            invariant
                n == hashes.len(),
                t <= order.len(),
                is_sorted(edges@, order@),
                lists_edges(edges@, links@, hashes),
                whole == largest_stake(links@, hashes),
                2 * pair_count(links@, hashes) <= u32::MAX,
                t < order.len() ==> starts_group(edges@, order@, t as int),
                values.len() == rows.len(),
                rows.len() <= t,
                rows_ok(rows, col_idx@, row_ptr@, n as int),
                t > 0 ==> rows.len() > 0 && rows.last() == edges@[order@[t - 1] as int].row
                    && col_idx@.last() == edges@[order@[t - 1] as int].col,
                forall|e: int|
                    0 <= e < rows.len() ==> is_listed(
                        edges@,
                        #[trigger] rows[e],
                        col_idx@[e] as int,
                    ) && is_weight(links@, hashes, rows[e], col_idx@[e] as int, values@[e]),
                forall|s: int|
                    0 <= s < t ==> has_entry(rows, col_idx@, edges@[#[trigger] order@[s] as int]),
            decreases order.len() - t,
        {
            let first = edges[order[t]];
            let r: u32 = first.row;
            let c: u32 = first.col;
            let (next, part) = add_group(&edges, &order, t, whole);
            let entries: usize = col_idx.len();
            let ghost rows_before = rows;
            let ghost cols_before = col_idx@;
            let ghost row_ptr_before = row_ptr@;
            proof {
                assert forall|e: int| 0 <= e < rows.len() implies are_joined(
                    links@,
                    hashes,
                    #[trigger] rows[e],
                    col_idx@[e] as int,
                ) by {
                    assert(is_listed(edges@, rows[e], col_idx@[e] as int));
                }
                lemma_entries_are_pairs(rows, col_idx@, links@, hashes);
                if t > 0 {
                    let prev = edges@[order@[t - 1] as int];
                    lemma_edge_key_injective(prev, first);
                    assert(edge_key(prev) <= edge_key(edges@[order@[t as int] as int]));
                }
            }
            if row_ptr.len() <= r as usize {
                fill_rows(&mut row_ptr, r as usize + 1, entries as u32);
            }
            col_idx.push(c);
            values.push(Weight { part, whole });
            proof {
                lemma_rows_append(
                    rows_before,
                    cols_before,
                    row_ptr_before,
                    row_ptr@,
                    r,
                    c,
                    n as int,
                );
                rows = rows.push(r as int);
                assert(edges@[order@[t as int] as int] == first);
                assert(is_listed(edges@, r as int, c as int));
                assert(edge_total(edges@, r as int, c as int) == total_stake(
                    links@,
                    hashes,
                    r as int,
                    c as int,
                ));
                assert forall|s: int| 0 <= s < next implies has_entry(
                    rows,
                    col_idx@,
                    edges@[#[trigger] order@[s] as int],
                ) by {
                    let e = edges@[order@[s] as int];
                    if s < t {
                        assert(has_entry(rows_before, cols_before, e));
                        let x = choose|x: int|
                            0 <= x < rows_before.len() && #[trigger] rows_before[x] == e.row
                                && cols_before[x] == e.col;
                        assert(rows[x] == e.row && col_idx@[x] == e.col);
                    } else {
                        lemma_edge_key_injective(e, first);
                        assert(rows[entries as int] == e.row && col_idx@[entries as int] == e.col);
                    }
                }
                assert forall|e: int| 0 <= e < rows.len() implies is_listed(
                    edges@,
                    #[trigger] rows[e],
                    col_idx@[e] as int,
                ) && is_weight(links@, hashes, rows[e], col_idx@[e] as int, values@[e]) by {
                    if e < entries {
                        assert(rows_before[e] == rows[e]);
                    }
                }
                lemma_edge_key_injective(edges@[order@[next - 1] as int], first);
            }
            t = next;
        }
        let entries: usize = col_idx.len();
        proof {
            assert forall|e: int| 0 <= e < rows.len() implies are_joined(
                links@,
                hashes,
                #[trigger] rows[e],
                col_idx@[e] as int,
            ) by {
                assert(is_listed(edges@, rows[e], col_idx@[e] as int));
            }
            lemma_entries_are_pairs(rows, col_idx@, links@, hashes);
        }
        fill_rows(&mut row_ptr, n, entries as u32);
        row_ptr.push(entries as u32);
        let csr = Csr { n, row_ptr, col_idx, values };
        proof {
            lemma_rows_make_adjacency(&csr, rows, edges@, order@, links@, hashes);
        }
        csr
    }
}

proof fn lemma_stake_symmetric(links: Seq<Cyberlink>, hashes: Seq<[u8; 32]>, p: int, q: int)
    ensures
        total_stake(links, hashes, p, q) == total_stake(links, hashes, q, p),
    decreases links.len(),
{
    if links.len() > 0 {
        lemma_stake_symmetric(links.drop_last(), hashes, p, q);
    }
}

proof fn lemma_largest_stake_positive(links: Seq<Cyberlink>, hashes: Seq<[u8; 32]>)
    ensures
        largest_stake(links, hashes) >= 1,
    decreases links.len(),
{
    if links.len() > 0 {
        lemma_largest_stake_positive(links.drop_last(), hashes);
    }
}

/// Law: an adjacency matrix is symmetric. For each entry at (p,q) there is one at (q,p)
/// with the same weight.
pub proof fn law_adjacency_symmetric(
    csr: &Csr<Weight>,
    links: Seq<Cyberlink>,
    hashes: Seq<[u8; 32]>,
    p: int,
    e: int,
) -> (f: int)
    requires
        is_adjacency_of(csr, links, hashes),
        0 <= p < csr.n,
        csr.in_row(p, e),
    ensures
        csr.is_entry(csr.col_idx[e] as int, p, f),
        csr.values[f] == csr.values[e],
{
    let q = csr.col_idx[e] as int;
    assert(csr.row_ptr[p + 1] <= csr.row_ptr[csr.n as int]);
    let k = choose|k: int| 0 <= k < links.len() && joins(hashes, #[trigger] links[k], p, q);
    assert(joins(hashes, links[k], q, p));
    assert(are_joined(links, hashes, q, p));
    let f = choose|f: int| csr.is_entry(q, p, f);
    lemma_stake_symmetric(links, hashes, p, q);
    assert(csr.in_row(q, f));
    f
}

/// Law: no particle is its own neighbour.
pub proof fn law_adjacency_has_no_loops(
    csr: &Csr<Weight>,
    links: Seq<Cyberlink>,
    hashes: Seq<[u8; 32]>,
    p: int,
    e: int,
)
    requires
        is_adjacency_of(csr, links, hashes),
        0 <= p < csr.n,
        csr.in_row(p, e),
    ensures
        csr.col_idx[e] != p,
{
    assert(are_joined(links, hashes, p, csr.col_idx[e] as int));
}

/// Law: every weight lies in [0,1].
pub proof fn law_weights_are_fractions(
    csr: &Csr<Weight>,
    links: Seq<Cyberlink>,
    hashes: Seq<[u8; 32]>,
    p: int,
    e: int,
)
    requires
        is_adjacency_of(csr, links, hashes),
        0 <= p < csr.n,
        csr.in_row(p, e),
    ensures
        csr.values[e].wf(),
{
    lemma_largest_stake_positive(links, hashes);
}

/// The columns of row `i`, as a list.
pub open spec fn columns_of(csr: &Csr<Weight>, i: int) -> Seq<int> {
    Seq::new(
        (csr.row_ptr[i + 1] - csr.row_ptr[i]) as nat,
        |k: int| csr.col_idx[csr.row_ptr[i] + k] as int,
    )
}

proof fn lemma_columns_are_neighbours(
    csr: &Csr<Weight>,
    links: Seq<Cyberlink>,
    hashes: Seq<[u8; 32]>,
    i: int,
)
    requires
        is_adjacency_of(csr, links, hashes),
        0 <= i < csr.n,
    ensures
        forall|x: int, y: int|
            0 <= x < y < columns_of(csr, i).len() ==> #[trigger] columns_of(csr, i)[x]
                < #[trigger] columns_of(csr, i)[y],
        forall|q: int| #[trigger]
            columns_of(csr, i).contains(q) <==> are_joined(links, hashes, i, q),
{
    let cols = columns_of(csr, i);
    let start = csr.row_ptr[i] as int;
    assert(csr.row_ptr[i] <= csr.row_ptr[i + 1]);
    assert forall|x: int, y: int| 0 <= x < y < cols.len() implies #[trigger] cols[x]
        < #[trigger] cols[y] by {
        assert(csr.in_row(i, start + x) && csr.in_row(i, start + y));
    }
    assert forall|q: int| #[trigger] cols.contains(q) <==> are_joined(links, hashes, i, q) by {
        if cols.contains(q) {
            let k = choose|k: int| 0 <= k < cols.len() && cols[k] == q;
            assert(csr.in_row(i, start + k));
        }
        if are_joined(links, hashes, i, q) {
            let e = choose|e: int| csr.is_entry(i, q, e);
            assert(cols[e - start] == q);
        }
    }
}

proof fn lemma_rows_agree(
    a: &Csr<Weight>,
    b: &Csr<Weight>,
    links: Seq<Cyberlink>,
    hashes: Seq<[u8; 32]>,
    upto: nat,
)
    requires
        is_adjacency_of(a, links, hashes),
        is_adjacency_of(b, links, hashes),
        upto <= a.n,
    ensures
        forall|i: int| 0 <= i <= upto ==> #[trigger] a.row_ptr[i] == b.row_ptr[i],
        forall|e: int|
            0 <= e < a.row_ptr[upto as int] ==> #[trigger] a.col_idx[e] == b.col_idx[e]
                && a.values[e] == b.values[e],
    decreases upto,
{
    if upto > 0 {
        let i = upto - 1;
        lemma_rows_agree(a, b, links, hashes, i as nat);
        lemma_columns_are_neighbours(a, links, hashes, i);
        lemma_columns_are_neighbours(b, links, hashes, i);
        let (x, y) = (columns_of(a, i), columns_of(b, i));
        assert forall|q: int| #[trigger] x.contains(q) <==> y.contains(q) by {
            assert(x.contains(q) <==> are_joined(links, hashes, i, q));
            assert(y.contains(q) <==> are_joined(links, hashes, i, q));
        }
        crate::order::law_ascending_list_is_unique(x, y);
        assert(a.row_ptr[i] == b.row_ptr[i]);
        assert(a.row_ptr[i] <= a.row_ptr[i + 1] && b.row_ptr[i] <= b.row_ptr[i + 1]);
        assert(x.len() == y.len());
        assert forall|e: int| 0 <= e < a.row_ptr[upto as int] implies #[trigger] a.col_idx[e]
            == b.col_idx[e] && a.values[e] == b.values[e] by {
            if e >= a.row_ptr[i] {
                let k = e - a.row_ptr[i];
                assert(x[k] == y[k]);
                assert(a.in_row(i, e) && b.in_row(i, e));
            }
        }
    }
}

/// Law: the same links over the same vocabulary have one adjacency matrix, entry by entry.
pub proof fn law_adjacency_is_unique(
    a: &Csr<Weight>,
    b: &Csr<Weight>,
    links: Seq<Cyberlink>,
    hashes: Seq<[u8; 32]>,
)
    requires
        is_adjacency_of(a, links, hashes),
        is_adjacency_of(b, links, hashes),
    ensures
        a.n == b.n,
        a.row_ptr@ == b.row_ptr@,
        a.col_idx@ == b.col_idx@,
        a.values@ == b.values@,
{
    lemma_rows_agree(a, b, links, hashes, a.n as nat);
    assert(a.row_ptr[a.n as int] == b.row_ptr[b.n as int]);
    assert(a.row_ptr@ =~= b.row_ptr@) by {
        assert forall|i: int| 0 <= i < a.row_ptr.len() implies a.row_ptr@[i] == b.row_ptr@[i] by {
            assert(a.row_ptr[i] == b.row_ptr[i]);
        }
    }
    assert forall|e: int| 0 <= e < a.col_idx.len() implies a.col_idx@[e] == b.col_idx@[e]
        && a.values@[e] == b.values@[e] by {
        assert(a.col_idx[e] == b.col_idx[e]);
    }
    assert(a.col_idx@ =~= b.col_idx@);
    assert(a.values@ =~= b.values@);
}

/// The link mentions two different hashes of the vocabulary.
pub open spec fn mentions_two(hashes: Seq<[u8; 32]>, link: Cyberlink) -> bool {
    hashes.contains(link.from) && hashes.contains(link.to) && link.from != link.to
}

/// The links that mention two different hashes of the vocabulary, in order.
pub open spec fn proper_links(links: Seq<Cyberlink>, hashes: Seq<[u8; 32]>) -> Seq<Cyberlink> {
    links.filter(|link: Cyberlink| mentions_two(hashes, link))
}

proof fn lemma_proper_links(links: Seq<Cyberlink>, hashes: Seq<[u8; 32]>)
    ensures
        largest_stake(proper_links(links, hashes), hashes) == largest_stake(links, hashes),
        forall|p: int, q: int| #[trigger]
            total_stake(proper_links(links, hashes), hashes, p, q) == total_stake(
                links,
                hashes,
                p,
                q,
            ),
        forall|p: int, q: int| #[trigger]
            are_joined(proper_links(links, hashes), hashes, p, q) == are_joined(
                links,
                hashes,
                p,
                q,
            ),
    decreases links.len(),
{
    reveal(Seq::filter);
    let kept = proper_links(links, hashes);
    if links.len() == 0 {
        assert(kept =~= links);
    } else {
        let before = links.drop_last();
        let last = links.last();
        let kept_before = proper_links(before, hashes);
        lemma_proper_links(before, hashes);
        if mentions_two(hashes, last) {
            assert(kept == kept_before.push(last));
            assert(kept.drop_last() =~= kept_before);
            assert(kept.last() == last);
        } else {
            assert(kept == kept_before);
            assert(!is_edge(hashes, last));
        }
        assert forall|p: int, q: int| #[trigger] are_joined(kept, hashes, p, q) == are_joined(
            links,
            hashes,
            p,
            q,
        ) by {
            lemma_are_joined_push(links, hashes, p, q);
            assert(are_joined(kept_before, hashes, p, q) == are_joined(before, hashes, p, q));
            if mentions_two(hashes, last) {
                lemma_are_joined_push(kept, hashes, p, q);
            }
        }
        assert forall|p: int, q: int| #[trigger] total_stake(kept, hashes, p, q) == total_stake(
            links,
            hashes,
            p,
            q,
        ) by {
            assert(total_stake(kept_before, hashes, p, q) == total_stake(before, hashes, p, q));
        }
    }
}

/// Law: links from a particle to itself and links that mention an unknown particle leave the
/// matrix as it is without them, in its entries and in their weights.
pub proof fn law_other_links_change_nothing(
    a: &Csr<Weight>,
    b: &Csr<Weight>,
    links: Seq<Cyberlink>,
    hashes: Seq<[u8; 32]>,
)
    requires
        is_adjacency_of(a, links, hashes),
        is_adjacency_of(b, proper_links(links, hashes), hashes),
    ensures
        a.n == b.n,
        a.row_ptr@ == b.row_ptr@,
        a.col_idx@ == b.col_idx@,
        a.values@ == b.values@,
{
    let kept = proper_links(links, hashes);
    lemma_proper_links(links, hashes);
    assert forall|p: int, e: int| 0 <= p < b.n && #[trigger] b.in_row(p, e) implies are_joined(
        links,
        hashes,
        p,
        b.col_idx[e] as int,
    ) && is_weight(links, hashes, p, b.col_idx[e] as int, b.values[e]) by {
        let q = b.col_idx[e] as int;
        assert(are_joined(kept, hashes, p, q) == are_joined(links, hashes, p, q));
        assert(total_stake(kept, hashes, p, q) == total_stake(links, hashes, p, q));
    }
    assert forall|p: int, q: int| #[trigger] are_joined(links, hashes, p, q) implies exists|e: int|
        b.is_entry(p, q, e) by {
        assert(are_joined(kept, hashes, p, q) == are_joined(links, hashes, p, q));
    }
    law_adjacency_is_unique(a, b, links, hashes);
}

/// The vocabulary gives a hash the place at which it lists it.
proof fn lemma_index_in(hashes: Seq<[u8; 32]>, p: int)
    requires
        hashes.no_duplicates(),
        hashes.len() <= 0x1_0000_0000,
        0 <= p < hashes.len(),
    ensures
        hashes.contains(hashes[p]),
        index_in(hashes, hashes[p]) == p,
{
    assert(hashes.contains(hashes[p]));
    let q = hashes.index_of(hashes[p]);
    assert(hashes[q] == hashes[p]);
    assert(q == p);
}

/// Law: only the ends and amounts of links count. Links that agree in both, one by one, have
/// the same matrix, whatever their neurons, tokens, valences and blocks.
pub proof fn law_only_ends_and_amounts_count(
    a: &Csr<Weight>,
    b: &Csr<Weight>,
    links: Seq<Cyberlink>,
    others: Seq<Cyberlink>,
    hashes: Seq<[u8; 32]>,
)
    requires
        is_adjacency_of(a, links, hashes),
        is_adjacency_of(b, others, hashes),
        links.len() == others.len(),
        forall|k: int|
            0 <= k < links.len() ==> (#[trigger] links[k]).from == others[k].from && links[k].to
                == others[k].to && links[k].amount == others[k].amount,
    ensures
        a.n == b.n,
        a.row_ptr@ == b.row_ptr@,
        a.col_idx@ == b.col_idx@,
        a.values@ == b.values@,
{
    lemma_same_stakes(links, others, hashes);
    assert forall|p: int, e: int| 0 <= p < b.n && #[trigger] b.in_row(p, e) implies are_joined(
        links,
        hashes,
        p,
        b.col_idx[e] as int,
    ) && is_weight(links, hashes, p, b.col_idx[e] as int, b.values[e]) by {
        let q = b.col_idx[e] as int;
        assert(are_joined(others, hashes, p, q) == are_joined(links, hashes, p, q));
        assert(total_stake(others, hashes, p, q) == total_stake(links, hashes, p, q));
    }
    assert forall|p: int, q: int| #[trigger] are_joined(links, hashes, p, q) implies exists|e: int|
        b.is_entry(p, q, e) by {
        assert(are_joined(others, hashes, p, q) == are_joined(links, hashes, p, q));
    }
    law_adjacency_is_unique(a, b, links, hashes);
}

proof fn lemma_same_stakes(
    links: Seq<Cyberlink>,
    others: Seq<Cyberlink>,
    hashes: Seq<[u8; 32]>,
)
    requires
        links.len() == others.len(),
        forall|k: int|
            0 <= k < links.len() ==> (#[trigger] links[k]).from == others[k].from && links[k].to
                == others[k].to && links[k].amount == others[k].amount,
    ensures
        largest_stake(others, hashes) == largest_stake(links, hashes),
        forall|p: int, q: int| #[trigger]
            total_stake(others, hashes, p, q) == total_stake(links, hashes, p, q),
        forall|p: int, q: int| #[trigger]
            are_joined(others, hashes, p, q) == are_joined(links, hashes, p, q),
    decreases links.len(),
{
    if links.len() > 0 {
        let (x, y) = (links.last(), others.last());
        assert(links[links.len() - 1] == x && others[links.len() - 1] == y);
        lemma_same_stakes(links.drop_last(), others.drop_last(), hashes);
        assert forall|p: int, q: int| #[trigger] total_stake(others, hashes, p, q) == total_stake(
            links,
            hashes,
            p,
            q,
        ) by {
            assert(total_stake(others.drop_last(), hashes, p, q) == total_stake(
                links.drop_last(),
                hashes,
                p,
                q,
            ));
        }
        assert forall|p: int, q: int| #[trigger] are_joined(others, hashes, p, q) == are_joined(
            links,
            hashes,
            p,
            q,
        ) by {
            lemma_are_joined_push(links, hashes, p, q);
            lemma_are_joined_push(others, hashes, p, q);
            assert(are_joined(others.drop_last(), hashes, p, q) == are_joined(
                links.drop_last(),
                hashes,
                p,
                q,
            ));
        }
    }
}

/// Law: two particles are neighbours if and only if some link has them as its ends.
pub proof fn law_neighbours_are_linked(
    csr: &Csr<Weight>,
    links: Seq<Cyberlink>,
    hashes: Seq<[u8; 32]>,
    p: int,
    q: int,
)
    requires
        is_adjacency_of(csr, links, hashes),
        hashes.no_duplicates(),
        hashes.len() <= 0x1_0000_0000,
        0 <= p < hashes.len(),
        0 <= q < hashes.len(),
    ensures
        (exists|e: int| csr.row_ptr[p] <= e < csr.row_ptr[p + 1] && #[trigger] csr.col_idx[e] == q)
            <==> p != q && exists|k: int|
            0 <= k < links.len() && (((#[trigger] links[k]).from == hashes[p] && links[k].to
                == hashes[q]) || (links[k].from == hashes[q] && links[k].to == hashes[p])),
{
    lemma_index_in(hashes, p);
    lemma_index_in(hashes, q);
    if exists|e: int| csr.row_ptr[p] <= e < csr.row_ptr[p + 1] && #[trigger] csr.col_idx[e] == q {
        let e = choose|e: int|
            csr.row_ptr[p] <= e < csr.row_ptr[p + 1] && #[trigger] csr.col_idx[e] == q;
        assert(csr.in_row(p, e));
        assert(are_joined(links, hashes, p, q));
        let k = choose|k: int| 0 <= k < links.len() && joins(hashes, #[trigger] links[k], p, q);
        lemma_index_of_end(hashes, links[k].from);
        lemma_index_of_end(hashes, links[k].to);
        assert(links[k].from == hashes[p] || links[k].from == hashes[q]);
    }
    if p != q && exists|k: int|
        0 <= k < links.len() && (((#[trigger] links[k]).from == hashes[p] && links[k].to
            == hashes[q]) || (links[k].from == hashes[q] && links[k].to == hashes[p])) {
        let k = choose|k: int|
            0 <= k < links.len() && (((#[trigger] links[k]).from == hashes[p] && links[k].to
                == hashes[q]) || (links[k].from == hashes[q] && links[k].to == hashes[p]));
        assert(joins(hashes, links[k], p, q));
        assert(are_joined(links, hashes, p, q));
        let e = choose|e: int| csr.is_entry(p, q, e);
        assert(csr.col_idx[e] == q);
    }
}

/// A hash of the vocabulary stands at its index.
proof fn lemma_index_of_end(hashes: Seq<[u8; 32]>, hash: [u8; 32])
    requires
        hashes.len() <= 0x1_0000_0000,
        hashes.contains(hash),
    ensures
        index_in(hashes, hash) < hashes.len(),
        hashes[index_in(hashes, hash) as int] == hash,
{
    let q = hashes.index_of(hash);
    assert(0 <= q < hashes.len() && hashes[q] == hash);
}

/// Law: all weights are parts of one whole, the largest amount of a link between two different
/// particles, and at least 1.
pub proof fn law_whole_is_the_largest_amount(
    csr: &Csr<Weight>,
    links: Seq<Cyberlink>,
    hashes: Seq<[u8; 32]>,
    p: int,
    e: int,
)
    requires
        is_adjacency_of(csr, links, hashes),
        hashes.no_duplicates(),
        hashes.len() <= 0x1_0000_0000,
        0 <= p < csr.n,
        csr.in_row(p, e),
    ensures
        1 <= csr.values[e].whole,
        forall|k: int|
            0 <= k < links.len() && hashes.contains((#[trigger] links[k]).from) && hashes.contains(
                links[k].to,
            ) && links[k].from != links[k].to ==> links[k].amount <= csr.values[e].whole,
        csr.values[e].whole == 1 || exists|k: int|
            0 <= k < links.len() && hashes.contains((#[trigger] links[k]).from) && hashes.contains(
                links[k].to,
            ) && links[k].from != links[k].to && links[k].amount == csr.values[e].whole,
{
    lemma_largest(links, hashes);
}

proof fn lemma_largest(links: Seq<Cyberlink>, hashes: Seq<[u8; 32]>)
    requires
        hashes.no_duplicates(),
        hashes.len() <= 0x1_0000_0000,
    ensures
        1 <= largest_stake(links, hashes),
        forall|k: int|
            0 <= k < links.len() && hashes.contains((#[trigger] links[k]).from) && hashes.contains(
                links[k].to,
            ) && links[k].from != links[k].to ==> links[k].amount <= largest_stake(links, hashes),
        largest_stake(links, hashes) == 1 || exists|k: int|
            0 <= k < links.len() && hashes.contains((#[trigger] links[k]).from) && hashes.contains(
                links[k].to,
            ) && links[k].from != links[k].to && links[k].amount == largest_stake(links, hashes),
    decreases links.len(),
{
    if links.len() > 0 {
        let before = links.drop_last();
        let last = links.last();
        lemma_largest(before, hashes);
        if hashes.contains(last.from) && hashes.contains(last.to) {
            lemma_index_of_end(hashes, last.from);
            lemma_index_of_end(hashes, last.to);
            assert(is_edge(hashes, last) <==> last.from != last.to);
        }
        assert forall|k: int|
            0 <= k < links.len() && hashes.contains((#[trigger] links[k]).from) && hashes.contains(
                links[k].to,
            ) && links[k].from != links[k].to implies links[k].amount <= largest_stake(
            links,
            hashes,
        ) by {
            if k < before.len() {
                assert(before[k] == links[k]);
            }
        }
        if largest_stake(links, hashes) != 1 {
            if largest_stake(links, hashes) == largest_stake(before, hashes) {
                let k = choose|k: int|
                    0 <= k < before.len() && hashes.contains((#[trigger] before[k]).from)
                        && hashes.contains(before[k].to) && before[k].from != before[k].to
                        && before[k].amount == largest_stake(before, hashes);
                assert(links[k] == before[k]);
            } else {
                assert(links[links.len() - 1] == last);
            }
        }
    }
}

/// Law: a link more between two particles adds its amount to the weight of their entry, up to
/// the whole, in either direction and whatever else the link says.
pub proof fn law_link_adds_its_amount(
    a: &Csr<Weight>,
    b: &Csr<Weight>,
    links: Seq<Cyberlink>,
    link: Cyberlink,
    hashes: Seq<[u8; 32]>,
    p: int,
    q: int,
    f: int,
)
    requires
        is_adjacency_of(a, links, hashes),
        is_adjacency_of(b, links.push(link), hashes),
        hashes.no_duplicates(),
        hashes.len() <= 0x1_0000_0000,
        0 <= p < hashes.len(),
        0 <= q < hashes.len(),
        p != q,
        (link.from == hashes[p] && link.to == hashes[q]) || (link.from == hashes[q] && link.to
            == hashes[p]),
        b.row_ptr[p] <= f < b.row_ptr[p + 1],
        b.col_idx[f] == q,
    ensures
        (forall|e: int| a.row_ptr[p] <= e < a.row_ptr[p + 1] ==> #[trigger] a.col_idx[e] != q)
            ==> b.values[f].part == link.amount,
        forall|e: int|
            a.row_ptr[p] <= e < a.row_ptr[p + 1] && #[trigger] a.col_idx[e] == q && a.values[e].part
                < a.values[e].whole ==> b.values[f].part == if a.values[e].part + link.amount
                < b.values[f].whole {
                a.values[e].part + link.amount
            } else {
                b.values[f].whole as int
            },
{
    let more = links.push(link);
    assert(more.drop_last() =~= links);
    lemma_index_in(hashes, p);
    lemma_index_in(hashes, q);
    assert(joins(hashes, link, p, q));
    assert(b.in_row(p, f));
    assert(total_stake(more, hashes, p, q) == total_stake(links, hashes, p, q) + link.amount);
    assert(link.amount <= largest_stake(more, hashes));
    if forall|e: int| a.row_ptr[p] <= e < a.row_ptr[p + 1] ==> #[trigger] a.col_idx[e] != q {
        if are_joined(links, hashes, p, q) {
            let e = choose|e: int| a.is_entry(p, q, e);
            assert(a.col_idx[e] != q);
        }
        lemma_no_stake(links, hashes, p, q);
    }
    assert forall|e: int|
        a.row_ptr[p] <= e < a.row_ptr[p + 1] && #[trigger] a.col_idx[e] == q && a.values[e].part
            < a.values[e].whole implies b.values[f].part == if a.values[e].part + link.amount
        < b.values[f].whole {
        a.values[e].part + link.amount
    } else {
        b.values[f].whole as int
    } by {
        assert(a.in_row(p, e));
    }
}

/// Particles that no link joins have no stake.
proof fn lemma_no_stake(links: Seq<Cyberlink>, hashes: Seq<[u8; 32]>, p: int, q: int)
    requires
        !are_joined(links, hashes, p, q),
    ensures
        total_stake(links, hashes, p, q) == 0,
    decreases links.len(),
{
    if links.len() > 0 {
        lemma_are_joined_push(links, hashes, p, q);
        lemma_no_stake(links.drop_last(), hashes, p, q);
    }
}

/// Law: a link more between two particles leaves the weights of all other pairs as they are,
/// as long as the whole stays or the weight is below it.
pub proof fn law_link_leaves_other_pairs(
    a: &Csr<Weight>,
    b: &Csr<Weight>,
    links: Seq<Cyberlink>,
    link: Cyberlink,
    hashes: Seq<[u8; 32]>,
    p: int,
    q: int,
    e: int,
    f: int,
)
    requires
        is_adjacency_of(a, links, hashes),
        is_adjacency_of(b, links.push(link), hashes),
        hashes.no_duplicates(),
        hashes.len() <= 0x1_0000_0000,
        0 <= p < hashes.len(),
        0 <= q < hashes.len(),
        !(link.from == hashes[p] && link.to == hashes[q]),
        !(link.from == hashes[q] && link.to == hashes[p]),
        a.row_ptr[p] <= e < a.row_ptr[p + 1],
        a.col_idx[e] == q,
        b.row_ptr[p] <= f < b.row_ptr[p + 1],
        b.col_idx[f] == q,
        a.values[e].part < a.values[e].whole || a.values[e].whole == b.values[f].whole,
    ensures
        a.values[e].part == b.values[f].part,
{
    let more = links.push(link);
    assert(more.drop_last() =~= links);
    lemma_index_in(hashes, p);
    lemma_index_in(hashes, q);
    if hashes.contains(link.from) && hashes.contains(link.to) {
        lemma_index_of_end(hashes, link.from);
        lemma_index_of_end(hashes, link.to);
    }
    assert(!joins(hashes, link, p, q));
    assert(a.in_row(p, e) && b.in_row(p, f));
}

} // verus!
