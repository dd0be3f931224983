//! Edges: which are visible, and how their flow strips move.

use vstd::prelude::*;

use crate::frame::cull::TierLevel;
use crate::graph::adjacency::Csr;
use crate::scalar::Scalar;

verus! {

/// Flow offsets of the visible edges: how far the texture of each has moved along it. The
/// texture tiles, so an offset is in [0, 1).
pub struct EdgePass {
    flow_offsets: Vec<Scalar>,
}

/// All offsets are in [0, 1).
pub open spec fn are_offsets(offsets: Seq<Scalar>) -> bool {
    forall|i: int| 0 <= i < offsets.len() ==> (#[trigger] offsets[i]).in_unit()
}

/// Where an offset is that has got to `advanced`. A value outside of [0, 1), such as the one
/// that rounding makes of a turn that is almost full, starts over at zero.
pub open spec fn wrapped(advanced: Scalar) -> Scalar {
    if advanced.in_unit() {
        advanced
    } else {
        Scalar { bits: 0 }
    }
}

/// The offsets after a frame in which each edge has got to `advanced`. Edges beyond the
/// shorter of the two lists stay where they are.
pub open spec fn moved(offsets: Seq<Scalar>, advanced: Seq<Scalar>) -> Seq<Scalar> {
    Seq::new(
        offsets.len(),
        |i: int|
            if i < advanced.len() {
                wrapped(advanced[i])
            } else {
                offsets[i]
            },
    )
}

/// The offsets of `n_edges` edges: an edge without an offset is at zero.
pub open spec fn resized(offsets: Seq<Scalar>, n_edges: nat) -> Seq<Scalar> {
    Seq::new(
        n_edges,
        |i: int|
            if i < offsets.len() {
                offsets[i]
            } else {
                Scalar { bits: 0 }
            },
    )
}

impl EdgePass {
    /// The offset of each edge.
    pub closed spec fn offsets(&self) -> Seq<Scalar> {
        self.flow_offsets@
    }

    /// `n_edges` edges whose offsets are all zero.
    pub fn new(n_edges: usize) -> (pass: Self)
        ensures
            pass.offsets() == Seq::new(n_edges as nat, |i: int| Scalar { bits: 0 }),
            are_offsets(pass.offsets()),
    {
        let mut flow_offsets: Vec<Scalar> = Vec::with_capacity(n_edges);
        let mut i: usize = 0;
        while i < n_edges
            invariant
                i <= n_edges,
                flow_offsets.len() == i,
                forall|j: int| 0 <= j < i ==> #[trigger] flow_offsets[j] == (Scalar { bits: 0 }),
            decreases n_edges - i,
        {
            flow_offsets.push(Scalar { bits: 0 });
            i = i + 1;
        }
        let pass = EdgePass { flow_offsets };
        assert(pass.offsets() =~= Seq::new(n_edges as nat, |i: int| Scalar { bits: 0 }));
        pass
    }

    /// The offset of each edge.
    pub fn flow_offsets(&self) -> (r: &[Scalar])
        ensures
            r@ == self.offsets(),
    {
        self.flow_offsets.as_slice()
    }

    /// Keeps the offsets of the first `n_edges` edges; further edges start at zero.
    pub fn resize(&mut self, n_edges: usize)
        ensures
            final(self).offsets() == resized(old(self).offsets(), n_edges as nat),
            are_offsets(old(self).offsets()) ==> are_offsets(final(self).offsets()),
    {
        let ghost before = self.flow_offsets@;
        self.flow_offsets.truncate(n_edges);
        while self.flow_offsets.len() < n_edges
            invariant
                self.flow_offsets.len() <= n_edges,
                forall|i: int|
                    0 <= i < self.flow_offsets.len() ==> #[trigger] self.flow_offsets@[i] == if i
                        < before.len() {
                        before[i]
                    } else {
                        Scalar { bits: 0 }
                    },
                before.len() < n_edges ==> before.len() <= self.flow_offsets.len(),
                before.len() >= n_edges ==> self.flow_offsets.len() == n_edges,
            decreases n_edges - self.flow_offsets.len(),
        {
            self.flow_offsets.push(Scalar { bits: 0 });
        }
        assert(self.offsets() =~= resized(before, n_edges as nat));
    }

    /// Moves the offsets on by one frame: `advanced` holds where each edge's offset has
    /// got to. Edges beyond the shorter of the two lists stay where they are.
    pub fn update_flow_uvs(&mut self, advanced: &[Scalar])
        ensures
            final(self).offsets() == moved(old(self).offsets(), advanced@),
            are_offsets(old(self).offsets()) ==> are_offsets(final(self).offsets()),
    {
        let ghost before = self.flow_offsets@;
        let mut i: usize = 0;
        while i < self.flow_offsets.len() && i < advanced.len()
            invariant
                i <= self.flow_offsets.len(),
                i <= advanced.len(),
                self.flow_offsets.len() == before.len(),
                forall|j: int|
                    0 <= j < before.len() ==> #[trigger] self.flow_offsets@[j] == if j < i {
                        wrapped(advanced[j])
                    } else {
                        before[j]
                    },
            decreases self.flow_offsets.len() - i,
        {
            let offset: Scalar = if advanced[i].is_in_unit() {
                advanced[i]
            } else {
                Scalar { bits: 0 }
            };
            self.flow_offsets.set(i, offset);
            i = i + 1;
        }
        assert(self.offsets() =~= moved(before, advanced@));
    }

    /// The offsets of the first `n_edges` edges; an edge without an offset gets zero.
    pub fn flow_uvs(&self, n_edges: usize) -> (out: Vec<Scalar>)
        ensures
            out@ == resized(self.offsets(), n_edges as nat),
    {
        let mut out: Vec<Scalar> = Vec::with_capacity(n_edges);
        let mut i: usize = 0;
        while i < n_edges
            invariant
                i <= n_edges,
                out.len() == i,
                forall|j: int|
                    0 <= j < i ==> #[trigger] out[j] == resized(
                        self.offsets(),
                        n_edges as nat,
                    )[j],
            decreases n_edges - i,
        {
            let value: Scalar = if i < self.flow_offsets.len() {
                self.flow_offsets[i]
            } else {
                Scalar { bits: 0 }
            };
            out.push(value);
            i = i + 1;
        }
        assert(out@ =~= resized(self.offsets(), n_edges as nat));
        out
    }
}

/// Law: offsets stay in [0, 1) and keep their number, wherever the edges have got to; what
/// is in [0, 1) is taken over as it is.
pub proof fn law_offsets_stay_in_unit(offsets: Seq<Scalar>, advanced: Seq<Scalar>)
    requires
        are_offsets(offsets),
    ensures
        moved(offsets, advanced).len() == offsets.len(),
        are_offsets(moved(offsets, advanced)),
        forall|i: int|
            0 <= i < offsets.len() && i < advanced.len() && advanced[i].in_unit()
                ==> #[trigger] moved(offsets, advanced)[i] == advanced[i],
{
}

/// Law: an offset that an edge has got to outside of [0, 1) starts over at zero, and an edge that
/// has got nowhere stays where it is.
pub proof fn law_other_offsets_start_over(offsets: Seq<Scalar>, advanced: Seq<Scalar>, i: int)
    requires
        0 <= i < offsets.len(),
    ensures
        i < advanced.len() && ((Scalar { bits: 0x3f80_0000 }).at_most(advanced[i])
            || advanced[i].less(Scalar { bits: 0 }) || advanced[i].nan()) ==> moved(
            offsets,
            advanced,
        )[i].bits == 0,
        i < advanced.len() && (Scalar { bits: 0 }).at_most(advanced[i]) && advanced[i].less(
            Scalar { bits: 0x3f80_0000 },
        ) ==> moved(offsets, advanced)[i] == advanced[i],
        advanced.len() <= i ==> moved(offsets, advanced)[i] == offsets[i],
{
}

/// Law: edges that stay keep their offsets, new ones start at zero, and dropping edges again
/// undoes what was added.
pub proof fn law_resizing_keeps_offsets(offsets: Seq<Scalar>, n_edges: nat, i: int)
    requires
        0 <= i < n_edges,
    ensures
        resized(offsets, n_edges).len() == n_edges,
        i < offsets.len() ==> resized(offsets, n_edges)[i] == offsets[i],
        offsets.len() <= i ==> resized(offsets, n_edges)[i].bits == 0,
        offsets.len() <= n_edges ==> resized(resized(offsets, n_edges), offsets.len()) == offsets,
{
    assert(offsets.len() <= n_edges ==> resized(resized(offsets, n_edges), offsets.len())
        =~= offsets);
}

// ── Visible edges ────────────────────────────────────────────────────────────

/// The tiers between which edges are drawn: neither what is entered nor the background has any.
pub open spec fn carries_edges(tier: TierLevel) -> bool {
    tier == TierLevel::T1 || tier == TierLevel::T2 || tier == TierLevel::T3
}

/// Particle `p` is visible at a tier that carries edges.
pub open spec fn is_visible(visible: Seq<(u32, TierLevel)>, p: int) -> bool {
    exists|k: int|
        0 <= k < visible.len() && (#[trigger] visible[k]).0 == p && carries_edges(visible[k].1)
}

/// Entry `e` of row `p` is an edge between visible particles, seen from its lower end.
pub open spec fn is_visible_entry<W>(
    csr: &Csr<W>,
    visible: Seq<(u32, TierLevel)>,
    p: int,
    e: int,
) -> bool {
    &&& 0 <= p < csr.n
    &&& csr.in_row(p, e)
    &&& p < csr.col_idx[e]
    &&& is_visible(visible, p)
    &&& is_visible(visible, csr.col_idx[e] as int)
}

/// The place of an edge in the list: by lower end, then by upper end.
pub open spec fn edge_place(edge: (u32, u32)) -> int {
    edge.0 * 0x1_0000_0000 + edge.1
}

/// `edges` lists the edges between visible particles once each, by their ends, and
/// `weights` their weights.
pub open spec fn lists_visible_edges<W>(
    csr: &Csr<W>,
    visible: Seq<(u32, TierLevel)>,
    edges: Seq<(u32, u32)>,
    weights: Seq<W>,
) -> bool {
    &&& weights.len() == edges.len()
    &&& forall|i: int, j: int|
        0 <= i < j < edges.len() ==> edge_place(#[trigger] edges[i]) < edge_place(
            #[trigger] edges[j],
        )
    &&& forall|i: int| 0 <= i < edges.len() ==> #[trigger] is_listed_edge(csr, visible, edges[i], weights[i])
    &&& forall|p: int, e: int| #[trigger]
        is_visible_entry(csr, visible, p, e) ==> edges.contains((p as u32, csr.col_idx[e]))
}

/// `edge` is a visible edge with this weight.
pub open spec fn is_listed_edge<W>(
    csr: &Csr<W>,
    visible: Seq<(u32, TierLevel)>,
    edge: (u32, u32),
    weight: W,
) -> bool {
    exists|e: int| #[trigger]
        is_visible_entry(csr, visible, edge.0 as int, e) && csr.col_idx[e] == edge.1
            && csr.values[e] == weight
}

fn mark_visible(visible: &[(u32, TierLevel)], n: usize) -> (marks: Vec<bool>)
    requires
        forall|k: int|
            0 <= k < visible.len() && carries_edges((#[trigger] visible[k]).1) ==> visible[k].0 < n,
    ensures
        marks.len() == n,
        forall|p: int| 0 <= p < n ==> #[trigger] marks[p] == is_visible(visible@, p),
{
    let mut marks: Vec<bool> = vec![false; n];
    let mut k: usize = 0;
    while k < visible.len()
        invariant
            k <= visible.len(),
            marks.len() == n,
            forall|i: int|
                0 <= i < visible.len() && carries_edges((#[trigger] visible[i]).1) ==> visible[i].0 < n,
            forall|p: int|
                0 <= p < n && #[trigger] marks[p] ==> is_visible(visible@, p),
            forall|i: int|
                0 <= i < k && carries_edges((#[trigger] visible@[i]).1) ==> marks[visible@[i].0 as int],
        decreases visible.len() - k,
    {
        let entry: (u32, TierLevel) = visible[k];
        if entry.1 == TierLevel::T1 || entry.1 == TierLevel::T2 || entry.1 == TierLevel::T3 {
            marks.set(entry.0 as usize, true);
            assert(visible@[k as int] == entry);
        }
        k = k + 1;
    }
    marks
}

/// Gathers the edges between particles that are visible at T1, T2 or T3, with their weights,
/// ordered by their ends.
pub fn visible_edges<W: Copy>(csr: &Csr<W>, visible: &[(u32, TierLevel)]) -> (r: (
    Vec<(u32, u32)>,
    Vec<W>,
))
    requires
        csr.wf(),
        csr.n <= u32::MAX,
        forall|k: int|
            0 <= k < visible.len() && carries_edges((#[trigger] visible[k]).1) ==> visible[k].0 < csr.n,
    ensures
        lists_visible_edges(csr, visible@, r.0@, r.1@),
{
    let marks = mark_visible(visible, csr.n);
    let mut edges: Vec<(u32, u32)> = Vec::new();
    let mut weights: Vec<W> = Vec::new();
    let mut p: usize = 0;
    while p < csr.n
        invariant
            csr.wf(),
            csr.n <= u32::MAX,
            p <= csr.n,
            marks.len() == csr.n,
            forall|i: int| 0 <= i < csr.n ==> #[trigger] marks[i] == is_visible(visible@, i),
            weights.len() == edges.len(),
            forall|i: int| 0 <= i < edges.len() ==> (#[trigger] edges@[i]).0 < p,
            forall|i: int, j: int|
                0 <= i < j < edges.len() ==> edge_place(#[trigger] edges@[i]) < edge_place(
                    #[trigger] edges@[j],
                ),
            forall|i: int|
                0 <= i < edges.len() ==> #[trigger] is_listed_edge(
                    csr,
                    visible@,
                    edges@[i],
                    weights@[i],
                ),
            forall|r: int, e: int| #[trigger]
                is_visible_entry(csr, visible@, r, e) && r < p ==> edges@.contains(
                    (r as u32, csr.col_idx[e]),
                ),
        decreases csr.n - p,
    {
        if marks[p] {
            gather_row(csr, visible, &marks, p, &mut edges, &mut weights);
        }
        p = p + 1;
    }
    proof {
        assert forall|r: int, e: int| #[trigger]
            is_visible_entry(csr, visible@, r, e) implies edges@.contains(
            (r as u32, csr.col_idx[e]),
        ) by {}
    }
    (edges, weights)
}

fn gather_row<W: Copy>(
    csr: &Csr<W>,
    visible: &[(u32, TierLevel)],
    marks: &Vec<bool>,
    p: usize,
    edges: &mut Vec<(u32, u32)>,
    weights: &mut Vec<W>,
)
    requires
        csr.wf(),
        csr.n <= u32::MAX,
        p < csr.n,
        marks.len() == csr.n,
        forall|i: int| 0 <= i < csr.n ==> #[trigger] marks[i] == is_visible(visible@, i),
        marks[p as int],
        old(weights).len() == old(edges).len(),
        forall|i: int| 0 <= i < old(edges).len() ==> (#[trigger] old(edges)@[i]).0 < p,
        forall|i: int, j: int|
            0 <= i < j < old(edges).len() ==> edge_place(#[trigger] old(edges)@[i]) < edge_place(
                #[trigger] old(edges)@[j],
            ),
        forall|i: int|
            0 <= i < old(edges).len() ==> #[trigger] is_listed_edge(
                csr,
                visible@,
                old(edges)@[i],
                old(weights)@[i],
            ),
    ensures
        final(weights).len() == final(edges).len(),
        old(edges).len() <= final(edges).len(),
        forall|i: int| 0 <= i < old(edges).len() ==> #[trigger] final(edges)@[i] == old(edges)@[i],
        forall|i: int| 0 <= i < final(edges).len() ==> (#[trigger] final(edges)@[i]).0 <= p,
        forall|i: int, j: int|
            0 <= i < j < final(edges).len() ==> edge_place(#[trigger] final(edges)@[i]) < edge_place(
                #[trigger] final(edges)@[j],
            ),
        forall|i: int|
            0 <= i < final(edges).len() ==> #[trigger] is_listed_edge(
                csr,
                visible@,
                final(edges)@[i],
                final(weights)@[i],
            ),
        forall|e: int| #[trigger]
            is_visible_entry(csr, visible@, p as int, e) ==> final(edges)@.contains(
                (p as u32, csr.col_idx[e]),
            ),
        forall|v: (u32, u32)| #[trigger] old(edges)@.contains(v) ==> final(edges)@.contains(v),
{
    let ghost before = edges@;
    assert(csr.row_ptr[p as int] <= csr.row_ptr[p + 1]);
    assert(csr.row_ptr[p + 1] <= csr.row_ptr[csr.n as int]);
    let start: usize = csr.row_ptr[p] as usize;
    let end: usize = csr.row_ptr[p + 1] as usize;
    let mut e: usize = start;
    while e < end
        invariant
            csr.wf(),
            csr.n <= u32::MAX,
            p < csr.n,
            start == csr.row_ptr[p as int],
            end == csr.row_ptr[p + 1],
            start <= e <= end <= csr.col_idx.len(),
            marks.len() == csr.n,
            marks[p as int],
            forall|i: int| 0 <= i < csr.n ==> #[trigger] marks[i] == is_visible(visible@, i),
            weights.len() == edges.len(),
            before.len() <= edges.len(),
            forall|i: int| 0 <= i < before.len() ==> #[trigger] edges@[i] == before[i],
            forall|i: int| 0 <= i < edges.len() ==> (#[trigger] edges@[i]).0 <= p,
            forall|i: int|
                0 <= i < edges.len() && (#[trigger] edges@[i]).0 == p ==> exists|f: int|
                    start <= f < e && #[trigger] csr.col_idx[f] == edges@[i].1,
            forall|i: int, j: int|
                0 <= i < j < edges.len() ==> edge_place(#[trigger] edges@[i]) < edge_place(
                    #[trigger] edges@[j],
                ),
            forall|i: int|
                0 <= i < edges.len() ==> #[trigger] is_listed_edge(
                    csr,
                    visible@,
                    edges@[i],
                    weights@[i],
                ),
            forall|f: int| #[trigger]
                is_visible_entry(csr, visible@, p as int, f) && f < e ==> edges@.contains(
                    (p as u32, csr.col_idx[f]),
                ),
        decreases end - e,
    {
        let q: u32 = csr.col_idx[e];
        let ghost so_far = edges@;
        let ghost weighed = weights@;
        assert(csr.in_row(p as int, e as int));
        if q as usize > p && marks[q as usize] {
            edges.push((p as u32, q));
            weights.push(csr.values[e]);
            proof {
                assert(is_visible_entry(csr, visible@, p as int, e as int));
                assert forall|i: int| 0 <= i < so_far.len() implies edge_place(
                    #[trigger] edges@[i],
                ) < edge_place((p as u32, q)) by {
                    if so_far[i].0 == p {
                        let f = choose|f: int|
                            start <= f < e && #[trigger] csr.col_idx[f] == so_far[i].1;
                        assert(csr.in_row(p as int, f));
                    }
                }
                let edge = (p as u32, q);
                let at = e as int;
                assert(is_visible_entry(csr, visible@, edge.0 as int, at) && csr.col_idx[at] == edge.1
                    && csr.values[at] == csr.values[at]);
                assert(is_listed_edge(csr, visible@, edge, csr.values[at]));
                assert forall|i: int| 0 <= i < edges.len() implies #[trigger] is_listed_edge(
                    csr,
                    visible@,
                    edges@[i],
                    weights@[i],
                ) by {
                    if i < so_far.len() {
                        assert(is_listed_edge(csr, visible@, so_far[i], weighed[i]));
                    }
                }
                assert(edges@[so_far.len() as int] == (p as u32, q));
            }
        }
        proof {
            assert forall|i: int|
                0 <= i < edges.len() && (#[trigger] edges@[i]).0 == p implies exists|f: int|
                start <= f < e + 1 && #[trigger] csr.col_idx[f] == edges@[i].1 by {
                if i < so_far.len() {
                    let f = choose|f: int|
                        start <= f < e && #[trigger] csr.col_idx[f] == so_far[i].1;
                    assert(csr.col_idx[f] == edges@[i].1);
                } else {
                    assert(csr.col_idx[e as int] == edges@[i].1);
                }
            }
            assert forall|f: int| #[trigger]
                is_visible_entry(csr, visible@, p as int, f) && f < e
                    + 1 implies edges@.contains((p as u32, csr.col_idx[f])) by {
                if f < e {
                    let v = (p as u32, csr.col_idx[f]);
                    assert(so_far.contains(v));
                    let i = choose|i: int| 0 <= i < so_far.len() && so_far[i] == v;
                    assert(edges@[i] == v);
                }
            }
        }
        e = e + 1;
    }
    proof {
        assert forall|v: (u32, u32)| #[trigger] before.contains(v) implies edges@.contains(v) by {
            let i = choose|i: int| 0 <= i < before.len() && before[i] == v;
            assert(edges@[i] == v);
        }
    }
}

/// Law: the list of visible edges depends on which particles are visible at tiers that carry
/// edges, not on the order in which the cull lists them.
pub proof fn law_visible_edges_ignore_cull_order<W>(
    csr: &Csr<W>,
    first: Seq<(u32, TierLevel)>,
    second: Seq<(u32, TierLevel)>,
    edges_first: Seq<(u32, u32)>,
    weights_first: Seq<W>,
    edges_second: Seq<(u32, u32)>,
    weights_second: Seq<W>,
)
    requires
        csr.wf(),
        csr.n <= u32::MAX,
        forall|p: int| #[trigger] is_visible(first, p) <==> is_visible(second, p),
        lists_visible_edges(csr, first, edges_first, weights_first),
        lists_visible_edges(csr, second, edges_second, weights_second),
    ensures
        edges_first == edges_second,
        weights_first == weights_second,
{
    let a = edges_first.map_values(|e: (u32, u32)| edge_place(e));
    let b = edges_second.map_values(|e: (u32, u32)| edge_place(e));
    assert forall|v: int| #[trigger] a.contains(v) <==> b.contains(v) by {
        if a.contains(v) {
            let i = choose|i: int| 0 <= i < a.len() && a[i] == v;
            lemma_listed_in_other(
                csr,
                first,
                second,
                edges_first,
                weights_first,
                edges_second,
                weights_second,
                i,
            );
            let j = choose|j: int|
                0 <= j < edges_second.len() && edges_second[j] == edges_first[i];
            assert(b[j] == v);
        }
        if b.contains(v) {
            let i = choose|i: int| 0 <= i < b.len() && b[i] == v;
            lemma_listed_in_other(
                csr,
                second,
                first,
                edges_second,
                weights_second,
                edges_first,
                weights_first,
                i,
            );
            let j = choose|j: int|
                0 <= j < edges_first.len() && edges_first[j] == edges_second[i];
            assert(a[j] == v);
        }
    }
    assert forall|i: int, j: int| 0 <= i < j < a.len() implies #[trigger] a[i] < #[trigger] a[j] by {
        assert(edge_place(edges_first[i]) < edge_place(edges_first[j]));
    }
    assert forall|i: int, j: int| 0 <= i < j < b.len() implies #[trigger] b[i] < #[trigger] b[j] by {
        assert(edge_place(edges_second[i]) < edge_place(edges_second[j]));
    }
    crate::order::law_ascending_list_is_unique(a, b);
    assert forall|i: int| 0 <= i < edges_first.len() implies edges_first[i] == edges_second[i] by {
        assert(a[i] == b[i]);
    }
    assert forall|i: int| 0 <= i < weights_first.len() implies weights_first[i]
        == weights_second[i] by {
        assert(edges_first[i] == edges_second[i]);
        assert(is_listed_edge(csr, first, edges_first[i], weights_first[i]));
        assert(is_listed_edge(csr, second, edges_second[i], weights_second[i]));
        let p = edges_first[i].0 as int;
        let e = choose|e: int| #[trigger]
            is_visible_entry(csr, first, p, e) && csr.col_idx[e] == edges_first[i].1
                && csr.values[e] == weights_first[i];
        let f = choose|f: int| #[trigger]
            is_visible_entry(csr, second, p, f) && csr.col_idx[f] == edges_second[i].1
                && csr.values[f] == weights_second[i];
        assert(csr.in_row(p, e) && csr.in_row(p, f));
        assert(e == f);
    }
    assert(edges_first =~= edges_second);
    assert(weights_first =~= weights_second);
}

proof fn lemma_listed_in_other<W>(
    csr: &Csr<W>,
    first: Seq<(u32, TierLevel)>,
    second: Seq<(u32, TierLevel)>,
    edges_first: Seq<(u32, u32)>,
    weights_first: Seq<W>,
    edges_second: Seq<(u32, u32)>,
    weights_second: Seq<W>,
    i: int,
)
    requires
        forall|p: int| #[trigger] is_visible(first, p) <==> is_visible(second, p),
        lists_visible_edges(csr, first, edges_first, weights_first),
        lists_visible_edges(csr, second, edges_second, weights_second),
        0 <= i < edges_first.len(),
    ensures
        edges_second.contains(edges_first[i]),
{
    assert(is_listed_edge(csr, first, edges_first[i], weights_first[i]));
    let p = edges_first[i].0 as int;
    let e = choose|e: int| #[trigger]
        is_visible_entry(csr, first, p, e) && csr.col_idx[e] == edges_first[i].1 && csr.values[e]
            == weights_first[i];
    assert(is_visible(first, p) && is_visible(first, csr.col_idx[e] as int));
    assert(is_visible_entry(csr, second, p, e));
    assert(edges_second.contains((p as u32, csr.col_idx[e])));
}

// ── Kernels ──────────────────────────────────────────────────────────────────

/// Compute kernel that writes the indirect draw arguments of the edge tubes, one thread
/// per visible edge.
///
/// Buffer layout:
///   0: float3 positions
///   1: uint2 edges
///   2: float weights
///   3: float flow offsets
///   4: indexed indirect draw arguments
///   5: uint number of edges
pub const EDGE_TUBES_MSL: &'static str = r#"
#include <metal_stdlib>
using namespace metal;

struct DrawArgs {
    uint index_count;
    uint instance_count;
    uint index_start;
    int  base_vertex;
    uint base_instance;
};

kernel void edge_tubes(
    device const float3 *positions   [[buffer(0)]],
    device const uint2  *edges       [[buffer(1)]],
    device const float  *weights     [[buffer(2)]],
    device const float  *flow_uvs    [[buffer(3)]],
    device       DrawArgs *draw_args [[buffer(4)]],
    constant uint        &n_edges    [[buffer(5)]],
    uint gid [[thread_position_in_grid]])
{
    if (gid >= n_edges) return;

    uint2  e       = edges[gid];
    float3 p       = positions[e.x];
    float3 q       = positions[e.y];
    float  weight  = weights[gid];
    float  uv_off  = flow_uvs[gid];

    // Tube radius proportional to edge weight (clamped to a visible range).
    float radius = clamp(weight * 0.05, 0.002, 0.05);

    // Length of the tube.
    float3 dir = q - p;
    float  len = length(dir);
    if (len < 1e-6) return;  // degenerate edge

    // Write one indirect-draw call per edge (tube = cylinder, 36 indices).
    // base_instance carries the edge index so the vertex shader can look up
    // p, q, radius, and uv_off per instance.
    draw_args[gid].index_count    = 36u;   // 12 tris × 3 verts (cylinder approx)
    draw_args[gid].instance_count = 1u;
    draw_args[gid].index_start    = 0u;
    draw_args[gid].base_vertex    = 0;
    draw_args[gid].base_instance  = gid;

    // Suppress unused-variable warnings in stub shader.
    (void)radius; (void)len; (void)uv_off;
}
"#;

/// Vertex shader of the edge tubes.
pub const EDGE_TUBE_VERT_MSL: &'static str = r#"
#include <metal_stdlib>
using namespace metal;

struct VertexOut {
    float4 position [[position]];
    float2 uv;
    float3 normal;
};

// Per-instance edge payload written by the edge_tubes compute kernel.
struct EdgeInstance {
    float3 p;          // start position
    float3 q;          // end   position
    float  radius;
    float  uv_offset;
};

vertex VertexOut tube_vert(
    uint                        vid          [[vertex_id]],
    uint                        iid          [[instance_id]],
    device const EdgeInstance  *instances    [[buffer(0)]],
    constant     float4x4      &view_proj    [[buffer(1)]])
{
    EdgeInstance inst = instances[iid];

    // Build a local frame around the tube axis.
    float3 axis = normalize(inst.q - inst.p);
    float3 up   = abs(axis.y) < 0.9 ? float3(0, 1, 0) : float3(1, 0, 0);
    float3 side = normalize(cross(axis, up));
    up           = cross(side, axis);

    // 12-segment cylinder: vid ∈ [0, 35].
    uint   seg   = vid % 12;
    uint   end   = vid / 12;         // 0 = start cap, 1 = end cap, 2 = body
    float  theta = (float(seg) / 12.0) * 6.2831853;
    float3 radial = (cos(theta) * side + sin(theta) * up) * inst.radius;
    float3 base   = (end == 0u) ? inst.p : inst.q;
    float3 pos    = base + radial;

    float2 uv = float2(theta / 6.2831853, float(end) + inst.uv_offset);

    VertexOut out;
    out.position = view_proj * float4(pos, 1.0);
    out.uv       = uv;
    out.normal   = radial / inst.radius;
    return out;
}
"#;

/// Law: a listed edge leads from its lower end to its higher one, is an entry of the matrix with
/// the listed weight, and both of its ends are visible at T1, T2 or T3.
pub proof fn law_listed_edges_join_visible_particles<W>(
    csr: &Csr<W>,
    visible: Seq<(u32, TierLevel)>,
    edges: Seq<(u32, u32)>,
    weights: Seq<W>,
    i: int,
)
    requires
        lists_visible_edges(csr, visible, edges, weights),
        0 <= i < edges.len(),
    ensures
        edges[i].0 < edges[i].1,
        exists|e: int|
            csr.row_ptr[edges[i].0 as int] <= e < csr.row_ptr[edges[i].0 + 1]
                && #[trigger] csr.col_idx[e] == edges[i].1 && csr.values[e] == weights[i],
        exists|k: int|
            0 <= k < visible.len() && (#[trigger] visible[k]).0 == edges[i].0 && (visible[k].1
                == TierLevel::T1 || visible[k].1 == TierLevel::T2 || visible[k].1 == TierLevel::T3),
        exists|k: int|
            0 <= k < visible.len() && (#[trigger] visible[k]).0 == edges[i].1 && (visible[k].1
                == TierLevel::T1 || visible[k].1 == TierLevel::T2 || visible[k].1 == TierLevel::T3),
        i > 0 ==> edges[i - 1].0 < edges[i].0 || (edges[i - 1].0 == edges[i].0 && edges[i - 1].1
            < edges[i].1),
{
    assert(is_listed_edge(csr, visible, edges[i], weights[i]));
    let e = choose|e: int| #[trigger]
        is_visible_entry(csr, visible, edges[i].0 as int, e) && csr.col_idx[e] == edges[i].1
            && csr.values[e] == weights[i];
    assert(csr.in_row(edges[i].0 as int, e));
    assert(csr.col_idx[e] == edges[i].1);
    if i > 0 {
        assert(edge_place(edges[i - 1]) < edge_place(edges[i]));
    }
}

/// Law: an entry of the matrix between two particles that are both visible at T1, T2 or T3 is
/// listed, from its lower end to its higher one.
pub proof fn law_edges_between_visible_particles_are_listed<W>(
    csr: &Csr<W>,
    visible: Seq<(u32, TierLevel)>,
    edges: Seq<(u32, u32)>,
    weights: Seq<W>,
    e: int,
    j: int,
    k: int,
)
    requires
        lists_visible_edges(csr, visible, edges, weights),
        0 <= j < visible.len(),
        0 <= k < visible.len(),
        visible[j].0 < csr.n,
        visible[j].0 < visible[k].0,
        csr.row_ptr[visible[j].0 as int] <= e < csr.row_ptr[visible[j].0 + 1],
        csr.col_idx[e] == visible[k].0,
        visible[j].1 == TierLevel::T1 || visible[j].1 == TierLevel::T2 || visible[j].1
            == TierLevel::T3,
        visible[k].1 == TierLevel::T1 || visible[k].1 == TierLevel::T2 || visible[k].1
            == TierLevel::T3,
    ensures
        edges.contains((visible[j].0, visible[k].0)),
{
    assert(carries_edges(visible[j].1) && carries_edges(visible[k].1));
    assert(csr.in_row(visible[j].0 as int, e));
    assert(is_visible_entry(csr, visible, visible[j].0 as int, e));
}

} // verus!
