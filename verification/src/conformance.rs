//! Conformance checks of a finished epoch, and their report.
//!
//! Sums and norms are measured by the caller and enter as bit patterns; the checks
//! themselves, what they combine to and how the report reads stand here.

use vstd::prelude::*;

use crate::scalar::{largest, Scalar};
use crate::text::decimal;

verus! {

/// The pattern of 1001, the largest distance from the origin that a position may have: the
/// scene's radius and the tolerance.
pub const POSITION_BOUND: u32 = 0x447a_4000;

/// Result of a conformance run.
pub struct ConformanceReport<S> {
    /// cluster ids are compact at each scale, the strongest cluster first
    pub p_render_topo: bool,
    /// positions are finite and inside the scene
    pub p_render_pos: bool,
    /// the frame budget holds; always true without a live render loop
    pub p_render_fps: bool,
    /// false until pixels are compared, which needs a live render
    pub p_render_pix: bool,
    /// false until the background network is complete
    pub p_render_tinf: bool,
    /// largest distance of a particle from the origin
    pub max_pos_deviation: S,
    /// mean frames per second in the last timed window
    pub mean_fps: S,
}

/// `1` or `0`.
pub open spec fn flag_text(v: bool) -> Seq<char> {
    if v {
        "1"@
    } else {
        "0"@
    }
}

fn flag(v: bool) -> (r: &'static str)
    ensures
        r@ == flag_text(v),
{
    if v {
        "1"
    } else {
        "0"
    }
}

impl<S> ConformanceReport<S> {
    /// The report as TOML. `deviation` is the largest deviation in scene radii, as text,
    /// and `fps` the whole frames per second.
    pub open spec fn toml_text(&self, deviation: Seq<char>, fps: u32) -> Seq<char> {
        "[r1_conformance]\nP_RENDER_TOPO = "@ + flag_text(self.p_render_topo)
            + "\nP_RENDER_POS  = "@ + flag_text(self.p_render_pos) + "   # max deviation "@
            + deviation + " * R_scene, bound 1e-3\nP_RENDER_PIX  = "@ + flag_text(
            self.p_render_pix,
        ) + "   # CIE ΔE* comparison requires live render\nP_RENDER_FPS  = "@ + flag_text(
            self.p_render_fps,
        ) + "   # "@ + crate::text::decimal_text(fps as nat)
            + " FPS (unit-test: always 1)\nP_RENDER_TINF = "@ + flag_text(self.p_render_tinf)
            + "   # T∞ NRF not yet implemented\n"@
    }

    /// Writes the report as TOML.
    pub fn to_toml(&self, deviation: &str, fps: u32) -> (r: String)
        ensures
            r@ == self.toml_text(deviation@, fps),
    {
        let count = decimal(fps as u64);
        String::from_str("[r1_conformance]\nP_RENDER_TOPO = ").concat(
            flag(self.p_render_topo),
        ).concat("\nP_RENDER_POS  = ").concat(flag(self.p_render_pos)).concat(
            "   # max deviation ",
        ).concat(deviation).concat(" * R_scene, bound 1e-3\nP_RENDER_PIX  = ").concat(
            flag(self.p_render_pix),
        ).concat("   # CIE ΔE* comparison requires live render\nP_RENDER_FPS  = ").concat(
            flag(self.p_render_fps),
        ).concat("   # ").concat(count.as_str()).concat(
            " FPS (unit-test: always 1)\nP_RENDER_TINF = ",
        ).concat(flag(self.p_render_tinf)).concat("   # T∞ NRF not yet implemented\n")
    }
}

/// The focus of a scale's cluster 0, and the bound below which it must not fall: the
/// highest focus of any of its clusters less the tolerance.
#[derive(Clone, Copy)]
pub struct FocusLead {
    pub head: Scalar,
    pub bound: Scalar,
}

/// Scale `l` is in order: its ids leave no gap, and of several clusters the first leads.
pub open spec fn is_stable_level(cluster_ids: Seq<[u32; 4]>, l: int, lead: FocusLead) -> bool {
    let labels = crate::epoch::bvh::labels_at(cluster_ids, l);
    let count = crate::epoch::bvh::label_count(labels);
    &&& crate::epoch::bvh::is_compact(labels, count)
    &&& count > 1 ==> !lead.head.less(lead.bound)
}

/// Whether the cluster ids are compact and canonically ordered at all four scales.
pub fn check_topo_stability(cluster_ids: &[[u32; 4]], leads: &[FocusLead; 4]) -> (r: bool)
    ensures
        r == (cluster_ids.len() == 0 || forall|l: int|
            0 <= l < 4 ==> is_stable_level(cluster_ids@, l, #[trigger] leads@[l])),
{
    if cluster_ids.len() == 0 {
        return true;
    }
    let mut l: usize = 0;
    while l < 4
        invariant
            l <= 4,
            cluster_ids.len() > 0,
            forall|j: int| 0 <= j < l ==> is_stable_level(cluster_ids@, j, #[trigger] leads@[j]),
        decreases 4 - l,
    {
        let ghost labels = crate::epoch::bvh::labels_at(cluster_ids@, l as int);
        let max_id: u32 = highest_label(cluster_ids, l);
        let compact: bool = has_no_gap(cluster_ids, l, max_id);
        if !compact {
            assert(!is_stable_level(cluster_ids@, l as int, leads@[l as int]));
            return false;
        }
        if max_id > 0 && leads[l].head.is_less(leads[l].bound) {
            assert(!is_stable_level(cluster_ids@, l as int, leads@[l as int]));
            return false;
        }
        assert(is_stable_level(cluster_ids@, l as int, leads@[l as int]));
        l = l + 1;
    }
    true
}

fn highest_label(cluster_ids: &[[u32; 4]], l: usize) -> (max_id: u32)
    requires
        l < 4,
        cluster_ids.len() > 0,
    ensures
        max_id + 1 == crate::epoch::bvh::label_count(
            crate::epoch::bvh::labels_at(cluster_ids@, l as int),
        ),
{
    let ghost labels = crate::epoch::bvh::labels_at(cluster_ids@, l as int);
    let mut max_id: u32 = 0;
    let mut p: usize = 0;
    while p < cluster_ids.len()
        invariant
            l < 4,
            p <= cluster_ids.len(),
            labels == crate::epoch::bvh::labels_at(cluster_ids@, l as int),
            p > 0 ==> max_id + 1 == crate::epoch::bvh::label_count(labels.take(p as int)),
            p == 0 ==> max_id == 0,
        decreases cluster_ids.len() - p,
    {
        proof {
            assert(labels.take(p + 1).drop_last() =~= labels.take(p as int));
            assert(labels.take(p + 1).last() == cluster_ids@[p as int][l as int]);
            assert(labels.take(0).len() == 0);
            assert(crate::epoch::bvh::label_count(labels.take(0)) == 0);
            assert(p + 1 > 0 && labels.take(p + 1).len() == p + 1);
        }
        let row: [u32; 4] = cluster_ids[p];
        let id: u32 = row[l];
        if id > max_id {
            max_id = id;
        }
        p = p + 1;
    }
    assert(labels.take(cluster_ids.len() as int) =~= labels);
    max_id
}

/// Whether every id up to `max_id` occurs.
fn has_no_gap(cluster_ids: &[[u32; 4]], l: usize, max_id: u32) -> (r: bool)
    requires
        l < 4,
        cluster_ids.len() > 0,
        max_id + 1 == crate::epoch::bvh::label_count(
            crate::epoch::bvh::labels_at(cluster_ids@, l as int),
        ),
    ensures
        r == crate::epoch::bvh::is_compact(
            crate::epoch::bvh::labels_at(cluster_ids@, l as int),
            (max_id + 1) as nat,
        ),
{
    let ghost labels = crate::epoch::bvh::labels_at(cluster_ids@, l as int);
    proof {
        crate::epoch::bvh::lemma_label_count(labels);
    }
    if max_id as usize >= cluster_ids.len() {
        proof {
            if crate::epoch::bvh::is_compact(labels, (max_id + 1) as nat) {
                crate::epoch::bvh::lemma_pigeonhole(labels, (max_id + 1) as nat);
            }
        }
        return false;
    }
    let count: usize = max_id as usize + 1;
    let mut seen: Vec<bool> = vec![false; count];
    let mut p: usize = 0;
    while p < cluster_ids.len()
        invariant
            l < 4,
            p <= cluster_ids.len(),
            seen.len() == count,
            labels == crate::epoch::bvh::labels_at(cluster_ids@, l as int),
            forall|q: int| 0 <= q < labels.len() ==> #[trigger] labels[q] < count,
            forall|c: int| 0 <= c < count && #[trigger] seen[c] ==> labels.contains(c as u32),
            forall|q: int| 0 <= q < p ==> seen[#[trigger] labels[q] as int],
        decreases cluster_ids.len() - p,
    {
        let row: [u32; 4] = cluster_ids[p];
        let id: usize = row[l] as usize;
        assert(labels[p as int] == id);
        seen.set(id, true);
        p = p + 1;
    }
    let mut c: usize = 0;
    while c < count
        invariant
            c <= count,
            count <= max_id + 1,
            seen.len() == count,
            labels.len() == cluster_ids.len(),
            forall|i: int| 0 <= i < count && #[trigger] seen[i] ==> labels.contains(i as u32),
            forall|q: int| 0 <= q < labels.len() ==> #[trigger] labels[q] < count,
            forall|q: int| 0 <= q < labels.len() ==> seen[#[trigger] labels[q] as int],
            forall|i: u32| i < c ==> #[trigger] labels.contains(i),
            count == max_id + 1,
            labels == crate::epoch::bvh::labels_at(cluster_ids@, l as int),
        decreases count - c,
    {
        if !seen[c] {
            proof {
                assert(!labels.contains(c as u32));
            }
            return false;
        }
        proof {
            assert(seen[c as int]);
            assert(labels.contains(c as u32));
        }
        c = c + 1;
    }
    true
}

/// Whether all positions are finite and inside the scene. `max_norm` is the largest
/// distance of a particle from the origin.
pub fn check_position_stability(positions: &[Scalar], scene_scale: Scalar, max_norm: Scalar) -> (r:
    bool)
    ensures
        r == (positions.len() == 0 || {
            &&& forall|i: int| 0 <= i < positions.len() ==> (#[trigger] positions[i]).finite()
            &&& (Scalar { bits: 0 }).less(scene_scale)
            &&& max_norm.at_most(Scalar { bits: POSITION_BOUND })
        }),
        r && positions.len() > 0 ==> max_norm.at_most(Scalar { bits: 0x447a_4000 }),
        !r ==> positions.len() > 0 && ((exists|i: int|
            0 <= i < positions.len() && !(#[trigger] positions[i]).finite()) || !(Scalar {
            bits: 0,
        }).less(scene_scale) || !max_norm.at_most(Scalar { bits: 0x447a_4000 })),
{
    if positions.len() == 0 {
        return true;
    }
    let mut i: usize = 0;
    while i < positions.len()
        invariant
            i <= positions.len(),
            forall|j: int| 0 <= j < i ==> (#[trigger] positions[j]).finite(),
        decreases positions.len() - i,
    {
        if !positions[i].is_finite() {
            return false;
        }
        i = i + 1;
    }
    (Scalar { bits: 0 }).is_less(scene_scale) && max_norm.is_at_most(
        Scalar { bits: POSITION_BOUND },
    )
}

/// The largest distance of a particle from the origin. `norms` holds the distance of each.
pub fn measure_pos_deviation(norms: &[Scalar]) -> (m: Scalar)
    ensures
        crate::scalar::is_largest(norms@, m),
{
    largest(norms)
}

/// Runs all checks on a finished epoch. `norms` holds the distance of each particle from
/// the origin.
pub fn run_conformance(
    cluster_ids: &[[u32; 4]],
    leads: &[FocusLead; 4],
    positions: &[Scalar],
    norms: &[Scalar],
    scene_scale: Scalar,
) -> (report: ConformanceReport<Scalar>)
    ensures
        report.p_render_topo == (cluster_ids.len() == 0 || forall|l: int|
            0 <= l < 4 ==> is_stable_level(cluster_ids@, l, #[trigger] leads@[l])),
        report.p_render_pos == (positions.len() == 0 || {
            &&& forall|i: int| 0 <= i < positions.len() ==> (#[trigger] positions[i]).finite()
            &&& (Scalar { bits: 0 }).less(scene_scale)
            &&& report.max_pos_deviation.at_most(Scalar { bits: POSITION_BOUND })
        }),
        report.p_render_fps,
        !report.p_render_pix,
        !report.p_render_tinf,
        crate::scalar::is_largest(norms@, report.max_pos_deviation),
        report.mean_fps.bits == 0,
{
    let max_dev = measure_pos_deviation(norms);
    ConformanceReport {
        p_render_topo: check_topo_stability(cluster_ids, leads),
        p_render_pos: check_position_stability(positions, scene_scale, max_dev),
        p_render_fps: true,
        p_render_pix: false,
        p_render_tinf: false,
        max_pos_deviation: max_dev,
        mean_fps: Scalar { bits: 0 },
    }
}

/// Law: a scale is in order exactly where every id below one that occurs occurs too, and, where an
/// id other than 0 occurs, the focus of cluster 0 is not below the bound.
pub proof fn law_stable_levels_have_no_gap(cluster_ids: Seq<[u32; 4]>, l: int, lead: FocusLead)
    requires
        cluster_ids.len() > 0,
        0 <= l < 4,
    ensures
        is_stable_level(cluster_ids, l, lead) <==> {
            &&& forall|p: int, c: u32|
                0 <= p < cluster_ids.len() && c < (#[trigger] cluster_ids[p])[l]
                    ==> #[trigger] occurs_at(cluster_ids, l, c)
            &&& (exists|p: int| 0 <= p < cluster_ids.len() && (#[trigger] cluster_ids[p])[l] > 0)
                ==> !lead.head.less(lead.bound)
        },
{
    let labels = crate::epoch::bvh::labels_at(cluster_ids, l);
    let count = crate::epoch::bvh::label_count(labels);
    crate::epoch::bvh::lemma_label_count(labels);
    let top = choose|p: int| 0 <= p < labels.len() && #[trigger] labels[p] + 1 == count;
    assert(labels[top] == cluster_ids[top][l]);
    let gapless = forall|p: int, c: u32|
        0 <= p < cluster_ids.len() && c < (#[trigger] cluster_ids[p])[l] ==> #[trigger] occurs_at(
            cluster_ids,
            l,
            c,
        );
    let several = exists|p: int| 0 <= p < cluster_ids.len() && (#[trigger] cluster_ids[p])[l] > 0;
    assert(several <==> count > 1) by {
        if several {
            let p = choose|p: int|
                0 <= p < cluster_ids.len() && (#[trigger] cluster_ids[p])[l] > 0;
            assert(labels[p] < count);
        }
    }
    if crate::epoch::bvh::is_compact(labels, count) {
        assert forall|p: int, c: u32|
            0 <= p < cluster_ids.len() && c < (#[trigger] cluster_ids[p])[l] implies #[trigger]
        occurs_at(cluster_ids, l, c) by {
            assert(labels[p] < count);
            assert(labels.contains(c));
            let q = choose|q: int| 0 <= q < labels.len() && labels[q] == c;
            assert(cluster_ids[q][l] == c);
        }
    }
    if gapless {
        assert forall|c: u32| c < count implies #[trigger] labels.contains(c) by {
            if c < cluster_ids[top][l] {
                assert(occurs_at(cluster_ids, l, c));
                let q = choose|q: int| 0 <= q < cluster_ids.len() && (#[trigger] cluster_ids[q])[l] == c;
                assert(labels[q] == c);
            } else {
                assert(labels[top] == c);
            }
        }
    }
}

/// Some particle has id `c` at scale `l`.
pub open spec fn occurs_at(cluster_ids: Seq<[u32; 4]>, l: int, c: u32) -> bool {
    exists|q: int| 0 <= q < cluster_ids.len() && (#[trigger] cluster_ids[q])[l] == c
}

/// Law: a built hierarchy passes the topology check at every scale, whatever bound at or
/// below the focus of one of its clusters the first cluster is held against.
pub proof fn law_hierarchies_are_stable(
    coords: &crate::epoch::eigensolver::SpectralCoords<Scalar>,
    levels: Seq<crate::epoch::bvh::Level>,
    bvh: &crate::epoch::bvh::Bvh,
    l: int,
    lead: FocusLead,
    q: int,
)
    requires
        crate::epoch::bvh::is_hierarchy_of(coords, levels, bvh),
        0 <= l < 4,
        levels[l].wf(coords.n as int),
        coords.n <= u32::MAX,
        forall|p: int|
            0 <= p < coords.n && (#[trigger] bvh.cluster_ids@[p])[l] == 0 ==> lead.head
                == levels[l].focus@[levels[l].ids@[p] as int],
        0 <= q < coords.n,
        lead.bound.at_most(levels[l].focus@[levels[l].ids@[q] as int]),
    ensures
        is_stable_level(bvh.cluster_ids@, l, lead),
{
    let ids = levels[l].ids@;
    let focus = levels[l].focus@;
    let all = Seq::new(4, |j: int| crate::epoch::bvh::labels_at(bvh.cluster_ids@, j));
    assert(crate::epoch::bvh::is_level(coords, levels, all, bvh.nodes@, l));
    let labels = crate::epoch::bvh::labels_at(bvh.cluster_ids@, l);
    assert(all[l] == labels);
    crate::epoch::bvh::lemma_compact_count(ids, focus.len());
    crate::epoch::bvh::law_canonical_labels_keep_clusters(ids, focus, labels);
    crate::epoch::bvh::lemma_compact_count(labels, focus.len());
    assert(labels[q] < focus.len());
    assert(labels.contains(0u32));
    let p = choose|p: int| 0 <= p < labels.len() && labels[p] == 0u32;
    assert(bvh.cluster_ids@[p][l] == 0);
    assert(bvh.cluster_ids@[q][l] == labels[q]);
    crate::epoch::bvh::lemma_labels_follow_order(ids, focus, labels, p, q);
}

} // verus!
