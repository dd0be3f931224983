//! Frustum cull: which particles are visible, and at which tier.
//!
//! The cull itself is a compute kernel. What stands here is what the tiers mean, and how
//! the kernel's answer is read.

use vstd::prelude::*;

use crate::bytes::read_le;
use crate::order::{gather, stable_order};
use crate::scalar::Scalar;

verus! {

/// Patterns of the tier thresholds, in screen-pixel diameter: 200, 40, 8 and 1.
pub const S_T0: u32 = 0x4348_0000;

pub const S_T1: u32 = 0x4220_0000;

pub const S_T2: u32 = 0x4100_0000;

pub const S_T3: u32 = 0x3f80_0000;

/// Tier of detail, the most detailed first.
#[derive(Clone, Copy, Debug, PartialEq, Eq, Structural)]
pub enum TierLevel {
    T0,
    T1,
    T2,
    T3,
    TInf,
}

impl TierLevel {
    /// The tier's number: 0 for the most detailed.
    pub open spec fn number(self) -> u8 {
        match self {
            TierLevel::T0 => 0,
            TierLevel::T1 => 1,
            TierLevel::T2 => 2,
            TierLevel::T3 => 3,
            TierLevel::TInf => 4,
        }
    }

    /// The tier's number: 0 for the most detailed.
    pub fn code(self) -> (r: u8)
        ensures
            r == self.number(),
    {
        match self {
            TierLevel::T0 => 0,
            TierLevel::T1 => 1,
            TierLevel::T2 => 2,
            TierLevel::T3 => 3,
            TierLevel::TInf => 4,
        }
    }

    /// The tier with number `code`; every number from 4 on is the last tier.
    pub open spec fn numbered(code: int) -> TierLevel {
        if code == 0 {
            TierLevel::T0
        } else if code == 1 {
            TierLevel::T1
        } else if code == 2 {
            TierLevel::T2
        } else if code == 3 {
            TierLevel::T3
        } else {
            TierLevel::TInf
        }
    }

    /// The tier with number `code`; every number from 4 on is the last tier.
    pub fn from_code(code: u32) -> (r: TierLevel)
        ensures
            r == TierLevel::numbered(code as int),
    {
        match code {
            0 => TierLevel::T0,
            1 => TierLevel::T1,
            2 => TierLevel::T2,
            3 => TierLevel::T3,
            _ => TierLevel::TInf,
        }
    }

    /// The tier earns a sphere: T2 is the smallest that does.
    pub open spec fn solid(self) -> bool {
        self.number() <= TierLevel::T2.number()
    }

    /// Whether the tier earns a sphere.
    pub fn is_solid(self) -> (r: bool)
        ensures
            r == self.solid(),
    {
        self.code() <= 2
    }
}

/// The tier of a particle whose screen diameter in pixels is `diameter`.
pub open spec fn tier_at(diameter: Scalar) -> TierLevel {
    if (Scalar { bits: S_T0 }).at_most(diameter) {
        TierLevel::T0
    } else if (Scalar { bits: S_T1 }).at_most(diameter) {
        TierLevel::T1
    } else if (Scalar { bits: S_T2 }).at_most(diameter) {
        TierLevel::T2
    } else if (Scalar { bits: S_T3 }).at_most(diameter) {
        TierLevel::T3
    } else {
        TierLevel::TInf
    }
}

/// The tier of a particle whose screen diameter in pixels is `diameter`.
pub fn diameter_to_tier(diameter: Scalar) -> (r: TierLevel)
    ensures
        r == tier_at(diameter),
{
    if (Scalar { bits: S_T0 }).is_at_most(diameter) {
        TierLevel::T0
    } else if (Scalar { bits: S_T1 }).is_at_most(diameter) {
        TierLevel::T1
    } else if (Scalar { bits: S_T2 }).is_at_most(diameter) {
        TierLevel::T2
    } else if (Scalar { bits: S_T3 }).is_at_most(diameter) {
        TierLevel::T3
    } else {
        TierLevel::TInf
    }
}

/// Law: a particle that grows on screen never loses detail.
pub proof fn law_tiers_are_monotone(smaller: Scalar, larger: Scalar)
    requires
        smaller.at_most(larger),
    ensures
        tier_at(larger).number() <= tier_at(smaller).number(),
{
}

/// Law: a tier begins where its threshold does, at 200, 40, 8 and 1 pixels, and ends where the
/// next larger one begins; what is smaller than the last, or not a number, has the last tier.
pub proof fn law_tiers_begin_at_their_thresholds(diameter: Scalar)
    ensures
        tier_at(diameter) == TierLevel::T0 <==> (Scalar { bits: 0x4348_0000 }).at_most(diameter),
        tier_at(diameter) == TierLevel::T1 <==> (Scalar { bits: 0x4220_0000 }).at_most(diameter)
            && diameter.less(Scalar { bits: 0x4348_0000 }),
        tier_at(diameter) == TierLevel::T2 <==> (Scalar { bits: 0x4100_0000 }).at_most(diameter)
            && diameter.less(Scalar { bits: 0x4220_0000 }),
        tier_at(diameter) == TierLevel::T3 <==> (Scalar { bits: 0x3f80_0000 }).at_most(diameter)
            && diameter.less(Scalar { bits: 0x4100_0000 }),
        tier_at(diameter) == TierLevel::TInf <==> diameter.nan() || diameter.less(
            Scalar { bits: 0x3f80_0000 },
        ),
{
}

/// Law: a particle has a sphere exactly where it has 8 pixels or more on screen.
pub proof fn law_spheres_begin_at_eight_pixels(diameter: Scalar)
    ensures
        tier_at(diameter).solid() <==> (Scalar { bits: 0x4100_0000 }).at_most(diameter),
{
}

/// Law: the first three tiers earn a sphere and the last two none; tiers are numbered from the
/// most detailed on, and every number past the last names the last.
pub proof fn law_tiers_are_numbered_from_detail(tier: TierLevel, code: int)
    ensures
        tier.solid() <==> tier == TierLevel::T0 || tier == TierLevel::T1 || tier == TierLevel::T2,
        tier.number() == 0 <==> tier == TierLevel::T0,
        tier.number() == 1 <==> tier == TierLevel::T1,
        tier.number() == 2 <==> tier == TierLevel::T2,
        tier.number() == 3 <==> tier == TierLevel::T3,
        tier.number() == 4 <==> tier == TierLevel::TInf,
        0 <= code < 5 ==> TierLevel::numbered(code).number() == code,
        5 <= code ==> TierLevel::numbered(code) == TierLevel::TInf,
{
}

/// Law: a tier's number names the tier.
pub proof fn law_tier_numbers_roundtrip(tier: TierLevel)
    ensures
        TierLevel::numbered(tier.number() as int) == tier,
{
}

/// Size of the kernel's output for `n` particles: eight bytes each, and never none.
pub fn output_size(n: u32) -> (size: usize)
    requires
        8 * n <= usize::MAX,
    ensures
        size == if n == 0 {
            8
        } else {
            8 * n
        },
{
    if n == 0 {
        8
    } else {
        n as usize * 8
    }
}

/// Particles visible this frame, with their tiers.
pub struct VisibleSet {
    pub entries: Vec<(u32, TierLevel)>,
}

/// How many entries the kernel's answer holds: as many as it counted, as far as its output
/// reaches.
pub open spec fn entry_count(count: Seq<u8>, out: Seq<u8>) -> int {
    let counted = crate::bytes::le_value(count.subrange(0, 4)) as int;
    let room = out.len() as int / 8;
    if counted < room {
        counted
    } else {
        room
    }
}

/// Law: no more entries are read than were counted, nor than the output holds whole, and none of
/// those is left out.
pub proof fn law_entries_are_counted_and_held(count: Seq<u8>, out: Seq<u8>)
    requires
        count.len() >= 4,
    ensures
        ({
            let counted = count[0] + 256 * count[1] + 65536 * count[2] + 16777216 * count[3];
            let read = entry_count(count, out);
            &&& 0 <= read <= counted
            &&& 8 * read <= out.len()
            &&& read == counted || out.len() < 8 * (read + 1)
        }),
{
    crate::bytes::law_four_bytes_make_a_word(count.subrange(0, 4));
}

impl VisibleSet {
    /// Reads the kernel's answer: a counter, and pairs of particle index and tier number.
    pub fn decode(count: &[u8], out: &[u8]) -> (set: Self)
        requires
            count.len() >= 4,
        ensures
            set.entries.len() == entry_count(count@, out@),
            forall|i: int|
                0 <= i < set.entries.len() ==> {
                    &&& (#[trigger] set.entries[i]).0 == crate::bytes::le_value(
                        out@.subrange(8 * i, 8 * i + 4),
                    )
                    &&& set.entries[i].1 == TierLevel::numbered(
                        crate::bytes::le_value(out@.subrange(8 * i + 4, 8 * i + 8)) as int,
                    )
                },
    {
        proof {
            crate::bytes::lemma_le_limits();
        }
        let counted: u64 = read_le(count, 0, 4) as u64;
        let room: usize = out.len() / 8;
        let total: usize = if counted < room as u64 {
            counted as usize
        } else {
            room
        };
        let mut entries: Vec<(u32, TierLevel)> = Vec::with_capacity(total);
        let mut i: usize = 0;
        while i < total
            invariant
                i <= total,
                8 * total <= out.len(),
                entries.len() == i,
                crate::bytes::le_limit(4) == 0x1_0000_0000,
                forall|j: int|
                    0 <= j < i ==> {
                        &&& (#[trigger] entries[j]).0 == crate::bytes::le_value(
                            out@.subrange(8 * j, 8 * j + 4),
                        )
                        &&& entries[j].1 == TierLevel::numbered(
                            crate::bytes::le_value(out@.subrange(8 * j + 4, 8 * j + 8)) as int,
                        )
                    },
            decreases total - i,
        {
            let idx: u32 = read_le(out, 8 * i, 4) as u32;
            let tier: u32 = read_le(out, 8 * i + 4, 4) as u32;
            entries.push((idx, TierLevel::from_code(tier)));
            i = i + 1;
        }
        VisibleSet { entries }
    }
}

/// The particles of `visible` whose tier satisfies `keep`, in order.
pub open spec fn indices_where(
    visible: Seq<(u32, TierLevel)>,
    keep: spec_fn(TierLevel) -> bool,
) -> Seq<u32>
    decreases visible.len(),
{
    if visible.len() == 0 {
        Seq::empty()
    } else {
        let before = indices_where(visible.drop_last(), keep);
        if keep(visible.last().1) {
            before.push(visible.last().0)
        } else {
            before
        }
    }
}

/// Law: an entry whose tier is kept stands in the list after those kept before it, and only such
/// entries stand there.
pub proof fn law_kept_entries_are_listed(
    visible: Seq<(u32, TierLevel)>,
    keep: spec_fn(TierLevel) -> bool,
    k: int,
)
    requires
        0 <= k < visible.len(),
    ensures
        indices_where(visible, keep).len() == visible.filter(
            |entry: (u32, TierLevel)| keep(entry.1),
        ).len(),
        keep(visible[k].1) ==> {
            let m = visible.take(k).filter(|entry: (u32, TierLevel)| keep(entry.1)).len() as int;
            m < indices_where(visible, keep).len() && indices_where(visible, keep)[m]
                == visible[k].0
        },
    decreases visible.len(),
{
    reveal(Seq::filter);
    let before = visible.drop_last();
    lemma_kept_count(before, keep);
    lemma_kept_count(visible, keep);
    if k < before.len() {
        law_kept_entries_are_listed(before, keep, k);
        assert(before.take(k) =~= visible.take(k));
        assert(before[k] == visible[k]);
    } else {
        assert(visible.take(k) =~= before);
    }
}

proof fn lemma_kept_count(visible: Seq<(u32, TierLevel)>, keep: spec_fn(TierLevel) -> bool)
    ensures
        indices_where(visible, keep).len() == visible.filter(
            |entry: (u32, TierLevel)| keep(entry.1),
        ).len(),
    decreases visible.len(),
{
    reveal(Seq::filter);
    if visible.len() > 0 {
        lemma_kept_count(visible.drop_last(), keep);
    }
}

/// Every particle that is kept is a visible particle.
pub proof fn lemma_kept_is_visible(
    visible: Seq<(u32, TierLevel)>,
    keep: spec_fn(TierLevel) -> bool,
)
    ensures
        ({
            let kept = indices_where(visible, keep);
            forall|m: int|
                0 <= m < kept.len() ==> exists|k: int|
                    0 <= k < visible.len() && (#[trigger] visible[k]).0 == #[trigger] kept[m]
        }),
    decreases visible.len(),
{
    let kept = indices_where(visible, keep);
    if visible.len() > 0 {
        let before = visible.drop_last();
        lemma_kept_is_visible(before, keep);
        let kept_before = indices_where(before, keep);
        assert forall|m: int| 0 <= m < kept.len() implies exists|k: int|
            0 <= k < visible.len() && (#[trigger] visible[k]).0 == #[trigger] kept[m] by {
            if m < kept_before.len() {
                assert(kept[m] == kept_before[m]);
                let k = choose|k: int|
                    0 <= k < before.len() && (#[trigger] before[k]).0 == kept_before[m];
                assert(visible[k] == before[k]);
            } else {
                assert(visible[visible.len() - 1].0 == kept[m]);
            }
        }
    }
}

/// The particles that are kept are the same ones, whatever order they were listed in.
pub proof fn lemma_kept_multiset(
    first: Seq<(u32, TierLevel)>,
    second: Seq<(u32, TierLevel)>,
    keep: spec_fn(TierLevel) -> bool,
)
    requires
        first.to_multiset() == second.to_multiset(),
    ensures
        indices_where(first, keep).to_multiset() == indices_where(second, keep).to_multiset(),
    decreases first.len(),
{
    broadcast use vstd::seq_lib::group_to_multiset_ensures;

    if first.len() == 0 {
        vstd::seq_lib::to_multiset_len(first);
        vstd::seq_lib::to_multiset_len(second);
        assert(first =~= second);
    } else {
        let x = first.last();
        assert(first.contains(x));
        assert(second.to_multiset().count(x) > 0);
        assert(second.contains(x));
        let j = choose|j: int| 0 <= j < second.len() && second[j] == x;
        let rest_first = first.drop_last();
        let rest_second = second.remove(j);
        assert(rest_first =~= first.remove(first.len() - 1));
        assert(rest_first.to_multiset() =~= first.to_multiset().remove(x));
        assert(rest_second.to_multiset() =~= second.to_multiset().remove(x));
        lemma_kept_multiset(rest_first, rest_second, keep);
        lemma_kept_without(second, keep, j);
        let kept = indices_where(rest_first, keep);
        if keep(x.1) {
            assert(indices_where(first, keep).to_multiset() =~= kept.to_multiset().insert(x.0));
        }
    }
}

/// Leaving entry `j` out leaves its particle out, once, if it was kept.
proof fn lemma_kept_without(visible: Seq<(u32, TierLevel)>, keep: spec_fn(TierLevel) -> bool, j: int)
    requires
        0 <= j < visible.len(),
    ensures
        indices_where(visible, keep).to_multiset() == if keep(visible[j].1) {
            indices_where(visible.remove(j), keep).to_multiset().insert(visible[j].0)
        } else {
            indices_where(visible.remove(j), keep).to_multiset()
        },
    decreases visible.len(),
{
    broadcast use vstd::seq_lib::group_to_multiset_ensures;

    let last = visible.last();
    let before = visible.drop_last();
    let rest = visible.remove(j);
    if j == visible.len() - 1 {
        assert(rest =~= before);
        if keep(last.1) {
            assert(indices_where(visible, keep).to_multiset() =~= indices_where(
                before,
                keep,
            ).to_multiset().insert(last.0));
        }
    } else {
        lemma_kept_without(before, keep, j);
        assert(rest.drop_last() =~= before.remove(j));
        assert(rest.last() == last);
        assert(before[j] == visible[j]);
        if keep(last.1) {
            assert(indices_where(visible, keep).to_multiset() =~= indices_where(
                before,
                keep,
            ).to_multiset().insert(last.0));
            assert(indices_where(rest, keep).to_multiset() =~= indices_where(
                before.remove(j),
                keep,
            ).to_multiset().insert(last.0));
        }
        assert(indices_where(visible, keep).to_multiset() =~= if keep(visible[j].1) {
            indices_where(rest, keep).to_multiset().insert(visible[j].0)
        } else {
            indices_where(rest, keep).to_multiset()
        });
    }
}

/// A list of particles, by index.
pub open spec fn by_index(list: Seq<u32>) -> Seq<u32> {
    list.sort_by(|a: u32, b: u32| a <= b)
}

/// What a list by index is: ascending, with the same particles.
pub proof fn lemma_by_index(list: Seq<u32>)
    ensures
        vstd::relations::sorted_by(by_index(list), |a: u32, b: u32| a <= b),
        by_index(list).to_multiset() == list.to_multiset(),
        by_index(list).len() == list.len(),
        forall|idx: u32| #[trigger] by_index(list).contains(idx) <==> list.contains(idx),
{
    broadcast use vstd::seq_lib::group_to_multiset_ensures;

    let sorted = by_index(list);
    list.lemma_sort_by_ensures(|a: u32, b: u32| a <= b);
    vstd::seq_lib::to_multiset_len(list);
    vstd::seq_lib::to_multiset_len(sorted);
    assert forall|idx: u32| #[trigger] sorted.contains(idx) <==> list.contains(idx) by {
        assert(list.contains(idx) <==> list.to_multiset().count(idx) > 0);
        assert(sorted.contains(idx) <==> sorted.to_multiset().count(idx) > 0);
    }
}

/// The same particles make the same list by index.
pub proof fn lemma_by_index_unique(first: Seq<u32>, second: Seq<u32>)
    requires
        first.to_multiset() == second.to_multiset(),
    ensures
        by_index(first) == by_index(second),
{
    lemma_by_index(first);
    lemma_by_index(second);
    vstd::seq_lib::lemma_sorted_unique(
        by_index(first),
        by_index(second),
        |a: u32, b: u32| a <= b,
    );
}

/// Lists particles by index.
pub fn sort_by_index(list: &[u32]) -> (out: Vec<u32>)
    ensures
        out@ == by_index(list@),
{
    let mut keys: Vec<i128> = Vec::with_capacity(list.len());
    let mut k: usize = 0;
    while k < list.len()
        invariant
            k <= list.len(),
            keys.len() == k,
            forall|i: int| 0 <= i < k ==> #[trigger] keys[i] == list[i],
        decreases list.len() - k,
    {
        keys.push(list[k] as i128);
        k = k + 1;
    }
    let order = stable_order(keys.as_slice());
    let out = gather(list, order.as_slice());
    proof {
        let leq = |a: u32, b: u32| a <= b;
        crate::order::lemma_order_distinct(keys@, order@);
        crate::order::lemma_reordered_multiset(list@, order@, out@);
        lemma_by_index(list@);
        assert forall|i: int, j: int| 0 <= i < j < out.len() implies #[trigger] leq(
            out@[i],
            out@[j],
        ) by {
            assert(crate::order::precedes(keys@, order@[i] as int, order@[j] as int));
            assert(keys[order@[i] as int] == out@[i] && keys[order@[j] as int] == out@[j]);
        }
        vstd::seq_lib::lemma_sorted_unique(out@, by_index(list@), leq);
    }
    out
}

/// The particles of `visible` at `tier`, in order.
pub fn particles_at(visible: &[(u32, TierLevel)], tier: TierLevel) -> (out: Vec<u32>)
    ensures
        out@ == indices_where(visible@, |t: TierLevel| t == tier),
{
    let ghost keep = |t: TierLevel| t == tier;
    let mut out: Vec<u32> = Vec::new();
    let mut k: usize = 0;
    while k < visible.len()
        invariant
            k <= visible.len(),
            keep == (|t: TierLevel| t == tier),
            out@ == indices_where(visible@.take(k as int), keep),
        decreases visible.len() - k,
    {
        assert(visible@.take(k + 1).drop_last() =~= visible@.take(k as int));
        let entry: (u32, TierLevel) = visible[k];
        if entry.1 == tier {
            out.push(entry.0);
        }
        k = k + 1;
    }
    assert(visible@.take(visible.len() as int) =~= visible@);
    out
}

/// The particles of `visible` whose tier earns a sphere, in order.
pub fn solid_particles(visible: &[(u32, TierLevel)]) -> (out: Vec<u32>)
    ensures
        out@ == indices_where(visible@, |t: TierLevel| t.solid()),
{
    let ghost keep = |t: TierLevel| t.solid();
    let mut out: Vec<u32> = Vec::new();
    let mut k: usize = 0;
    while k < visible.len()
        invariant
            k <= visible.len(),
            keep == (|t: TierLevel| t.solid()),
            out@ == indices_where(visible@.take(k as int), keep),
        decreases visible.len() - k,
    {
        assert(visible@.take(k + 1).drop_last() =~= visible@.take(k as int));
        let entry: (u32, TierLevel) = visible[k];
        if entry.1.is_solid() {
            out.push(entry.0);
        }
        k = k + 1;
    }
    assert(visible@.take(visible.len() as int) =~= visible@);
    out
}

/// Compute kernel of the cull.
pub const BVH_CULL_MSL: &'static str = r#"
#include <metal_stdlib>
using namespace metal;

// Must match Rust `Camera` layout (column-major).
struct Camera {
    float4x4 view_proj;
    float4   planes[6];
    float2   viewport;
    float    near;
    float    far;
};

// Must match `epoch::bvh::BvhNode` plus the is_leaf / leaf fields added here.
// Padding makes total = 48 bytes (matches spec).
struct BvhNode {
    float3 aabb_min;    // 12
    float  focus_sum;   //  4
    float3 aabb_max;    // 12
    uint   child_start; //  4
    uint   child_count; //  4
    uint   is_leaf;     //  4  (1 → leaf node)
    uint   leaf_start;  //  4  (first particle index)
    uint   leaf_count;  //  4  (particles in leaf)
};                      // 48 bytes total

// Tier thresholds (screen-space diameter in pixels).
constant float S_T0 = 200.0f;
constant float S_T1 =  40.0f;
constant float S_T2 =   8.0f;
constant float S_T3 =   1.0f;

// Test AABB (min, max) against one frustum plane.
// Returns true if ALL 8 corners are on the negative side → node culled.
static bool aabb_outside_plane(float3 aabb_min, float3 aabb_max, float4 plane) {
    // p-vertex: corner maximising dot(normal, corner)
    float3 p;
    p.x = (plane.x >= 0) ? aabb_max.x : aabb_min.x;
    p.y = (plane.y >= 0) ? aabb_max.y : aabb_min.y;
    p.z = (plane.z >= 0) ? aabb_max.z : aabb_min.z;
    return dot(plane.xyz, p) + plane.w < 0.0f;
}

// Test AABB against all 6 frustum planes.
// Returns true if the AABB is fully outside any plane → cull.
static bool aabb_culled(float3 aabb_min, float3 aabb_max, constant Camera &cam) {
    for (int i = 0; i < 6; ++i) {
        if (aabb_outside_plane(aabb_min, aabb_max, cam.planes[i])) return true;
    }
    return false;
}

// Project world-space sphere (center, radius) to screen-space diameter (pixels).
static float screen_diameter(float3 center, float radius, constant Camera &cam) {
    float4 clip = cam.view_proj * float4(center, 1.0f);
    if (clip.w <= 0.0f) return 0.0f;
    // Projected radius estimate: use column[1][1] (fov scale in Y).
    float proj_r = radius * abs(cam.view_proj[1][1]) / clip.w;
    // Convert to pixels (proj_r is in NDC halves, viewport.y is full height).
    return proj_r * cam.viewport.y;
}

static uint diameter_to_tier(float diam) {
    if (diam >= S_T0) return 0;
    if (diam >= S_T1) return 1;
    if (diam >= S_T2) return 2;
    if (diam >= S_T3) return 3;
    return 4; // TInf
}

kernel void bvh_cull(
    device const float  *positions_x   [[buffer(0)]],   // interleaved xyz: 3*n floats
    device const float  *radii         [[buffer(1)]],
    device const BvhNode *bvh          [[buffer(2)]],
    constant Camera     &cam           [[buffer(3)]],
    device atomic_uint  *visible_count [[buffer(4)]],
    device uint2        *visible_out   [[buffer(5)]],    // (particle_idx, tier)
    constant uint       &n_particles   [[buffer(6)]],
    uint                 gid           [[thread_position_in_grid]])
{
    if (gid >= n_particles) return;

    // positions buffer is interleaved xyz.
    device const float *p = positions_x + gid * 3;
    float3 pos   = float3(p[0], p[1], p[2]);
    float  radius = radii[gid];

    // Fast point-cull first (degenerate AABB = point).
    float3 pmin = pos - radius;
    float3 pmax = pos + radius;

    if (aabb_culled(pmin, pmax, cam)) return;

    float  diam = screen_diameter(pos, radius, cam);
    uint   tier = diameter_to_tier(diam);

    uint slot = atomic_fetch_add_explicit(visible_count, 1u, memory_order_relaxed);
    visible_out[slot] = uint2(gid, tier);
}
"#;

} // verus!
