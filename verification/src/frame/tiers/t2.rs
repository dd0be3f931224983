//! T2: sphere impostors.

use vstd::prelude::*;

use crate::frame::cull::{particles_at, sort_by_index, TierLevel};

verus! {

/// The particles of one draw call, gathered: positions, radii and colours one after the
/// other.
pub struct Batch<S> {
    pub positions: Vec<S>,
    pub radii: Vec<S>,
    pub colors: Vec<S>,
}

/// `batch` holds the particles `idxs`.
pub open spec fn is_gathered<S>(
    idxs: Seq<u32>,
    positions: Seq<S>,
    radii: Seq<S>,
    colors: Seq<S>,
    batch: &Batch<S>,
) -> bool {
    &&& batch.positions.len() == 3 * idxs.len()
    &&& batch.radii.len() == idxs.len()
    &&& batch.colors.len() == 3 * idxs.len()
    &&& forall|k: int| 0 <= k < idxs.len() ==> #[trigger] batch.radii@[k] == radii[idxs[k] as int]
    &&& forall|k: int, c: int|
        0 <= k < idxs.len() && 0 <= c < 3 ==> #[trigger] batch.positions@[3 * k + c] == positions[3
            * idxs[k] + c]
    &&& forall|k: int, c: int|
        0 <= k < idxs.len() && 0 <= c < 3 ==> #[trigger] batch.colors@[3 * k + c] == colors[3
            * idxs[k] + c]
}

/// Gathers the particles `idxs`.
pub fn gather_batch<S: Copy>(idxs: &[u32], positions: &[S], radii: &[S], colors: &[S]) -> (batch:
    Batch<S>)
    requires
        forall|k: int|
            0 <= k < idxs.len() ==> crate::frame::paint::is_drawable(
                #[trigger] idxs[k] as int,
                positions@,
                radii@,
                colors@,
            ),
    ensures
        is_gathered(idxs@, positions@, radii@, colors@, &batch),
{
    let mut batch = Batch { positions: Vec::new(), radii: Vec::new(), colors: Vec::new() };
    let mut k: usize = 0;
    while k < idxs.len()
        invariant
            k <= idxs.len(),
            forall|j: int|
                0 <= j < idxs.len() ==> crate::frame::paint::is_drawable(
                    #[trigger] idxs[j] as int,
                    positions@,
                    radii@,
                    colors@,
                ),
            is_gathered(idxs@.take(k as int), positions@, radii@, colors@, &batch),
        decreases idxs.len() - k,
    {
        let idx: u32 = idxs[k];
        let ghost seen = idxs@.take(k as int);
        let ghost now = idxs@.take(k + 1);
        assert(3 * idx + 2 < positions.len());
        let base: usize = idx as usize * 3;
        let ghost before = batch;
        batch.positions.push(positions[base]);
        batch.positions.push(positions[base + 1]);
        batch.positions.push(positions[base + 2]);
        batch.radii.push(radii[idx as usize]);
        batch.colors.push(colors[base]);
        batch.colors.push(colors[base + 1]);
        batch.colors.push(colors[base + 2]);
        proof {
            assert forall|j: int, c: int| 0 <= j < now.len() && 0 <= c < 3 implies #[trigger] batch.positions@[3
                * j + c] == positions@[3 * now[j] + c] by {
                if j < k {
                    assert(before.positions@[3 * j + c] == positions@[3 * seen[j] + c]);
                }
            }
            assert forall|j: int, c: int| 0 <= j < now.len() && 0 <= c < 3 implies #[trigger] batch.colors@[3
                * j + c] == colors@[3 * now[j] + c] by {
                if j < k {
                    assert(before.colors@[3 * j + c] == colors@[3 * seen[j] + c]);
                }
            }
            assert forall|j: int| 0 <= j < now.len() implies #[trigger] batch.radii@[j]
                == radii@[now[j] as int] by {
                if j < k {
                    assert(before.radii@[j] == radii@[seen[j] as int]);
                }
            }
        }
        k = k + 1;
    }
    assert(idxs@.take(idxs.len() as int) =~= idxs@);
    batch
}

/// The visible particles at T2, by index. Of two spheres that a ray hits at the same distance
/// the kernel keeps the first, so the cull's order must not decide which that is.
pub open spec fn spheres_at(visible: Seq<(u32, TierLevel)>) -> Seq<u32> {
    crate::frame::cull::by_index(
        crate::frame::cull::indices_where(visible, |t: TierLevel| t == TierLevel::T2),
    )
}

/// The visible particles at T2, gathered by index; none when there are none, and the frame is
/// then blank. The kernel counts them in 32 bits.
pub fn plan_spheres<S: Copy>(
    visible: &[(u32, TierLevel)],
    positions: &[S],
    radii: &[S],
    colors: &[S],
) -> (plan: Option<Batch<S>>)
    requires
        forall|k: int|
            0 <= k < visible.len() ==> crate::frame::paint::is_drawable(
                (#[trigger] visible[k]).0 as int,
                positions@,
                radii@,
                colors@,
            ),
        spheres_at(visible@).len() <= u32::MAX,
    ensures
        plan is None <==> spheres_at(visible@).len() == 0,
        plan matches Some(batch) ==> is_gathered(
            spheres_at(visible@),
            positions@,
            radii@,
            colors@,
            &batch,
        ),
{
    let listed = particles_at(visible, TierLevel::T2);
    let idxs = sort_by_index(listed.as_slice());
    if idxs.len() == 0 {
        return None;
    }
    proof {
        crate::frame::cull::lemma_kept_is_visible(visible@, |t: TierLevel| t == TierLevel::T2);
        crate::frame::cull::lemma_by_index(listed@);
        assert forall|m: int| 0 <= m < idxs.len() implies crate::frame::paint::is_drawable(
            #[trigger] idxs@[m] as int,
            positions@,
            radii@,
            colors@,
        ) by {
            assert(idxs@.contains(idxs@[m]));
            let i = choose|i: int| 0 <= i < listed.len() && listed@[i] == idxs@[m];
            assert(listed@[i] == idxs@[m]);
            let k = choose|k: int|
                0 <= k < visible.len() && (#[trigger] visible@[k]).0 == listed@[i];
            assert(visible@[k].0 == idxs@[m]);
        }
    }
    Some(gather_batch(idxs.as_slice(), positions, radii, colors))
}

/// Law: the spheres are exactly the particles visible at T2, by index.
pub proof fn law_spheres_are_those_at_t2(visible: Seq<(u32, TierLevel)>, idx: u32)
    ensures
        spheres_at(visible).contains(idx) <==> visible.contains((idx, TierLevel::T2)),
        forall|i: int, j: int|
            0 <= i < j < spheres_at(visible).len() ==> #[trigger] spheres_at(visible)[i]
                <= #[trigger] spheres_at(visible)[j],
{
    let keep = |t: TierLevel| t == TierLevel::T2;
    crate::frame::cull::lemma_by_index(crate::frame::cull::indices_where(visible, keep));
    lemma_listed_at_t2(visible, idx);
    let leq = |a: u32, b: u32| a <= b;
    let spheres = spheres_at(visible);
    assert forall|i: int, j: int| 0 <= i < j < spheres.len() implies #[trigger] spheres[i]
        <= #[trigger] spheres[j] by {
        assert(leq(spheres[i], spheres[j]));
    }
}

proof fn lemma_listed_at_t2(visible: Seq<(u32, TierLevel)>, idx: u32)
    ensures
        crate::frame::cull::indices_where(visible, |t: TierLevel| t == TierLevel::T2).contains(idx)
            <==> visible.contains((idx, TierLevel::T2)),
    decreases visible.len(),
{
    let keep = |t: TierLevel| t == TierLevel::T2;
    if visible.len() > 0 {
        let before = visible.drop_last();
        let last = visible.last();
        lemma_listed_at_t2(before, idx);
        let listed = crate::frame::cull::indices_where(visible, keep);
        let listed_before = crate::frame::cull::indices_where(before, keep);
        assert(visible =~= before.push(last));
        assert(visible.contains((idx, TierLevel::T2)) <==> before.contains((idx, TierLevel::T2))
            || last == (idx, TierLevel::T2)) by {
            vstd::seq_lib::lemma_seq_contains_after_push(before, last, (idx, TierLevel::T2));
        }
        if keep(last.1) {
            assert(listed == listed_before.push(last.0));
            vstd::seq_lib::lemma_seq_contains_after_push(listed_before, last.0, idx);
        }
    }
}

/// Law: the spheres do not depend on the order in which the cull lists the particles.
pub proof fn law_spheres_ignore_cull_order(
    first: Seq<(u32, TierLevel)>,
    second: Seq<(u32, TierLevel)>,
)
    requires
        first.to_multiset() == second.to_multiset(),
    ensures
        spheres_at(first) == spheres_at(second),
{
    let keep = |t: TierLevel| t == TierLevel::T2;
    crate::frame::cull::lemma_kept_multiset(first, second, keep);
    crate::frame::cull::lemma_by_index_unique(
        crate::frame::cull::indices_where(first, keep),
        crate::frame::cull::indices_where(second, keep),
    );
}

/// The impostor kernel, in Metal's language.
pub const IMPOSTOR_MSL: &'static str = r#"
#include <metal_stdlib>
using namespace metal;

// Must match Rust `Camera`.
struct Camera {
    float4x4 view_proj;
    float4   planes[6];
    float2   viewport;
    float    near;
    float    far;
};

// Reconstruct view-space ray direction for pixel (u,v) in NDC.
static float3 ray_dir_view(float2 ndc, float4x4 inv_proj) {
    float4 clip = float4(ndc, -1.0f, 1.0f);
    float4 view = inv_proj * clip;
    return normalize(view.xyz / view.w);
}

// Simple 4×4 matrix inversion for projection matrix (column-major).
// Only correct for perspective projection (column 2 and 3 pattern).
static float4x4 inverse_proj(float4x4 m) {
    // For a typical perspective matrix the inverse is analytic.
    // General path: adjugate / determinant.
    float a = m[0][0], b = m[1][1];
    float c = m[2][2], d = m[2][3];
    float e = m[3][2];
    float4x4 inv = float4x4(0);
    inv[0][0] = 1.0f / a;
    inv[1][1] = 1.0f / b;
    inv[2][3] = 1.0f / e;
    inv[3][2] = 1.0f / d;
    inv[3][3] = -c / (d * e);
    return inv;
}

// Ray–sphere intersection.  Ray: origin O + t*D.  Sphere: center C, radius r.
// Returns t of nearest positive hit, or -1 if no hit.
static float intersect_sphere(float3 O, float3 D, float3 C, float r) {
    float3 oc = O - C;
    float  a  = dot(D, D);
    float  hb = dot(D, oc);
    float  cc = dot(oc, oc) - r * r;
    float  disc = hb * hb - a * cc;
    if (disc < 0.0f) return -1.0f;
    float sq = sqrt(disc);
    float t0 = (-hb - sq) / a;
    if (t0 > 0.0f) return t0;
    float t1 = (-hb + sq) / a;
    return (t1 > 0.0f) ? t1 : -1.0f;
}

kernel void sphere_impostor(
    // Particle data for T2-visible particles (pre-gathered, compact).
    device const float  *positions  [[buffer(0)]],  // n*3 f32 xyz
    device const float  *radii      [[buffer(1)]],  // n   f32
    device const float  *colors     [[buffer(2)]],  // n*3 f32 rgb
    constant Camera     &cam        [[buffer(3)]],
    constant uint       &n_spheres  [[buffer(4)]],
    constant uint2      &viewport   [[buffer(5)]],  // width, height
    // Output: RGBA f32 pixels, row-major.
    device float4       *out_pixels [[buffer(6)]],
    uint2               gid         [[thread_position_in_grid]])
{
    uint W = viewport.x;
    uint H = viewport.y;
    if (gid.x >= W || gid.y >= H) return;

    // NDC of pixel centre.
    float2 ndc;
    ndc.x =  (float(gid.x) + 0.5f) / float(W) * 2.0f - 1.0f;
    ndc.y = -(float(gid.y) + 0.5f) / float(H) * 2.0f + 1.0f;

    // Reconstruct view-space ray from camera position (origin = 0 in view space).
    // Use inverse of view_proj to reconstruct world-space ray.
    float4 near_h = float4(ndc, 0.0f, 1.0f);
    float4 far_h  = float4(ndc, 1.0f, 1.0f);

    // We do ray–sphere in world space: ray origin is the camera world position.
    // Extract camera origin from the inverse of the view matrix embedded in view_proj.
    // For ortho-correct result: unproject two depths.
    // (Phase-1 approximation: treat view_proj[3] column as camera position negated.)
    float3 cam_origin = float3(-cam.view_proj[3][0],
                                -cam.view_proj[3][1],
                                -cam.view_proj[3][2]);

    // Unproject far point to get ray direction.
    float4x4 vp = cam.view_proj;
    // Row 2 gives clip-Z, row 3 gives clip-W.  Unproject by adjoint.
    // Simple approach: step from near (0,0) to far (0,1) in NDC, unproject both.
    // Because this is a projection matrix we can do it analytically for the direction.
    // Approximate: direction = normalize(inv(view_proj) * (ndc,1,1) - cam_origin).
    // Use the view-proj to bring a far-plane point back to world.
    float4 ws_far = float4(ndc.x, ndc.y, 1.0f, 1.0f);
    // We need the inverse of view_proj.  For Phase-1 we derive from column 3.
    // Fallback: compute approximate ray dir from the projection-matrix columns.
    // For standard perspective: ray = normalize( R^T * (ndc/proj_scale, -1) )
    // where R is the rotation block of the view matrix.
    float fx = cam.view_proj[0][0];  // 2*near/(right-left)
    float fy = cam.view_proj[1][1];  // 2*near/(top-bottom)
    // View-space ray direction (before applying camera rotation).
    float3 ray_view = normalize(float3(ndc.x / fx, ndc.y / fy, -1.0f));

    // Rotate to world space using the upper-left 3×3 of view_proj (it encodes R*S).
    // The view matrix is stored column-major.  Columns 0,1,2 are right, up, -forward.
    float3 right   = float3(cam.view_proj[0][0], cam.view_proj[0][1], cam.view_proj[0][2]);
    float3 up      = float3(cam.view_proj[1][0], cam.view_proj[1][1], cam.view_proj[1][2]);
    float3 forward = float3(cam.view_proj[2][0], cam.view_proj[2][1], cam.view_proj[2][2]);

    float3 ray_world = normalize(
        ray_view.x * right +
        ray_view.y * up    +
        ray_view.z * forward);

    // Find nearest sphere hit.
    float  t_min   = 1e9f;
    float3 hit_n   = float3(0, 0, 1);
    float3 hit_col = float3(0, 0, 0);
    bool   hit_any = false;

    for (uint i = 0; i < n_spheres; ++i) {
        float3 center = float3(positions[i*3], positions[i*3+1], positions[i*3+2]);
        float  r      = radii[i];
        float3 col    = float3(colors[i*3], colors[i*3+1], colors[i*3+2]);

        float t = intersect_sphere(cam_origin, ray_world, center, r);
        if (t > 0.0f && t < t_min) {
            t_min   = t;
            hit_any = true;
            float3 hit_pos = cam_origin + t * ray_world;
            hit_n          = normalize(hit_pos - center);
            hit_col        = col;
        }
    }

    float4 result = float4(0, 0, 0, 0);
    if (hit_any) {
        // Diffuse + rim lighting.
        float3 light = normalize(float3(0.5f, 1.0f, 0.8f));
        float  diff  = max(0.0f, dot(hit_n, light));
        float  rim   = 1.0f - max(0.0f, dot(hit_n, -ray_world));
        rim = pow(rim, 3.0f) * 0.4f;
        float3 shade = hit_col * (0.2f + 0.8f * diff) + rim;
        result = float4(shade, 1.0f);
    }

    out_pixels[gid.y * W + gid.x] = result;
}
"#;

/// The same kernel in WebGPU's language.
pub const IMPOSTOR_WGSL: &'static str = r#"
struct Camera {
    view_proj: mat4x4<f32>,
    planes: array<vec4<f32>, 6>,
    viewport: vec2<f32>,
    near: f32,
    far: f32,
};

@group(0) @binding(0) var<storage, read> positions: array<f32>;
@group(0) @binding(1) var<storage, read> radii: array<f32>;
@group(0) @binding(2) var<storage, read> colors: array<f32>;
@group(0) @binding(3) var<uniform> cam: Camera;
@group(0) @binding(4) var<uniform> n_spheres: u32;
@group(0) @binding(5) var<uniform> viewport: vec2<u32>;
@group(0) @binding(6) var<storage, read_write> out_pixels: array<vec4<f32>>;

fn intersect_sphere(O: vec3<f32>, D: vec3<f32>, C: vec3<f32>, r: f32) -> f32 {
    let oc = O - C;
    let a = dot(D, D);
    let hb = dot(D, oc);
    let cc = dot(oc, oc) - r * r;
    let disc = hb * hb - a * cc;
    if (disc < 0.0) { return -1.0; }
    let sq = sqrt(disc);
    let t0 = (-hb - sq) / a;
    if (t0 > 0.0) { return t0; }
    let t1 = (-hb + sq) / a;
    return select(-1.0, t1, t1 > 0.0);
}

@compute @workgroup_size(16, 16)
fn sphere_impostor(@builtin(global_invocation_id) gid: vec3<u32>) {
    let W = viewport.x;
    let H = viewport.y;
    if (gid.x >= W || gid.y >= H) { return; }

    var ndc: vec2<f32>;
    ndc.x = (f32(gid.x) + 0.5) / f32(W) * 2.0 - 1.0;
    ndc.y = -(f32(gid.y) + 0.5) / f32(H) * 2.0 + 1.0;

    // Phase-1 approximation, same as the MSL: view_proj column 3 negated.
    let cam_origin = vec3<f32>(-cam.view_proj[3][0], -cam.view_proj[3][1], -cam.view_proj[3][2]);

    let fx = cam.view_proj[0][0];
    let fy = cam.view_proj[1][1];
    let ray_view = normalize(vec3<f32>(ndc.x / fx, ndc.y / fy, -1.0));

    let right = vec3<f32>(cam.view_proj[0][0], cam.view_proj[0][1], cam.view_proj[0][2]);
    let up = vec3<f32>(cam.view_proj[1][0], cam.view_proj[1][1], cam.view_proj[1][2]);
    let forward = vec3<f32>(cam.view_proj[2][0], cam.view_proj[2][1], cam.view_proj[2][2]);

    let ray_world = normalize(ray_view.x * right + ray_view.y * up + ray_view.z * forward);

    var t_min = 1e9;
    var hit_n = vec3<f32>(0.0, 0.0, 1.0);
    var hit_col = vec3<f32>(0.0);
    var hit_any = false;

    for (var i = 0u; i < n_spheres; i++) {
        let center = vec3<f32>(positions[i * 3u], positions[i * 3u + 1u], positions[i * 3u + 2u]);
        let r = radii[i];
        let col = vec3<f32>(colors[i * 3u], colors[i * 3u + 1u], colors[i * 3u + 2u]);

        let t = intersect_sphere(cam_origin, ray_world, center, r);
        if (t > 0.0 && t < t_min) {
            t_min = t;
            hit_any = true;
            let hit_pos = cam_origin + t * ray_world;
            hit_n = normalize(hit_pos - center);
            hit_col = col;
        }
    }

    var result = vec4<f32>(0.0);
    if (hit_any) {
        let light = normalize(vec3<f32>(0.5, 1.0, 0.8));
        let diff = max(0.0, dot(hit_n, light));
        var rim = 1.0 - max(0.0, dot(hit_n, -ray_world));
        rim = pow(rim, 3.0) * 0.4;
        let shade = hit_col * (0.2 + 0.8 * diff) + vec3<f32>(rim);
        result = vec4<f32>(shade, 1.0);
    }

    out_pixels[gid.y * W + gid.x] = result;
}
"#;

} // verus!
