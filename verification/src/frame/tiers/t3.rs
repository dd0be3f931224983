//! T3: splats.

use vstd::prelude::*;

use crate::frame::cull::TierLevel;
use crate::frame::tiers::t2::{gather_batch, Batch};
use crate::scalar::Scalar;

verus! {

/// Sorts particles back to front. `depths` holds the depth of each particle of the graph.
pub fn sort_by_depth(entries: &[(u32, TierLevel)], depths: &[Scalar]) -> (sorted: Vec<u32>)
    requires
        forall|k: int| 0 <= k < entries.len() ==> (#[trigger] entries[k]).0 < depths.len(),
    ensures
        crate::frame::paint::is_depth_order(entries@, depths@, sorted@),
        crate::frame::paint::are_comparable(entries@, depths@)
            ==> crate::frame::paint::follows_depths(depths@, sorted@),
{
    crate::frame::paint::sort_by_depth(entries, depths)
}

/// The particles `sorted`, gathered; none when there are none, and nothing is drawn. The
/// kernel counts them in 32 bits.
pub fn plan_splats<S: Copy>(sorted: &[u32], positions: &[S], radii: &[S], colors: &[S]) -> (plan:
    Option<Batch<S>>)
    requires
        forall|k: int|
            0 <= k < sorted.len() ==> crate::frame::paint::is_drawable(
                #[trigger] sorted[k] as int,
                positions@,
                radii@,
                colors@,
            ),
        sorted.len() <= u32::MAX,
    ensures
        plan is None <==> sorted.len() == 0,
        plan matches Some(batch) ==> crate::frame::tiers::t2::is_gathered(
            sorted@,
            positions@,
            radii@,
            colors@,
            &batch,
        ),
{
    if sorted.len() == 0 {
        return None;
    }
    Some(gather_batch(sorted, positions, radii, colors))
}

/// The splat kernel, in Metal's language.
pub const SPLAT_MSL: &'static str = r#"
#include <metal_stdlib>
using namespace metal;

struct Camera {
    float4x4 view_proj;
    float4   planes[6];
    float2   viewport;
    float    near;
    float    far;
};

kernel void gaussian_splat(
    device const float  *sorted_positions [[buffer(0)]],  // n*3 f32 xyz
    device const float  *sorted_radii     [[buffer(1)]],  // n   f32
    device const float  *sorted_colors    [[buffer(2)]],  // n*3 f32 rgb
    constant Camera     &camera           [[buffer(3)]],
    constant uint       &n_splats         [[buffer(4)]],
    constant uint2      &viewport         [[buffer(5)]],
    device float4       *out_pixels      [[buffer(6)]],  // RGBA f32, row-major
    uint2               gid               [[thread_position_in_grid]])
{
    uint W = viewport.x;
    uint H = viewport.y;
    if (gid.x >= W || gid.y >= H) return;

    // Accumulator for front-to-back alpha blending.
    float3 color_acc = float3(0.0f);
    float  alpha_acc = 0.0f;

    float2 pix_f = float2(float(gid.x) + 0.5f, float(gid.y) + 0.5f);

    for (uint i = 0; i < n_splats; ++i) {
        if (alpha_acc >= 0.9999f) break;  // early exit: pixel fully opaque

        float3 center  = float3(sorted_positions[i*3],
                                sorted_positions[i*3+1],
                                sorted_positions[i*3+2]);
        float  r       = sorted_radii[i];
        float3 col     = float3(sorted_colors[i*3],
                                sorted_colors[i*3+1],
                                sorted_colors[i*3+2]);
        float  opacity = 1.0f;

        // Project center to clip space.
        float4 clip = camera.view_proj * float4(center, 1.0f);
        if (clip.w <= 0.0f) continue;

        float2 ndc;
        ndc.x = clip.x / clip.w;
        ndc.y = clip.y / clip.w;

        // NDC → screen pixels.
        float2 screen;
        screen.x = (ndc.x * 0.5f + 0.5f) * float(W);
        screen.y = (1.0f - (ndc.y * 0.5f + 0.5f)) * float(H);

        // Projected radius in pixels.
        float proj_r = r * abs(camera.view_proj[1][1]) / clip.w * float(H) * 0.5f;
        if (proj_r < 0.5f) proj_r = 0.5f;

        float2 delta = pix_f - screen;
        float  dist2 = dot(delta, delta);
        float  sigma2 = proj_r * proj_r * 0.18f;  // tighter splat for crisp dots

        if (dist2 > 9.0f * sigma2) continue;  // skip if > 3σ away

        float  g     = exp(-0.5f * dist2 / sigma2);
        float  alpha = opacity * g;

        // Front-to-back blend: src over dst.
        float3 blend = col * alpha * (1.0f - alpha_acc);
        color_acc += blend;
        alpha_acc += alpha * (1.0f - alpha_acc);
    }

    out_pixels[gid.y * W + gid.x] = float4(color_acc, alpha_acc);
}
"#;

/// The same kernel in WebGPU's language.
pub const SPLAT_WGSL: &'static str = r#"
struct Camera {
    view_proj: mat4x4<f32>,
    planes: array<vec4<f32>, 6>,
    viewport: vec2<f32>,
    near: f32,
    far: f32,
};

@group(0) @binding(0) var<storage, read> sorted_positions: array<f32>;
@group(0) @binding(1) var<storage, read> sorted_radii: array<f32>;
@group(0) @binding(2) var<storage, read> sorted_colors: array<f32>;
@group(0) @binding(3) var<uniform> camera: Camera;
@group(0) @binding(4) var<uniform> n_splats: u32;
@group(0) @binding(5) var<uniform> viewport: vec2<u32>;
@group(0) @binding(6) var<storage, read_write> out_pixels: array<vec4<f32>>;

@compute @workgroup_size(16, 16)
fn gaussian_splat(@builtin(global_invocation_id) gid: vec3<u32>) {
    let W = viewport.x;
    let H = viewport.y;
    if (gid.x >= W || gid.y >= H) { return; }

    var color_acc = vec3<f32>(0.0);
    var alpha_acc = 0.0;

    let pix_f = vec2<f32>(f32(gid.x) + 0.5, f32(gid.y) + 0.5);

    for (var i = 0u; i < n_splats; i++) {
        if (alpha_acc >= 0.9999) { break; }

        let center = vec3<f32>(sorted_positions[i * 3u],
                               sorted_positions[i * 3u + 1u],
                               sorted_positions[i * 3u + 2u]);
        let r = sorted_radii[i];
        let col = vec3<f32>(sorted_colors[i * 3u],
                            sorted_colors[i * 3u + 1u],
                            sorted_colors[i * 3u + 2u]);
        let opacity = 1.0;

        let clip = camera.view_proj * vec4<f32>(center, 1.0);
        if (clip.w <= 0.0) { continue; }

        let ndc = clip.xy / clip.w;
        var screen: vec2<f32>;
        screen.x = (ndc.x * 0.5 + 0.5) * f32(W);
        screen.y = (1.0 - (ndc.y * 0.5 + 0.5)) * f32(H);

        var proj_r = r * abs(camera.view_proj[1][1]) / clip.w * f32(H) * 0.5;
        proj_r = max(proj_r, 0.5);

        let delta = pix_f - screen;
        let dist2 = dot(delta, delta);
        let sigma2 = proj_r * proj_r * 0.18;

        if (dist2 > 9.0 * sigma2) { continue; }

        let g = exp(-0.5 * dist2 / sigma2);
        let alpha = opacity * g;

        color_acc += col * alpha * (1.0 - alpha_acc);
        alpha_acc += alpha * (1.0 - alpha_acc);
    }

    out_pixels[gid.y * W + gid.x] = vec4<f32>(color_acc, alpha_acc);
}
"#;

} // verus!
