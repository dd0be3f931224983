//! T-infinity: background fill for sub-pixel particles.

use vstd::prelude::*;

verus! {

/// Compute kernel: fills pixels that no other tier covers with a tinted background. The
/// colour is a radial gradient from the dominant cluster's colour in the centre to black
/// at the edges, modulated by the heat-kernel scale.
///
/// Buffer layout:
///   0: float4 in/out pixels (RGBA, row-major)
///   1: float4 cluster colour
///   2: float heat-kernel scale
///   3: uint2 viewport (width, height)
pub const TINF_BG_MSL: &'static str = r#"
#include <metal_stdlib>
using namespace metal;

kernel void tinf_background(
    device float4       *pixels        [[buffer(0)]],
    constant float4     &cluster_color [[buffer(1)]],
    constant float      &tau           [[buffer(2)]],
    constant uint2      &viewport      [[buffer(3)]],
    uint2               gid            [[thread_position_in_grid]])
{
    uint W = viewport.x;
    uint H = viewport.y;
    if (gid.x >= W || gid.y >= H) return;

    uint idx = gid.y * W + gid.x;
    float4 px = pixels[idx];

    // Only fill transparent pixels (alpha < 0.5 → not covered by T2/T3).
    if (px.w >= 0.5f) return;

    // Radial gradient from centre: r ∈ [0, 1].
    float2 uv;
    uv.x = (float(gid.x) + 0.5f) / float(W) * 2.0f - 1.0f;
    uv.y = (float(gid.y) + 0.5f) / float(H) * 2.0f - 1.0f;
    float r = min(length(uv), 1.0f);

    // τ drives fog density: larger τ = more diffuse, lighter background.
    float fog_t = clamp(log(tau + 1.0f) / log(101.0f), 0.0f, 1.0f);

    // Centre: cluster tint at 10% brightness. Edge: black.
    float3 centre_col = cluster_color.rgb * (0.08f + 0.12f * fog_t);
    float3 bg = centre_col * (1.0f - r * r);

    // Blend with any partial transparency from T3 splats.
    float src_a = 1.0f - px.w;
    pixels[idx] = float4(bg * src_a + px.rgb * px.w, 1.0f);
}
"#;

/// The buffer covers the viewport: without that, nothing is filled.
pub open spec fn covers_viewport(len: int, w: int, h: int) -> bool {
    len >= w * h * 4
}

/// Whether an RGBA buffer of `len` values covers a viewport.
pub fn is_covering(len: usize, w: u32, h: u32) -> (r: bool)
    ensures
        r == covers_viewport(len as int, w as int, h as int),
{
    proof {
        assert(w * h * 4 <= 0xffff_ffff * 0xffff_ffff * 4) by (nonlinear_arith)
            requires
                0 <= w <= 0xffff_ffff,
                0 <= h <= 0xffff_ffff,
        ;
        assert(w * h <= 0xffff_ffff * 0xffff_ffff) by (nonlinear_arith)
            requires
                0 <= w <= 0xffff_ffff,
                0 <= h <= 0xffff_ffff,
        ;
    }
    (w as u128) * (h as u128) * 4 <= len as u128
}

/// Takes over what the background kernel wrote, as far as both buffers reach.
pub fn take_over<S: Copy>(pixels: &mut Vec<S>, result: &[S])
    ensures
        final(pixels).len() == old(pixels).len(),
        forall|i: int|
            0 <= i < old(pixels).len() ==> #[trigger] final(pixels)@[i] == if i < result.len() {
                result[i]
            } else {
                old(pixels)@[i]
            },
{
    let ghost before = pixels@;
    let count: usize = if pixels.len() < result.len() {
        pixels.len()
    } else {
        result.len()
    };
    let mut k: usize = 0;
    while k < count
        invariant
            k <= count <= result.len(),
            count <= pixels.len(),
            pixels.len() == before.len(),
            forall|i: int|
                0 <= i < pixels.len() ==> #[trigger] pixels@[i] == if i < k {
                    result[i]
                } else {
                    before[i]
                },
        decreases count - k,
    {
        pixels.set(k, result[k]);
        k = k + 1;
    }
}

/// Law: a buffer covers the viewport exactly where it holds all four values of every pixel.
pub proof fn law_covered_pixels_are_held(len: int, w: int, h: int, x: int, y: int)
    requires
        0 <= x < w,
        0 <= y < h,
    ensures
        covers_viewport(len, w, h) ==> 4 * (y * w + x) + 3 < len,
        x == w - 1 && y == h - 1 && 4 * (y * w + x) + 3 < len ==> covers_viewport(len, w, h),
{
    assert(y * w + x <= (h - 1) * w + w - 1) by (nonlinear_arith)
        requires
            0 <= x < w,
            0 <= y < h,
    ;
    assert((h - 1) * w + w == w * h) by (nonlinear_arith);
}

} // verus!
