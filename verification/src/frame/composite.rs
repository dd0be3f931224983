//! From the float frame to what is shown.

use vstd::prelude::*;

use crate::scalar::Scalar;

verus! {

/// The pattern of one half, below which a pixel's alpha counts as transparent.
pub const HALF: u32 = 0x3f00_0000;

/// The pattern of one.
pub const ONE: u32 = 0x3f80_0000;

/// The pixel at `i`, with pure black in place of a transparent one.
pub open spec fn on_black(pixels: Seq<Scalar>, i: int, c: int) -> Scalar {
    if pixels[4 * i + 3].less(Scalar { bits: HALF }) {
        if c < 3 {
            Scalar { bits: 0 }
        } else {
            Scalar { bits: ONE }
        }
    } else {
        pixels[4 * i + c]
    }
}

/// Puts pure black behind an RGBA frame: every pixel whose alpha is below one half becomes
/// opaque black.
pub fn fill_black(pixels: &mut Vec<Scalar>)
    requires
        old(pixels).len() % 4 == 0,
    ensures
        final(pixels).len() == old(pixels).len(),
        forall|i: int, c: int|
            0 <= i < old(pixels).len() / 4 && 0 <= c < 4 ==> #[trigger] final(pixels)@[4 * i + c]
                == on_black(old(pixels)@, i, c),
        forall|i: int, c: int|
            0 <= i < old(pixels).len() / 4 && 0 <= c < 4 && old(pixels)[4 * i + 3].less(
                Scalar { bits: 0x3f00_0000 },
            ) ==> #[trigger] final(pixels)@[4 * i + c].bits == if c < 3 {
                0u32
            } else {
                0x3f80_0000
            },
        forall|i: int, c: int|
            0 <= i < old(pixels).len() / 4 && 0 <= c < 4 && !old(pixels)[4 * i + 3].less(
                Scalar { bits: 0x3f00_0000 },
            ) ==> #[trigger] final(pixels)@[4 * i + c] == old(pixels)@[4 * i + c],
{
    let ghost before = pixels@;
    let count: usize = pixels.len() / 4;
    let mut k: usize = 0;
    while k < count
        invariant
            k <= count,
            4 * count <= pixels.len(),
            pixels.len() == before.len(),
            forall|i: int, c: int|
                0 <= i < k && 0 <= c < 4 ==> #[trigger] pixels@[4 * i + c] == on_black(before, i, c),
            forall|j: int| 4 * k <= j < before.len() ==> #[trigger] pixels@[j] == before[j],
        decreases count - k,
    {
        let ghost so_far = pixels@;
        if pixels[4 * k + 3].is_less(Scalar { bits: HALF }) {
            pixels.set(4 * k, Scalar { bits: 0 });
            pixels.set(4 * k + 1, Scalar { bits: 0 });
            pixels.set(4 * k + 2, Scalar { bits: 0 });
            pixels.set(4 * k + 3, Scalar { bits: ONE });
        }
        assert forall|i: int, c: int| 0 <= i < k + 1 && 0 <= c < 4 implies #[trigger] pixels@[4 * i
            + c] == on_black(before, i, c) by {
            if i < k {
                assert(pixels@[4 * i + c] == so_far[4 * i + c]);
            }
        }
        k = k + 1;
    }
}

/// Whether a frame can be written to an image: the image has exactly the viewport's size,
/// and the frame covers it.
pub fn can_composite(image_len: usize, frame_len: usize, viewport: [u32; 2]) -> (r: bool)
    ensures
        r == (image_len == viewport[0] * viewport[1] * 4 && frame_len >= viewport[0] * viewport[1]
            * 4),
{
    let w: u32 = viewport[0];
    let h: u32 = viewport[1];
    proof {
        assert(0 <= w * h <= 0xffff_ffff * 0xffff_ffff) by (nonlinear_arith)
            requires
                0 <= w <= 0xffff_ffff,
                0 <= h <= 0xffff_ffff,
        ;
    }
    let expected: u128 = (w as u128) * (h as u128) * 4;
    image_len as u128 == expected && frame_len as u128 >= expected
}

/// Kernel that packs a float frame into bytes, in Metal's language.
pub const PACK_MSL: &'static str = r#"
#include <metal_stdlib>
using namespace metal;

kernel void pack_rgba8(
    device const float4 *frame   [[buffer(0)]],
    device uint         *dst     [[buffer(1)]],
    constant uint       &n_pix   [[buffer(2)]],
    uint                gid      [[thread_position_in_grid]])
{
    if (gid >= n_pix) return;
    float4 p = frame[gid];
    if (p.w < 0.5f) p = float4(0.0f, 0.0f, 0.0f, 1.0f);
    p = clamp(p, 0.0f, 1.0f);
    dst[gid] = uint(p.x * 255.0f)
             | (uint(p.y * 255.0f) << 8)
             | (uint(p.z * 255.0f) << 16)
             | (255u << 24);
}
"#;

/// The same kernel in WebGPU's language.
pub const PACK_WGSL: &'static str = r#"
@group(0) @binding(0) var<storage, read> frame: array<vec4<f32>>;
@group(0) @binding(1) var<storage, read_write> dst: array<u32>;
@group(0) @binding(2) var<uniform> n_pix: u32;

@compute @workgroup_size(256)
fn pack_rgba8(@builtin(global_invocation_id) gid: vec3<u32>) {
    if (gid.x >= n_pix) { return; }
    var p = frame[gid.x];
    if (p.w < 0.5) { p = vec4<f32>(0.0, 0.0, 0.0, 1.0); }
    p = clamp(p, vec4<f32>(0.0), vec4<f32>(1.0));
    dst[gid.x] = u32(p.x * 255.0)
               | (u32(p.y * 255.0) << 8u)
               | (u32(p.z * 255.0) << 16u)
               | (255u << 24u);
}
"#;

} // verus!
