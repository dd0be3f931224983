//! Systems of the graph world: what is allocated and drawn in a frame.

use vstd::prelude::*;

use crate::frame::cull::TierLevel;
use crate::text::same_text;

verus! {

/// Smallest width and height of the frame.
pub const SMALLEST: u32 = 64;

/// The frame's width is a multiple of this: a row of four-byte pixels is then a multiple of
/// 256 bytes, as copies to textures ask for.
pub const WIDTH_STEP: u32 = 64;

/// Pixels that the frame may cost.
pub const PIXEL_BUDGET: u32 = 640_000;

/// Greatest width of the frame: the last step at which the smallest height is within budget.
pub const WIDEST: u32 = 9984;

/// Size that is fitted without a window.
pub const DEFAULT_WIDTH: u32 = 1067;

pub const DEFAULT_HEIGHT: u32 = 600;

/// `v`, no lower than `low` and no higher than `high`.
pub open spec fn bounded(v: int, low: int, high: int) -> int {
    if v < low {
        low
    } else if high < v {
        high
    } else {
        v
    }
}

/// The frame's width: whole steps only.
pub open spec fn frame_width(width: int) -> int {
    bounded(width - width % (WIDTH_STEP as int), SMALLEST as int, WIDEST as int)
}

/// The frame's height: it shrinks as the width did, which keeps the aspect, and what is left
/// of the budget bounds it.
pub open spec fn frame_height(width: int, height: int) -> int {
    let w = frame_width(width);
    let kept = if w < width {
        height * w / width
    } else {
        height
    };
    bounded(kept, SMALLEST as int, PIXEL_BUDGET as int / w)
}

/// Fits a size into the frame's limits.
fn fit(width: u32, height: u32) -> (size: [u32; 2])
    ensures
        size[0] == frame_width(width as int),
        size[1] == frame_height(width as int, height as int),
        size[0] % WIDTH_STEP == 0,
        SMALLEST <= size[0],
        SMALLEST <= size[1],
        size[0] * size[1] <= PIXEL_BUDGET,
{
    let steps: u32 = width - width % WIDTH_STEP;
    let w: u32 = if steps < SMALLEST {
        SMALLEST
    } else if WIDEST < steps {
        WIDEST
    } else {
        steps
    };
    proof {
        assert(w == frame_width(width as int));
        assert(w % WIDTH_STEP == 0);
        assert(w < width ==> height * w <= u64::MAX && 0 <= height * w / (width as int) <= height)
            by (nonlinear_arith)
            requires
                w <= 9984,
                height <= u32::MAX,
        ;
    }
    let kept: u32 = if w < width {
        (height as u64 * w as u64 / width as u64) as u32
    } else {
        height
    };
    let most: u32 = PIXEL_BUDGET / w;
    proof {
        assert(64 <= most && w * most <= 640_000) by (nonlinear_arith)
            requires
                64 <= w <= 9984,
                most == 640_000u32 / w,
        ;
    }
    let h: u32 = if kept < SMALLEST {
        SMALLEST
    } else if most < kept {
        most
    } else {
        kept
    };
    assert(w * h <= 640_000) by (nonlinear_arith)
        requires
            0 <= w,
            h <= most,
            w * most <= 640_000,
    ;
    [w, h]
}

/// The frame's size, given the window's size, scaled to the pixel budget in the window's own
/// aspect.
pub fn frame_size(window: Option<[u32; 2]>) -> (size: [u32; 2])
    ensures
        ({
            let wanted: (int, int) = match window {
                Some(scaled) => (scaled[0] as int, scaled[1] as int),
                None => (DEFAULT_WIDTH as int, DEFAULT_HEIGHT as int),
            };
            &&& size[0] == frame_width(wanted.0)
            &&& size[1] == frame_height(wanted.0, wanted.1)
        }),
        size[0] % 64 == 0,
        64 <= size[0],
        64 <= size[1],
        size[0] * size[1] <= 640_000,
        window is None ==> size[0] == 1024 && size[1] == 575,
{
    match window {
        Some(scaled) => fit(scaled[0], scaled[1]),
        None => {
            proof {
                let w = frame_width(1067);
                assert(w == 1024);
                assert(600 * w / 1067 == 575 && 640_000int / w == 625) by (nonlinear_arith)
                    requires
                        w == 1024,
                ;
            }
            fit(DEFAULT_WIDTH, DEFAULT_HEIGHT)
        },
    }
}

/// The hierarchy that the cull pass is handed.
#[derive(Debug, Clone, Copy, PartialEq, Eq, Structural)]
pub enum CullInput {
    /// The epoch's own.
    Hierarchy,
    /// A dummy: the epoch has none on the device.
    Dummy,
}

/// What is there to find the visible particles with.
#[derive(Debug, Clone, Copy)]
pub struct CullParts {
    pub cull: bool,
    pub positions: bool,
    pub radii: bool,
    pub hierarchy: bool,
    pub dummy: bool,
}

/// Decides whether the visible particles are looked for in this frame, and with what.
pub fn plan_cull(n_particles: usize, parts: &CullParts) -> (input: Option<CullInput>)
    ensures
        input == if n_particles == 0 || !parts.cull || !parts.positions || !parts.radii {
            None
        } else if parts.hierarchy {
            Some(CullInput::Hierarchy)
        } else if parts.dummy {
            Some(CullInput::Dummy)
        } else {
            None
        },
{
    if n_particles == 0 || !parts.cull || !parts.positions || !parts.radii {
        None
    } else if parts.hierarchy {
        Some(CullInput::Hierarchy)
    } else if parts.dummy {
        Some(CullInput::Dummy)
    } else {
        None
    }
}

/// What is there to draw a frame with.
#[derive(Debug, Clone, Copy)]
pub struct FrameParts {
    pub device: bool,
    pub positions: bool,
    pub radii: bool,
    pub colors: bool,
    pub adjacency: bool,
    /// size in bytes of the frame buffer, if there is one
    pub frame_bytes: Option<usize>,
    /// the splat pass
    pub t3: bool,
    /// the sphere pass
    pub t2: bool,
    /// the edge pass
    pub edge_line: bool,
}

/// What happens in a frame. The passes run in the order of the fields.
#[derive(Debug, Clone, Copy, PartialEq, Eq, Structural)]
pub struct FramePlan {
    /// size in bytes of the frame buffer to make first; where that fails, nothing is drawn
    pub allocate: Option<usize>,
    /// all visible particles as splats
    pub splats: bool,
    /// the spheres over them
    pub spheres: bool,
    /// the edges between visible particles
    pub edges: bool,
}

/// Bytes of a frame: four floats per pixel.
pub open spec fn frame_bytes(viewport: [u32; 2]) -> int {
    viewport[0] * viewport[1] * 16
}

/// Some particle is to be drawn as a sphere.
pub open spec fn any_sphere(visible: Seq<(u32, TierLevel)>) -> bool {
    exists|k: int| 0 <= k < visible.len() && (#[trigger] visible[k]).1 == TierLevel::T2
}

/// What happens in a frame.
pub open spec fn planned(
    visible: Seq<(u32, TierLevel)>,
    parts: FrameParts,
    viewport: [u32; 2],
) -> Option<FramePlan> {
    let fits = parts.frame_bytes == Some(frame_bytes(viewport) as usize);
    if visible.len() == 0 || !parts.positions || !(fits || parts.device) {
        None
    } else {
        Some(
            FramePlan {
                allocate: if fits {
                    None
                } else {
                    Some(frame_bytes(viewport) as usize)
                },
                splats: parts.t3 && parts.radii && parts.colors,
                spheres: parts.t2 && parts.radii && parts.colors && any_sphere(visible),
                edges: parts.edge_line && parts.adjacency,
            },
        )
    }
}

fn has_sphere(visible: &[(u32, TierLevel)]) -> (r: bool)
    ensures
        r == any_sphere(visible@),
{
    let mut k: usize = 0;
    while k < visible.len()
        invariant
            k <= visible.len(),
            forall|i: int| 0 <= i < k ==> (#[trigger] visible@[i]).1 != TierLevel::T2,
        decreases visible.len() - k,
    {
        if visible[k].1 == TierLevel::T2 {
            assert(visible@[k as int].1 == TierLevel::T2);
            return true;
        }
        k = k + 1;
    }
    false
}

/// Decides what happens in a frame: nothing while nothing is visible or no epoch is on the
/// device; otherwise the frame buffer is made where its size is wrong, and every pass runs
/// whose inputs are there.
pub fn plan_frame(visible: &[(u32, TierLevel)], parts: &FrameParts, viewport: [u32; 2]) -> (plan:
    Option<FramePlan>)
    requires
        frame_bytes(viewport) <= usize::MAX,
    ensures
        plan == planned(visible@, *parts, viewport),
{
    if visible.len() == 0 || !parts.positions {
        return None;
    }
    let w: u32 = viewport[0];
    let h: u32 = viewport[1];
    proof {
        assert(0 <= w * h <= 0xffff_ffff * 0xffff_ffff) by (nonlinear_arith)
            requires
                0 <= w <= 0xffff_ffff,
                0 <= h <= 0xffff_ffff,
        ;
    }
    let bytes: usize = ((w as u128) * (h as u128) * 16) as usize;
    let fits: bool = match parts.frame_bytes {
        Some(size) => size == bytes,
        None => false,
    };
    if !fits && !parts.device {
        return None;
    }
    let allocate: Option<usize> = if fits {
        None
    } else {
        Some(bytes)
    };
    let shaded: bool = parts.radii && parts.colors;
    let spheres: bool = parts.t2 && shaded && has_sphere(visible);
    Some(
        FramePlan {
            allocate,
            splats: parts.t3 && shaded,
            spheres,
            edges: parts.edge_line && parts.adjacency,
        },
    )
}

/// Steps that have been reported; each is reported once.
pub struct StepTrace {
    seen: Vec<String>,
}

impl View for StepTrace {
    type V = Seq<Seq<char>>;

    closed spec fn view(&self) -> Seq<Seq<char>> {
        crate::text::texts(self.seen@)
    }
}

impl StepTrace {
    pub fn new() -> (trace: Self)
        ensures
            trace@.len() == 0,
    {
        StepTrace { seen: Vec::new() }
    }

    /// Takes note of a step. True: it is the first time, and the step has to be reported.
    pub fn trace_step(&mut self, step: &str) -> (first: bool)
        ensures
            first == !old(self)@.contains(step@),
            final(self)@ == if first {
                old(self)@.push(step@)
            } else {
                old(self)@
            },
    {
        let ghost before = self@;
        let mut k: usize = 0;
        while k < self.seen.len()
            invariant
                k <= self.seen.len(),
                self@ == before,
                forall|i: int| 0 <= i < k ==> #[trigger] before[i] != step@,
            decreases self.seen.len() - k,
        {
            if same_text(self.seen[k].as_str(), step) {
                assert(before[k as int] == step@);
                return false;
            }
            k = k + 1;
        }
        self.seen.push(String::from_str(step));
        assert(self@ =~= before.push(step@));
        true
    }
}

/// Law: a step that has been reported is not reported again, whatever comes between.
pub proof fn law_steps_are_reported_once(before: Seq<Seq<char>>, later: Seq<Seq<char>>, step: Seq<char>)
    requires
        before.contains(step),
        before.is_prefix_of(later),
    ensures
        later.contains(step),
{
    let k = choose|k: int| 0 <= k < before.len() && before[k] == step;
    assert(later[k] == step);
}

/// Where particle `idx` is; `zero` in every coordinate where it has no position.
pub fn warp_center<S: Copy>(positions: &[S], idx: u32, zero: S) -> (center: [S; 3])
    ensures
        forall|d: int|
            0 <= d < 3 ==> #[trigger] center[d] == if 3 * idx + 2 < positions.len() {
                positions[3 * idx + d]
            } else {
                zero
            },
{
    if 3 * (idx as u64) + 2 < positions.len() as u64 {
        let base: usize = (3 * (idx as u64)) as usize;
        [positions[base], positions[base + 1], positions[base + 2]]
    } else {
        [zero, zero, zero]
    }
}

/// The radius of particle `idx`; `fallback` where it has none.
pub fn warp_radius<S: Copy>(radii: &[S], idx: u32, fallback: S) -> (radius: S)
    ensures
        radius == if idx < radii.len() {
            radii[idx as int]
        } else {
            fallback
        },
{
    if (idx as u64) < radii.len() as u64 {
        radii[idx as usize]
    } else {
        fallback
    }
}

/// Law: the frame's width is the largest multiple of 64 within the window's, but at least 64 and
/// at most 9984.
pub proof fn law_widths_are_steps(width: int)
    requires
        0 <= width,
    ensures
        frame_width(width) % 64 == 0,
        64 <= frame_width(width) <= 9984,
        64 <= width < 10048 ==> frame_width(width) <= width < frame_width(width) + 64,
        width < 64 ==> frame_width(width) == 64,
        9984 <= width ==> frame_width(width) == 9984,
{
}

/// Law: the frame keeps the window's aspect where its width shrank, and the window's height
/// otherwise, rounded down; only the smallest height and the pixel budget change that.
pub proof fn law_heights_keep_the_aspect(width: int, height: int)
    requires
        0 <= width,
        0 <= height,
    ensures
        ({
            let w = frame_width(width);
            let h = frame_height(width, height);
            &&& 64 <= h
            &&& w * h <= 640_000
            &&& h == 64 || (if w < width {
                h * width <= height * w
            } else {
                h <= height
            })
            &&& 640_000 < w * (h + 1) || (if w < width {
                height * w < (h + 1) * width
            } else {
                height <= h
            })
        }),
{
    law_widths_are_steps(width);
    let w = frame_width(width);
    let most = 640_000int / w;
    let h = frame_height(width, height);
    vstd::arithmetic::div_mod::lemma_fundamental_div_mod(640_000, w);
    vstd::arithmetic::div_mod::lemma_mod_bound(640_000, w);
    assert(64 <= most && w * most <= 640_000 && 640_000 < w * (most + 1)) by (nonlinear_arith)
        requires
            64 <= w <= 9984,
            640_000 == w * most + 640_000int % w,
            0 <= 640_000int % w < w,
    ;
    assert(64 <= h <= most);
    assert(w * h <= w * most) by (nonlinear_arith)
        requires
            0 <= w,
            h <= most,
    ;
    if w < width {
        let kept = height * w / width;
        vstd::arithmetic::div_mod::lemma_fundamental_div_mod(height * w, width);
        vstd::arithmetic::div_mod::lemma_mod_bound(height * w, width);
        assert(kept * width <= height * w < (kept + 1) * width) by (nonlinear_arith)
            requires
                0 < width,
                height * w == width * kept + (height * w) % width,
                0 <= (height * w) % width < width,
        ;
        if h != 64 {
            assert(h * width <= kept * width) by (nonlinear_arith)
                requires
                    0 <= width,
                    h <= kept,
            ;
        }
        if h != most {
            assert((kept + 1) * width <= (h + 1) * width) by (nonlinear_arith)
                requires
                    0 <= width,
                    kept <= h,
            ;
        }
    }
}

/// Law: a frame is drawn exactly where something is visible, the positions are there, and a
/// buffer of sixteen bytes per pixel is there or can be made; one is made only where the one that
/// is there has another size.
pub proof fn law_frames_need_a_buffer(
    visible: Seq<(u32, TierLevel)>,
    parts: FrameParts,
    viewport: [u32; 2],
)
    requires
        viewport[0] * viewport[1] * 16 <= usize::MAX,
    ensures
        ({
            let fits = parts.frame_bytes is Some && parts.frame_bytes.unwrap() == viewport[0]
                * viewport[1] * 16;
            &&& planned(visible, parts, viewport) is Some <==> visible.len() > 0 && parts.positions
                && (fits || parts.device)
            &&& planned(visible, parts, viewport) matches Some(plan) ==> {
                &&& plan.allocate is None <==> fits
                &&& plan.allocate is Some ==> plan.allocate.unwrap() == viewport[0] * viewport[1]
                    * 16
            }
        }),
{
    assert(0 <= viewport[0] * viewport[1]) by (nonlinear_arith)
        requires
            0 <= viewport[0],
            0 <= viewport[1],
    ;
}

/// Law: a pass runs exactly where its kernel and what it reads are there, the spheres only where
/// some visible particle is one.
pub proof fn law_passes_need_their_inputs(
    visible: Seq<(u32, TierLevel)>,
    parts: FrameParts,
    viewport: [u32; 2],
)
    ensures
        planned(visible, parts, viewport) matches Some(plan) ==> {
            &&& plan.splats <==> parts.t3 && parts.radii && parts.colors
            &&& plan.edges <==> parts.edge_line && parts.adjacency
            &&& plan.spheres <==> parts.t2 && parts.radii && parts.colors && exists|k: int|
                0 <= k < visible.len() && (#[trigger] visible[k]).1 == TierLevel::T2
        },
{
}

} // verus!
