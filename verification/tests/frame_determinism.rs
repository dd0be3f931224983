//! The order in which the cull pass returns particles must not reach the image.

use mir::frame::cull::TierLevel;
use mir::frame::edges::visible_edges;
use mir::frame::paint::{edge_segments, plan_paint, sort_by_depth};
use mir::frame::tiers::t3;
use mir::graph::adjacency::Csr;
use mir::scalar::Scalar;

const W: u32 = 320;
const H: u32 = 240;

type Matrix = [[f32; 4]; 4];

fn scalar(v: f32) -> Scalar {
    Scalar { bits: v.to_bits() }
}

fn scene() -> (Vec<f32>, Vec<f32>, Vec<f32>, Vec<(u32, TierLevel)>) {
    let mut positions = Vec::new();
    let mut radii = Vec::new();
    let mut colors = Vec::new();
    let mut visible = Vec::new();
    // A spread of particles at assorted depths, several sharing one exactly —
    // equal depths are where a sort's tie-breaking starts to show.
    for i in 0..12u32 {
        // 3 sits exactly on 2 and 7 exactly on 6, so two pairs share a depth
        // to the last bit. Ties are where a sort's tie-breaking stops being
        // theoretical.
        let a = match i { 3 => 2u32, 7 => 6, other => other } as f32 * 0.7;
        positions.extend_from_slice(&[
            a.cos() * 700.0,
            a.sin() * 500.0,
            (match i { 3 => 2u32, 7 => 6, o => o } % 4) as f32 * 300.0,
        ]);
        radii.push(180.0);
        colors.extend_from_slice(&[0.2, 0.5, 1.0]);
        visible.push((i, if i % 2 == 0 { TierLevel::T2 } else { TierLevel::T3 }));
    }
    (positions, radii, colors, visible)
}

fn mat4_mul(a: &Matrix, b: &Matrix) -> Matrix {
    let mut c = [[0.0f32; 4]; 4];
    for col in 0..4 {
        for row in 0..4 {
            for k in 0..4 {
                c[col][row] += a[k][row] * b[col][k];
            }
        }
    }
    c
}

/// View-projection of a camera 3000 from the origin, looking at it.
fn camera() -> Matrix {
    let (yaw, pitch) = (0.6f32, 0.25f32);
    let (sy, cy) = yaw.sin_cos();
    let (sp, cp) = pitch.sin_cos();
    let f = [cp * sy, sp, -cp * cy];
    let r = [cy, 0.0, sy];
    let u = [
        r[1] * f[2] - r[2] * f[1],
        r[2] * f[0] - r[0] * f[2],
        r[0] * f[1] - r[1] * f[0],
    ];
    let p = [-f[0] * 3000.0, -f[1] * 3000.0, -f[2] * 3000.0];
    let dot = |a: [f32; 3], b: [f32; 3]| a[0] * b[0] + a[1] * b[1] + a[2] * b[2];
    let view = [
        [r[0], u[0], -f[0], 0.0],
        [r[1], u[1], -f[1], 0.0],
        [r[2], u[2], -f[2], 0.0],
        [-dot(r, p), -dot(u, p), dot(f, p), 1.0],
    ];
    let (near, far) = (1.0f32, 100_000.0f32);
    let focal = 1.0 / (std::f32::consts::FRAC_PI_3 * 0.5).tan();
    let range = near - far;
    let proj = [
        [focal / (W as f32 / H as f32), 0.0, 0.0, 0.0],
        [0.0, focal, 0.0, 0.0],
        [0.0, 0.0, (far + near) / range, -1.0],
        [0.0, 0.0, 2.0 * far * near / range, 0.0],
    ];
    mat4_mul(&proj, &view)
}

/// The depth of each particle.
fn depths(positions: &[f32], m: &Matrix) -> Vec<Scalar> {
    positions
        .chunks_exact(3)
        .map(|p| {
            let z = m[0][2] * p[0] + m[1][2] * p[1] + m[2][2] * p[2] + m[3][2];
            let w = m[0][3] * p[0] + m[1][3] * p[1] + m[2][3] * p[2] + m[3][3];
            scalar(if w.abs() < 1e-9 { 0.0 } else { z / w })
        })
        .collect()
}

/// Equal depths must not swap between calls: swapping two alpha-composited
/// particles changes the pixels under them.
#[test]
fn the_depth_sort_breaks_ties_the_same_way_every_time() {
    let (positions, _, _, visible) = scene();
    let depths = depths(&positions, &camera());

    let baseline = sort_by_depth(&visible, &depths);
    let mut reversed = visible.clone();
    reversed.reverse();

    assert_eq!(
        baseline,
        sort_by_depth(&reversed, &depths),
        "the depth sort gives a different answer for the same particles in a \
         different order — so the order the cull happened to return them in \
         reaches the pixels"
    );
}

#[test]
fn the_farthest_particle_is_drawn_first() {
    let depths = [0.5f32, 0.9, 0.5, -1.0, 0.9].map(scalar);
    let visible: Vec<(u32, TierLevel)> = [4, 0, 3, 2, 1].map(|i| (i, TierLevel::T3)).to_vec();
    assert_eq!(sort_by_depth(&visible, &depths), vec![1, 4, 0, 2, 3]);
    assert_eq!(t3::sort_by_depth(&visible, &depths), vec![1, 4, 0, 2, 3]);
    assert_eq!(sort_by_depth(&[], &depths), Vec::<u32>::new());
}

/// A ring of four particles with a chord, as a matrix.
fn ring() -> Csr<u8> {
    Csr {
        n: 4,
        row_ptr: vec![0, 2, 5, 7, 10],
        col_idx: vec![1, 3, 0, 2, 3, 1, 3, 0, 1, 2],
        values: vec![1, 2, 1, 3, 4, 3, 5, 2, 4, 5],
    }
}

#[test]
fn edges_do_not_depend_on_the_order_of_the_particles() {
    let visible: Vec<(u32, TierLevel)> = [0, 1, 3].map(|i| (i, TierLevel::T2)).to_vec();
    let (edges, weights) = visible_edges(&ring(), &visible);
    assert_eq!(edges, vec![(0, 1), (0, 3), (1, 3)]);
    assert_eq!(weights, vec![1, 2, 4]);
    let mut shuffled = visible.clone();
    shuffled.rotate_left(1);
    shuffled.push((0, TierLevel::T3));
    assert_eq!(visible_edges(&ring(), &shuffled), (edges, weights));
}

#[test]
fn only_some_tiers_carry_edges() {
    let tiers = [TierLevel::T1, TierLevel::T2, TierLevel::T0, TierLevel::T3];
    let mut visible: Vec<(u32, TierLevel)> =
        tiers.into_iter().enumerate().map(|(i, t)| (i as u32, t)).collect();
    assert_eq!(visible_edges(&ring(), &visible).0, vec![(0, 1), (0, 3), (1, 3)]);
    visible[1].1 = TierLevel::TInf;
    assert_eq!(visible_edges(&ring(), &visible).0, vec![(0, 3)]);
    // What carries no edges needs no row.
    visible.push((99, TierLevel::TInf));
    assert_eq!(visible_edges(&ring(), &visible).1, vec![2]);
}

#[test]
fn segments_are_clamped_and_leave_hidden_ends_out() {
    let screen = [
        Some([scalar(1.0), scalar(2.0)]),
        None,
        Some([scalar(3.0), scalar(4.0)]),
    ];
    let segs = edge_segments(
        &[(0, 2), (0, 1), (2, 0), (2, 2)],
        &[scalar(9.0), scalar(0.3), scalar(0.3)],
        &screen,
    );
    let floats: Vec<f32> = segs.iter().map(|s| f32::from_bits(s.bits)).collect();
    assert_eq!(
        floats,
        vec![
            1.0, 2.0, 3.0, 4.0, 0.6, 0.05, 0.60, 0.10, //
            3.0, 4.0, 1.0, 2.0, 0.3, 0.05, 0.60, 0.10, //
            3.0, 4.0, 3.0, 4.0, 0.25, 0.05, 0.60, 0.10,
        ]
    );
}

#[test]
fn the_frame_is_laid_out_in_records() {
    let visible = [(1, TierLevel::T2), (0, TierLevel::T3)];
    let positions = [10, 11, 12, 20, 21, 22];
    let colors = [1, 2, 3, 4, 5, 6];
    let plan = plan_paint(&[0, 1], &visible, &positions, &[7, 8], &colors, 24, 0, 99).unwrap();
    assert_eq!(plan.splats, vec![10, 11, 12, 7, 1, 2, 3, 0, 20, 21, 22, 8, 4, 5, 6, 99]);
    assert_eq!(plan.spheres, vec![20, 21, 22, 8, 4, 5, 6, 0]);
    assert_eq!(plan.counts, [2, 1, 3, 0]);
}

#[test]
fn a_frame_without_spheres_or_particles() {
    let plan = plan_paint(&[0], &[(0, TierLevel::T3)], &[1; 3], &[2], &[3; 3], 0, 0, 9).unwrap();
    assert_eq!(plan.spheres, vec![0; 8]);
    assert_eq!(plan.counts, [1, 0, 0, 0]);
    assert!(plan_paint::<u8>(&[], &[], &[], &[], &[], 0, 0, 1).is_none());
}

/// The kernel is handed the same records, whatever order the cull lists the particles in.
#[test]
fn the_plan_does_not_depend_on_the_order_of_the_particles() {
    let (positions, radii, colors, visible) = scene();
    let sorted = sort_by_depth(&visible, &depths(&positions, &camera()));
    let plan = |visible: &[(u32, TierLevel)]| {
        plan_paint(&sorted, visible, &positions, &radii, &colors, 0, 0.0, 1.0).unwrap()
    };
    let baseline = plan(&visible);
    let mut reversed = visible.clone();
    reversed.reverse();
    let mut rotated = visible.clone();
    rotated.rotate_left(5);
    for order in [reversed, rotated] {
        let other = plan(&order);
        assert_eq!(baseline.splats, other.splats);
        assert_eq!(baseline.counts, other.counts);
        assert_eq!(baseline.spheres, other.spheres);
    }
}

/// Of two spheres at one place the kernel keeps the first, so the list goes by index.
#[test]
fn spheres_are_listed_by_index() {
    let positions = [0; 9];
    let colors = [1, 1, 1, 2, 2, 2, 3, 3, 3];
    let visible = [(2, TierLevel::T1), (0, TierLevel::T2), (1, TierLevel::T0)];
    let plan = plan_paint(&[0, 1, 2], &visible, &positions, &[7, 8, 9], &colors, 0, 0, 1).unwrap();
    let radii: Vec<i32> = plan.spheres.chunks_exact(8).map(|r| r[3]).collect();
    assert_eq!(radii, vec![7, 8, 9]);
    assert_eq!(plan.counts, [3, 3, 0, 0]);
}

/// How two particles compare: by depth, then by index; a depth that is not a number ties.
fn compared(depths: &[f32], a: u32, b: u32) -> std::cmp::Ordering {
    depths[b as usize]
        .partial_cmp(&depths[a as usize])
        .unwrap_or(std::cmp::Ordering::Equal)
        .then(a.cmp(&b))
}

/// All lists of five depths, some of them not numbers. Wherever the comparisons do not
/// contradict each other, the order is the one a sort by them gives.
#[test]
fn depths_that_are_no_numbers_tie() {
    let choices = [0.25, 0.5, 0.75, f32::NAN];
    let mut settled = 0;
    for code in 0..4usize.pow(5) {
        let depths: Vec<f32> = (0..5).map(|i| choices[code / 4usize.pow(i) % 4]).collect();
        let less = |a: u32, b: u32| compared(&depths, a, b) == std::cmp::Ordering::Less;
        let consistent = (0..5).all(|a| {
            (0..5).all(|b| (0..5).all(|c| !(less(a, b) && less(b, c)) || less(a, c)))
        });
        // The cull's order is another one.
        let entries: Vec<(u32, TierLevel)> = [3, 0, 4, 1, 2].map(|i| (i, TierLevel::T3)).to_vec();
        let patterns: Vec<Scalar> = depths.iter().map(|d| scalar(*d)).collect();
        let sorted = sort_by_depth(&entries, &patterns);
        let mut members = sorted.clone();
        members.sort_unstable();
        assert_eq!(members, vec![0, 1, 2, 3, 4]);
        if consistent {
            settled += 1;
            let mut expected: Vec<u32> = (0..5).collect();
            expected.sort_by(|a, b| compared(&depths, *a, *b));
            assert_eq!(sorted, expected, "{depths:?}");
        }
        let mut rotated = entries.clone();
        rotated.rotate_left(2);
        assert_eq!(sort_by_depth(&rotated, &patterns), sorted);
    }
    assert!(settled > 243);
    // A particle whose depth is not a number stays where its index puts it.
    let patterns = [0.5, f32::NAN].map(scalar);
    let entries = [(1, TierLevel::T3), (0, TierLevel::T3)];
    assert_eq!(sort_by_depth(&entries, &patterns), vec![0, 1]);
}
