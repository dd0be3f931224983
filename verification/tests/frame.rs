//! Tiers, batches, flow offsets and the finished frame.

use mir::frame::composite::{can_composite, fill_black};
use mir::frame::cull::{
    diameter_to_tier, output_size, particles_at, solid_particles, TierLevel, VisibleSet,
};
use mir::frame::edges::EdgePass;
use mir::frame::paint::blank;
use mir::frame::tiers::t0::{entry_anchor, CameraCommand, T0Pass, T0State};
use mir::frame::tiers::t1::{compute_edge_labels, has_position, EdgeLabel, LabelAnchor, T1Pass};
use mir::frame::tiers::t2::{gather_batch, plan_spheres};
use mir::frame::tiers::t3::plan_splats;
use mir::frame::tiers::tinf::{is_covering, take_over, TINF_BG_MSL};
use mir::scalar::Scalar;

const TRANSITION_SECS: f32 = 0.5;

const TIERS: [TierLevel; 5] =
    [TierLevel::T0, TierLevel::T1, TierLevel::T2, TierLevel::T3, TierLevel::TInf];

fn scalar(v: f32) -> Scalar {
    Scalar { bits: v.to_bits() }
}

fn float(s: Scalar) -> f32 {
    f32::from_bits(s.bits)
}

fn smooth_step(t: f32) -> f32 {
    t * t * (3.0 - 2.0 * t)
}

/// Advances the camera by `dt` seconds.
fn update(pass: &mut T0Pass, dt: f32) -> Option<CameraCommand> {
    let progress = pass.progress().map(float).unwrap_or(0.0) + dt / TRANSITION_SECS;
    pass.update(scalar(progress), scalar(smooth_step(progress.min(1.0))))
}

#[test]
fn approach_completes_to_inside() {
    let mut pass = T0Pass::new();
    pass.enter(0);

    // Simulate enough frames to complete the transition.
    let mut last_cmd = None;
    for _ in 0..100 {
        last_cmd = update(&mut pass, 0.02);
    }

    // Should be Inside after transition completes.
    match pass.state {
        T0State::Inside { particle } => assert_eq!(particle, 0),
        other => panic!("expected Inside, got {:?}", other),
    }
    // Last command while approaching is Approaching.
    // After finishing, update returns Inside.
    match last_cmd {
        Some(CameraCommand::Inside { particle: 0 }) => {}
        Some(other) => panic!("unexpected command: {:?}", other),
        None => panic!("no command"),
    }
}

#[test]
fn exit_returns_to_outside() {
    let mut pass = T0Pass::new();
    pass.state = T0State::Inside { particle: 1 };
    pass.exit();

    for _ in 0..100 {
        update(&mut pass, 0.02);
    }
    assert!(matches!(pass.state, T0State::Outside));
}

#[test]
fn a_transition_reports_its_eased_progress() {
    let mut pass = T0Pass::default();
    pass.enter(3);
    match update(&mut pass, 0.25) {
        Some(CameraCommand::Approaching { particle: 3, t }) => assert_eq!(float(t), 0.5),
        other => panic!("unexpected command: {:?}", other),
    }
    assert_eq!(pass.progress().map(float), Some(0.5));
    // Entering again does not start over; entering another particle does.
    pass.enter(3);
    assert_eq!(pass.progress().map(float), Some(0.5));
    pass.enter(4);
    assert_eq!(pass.progress().map(float), Some(0.0));
    // One does not leave before having arrived.
    pass.exit();
    assert!(matches!(pass.state, T0State::Approaching { target: 4, .. }));
}

#[test]
fn progress_is_told_short_of_completion() {
    // The frame that completes the way in commands the inside.
    let mut pass = T0Pass::new();
    pass.enter(3);
    assert!(matches!(update(&mut pass, 0.5), Some(CameraCommand::Inside { particle: 3 })));
    assert!(matches!(pass.state, T0State::Inside { particle: 3 }));
    // The frame that completes the way out commands nothing.
    pass.exit();
    match update(&mut pass, 0.25) {
        Some(CameraCommand::Exiting { particle: 3, t }) => assert_eq!(float(t), 0.5),
        other => panic!("unexpected command: {:?}", other),
    }
    assert!(update(&mut pass, 0.25).is_none());
    assert!(matches!(pass.state, T0State::Outside));
    // Progress does not fall below zero.
    pass.enter(5);
    pass.update(scalar(-0.5), scalar(0.0));
    assert_eq!(pass.progress().map(float), Some(0.0));
    // Easing that rounds to one, overshoots or fails stays in [0, 1).
    pass.enter(3);
    for (eased, told) in [(1.0, 0.99999994f32), (-0.5, 0.0), (f32::NAN, 0.0), (0.75, 0.75)] {
        match pass.update(scalar(0.9), scalar(eased)) {
            Some(CameraCommand::Approaching { particle: 3, t }) => assert_eq!(float(t), told),
            other => panic!("unexpected command: {:?}", other),
        }
    }
}

#[test]
fn outside_nothing_is_commanded() {
    let mut pass = T0Pass::new();
    assert!(update(&mut pass, 1.0).is_none());
    assert!(pass.progress().is_none());
    pass.exit();
    assert!(matches!(pass.state, T0State::Outside));
}

/// Where the middle of each edge appears on screen.
fn anchors(
    edges: &[(u32, u32)],
    positions: &[f32],
    m: &[[f32; 4]; 4],
    viewport: [f32; 2],
) -> Vec<Option<LabelAnchor<f32>>> {
    edges
        .iter()
        .map(|&(from, to)| {
            if !has_position(from, positions.len()) || !has_position(to, positions.len()) {
                return None;
            }
            let (fb, tb) = (from as usize * 3, to as usize * 3);
            let mid = [
                (positions[fb] + positions[tb]) * 0.5,
                (positions[fb + 1] + positions[tb + 1]) * 0.5,
                (positions[fb + 2] + positions[tb + 2]) * 0.5,
            ];
            let row = |r: usize| m[0][r] * mid[0] + m[1][r] * mid[1] + m[2][r] * mid[2] + m[3][r];
            let cw = row(3);
            if cw <= 0.0 {
                return None;
            }
            let (x, y) = (row(0) / cw, row(1) / cw);
            if !(-1.0..=1.0).contains(&x) || !(-1.0..=1.0).contains(&y) {
                return None;
            }
            Some(LabelAnchor {
                screen_pos: [(x * 0.5 + 0.5) * viewport[0], (1.0 - (y * 0.5 + 0.5)) * viewport[1]],
                depth: row(2) / cw,
            })
        })
        .collect()
}

fn edge_labels(
    edges: &[(u32, u32)],
    positions: &[f32],
    titles: &[String],
    m: &[[f32; 4]; 4],
    viewport: [f32; 2],
) -> Vec<EdgeLabel<f32>> {
    compute_edge_labels(edges, titles, &anchors(edges, positions, m, viewport))
}

#[test]
fn edge_label_projects_midpoint() {
    let edges = vec![(0u32, 1u32)];
    let positions = vec![
        -100.0f32, 0.0, 0.0, // particle 0
        100.0f32, 0.0, 0.0, // particle 1
    ];
    let titles = vec!["alpha".to_string(), "beta".to_string()];
    // Identity view-projection (orthographic).
    let vp: [[f32; 4]; 4] = [
        [0.001, 0.0, 0.0, 0.0],
        [0.0, 0.001, 0.0, 0.0],
        [0.0, 0.0, 1.0, 0.0],
        [0.0, 0.0, 0.0, 1.0],
    ];
    let labels = edge_labels(&edges, &positions, &titles, &vp, [1280.0, 720.0]);
    assert_eq!(labels.len(), 1, "should produce one label");
    // Midpoint is [0, 0, 0] → NDC [0, 0] → screen [640, 360].
    assert!((labels[0].screen_pos[0] - 640.0).abs() < 1.0, "x={}", labels[0].screen_pos[0]);
    assert!((labels[0].screen_pos[1] - 360.0).abs() < 1.0, "y={}", labels[0].screen_pos[1]);
    assert!(labels[0].text.contains("alpha"), "text={}", labels[0].text);
}

#[test]
fn edge_label_behind_camera_excluded() {
    let edges = vec![(0u32, 1u32)];
    let positions = vec![0.0f32, 0.0, 0.0, 0.0, 0.0, 10.0];
    let titles = vec!["a".to_string(), "b".to_string()];
    // Projection that puts everything behind camera (w < 0).
    let vp: [[f32; 4]; 4] = [
        [1.0, 0.0, 0.0, 0.0],
        [0.0, 1.0, 0.0, 0.0],
        [0.0, 0.0, -1.0, 0.0],
        [0.0, 0.0, -1.0, -1.0], // w = -z - 1 < 0 for z=5
    ];
    let labels = edge_labels(&edges, &positions, &titles, &vp, [1280.0, 720.0]);
    assert_eq!(labels.len(), 0, "behind-camera edge should produce no label");
}

#[test]
fn labels_shorten_titles_by_character() {
    let titles = vec!["длинное имя".to_string(), "short".to_string()];
    let anchor = |d: i32| Some(LabelAnchor { screen_pos: [d, d], depth: d });
    let labels = compute_edge_labels(
        &[(0, 1), (1, 0), (1, 9)],
        &titles,
        &[anchor(1), None, anchor(3)],
    );
    let texts: Vec<&str> = labels.iter().map(|l| l.text.as_str()).collect();
    assert_eq!(texts, vec!["длинное →short", "short→?"]);
    assert_eq!((labels[1].screen_pos, labels[1].depth), ([3, 3], 3));
}

#[test]
fn positions_end_where_the_coordinates_end() {
    assert!(has_position(0, 3) && has_position(1, 6));
    assert!(!has_position(0, 2) && !has_position(1, 5) && !has_position(u32::MAX, 1000));
}

#[test]
fn tinf_msl_source_nonempty() {
    assert!(!TINF_BG_MSL.is_empty());
    assert!(TINF_BG_MSL.contains("tinf_background"));
}

#[test]
fn tiers_follow_the_diameter() {
    for (diameter, tier) in [
        (200.0, TierLevel::T0),
        (199.9, TierLevel::T1),
        (40.0, TierLevel::T1),
        (39.9, TierLevel::T2),
        (8.0, TierLevel::T2),
        (7.9, TierLevel::T3),
        (1.0, TierLevel::T3),
        (0.9, TierLevel::TInf),
        (0.0, TierLevel::TInf),
        (f32::NAN, TierLevel::TInf),
    ] {
        assert_eq!(diameter_to_tier(scalar(diameter)), tier, "at {diameter}");
    }
}

#[test]
fn tier_numbers_name_the_tiers() {
    for (k, tier) in TIERS.iter().enumerate() {
        assert_eq!(tier.code(), k as u8);
        assert_eq!(TierLevel::from_code(k as u32), *tier);
    }
    assert_eq!(TierLevel::from_code(77), TierLevel::TInf);
}

#[test]
fn the_answer_of_the_cull_kernel_is_decoded() {
    let pair = |i: u32, t: u32| [i.to_le_bytes(), t.to_le_bytes()].concat();
    let out = [pair(7, 2), pair(300, 0), pair(9, 9)].concat();
    let set = VisibleSet::decode(&2u32.to_le_bytes(), &out);
    assert_eq!(set.entries, vec![(7, TierLevel::T2), (300, TierLevel::T0)]);
    // The counter may run past the output.
    let set = VisibleSet::decode(&1000u32.to_le_bytes(), &out);
    assert_eq!(set.entries.len(), 3);
    assert_eq!(set.entries[2], (9, TierLevel::TInf));
    assert_eq!(output_size(0), 8);
    assert_eq!(output_size(5), 40);
}

#[test]
fn particles_are_picked_by_tier() {
    let visible: Vec<(u32, TierLevel)> =
        TIERS.iter().enumerate().map(|(i, t)| (10 + i as u32, *t)).collect();
    assert_eq!(particles_at(&visible, TierLevel::T2), vec![12]);
    assert_eq!(solid_particles(&visible), vec![10, 11, 12]);
    assert!(TIERS.iter().map(|t| t.is_solid()).eq([true, true, true, false, false]));
    assert_eq!(T1Pass::new().draw_labels(&visible), vec![11]);
}

#[test]
fn batches_gather_the_values_of_their_particles() {
    let (positions, radii, colors) = ([1, 2, 3, 4, 5, 6], [7, 8], [9, 10, 11, 12, 13, 14]);
    let batch = gather_batch(&[1, 0], &positions, &radii, &colors);
    assert_eq!(batch.positions, vec![4, 5, 6, 1, 2, 3]);
    assert_eq!(batch.radii, vec![8, 7]);
    assert_eq!(batch.colors, vec![12, 13, 14, 9, 10, 11]);
    let visible = [(1, TierLevel::T2), (0, TierLevel::T3)];
    assert_eq!(plan_spheres(&visible, &positions, &radii, &colors).unwrap().radii, vec![8]);
    assert!(plan_spheres(&visible[1..], &positions, &radii, &colors).is_none());
    // By index, whatever the cull's order.
    let both = [(1, TierLevel::T2), (0, TierLevel::T2)];
    assert_eq!(plan_spheres(&both, &positions, &radii, &colors).unwrap().radii, vec![7, 8]);
    assert_eq!(plan_splats(&[0], &positions, &radii, &colors).unwrap().radii, vec![7]);
    assert!(plan_splats(&[], &positions, &radii, &colors).is_none());
}

#[test]
fn flow_offsets_follow_the_edges() {
    let floats = |offsets: &[Scalar]| offsets.iter().map(|s| float(*s)).collect::<Vec<f32>>();
    let mut pass = EdgePass::new(2);
    assert_eq!(floats(pass.flow_offsets()), vec![0.0, 0.0]);
    pass.update_flow_uvs(&[0.5, 0.6, 0.7].map(scalar));
    assert_eq!(floats(pass.flow_offsets()), vec![0.5, 0.6]);
    pass.update_flow_uvs(&[0.8].map(scalar));
    assert_eq!(floats(pass.flow_offsets()), vec![0.8, 0.6]);
    pass.resize(3);
    assert_eq!(floats(pass.flow_offsets()), vec![0.8, 0.6, 0.0]);
    pass.resize(1);
    assert_eq!(floats(pass.flow_offsets()), vec![0.8]);
    assert_eq!(floats(&pass.flow_uvs(3)), vec![0.8, 0.0, 0.0]);
}

#[test]
fn flow_offsets_stay_short_of_a_turn() {
    let mut pass = EdgePass::new(6);
    // Wrapping a small step backwards rounds to a whole turn.
    let full = (-1e-9f32).rem_euclid(1.0);
    assert_eq!(full, 1.0);
    pass.update_flow_uvs(&[full, 0.999, -0.25, f32::NAN, f32::INFINITY, -0.0].map(scalar));
    let offsets: Vec<f32> = pass.flow_offsets().iter().map(|s| float(*s)).collect();
    assert_eq!(offsets, vec![0.0, 0.999, 0.0, 0.0, 0.0, 0.0]);
    assert!(offsets.iter().all(|o| (0.0..1.0).contains(o)));
}

#[test]
fn transparent_pixels_turn_black() {
    let mut pixels = [0.2, 0.3, 0.4, 0.49, 0.2, 0.3, 0.4, 0.5, 0.9, 0.9].map(scalar).to_vec();
    fill_black(&mut pixels);
    let floats: Vec<f32> = pixels.iter().map(|p| float(*p)).collect();
    assert_eq!(floats, vec![0.0, 0.0, 0.0, 1.0, 0.2, 0.3, 0.4, 0.5, 0.9, 0.9]);
}

#[test]
fn images_take_frames_of_their_size() {
    assert!(can_composite(24, 24, [2, 3]) && can_composite(24, 30, [2, 3]));
    assert!(!can_composite(24, 23, [2, 3]) && !can_composite(25, 30, [2, 3]));
    assert!(is_covering(24, 2, 3) && !is_covering(23, 2, 3));
}

#[test]
fn backgrounds_are_taken_over_as_far_as_they_reach() {
    let mut pixels = vec![1, 2, 3];
    take_over(&mut pixels, &[9, 8]);
    assert_eq!(pixels, vec![9, 8, 3]);
    take_over(&mut pixels, &[7; 9]);
    assert_eq!(pixels, vec![7; 3]);
    assert_eq!(blank(4), vec![4; 8]);
}

#[test]
fn a_particle_is_entered_where_it_is() {
    assert_eq!(entry_anchor(1, &[1, 2, 3, 4, 5, 6], &[7, 8]), Some(([4, 5, 6], 8)));
    assert_eq!(entry_anchor(1, &[1, 2, 3, 4, 5, 6], &[7]), None);
    assert_eq!(entry_anchor(2, &[1, 2, 3, 4, 5, 6], &[7, 8, 9]), None);
}
