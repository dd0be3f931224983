//! The graph world's decisions.

use mir::bevy::blit::{can_blit, row_bytes, FrameHandoff};
use mir::bevy::camera::{follow_target, nearest, strongest, track_cursor, warp_clock};
use mir::bevy::components::{visible_entities, TierLevel, VisibleParticle};
use mir::bevy::resources::{WarpTarget, WorldGraph};
use mir::bevy::world::{
    frame_size, plan_cull, plan_frame, warp_center, warp_radius, CullInput, CullParts, FrameParts,
    FramePlan, StepTrace,
};
use mir::epoch::bvh::Bvh;
use mir::epoch::EpochState;
use mir::frame::cull;
use mir::graph::adjacency::Csr;
use mir::scalar::Scalar;

fn scalars(values: &[f32]) -> Vec<Scalar> {
    values.iter().map(|v| Scalar { bits: v.to_bits() }).collect()
}

fn epoch(n: usize) -> EpochState<u8> {
    EpochState {
        positions: vec![1; 3 * n],
        radii: vec![2; n],
        colors: vec![3; 3 * n],
        focus: vec![4; n],
        cluster_ids: vec![[0; 4]; n],
        bvh: Bvh { nodes: vec![], cluster_ids: vec![[0; 4]; n] },
        d_inv: vec![5; n],
        scene_scale: 1,
        nrf: None,
    }
}

const ALL: FrameParts = FrameParts {
    device: true,
    positions: true,
    radii: true,
    colors: true,
    adjacency: true,
    frame_bytes: Some(96),
    t3: true,
    t2: true,
    edge_line: true,
};

#[test]
fn visible_particles_become_entities() {
    let entities = visible_entities(&[(7, cull::TierLevel::T2), (3, cull::TierLevel::TInf)]);
    assert_eq!(
        entities,
        vec![(VisibleParticle(7), TierLevel(2)), (VisibleParticle(3), TierLevel(4))]
    );
}

#[test]
fn only_the_newest_frame_is_drawn() {
    let mut handoff = FrameHandoff::default();
    assert_eq!(handoff.latest(), None);
    handoff.publish(1);
    handoff.publish(2);
    assert_eq!(handoff.latest(), Some(&2));
    assert_eq!(handoff.latest(), Some(&2));
}

#[test]
fn frames_fit_textures_of_their_size() {
    assert!(can_blit([640, 480], [640, 480]));
    assert!(!can_blit([640, 480], [640, 481]) && !can_blit([641, 480], [640, 480]));
    assert_eq!(row_bytes(640), 2560);
}

#[test]
fn a_warp_happens_once() {
    let mut target = WarpTarget::default();
    assert_eq!(target.take(), None);
    target.particle_idx = Some(9);
    assert_eq!(target.take(), Some(9));
    assert_eq!(target.take(), None);
}

#[test]
fn an_epoch_is_taken_once() {
    let mut world = WorldGraph::default();
    assert!(!world.swap_epoch_if_ready(None));
    assert!(world.swap_epoch_if_ready(Some(&epoch(2))));
    assert_eq!(world.n_particles, 2);
    assert_eq!((world.focus.clone(), world.d_inv.clone()), (vec![4; 2], vec![5; 2]));
    assert!(!world.swap_epoch_if_ready(Some(&epoch(3))));
    assert_eq!(world.n_particles, 2);
    world.upload_epoch(&epoch(3));
    assert_eq!(world.n_particles, 3);
}

#[test]
fn frames_are_not_too_small() {
    assert_eq!(frame_size(Some([10, 600])), [64, 600]);
    assert_eq!(frame_size(Some([1067, 63])), [1024, 64]);
    assert_eq!(frame_size(Some([0, 0])), [64, 64]);
}

#[test]
fn frames_are_whole_steps_wide_and_within_budget() {
    // The height follows the width, so that the aspect stays.
    assert_eq!(frame_size(Some([800, 600])), [768, 576]);
    assert_eq!(frame_size(Some([1024, 625])), [1024, 625]);
    assert_eq!(frame_size(None), [1024, 575]);
    assert_eq!(frame_size(Some([100_000, 1])), [9984, 64]);
    assert_eq!(frame_size(Some([1, 100_000])), [64, 10_000]);
    assert_eq!(frame_size(Some([u32::MAX, u32::MAX])), [9984, 64]);
    for w in [1, 63, 64, 65, 777, 1920, 10_000] {
        for h in [1, 64, 333, 1080, 10_000] {
            let [x, y] = frame_size(Some([w, h]));
            assert!(x % 64 == 0 && x >= 64 && y >= 64 && x * y <= 640_000);
            assert_eq!(row_bytes(x) % 256, 0);
        }
    }
}

#[test]
fn every_pass_runs_whose_inputs_are_there() {
    let visible = [(0, cull::TierLevel::T3), (1, cull::TierLevel::T2)];
    let full = FramePlan { allocate: None, splats: true, spheres: true, edges: true };
    assert_eq!(plan_frame(&visible, &ALL, [2, 3]), Some(full));
    // The frame buffer has the wrong size, or is missing.
    let resized = Some(FramePlan { allocate: Some(160), ..full });
    assert_eq!(plan_frame(&visible, &ALL, [2, 5]), resized);
    let parts = FrameParts { frame_bytes: None, ..ALL };
    assert_eq!(plan_frame(&visible, &parts, [2, 5]), resized);
    // No spheres are visible.
    let flat = Some(FramePlan { spheres: false, ..full });
    assert_eq!(plan_frame(&visible[..1], &ALL, [2, 3]), flat);
    // Passes and inputs are missing.
    let parts = FrameParts { radii: false, ..ALL };
    let edges = Some(FramePlan { splats: false, spheres: false, ..full });
    assert_eq!(plan_frame(&visible, &parts, [2, 3]), edges);
    let parts = FrameParts { t3: false, edge_line: false, ..ALL };
    let spheres = Some(FramePlan { splats: false, edges: false, ..full });
    assert_eq!(plan_frame(&visible, &parts, [2, 3]), spheres);
}

#[test]
fn some_frames_are_skipped() {
    let visible = [(0, cull::TierLevel::T3)];
    assert_eq!(plan_frame(&[], &ALL, [2, 3]), None);
    assert_eq!(plan_frame(&visible, &FrameParts { positions: false, ..ALL }, [2, 3]), None);
    let parts = FrameParts { device: false, ..ALL };
    assert_eq!(plan_frame(&visible, &parts, [2, 5]), None);
    assert!(plan_frame(&visible, &parts, [2, 3]).is_some());
}

#[test]
fn steps_are_reported_once() {
    let mut trace = StepTrace::new();
    assert!(trace.trace_step("edges"));
    assert!(trace.trace_step("t3.draw"));
    assert!(!trace.trace_step("edges"));
    assert!(!trace.trace_step("t3.draw"));
}

#[test]
fn warps_fall_back_where_a_particle_is_unknown() {
    let positions = [1, 2, 3, 4, 5, 6, 7];
    assert_eq!(warp_center(&positions, 1, 0), [4, 5, 6]);
    assert_eq!(warp_center(&positions, 2, 0), [0, 0, 0]);
    assert_eq!(warp_center(&positions, u32::MAX, 0), [0, 0, 0]);
    assert_eq!((warp_radius(&[8, 9], 1, 10), warp_radius(&[8, 9], 2, 10)), (9, 10));
}

#[test]
fn the_first_of_the_nearest_and_the_last_of_the_strongest() {
    assert_eq!(nearest(&scalars(&[3.0, 1.0, 2.0, 1.0])), Some(1));
    assert_eq!(nearest(&[]), None);
    assert_eq!(strongest(&scalars(&[0.5, 0.9, 0.9, 0.1])), Some(2));
    assert_eq!(strongest(&[]), None);
    // What is not a number is never nearer, and is not weaker.
    assert_eq!(nearest(&scalars(&[3.0, f32::NAN, 2.0])), Some(2));
    assert_eq!(strongest(&scalars(&[3.0, f32::NAN])), Some(1));
}

#[test]
fn the_current_leads_along_the_strongest_edge() {
    let csr = Csr {
        n: 3,
        row_ptr: vec![0, 2, 3, 4],
        col_idx: vec![1, 2, 0, 0],
        values: scalars(&[0.2, 0.8, 0.2, 0.8]),
    };
    assert_eq!(follow_target(true, &scalars(&[1.0, 5.0, 9.0]), &csr), Some(2));
    assert_eq!(follow_target(true, &scalars(&[6.0, 5.0, 9.0]), &csr), Some(0));
    assert_eq!(follow_target(false, &scalars(&[1.0, 5.0, 9.0]), &csr), None);
    let alone = Csr { n: 1, row_ptr: vec![0, 0], col_idx: vec![], values: vec![] };
    assert_eq!(follow_target(true, &scalars(&[1.0]), &alone), None);
    assert_eq!(follow_target(true, &[], &Csr::empty()), None);
    // Particles without a position, and a current that nobody follows.
    assert_eq!(follow_target(true, &scalars(&[1.0]), &csr), Some(2));
    assert_eq!(follow_target(true, &[], &csr), None);
    assert_eq!(follow_target(false, &scalars(&[9.0, 8.0, 7.0, 1.0]), &csr), None);
}

#[test]
fn particles_are_looked_for_when_everything_is_there() {
    let all = CullParts { cull: true, positions: true, radii: true, hierarchy: true, dummy: true };
    assert_eq!(plan_cull(5, &all), Some(CullInput::Hierarchy));
    assert_eq!(plan_cull(5, &CullParts { hierarchy: false, ..all }), Some(CullInput::Dummy));
    assert_eq!(plan_cull(5, &CullParts { hierarchy: false, dummy: false, ..all }), None);
    assert_eq!(plan_cull(0, &all), None);
    assert_eq!(plan_cull(5, &CullParts { cull: false, ..all }), None);
    assert_eq!(plan_cull(5, &CullParts { positions: false, ..all }), None);
    assert_eq!(plan_cull(5, &CullParts { radii: false, ..all }), None);
}

#[test]
fn drags_turn_the_camera_without_gaps() {
    let track = track_cursor(None, true, &[[1, 1], [2, 3]]);
    assert_eq!(track.drags, vec![([1, 1], [2, 3])]);
    assert_eq!(track.last, Some([2, 3]));
    let track = track_cursor(track.last, true, &[[5, 5]]);
    assert_eq!(track.drags, vec![([2, 3], [5, 5])]);
    // No event came: the cursor is forgotten.
    let track = track_cursor(track.last, true, &[]);
    assert_eq!((track.last, track.drags.len()), (None, 0));
    // Nothing is dragged.
    let track = track_cursor(Some([0, 0]), false, &[[9, 9]]);
    assert_eq!((track.last, track.drags.len()), (None, 0));
}

#[test]
fn a_warp_ends_with_its_duration() {
    let s = |v: f32| Scalar { bits: v.to_bits() };
    assert_eq!(warp_clock(s(0.3), s(0.5)), (s(0.3), false));
    assert_eq!(warp_clock(s(0.5), s(0.5)), (s(0.5), true));
    assert_eq!(warp_clock(s(0.7), s(0.5)), (s(0.5), true));
}
