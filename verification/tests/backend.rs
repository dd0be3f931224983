//! The reference backend: buffers, rolling, and comparison of epochs.

use mir::backend::{
    Binding, BufferUsage, CpuReferenceBackend, NumericDomain, PipelineLayout, PipelineShaders,
    RenderBackend, ShaderStage,
};
use mir::epoch::bvh::Bvh;
use mir::epoch::EpochState;
use mir::scalar::{Scalar, INFINITY};

fn scalar(v: f32) -> Scalar {
    Scalar { bits: v.to_bits() }
}

fn float(s: Scalar) -> f32 {
    f32::from_bits(s.bits)
}

fn epoch(positions: Vec<f32>, cluster_ids: Vec<[u32; 4]>) -> EpochState<f32> {
    let n = positions.len() / 3;
    EpochState {
        positions,
        radii: vec![1.0; n],
        colors: vec![0.5; 3 * n],
        focus: vec![1.0; n],
        cluster_ids: cluster_ids.clone(),
        bvh: Bvh { nodes: vec![], cluster_ids },
        d_inv: vec![0.0; n],
        scene_scale: 1.0,
        nrf: None,
    }
}

/// Distance between the two positions of each particle.
fn deviations(a: &EpochState<f32>, b: &EpochState<f32>) -> Vec<Scalar> {
    a.positions
        .chunks_exact(3)
        .zip(b.positions.chunks_exact(3))
        .map(|(p, q)| {
            let (dx, dy, dz) = (p[0] - q[0], p[1] - q[1], p[2] - q[2]);
            scalar((dx * dx + dy * dy + dz * dz).sqrt())
        })
        .collect()
}

fn words(values: &[u32]) -> Vec<u8> {
    values.iter().flat_map(|v| v.to_le_bytes()).collect()
}

#[test]
fn cpu_backend_buffer_roundtrip() {
    let mut b = CpuReferenceBackend::new();
    let id = b.buffer_create(16, BufferUsage::Compute);
    let data = vec![1u8, 2, 3, 4, 5, 6, 7, 8];
    b.buffer_write(id, &data, 4);
    let out = b.buffer_read(id, 4, 8);
    assert_eq!(out, data);
}

#[test]
fn cpu_backend_roll_cyclic() {
    let mut b = CpuReferenceBackend::new();
    // 4 floats: [1, 2, 3, 4]. shift=1 → [4, 1, 2, 3].
    let floats = [1.0f32, 2.0, 3.0, 4.0];
    let bytes: Vec<u8> = floats.iter().flat_map(|f| f.to_le_bytes()).collect();
    let id = b.buffer_create(bytes.len(), BufferUsage::Compute);
    b.buffer_write(id, &bytes, 0);
    let out_id = b.roll(id, 1, 0);
    let out_bytes = b.buffer_read(out_id, 0, 16);
    let out_f: Vec<f32> = out_bytes
        .chunks_exact(4)
        .map(|c| f32::from_le_bytes([c[0], c[1], c[2], c[3]]))
        .collect();
    assert!((out_f[0] - 4.0).abs() < 1e-6, "roll[0]={}", out_f[0]);
    assert!((out_f[1] - 1.0).abs() < 1e-6, "roll[1]={}", out_f[1]);
}

#[test]
fn cpu_backend_deterministic() {
    let b = CpuReferenceBackend::new();
    assert!(b.deterministic_mode());
    assert!(matches!(b.numeric_domain(), NumericDomain::Fp64));
}

#[test]
fn verify_positions_self_is_zero_deviation() {
    let b = CpuReferenceBackend::new();
    let epoch = epoch(vec![], vec![]);
    let (ok, dev) = b.verify_positions(&epoch, &epoch, &deviations(&epoch, &epoch), scalar(1e-3 * 1000.0));
    assert!(ok, "self-comparison should pass");
    assert_eq!(float(dev), 0.0);
}

#[test]
fn verify_topology_self_matches() {
    let b = CpuReferenceBackend::new();
    let epoch = epoch(vec![], vec![]);
    assert!(b.verify_topology(&epoch, &epoch));
}

#[test]
fn positions_deviate_by_the_largest_distance() {
    let b = CpuReferenceBackend::new();
    let x = epoch(vec![0.0, 0.0, 0.0, 1.0, 1.0, 1.0], vec![[0; 4]; 2]);
    let y = epoch(vec![0.0, 3.0, 4.0, 1.0, 1.0, 3.0], vec![[0; 4]; 2]);
    let (near, dev) = b.verify_positions(&x, &y, &deviations(&x, &y), scalar(5.0));
    assert!(near);
    assert_eq!(float(dev), 5.0);
    let (near, _) = b.verify_positions(&x, &y, &deviations(&x, &y), scalar(4.5));
    assert!(!near);
}

#[test]
fn epochs_of_different_size_deviate_infinitely() {
    let b = CpuReferenceBackend::default();
    let x = epoch(vec![0.0; 3], vec![[0; 4]]);
    let y = epoch(vec![], vec![]);
    let (near, dev) = b.verify_positions(&x, &y, &[], scalar(1000.0));
    assert!(!near);
    assert_eq!(dev.bits, INFINITY);
    assert!(!b.verify_topology(&x, &y));
}

#[test]
fn topology_differs_at_any_scale() {
    let b = CpuReferenceBackend::new();
    let x = epoch(vec![0.0; 3], vec![[1, 2, 3, 4]]);
    for level in 0..4 {
        let mut ids = [1, 2, 3, 4];
        ids[level] += 1;
        let y = epoch(vec![0.0; 3], vec![ids]);
        assert!(!b.verify_topology(&x, &y), "level {level}");
    }
    assert!(b.verify_topology(&x, &epoch(vec![9.0; 3], vec![[1, 2, 3, 4]])));
}

#[test]
fn new_buffers_hold_zeros_under_fresh_ids() {
    let mut b = CpuReferenceBackend::new();
    let first = b.buffer_create(3, BufferUsage::Vertex);
    let second = b.buffer_create(2, BufferUsage::Readback);
    assert_eq!((first, second), (1, 2));
    assert_eq!(b.buffer_read(first, 0, 3), vec![0, 0, 0]);
    assert_eq!(b.buffer_read(second, 0, 2), vec![0, 0]);
}

#[test]
fn reads_and_writes_are_clipped() {
    let mut b = CpuReferenceBackend::new();
    let id = b.buffer_create(4, BufferUsage::Uniform);
    b.buffer_write(id, &[7, 8, 9], 2);
    assert_eq!(b.buffer_read(id, 0, 10), vec![0, 0, 7, 8]);
    assert_eq!(b.buffer_read(id, 4, 2), Vec::<u8>::new());
    assert_eq!(b.buffer_read(99, 0, 4), Vec::<u8>::new());
}

#[test]
fn a_write_keeps_the_other_buffers() {
    let mut b = CpuReferenceBackend::new();
    let kept = b.buffer_create(2, BufferUsage::Index);
    b.buffer_write(kept, &[5, 6], 0);
    let other = b.buffer_create(2, BufferUsage::Index);
    b.buffer_write(other, &[1, 2], 0);
    assert_eq!(b.buffer_read(kept, 0, 2), vec![5, 6]);
}

#[test]
fn rolling_back_restores_the_words() {
    let mut b = CpuReferenceBackend::new();
    let bytes = words(&[10, 20, 30]);
    let id = b.buffer_create(bytes.len(), BufferUsage::Compute);
    b.buffer_write(id, &bytes, 0);
    let rolled = b.roll(id, -2, 0);
    assert_eq!(b.buffer_read(rolled, 0, 12), words(&[30, 10, 20]));
    let back = b.roll(rolled, 2, 0);
    assert_eq!(b.buffer_read(back, 0, 12), bytes);
}

#[test]
fn rolling_moves_cyclically_past_the_end() {
    let mut b = CpuReferenceBackend::new();
    let bytes = words(&[1, 2, 3, 4]);
    let id = b.buffer_create(bytes.len(), BufferUsage::Compute);
    b.buffer_write(id, &bytes, 0);
    let rolled = b.roll(id, 9, 0);
    assert_eq!(b.buffer_read(rolled, 0, 16), words(&[4, 1, 2, 3]));
}

#[test]
fn device_calls_only_hand_out_ids() {
    let mut b = CpuReferenceBackend::new();
    let shader = b.shader_compile("kernel", ShaderStage::Compute);
    let pipeline = b.pipeline_create(
        &PipelineShaders { vertex: None, fragment: None, compute: Some(shader) },
        &PipelineLayout { bind_groups: 1 },
    );
    let texture = b.surface_acquire();
    assert!(shader != pipeline && pipeline != texture && shader != texture);
    let buffer = b.buffer_create(4, BufferUsage::Compute);
    b.buffer_write(buffer, &[1, 2, 3, 4], 0);
    b.compute_dispatch(shader, &[Binding { buffer, offset: 0, index: 0 }], [1, 1, 1]);
    b.draw_indirect(pipeline, &[], buffer, 1);
    b.surface_present(texture);
    assert_eq!(b.buffer_read(buffer, 0, 4), vec![1, 2, 3, 4]);
}

#[test]
fn rolling_takes_every_shift() {
    let mut b = CpuReferenceBackend::new();
    let id = b.buffer_create(12, BufferUsage::Compute);
    b.buffer_write(id, &words(&[1, 2, 3]), 0);
    // i32::MIN is 1 more than a multiple of three, and i32::MAX as well.
    let rolled = b.roll(id, i32::MIN, 0);
    assert_eq!(b.buffer_read(rolled, 0, 12), words(&[3, 1, 2]));
    let rolled = b.roll(id, i32::MAX, 0);
    assert_eq!(b.buffer_read(rolled, 0, 12), words(&[3, 1, 2]));
    let rolled = b.roll(id, -3, 0);
    assert_eq!(b.buffer_read(rolled, 0, 12), words(&[1, 2, 3]));
}
