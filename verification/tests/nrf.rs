//! The background network: grid, weights and pixels.

use mir::nrf::{
    fill_pixels, open_pixels, training_numbers, xavier_numbers, HashGrid, ENTRIES, FEATURES,
    LEVELS, NRF_IN, TRAINING_SAMPLES, TRAINING_STEPS,
};
use mir::random::lcg_stream;
use mir::scalar::Scalar;

fn scalar(v: f32) -> Scalar {
    Scalar { bits: v.to_bits() }
}

fn grid() -> HashGrid<f32> {
    let tables = HashGrid::<f32>::table_numbers()
        .iter()
        .map(|v| (*v as f32) / (u32::MAX as f32) * 0.2 - 0.1)
        .collect();
    let cell_sizes = [250.0, 125.0, 62.5, 31.25];
    HashGrid { tables, cell_sizes }
}

/// The features of a point, interpolated between the corners of its cell.
fn encode(grid: &HashGrid<f32>, xyz: [f32; 3]) -> Vec<f32> {
    let mut out = Vec::new();
    for level in 0..LEVELS {
        let g = xyz.map(|v| v / grid.cell_sizes[level]);
        let i = g.map(|v| v.floor() as i32);
        let t = [g[0] - i[0] as f32, g[1] - i[1] as f32, g[2] - i[2] as f32];
        for feat in 0..FEATURES {
            let mut v = 0.0;
            for (k, corner) in grid.corners(i[0], i[1], i[2], level, feat).iter().enumerate() {
                let wx = if k / 4 == 0 { 1.0 - t[0] } else { t[0] };
                let wy = if (k / 2) % 2 == 0 { 1.0 - t[1] } else { t[1] };
                let wz = if k % 2 == 0 { 1.0 - t[2] } else { t[2] };
                v += wx * wy * wz * corner;
            }
            out.push(v);
        }
    }
    out
}

#[test]
fn hash_grid_encodes_correct_dim() {
    let grid = grid();
    let feat = encode(&grid, [100.0, -200.0, 50.0]);
    assert_eq!(feat.len(), NRF_IN);
    assert!(feat.iter().all(|v| v.is_finite()), "features must be finite");
}

#[test]
fn cells_hash_to_entries() {
    assert_eq!(HashGrid::<f32>::cell_hash(0, 0, 0, 0), 0);
    assert_eq!(HashGrid::<f32>::cell_hash(1, 0, 0, 0), 2654435761 % 512);
    assert_eq!(HashGrid::<f32>::cell_hash(0, 1, 0, 0), 805459861 % 512);
    assert_eq!(HashGrid::<f32>::cell_hash(0, 0, 1, 0), 3674653429 % 512);
    assert_eq!(HashGrid::<f32>::cell_hash(0, 0, 0, 3), (3 * 1234567891u64 % 512) as usize);
    let h = (-5i64 as u64)
        .wrapping_mul(2654435761)
        .wrapping_add((7i64 as u64).wrapping_mul(805459861))
        .wrapping_add((i32::MIN as i64 as u64).wrapping_mul(3674653429))
        .wrapping_add(2 * 1234567891);
    assert_eq!(HashGrid::<f32>::cell_hash(-5, 7, i32::MIN, 2), (h % 512) as usize);
}

#[test]
fn lookups_read_the_cell_of_their_level() {
    let tables: Vec<usize> = (0..LEVELS * ENTRIES * FEATURES).collect();
    let grid = HashGrid { tables, cell_sizes: [0; 4] };
    let e = HashGrid::<usize>::cell_hash(3, -4, 5, 2);
    assert_eq!(grid.lookup(3, -4, 5, 2, 1), 2 * ENTRIES * FEATURES + e * FEATURES + 1);
    let corners = grid.corners(3, -4, 5, 2, 1);
    assert_eq!(corners[0], grid.lookup(3, -4, 5, 2, 1));
    assert_eq!(corners[1], grid.lookup(3, -4, 6, 2, 1));
    assert_eq!(corners[2], grid.lookup(3, -3, 5, 2, 1));
    assert_eq!(corners[4], grid.lookup(4, -4, 5, 2, 1));
    assert_eq!(corners[7], grid.lookup(4, -3, 6, 2, 1));
}

#[test]
fn numbers_come_from_fixed_seeds() {
    assert_eq!(HashGrid::<f32>::table_numbers(), lcg_stream(0xdead_beef_cafe_babe, 4096));
    assert_eq!(xavier_numbers(8, 32, 0xabc1), lcg_stream(0xabc1, 256));
    let samples = training_numbers();
    assert_eq!(samples.len(), TRAINING_STEPS * TRAINING_SAMPLES * 3);
    assert_eq!(samples[..9], lcg_stream(0xfeed_face_cafe_babe, 9)[..]);
}

#[test]
fn only_open_pixels_are_filled() {
    let alphas = [1.0, 0.49, 0.5, f32::NAN];
    let composite: Vec<Scalar> =
        alphas.iter().flat_map(|a| [0.1, 0.2, 0.3, *a].map(scalar)).collect();
    let pixels = open_pixels(&composite, 2, 2);
    assert_eq!(pixels, vec![1, 3]);
    let mut frame: Vec<i32> = (0..16).collect();
    fill_pixels(&mut frame, &pixels, &[[90, 91, 92, 93], [94, 95, 96, 97]]);
    assert_eq!(frame, vec![0, 1, 2, 3, 90, 91, 92, 93, 8, 9, 10, 11, 94, 95, 96, 97]);
}
