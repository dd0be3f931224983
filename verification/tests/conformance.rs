//! Conformance checks and their report.

use mir::conformance::{
    check_position_stability, check_topo_stability, measure_pos_deviation, run_conformance,
    ConformanceReport, FocusLead,
};
use mir::scalar::Scalar;

fn scalar(v: f32) -> Scalar {
    Scalar { bits: v.to_bits() }
}

fn float(s: Scalar) -> f32 {
    f32::from_bits(s.bits)
}

struct Epoch {
    positions: Vec<f32>,
    focus: Vec<f32>,
    cluster_ids: Vec<[u32; 4]>,
    scene_scale: f32,
}

fn make_epoch(n: usize, cluster_ids: Vec<[u32; 4]>) -> Epoch {
    Epoch {
        positions: vec![0.0f32; n * 3],
        focus: vec![if n > 0 { 1.0f32 / n as f32 } else { 0.0 }; n],
        cluster_ids,
        scene_scale: 1.0,
    }
}

impl Epoch {
    fn scalars(&self) -> Vec<Scalar> {
        self.positions.iter().map(|v| scalar(*v)).collect()
    }

    fn norms(&self) -> Vec<Scalar> {
        self.positions
            .chunks_exact(3)
            .map(|p| scalar((p[0] * p[0] + p[1] * p[1] + p[2] * p[2]).sqrt()))
            .collect()
    }

    fn leads(&self) -> [FocusLead; 4] {
        let mut leads = [FocusLead { head: scalar(0.0), bound: scalar(0.0) }; 4];
        for (level, lead) in leads.iter_mut().enumerate() {
            let count = self.cluster_ids.iter().map(|c| c[level] as usize + 1).max().unwrap_or(0);
            let mut sums = vec![0.0f32; count];
            for (p, ids) in self.cluster_ids.iter().enumerate() {
                sums[ids[level] as usize] += self.focus[p];
            }
            let highest = sums.iter().copied().fold(f32::NEG_INFINITY, f32::max);
            let head = sums.first().copied().unwrap_or(0.0);
            *lead = FocusLead { head: scalar(head), bound: scalar(highest - 1e-5) };
        }
        leads
    }

    fn topo_stability(&self) -> bool {
        check_topo_stability(&self.cluster_ids, &self.leads())
    }

    fn pos_deviation(&self) -> f32 {
        float(measure_pos_deviation(&self.norms()))
    }

    fn position_stability(&self) -> bool {
        let deviation = measure_pos_deviation(&self.norms());
        check_position_stability(&self.scalars(), scalar(self.scene_scale), deviation)
    }
}

#[test]
fn conformance_report_fields_accessible() {
    let r = ConformanceReport {
        p_render_topo: true,
        p_render_pos: true,
        p_render_fps: true,
        p_render_pix: false,
        p_render_tinf: false,
        max_pos_deviation: 0.1f32,
        mean_fps: 120.0f32,
    };
    assert!(r.p_render_topo);
    assert!(r.p_render_pos);
    assert!(r.p_render_fps);
    assert!(!r.p_render_pix);
    assert!(!r.p_render_tinf);
    assert!((r.max_pos_deviation - 0.1).abs() < 1e-6);
    assert_eq!(r.mean_fps, 120.0);
}

#[test]
fn topo_compact_passes() {
    // 4 particles, 2 clusters per level — IDs 0 and 1, no gaps.
    let ids = vec![[0u32, 0, 0, 0], [0u32, 0, 0, 0], [1u32, 1, 1, 1], [1u32, 1, 1, 1]];
    let mut epoch = make_epoch(4, ids);
    // Cluster 0 has particles 0,1 with total focus 0.6; cluster 1 has 0.4.
    epoch.focus = vec![0.3, 0.3, 0.2, 0.2];
    assert!(epoch.topo_stability());
}

#[test]
fn topo_gap_fails() {
    // IDs 0 and 2 present, ID 1 missing → gap.
    let ids = vec![[0u32, 0, 0, 0], [2u32, 2, 2, 2]];
    let epoch = make_epoch(2, ids);
    assert!(!epoch.topo_stability());
}

#[test]
fn topo_empty_passes() {
    let epoch = make_epoch(0, vec![]);
    assert!(epoch.topo_stability());
}

#[test]
fn pos_origin_passes() {
    let epoch = make_epoch(3, vec![[0; 4]; 3]);
    assert!(epoch.position_stability());
    assert_eq!(epoch.pos_deviation(), 0.0);
}

#[test]
fn pos_large_fails() {
    let mut epoch = make_epoch(1, vec![[0; 4]; 1]);
    epoch.positions = vec![2000.0, 0.0, 0.0]; // 2000 > EPSILON_X = 1.0
    assert!(!epoch.position_stability());
    assert!((epoch.pos_deviation() - 2000.0).abs() < 1e-3);
}

#[test]
fn run_conformance_smoke() {
    let epoch = make_epoch(0, vec![]);
    let report = run_conformance(
        &epoch.cluster_ids,
        &epoch.leads(),
        &epoch.scalars(),
        &epoch.norms(),
        scalar(epoch.scene_scale),
    );
    assert!(report.p_render_fps); // always true in unit test
    assert!(report.p_render_topo);
    assert!(report.p_render_pos);
}

#[test]
fn to_toml_format() {
    let report = ConformanceReport {
        p_render_topo: true,
        p_render_pos: true,
        p_render_fps: true,
        p_render_pix: false,
        p_render_tinf: false,
        max_pos_deviation: 0.28f32,
        mean_fps: 120.0f32,
    };
    let toml = report.to_toml(
        &format!("{:.2e}", report.max_pos_deviation / 1000.0),
        report.mean_fps as u32,
    );
    assert!(toml.starts_with("[r1_conformance]"));
    assert!(toml.contains("P_RENDER_TOPO = 1"));
    assert!(toml.contains("P_RENDER_POS  = 1"));
    assert!(toml.contains("P_RENDER_PIX  = 0"));
    assert!(toml.contains("P_RENDER_FPS  = 1"));
    assert!(toml.contains("P_RENDER_TINF = 0"));
}

#[test]
fn the_report_reads_to_the_letter() {
    let report = ConformanceReport {
        p_render_topo: false,
        p_render_pos: true,
        p_render_fps: false,
        p_render_pix: true,
        p_render_tinf: true,
        max_pos_deviation: 0u8,
        mean_fps: 0u8,
    };
    assert_eq!(
        report.to_toml("2.80e-4", 60),
        "[r1_conformance]\n\
         P_RENDER_TOPO = 0\n\
         P_RENDER_POS  = 1   # max deviation 2.80e-4 * R_scene, bound 1e-3\n\
         P_RENDER_PIX  = 1   # CIE ΔE* comparison requires live render\n\
         P_RENDER_FPS  = 0   # 60 FPS (unit-test: always 1)\n\
         P_RENDER_TINF = 1   # T∞ NRF not yet implemented\n"
    );
}

#[test]
fn a_cluster_ahead_of_the_first_fails() {
    let ids = vec![[0u32; 4], [1, 0, 0, 0], [1, 0, 0, 0]];
    let epoch = make_epoch(3, ids);
    assert!(!epoch.topo_stability());
}

#[test]
fn one_scale_out_of_order_is_enough() {
    for level in 0..4 {
        let mut ids = vec![[0u32; 4]; 3];
        ids[1][level] = 2;
        assert!(!make_epoch(3, ids).topo_stability(), "level {level}");
    }
}

#[test]
fn positions_must_be_finite_and_scaled() {
    for bad in [f32::NAN, f32::INFINITY, f32::NEG_INFINITY] {
        let mut epoch = make_epoch(2, vec![[0; 4]; 2]);
        epoch.positions[4] = bad;
        assert!(!epoch.position_stability());
    }
    for scale in [0.0, -1.0, f32::NAN] {
        let mut epoch = make_epoch(1, vec![[0; 4]]);
        epoch.scene_scale = scale;
        assert!(!epoch.position_stability());
    }
    let mut epoch = make_epoch(1, vec![[0; 4]]);
    epoch.positions = vec![0.0, 1001.0, 0.0];
    assert!(epoch.position_stability());
    epoch.positions = vec![0.0, 1001.1, 0.0];
    assert!(!epoch.position_stability());
}

#[test]
fn a_run_reports_every_check() {
    let mut epoch = make_epoch(2, vec![[0; 4]; 2]);
    epoch.positions = vec![3.0, 4.0, 0.0, 2000.0, 0.0, 0.0];
    let report = run_conformance(
        &epoch.cluster_ids,
        &epoch.leads(),
        &epoch.scalars(),
        &epoch.norms(),
        scalar(1.0),
    );
    assert!(report.p_render_topo && report.p_render_fps);
    assert!(!report.p_render_pos && !report.p_render_pix && !report.p_render_tinf);
    assert_eq!(float(report.max_pos_deviation), 2000.0);
    assert_eq!(float(report.mean_fps), 0.0);
}
