//! Metadata overlays.

use mir::overlay::{
    apply_overlay, OverlayColor, OverlayPreset, OverlayResult, ParticleMetadata, ParticleShape,
};

fn hsl_to_rgb(h_deg: f32, s: f32, l: f32) -> [f32; 3] {
    let h = h_deg.rem_euclid(360.0);
    let c = (1.0 - (2.0 * l - 1.0).abs()) * s;
    let x = c * (1.0 - ((h / 60.0).rem_euclid(2.0) - 1.0).abs());
    let m = l - c / 2.0;
    let (r, g, b) = match (h / 60.0) as u32 {
        0 => (c, x, 0.0),
        1 => (x, c, 0.0),
        2 => (0.0, c, x),
        3 => (0.0, x, c),
        4 => (x, 0.0, c),
        _ => (c, 0.0, x),
    };
    [(r + m).clamp(0.0, 1.0), (g + m).clamp(0.0, 1.0), (b + m).clamp(0.0, 1.0)]
}

fn color(out: &OverlayResult<f32>) -> [f32; 3] {
    match out.color {
        OverlayColor::Base(c) => c,
        OverlayColor::Domain { hue_degrees, shade } => {
            hsl_to_rgb(hue_degrees as f32, 0.75, 0.4 + shade as f32 * 0.15)
        }
    }
}

fn radius(out: &OverlayResult<f32>) -> f32 {
    out.radius.base * (out.radius.percent as f32 / 100.0)
}

fn meta(t: Option<u8>, d: Option<u8>, s: Option<u8>) -> ParticleMetadata {
    ParticleMetadata { crystal_type: t, crystal_domain: d, crystal_size: s }
}

#[test]
fn none_preset_is_identity() {
    let base = [0.5, 0.3, 0.8];
    let base_radius = 7.5;
    let out = apply_overlay(&OverlayPreset::Schemaless, base, base_radius, None);
    assert_eq!(color(&out), base);
    assert_eq!(radius(&out), base_radius);
    assert_eq!(out.shape, ParticleShape::Sphere);
}

#[test]
fn crystal_type_selects_shape() {
    let m = ParticleMetadata { crystal_type: Some(1), crystal_domain: None, crystal_size: None };
    let out = apply_overlay(&OverlayPreset::CrystalV5, [1.0, 1.0, 1.0], 1.0, Some(&m));
    assert_eq!(out.shape, ParticleShape::Torus);
}

#[test]
fn crystal_size_scales_radius() {
    let meta_small = meta(None, None, Some(0));
    let meta_large = meta(None, None, Some(4));
    let small = apply_overlay(&OverlayPreset::CrystalV5, [1.0, 1.0, 1.0], 1.0, Some(&meta_small));
    let large = apply_overlay(&OverlayPreset::CrystalV5, [1.0, 1.0, 1.0], 1.0, Some(&meta_large));
    assert!(radius(&large) > radius(&small), "large={} small={}", radius(&large), radius(&small));
}

#[test]
fn crystal_domain_produces_valid_color() {
    for domain in 0u8..21 {
        let m = meta(None, Some(domain), None);
        let out = apply_overlay(&OverlayPreset::CrystalV5, [0.5, 0.5, 0.5], 1.0, Some(&m));
        for &c in &color(&out) {
            assert!(c >= 0.0 && c <= 1.0, "domain {} color out of range: {:?}", domain, color(&out));
        }
    }
}

#[test]
fn every_type_has_its_shape() {
    let shapes = [
        ParticleShape::Sphere,
        ParticleShape::Torus,
        ParticleShape::Tetrahedron,
        ParticleShape::Cube,
        ParticleShape::Octahedron,
        ParticleShape::Cylinder,
        ParticleShape::Cylinder,
    ];
    for (t, shape) in shapes.iter().enumerate() {
        let m = meta(Some(t as u8), None, None);
        let out = apply_overlay(&OverlayPreset::CrystalV5, [0; 3], 0, Some(&m));
        assert_eq!(out.shape, *shape);
    }
}

#[test]
fn every_size_has_its_radius() {
    for (size, percent) in [(0, 50), (1, 75), (2, 100), (3, 140), (4, 200), (200, 200)] {
        let m = meta(None, None, Some(size));
        let out = apply_overlay(&OverlayPreset::CrystalV5, [0; 3], 7, Some(&m));
        assert_eq!((out.radius.base, out.radius.percent), (7, percent));
    }
}

#[test]
fn domains_have_different_colours() {
    let mut seen = Vec::new();
    for domain in 0u8..21 {
        let m = meta(None, Some(domain), None);
        match apply_overlay(&OverlayPreset::CrystalV5, [0; 3], 0, Some(&m)).color {
            OverlayColor::Domain { hue_degrees, shade } => {
                assert!(!seen.contains(&(hue_degrees, shade)));
                seen.push((hue_degrees, shade));
            }
            OverlayColor::Base(_) => panic!("the base colour was kept"),
        }
    }
    assert_eq!(seen[0], (0, 0));
    assert_eq!(seen[4], (30, 1));
    assert_eq!(seen[20], (330, 2));
}

#[test]
fn missing_metadata_means_the_defaults() {
    let out = apply_overlay(&OverlayPreset::CrystalV5, [0; 3], 3, None);
    assert!(matches!(out.color, OverlayColor::Domain { hue_degrees: 0, shade: 0 }));
    assert_eq!((out.radius.percent, out.shape), (100, ParticleShape::Sphere));
    assert_eq!(ParticleMetadata::default(), meta(None, None, None));
}

#[test]
fn custom_presets_leave_the_particle_alone() {
    let m = meta(Some(3), Some(5), Some(4));
    let out = apply_overlay(&OverlayPreset::Custom, [1, 2, 3], 9, Some(&m));
    assert!(matches!(out.color, OverlayColor::Base([1, 2, 3])));
    assert_eq!((out.radius.base, out.radius.percent), (9, 100));
    assert_eq!(OverlayPreset::default(), OverlayPreset::Schemaless);
}
