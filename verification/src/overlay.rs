//! Metadata overlays: none, crystal-v5, custom.

use vstd::prelude::*;

verus! {

/// Rendering preset for metadata overlays.
#[derive(Clone, Copy, Debug, PartialEq, Eq, Structural)]
pub enum OverlayPreset {
    /// Pure topology, without metadata.
    Schemaless,
    /// 6 types to shapes, 21 domains to a triad palette, 5 sizes to radii.
    CrystalV5,
    /// Consumer-supplied lookup tables.
    Custom,
}

impl Default for OverlayPreset {
    fn default() -> (r: Self)
        ensures
            r == OverlayPreset::Schemaless,
    {
        OverlayPreset::Schemaless
    }
}

/// Shape of a particle.
#[derive(Clone, Copy, Debug, PartialEq, Eq, Structural)]
pub enum ParticleShape {
    Sphere,
    Torus,
    Tetrahedron,
    Cube,
    Octahedron,
    Cylinder,
}

/// What a consumer knows of a particle.
#[derive(Clone, Copy, Debug, PartialEq, Eq, Structural)]
pub struct ParticleMetadata {
    /// 0 to 5
    pub crystal_type: Option<u8>,
    /// 0 to 20
    pub crystal_domain: Option<u8>,
    /// 0 to 4
    pub crystal_size: Option<u8>,
}

impl Default for ParticleMetadata {
    fn default() -> (r: Self)
        ensures
            r == (ParticleMetadata { crystal_type: None, crystal_domain: None, crystal_size: None }),
    {
        ParticleMetadata { crystal_type: None, crystal_domain: None, crystal_size: None }
    }
}

/// Colour of a particle under an overlay.
#[derive(Debug)]
pub enum OverlayColor<S> {
    /// The colour it had without the overlay.
    Base([S; 3]),
    /// The colour of its domain: the hue of the triad, lighter with each shade.
    Domain { hue_degrees: u32, shade: u32 },
}

/// Radius of a particle under an overlay: `percent` hundredths of `base`.
#[derive(Debug)]
pub struct OverlayRadius<S> {
    pub base: S,
    pub percent: u32,
}

/// What an overlay makes of a particle.
#[derive(Debug)]
pub struct OverlayResult<S> {
    pub color: OverlayColor<S>,
    pub radius: OverlayRadius<S>,
    pub shape: ParticleShape,
}

/// The shape of a crystal type; an unknown type is a cylinder.
pub open spec fn shape_of(crystal_type: u8) -> ParticleShape {
    match crystal_type {
        0 => ParticleShape::Sphere,
        1 => ParticleShape::Torus,
        2 => ParticleShape::Tetrahedron,
        3 => ParticleShape::Cube,
        4 => ParticleShape::Octahedron,
        _ => ParticleShape::Cylinder,
    }
}

/// The hues of the seven triads FORM, MASS, SPACE, LIFE, WORD, WORK and PLAY, in degrees.
pub open spec fn triad_hues() -> Seq<u32> {
    seq![0u32, 30, 120, 150, 210, 270, 330]
}

/// The hue of a domain: three domains to a triad, the last triad taking what is left.
pub open spec fn hue_of(domain: u8) -> u32 {
    let triad = domain as int / 3;
    triad_hues()[if triad < 6 {
        triad
    } else {
        6
    }]
}

/// The radius of a crystal size, in hundredths; an unknown size is the largest.
pub open spec fn percent_of(crystal_size: u8) -> u32 {
    match crystal_size {
        0 => 50,
        1 => 75,
        2 => 100,
        3 => 140,
        _ => 200,
    }
}

/// What `value` is, or else `default`.
pub open spec fn known_or(value: Option<u8>, default: u8) -> u8 {
    match value {
        Some(v) => v,
        None => default,
    }
}

/// Applies an overlay to one particle. Without a preset, or with a custom one, the particle
/// stays as it is; crystal-v5 takes shape, colour and radius from the metadata.
pub fn apply_overlay<S: Copy>(
    preset: &OverlayPreset,
    base_color: [S; 3],
    base_radius: S,
    meta: Option<&ParticleMetadata>,
) -> (out: OverlayResult<S>)
    ensures
        *preset != OverlayPreset::CrystalV5 ==> {
            &&& out.color == OverlayColor::Base(base_color)
            &&& out.radius == (OverlayRadius { base: base_radius, percent: 100 })
            &&& out.shape == ParticleShape::Sphere
        },
        *preset == OverlayPreset::CrystalV5 ==> {
            let m = match meta {
                Some(m) => *m,
                None => ParticleMetadata {
                    crystal_type: None,
                    crystal_domain: None,
                    crystal_size: None,
                },
            };
            let domain = known_or(m.crystal_domain, 0);
            &&& out.color == OverlayColor::<S>::Domain {
                hue_degrees: hue_of(domain),
                shade: (domain % 3) as u32,
            }
            &&& out.radius == (OverlayRadius {
                base: base_radius,
                percent: percent_of(known_or(m.crystal_size, 2)),
            })
            &&& out.shape == shape_of(known_or(m.crystal_type, 0))
        },
        *preset == OverlayPreset::CrystalV5 && meta is None ==> {
            &&& out.color == OverlayColor::<S>::Domain { hue_degrees: 0, shade: 0 }
            &&& out.radius == (OverlayRadius { base: base_radius, percent: 100 })
            &&& out.shape == ParticleShape::Sphere
        },
{
    match preset {
        OverlayPreset::CrystalV5 => apply_crystal_v5(base_radius, meta),
        _ => OverlayResult {
            color: OverlayColor::Base(base_color),
            radius: OverlayRadius { base: base_radius, percent: 100 },
            shape: ParticleShape::Sphere,
        },
    }
}

fn apply_crystal_v5<S: Copy>(base_radius: S, meta: Option<&ParticleMetadata>) -> (out: OverlayResult<
    S,
>)
    ensures
        ({
            let m = match meta {
                Some(m) => *m,
                None => ParticleMetadata {
                    crystal_type: None,
                    crystal_domain: None,
                    crystal_size: None,
                },
            };
            let domain = known_or(m.crystal_domain, 0);
            &&& out.color == OverlayColor::<S>::Domain {
                hue_degrees: hue_of(domain),
                shade: (domain % 3) as u32,
            }
            &&& out.radius == (OverlayRadius {
                base: base_radius,
                percent: percent_of(known_or(m.crystal_size, 2)),
            })
            &&& out.shape == shape_of(known_or(m.crystal_type, 0))
        }),
{
    let m: ParticleMetadata = match meta {
        Some(m) => *m,
        None => ParticleMetadata { crystal_type: None, crystal_domain: None, crystal_size: None },
    };
    let shape = match m.crystal_type.unwrap_or(0) {
        0 => ParticleShape::Sphere,
        1 => ParticleShape::Torus,
        2 => ParticleShape::Tetrahedron,
        3 => ParticleShape::Cube,
        4 => ParticleShape::Octahedron,
        _ => ParticleShape::Cylinder,
    };
    let domain: u8 = m.crystal_domain.unwrap_or(0);
    let hue_degrees: u32 = match domain / 3 {
        0 => 0,
        1 => 30,
        2 => 120,
        3 => 150,
        4 => 210,
        5 => 270,
        _ => 330,
    };
    let percent: u32 = match m.crystal_size.unwrap_or(2) {
        0 => 50,
        1 => 75,
        2 => 100,
        3 => 140,
        _ => 200,
    };
    OverlayResult {
        color: OverlayColor::Domain { hue_degrees, shade: (domain % 3) as u32 },
        radius: OverlayRadius { base: base_radius, percent },
        shape,
    }
}

/// Law: a larger crystal size never makes a particle smaller.
pub proof fn law_sizes_ascend(a: u8, b: u8)
    requires
        a <= b,
    ensures
        percent_of(a) <= percent_of(b),
{
}

/// Law: the 21 domains have 21 different colours.
pub proof fn law_domains_differ(a: u8, b: u8)
    requires
        a < 21,
        b < 21,
        a != b,
    ensures
        hue_of(a) != hue_of(b) || a % 3 != b % 3,
{
}

/// Law: each of the six types has a shape of its own, and every type from 5 on is a cylinder.
pub proof fn law_types_have_their_shapes(t: u8, other: u8)
    ensures
        shape_of(t) == ParticleShape::Sphere <==> t == 0,
        shape_of(t) == ParticleShape::Torus <==> t == 1,
        shape_of(t) == ParticleShape::Tetrahedron <==> t == 2,
        shape_of(t) == ParticleShape::Cube <==> t == 3,
        shape_of(t) == ParticleShape::Octahedron <==> t == 4,
        shape_of(t) == ParticleShape::Cylinder <==> 5 <= t,
        t < other && t < 5 ==> shape_of(t) != shape_of(other),
{
}

/// Law: the three domains of a triad share its hue, triads differ in hue and ascend with it,
/// and every domain from 18 on belongs to the last triad.
pub proof fn law_triads_have_their_hues(a: u8, b: u8)
    requires
        a <= b,
    ensures
        hue_of(a) <= hue_of(b) < 360,
        a < 21 && b < 21 ==> (hue_of(a) == hue_of(b) <==> a / 3 == b / 3),
        18 <= a ==> hue_of(a) == 330,
        hue_of(a) == 0 <==> a < 3,
        hue_of(a) == 30 <==> 3 <= a < 6,
        hue_of(a) == 120 <==> 6 <= a < 9,
        hue_of(a) == 150 <==> 9 <= a < 12,
        hue_of(a) == 210 <==> 12 <= a < 15,
        hue_of(a) == 270 <==> 15 <= a < 18,
{
}

/// Law: each size up to the largest is larger than the one before it; the third leaves the
/// radius as it is, the smallest halves it and the largest doubles it.
pub proof fn law_sizes_have_their_radii(a: u8, b: u8)
    requires
        a < b,
    ensures
        a < 4 ==> percent_of(a) < percent_of(b),
        4 <= a ==> percent_of(a) == 200,
        percent_of(a) == 50 <==> a == 0,
        percent_of(a) == 75 <==> a == 1,
        percent_of(a) == 100 <==> a == 2,
        percent_of(a) == 140 <==> a == 3,
{
}

/// Law: what is not known of a particle counts as the first type, the first domain and the
/// middle size, and what is known counts as it is.
pub proof fn law_unknown_means_the_default(value: Option<u8>, default: u8)
    ensures
        value is None ==> known_or(value, default) == default,
        value is Some ==> known_or(value, default) == value.unwrap(),
{
}

} // verus!
