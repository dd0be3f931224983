//! The epoch: layout of the graph in space, recomputed in the background.
//!
//! Spectral coordinates, cluster hierarchy and appearance of all particles together make
//! an `EpochState`, which the frame reads until the next one is ready.

pub mod bvh;
pub mod eigensolver;

use vstd::prelude::*;

use crate::epoch::bvh::Bvh;
use crate::epoch::eigensolver::SpectralCoords;
use crate::graph::adjacency::Csr;
use crate::nrf::NrfState;
use crate::scalar::Scalar;

verus! {

/// Everything that an epoch computes.
pub struct EpochState<S> {
    /// three coordinates per particle
    pub positions: Vec<S>,
    /// radius per particle
    pub radii: Vec<S>,
    /// RGB per particle
    pub colors: Vec<S>,
    /// focus per particle
    pub focus: Vec<S>,
    /// cluster per particle at each of the four scales
    pub cluster_ids: Vec<[u32; 4]>,
    /// cluster hierarchy
    pub bvh: Bvh,
    /// diagonal of D^(-1/2), D holding the degrees; one per particle, 0 where the degree is 0
    pub d_inv: Vec<S>,
    /// factor from eigenvector components to scene units
    pub scene_scale: S,
    /// trained background network
    pub nrf: Option<NrfState<S>>,
}

impl<S> EpochState<S> {
    /// Every one of the `n` particles has its values.
    pub open spec fn wf(&self, n: int) -> bool {
        &&& self.positions.len() == 3 * n
        &&& self.radii.len() == n
        &&& self.colors.len() == 3 * n
        &&& self.focus.len() == n
        &&& self.cluster_ids.len() == n
        &&& self.d_inv.len() == n
        &&& self.cluster_ids@ == self.bvh.cluster_ids@
    }

    /// Puts an epoch together; the clusters are those of the hierarchy.
    pub fn assemble(
        coords: SpectralCoords<S>,
        radii: Vec<S>,
        colors: Vec<S>,
        focus: Vec<S>,
        bvh: Bvh,
        d_inv: Vec<S>,
        scene_scale: S,
        nrf: Option<NrfState<S>>,
    ) -> (state: Self)
        requires
            coords.coords.len() == 3 * coords.n,
            radii.len() == coords.n,
            colors.len() == 3 * coords.n,
            focus.len() == coords.n,
            bvh.cluster_ids.len() == coords.n,
            d_inv.len() == coords.n,
        ensures
            state.wf(coords.n as int),
            state.positions == coords.coords,
            state.radii == radii,
            state.colors == colors,
            state.focus == focus,
            state.bvh == bvh,
            state.d_inv == d_inv,
            state.scene_scale == scene_scale,
            state.nrf == nrf,
    {
        let cluster_ids = copy_ids(&bvh.cluster_ids);
        EpochState {
            positions: coords.coords,
            radii,
            colors,
            focus,
            cluster_ids,
            bvh,
            d_inv,
            scene_scale,
            nrf,
        }
    }
}

fn copy_ids(ids: &Vec<[u32; 4]>) -> (out: Vec<[u32; 4]>)
    ensures
        out@ == ids@,
{
    let mut out: Vec<[u32; 4]> = Vec::with_capacity(ids.len());
    let mut p: usize = 0;
    while p < ids.len()
        invariant
            p <= ids.len(),
            out@ == ids@.take(p as int),
        decreases ids.len() - p,
    {
        out.push(ids[p]);
        p = p + 1;
        assert(out@ =~= ids@.take(p as int));
    }
    assert(ids@.take(ids.len() as int) =~= ids@);
    out
}

/// What a particle is in the graph.
#[derive(Clone, Copy, Debug, PartialEq, Eq, Structural)]
pub enum Role {
    Sphere,
    Hub,
    Leaf,
}

/// The number of neighbours of each particle.
pub fn degrees<W>(csr: &Csr<W>) -> (out: Vec<usize>)
    requires
        csr.wf(),
    ensures
        out.len() == csr.n,
        forall|i: int|
            0 <= i < csr.n ==> #[trigger] out[i] == csr.row_ptr[i + 1] - csr.row_ptr[i],
{
    let mut out: Vec<usize> = Vec::with_capacity(csr.n);
    let mut i: usize = 0;
    while i < csr.n
        invariant
            csr.wf(),
            i <= csr.n,
            out.len() == i,
            forall|j: int|
                0 <= j < i ==> #[trigger] out[j] == csr.row_ptr[j + 1] - csr.row_ptr[j],
        decreases csr.n - i,
    {
        out.push(csr.degree(i) as usize);
        i = i + 1;
    }
    out
}

/// The role of a particle: a leaf has one neighbour, a hub's degree exceeds the threshold.
pub open spec fn role_of(degree: int, value: Scalar, hub_thresh: Scalar) -> Role {
    if degree == 1 {
        Role::Leaf
    } else if hub_thresh.less(value) {
        Role::Hub
    } else {
        Role::Sphere
    }
}

/// The role of each particle. `values` holds the degrees as numbers.
pub fn infer_roles(degrees: &[usize], values: &[Scalar], hub_thresh: Scalar) -> (roles: Vec<Role>)
    requires
        values.len() == degrees.len(),
    ensures
        roles.len() == degrees.len(),
        forall|i: int|
            0 <= i < roles.len() ==> #[trigger] roles[i] == role_of(
                degrees[i] as int,
                values[i],
                hub_thresh,
            ),
        forall|i: int|
            0 <= i < roles.len() ==> (#[trigger] roles[i] == Role::Leaf <==> degrees[i] == 1),
        forall|i: int|
            0 <= i < roles.len() ==> (#[trigger] roles[i] == Role::Hub <==> degrees[i] != 1
                && hub_thresh.less(values[i])),
{
    let mut roles: Vec<Role> = Vec::with_capacity(degrees.len());
    let mut i: usize = 0;
    while i < degrees.len()
        invariant
            i <= degrees.len(),
            values.len() == degrees.len(),
            roles.len() == i,
            forall|j: int|
                0 <= j < i ==> #[trigger] roles[j] == role_of(
                    degrees[j] as int,
                    values[j],
                    hub_thresh,
                ),
        decreases degrees.len() - i,
    {
        let role = if degrees[i] == 1 {
            Role::Leaf
        } else if hub_thresh.is_less(values[i]) {
            Role::Hub
        } else {
            Role::Sphere
        };
        roles.push(role);
        i = i + 1;
    }
    roles
}

/// The colour of a role: bright, mid or dark blue, as patterns of (0.20, 0.55, 1.00),
/// (0.12, 0.38, 0.88) and (0.07, 0.22, 0.68).
pub open spec fn role_rgb(role: Role) -> Seq<Scalar> {
    match role {
        Role::Hub => seq![
            Scalar { bits: 0x3e4c_cccd },
            Scalar { bits: 0x3f0c_cccd },
            Scalar { bits: 0x3f80_0000 },
        ],
        Role::Sphere => seq![
            Scalar { bits: 0x3df5_c28f },
            Scalar { bits: 0x3ec2_8f5c },
            Scalar { bits: 0x3f61_47ae },
        ],
        Role::Leaf => seq![
            Scalar { bits: 0x3d8f_5c29 },
            Scalar { bits: 0x3e61_47ae },
            Scalar { bits: 0x3f2e_147b },
        ],
    }
}

/// How a role scales a particle's radius: by 1.5, 0.7 or 1.0.
pub open spec fn role_factor(role: Role) -> Scalar {
    match role {
        Role::Hub => Scalar { bits: 0x3fc0_0000 },
        Role::Leaf => Scalar { bits: 0x3f33_3333 },
        Role::Sphere => Scalar { bits: 0x3f80_0000 },
    }
}

/// The factor by which a role scales a particle's radius.
pub fn radius_factor(role: Role) -> (r: Scalar)
    ensures
        r == role_factor(role),
{
    match role {
        Role::Hub => Scalar { bits: 0x3fc0_0000 },
        Role::Leaf => Scalar { bits: 0x3f33_3333 },
        Role::Sphere => Scalar { bits: 0x3f80_0000 },
    }
}

fn role_color(role: Role) -> (rgb: [Scalar; 3])
    ensures
        rgb@ == role_rgb(role),
{
    let rgb: [Scalar; 3] = match role {
        Role::Hub => [
            Scalar { bits: 0x3e4c_cccd },
            Scalar { bits: 0x3f0c_cccd },
            Scalar { bits: 0x3f80_0000 },
        ],
        Role::Sphere => [
            Scalar { bits: 0x3df5_c28f },
            Scalar { bits: 0x3ec2_8f5c },
            Scalar { bits: 0x3f61_47ae },
        ],
        Role::Leaf => [
            Scalar { bits: 0x3d8f_5c29 },
            Scalar { bits: 0x3e61_47ae },
            Scalar { bits: 0x3f2e_147b },
        ],
    };
    assert(rgb@ =~= role_rgb(role));
    rgb
}

/// The RGB of every particle, one after the other.
pub fn role_colors(roles: &[Role]) -> (out: Vec<Scalar>)
    ensures
        out.len() == 3 * roles.len(),
        forall|i: int, c: int|
            0 <= i < roles.len() && 0 <= c < 3 ==> #[trigger] out[3 * i + c] == role_rgb(
                roles[i],
            )[c],
{
    let mut out: Vec<Scalar> = Vec::new();
    let mut i: usize = 0;
    while i < roles.len()
        invariant
            i <= roles.len(),
            out.len() == 3 * i,
            forall|j: int, c: int|
                0 <= j < i && 0 <= c < 3 ==> #[trigger] out[3 * j + c] == role_rgb(roles[j])[c],
        decreases roles.len() - i,
    {
        let rgb = role_color(roles[i]);
        out.push(rgb[0]);
        out.push(rgb[1]);
        out.push(rgb[2]);
        i = i + 1;
    }
    out
}

/// Law: a hub is drawn larger than a leaf of the same focus; the factors stand in this
/// order.
pub proof fn law_hubs_exceed_leaves()
    ensures
        role_factor(Role::Leaf).less(role_factor(Role::Sphere)),
        role_factor(Role::Sphere).less(role_factor(Role::Hub)),
{
}

/// Law: a particle is a leaf if and only if it has exactly one neighbour; a hub if and only if
/// it has another number of neighbours and that number is above the threshold; a sphere
/// otherwise.
pub proof fn law_roles_go_by_neighbours(degree: int, value: Scalar, hub_thresh: Scalar)
    ensures
        role_of(degree, value, hub_thresh) == Role::Leaf <==> degree == 1,
        role_of(degree, value, hub_thresh) == Role::Hub <==> degree != 1 && hub_thresh.less(value),
        role_of(degree, value, hub_thresh) == Role::Sphere <==> degree != 1 && !hub_thresh.less(
            value,
        ),
{
}

/// Law: under one threshold a particle with more neighbours than another is never drawn with a
/// lower factor, and one with any number but one is drawn with a higher factor than a leaf.
pub proof fn law_more_neighbours_never_shrink(
    degree: int,
    value: Scalar,
    more: int,
    more_value: Scalar,
    hub_thresh: Scalar,
)
    requires
        1 <= degree < more,
        value.less(more_value),
    ensures
        role_factor(role_of(1, value, hub_thresh)).less(
            role_factor(role_of(more, more_value, hub_thresh)),
        ),
        !role_factor(role_of(more, more_value, hub_thresh)).less(
            role_factor(role_of(degree, value, hub_thresh)),
        ),
{
}

/// Law: whatever the threshold, no particle is drawn with a lower factor than one that has
/// exactly one neighbour, and only such a particle is drawn with as low a factor.
pub proof fn law_leaves_are_smallest(
    degree: int,
    value: Scalar,
    leaf_value: Scalar,
    hub_thresh: Scalar,
)
    ensures
        !role_factor(role_of(degree, value, hub_thresh)).less(
            role_factor(role_of(1, leaf_value, hub_thresh)),
        ),
        degree != 1 ==> role_factor(role_of(1, leaf_value, hub_thresh)).less(
            role_factor(role_of(degree, value, hub_thresh)),
        ),
{
}

/// Law: a hub is brighter than a sphere and a sphere brighter than a leaf, in every channel, and
/// all of them are blue: the channels ascend.
pub proof fn law_colours_brighten(c: int)
    requires
        0 <= c < 3,
    ensures
        role_rgb(Role::Leaf)[c].less(role_rgb(Role::Sphere)[c]),
        role_rgb(Role::Sphere)[c].less(role_rgb(Role::Hub)[c]),
        c < 2 ==> forall|role: Role| (#[trigger] role_rgb(role))[c].less(role_rgb(role)[c + 1]),
        forall|role: Role| (#[trigger] role_rgb(role))[c].at_most(Scalar { bits: 0x3f80_0000 }),
{
}

/// Law: a particle has as many neighbours as its row has entries, so a particle without an
/// entry has none and all degrees together count every entry once.
pub proof fn law_degrees_count_entries<W>(csr: &Csr<W>, degrees: Seq<int>, upto: int)
    requires
        csr.wf(),
        degrees.len() == csr.n,
        forall|i: int|
            0 <= i < csr.n ==> #[trigger] degrees[i] == csr.row_ptr[i + 1] - csr.row_ptr[i],
        0 <= upto <= csr.n,
    ensures
        degrees.take(upto).fold_left(0, |sum: int, d: int| sum + d) == csr.row_ptr[upto],
    decreases upto,
{
    if upto > 0 {
        law_degrees_count_entries(csr, degrees, upto - 1);
        assert(degrees.take(upto).drop_last() =~= degrees.take(upto - 1));
        assert(degrees[upto - 1] == csr.row_ptr[upto - 1 + 1] - csr.row_ptr[upto - 1]);
    }
}

} // verus!
