//! Resources of the graph world.

use vstd::prelude::*;

use crate::epoch::EpochState;

verus! {

/// Where the camera should warp to. Set it to trigger a warp in the next frame.
#[derive(Debug)]
pub struct WarpTarget {
    /// The particle to warp to; none while no warp is pending.
    pub particle_idx: Option<u32>,
}

impl WarpTarget {
    /// Takes the pending warp, so that it happens once.
    pub fn take(&mut self) -> (r: Option<u32>)
        ensures
            r == old(self).particle_idx,
            final(self).particle_idx is None,
    {
        let target: Option<u32> = self.particle_idx;
        self.particle_idx = None;
        target
    }
}

impl Default for WarpTarget {
    fn default() -> (target: Self)
        ensures
            target.particle_idx is None,
    {
        WarpTarget { particle_idx: None }
    }
}

/// What the graph world keeps of the epoch on the CPU: it feeds diffusion, and the number
/// of particles marks the epoch as taken.
pub struct WorldGraph<S> {
    pub n_particles: usize,
    pub focus: Vec<S>,
    pub d_inv: Vec<S>,
}

/// `world` holds what it keeps of `epoch`.
pub open spec fn holds_epoch<S>(world: &WorldGraph<S>, epoch: &EpochState<S>) -> bool {
    &&& world.n_particles == epoch.positions.len() / 3
    &&& world.focus@ == epoch.focus@
    &&& world.d_inv@ == epoch.d_inv@
}

fn copied<S: Copy>(values: &Vec<S>) -> (out: Vec<S>)
    ensures
        out@ == values@,
{
    let mut out: Vec<S> = Vec::new();
    let mut k: usize = 0;
    while k < values.len()
        invariant
            k <= values.len(),
            out@ == values@.take(k as int),
        decreases values.len() - k,
    {
        out.push(values[k]);
        k = k + 1;
        assert(values@.take(k as int) =~= values@.take(k - 1).push(values@[k - 1]));
    }
    assert(values@.take(k as int) =~= values@);
    out
}

impl<S: Copy> WorldGraph<S> {
    /// Takes over a new epoch.
    pub fn upload_epoch(&mut self, epoch: &EpochState<S>)
        ensures
            holds_epoch(final(self), epoch),
    {
        self.n_particles = epoch.positions.len() / 3;
        self.focus = copied(&epoch.focus);
        self.d_inv = copied(&epoch.d_inv);
    }

    /// Takes over the epoch that is ready, unless one has been taken already. True: the
    /// epoch has to be uploaded to the device, and the loading overlay goes.
    pub fn swap_epoch_if_ready(&mut self, ready: Option<&EpochState<S>>) -> (taken: bool)
        ensures
            taken == (old(self).n_particles == 0 && ready is Some),
            !taken ==> *final(self) == *old(self),
            taken ==> holds_epoch(final(self), ready.unwrap()),
    {
        if self.n_particles > 0 {
            return false;
        }
        match ready {
            Some(epoch) => {
                self.upload_epoch(epoch);
                true
            },
            None => false,
        }
    }
}

impl<S> Default for WorldGraph<S> {
    fn default() -> (world: Self)
        ensures
            world.n_particles == 0,
            world.focus@.len() == 0,
            world.d_inv@.len() == 0,
    {
        WorldGraph { n_particles: 0, focus: Vec::new(), d_inv: Vec::new() }
    }
}

} // verus!
