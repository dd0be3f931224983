//! T0: the camera enters a particle, stays inside and comes back out.
//!
//! How far a transition has got is a number between 0 and 1. The caller advances and eases
//! it; what follows from it is decided here. A transition that has reached 1 is over, so the
//! camera is only told of progress short of 1.

use vstd::prelude::*;

use crate::scalar::Scalar;

verus! {

/// The pattern of one, at which a transition is complete.
pub const COMPLETE: u32 = 0x3f80_0000;

/// The pattern of the highest number below one.
pub const ALMOST_COMPLETE: u32 = 0x3f7f_ffff;

/// What the camera is told each frame.
#[derive(Debug, Clone, Copy)]
pub enum CameraCommand {
    /// Approaching the particle; `t` is the eased progress, in [0, 1).
    Approaching { particle: u32, t: Scalar },
    /// Inside the particle.
    Inside { particle: u32 },
    /// Leaving the particle; `t` is the eased progress, in [0, 1).
    Exiting { particle: u32, t: Scalar },
}

/// Where the camera is.
#[derive(Debug, Clone, Copy)]
pub enum T0State {
    /// In the graph, no particle selected.
    Outside,
    /// On its way into `target`; `progress` is in [0, 1].
    Approaching { target: u32, progress: Scalar },
    /// Inside `particle`.
    Inside { particle: u32 },
    /// On its way back to the graph; `progress` is in [0, 1].
    Exiting { particle: u32, progress: Scalar },
}

impl Default for T0State {
    fn default() -> (r: Self)
        ensures
            r == T0State::Outside,
    {
        T0State::Outside
    }
}

/// The camera's state machine.
pub struct T0Pass {
    pub state: T0State,
}

/// The state after `particle` has been entered: nothing changes on the way into it or
/// inside it.
pub open spec fn entered(state: T0State, particle: u32) -> T0State {
    match state {
        T0State::Approaching { target, progress } if target == particle => state,
        T0State::Inside { particle: current } if current == particle => state,
        _ => T0State::Approaching { target: particle, progress: Scalar { bits: 0 } },
    }
}

/// The state after an exit: only from inside a particle does one leave.
pub open spec fn exited(state: T0State) -> T0State {
    match state {
        T0State::Inside { particle } => T0State::Exiting { particle, progress: Scalar { bits: 0 } },
        _ => state,
    }
}

/// Progress is kept in [0, 1]; what is not a number counts as completion.
pub open spec fn capped(advanced: Scalar) -> Scalar {
    advanced.lower(Scalar { bits: COMPLETE }).higher(Scalar { bits: 0 })
}

/// The transition is complete.
pub open spec fn is_complete(progress: Scalar) -> bool {
    (Scalar { bits: COMPLETE }).at_most(progress)
}

/// The state after a frame in which a transition has advanced to `advanced`.
pub open spec fn updated(state: T0State, advanced: Scalar) -> T0State {
    let progress = capped(advanced);
    match state {
        T0State::Approaching { target, progress: _ } => if is_complete(progress) {
            T0State::Inside { particle: target }
        } else {
            T0State::Approaching { target, progress }
        },
        T0State::Exiting { particle, progress: _ } => if is_complete(progress) {
            T0State::Outside
        } else {
            T0State::Exiting { particle, progress }
        },
        _ => state,
    }
}

/// Eased progress, kept in [0, 1): a value outside becomes the nearest one inside, and what
/// is not a number becomes zero.
pub open spec fn unfinished(eased: Scalar) -> Scalar {
    eased.higher(Scalar { bits: 0 }).lower(Scalar { bits: ALMOST_COMPLETE })
}

/// What the camera is told on arriving in `state`, `t` being the progress of a transition.
pub open spec fn commanded(state: T0State, t: Scalar) -> Option<CameraCommand> {
    match state {
        T0State::Outside => None,
        T0State::Approaching { target, progress: _ } => Some(
            CameraCommand::Approaching { particle: target, t },
        ),
        T0State::Inside { particle } => Some(CameraCommand::Inside { particle }),
        T0State::Exiting { particle, progress: _ } => Some(
            CameraCommand::Exiting { particle, t },
        ),
    }
}

impl T0Pass {
    pub fn new() -> (pass: Self)
        ensures
            pass.state == T0State::Outside,
    {
        T0Pass { state: T0State::Outside }
    }

    /// Starts the way into a particle; does nothing on the way into that particle or
    /// inside it.
    pub fn enter(&mut self, particle_idx: u32)
        ensures
            final(self).state == entered(old(self).state, particle_idx),
    {
        let same: bool = match self.state {
            T0State::Approaching { target, progress: _ } => target == particle_idx,
            T0State::Inside { particle } => particle == particle_idx,
            _ => false,
        };
        if !same {
            self.state = T0State::Approaching {
                target: particle_idx,
                progress: Scalar { bits: 0 },
            };
        }
    }

    /// Starts the way back from the particle that the camera is inside of.
    pub fn exit(&mut self)
        ensures
            final(self).state == exited(old(self).state),
    {
        if let T0State::Inside { particle } = self.state {
            self.state = T0State::Exiting { particle, progress: Scalar { bits: 0 } };
        }
    }

    /// How far the current transition has got; none without a transition.
    pub fn progress(&self) -> (r: Option<Scalar>)
        ensures
            r == match self.state {
                T0State::Approaching { target: _, progress } => Some(progress),
                T0State::Exiting { particle: _, progress } => Some(progress),
                _ => None,
            },
    {
        match self.state {
            T0State::Approaching { target: _, progress } => Some(progress),
            T0State::Exiting { particle: _, progress } => Some(progress),
            _ => None,
        }
    }

    /// Takes one frame: `advanced` is how far the current transition has got, uncapped, and
    /// `eased` the same, capped and eased. Outside a transition neither counts. The command
    /// follows the state that the frame leads to: the frame that completes a transition
    /// already commands what comes after it.
    pub fn update(&mut self, advanced: Scalar, eased: Scalar) -> (cmd: Option<CameraCommand>)
        ensures
            final(self).state == updated(old(self).state, advanced),
            final(self).state matches T0State::Approaching { target: _, progress }
                ==> progress.in_unit(),
            final(self).state matches T0State::Exiting { particle: _, progress }
                ==> progress.in_unit(),
            cmd == commanded(final(self).state, unfinished(eased)),
            cmd matches Some(CameraCommand::Approaching { particle: _, t }) ==> t.in_unit(),
            cmd matches Some(CameraCommand::Exiting { particle: _, t }) ==> t.in_unit(),
    {
        let one = Scalar { bits: COMPLETE };
        let progress = advanced.min(one).max(Scalar { bits: 0 });
        let over: bool = one.is_at_most(progress);
        let t = eased.max(Scalar { bits: 0 }).min(Scalar { bits: ALMOST_COMPLETE });
        match self.state {
            T0State::Outside => None,
            T0State::Approaching { target, progress: _ } => {
                if over {
                    self.state = T0State::Inside { particle: target };
                    Some(CameraCommand::Inside { particle: target })
                } else {
                    self.state = T0State::Approaching { target, progress };
                    Some(CameraCommand::Approaching { particle: target, t })
                }
            },
            T0State::Inside { particle } => Some(CameraCommand::Inside { particle }),
            T0State::Exiting { particle, progress: _ } => {
                if over {
                    self.state = T0State::Outside;
                    None
                } else {
                    self.state = T0State::Exiting { particle, progress };
                    Some(CameraCommand::Exiting { particle, t })
                }
            },
        }
    }
}

impl Default for T0Pass {
    fn default() -> (pass: Self)
        ensures
            pass.state == T0State::Outside,
    {
        T0Pass::new()
    }
}

/// Where particle `idx` is and how large, if both are known: the camera enters it just inside
/// its surface.
pub fn entry_anchor<S: Copy>(idx: u32, positions: &[S], radii: &[S]) -> (anchor: Option<([S; 3], S)>)
    ensures
        anchor is Some <==> 3 * idx + 2 < positions.len() && idx < radii.len(),
        anchor matches Some((center, radius)) ==> {
            &&& center@ == positions@.subrange(3 * idx as int, 3 * idx + 3)
            &&& radius == radii[idx as int]
        },
{
    if 3 * (idx as u64) + 2 >= positions.len() as u64 || idx as u64 >= radii.len() as u64 {
        return None;
    }
    let b: usize = (3 * (idx as u64)) as usize;
    let center: [S; 3] = [positions[b], positions[b + 1], positions[b + 2]];
    assert(center@ =~= positions@.subrange(3 * idx as int, 3 * idx + 3));
    Some((center, radii[idx as usize]))
}

/// Law: entering a particle again changes nothing.
pub proof fn law_enter_is_idempotent(state: T0State, particle: u32)
    ensures
        entered(entered(state, particle), particle) == entered(state, particle),
{
}

/// Law: entering a particle and completing the way in leads inside it, and exiting and
/// completing the way out leads back to the graph.
pub proof fn law_round_trip(state: T0State, particle: u32, way_in: Scalar, way_out: Scalar)
    requires
        state == T0State::Outside,
        is_complete(way_in),
        is_complete(way_out),
    ensures
        ({
            let inside = updated(entered(state, particle), way_in);
            &&& inside == T0State::Inside { particle }
            &&& updated(exited(inside), way_out) == T0State::Outside
        }),
{
}

/// Law: eased progress in [0, 1) reaches the camera unchanged.
pub proof fn law_progress_is_told_as_it_is(eased: Scalar)
    requires
        eased.in_unit(),
    ensures
        unfinished(eased) == eased,
{
}

/// Law: nobody leaves a particle without having been inside it.
pub proof fn law_exit_only_from_inside(state: T0State)
    requires
        !(state is Inside),
    ensures
        exited(state) == state,
{
}

/// Law: entering a particle starts the way into it from the very beginning, unless one is on that
/// way or inside already, which goes on as it is.
pub proof fn law_enter_starts_over(state: T0State, particle: u32)
    ensures
        (state is Outside || state is Exiting) ==> entered(state, particle) == (
        T0State::Approaching { target: particle, progress: Scalar { bits: 0 } }),
        state matches T0State::Approaching { target, progress } ==> entered(state, particle) == (
        T0State::Approaching {
            target: particle,
            progress: if target == particle {
                progress
            } else {
                Scalar { bits: 0 }
            },
        }),
        state matches T0State::Inside { particle: current } ==> entered(state, particle)
            == if current == particle {
            state
        } else {
            T0State::Approaching { target: particle, progress: Scalar { bits: 0 } }
        },
{
}

/// Law: a transition keeps its particle and its progress until the progress reaches one, and is
/// over from there on; progress below zero counts as none, and what is not a number as all.
pub proof fn law_transitions_run_to_one(particle: u32, from: Scalar, advanced: Scalar)
    ensures
        ({
            let way_in = updated(T0State::Approaching { target: particle, progress: from }, advanced);
            let way_out = updated(T0State::Exiting { particle, progress: from }, advanced);
            let over = advanced.nan() || (Scalar { bits: 0x3f80_0000 }).at_most(advanced);
            let kept = if advanced.less(Scalar { bits: 0 }) {
                Scalar { bits: 0 }
            } else {
                advanced
            };
            &&& over ==> way_in == (T0State::Inside { particle }) && way_out == T0State::Outside
            &&& !over ==> way_in == (T0State::Approaching { target: particle, progress: kept })
                && way_out == (T0State::Exiting { particle, progress: kept })
        }),
        updated(T0State::Outside, advanced) == T0State::Outside,
        updated(T0State::Inside { particle }, advanced) == (T0State::Inside { particle }),
{
}

/// Law: an exit starts the way back from the particle that one is inside of, from the beginning.
pub proof fn law_exit_starts_the_way_back(particle: u32)
    ensures
        exited(T0State::Inside { particle }) == (T0State::Exiting {
            particle,
            progress: Scalar { bits: 0 },
        }),
{
}

/// Law: the camera is told of the particle that the state is about, and outside of nothing.
pub proof fn law_commands_follow_the_state(particle: u32, progress: Scalar, t: Scalar)
    ensures
        commanded(T0State::Outside, t) is None,
        commanded(T0State::Inside { particle }, t) == Some(CameraCommand::Inside { particle }),
        commanded(T0State::Approaching { target: particle, progress }, t) == Some(
            CameraCommand::Approaching { particle, t },
        ),
        commanded(T0State::Exiting { particle, progress }, t) == Some(
            CameraCommand::Exiting { particle, t },
        ),
{
}

/// Law: eased progress from one on is told as the highest number below one, and below zero, or
/// where it is not a number, as zero.
pub proof fn law_told_progress_is_short_of_one(eased: Scalar)
    ensures
        unfinished(eased).in_unit(),
        (Scalar { bits: 0x3f80_0000 }).at_most(eased) ==> unfinished(eased).bits == 0x3f7f_ffff,
        eased.less(Scalar { bits: 0 }) || eased.nan() ==> unfinished(eased).bits == 0,
{
}

} // verus!
