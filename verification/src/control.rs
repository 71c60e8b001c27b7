//! The loop around the passes: when to run one, when to pause, when to stop.

use vstd::prelude::*;

verus! {

/// How long the loop rests between two passes, in seconds.
pub const PAUSE_SECONDS: u64 = 1;

/// Where the loop stands: what it did last.
#[derive(Debug, Clone, Copy, PartialEq, Eq)]
pub enum Phase {
    /// Nothing has been done yet.
    Begin,
    /// A pass has just been run.
    Passed,
    /// The pause after a pass is over.
    Paused,
    /// The loop has ended.
    Stopped,
}

/// What the caller is to do next.
#[derive(Debug, Clone, Copy, PartialEq, Eq)]
pub enum Step {
    /// Run one pass over the source directory.
    Pass,
    /// Rest for this many seconds.
    Pause { seconds: u64 },
    /// Leave the loop.
    Stop,
}

/// The step that follows `phase`, and the phase that it leads to.
///
/// A pass comes first and after every pause. After a pass comes a pause of
/// [`PAUSE_SECONDS`] if the loop repeats, and the end if it does not.
pub open spec fn step_after(phase: Phase, repeat: bool) -> (Phase, Step) {
    match phase {
        Phase::Begin => (Phase::Passed, Step::Pass),
        Phase::Paused => (Phase::Passed, Step::Pass),
        Phase::Passed => if repeat {
            (Phase::Paused, Step::Pause { seconds: PAUSE_SECONDS })
        } else {
            (Phase::Stopped, Step::Stop)
        },
        Phase::Stopped => (Phase::Stopped, Step::Stop),
    }
}

/// The phase that a loop has reached once it has taken `steps` steps.
pub open spec fn phase_after(repeat: bool, steps: nat) -> Phase
    decreases steps,
{
    if steps == 0 {
        Phase::Begin
    } else {
        step_after(phase_after(repeat, (steps - 1) as nat), repeat).0
    }
}

/// The step that a loop takes after `steps` earlier ones.
pub open spec fn step_at(repeat: bool, steps: nat) -> Step {
    step_after(phase_after(repeat, steps), repeat).1
}

/// Decides what the loop does next.
pub fn next_step(phase: Phase, repeat: bool) -> (next: (Phase, Step))
    ensures
        next == step_after(phase, repeat),
{
    match phase {
        Phase::Begin | Phase::Paused => (Phase::Passed, Step::Pass),
        Phase::Passed => {
            if repeat {
                (Phase::Paused, Step::Pause { seconds: PAUSE_SECONDS })
            } else {
                (Phase::Stopped, Step::Stop)
            }
        },
        Phase::Stopped => (Phase::Stopped, Step::Stop),
    }
}

/// A loop begins with a pass. One that repeats then pauses and passes in
/// turn and never stops; one that does not repeat stops after its one pass.
pub proof fn lemma_loop_steps(repeat: bool, steps: nat)
    ensures
        step_at(repeat, 0) == Step::Pass,
        repeat ==> step_at(repeat, steps) == if steps % 2 == 0 {
            Step::Pass
        } else {
            Step::Pause { seconds: PAUSE_SECONDS }
        },
        !repeat && steps >= 1 ==> step_at(repeat, steps) == Step::Stop,
    decreases steps,
{
    if steps > 0 {
        lemma_loop_steps(repeat, (steps - 1) as nat);
    }
}

} // verus!
