//! The tutorial's progress state machine.
//!
//! The tutorial runs through a fixed list of stages; the session remembers
//! the current stage, the furthest stage ever reached, and — for the stage
//! that teaches pausing — how many pauses the player has performed. The
//! screens themselves live outside this crate; what is verified is how the
//! progress state moves.

use vstd::prelude::*;

verus! {

/// What the current tutorial stage asks the player to do.
#[derive(Clone, Copy, PartialEq, Eq, Structural, Debug)]
pub enum Task {
    Nil,
    Camera,
    InspectObjects,
    TimeControls,
    PauseResume,
    Escort,
    LowParking,
    WatchBikes,
    FixBikes,
    Done,
}

/// The session-persistent tutorial progress.
#[derive(Clone, Copy, PartialEq, Eq, Structural, Debug)]
pub struct TutorialState {
    /// The stage being played.
    pub current: usize,
    /// The furthest stage ever reached.
    pub latest: usize,
    /// How many pauses the pause-teaching stage has counted.
    pub num_pauses: usize,
    /// Whether the simulation was paused when last observed.
    pub was_paused: bool,
    /// What the current stage asks for.
    pub task: Task,
}

/// The per-screen tutorial state: whether the player asked to leave.
pub struct Tutorial {
    pub exit: bool,
}

/// The pause-teaching stage advances after this many pauses.
pub const PAUSES_TO_ADVANCE: usize = 3;

impl Tutorial {
    /// Opens the tutorial at the given stage: the session's current stage
    /// is set, and the furthest-reached stage never moves backwards.
    pub fn new(tut: &mut TutorialState, current: usize) -> (r: Tutorial)
        ensures
            final(tut).current == current,
            final(tut).latest == if old(tut).latest >= current {
                old(tut).latest
            } else {
                current
            },
            final(tut).num_pauses == old(tut).num_pauses,
            final(tut).was_paused == old(tut).was_paused,
            final(tut).task == old(tut).task,
            !r.exit,
    {
        tut.current = current;
        if current > tut.latest {
            tut.latest = current;
        }
        Tutorial { exit: false }
    }

    /// One frame of the pause-teaching logic. When the current task is
    /// pause/resume, the observed pause state must be supplied: each fresh
    /// pause is counted, and after enough pauses the session advances one
    /// stage and the first result component says so. The second result
    /// component reports (and clears) a pending exit request.
    pub fn event_with_speed(&mut self, tut: &mut TutorialState, is_paused: Option<bool>) -> (r: (
        bool,
        bool,
    ))
        requires
            old(tut).task == Task::PauseResume ==> is_paused is Some,
            old(tut).num_pauses < PAUSES_TO_ADVANCE,
            old(tut).current < usize::MAX,
        ensures
            ({
                let counted = old(tut).task == Task::PauseResume && !old(tut).was_paused
                    && is_paused == Some(true);
                let pauses = old(tut).num_pauses + if counted {
                    1int
                } else {
                    0int
                };
                let advanced = pauses == PAUSES_TO_ADVANCE;
                &&& final(tut).num_pauses == pauses
                &&& final(tut).was_paused == (if old(tut).task == Task::PauseResume {
                    if old(tut).was_paused && is_paused == Some(false) {
                        false
                    } else if counted {
                        true
                    } else {
                        old(tut).was_paused
                    }
                } else {
                    old(tut).was_paused
                })
                &&& final(tut).current == old(tut).current + if advanced {
                    1int
                } else {
                    0int
                }
                &&& final(tut).latest == old(tut).latest
                &&& final(tut).task == old(tut).task
                &&& r.0 == advanced
                &&& r.1 == (if advanced {
                    false
                } else {
                    old(self).exit
                })
                &&& final(self).exit == (if advanced {
                    old(self).exit
                } else {
                    false
                })
            }),
    {
        let is_pause_task = match tut.task {
            Task::PauseResume => true,
            _ => false,
        };
        if is_pause_task {
            let paused = match is_paused {
                Some(p) => p,
                None => false,
            };
            if tut.was_paused && !paused {
                tut.was_paused = false;
            } else if !tut.was_paused && paused {
                tut.num_pauses = tut.num_pauses + 1;
                tut.was_paused = true;
            }
            if tut.num_pauses == PAUSES_TO_ADVANCE {
                tut.current = tut.current + 1;
                return (true, false);
            }
        }
        let exit = self.exit;
        self.exit = false;
        (false, exit)
    }
}

} // verus!
