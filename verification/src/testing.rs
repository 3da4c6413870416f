//! Helpers for tests of apps: stepping an app until it exits, exit
//! predicates, and the minimal plugins a test app needs.
use vstd::prelude::*;

use crate::state::AppExit;

verus! {

/// An app that can be stepped through: what it keeps between steps is the
/// exit that a step asked for, if any.
#[derive(Clone, Copy, Debug, PartialEq, Eq, Structural)]
pub struct SteppableApp {
    pub exit: Option<AppExit>,
}

impl Default for SteppableApp {
    /// An app that has not exited.
    fn default() -> (a: SteppableApp)
        ensures
            a.exit is None,
    {
        SteppableApp { exit: None }
    }
}

impl SteppableApp {
    /// Whether the next step runs its system and updates the app: only
    /// while no step has asked to exit.
    pub fn step(&self) -> (run: bool)
        ensures
            run == (self.exit is None),
    {
        self.exit.is_none()
    }

    /// Takes what a fallible step's system returned. An app that already
    /// exited is left as it is and not updated (its system is not run, so
    /// `out` is ignored); otherwise an exit is kept and the app is not
    /// updated, or the app is updated. Returns whether to update.
    pub fn step_res(&mut self, out: Option<AppExit>) -> (update: bool)
        ensures
            old(self).exit is Some ==> *final(self) == *old(self) && !update,
            old(self).exit is None ==> final(self).exit == out && update == (out is None),
    {
        if self.exit.is_some() {
            return false;
        }
        match out {
            Some(exit) => {
                self.exit = Some(exit);
                false
            },
            None => true,
        }
    }

    /// How the app exits: as a step asked, or successfully.
    pub fn finish(self) -> (exit: AppExit)
        ensures
            exit == match self.exit {
                Some(e) => e,
                None => AppExit::Success,
            },
    {
        match self.exit {
            Some(e) => e,
            None => AppExit::Success,
        }
    }
}

/// One run of the predicate that exits after `count` cycles: the run is
/// counted, and the app exits once more than `count` runs were counted.
pub fn cycles(count: usize, counter: &mut usize) -> (exit: Option<AppExit>)
    requires
        *old(counter) < usize::MAX,
    ensures
        *final(counter) == *old(counter) + 1,
        exit == if *final(counter) > count {
            Some(AppExit::Success)
        } else {
            None::<AppExit>
        },
{
    *counter = *counter + 1;
    if *counter > count {
        Some(AppExit::Success)
    } else {
        None
    }
}

/// The decision of the predicate that exits after a duration: exit once
/// the time since the first run is longer than the duration, both in
/// nanoseconds.
pub fn time(duration: u128, elapsed: u128) -> (exit: Option<AppExit>)
    ensures
        exit == if elapsed > duration {
            Some(AppExit::Success)
        } else {
            None::<AppExit>
        },
{
    if elapsed > duration {
        Some(AppExit::Success)
    } else {
        None
    }
}

/// A plugin that every test app needs.
#[derive(Clone, Copy, Debug, PartialEq, Eq, Structural)]
pub enum MinimalPlugin {
    TaskPool,
    FrameCount,
    Time,
    ScheduleRunner,
}

/// Which of the minimal plugins an app still lacks, in the order they are
/// added, given whether each is already added.
pub fn ensure_minimal(task_pool: bool, frame_count: bool, time: bool, schedule_runner: bool) -> (missing: Vec<MinimalPlugin>)
    ensures
        missing@ == (if task_pool { Seq::empty() } else { seq![MinimalPlugin::TaskPool] })
            + (if frame_count { Seq::empty() } else { seq![MinimalPlugin::FrameCount] })
            + (if time { Seq::empty() } else { seq![MinimalPlugin::Time] })
            + (if schedule_runner { Seq::empty() } else { seq![MinimalPlugin::ScheduleRunner] }),
{
    let mut missing: Vec<MinimalPlugin> = Vec::new();
    if !task_pool {
        missing.push(MinimalPlugin::TaskPool);
    }
    if !frame_count {
        missing.push(MinimalPlugin::FrameCount);
    }
    if !time {
        missing.push(MinimalPlugin::Time);
    }
    if !schedule_runner {
        missing.push(MinimalPlugin::ScheduleRunner);
    }
    assert(missing@ =~= (if task_pool { Seq::empty() } else { seq![MinimalPlugin::TaskPool] })
        + (if frame_count { Seq::empty() } else { seq![MinimalPlugin::FrameCount] })
        + (if time { Seq::empty() } else { seq![MinimalPlugin::Time] })
        + (if schedule_runner { Seq::empty() } else { seq![MinimalPlugin::ScheduleRunner] }));
    missing
}

} // verus!
