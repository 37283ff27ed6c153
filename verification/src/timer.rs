//! Timers that count milliseconds. A timer is plain data here; the ticking
//! itself is left to `bevy`'s timer.

use vstd::prelude::*;

verus! {

/// What a timer does when it has run its time.
#[derive(Clone, Copy, Debug, PartialEq, Eq, Structural)]
pub enum TimerMode {
    /// It stops and stays finished.
    Once,
    /// It starts over, and is finished only on the tick that took it there.
    Repeating,
}

/// A timer: the time it runs, the time run so far, both in milliseconds, and
/// whether the last tick finished it.
#[derive(Clone, Copy, Debug, PartialEq, Eq, Structural)]
pub struct Timer {
    pub duration: u32,
    pub elapsed: u32,
    pub mode: TimerMode,
    pub finished: bool,
}

/// The time that a timer of `duration` in mode `mode` shows after `delta`
/// more milliseconds, if it showed `elapsed` before.
pub open spec fn ticked_elapsed(duration: u32, elapsed: u32, mode: TimerMode, delta: u32) -> int {
    let total = elapsed + delta;
    if total < duration {
        total
    } else if mode == TimerMode::Once {
        duration as int
    } else if duration == 0 {
        0
    } else {
        total % (duration as int)
    }
}

/// Whether a timer of `duration` that showed `elapsed` has run its time
/// after `delta` more milliseconds.
pub open spec fn ticked_finished(duration: u32, elapsed: u32, delta: u32) -> bool {
    elapsed + delta >= duration
}

/// One tick of `bevy::time::Timer`: makes a timer of `duration` milliseconds
/// in the given mode, sets it to `elapsed`, ticks it by `delta` and reads it.
/// The contract says what `Timer::tick` does to a timer that is neither
/// paused nor finished: it adds `delta`; a timer that has then reached its
/// duration is finished, and shows its duration if it runs once, else the
/// remainder of the time by the duration (0 for a duration of 0).
#[verifier::external_body]
fn bevy_tick(duration: u32, elapsed: u32, mode: TimerMode, delta: u32) -> (shown: (u32, bool))
    ensures
        shown.0 == ticked_elapsed(duration, elapsed, mode, delta),
        shown.1 == ticked_finished(duration, elapsed, delta),
{
    let mode = match mode {
        TimerMode::Once => bevy::time::TimerMode::Once,
        TimerMode::Repeating => bevy::time::TimerMode::Repeating,
    };
    let mut timer = bevy::time::Timer::new(bevy::utils::Duration::from_millis(duration as u64), mode);
    timer.set_elapsed(bevy::utils::Duration::from_millis(elapsed as u64));
    timer.tick(bevy::utils::Duration::from_millis(delta as u64));
    (timer.elapsed().as_millis() as u32, timer.finished())
}

impl Timer {
    /// The timer has not run longer than its time.
    pub open spec fn wf(&self) -> bool {
        self.elapsed <= self.duration
    }

    /// A timer of `duration` milliseconds that has not run yet.
    pub fn new(duration: u32, mode: TimerMode) -> (timer: Timer)
        ensures
            timer == (Timer { duration, elapsed: 0, mode, finished: false }),
            timer.wf(),
    {
        Timer { duration, elapsed: 0, mode, finished: false }
    }

    /// Lets `delta` milliseconds pass. A timer that runs once and is
    /// finished stays as it is.
    pub fn tick(&mut self, delta: u32)
        ensures
            final(self).duration == old(self).duration,
            final(self).mode == old(self).mode,
            final(self).elapsed == old(self).after(delta).elapsed,
            final(self).finished == old(self).after(delta).finished,
            old(self).wf() ==> final(self).wf(),
    {
        if self.mode == TimerMode::Once && self.finished {
            return ;
        }
        let shown = bevy_tick(self.duration, self.elapsed, self.mode, delta);
        self.elapsed = shown.0;
        self.finished = shown.1;
        proof {
            if self.mode == TimerMode::Repeating && self.duration > 0 {
                assert((old(self).elapsed + delta) % (self.duration as int) < self.duration);
            }
        }
    }

    /// The timer after `delta` more milliseconds.
    pub open spec fn after(self, delta: u32) -> Timer {
        if self.mode == TimerMode::Once && self.finished {
            self
        } else {
            Timer {
                duration: self.duration,
                elapsed: ticked_elapsed(self.duration, self.elapsed, self.mode, delta) as u32,
                mode: self.mode,
                finished: ticked_finished(self.duration, self.elapsed, delta),
            }
        }
    }
}

} // verus!
