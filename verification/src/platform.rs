//! Platform abstraction layer: the logging interface the simulation core
//! talks to, and the step bookkeeping that platform loggers share.

use vstd::prelude::*;

verus! {

/// Logging abstraction: platforms print; the core only calls these.
pub trait Logger {
    fn log(&self, msg: &str);

    fn warn(&self, msg: &str);

    fn error(&self, msg: &str);

    fn set_step(&self, step: usize);

    fn step(&self) -> Option<usize>;

    fn log_interval(&self, msg: &str, interval: usize, max_per_step: i32);
}

/// No-op logger for headless runs and tests.
pub struct NullLogger;

impl Logger for NullLogger {
    fn log(&self, msg: &str) {
    }

    fn warn(&self, msg: &str) {
    }

    fn error(&self, msg: &str) {
    }

    fn set_step(&self, step: usize) {
    }

    fn step(&self) -> (r: Option<usize>)
        ensures
            r is None,
    {
        None
    }

    fn log_interval(&self, msg: &str, interval: usize, max_per_step: i32) {
    }
}

/// Step bookkeeping of a platform logger: the current sim step (`usize::MAX`
/// when none is set) and, for interval logging, the step last seen and how
/// many interval lines it has taken.
pub struct StepGate {
    pub step: usize,
    pub interval_step: usize,
    pub interval_count: usize,
}

/// Whether an interval line is let through, and the counters afterwards:
/// only on a set step that is a multiple of `interval`; the count restarts
/// when the step changes, and with `max_per_step >= 0` each call takes one
/// (wrapping) count and passes only while the count it took is below the cap.
pub open spec fn interval_outcome(g: StepGate, interval: usize, max_per_step: i32) -> (bool, usize, usize) {
    let s = g.step;
    if s == usize::MAX || interval == 0 || s % interval != 0 {
        (false, g.interval_step, g.interval_count)
    } else {
        let count = if g.interval_step != s { 0usize } else { g.interval_count };
        if max_per_step >= 0 {
            let next = if count == usize::MAX { 0usize } else { (count + 1) as usize };
            (count < max_per_step as int, s, next)
        } else {
            (true, s, count)
        }
    }
}

impl StepGate {
    pub fn new() -> (r: Self)
        ensures
            r.step == usize::MAX,
            r.interval_step == usize::MAX,
            r.interval_count == 0,
    {
        StepGate { step: usize::MAX, interval_step: usize::MAX, interval_count: 0 }
    }

    pub fn set_step(&mut self, step: usize)
        ensures
            final(self).step == step,
            final(self).interval_step == old(self).interval_step,
            final(self).interval_count == old(self).interval_count,
    {
        self.step = step;
    }

    /// The current step, if one is set.
    pub fn step(&self) -> (r: Option<usize>)
        ensures
            r == (if self.step == usize::MAX { None } else { Some(self.step) }),
    {
        if self.step == usize::MAX { None } else { Some(self.step) }
    }

    /// Decides whether an interval line passes, updating the counters.
    pub fn admit_interval(&mut self, interval: usize, max_per_step: i32) -> (r: bool)
        ensures
            (r, final(self).interval_step, final(self).interval_count)
                == interval_outcome(*old(self), interval, max_per_step),
            final(self).step == old(self).step,
    {
        let s = self.step;
        if s == usize::MAX || interval == 0 {
            return false;
        }
        if s % interval != 0 {
            return false;
        }
        if self.interval_step != s {
            self.interval_step = s;
            self.interval_count = 0;
        }
        if max_per_step >= 0 {
            let count = self.interval_count;
            self.interval_count = count.wrapping_add(1);
            if count >= max_per_step as usize {
                return false;
            }
        }
        true
    }
}

} // verus!
