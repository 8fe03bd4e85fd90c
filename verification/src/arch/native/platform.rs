//! Native logger: the lines it prints, gated by the current sim step.

use vstd::prelude::*;

use crate::platform::{interval_outcome, StepGate};
use crate::text::{plain_line, spec_step_line, step_line};

verus! {

/// Step state of the native logger; the caller prints the lines it builds.
pub struct NativeLogger {
    pub gate: StepGate,
}

/// A native log line: `[LEVEL] msg`, or `[LEVEL step=s] msg` once a step is set.
pub open spec fn native_line(level: Seq<char>, step: usize, msg: Seq<char>) -> Seq<char> {
    if step == usize::MAX {
        "["@ + level + "] "@ + msg
    } else {
        spec_step_line("["@ + level + " step="@, step as nat, msg)
    }
}

impl NativeLogger {
    pub fn new() -> (r: Self)
        ensures
            r.gate.step == usize::MAX,
            r.gate.interval_step == usize::MAX,
            r.gate.interval_count == 0,
    {
        NativeLogger { gate: StepGate::new() }
    }

    pub fn set_step(&mut self, step: usize)
        ensures
            final(self).gate.step == step,
            final(self).gate.interval_step == old(self).gate.interval_step,
            final(self).gate.interval_count == old(self).gate.interval_count,
    {
        self.gate.set_step(step);
    }

    pub fn step(&self) -> (r: Option<usize>)
        ensures
            r == (if self.gate.step == usize::MAX { None } else { Some(self.gate.step) }),
    {
        self.gate.step()
    }

    fn line(&self, level: &str, msg: &str) -> (r: String)
        ensures
            r@ == native_line(level@, self.gate.step, msg@),
    {
        let mut head = String::from_str("[");
        head.append(level);
        if self.gate.step == usize::MAX {
            head.append("] ");
            let r = plain_line(head.as_str(), msg);
            proof {
                assert(r@ == "["@ + level@ + "] "@ + msg@);
            }
            r
        } else {
            head.append(" step=");
            step_line(head.as_str(), self.gate.step, msg)
        }
    }

    /// Line for an informational message (printed to stdout).
    pub fn log_line(&self, msg: &str) -> (r: String)
        ensures
            r@ == native_line("LOG"@, self.gate.step, msg@),
    {
        self.line("LOG", msg)
    }

    /// Line for a warning (printed to stderr).
    pub fn warn_line(&self, msg: &str) -> (r: String)
        ensures
            r@ == native_line("WARN"@, self.gate.step, msg@),
    {
        self.line("WARN", msg)
    }

    /// Line for an error (printed to stderr).
    pub fn error_line(&self, msg: &str) -> (r: String)
        ensures
            r@ == native_line("ERROR"@, self.gate.step, msg@),
    {
        self.line("ERROR", msg)
    }

    /// The line to print for an interval-throttled message, if it passes.
    pub fn log_interval(&mut self, msg: &str, interval: usize, max_per_step: i32) -> (r: Option<String>)
        ensures
            final(self).gate.step == old(self).gate.step,
            (final(self).gate.interval_step, final(self).gate.interval_count)
                == (interval_outcome(old(self).gate, interval, max_per_step).1, interval_outcome(old(self).gate, interval, max_per_step).2),
            r is Some <==> interval_outcome(old(self).gate, interval, max_per_step).0,
            r matches Some(line) ==> line@ == native_line("LOG"@, old(self).gate.step, msg@),
    {
        if self.gate.admit_interval(interval, max_per_step) {
            Some(self.line("LOG", msg))
        } else {
            None
        }
    }
}

impl Default for NativeLogger {
    fn default() -> (r: Self)
        ensures
            r.gate.step == usize::MAX,
            r.gate.interval_step == usize::MAX,
            r.gate.interval_count == 0,
    {
        Self::new()
    }
}

} // verus!
