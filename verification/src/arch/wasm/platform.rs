//! Browser-console logger: the lines it hands to the console, gated by the
//! current sim step.

use vstd::prelude::*;

use crate::platform::{interval_outcome, StepGate};
use crate::text::{spec_step_line, step_line};

verus! {

/// Step state of the browser logger; the caller hands its lines to the console.
pub struct WasmLogger {
    pub gate: StepGate,
}

/// A console line: the message, prefixed `[step=s] ` once a step is set.
pub open spec fn wasm_line(step: usize, msg: Seq<char>) -> Seq<char> {
    if step == usize::MAX {
        msg
    } else {
        spec_step_line("[step="@, step as nat, msg)
    }
}

impl WasmLogger {
    pub fn new() -> (r: Self)
        ensures
            r.gate.step == usize::MAX,
            r.gate.interval_step == usize::MAX,
            r.gate.interval_count == 0,
    {
        WasmLogger { gate: StepGate::new() }
    }

    pub fn set_step(&mut self, step: usize)
        ensures
            final(self).gate.step == step,
            final(self).gate.interval_step == old(self).gate.interval_step,
            final(self).gate.interval_count == old(self).gate.interval_count,
    {
        self.gate.set_step(step);
    }

    pub fn step(&self) -> (r: Option<usize>)
        ensures
            r == (if self.gate.step == usize::MAX { None } else { Some(self.gate.step) }),
    {
        self.gate.step()
    }

    /// Console line for a message at any level (log, warn and error share it).
    pub fn line(&self, msg: &str) -> (r: String)
        ensures
            r@ == wasm_line(self.gate.step, msg@),
    {
        if self.gate.step == usize::MAX {
            String::from_str(msg)
        } else {
            step_line("[step=", self.gate.step, msg)
        }
    }

    /// The console line for an interval-throttled message, if it passes.
    pub fn log_interval(&mut self, msg: &str, interval: usize, max_per_step: i32) -> (r: Option<String>)
        ensures
            final(self).gate.step == old(self).gate.step,
            (final(self).gate.interval_step, final(self).gate.interval_count)
                == (interval_outcome(old(self).gate, interval, max_per_step).1, interval_outcome(old(self).gate, interval, max_per_step).2),
            r is Some <==> interval_outcome(old(self).gate, interval, max_per_step).0,
            r matches Some(line) ==> line@ == wasm_line(old(self).gate.step, msg@),
    {
        if self.gate.admit_interval(interval, max_per_step) {
            Some(self.line(msg))
        } else {
            None
        }
    }
}

impl Default for WasmLogger {
    fn default() -> (r: Self)
        ensures
            r.gate.step == usize::MAX,
            r.gate.interval_step == usize::MAX,
            r.gate.interval_count == 0,
    {
        Self::new()
    }
}

} // verus!
