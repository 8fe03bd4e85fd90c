//! Platform front ends: native (stdout/stderr) and browser console.

pub mod native;
pub mod wasm;
