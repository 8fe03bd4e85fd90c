//! Integer and topology core of a cloth and paper simulator: mesh
//! connectivity, constraint coloring, spatial-hash tables, step-gated
//! logging and the per-step trace channel.

pub mod arch;
pub mod bvh;
pub mod platform;
pub mod sim;
pub mod text;
