pub mod harness;
pub mod platform;
