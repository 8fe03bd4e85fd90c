pub mod cloth;
pub mod harness;
pub mod input;
pub mod platform;
pub mod scene;
