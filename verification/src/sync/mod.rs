//! What this crate has for code that runs on several threads.
pub mod latch;
