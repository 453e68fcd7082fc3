//! Verified core of a system-resource monitor: bounded sample histories,
//! per-disk bookkeeping, GPU adapter identification and the small parsing
//! rules that connect performance-counter instance names to the things a
//! user sees on screen.

pub mod metrics;
pub mod monitor;
pub mod platform;
pub mod render;
pub mod text;
