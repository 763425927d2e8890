//! The power profiler (PPK2 protocol) side of the probe.

pub mod measurement;
pub mod command;
pub mod session;
pub mod metadata;
pub mod dfu;
