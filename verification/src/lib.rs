//! Verified protocol logic of a multi-purpose USB debug probe: a CMSIS-DAP
//! bit-banged SWD engine, a power profiler (PPK2) data path and command
//! interpreter, and a USB to UART bridge.

pub mod hex;
pub mod ppk2;
pub mod dap;
pub mod uart;
pub mod board;
