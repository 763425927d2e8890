//! A bit-banged CMSIS-DAP debug port: SWJ pin control, SWD transfers and the
//! trivial JTAG and SWO parts, over user-supplied pins and delay.

pub mod wire;
pub mod context;
pub mod swd;
pub mod jtag;
