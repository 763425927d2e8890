//! The JTAG side of the debug port, which this probe does not implement.

use vstd::prelude::*;
use crate::dap::context::{Context, ContextView, DbgDelay, DbgPin};

verus! {

/// Whether the port offers SWD transfers.
pub const SWD_AVAILABLE: bool = true;

/// Whether the port offers JTAG sequences.
pub const JTAG_AVAILABLE: bool = false;

/// The debug port in JTAG mode.
pub struct Jtag<P, D>(Context<P, D>);

impl<P, D> View for Jtag<P, D> {
    type V = ContextView;

    closed spec fn view(&self) -> ContextView {
        self.0@
    }
}

impl<P: DbgPin, D: DbgDelay> Jtag<P, D> {
    /// Takes the port for JTAG; nothing is done to the lines.
    pub fn new(context: Context<P, D>) -> (r: Self)
        ensures
            r@ == context@,
    {
        Jtag(context)
    }

    /// Gives the port back.
    pub fn into_context(self) -> (r: Context<P, D>)
        ensures
            r@ == self@,
    {
        self.0
    }

    /// JTAG sequences are not supported: nothing is sent or received.
    pub fn sequences(&mut self, data: &[u8], rxbuf: &mut [u8]) -> (r: u32)
        ensures
            r == 0,
            final(self)@ == old(self)@,
            final(rxbuf)@ == old(rxbuf)@,
    {
        0
    }

    /// The CPU clock in Hz of the port.
    pub fn cpu_frequency(&self) -> (r: u32)
        ensures
            r == self@.cpu_frequency,
    {
        self.0.cpu_frequency()
    }

    /// Sets the clock, as the SWJ clock command does.
    pub fn set_clock(&mut self, max_frequency: u32) -> (r: bool)
        requires
            max_frequency > 0 || old(self)@.cpu_frequency == 0,
        ensures
            r == (max_frequency < old(self)@.cpu_frequency),
            r ==> final(self)@ == (ContextView {
                max_frequency,
                half_period_ticks: old(self)@.cpu_frequency / max_frequency / 2,
                ..old(self)@
            }),
            !r ==> final(self)@ == old(self)@,
    {
        self.0.process_swj_clock(max_frequency)
    }
}

} // verus!
