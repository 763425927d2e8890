//! The pins, delay and clock settings of the debug port, and the SWJ
//! commands that act on them directly.

use vstd::prelude::*;
use crate::dap::wire::{
    DbgLine, PinEvent, bits_value, read_bit_events, read_bits_events, write_bit_events,
    write_bits_events,
};
use vstd::arithmetic::power2::{lemma_pow2_unfold, lemma_pow2_pos};
use vstd::bits::{lemma_u32_shl_is_mul, lemma_u32_pow2_no_overflow};
use vstd::bits::lemma_u32_shr_is_div;
use vstd::arithmetic::power2::pow2;

verus! {

/// A debug-port line, as the probe's board provides it.
pub trait DbgPin {
    /// Releases the line (high impedance input).
    fn into_input(&mut self);

    /// Makes the line an output that drives `high`.
    fn into_output_in_state(&mut self, high: bool);

    /// Drives the line low.
    fn set_low(&mut self);

    /// Drives the line high.
    fn set_high(&mut self);

    /// Reads the level of the line.
    fn is_high(&self) -> bool;
}

/// A free-running tick counter, as the probe's board provides it.
pub trait DbgDelay {
    /// The current tick count.
    fn get_current(&self) -> u32;

    /// Waits until `ticks` ticks have passed since the count `last`, and
    /// returns the count at that moment.
    fn delay_ticks_from_last(&self, ticks: u32, last: u32) -> u32;
}

/// SWJ pin bit of SWCLK.
pub const SWJ_PIN_SWCLK: u8 = 0x01;
/// SWJ pin bit of SWDIO.
pub const SWJ_PIN_SWDIO: u8 = 0x02;
/// SWJ pin bit of TDI.
pub const SWJ_PIN_TDI: u8 = 0x04;
/// SWJ pin bit of TDO.
pub const SWJ_PIN_TDO: u8 = 0x08;
/// SWJ pin bit of nTRST.
pub const SWJ_PIN_NTRST: u8 = 0x20;
/// SWJ pin bit of nRESET.
pub const SWJ_PIN_NRESET: u8 = 0x80;

/// Whether the pin set `pins` holds the pin bit `pin`.
pub open spec fn has_pin(pins: u8, pin: u8) -> bool {
    pins & pin == pin
}

/// The pin set that reports the three sampled levels.
pub open spec fn pins_from_levels(swclk: bool, swdio: bool, nreset: bool) -> u8 {
    ((if swclk { SWJ_PIN_SWCLK } else { 0u8 }) | (if swdio { SWJ_PIN_SWDIO } else { 0u8 }) | (
    if nreset { SWJ_PIN_NRESET } else { 0u8 })) as u8
}

/// The SWJ clock in Hz that a probe starts with.
pub const DEFAULT_MAX_FREQUENCY: u32 = 100_000;

/// The settings and pin history of a debug port.
#[verifier::ext_equal]
pub struct ContextView {
    pub max_frequency: u32,
    pub cpu_frequency: u32,
    pub cycles_per_us: u32,
    pub half_period_ticks: u32,
    /// Every action taken on the lines and on the delay so far, oldest
    /// first.
    pub events: Seq<PinEvent>,
}

/// The pins, delay and clock settings of a bit-banged debug port.
pub struct Context<P, D> {
    max_frequency: u32,
    cpu_frequency: u32,
    cycles_per_us: u32,
    half_period_ticks: u32,
    delay: D,
    swdio: P,
    swclk: P,
    nreset: P,
    events: Ghost<Seq<PinEvent>>,
    mark: Ghost<u32>,
}

impl<P, D> Context<P, D> {
    /// The tick count that the next wait counts from: where the last wait
    /// ended, or what the last reading of the counter gave.
    pub closed spec fn tick_mark(&self) -> u32 {
        self.mark@
    }
}

impl<P, D> View for Context<P, D> {
    type V = ContextView;

    closed spec fn view(&self) -> ContextView {
        ContextView {
            max_frequency: self.max_frequency,
            cpu_frequency: self.cpu_frequency,
            cycles_per_us: self.cycles_per_us,
            half_period_ticks: self.half_period_ticks,
            events: self.events@,
        }
    }
}

/// Whether two views have the same clock settings.
pub open spec fn same_settings(a: ContextView, b: ContextView) -> bool {
    &&& a.max_frequency == b.max_frequency
    &&& a.cpu_frequency == b.cpu_frequency
    &&& a.cycles_per_us == b.cycles_per_us
    &&& a.half_period_ticks == b.half_period_ticks
}

/// The view after appending `new_events` to the pin history.
pub open spec fn with_events(v: ContextView, new_events: Seq<PinEvent>) -> ContextView {
    ContextView { events: v.events + new_events, ..v }
}

/// Events of an SWJ sequence: SWDIO and SWCLK are driven to output high,
/// the counter is read, half a clock period of `half` ticks passes, then the
/// bits are clocked out.
pub open spec fn swj_sequence_events(data: Seq<u8>, bits: nat, half: u32) -> Seq<PinEvent> {
    seq![
        PinEvent::Output(DbgLine::Swclk, true),
        PinEvent::Output(DbgLine::Swdio, true),
        PinEvent::ReadCount,
        PinEvent::Delay(half),
    ] + sequence_write_events(data, bits, half)
}

/// Clock cycles writing the first `bits` bits of `data`, each byte least
/// significant bit first; bytes past the last bit are walked but write
/// nothing.
pub open spec fn sequence_write_events(data: Seq<u8>, bits: nat, half: u32) -> Seq<PinEvent>
    decreases data.len(),
{
    if data.len() == 0 {
        Seq::empty()
    } else {
        let n: nat = if bits < 8 { bits } else { 8 };
        write_bits_events(data[0] as nat, n, half) + sequence_write_events(
            data.drop_first(),
            (bits - n) as nat,
            half,
        )
    }
}

/// The events of setting the lines that `mask` selects to the levels of
/// `output`: SWCLK and SWDIO are made outputs and set, nRESET is released
/// for a high level and pulled low otherwise.
pub open spec fn swj_pin_drive_events(output: u8, mask: u8) -> Seq<PinEvent> {
    (if has_pin(mask, SWJ_PIN_SWCLK) {
        seq![
            PinEvent::Output(DbgLine::Swclk, true),
            PinEvent::Drive(DbgLine::Swclk, has_pin(output, SWJ_PIN_SWCLK)),
        ]
    } else {
        Seq::empty()
    }) + (if has_pin(mask, SWJ_PIN_SWDIO) {
        seq![
            PinEvent::Output(DbgLine::Swdio, true),
            PinEvent::Drive(DbgLine::Swdio, has_pin(output, SWJ_PIN_SWDIO)),
        ]
    } else {
        Seq::empty()
    }) + (if has_pin(mask, SWJ_PIN_NRESET) {
        if has_pin(output, SWJ_PIN_NRESET) {
            seq![PinEvent::ToInput(DbgLine::Nreset)]
        } else {
            seq![PinEvent::Output(DbgLine::Nreset, false)]
        }
    } else {
        Seq::empty()
    })
}

/// The events of releasing and reading back the three lines.
pub open spec fn swj_pin_readback_events(swclk: bool, swdio: bool, nreset: bool) -> Seq<PinEvent> {
    seq![
        PinEvent::ToInput(DbgLine::Swclk),
        PinEvent::Sample(DbgLine::Swclk, swclk),
        PinEvent::ToInput(DbgLine::Swdio),
        PinEvent::Sample(DbgLine::Swdio, swdio),
        PinEvent::ToInput(DbgLine::Nreset),
        PinEvent::Sample(DbgLine::Nreset, nreset),
    ]
}

/// Whether every line that `mask` selects reads the level that `output`
/// asks for, given the levels of SWCLK, SWDIO and nRESET in that order.
pub open spec fn swj_pins_settled(output: u8, mask: u8, levels: (bool, bool, bool)) -> bool {
    &&& has_pin(mask, SWJ_PIN_SWCLK) ==> levels.0 == has_pin(output, SWJ_PIN_SWCLK)
    &&& has_pin(mask, SWJ_PIN_SWDIO) ==> levels.1 == has_pin(output, SWJ_PIN_SWDIO)
    &&& has_pin(mask, SWJ_PIN_NRESET) ==> levels.2 == has_pin(output, SWJ_PIN_NRESET)
}

/// One round of waiting for the lines: a wait of `ticks` ticks, then a
/// reading of each line that `mask` selects, which gave `levels`.
pub open spec fn swj_wait_round_events(mask: u8, ticks: u32, levels: (bool, bool, bool)) -> Seq<
    PinEvent,
> {
    seq![PinEvent::Delay(ticks)] + (if has_pin(mask, SWJ_PIN_SWCLK) {
        seq![PinEvent::Peek(DbgLine::Swclk, levels.0)]
    } else {
        Seq::empty()
    }) + (if has_pin(mask, SWJ_PIN_SWDIO) {
        seq![PinEvent::Peek(DbgLine::Swdio, levels.1)]
    } else {
        Seq::empty()
    }) + (if has_pin(mask, SWJ_PIN_NRESET) {
        seq![PinEvent::Peek(DbgLine::Nreset, levels.2)]
    } else {
        Seq::empty()
    })
}

/// The rounds of waiting, in order.
pub open spec fn swj_wait_events(mask: u8, ticks: u32, rounds: Seq<(bool, bool, bool)>) -> Seq<
    PinEvent,
>
    decreases rounds.len(),
{
    if rounds.len() == 0 {
        Seq::empty()
    } else {
        swj_wait_events(mask, ticks, rounds.drop_last()) + swj_wait_round_events(
            mask,
            ticks,
            rounds.last(),
        )
    }
}

/// Whether `rounds` is a wait of at most `wait_us` rounds that stops early
/// only at, and always at, the first round in which every selected line
/// reads the level asked for.
pub open spec fn swj_wait_rounds_ok(
    output: u8,
    mask: u8,
    wait_us: u32,
    rounds: Seq<(bool, bool, bool)>,
) -> bool {
    &&& rounds.len() <= wait_us
    &&& forall|i: int|
        0 <= i < rounds.len() - 1 ==> !swj_pins_settled(output, mask, #[trigger] rounds[i])
    &&& rounds.len() < wait_us ==> rounds.len() > 0 && swj_pins_settled(
        output,
        mask,
        rounds.last(),
    )
}

/// The events of `process_swj_pins`: the lines are driven, the counter is
/// read, the rounds of waiting of `ticks` ticks each follow, and the three
/// lines are released and read back.
pub open spec fn swj_pins_events(
    output: u8,
    mask: u8,
    ticks: u32,
    rounds: Seq<(bool, bool, bool)>,
    swclk: bool,
    swdio: bool,
    nreset: bool,
) -> Seq<PinEvent> {
    swj_pin_drive_events(output, mask) + seq![PinEvent::ReadCount] + swj_wait_events(
        mask,
        ticks,
        rounds,
    ) + swj_pin_readback_events(swclk, swdio, nreset)
}

/// A host pin set selects SWCLK by bit 0x01, SWDIO by bit 0x02 and nRESET
/// by bit 0x80, whatever its other bits.
pub proof fn lemma_pin_bits_select_lines(pins: u8)
    ensures
        has_pin(pins, SWJ_PIN_SWCLK) == (pins & 0x01u8 != 0),
        has_pin(pins, SWJ_PIN_SWDIO) == (pins & 0x02u8 != 0),
        has_pin(pins, SWJ_PIN_NRESET) == (pins & 0x80u8 != 0),
{
    assert((pins & 0x01u8 == 0x01u8) == (pins & 0x01u8 != 0)) by (bit_vector);
    assert((pins & 0x02u8 == 0x02u8) == (pins & 0x02u8 != 0)) by (bit_vector);
    assert((pins & 0x80u8 == 0x80u8) == (pins & 0x80u8 != 0)) by (bit_vector);
}

/// The reported pin set names exactly the lines that read high: bit 0x01
/// is SWCLK, bit 0x02 SWDIO and bit 0x80 nRESET, and no other bit is set.
pub proof fn lemma_pins_report_exactly_the_levels(swclk: bool, swdio: bool, nreset: bool)
    ensures
        ({
            let r = pins_from_levels(swclk, swdio, nreset);
            &&& (r & 0x01u8 != 0) == swclk
            &&& (r & 0x02u8 != 0) == swdio
            &&& (r & 0x80u8 != 0) == nreset
            &&& r & 0x7cu8 == 0
        }),
{
    let a: u8 = if swclk { SWJ_PIN_SWCLK } else { 0u8 };
    let b: u8 = if swdio { SWJ_PIN_SWDIO } else { 0u8 };
    let c: u8 = if nreset { SWJ_PIN_NRESET } else { 0u8 };
    let r = pins_from_levels(swclk, swdio, nreset);
    assert(r == a | b | c);
    assert((a == 0u8 || a == 1u8) && (b == 0u8 || b == 2u8) && (c == 0u8 || c == 0x80u8) ==> {
        &&& ((a | b | c) & 0x01u8 != 0) == (a == 1u8)
        &&& ((a | b | c) & 0x02u8 != 0) == (b == 2u8)
        &&& ((a | b | c) & 0x80u8 != 0) == (c == 0x80u8)
        &&& (a | b | c) & 0x7cu8 == 0
    }) by (bit_vector);
}

/// Whether pin set `pins` holds the pin bit `pin`.
pub fn contains_pin(pins: u8, pin: u8) -> (r: bool)
    ensures
        r == has_pin(pins, pin),
{
    pins & pin == pin
}

/// The pin set reporting three levels.
pub fn levels_to_pins(swclk: bool, swdio: bool, nreset: bool) -> (r: u8)
    ensures
        r == pins_from_levels(swclk, swdio, nreset),
{
    (if swclk { SWJ_PIN_SWCLK } else { 0u8 }) | (if swdio { SWJ_PIN_SWDIO } else { 0u8 }) | (
    if nreset { SWJ_PIN_NRESET } else { 0u8 })
}

impl<P: DbgPin, D: DbgDelay> Context<P, D> {
    /// A port on the given lines, clocked at 100 kHz, for a CPU running at
    /// `cpu_frequency` Hz.
    pub fn from_pins(swdio: P, swclk: P, nreset: P, cpu_frequency: u32, delay: D) -> (r: Self)
        ensures
            r@ == (ContextView {
                max_frequency: DEFAULT_MAX_FREQUENCY,
                cpu_frequency,
                cycles_per_us: cpu_frequency / 1_000_000,
                half_period_ticks: cpu_frequency / DEFAULT_MAX_FREQUENCY / 2,
                events: Seq::empty(),
            }),
    {
        let max_frequency = DEFAULT_MAX_FREQUENCY;
        let half_period_ticks = cpu_frequency / max_frequency / 2;
        Context {
            max_frequency,
            cpu_frequency,
            cycles_per_us: cpu_frequency / 1_000_000,
            half_period_ticks,
            delay,
            swdio,
            swclk,
            nreset,
            events: Ghost(Seq::empty()),
            mark: Ghost(0),
        }
    }

    /// Releases a line.
    fn line_input(&mut self, line: DbgLine)
        ensures
            final(self)@ == with_events(old(self)@, seq![PinEvent::ToInput(line)]),
    {
        match line {
            DbgLine::Swclk => self.swclk.into_input(),
            DbgLine::Swdio => self.swdio.into_input(),
            DbgLine::Nreset => self.nreset.into_input(),
        }
        self.events = Ghost(self.events@.push(PinEvent::ToInput(line)));
        assert(self.events@ =~= old(self)@.events + seq![PinEvent::ToInput(line)]);
    }

    /// Makes a line an output at the given level.
    fn line_output(&mut self, line: DbgLine, high: bool)
        ensures
            final(self)@ == with_events(old(self)@, seq![PinEvent::Output(line, high)]),
    {
        match line {
            DbgLine::Swclk => self.swclk.into_output_in_state(high),
            DbgLine::Swdio => self.swdio.into_output_in_state(high),
            DbgLine::Nreset => self.nreset.into_output_in_state(high),
        }
        self.events = Ghost(self.events@.push(PinEvent::Output(line, high)));
        assert(self.events@ =~= old(self)@.events + seq![PinEvent::Output(line, high)]);
    }

    /// Drives an output line to a level.
    pub(crate) fn line_drive(&mut self, line: DbgLine, high: bool)
        ensures
            final(self)@ == with_events(old(self)@, seq![PinEvent::Drive(line, high)]),
            final(self).tick_mark() == old(self).tick_mark(),
    {
        match line {
            DbgLine::Swclk => if high {
                self.swclk.set_high()
            } else {
                self.swclk.set_low()
            },
            DbgLine::Swdio => if high {
                self.swdio.set_high()
            } else {
                self.swdio.set_low()
            },
            DbgLine::Nreset => if high {
                self.nreset.set_high()
            } else {
                self.nreset.set_low()
            },
        }
        self.events = Ghost(self.events@.push(PinEvent::Drive(line, high)));
        assert(self.events@ =~= old(self)@.events + seq![PinEvent::Drive(line, high)]);
    }

    /// Reads a line and records the reading.
    pub(crate) fn line_sample(&mut self, line: DbgLine) -> (r: bool)
        ensures
            final(self)@ == with_events(old(self)@, seq![PinEvent::Sample(line, r)]),
            final(self).tick_mark() == old(self).tick_mark(),
    {
        let r = match line {
            DbgLine::Swclk => self.swclk.is_high(),
            DbgLine::Swdio => self.swdio.is_high(),
            DbgLine::Nreset => self.nreset.is_high(),
        };
        self.events = Ghost(self.events@.push(PinEvent::Sample(line, r)));
        assert(self.events@ =~= old(self)@.events + seq![PinEvent::Sample(line, r)]);
        r
    }

    /// Reads a line to check its level while waiting for it; the reading
    /// is recorded as such, apart from the samples that are reported.
    fn line_peek(&mut self, line: DbgLine) -> (r: bool)
        ensures
            final(self)@ == with_events(old(self)@, seq![PinEvent::Peek(line, r)]),
            final(self).tick_mark() == old(self).tick_mark(),
    {
        let r = match line {
            DbgLine::Swclk => self.swclk.is_high(),
            DbgLine::Swdio => self.swdio.is_high(),
            DbgLine::Nreset => self.nreset.is_high(),
        };
        self.events = Ghost(self.events@.push(PinEvent::Peek(line, r)));
        assert(self.events@ =~= old(self)@.events + seq![PinEvent::Peek(line, r)]);
        r
    }

    pub(crate) fn swdio_to_input(&mut self)
        ensures
            final(self)@ == with_events(old(self)@, seq![PinEvent::ToInput(DbgLine::Swdio)]),
    {
        self.line_input(DbgLine::Swdio);
    }

    pub(crate) fn swdio_to_output(&mut self)
        ensures
            final(self)@ == with_events(old(self)@, seq![PinEvent::Output(DbgLine::Swdio, true)]),
    {
        self.line_output(DbgLine::Swdio, true);
    }

    pub(crate) fn swclk_to_input(&mut self)
        ensures
            final(self)@ == with_events(old(self)@, seq![PinEvent::ToInput(DbgLine::Swclk)]),
    {
        self.line_input(DbgLine::Swclk);
    }

    pub(crate) fn swclk_to_output(&mut self)
        ensures
            final(self)@ == with_events(old(self)@, seq![PinEvent::Output(DbgLine::Swclk, true)]),
    {
        self.line_output(DbgLine::Swclk, true);
    }

    pub(crate) fn nreset_to_input(&mut self)
        ensures
            final(self)@ == with_events(old(self)@, seq![PinEvent::ToInput(DbgLine::Nreset)]),
    {
        self.line_input(DbgLine::Nreset);
    }

    /// Reads the delay's tick counter; the next wait counts from what it
    /// gave.
    pub(crate) fn delay_now(&mut self) -> (r: u32)
        ensures
            final(self)@ == with_events(old(self)@, seq![PinEvent::ReadCount]),
            r == final(self).tick_mark(),
    {
        let r = self.delay.get_current();
        self.events = Ghost(self.events@.push(PinEvent::ReadCount));
        self.mark = Ghost(r);
        assert(self.events@ =~= old(self)@.events + seq![PinEvent::ReadCount]);
        r
    }

    /// Waits `ticks` ticks counted from `last`, where the previous wait
    /// ended or the counter was read, and returns the count at which this
    /// wait ended.
    pub(crate) fn delay_for(&mut self, ticks: u32, last: u32) -> (r: u32)
        requires
            last == old(self).tick_mark(),
        ensures
            final(self)@ == with_events(old(self)@, seq![PinEvent::Delay(ticks)]),
            r == final(self).tick_mark(),
    {
        let r = self.delay.delay_ticks_from_last(ticks, last);
        self.events = Ghost(self.events@.push(PinEvent::Delay(ticks)));
        self.mark = Ghost(r);
        assert(self.events@ =~= old(self)@.events + seq![PinEvent::Delay(ticks)]);
        r
    }

    /// One output clock cycle: drives SWDIO to `bit`, then clocks SWCLK low
    /// and high, waiting half a period after each edge.
    pub(crate) fn clock_out(&mut self, bit: bool, last: u32) -> (r: u32)
        requires
            last == old(self).tick_mark(),
        ensures
            final(self)@ == with_events(
                old(self)@,
                write_bit_events(bit, old(self)@.half_period_ticks),
            ),
            r == final(self).tick_mark(),
    {
        let half = self.half_period_ticks;
        self.line_drive(DbgLine::Swdio, bit);
        self.line_drive(DbgLine::Swclk, false);
        let last = self.delay_for(half, last);
        self.line_drive(DbgLine::Swclk, true);
        let last = self.delay_for(half, last);
        assert(self@.events =~= old(self)@.events + write_bit_events(bit, half));
        last
    }

    /// One input clock cycle: SWCLK low, wait, sample SWDIO, SWCLK high,
    /// wait.
    pub(crate) fn clock_in(&mut self, last: u32) -> (r: (bool, u32))
        requires
            last == old(self).tick_mark(),
        ensures
            final(self)@ == with_events(
                old(self)@,
                read_bit_events(r.0, old(self)@.half_period_ticks),
            ),
            r.1 == final(self).tick_mark(),
    {
        let half = self.half_period_ticks;
        self.line_drive(DbgLine::Swclk, false);
        let last = self.delay_for(half, last);
        let bit = self.line_sample(DbgLine::Swdio);
        self.line_drive(DbgLine::Swclk, true);
        let last = self.delay_for(half, last);
        assert(self@.events =~= old(self)@.events + read_bit_events(bit, half));
        (bit, last)
    }

    /// Clocks out the low `n` bits of `value`, least significant first.
    pub(crate) fn clock_out_bits(&mut self, value: u32, n: u32, last: u32) -> (r: u32)
        requires
            n <= 32,
            last == old(self).tick_mark(),
        ensures
            final(self)@ == with_events(
                old(self)@,
                write_bits_events(value as nat, n as nat, old(self)@.half_period_ticks),
            ),
            r == final(self).tick_mark(),
    {
        let mut last = last;
        let mut i: u32 = 0;
        while i < n
            invariant
                i <= n <= 32,
                self@ == with_events(
                    old(self)@,
                    write_bits_events(value as nat, i as nat, old(self)@.half_period_ticks),
                ),
                last == self.tick_mark(),
            decreases n - i,
        {
            let ghost before = self@;
            proof {
                lemma_u32_shr_is_div(value, i);
                assert((value >> i) & 1 == (value >> i) % 2) by (bit_vector);
            }
            let bit = (value >> i) & 1 == 1;
            last = self.clock_out(bit, last);
            assert(self@.events =~= old(self)@.events + write_bits_events(
                value as nat,
                (i + 1) as nat,
                old(self)@.half_period_ticks,
            ));
            i += 1;
        }
        last
    }


    /// Clocks in `n` bits and assembles them least significant first.
    pub(crate) fn clock_in_bits(&mut self, n: u32, last: u32) -> (r: (u32, u32, Ghost<Seq<bool>>))
        requires
            n <= 32,
            last == old(self).tick_mark(),
        ensures
            r.2@.len() == n,
            final(self)@ == with_events(
                old(self)@,
                read_bits_events(r.2@, old(self)@.half_period_ticks),
            ),
            r.0 == bits_value(r.2@),
            r.1 == final(self).tick_mark(),
    {
        let mut last = last;
        let mut value: u32 = 0;
        let mut i: u32 = 0;
        let ghost mut bits: Seq<bool> = Seq::empty();
        proof {
            lemma_pow2_pos(0);
            assert(self@.events =~= old(self)@.events + read_bits_events(
                bits,
                old(self)@.half_period_ticks,
            ));
        }
        while i < n
            invariant
                i <= n <= 32,
                bits.len() == i,
                value == bits_value(bits),
                value < pow2(i as nat),
                self@ == with_events(old(self)@, read_bits_events(bits, old(self)@.half_period_ticks)),
                last == self.tick_mark(),
            decreases n - i,
        {
            let (bit, l) = self.clock_in(last);
            last = l;
            proof {
                lemma_u32_pow2_no_overflow(i as nat);
                lemma_u32_shl_is_mul(1, i);
                lemma_pow2_unfold((i + 1) as nat);
                assert(i < 32 && value < (1u32 << i) ==> (value | (1u32 << i)) == value + (1u32 << i))
                    by (bit_vector);
            }
            if bit {
                value = value | (1u32 << i);
            }
            proof {
                assert(bits.push(bit).drop_last() =~= bits);
                let half = old(self)@.half_period_ticks;
                assert(read_bits_events(bits.push(bit), half) =~= read_bits_events(bits, half)
                    + read_bit_events(bit, half));
                bits = bits.push(bit);
                assert(self@.events =~= old(self)@.events + read_bits_events(bits, half));
            }
            i += 1;
        }
        (value, last, Ghost(bits))
    }

    /// Drives the lines selected by `mask` to the levels in `output`, waits
    /// up to `wait_us` microseconds for them to read those levels, then
    /// releases SWCLK, SWDIO and nRESET and reports the levels they read.
    /// Each microsecond of waiting is a wait of `cycles_per_us` ticks
    /// followed by a reading of each selected line; the waiting stops at the
    /// first round in which they all read their levels.
    #[verifier::rlimit(40)]
    pub fn process_swj_pins(&mut self, output: u8, mask: u8, wait_us: u32) -> (r: u8)
        ensures
            exists|rounds: Seq<(bool, bool, bool)>, swclk: bool, swdio: bool, nreset: bool|
                {
                    &&& swj_wait_rounds_ok(output, mask, wait_us, rounds)
                    &&& final(self)@ == with_events(
                        old(self)@,
                        swj_pins_events(
                            output,
                            mask,
                            old(self)@.cycles_per_us,
                            rounds,
                            swclk,
                            swdio,
                            nreset,
                        ),
                    )
                    &&& r == pins_from_levels(swclk, swdio, nreset)
                },
    {
        if contains_pin(mask, SWJ_PIN_SWCLK) {
            self.swclk_to_output();
            self.line_drive(DbgLine::Swclk, contains_pin(output, SWJ_PIN_SWCLK));
        }
        assert(self@.events =~= old(self)@.events + (if has_pin(mask, SWJ_PIN_SWCLK) {
            seq![
                PinEvent::Output(DbgLine::Swclk, true),
                PinEvent::Drive(DbgLine::Swclk, has_pin(output, SWJ_PIN_SWCLK)),
            ]
        } else {
            Seq::empty()
        }));
        let ghost after_clk = self@;
        if contains_pin(mask, SWJ_PIN_SWDIO) {
            self.swdio_to_output();
            self.line_drive(DbgLine::Swdio, contains_pin(output, SWJ_PIN_SWDIO));
        }
        assert(self@.events =~= after_clk.events + (if has_pin(mask, SWJ_PIN_SWDIO) {
            seq![
                PinEvent::Output(DbgLine::Swdio, true),
                PinEvent::Drive(DbgLine::Swdio, has_pin(output, SWJ_PIN_SWDIO)),
            ]
        } else {
            Seq::empty()
        }));
        let ghost after_dio = self@;
        if contains_pin(mask, SWJ_PIN_NRESET) {
            if contains_pin(output, SWJ_PIN_NRESET) {
                self.nreset_to_input();
            } else {
                self.line_output(DbgLine::Nreset, false);
            }
        }
        assert(self@.events =~= old(self)@.events + swj_pin_drive_events(output, mask));
        let ghost driven = self@;

        let mut last = self.delay_now();
        let ghost counted = self@;
        let ghost mut rounds: Seq<(bool, bool, bool)> = Seq::empty();
        let cycles_per_us = self.cycles_per_us;
        let mut k: u32 = 0;
        while k < wait_us
            invariant_except_break
                k <= wait_us,
                rounds.len() == k,
                forall|i: int| 0 <= i < k ==> !swj_pins_settled(output, mask, #[trigger] rounds[i]),
            invariant
                self@ == with_events(counted, swj_wait_events(mask, cycles_per_us, rounds)),
                cycles_per_us == counted.cycles_per_us,
                last == self.tick_mark(),
            ensures
                swj_wait_rounds_ok(output, mask, wait_us, rounds),
                self@ == with_events(counted, swj_wait_events(mask, cycles_per_us, rounds)),
            decreases wait_us - k,
        {
            let ghost before = self@;
            last = self.delay_for(cycles_per_us, last);
            let ghost mut l0: bool = false;
            let ghost mut l1: bool = false;
            let ghost mut l2: bool = false;
            let swclk_not_in_desired_state = if contains_pin(mask, SWJ_PIN_SWCLK) {
                let level = self.line_peek(DbgLine::Swclk);
                proof {
                    l0 = level;
                }
                contains_pin(output, SWJ_PIN_SWCLK) != level
            } else {
                false
            };
            let swdio_not_in_desired_state = if contains_pin(mask, SWJ_PIN_SWDIO) {
                let level = self.line_peek(DbgLine::Swdio);
                proof {
                    l1 = level;
                }
                contains_pin(output, SWJ_PIN_SWDIO) != level
            } else {
                false
            };
            let nreset_not_in_desired_state = if contains_pin(mask, SWJ_PIN_NRESET) {
                let level = self.line_peek(DbgLine::Nreset);
                proof {
                    l2 = level;
                }
                contains_pin(output, SWJ_PIN_NRESET) != level
            } else {
                false
            };
            let ghost levels = (l0, l1, l2);
            proof {
                assert(self@.events =~= before.events + swj_wait_round_events(
                    mask,
                    cycles_per_us,
                    levels,
                ));
                assert(rounds.push(levels).drop_last() =~= rounds);
                assert(rounds.push(levels).last() == levels);
                rounds = rounds.push(levels);
                assert(self@.events =~= counted.events + swj_wait_events(mask, cycles_per_us, rounds));
            }
            if !(swclk_not_in_desired_state || swdio_not_in_desired_state
                || nreset_not_in_desired_state) {
                break;
            }
            k += 1;
        }

        self.swclk_to_input();
        let swclk = self.line_sample(DbgLine::Swclk);
        self.swdio_to_input();
        let swdio = self.line_sample(DbgLine::Swdio);
        self.nreset_to_input();
        let nreset = self.line_sample(DbgLine::Nreset);
        assert(self@.events =~= old(self)@.events + swj_pins_events(
            output,
            mask,
            cycles_per_us,
            rounds,
            swclk,
            swdio,
            nreset,
        ));
        levels_to_pins(swclk, swdio, nreset)
    }

    /// Clocks out the first `bits` bits of `data`, each byte least
    /// significant bit first.
    pub(crate) fn clock_out_sequence(&mut self, data: &[u8], bits: usize, last: u32) -> (r: u32)
        requires
            last == old(self).tick_mark(),
        ensures
            final(self)@ == with_events(
                old(self)@,
                sequence_write_events(data@, bits as nat, old(self)@.half_period_ticks),
            ),
            r == final(self).tick_mark(),
    {
        let ghost half = self@.half_period_ticks;
        let mut last = last;
        let ghost bits0 = bits;
        let mut bits = bits;
        let mut k: usize = 0;
        assert(data@.skip(0) =~= data@);
        while k < data.len()
            invariant
                k <= data@.len(),
                old(self)@.events + sequence_write_events(data@, bits0 as nat, half) == self@.events
                    + sequence_write_events(data@.skip(k as int), bits as nat, half),
                same_settings(self@, old(self)@),
                half == old(self)@.half_period_ticks,
                last == self.tick_mark(),
            decreases data@.len() - k,
        {
            let frame_bits: usize = if bits < 8 { bits } else { 8 };
            let ghost before = self@;
            proof {
                assert(data@.skip(k as int).drop_first() =~= data@.skip(k + 1));
                assert(data@.skip(k as int)[0] == data@[k as int]);
            }
            last = self.clock_out_bits(data[k] as u32, frame_bits as u32, last);
            bits = bits - frame_bits;
            k += 1;
            assert(self@.events + sequence_write_events(data@.skip(k as int), bits as nat, half)
                =~= before.events + sequence_write_events(
                data@.skip(k - 1),
                (bits + frame_bits) as nat,
                half,
            ));
        }
        assert(sequence_write_events(data@.skip(k as int), bits as nat, half) =~= Seq::<
            PinEvent,
        >::empty());
        assert(self@.events =~= old(self)@.events + sequence_write_events(data@, bits0 as nat, half));
        last
    }

    /// Drives SWCLK and SWDIO as outputs, waits half a clock period, and
    /// clocks out the first `bits` bits of `data`, each byte least
    /// significant bit first, waiting half a period after each clock edge.
    pub fn process_swj_sequence(&mut self, data: &[u8], bits: usize)
        ensures
            final(self)@ == with_events(
                old(self)@,
                swj_sequence_events(data@, bits as nat, old(self)@.half_period_ticks),
            ),
    {
        self.swclk_to_output();
        self.swdio_to_output();
        let half_period_ticks = self.half_period_ticks;
        let mut last = self.delay_now();
        last = self.delay_for(half_period_ticks, last);
        let _ = self.clock_out_sequence(data, bits, last);
        assert(self@.events =~= old(self)@.events + swj_sequence_events(
            data@,
            bits as nat,
            half_period_ticks,
        ));
    }


    /// The SWJ clock in Hz.
    pub fn max_frequency(&self) -> (r: u32)
        ensures
            r == self@.max_frequency,
    {
        self.max_frequency
    }

    /// The CPU clock in Hz.
    pub fn cpu_frequency(&self) -> (r: u32)
        ensures
            r == self@.cpu_frequency,
    {
        self.cpu_frequency
    }

    /// CPU cycles per microsecond.
    pub fn cycles_per_us(&self) -> (r: u32)
        ensures
            r == self@.cycles_per_us,
    {
        self.cycles_per_us
    }

    /// Delay ticks per half SWD clock period.
    pub fn half_period_ticks(&self) -> (r: u32)
        ensures
            r == self@.half_period_ticks,
    {
        self.half_period_ticks
    }

    /// Sets a new SWJ clock when it is below the CPU clock, and reports
    /// whether it did.
    pub fn process_swj_clock(&mut self, max_frequency: u32) -> (r: bool)
        requires
            max_frequency > 0 || old(self)@.cpu_frequency == 0,
        ensures
            r == (max_frequency < old(self)@.cpu_frequency),
            r ==> final(self)@ == (ContextView {
                max_frequency,
                half_period_ticks: old(self)@.cpu_frequency / max_frequency / 2,
                ..old(self)@
            }),
            !r ==> final(self)@ == old(self)@,
    {
        if max_frequency < self.cpu_frequency {
            self.max_frequency = max_frequency;
            self.half_period_ticks = self.cpu_frequency / self.max_frequency / 2;
            true
        } else {
            false
        }
    }

    /// Releases all three lines.
    pub fn high_impedance_mode(&mut self)
        ensures
            final(self)@ == with_events(
                old(self)@,
                seq![
                    PinEvent::ToInput(DbgLine::Swdio),
                    PinEvent::ToInput(DbgLine::Swclk),
                    PinEvent::ToInput(DbgLine::Nreset),
                ],
            ),
    {
        self.swdio_to_input();
        self.swclk_to_input();
        self.nreset_to_input();
        assert(self@.events =~= old(self)@.events + seq![
            PinEvent::ToInput(DbgLine::Swdio),
            PinEvent::ToInput(DbgLine::Swclk),
            PinEvent::ToInput(DbgLine::Nreset),
        ]);
    }
}

} // verus!
