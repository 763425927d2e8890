//! SWD transfers bit-banged over the debug-port lines.

use vstd::prelude::*;
use crate::dap::context::{
    Context, ContextView, DbgDelay, DbgPin, same_settings, sequence_write_events, with_events,
};
use crate::dap::wire::{
    APnDP, DPRegister, DbgLine, PinEvent, RnW, SwdError, ack_outcome, ack_try_ok, bits_value,
    bit_of, make_request, popcount, read_bit_events, read_bits_events, spec_make_request, count_ones,
    write_bit_events, write_bits_events, count_true, word_bits, swdio_levels_driven,
    lemma_popcount_set_bit, lemma_popcount_bits_value, lemma_count_true_flip, lemma_word_bits_count,
    lemma_levels_driven_concat, lemma_levels_driven_none, lemma_read_bits_levels,
    lemma_write_bit_levels, lemma_write_word_levels, lemma_word_bits_of_value,
};

verus! {

/// An eight-bit write on SWDIO: take the line, read the counter, then clock
/// out the byte with clock phases of `half` ticks.
pub open spec fn tx8_events(byte: u8, half: u32) -> Seq<PinEvent> {
    seq![PinEvent::Output(DbgLine::Swdio, true), PinEvent::ReadCount] + write_bits_events(
        byte as nat,
        8,
        half,
    )
}

/// A read on SWDIO: release the line, read the counter, then clock in the
/// bits with clock phases of `half` ticks.
pub open spec fn rx_events(bits: Seq<bool>, half: u32) -> Seq<PinEvent> {
    seq![PinEvent::ToInput(DbgLine::Swdio), PinEvent::ReadCount] + read_bits_events(bits, half)
}

/// The data phase of a write: take the line, read the counter, then 32 data
/// bits and the parity bit.
pub open spec fn send_data_events(data: u32, parity: bool, half: u32) -> Seq<PinEvent> {
    seq![PinEvent::Output(DbgLine::Swdio, true), PinEvent::ReadCount] + write_bits_events(
        data as nat,
        32,
        half,
    ) + write_bit_events(parity, half)
}

/// Whether a number has an odd count of one bits.
pub open spec fn odd_parity(x: nat) -> bool {
    popcount(x) % 2 == 1
}

/// The acknowledgement of a read: the four sampled bits are one turnaround
/// cycle and the three acknowledgement bits.
pub open spec fn read_ack(samples: Seq<bool>) -> u8 {
    (bits_value(samples.subrange(0, 4)) / 2) as u8
}

/// The acknowledgement of a write: five sampled bits, a turnaround cycle on
/// each side of the three acknowledgement bits.
pub open spec fn write_ack(samples: Seq<bool>) -> u8 {
    ((bits_value(samples) / 2) % 8) as u8
}

/// The number of bits a read samples: the acknowledgement phase, then on OK
/// 32 data bits, parity and a turnaround cycle.
pub open spec fn read_sample_count(samples: Seq<bool>) -> nat {
    if samples.len() >= 4 && ack_outcome(read_ack(samples)) is Ok {
        38
    } else {
        4
    }
}

/// The line events of a read transfer given what was sampled, with clock
/// phases of `half` ticks.
pub open spec fn read_transfer_events(req: u8, samples: Seq<bool>, half: u32) -> Seq<PinEvent> {
    tx8_events(req, half) + rx_events(samples.subrange(0, 4), half) + if ack_outcome(
        read_ack(samples),
    ) is Ok {
        rx_events(samples.subrange(4, 37), half) + seq![PinEvent::ReadCount] + read_bit_events(
            samples[37],
            half,
        ) + tx8_events(0, half)
    } else {
        tx8_events(0, half)
    }
}

/// The result of a read transfer given what was sampled.
pub open spec fn read_transfer_outcome(samples: Seq<bool>) -> Result<u32, SwdError> {
    match ack_outcome(read_ack(samples)) {
        Err(e) => Err(e),
        Ok(()) => {
            let data = bits_value(samples.subrange(4, 36));
            if samples[36] == odd_parity(data) {
                Ok(data as u32)
            } else {
                Err(SwdError::BadParity)
            }
        },
    }
}

/// The line events of a write transfer given what was sampled, with clock
/// phases of `half` ticks.
pub open spec fn write_transfer_events(req: u8, data: u32, samples: Seq<bool>, half: u32) -> Seq<
    PinEvent,
> {
    tx8_events(req, half) + rx_events(samples, half) + if ack_outcome(write_ack(samples)) is Ok {
        send_data_events(data, odd_parity(data as nat), half) + tx8_events(0, half)
    } else {
        tx8_events(0, half)
    }
}

/// The bits of byte `k` that a sequence of `num_bits` bits covers.
pub open spec fn frame_bits(num_bits: nat, k: nat) -> nat {
    if num_bits <= 8 * k {
        0
    } else if num_bits - 8 * k < 8 {
        (num_bits - 8 * k) as nat
    } else {
        8
    }
}

/// The line events of reading the groups of bits in order.
pub open spec fn sequence_read_events(groups: Seq<Seq<bool>>, half: u32) -> Seq<PinEvent>
    decreases groups.len(),
{
    if groups.len() == 0 {
        Seq::empty()
    } else {
        sequence_read_events(groups.drop_last(), half) + read_bits_events(groups.last(), half)
    }
}


/// A read whose acknowledgement is not OK samples only the acknowledgement
/// phase and fails with the acknowledgement's error.
proof fn lemma_read_transfer_refused(req: u8, ack_bits: Seq<bool>, half: u32)
    requires
        ack_bits.len() == 4,
        ack_outcome((bits_value(ack_bits) / 2) as u8) is Err,
    ensures
        read_sample_count(ack_bits) == 4,
        read_transfer_events(req, ack_bits, half) == tx8_events(req, half) + rx_events(
            ack_bits,
            half,
        ) + tx8_events(0, half),
        read_transfer_outcome(ack_bits) == Err::<u32, SwdError>(
            ack_outcome((bits_value(ack_bits) / 2) as u8)->Err_0,
        ),
{
    assert(ack_bits.subrange(0, 4) =~= ack_bits);
}

/// A read whose acknowledgement is OK samples 38 bits, and its result is
/// the data when the parity bit matches.
proof fn lemma_read_transfer_accepted(
    req: u8,
    ack_bits: Seq<bool>,
    data_bits: Seq<bool>,
    turnaround: bool,
    half: u32,
)
    requires
        ack_bits.len() == 4,
        data_bits.len() == 33,
        ack_outcome((bits_value(ack_bits) / 2) as u8) is Ok,
    ensures
        ({
            let samples = ack_bits + data_bits + seq![turnaround];
            &&& read_sample_count(samples) == 38
            &&& read_transfer_events(req, samples, half) == tx8_events(req, half) + rx_events(
                ack_bits,
                half,
            ) + rx_events(data_bits, half) + seq![PinEvent::ReadCount] + read_bit_events(
                turnaround,
                half,
            ) + tx8_events(0, half)
            &&& read_transfer_outcome(samples) == if data_bits[32] == odd_parity(
                bits_value(data_bits.subrange(0, 32)),
            ) {
                Ok(bits_value(data_bits.subrange(0, 32)) as u32)
            } else {
                Err(SwdError::BadParity)
            }
        }),
{
    let samples = ack_bits + data_bits + seq![turnaround];
    assert(samples.subrange(0, 4) =~= ack_bits);
    assert(samples.subrange(4, 37) =~= data_bits);
    assert(samples.subrange(4, 36) =~= data_bits.subrange(0, 32));
    assert(samples[36] == data_bits[32]);
    assert(samples[37] == turnaround);
    assert(read_transfer_events(req, samples, half) =~= tx8_events(req, half) + rx_events(
        ack_bits,
        half,
    ) + rx_events(data_bits, half) + seq![PinEvent::ReadCount] + read_bit_events(turnaround, half)
        + tx8_events(0, half));
}

/// Who holds SWDIO after an event: taking the line as an output gives it
/// to the probe, releasing it gives it to the target.
pub open spec fn swdio_owner_step(event: PinEvent, probe_owns: bool) -> bool {
    match event {
        PinEvent::Output(DbgLine::Swdio, _) => true,
        PinEvent::ToInput(DbgLine::Swdio) => false,
        _ => probe_owns,
    }
}

/// Whether an event respects the owner of SWDIO: the probe drives SWDIO
/// only while it holds the line and samples it only while the target does.
pub open spec fn swdio_event_ok(event: PinEvent, probe_owns: bool) -> bool {
    match event {
        PinEvent::Drive(DbgLine::Swdio, _) => probe_owns,
        PinEvent::Sample(DbgLine::Swdio, _) => !probe_owns,
        _ => true,
    }
}

/// Who holds SWDIO after a run of events.
pub open spec fn swdio_owner_after(events: Seq<PinEvent>, probe_owns: bool) -> bool
    decreases events.len(),
{
    if events.len() == 0 {
        probe_owns
    } else {
        swdio_owner_step(events.last(), swdio_owner_after(events.drop_last(), probe_owns))
    }
}

/// Whether every event of a run respects the owner of SWDIO.
pub open spec fn swdio_discipline(events: Seq<PinEvent>, probe_owns: bool) -> bool
    decreases events.len(),
{
    if events.len() == 0 {
        true
    } else {
        swdio_discipline(events.drop_last(), probe_owns) && swdio_event_ok(
            events.last(),
            swdio_owner_after(events.drop_last(), probe_owns),
        )
    }
}

proof fn lemma_discipline_concat(a: Seq<PinEvent>, b: Seq<PinEvent>, probe_owns: bool)
    ensures
        swdio_owner_after(a + b, probe_owns) == swdio_owner_after(b, swdio_owner_after(a, probe_owns)),
        swdio_discipline(a + b, probe_owns) == (swdio_discipline(a, probe_owns) && swdio_discipline(
            b,
            swdio_owner_after(a, probe_owns),
        )),
    decreases b.len(),
{
    if b.len() == 0 {
        assert(a + b =~= a);
    } else {
        lemma_discipline_concat(a, b.drop_last(), probe_owns);
        assert((a + b).drop_last() =~= a + b.drop_last());
        assert((a + b).last() == b.last());
    }
}

/// Whether an event leaves SWDIO alone: it neither takes, releases, drives
/// nor samples the line.
pub open spec fn swdio_untouched(event: PinEvent) -> bool {
    match event {
        PinEvent::Output(DbgLine::Swdio, _) => false,
        PinEvent::ToInput(DbgLine::Swdio) => false,
        PinEvent::Drive(DbgLine::Swdio, _) => false,
        PinEvent::Sample(DbgLine::Swdio, _) => false,
        _ => true,
    }
}

proof fn lemma_untouched_discipline(events: Seq<PinEvent>, probe_owns: bool)
    requires
        forall|i: int| 0 <= i < events.len() ==> swdio_untouched(#[trigger] events[i]),
    ensures
        swdio_discipline(events, probe_owns),
        swdio_owner_after(events, probe_owns) == probe_owns,
    decreases events.len(),
{
    if events.len() > 0 {
        let prev = events.drop_last();
        assert forall|i: int| 0 <= i < prev.len() implies swdio_untouched(#[trigger] prev[i]) by {
            assert(prev[i] == events[i]);
        }
        lemma_untouched_discipline(prev, probe_owns);
        assert(swdio_untouched(events[events.len() - 1]));
    }
}

proof fn lemma_single_discipline(e: PinEvent, probe_owns: bool)
    ensures
        swdio_discipline(seq![e], probe_owns) == swdio_event_ok(e, probe_owns),
        swdio_owner_after(seq![e], probe_owns) == swdio_owner_step(e, probe_owns),
{
    reveal_with_fuel(swdio_discipline, 2);
    reveal_with_fuel(swdio_owner_after, 2);
    assert(seq![e].drop_last() =~= Seq::<PinEvent>::empty());
    assert(seq![e].last() == e);
}

proof fn lemma_write_bit_discipline(bit: bool, half: u32)
    ensures
        swdio_discipline(write_bit_events(bit, half), true),
        forall|o: bool| #[trigger] swdio_owner_after(write_bit_events(bit, half), o) == o,
{
    let head = seq![PinEvent::Drive(DbgLine::Swdio, bit)];
    let tail = seq![
        PinEvent::Drive(DbgLine::Swclk, false),
        PinEvent::Delay(half),
        PinEvent::Drive(DbgLine::Swclk, true),
        PinEvent::Delay(half),
    ];
    assert(write_bit_events(bit, half) =~= head + tail);
    assert forall|o: bool| #[trigger] swdio_owner_after(write_bit_events(bit, half), o) == o by {
        lemma_single_discipline(PinEvent::Drive(DbgLine::Swdio, bit), o);
        lemma_untouched_discipline(tail, o);
        lemma_discipline_concat(head, tail, o);
    }
    lemma_single_discipline(PinEvent::Drive(DbgLine::Swdio, bit), true);
    lemma_untouched_discipline(tail, true);
    lemma_discipline_concat(head, tail, true);
}

proof fn lemma_read_bit_discipline(bit: bool, half: u32)
    ensures
        swdio_discipline(read_bit_events(bit, half), false),
        forall|o: bool| #[trigger] swdio_owner_after(read_bit_events(bit, half), o) == o,
{
    let head = seq![PinEvent::Drive(DbgLine::Swclk, false), PinEvent::Delay(half)];
    let mid = seq![PinEvent::Sample(DbgLine::Swdio, bit)];
    let tail = seq![PinEvent::Drive(DbgLine::Swclk, true), PinEvent::Delay(half)];
    assert(read_bit_events(bit, half) =~= head + mid + tail);
    assert forall|o: bool| #[trigger] swdio_owner_after(read_bit_events(bit, half), o) == o by {
        lemma_untouched_discipline(head, o);
        lemma_single_discipline(PinEvent::Sample(DbgLine::Swdio, bit), o);
        lemma_untouched_discipline(tail, o);
        lemma_discipline_concat(head, mid, o);
        lemma_discipline_concat(head + mid, tail, o);
    }
    lemma_untouched_discipline(head, false);
    lemma_single_discipline(PinEvent::Sample(DbgLine::Swdio, bit), false);
    lemma_untouched_discipline(tail, false);
    lemma_discipline_concat(head, mid, false);
    lemma_discipline_concat(head + mid, tail, false);
}

proof fn lemma_write_bits_discipline(value: nat, n: nat, half: u32)
    ensures
        swdio_discipline(write_bits_events(value, n, half), true),
        forall|o: bool| #[trigger] swdio_owner_after(write_bits_events(value, n, half), o) == o,
    decreases n,
{
    if n > 0 {
        let prev = write_bits_events(value, (n - 1) as nat, half);
        let bit = write_bit_events(bit_of(value, (n - 1) as nat), half);
        lemma_write_bits_discipline(value, (n - 1) as nat, half);
        lemma_write_bit_discipline(bit_of(value, (n - 1) as nat), half);
        lemma_discipline_concat(prev, bit, true);
        assert forall|o: bool| #[trigger] swdio_owner_after(write_bits_events(value, n, half), o)
            == o by {
            lemma_discipline_concat(prev, bit, o);
        }
    }
}

proof fn lemma_read_bits_discipline(bits: Seq<bool>, half: u32)
    ensures
        swdio_discipline(read_bits_events(bits, half), false),
        forall|o: bool| #[trigger] swdio_owner_after(read_bits_events(bits, half), o) == o,
    decreases bits.len(),
{
    if bits.len() > 0 {
        let prev = read_bits_events(bits.drop_last(), half);
        let bit = read_bit_events(bits.last(), half);
        lemma_read_bits_discipline(bits.drop_last(), half);
        lemma_read_bit_discipline(bits.last(), half);
        lemma_discipline_concat(prev, bit, false);
        assert forall|o: bool| #[trigger] swdio_owner_after(read_bits_events(bits, half), o)
            == o by {
            lemma_discipline_concat(prev, bit, o);
        }
    }
}

/// Taking or releasing SWDIO, then reading the counter.
proof fn lemma_switch_discipline(e: PinEvent, probe_owns: bool)
    requires
        e == PinEvent::Output(DbgLine::Swdio, true) || e == PinEvent::ToInput(DbgLine::Swdio),
    ensures
        swdio_discipline(seq![e, PinEvent::ReadCount], probe_owns),
        swdio_owner_after(seq![e, PinEvent::ReadCount], probe_owns) == (e == PinEvent::Output(
            DbgLine::Swdio,
            true,
        )),
{
    let first = seq![e];
    let count = seq![PinEvent::ReadCount];
    assert(seq![e, PinEvent::ReadCount] =~= first + count);
    lemma_single_discipline(e, probe_owns);
    lemma_untouched_discipline(count, swdio_owner_step(e, probe_owns));
    lemma_discipline_concat(first, count, probe_owns);
}

proof fn lemma_tx8_discipline(byte: u8, half: u32, probe_owns: bool)
    ensures
        swdio_discipline(tx8_events(byte, half), probe_owns),
        swdio_owner_after(tx8_events(byte, half), probe_owns),
{
    let take = seq![PinEvent::Output(DbgLine::Swdio, true), PinEvent::ReadCount];
    lemma_switch_discipline(PinEvent::Output(DbgLine::Swdio, true), probe_owns);
    lemma_write_bits_discipline(byte as nat, 8, half);
    lemma_discipline_concat(take, write_bits_events(byte as nat, 8, half), probe_owns);
}

proof fn lemma_rx_discipline(bits: Seq<bool>, half: u32, probe_owns: bool)
    ensures
        swdio_discipline(rx_events(bits, half), probe_owns),
        !swdio_owner_after(rx_events(bits, half), probe_owns),
{
    let release = seq![PinEvent::ToInput(DbgLine::Swdio), PinEvent::ReadCount];
    lemma_switch_discipline(PinEvent::ToInput(DbgLine::Swdio), probe_owns);
    lemma_read_bits_discipline(bits, half);
    lemma_discipline_concat(release, read_bits_events(bits, half), probe_owns);
}

proof fn lemma_read_transfer_discipline(req: u8, samples: Seq<bool>, half: u32, probe_owns: bool)
    requires
        samples.len() >= 4,
        ack_outcome(read_ack(samples)) is Ok ==> samples.len() >= 38,
    ensures
        swdio_discipline(read_transfer_events(req, samples, half), probe_owns),
        swdio_owner_after(read_transfer_events(req, samples, half), probe_owns),
{
    let ack_bits = samples.subrange(0, 4);
    lemma_tx8_discipline(req, half, probe_owns);
    lemma_rx_discipline(ack_bits, half, true);
    lemma_tx8_discipline(0, half, false);
    lemma_discipline_concat(tx8_events(req, half), rx_events(ack_bits, half), probe_owns);
    let head = tx8_events(req, half) + rx_events(ack_bits, half);
    if ack_outcome(read_ack(samples)) is Ok {
        let data_bits = samples.subrange(4, 37);
        let count = seq![PinEvent::ReadCount];
        let rb = read_bit_events(samples[37], half);
        lemma_rx_discipline(data_bits, half, false);
        lemma_untouched_discipline(count, false);
        lemma_read_bit_discipline(samples[37], half);
        lemma_discipline_concat(rx_events(data_bits, half), count, false);
        lemma_discipline_concat(rx_events(data_bits, half) + count, rb, false);
        lemma_discipline_concat(rx_events(data_bits, half) + count + rb, tx8_events(0, half), false);
        let tail = rx_events(data_bits, half) + count + rb + tx8_events(0, half);
        lemma_discipline_concat(head, tail, probe_owns);
        assert(read_transfer_events(req, samples, half) =~= head + tail);
    } else {
        lemma_discipline_concat(head, tx8_events(0, half), probe_owns);
        assert(read_transfer_events(req, samples, half) =~= head + tx8_events(0, half));
    }
}

proof fn lemma_send_data_discipline(data: u32, parity: bool, half: u32)
    ensures
        swdio_discipline(send_data_events(data, parity, half), false),
        swdio_owner_after(send_data_events(data, parity, half), false),
{
    let take = seq![PinEvent::Output(DbgLine::Swdio, true), PinEvent::ReadCount];
    lemma_switch_discipline(PinEvent::Output(DbgLine::Swdio, true), false);
    lemma_write_bits_discipline(data as nat, 32, half);
    lemma_write_bit_discipline(parity, half);
    lemma_discipline_concat(take, write_bits_events(data as nat, 32, half), false);
    lemma_discipline_concat(
        take + write_bits_events(data as nat, 32, half),
        write_bit_events(parity, half),
        false,
    );
}

proof fn lemma_write_transfer_discipline(
    req: u8,
    data: u32,
    samples: Seq<bool>,
    half: u32,
    probe_owns: bool,
)
    ensures
        swdio_discipline(write_transfer_events(req, data, samples, half), probe_owns),
        swdio_owner_after(write_transfer_events(req, data, samples, half), probe_owns),
{
    lemma_tx8_discipline(req, half, probe_owns);
    lemma_rx_discipline(samples, half, true);
    lemma_discipline_concat(tx8_events(req, half), rx_events(samples, half), probe_owns);
    let head = tx8_events(req, half) + rx_events(samples, half);
    lemma_tx8_discipline(0, half, false);
    if ack_outcome(write_ack(samples)) is Ok {
        let parity = odd_parity(data as nat);
        lemma_send_data_discipline(data, parity, half);
        lemma_tx8_discipline(0, half, true);
        lemma_discipline_concat(send_data_events(data, parity, half), tx8_events(0, half), false);
        let tail = send_data_events(data, parity, half) + tx8_events(0, half);
        lemma_discipline_concat(head, tail, probe_owns);
        assert(write_transfer_events(req, data, samples, half) =~= head + tail);
    } else {
        lemma_discipline_concat(head, tx8_events(0, half), probe_owns);
        assert(write_transfer_events(req, data, samples, half) =~= head + tx8_events(0, half));
    }
}

/// No bus contention on SWDIO: in every read and write transfer, whatever
/// the target answers and whatever the clock period, the probe drives SWDIO
/// only after taking the line and samples it only after releasing it, and
/// every transfer ends with the probe holding the line (parked low by the
/// trailing idle cycles).
pub proof fn lemma_transfers_respect_swdio_owner(
    req: u8,
    data: u32,
    samples: Seq<bool>,
    half: u32,
    probe_owns: bool,
)
    requires
        samples.len() >= 4,
        ack_outcome(read_ack(samples)) is Ok ==> samples.len() >= 38,
    ensures
        swdio_discipline(read_transfer_events(req, samples, half), probe_owns),
        swdio_owner_after(read_transfer_events(req, samples, half), probe_owns),
        swdio_discipline(write_transfer_events(req, data, samples, half), probe_owns),
        swdio_owner_after(write_transfer_events(req, data, samples, half), probe_owns),
{
    lemma_read_transfer_discipline(req, samples, half, probe_owns);
    lemma_write_transfer_discipline(req, data, samples, half, probe_owns);
}

/// The parity of a word covers all 32 of its bits: flipping any one of
/// them flips it.
pub proof fn lemma_odd_parity_flips_with_each_bit(x: u32, k: u32)
    requires
        k < 32,
    ensures
        odd_parity((x ^ (1u32 << k)) as nat) != odd_parity(x as nat),
{
    let y = x ^ (1u32 << k);
    vstd::bits::lemma_u32_pow2_no_overflow(k as nat);
    vstd::bits::lemma_u32_shl_is_mul(1, k);
    if (x >> k) & 1u32 == 0u32 {
        assert(k < 32 && (x >> k) & 1u32 == 0u32 ==> (x ^ (1u32 << k)) == x + (1u32 << k))
            by (bit_vector);
        vstd::bits::lemma_u32_shr_is_div(x, k);
        let v = x >> k;
        assert(v & 1u32 == v % 2) by (bit_vector);
        lemma_popcount_set_bit(x as nat, k as nat);
    } else {
        assert(k < 32 && (x >> k) & 1u32 != 0u32 ==> x == (x ^ (1u32 << k)) + (1u32 << k) && ((x
            ^ (1u32 << k)) >> k) & 1u32 == 0u32) by (bit_vector);
        vstd::bits::lemma_u32_shr_is_div(y, k);
        let v = y >> k;
        assert(v & 1u32 == v % 2) by (bit_vector);
        lemma_popcount_set_bit(y as nat, k as nat);
    }
}

/// With an OK acknowledgement, a read is accepted exactly when the 32 data
/// bits and the parity bit that it sampled hold an even number of ones, and
/// fails with a parity error otherwise.
proof fn lemma_read_accepted_iff_even(samples: Seq<bool>)
    requires
        samples.len() >= 37,
        ack_outcome(read_ack(samples)) is Ok,
    ensures
        read_transfer_outcome(samples) is Ok <==> count_true(samples.subrange(4, 37)) % 2 == 0,
        read_transfer_outcome(samples) is Err ==> read_transfer_outcome(samples) == Err::<
            u32,
            SwdError,
        >(SwdError::BadParity),
{
    let data = samples.subrange(4, 36);
    lemma_popcount_bits_value(data);
    assert(samples.subrange(4, 37).drop_last() =~= data);
    assert(samples.subrange(4, 37).last() == samples[36]);
}

/// The parity check of a read covers everything read in the data phase:
/// with an OK acknowledgement a read is accepted exactly when the 32 data
/// bits and the parity bit sampled hold an even number of ones, and then
/// flipping any one of those 33 bits makes it fail with a parity error.
pub proof fn lemma_read_parity_covers_every_bit(samples: Seq<bool>, k: int)
    requires
        samples.len() == 38,
        ack_outcome(read_ack(samples)) is Ok,
        0 <= k < 33,
    ensures
        read_transfer_outcome(samples) is Ok <==> count_true(samples.subrange(4, 37)) % 2 == 0,
        read_transfer_outcome(samples) is Ok ==> read_transfer_outcome(
            samples.update(4 + k, !samples[4 + k]),
        ) == Err::<u32, SwdError>(SwdError::BadParity),
{
    lemma_read_accepted_iff_even(samples);
    let flipped = samples.update(4 + k, !samples[4 + k]);
    let phase = samples.subrange(4, 37);
    assert(flipped.subrange(0, 4) =~= samples.subrange(0, 4));
    assert(read_ack(flipped) == read_ack(samples));
    assert(phase[k] == samples[4 + k]);
    assert(flipped.subrange(4, 37) =~= phase.update(k, !phase[k]));
    lemma_count_true_flip(phase, k);
    lemma_read_accepted_iff_even(flipped);
}

/// A read returns the 32 data bits it sampled after the acknowledgement,
/// least significant first.
pub proof fn lemma_read_returns_sampled_word(samples: Seq<bool>)
    requires
        samples.len() == 38,
    ensures
        read_transfer_outcome(samples) matches Ok(d) ==> word_bits(d, 32) == samples.subrange(4, 36),
{
    lemma_word_bits_of_value(samples.subrange(4, 36));
}

/// What a write drives on SWDIO, each field least significant bit first:
/// the request byte; then, on an OK acknowledgement, the 32 bits of the
/// data word and a parity bit that makes those 33 bits even, and eight low
/// idle cycles; on any other acknowledgement only the eight idle cycles.
pub proof fn lemma_write_transfer_drives_word_and_parity(
    req: u8,
    data: u32,
    samples: Seq<bool>,
    half: u32,
)
    ensures
        ({
            let levels = swdio_levels_driven(write_transfer_events(req, data, samples, half));
            if ack_outcome(write_ack(samples)) is Ok {
                &&& levels.len() == 49
                &&& levels.subrange(0, 8) == word_bits(req as u32, 8)
                &&& levels.subrange(8, 40) == word_bits(data, 32)
                &&& count_true(levels.subrange(8, 41)) % 2 == 0
                &&& levels.subrange(41, 49) == word_bits(0, 8)
            } else {
                levels == word_bits(req as u32, 8) + word_bits(0, 8)
            }
        }),
{
    let take = seq![PinEvent::Output(DbgLine::Swdio, true), PinEvent::ReadCount];
    let release = seq![PinEvent::ToInput(DbgLine::Swdio), PinEvent::ReadCount];
    lemma_levels_driven_none(take);
    lemma_levels_driven_none(release);
    // the request and the idle cycles
    lemma_write_word_levels(req as u32, 8, half);
    lemma_write_word_levels(0, 8, half);
    assert((req as u32) as nat == req as nat);
    lemma_levels_driven_concat(take, write_bits_events(req as nat, 8, half));
    lemma_levels_driven_concat(take, write_bits_events(0, 8, half));
    assert(swdio_levels_driven(tx8_events(req, half)) =~= word_bits(req as u32, 8));
    assert(swdio_levels_driven(tx8_events(0, half)) =~= word_bits(0, 8));
    // the acknowledgement
    lemma_read_bits_levels(samples, half);
    lemma_levels_driven_concat(release, read_bits_events(samples, half));
    assert(swdio_levels_driven(rx_events(samples, half)) =~= Seq::<bool>::empty());
    let head = tx8_events(req, half) + rx_events(samples, half);
    lemma_levels_driven_concat(tx8_events(req, half), rx_events(samples, half));
    assert(swdio_levels_driven(head) =~= word_bits(req as u32, 8));
    if ack_outcome(write_ack(samples)) is Ok {
        let parity = odd_parity(data as nat);
        let words = take + write_bits_events(data as nat, 32, half);
        lemma_write_word_levels(data, 32, half);
        lemma_levels_driven_concat(take, write_bits_events(data as nat, 32, half));
        lemma_write_bit_levels(parity, half);
        lemma_levels_driven_concat(words, write_bit_events(parity, half));
        let phase = word_bits(data, 32).push(parity);
        assert(swdio_levels_driven(send_data_events(data, parity, half)) =~= phase);
        let tail = send_data_events(data, parity, half) + tx8_events(0, half);
        lemma_levels_driven_concat(send_data_events(data, parity, half), tx8_events(0, half));
        lemma_levels_driven_concat(head, tail);
        assert(write_transfer_events(req, data, samples, half) =~= head + tail);
        let levels = swdio_levels_driven(write_transfer_events(req, data, samples, half));
        assert(levels =~= word_bits(req as u32, 8) + phase + word_bits(0, 8));
        assert(levels.subrange(0, 8) =~= word_bits(req as u32, 8));
        assert(levels.subrange(8, 40) =~= word_bits(data, 32));
        assert(levels.subrange(8, 41) =~= phase);
        assert(levels.subrange(41, 49) =~= word_bits(0, 8));
        lemma_word_bits_count(data);
        assert(phase.drop_last() =~= word_bits(data, 32));
    } else {
        lemma_levels_driven_concat(head, tx8_events(0, half));
        assert(write_transfer_events(req, data, samples, half) =~= head + tx8_events(0, half));
    }
}

/// The SWD protocol engine over a debug port.
pub struct Swd<P, D>(Context<P, D>);

impl<P, D> View for Swd<P, D> {
    type V = ContextView;

    closed spec fn view(&self) -> ContextView {
        self.0@
    }
}

impl<P: DbgPin, D: DbgDelay> Swd<P, D> {
    /// Takes the port for SWD: SWDIO and SWCLK become outputs driving high,
    /// nRESET is released.
    pub fn new(context: Context<P, D>) -> (r: Self)
        ensures
            r@ == with_events(
                context@,
                seq![
                    PinEvent::Output(DbgLine::Swdio, true),
                    PinEvent::Output(DbgLine::Swclk, true),
                    PinEvent::ToInput(DbgLine::Nreset),
                ],
            ),
    {
        let mut value = context;
        value.swdio_to_output();
        value.swclk_to_output();
        value.nreset_to_input();
        assert(value@.events =~= context@.events + seq![
            PinEvent::Output(DbgLine::Swdio, true),
            PinEvent::Output(DbgLine::Swclk, true),
            PinEvent::ToInput(DbgLine::Nreset),
        ]);
        Swd(value)
    }

    /// Gives the port back.
    pub fn into_context(self) -> (r: Context<P, D>)
        ensures
            r@ == self@,
    {
        self.0
    }

    /// Writes one bit (its value is `bit != 0`).
    fn write_bit(&mut self, bit: u8, last: &mut u32)
        requires
            *old(last) == old(self).0.tick_mark(),
        ensures
            final(self)@ == with_events(
                old(self)@,
                write_bit_events(bit != 0, old(self)@.half_period_ticks),
            ),
            *final(last) == final(self).0.tick_mark(),
    {
        *last = self.0.clock_out(bit != 0, *last);
    }

    /// Reads one bit as 0 or 1.
    fn read_bit(&mut self, last: &mut u32) -> (r: (u8, Ghost<bool>))
        requires
            *old(last) == old(self).0.tick_mark(),
        ensures
            final(self)@ == with_events(
                old(self)@,
                read_bit_events(r.1@, old(self)@.half_period_ticks),
            ),
            r.0 == (if r.1@ { 1u8 } else { 0u8 }),
            *final(last) == final(self).0.tick_mark(),
    {
        let (bit, l) = self.0.clock_in(*last);
        *last = l;
        (if bit { 1u8 } else { 0u8 }, Ghost(bit))
    }

    /// Takes SWDIO and clocks out a byte, least significant bit first.
    fn tx8(&mut self, data: u8)
        ensures
            final(self)@ == with_events(old(self)@, tx8_events(data, old(self)@.half_period_ticks)),
    {
        self.0.swdio_to_output();
        let last = self.0.delay_now();
        let _ = self.0.clock_out_bits(data as u32, 8, last);
        assert(self@.events =~= old(self)@.events + tx8_events(data, old(self)@.half_period_ticks));
    }

    /// Releases SWDIO and clocks in `n` bits.
    fn rx_bits(&mut self, n: u32) -> (r: (u32, Ghost<Seq<bool>>))
        requires
            n <= 32,
        ensures
            r.1@.len() == n,
            final(self)@ == with_events(old(self)@, rx_events(r.1@, old(self)@.half_period_ticks)),
            r.0 == bits_value(r.1@),
    {
        self.0.swdio_to_input();
        let last = self.0.delay_now();
        let (value, _, bits) = self.0.clock_in_bits(n, last);
        assert(self@.events =~= old(self)@.events + rx_events(bits@, old(self)@.half_period_ticks));
        (value, bits)
    }

    /// Releases SWDIO and reads four bits.
    fn rx4(&mut self) -> (r: (u8, Ghost<Seq<bool>>))
        ensures
            r.1@.len() == 4,
            final(self)@ == with_events(old(self)@, rx_events(r.1@, old(self)@.half_period_ticks)),
            r.0 == bits_value(r.1@),
    {
        let (value, bits) = self.rx_bits(4);
        proof {
            crate::dap::wire::lemma_bits_value_bound(bits@);
            vstd::arithmetic::power2::lemma2_to64();
        }
        (value as u8, bits)
    }

    /// Releases SWDIO and reads five bits.
    fn rx5(&mut self) -> (r: (u8, Ghost<Seq<bool>>))
        ensures
            r.1@.len() == 5,
            final(self)@ == with_events(old(self)@, rx_events(r.1@, old(self)@.half_period_ticks)),
            r.0 == bits_value(r.1@),
    {
        let (value, bits) = self.rx_bits(5);
        proof {
            crate::dap::wire::lemma_bits_value_bound(bits@);
            vstd::arithmetic::power2::lemma2_to64();
        }
        (value as u8, bits)
    }

    /// Takes SWDIO and writes 32 data bits and the parity bit.
    fn send_data(&mut self, data: u32, parity: bool)
        ensures
            final(self)@ == with_events(
                old(self)@,
                send_data_events(data, parity, old(self)@.half_period_ticks),
            ),
    {
        self.0.swdio_to_output();
        let mut last = self.0.delay_now();
        last = self.0.clock_out_bits(data, 32, last);
        self.write_bit(if parity { 1u8 } else { 0u8 }, &mut last);
        assert(self@.events =~= old(self)@.events + send_data_events(
            data,
            parity,
            old(self)@.half_period_ticks,
        ));
    }

    /// Releases SWDIO and reads 32 data bits and the parity bit.
    fn read_data(&mut self) -> (r: (u32, bool, Ghost<Seq<bool>>))
        ensures
            r.2@.len() == 33,
            final(self)@ == with_events(old(self)@, rx_events(r.2@, old(self)@.half_period_ticks)),
            r.0 == bits_value(r.2@.subrange(0, 32)),
            r.1 == r.2@[32],
    {
        self.0.swdio_to_input();
        let mut last = self.0.delay_now();
        let (data, l, bits) = self.0.clock_in_bits(32, last);
        last = l;
        let (parity, pbit) = self.read_bit(&mut last);
        let ghost all = bits@.push(pbit@);
        proof {
            assert(all.drop_last() =~= bits@);
            assert(all.subrange(0, 32) =~= bits@);
            assert(self@.events =~= old(self)@.events + rx_events(all, old(self)@.half_period_ticks));
        }
        (data, parity != 0, Ghost(all))
    }

    /// An SWD read of register `a` of the debug or an access port: request,
    /// acknowledgement, and on OK the data, parity and a turnaround cycle;
    /// the bus is then driven low for eight cycles. The result is read off
    /// the sampled bits.
    pub fn read_inner(&mut self, apndp: APnDP, a: DPRegister) -> (r: Result<u32, SwdError>)
        ensures
            exists|samples: Seq<bool>|
                {
                    &&& samples.len() == read_sample_count(samples)
                    &&& final(self)@ == with_events(
                        old(self)@,
                        read_transfer_events(
                            spec_make_request(apndp, RnW::R, a),
                            samples,
                            old(self)@.half_period_ticks,
                        ),
                    )
                    &&& r == read_transfer_outcome(samples)
                },
    {
        let ghost half = self@.half_period_ticks;
        let req = make_request(apndp, RnW::R, a);
        self.tx8(req);
        let ghost after_req = self@;
        let (raw, ack_bits) = self.rx4();
        let ghost after_ack = self@;
        let ack = raw >> 1;
        proof {
            assert(raw >> 1 == raw / 2) by (bit_vector);
        }
        match ack_try_ok(ack) {
            Ok(_) => {},
            Err(e) => {
                self.tx8(0);
                proof {
                    lemma_read_transfer_refused(req, ack_bits@, half);
                    assert(self@.events =~= old(self)@.events + read_transfer_events(
                        req,
                        ack_bits@,
                        half,
                    ));
                    assert(self@ == with_events(old(self)@, read_transfer_events(req, ack_bits@, half)));
                }
                return Err(e);
            },
        }
        let (data, parity, data_bits) = self.read_data();
        let mut last = self.0.delay_now();
        let (_, turnaround) = self.read_bit(&mut last);
        self.tx8(0);
        let ghost samples = ack_bits@ + data_bits@ + seq![turnaround@];
        proof {
            lemma_read_transfer_accepted(req, ack_bits@, data_bits@, turnaround@, half);
            assert(self@.events =~= old(self)@.events + read_transfer_events(req, samples, half));
            assert(self@ == with_events(old(self)@, read_transfer_events(req, samples, half)));
        }
        let ones = count_ones(data);
        let parity_bit: u8 = if parity { 1 } else { 0 };
        proof {
            assert(((ones as u8) & 1u8) == (ones % 2) as u8) by (bit_vector);
        }
        if parity_bit == ((ones as u8) & 1) {
            Ok(data)
        } else {
            Err(SwdError::BadParity)
        }
    }

    /// An SWD write of `data` to register `a`: request, acknowledgement
    /// between two turnaround cycles, and on OK the data and its parity;
    /// the bus is then driven low for eight cycles.
    pub fn write_inner(&mut self, apndp: APnDP, a: DPRegister, data: u32) -> (r: Result<(), SwdError>)
        ensures
            exists|samples: Seq<bool>|
                {
                    &&& samples.len() == 5
                    &&& final(self)@ == with_events(
                        old(self)@,
                        write_transfer_events(
                            spec_make_request(apndp, RnW::W, a),
                            data,
                            samples,
                            old(self)@.half_period_ticks,
                        ),
                    )
                    &&& r == ack_outcome(write_ack(samples))
                },
    {
        let ghost half = self@.half_period_ticks;
        let req = make_request(apndp, RnW::W, a);
        self.tx8(req);
        let (raw, ack_bits) = self.rx5();
        let ack = (raw >> 1) & 0b111;
        proof {
            assert((raw >> 1) & 0b111 == (raw / 2) % 8) by (bit_vector);
        }
        match ack_try_ok(ack) {
            Ok(_) => {},
            Err(e) => {
                self.tx8(0);
                proof {
                    assert(self@.events =~= old(self)@.events + write_transfer_events(
                        req,
                        data,
                        ack_bits@,
                        half,
                    ));
                }
                return Err(e);
            },
        }
        let ones = count_ones(data);
        proof {
            assert((ones & 1 == 1) == (ones % 2 == 1)) by (bit_vector);
        }
        let parity = ones & 1 == 1;
        self.send_data(data, parity);
        self.tx8(0);
        proof {
            assert(self@.events =~= old(self)@.events + write_transfer_events(
                req,
                data,
                ack_bits@,
                half,
            ));
        }
        Ok(())
    }

    /// Takes SWDIO and clocks out the first `num_bits` bits of `data`.
    pub fn write_sequence(&mut self, num_bits: usize, data: &[u8]) -> (r: Result<(), SwdError>)
        ensures
            r is Ok,
            final(self)@ == with_events(
                old(self)@,
                seq![PinEvent::Output(DbgLine::Swdio, true), PinEvent::ReadCount]
                    + sequence_write_events(data@, num_bits as nat, old(self)@.half_period_ticks),
            ),
    {
        self.0.swdio_to_output();
        let last = self.0.delay_now();
        let _ = self.0.clock_out_sequence(data, num_bits, last);
        assert(self@.events =~= old(self)@.events + (seq![
            PinEvent::Output(DbgLine::Swdio, true),
            PinEvent::ReadCount,
        ] + sequence_write_events(data@, num_bits as nat, old(self)@.half_period_ticks)));
        Ok(())
    }

    /// Releases SWDIO and clocks in `num_bits` bits, eight per byte of
    /// `data`, least significant bit first; each byte keeps its one bits and
    /// gains the ones read.
    pub fn read_sequence(&mut self, num_bits: usize, data: &mut [u8]) -> (r: Result<(), SwdError>)
        ensures
            r is Ok,
            final(data)@.len() == old(data)@.len(),
            exists|groups: Seq<Seq<bool>>|
                {
                    &&& groups.len() == old(data)@.len()
                    &&& forall|k: int|
                        0 <= k < groups.len() ==> #[trigger] groups[k].len() == frame_bits(
                            num_bits as nat,
                            k as nat,
                        )
                    &&& forall|k: int|
                        0 <= k < groups.len() ==> #[trigger] final(data)@[k] == old(data)@[k]
                            | (bits_value(groups[k]) as u8)
                    &&& final(self)@ == with_events(
                        old(self)@,
                        seq![PinEvent::ToInput(DbgLine::Swdio), PinEvent::ReadCount]
                            + sequence_read_events(groups, old(self)@.half_period_ticks),
                    )
                },
    {
        self.0.swdio_to_input();
        let mut last = self.0.delay_now();
        let ghost start = self@;
        let ghost mut groups: Seq<Seq<bool>> = Seq::empty();
        let mut bits = num_bits;
        let mut k: usize = 0;
        proof {
            assert(start.events =~= old(self)@.events + seq![
                PinEvent::ToInput(DbgLine::Swdio),
                PinEvent::ReadCount,
            ]);
        }
        while k < data.len()
            invariant
                k <= data@.len(),
                data@.len() == old(data)@.len(),
                groups.len() == k,
                bits == (if num_bits >= 8 * k { num_bits - 8 * k } else { 0 }),
                forall|j: int| 0 <= j < k ==> #[trigger] groups[j].len() == frame_bits(num_bits as nat, j as nat),
                forall|j: int| 0 <= j < k ==> #[trigger] data@[j] == old(data)@[j] | (bits_value(groups[j]) as u8),
                forall|j: int| k <= j < data@.len() ==> #[trigger] data@[j] == old(data)@[j],
                self@.events == start.events + sequence_read_events(groups, old(self)@.half_period_ticks),
                same_settings(self@, old(self)@),
                last == self.0.tick_mark(),
            decreases data@.len() - k,
        {
            let bit_count: usize = if bits < 8 { bits } else { 8 };
            let (value, l, group) = self.0.clock_in_bits(bit_count as u32, last);
            last = l;
            proof {
                crate::dap::wire::lemma_bits_value_bound(group@);
                vstd::arithmetic::power2::lemma2_to64();
                if group@.len() < 8 {
                    vstd::arithmetic::power2::lemma_pow2_strictly_increases(group@.len(), 8);
                }
                assert(value < 256);
            }
            data[k] = data[k] | (value as u8);
            bits = bits - bit_count;
            proof {
                assert(groups.push(group@).drop_last() =~= groups);
                groups = groups.push(group@);
            }
            k += 1;
        }
        proof {
            assert(self@.events =~= old(self)@.events + (seq![
                PinEvent::ToInput(DbgLine::Swdio),
                PinEvent::ReadCount,
            ] + sequence_read_events(groups, old(self)@.half_period_ticks)));
        }
        Ok(())
    }

    /// The CPU clock in Hz of the port.
    pub fn cpu_frequency(&self) -> (r: u32)
        ensures
            r == self@.cpu_frequency,
    {
        self.0.cpu_frequency()
    }

    /// Sets the SWD clock, as the SWJ clock command does.
    pub fn set_clock(&mut self, max_frequency: u32) -> (r: bool)
        requires
            max_frequency > 0 || old(self)@.cpu_frequency == 0,
        ensures
            r == (max_frequency < old(self)@.cpu_frequency),
            r ==> final(self)@ == (ContextView {
                max_frequency,
                half_period_ticks: old(self)@.cpu_frequency / max_frequency / 2,
                ..old(self)@
            }),
            !r ==> final(self)@ == old(self)@,
    {
        self.0.process_swj_clock(max_frequency)
    }
}

} // verus!
