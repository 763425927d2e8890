//! The arithmetic and decisions of the board support around the debug port
//! and the power profiler: SysTick delays, cycle delays, the status LED, pin
//! read-back, and the stand-in ADC that produces a counting pattern.

use vstd::prelude::*;
use vstd::wrapping::u32_specs::wrapping_sub;

verus! {

/// SysTick ticks per microsecond for a core clock of `cpu_frequency` Hz,
/// rounded to the nearest whole tick.
pub fn ticks_per_us(cpu_frequency: u32) -> (r: u32)
    requires
        cpu_frequency + 500_000 <= u32::MAX,
    ensures
        r == (cpu_frequency + 500_000) / 1_000_000,
{
    (cpu_frequency + 500_000) / 1_000_000
}

/// One poll of a wait for `ticks` ticks after the count `last`, on a
/// counter that counts down: the ticks elapsed since `last` are
/// `last - now`, wrapping.
#[derive(Clone, Copy, Debug, PartialEq, Eq, Structural)]
pub enum DelayPoll {
    /// The wait is over at the count `now`.
    Done(u32),
    /// Keep waiting for this many more ticks after this count.
    Wait(u32, u32),
}

/// The outcome of one poll of a down-counting tick counter.
pub open spec fn delay_poll_spec(ticks: u32, last: u32, now: u32) -> DelayPoll {
    let delta = wrapping_sub(last, now);
    if delta >= ticks {
        DelayPoll::Done(now)
    } else {
        DelayPoll::Wait((ticks - delta) as u32, now)
    }
}

/// One poll of a wait on the full 32-bit counter. The board's SysTick
/// counts on 24 bits, so across a reload the wrapping 32-bit difference is
/// not the elapsed ticks: the wait then ends at once. The probe's delay
/// does this, and it is kept here as it is.
pub fn delay_poll(ticks: u32, last: u32, now: u32) -> (r: DelayPoll)
    ensures
        r == delay_poll_spec(ticks, last, now),
{
    let delta = last.wrapping_sub(now);
    if delta >= ticks {
        DelayPoll::Done(now)
    } else {
        DelayPoll::Wait(ticks - delta, now)
    }
}

/// The mask of the 24-bit SysTick counter.
pub const SYSTICK_MASK: u32 = 0x00ff_ffff;

/// One poll of a wait on the 24-bit SysTick counter: elapsed ticks are
/// taken modulo 2^24.
pub fn delay_poll_24bit(ticks: u32, last: u32, now: u32) -> (r: DelayPoll)
    ensures
        r == (if (wrapping_sub(last, now) & SYSTICK_MASK) >= ticks {
            DelayPoll::Done(now)
        } else {
            DelayPoll::Wait((ticks - (wrapping_sub(last, now) & SYSTICK_MASK)) as u32, now)
        }),
{
    let delta = last.wrapping_sub(now) & SYSTICK_MASK;
    if delta >= ticks {
        DelayPoll::Done(now)
    } else {
        DelayPoll::Wait(ticks - delta, now)
    }
}

/// One round of a microsecond delay: while more than 0x1fff microseconds
/// remain, the low 13 bits of the count are waited for (in ticks) and taken
/// off the count; `None` when 0x1fff or less remain. As the probe's delay
/// does, this never waits for a count of 0x1fff or less, and above that the
/// count left after one round is a multiple of 0x2000 that the next rounds
/// never lower: a delay of more than 0x1fff microseconds does not end.
pub fn micros_delay_round(us: u32, ticks_per_us: u32) -> (r: Option<(u32, u32)>)
    requires
        (us & 0x1fff) * ticks_per_us <= u32::MAX,
    ensures
        us <= 0x1fff ==> r is None,
        us > 0x1fff ==> r == Some((((us & 0x1fff) * ticks_per_us) as u32, (us - (us & 0x1fff)) as u32)),
{
    if us > 0x1fff {
        assert(us & 0x1fff <= us) by (bit_vector);
        let ticks = (us & 0x1fff) * ticks_per_us;
        Some((ticks, us - (us & 0x1fff)))
    } else {
        None
    }
}

/// CPU cycles of a delay of `ns` nanoseconds at `cpu_clock` Hz, truncated
/// to 32 bits.
pub fn ns_to_cycles(ns: u32, cpu_clock: u32) -> (r: u32)
    ensures
        r == ((ns as nat * cpu_clock as nat / 1_000_000_000) % 0x1_0000_0000) as u32,
{
    assert(ns as nat * cpu_clock as nat <= u64::MAX) by (nonlinear_arith)
        requires ns <= u32::MAX, cpu_clock <= u32::MAX;
    let product = ns as u64 * cpu_clock as u64;
    let cycles = product / 1_000_000_000u64;
    assert(cycles as u32 == (cycles % 0x1_0000_0000) as u32) by (bit_vector);
    cycles as u32
}

/// The host status that the debugger reports.
#[derive(Clone, Copy, Debug, PartialEq, Eq, Structural)]
pub enum HostStatus {
    Connected(bool),
    Running(bool),
}

/// The level of the single status LED: it follows whichever status the host
/// last reported.
pub fn led_level(host_status: HostStatus) -> (r: bool)
    ensures
        r == match host_status {
            HostStatus::Connected(v) => v,
            HostStatus::Running(v) => v,
        },
{
    match host_status {
        HostStatus::Connected(v) => v,
        HostStatus::Running(v) => v,
    }
}

/// The level a flexible pin reports: the level it drives when it is an
/// output, the level on the pad otherwise.
pub fn pin_level(is_output: bool, output_level: bool, input_level: bool) -> (r: bool)
    ensures
        r == if is_output { output_level } else { input_level },
{
    if is_output { output_level } else { input_level }
}

/// The counting pattern of the stand-in ADC: sample `i` of the next block is
/// one more than the last sample of the previous block, plus `i`, wrapping
/// at 2^16.
pub open spec fn next_dummy_block(previous: Seq<u16>) -> Seq<u16> {
    Seq::new(
        previous.len(),
        |i: int| ((previous.last() as nat + 1 + i) % 0x1_0000) as u16,
    )
}

/// The block of the stand-in ADC after `k` refills that follow `previous`.
pub open spec fn dummy_block_after(previous: Seq<u16>, k: nat) -> Seq<u16>
    decreases k,
{
    if k == 0 {
        previous
    } else {
        next_dummy_block(dummy_block_after(previous, (k - 1) as nat))
    }
}

/// Each refill continues the count where the block before it ended: sample
/// `i` of the `k`-th block after `previous` is the last sample of
/// `previous`, plus `(k - 1)` blocks, plus `i + 1`, wrapping at 2^16.
pub proof fn lemma_dummy_ramp_continues(previous: Seq<u16>, k: nat, i: int)
    requires
        previous.len() > 0,
        k >= 1,
        0 <= i < previous.len(),
    ensures
        dummy_block_after(previous, k).len() == previous.len(),
        dummy_block_after(previous, k)[i] == ((previous.last() as nat + (k - 1) * previous.len() + 1
            + i) % 0x1_0000) as u16,
    decreases k,
{
    let n = previous.len();
    let before = dummy_block_after(previous, (k - 1) as nat);
    assert(dummy_block_after(previous, k) == next_dummy_block(before));
    if k == 1 {
        assert(before == previous);
    } else {
        lemma_dummy_ramp_continues(previous, (k - 1) as nat, n - 1);
        assert(before.last() == before[n - 1]);
        let a: int = previous.last() as nat + (k - 1) * n;
        assert(previous.last() as nat + (k - 2) * n + 1 + (n - 1) == previous.last() as nat + (k
            - 1) * n) by (nonlinear_arith)
            requires
                k >= 2,
        ;
        assert(before.last() as int == a % 0x1_0000);
        vstd::arithmetic::div_mod::lemma_add_mod_noop_right(1 + i, a, 0x1_0000);
        assert(((before.last() as nat) + 1 + i) % 0x1_0000 == (a + 1 + i) % 0x1_0000);
    }
}

/// Refills the stand-in ADC's buffer with the next block of the pattern.
pub fn refill_dummy_samples(buffer: &mut [u16])
    requires
        old(buffer)@.len() > 0,
    ensures
        final(buffer)@ == next_dummy_block(old(buffer)@),
{
    let last = buffer[buffer.len() - 1];
    let first_value = last.wrapping_add(1);
    let mut i: usize = 0;
    while i < buffer.len()
        invariant
            buffer@.len() == old(buffer)@.len(),
            i <= buffer@.len(),
            last == old(buffer)@.last(),
            first_value as nat == (last as nat + 1) % 0x1_0000,
            forall|j: int| 0 <= j < i ==> buffer@[j] == next_dummy_block(old(buffer)@)[j],
        decreases buffer@.len() - i,
    {
        #[verifier::truncate]
        let step = i as u16;
        proof {
            assert(step as nat == i as nat % 0x1_0000) by (bit_vector)
                requires step == i as u16;
        }
        buffer[i] = first_value.wrapping_add(step);
        i += 1;
    }
    assert(buffer@ =~= next_dummy_block(old(buffer)@));
}

/// Fills the stand-in ADC's buffer with its starting ramp: sample `i` is
/// `i`, wrapping at 2^16.
pub fn fill_ramp(buffer: &mut [u16])
    ensures
        final(buffer)@.len() == old(buffer)@.len(),
        forall|i: int| 0 <= i < final(buffer)@.len() ==> final(buffer)@[i] == (i % 0x1_0000) as u16,
{
    let mut i: usize = 0;
    while i < buffer.len()
        invariant
            buffer@.len() == old(buffer)@.len(),
            i <= buffer@.len(),
            forall|j: int| 0 <= j < i ==> buffer@[j] == (j % 0x1_0000) as u16,
        decreases buffer@.len() - i,
    {
        #[verifier::truncate]
        let value = i as u16;
        proof {
            assert(value as nat == i as nat % 0x1_0000) by (bit_vector)
                requires value == i as u16;
        }
        buffer[i] = value;
        i += 1;
    }
}

} // verus!
