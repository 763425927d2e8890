//! The SWD wire vocabulary: request fields, acknowledgements, errors, and
//! the pin events that the bit-banging engine issues.

use vstd::prelude::*;
use vstd::arithmetic::power2::pow2;

verus! {

/// Whether a transfer addresses the debug port or an access port.
#[derive(Clone, Copy, Debug, PartialEq, Eq, Structural)]
pub enum APnDP {
    DP,
    AP,
}

/// Whether a transfer reads or writes.
#[derive(Clone, Copy, Debug, PartialEq, Eq, Structural)]
pub enum RnW {
    W,
    R,
}

/// The register address bits of a transfer.
#[derive(Clone, Copy, Debug, PartialEq, Eq, Structural)]
pub enum DPRegister {
    DPIDR,
    CTRLSTAT,
    SELECT,
    RDBUFF,
}

/// The errors of an SWD transfer.
#[derive(Clone, Copy, Debug, PartialEq, Eq, Structural)]
pub enum SwdError {
    /// The parity bit does not match the data read.
    BadParity,
    /// The target answered WAIT.
    AckWait,
    /// The target answered FAULT.
    AckFault,
    /// The target answered with the protocol-error pattern.
    AckProtocol,
    /// The target answered with no valid acknowledgement.
    AckUnknown(u8),
}

/// The code of the port bit.
pub open spec fn apndp_code(p: APnDP) -> u8 {
    match p {
        APnDP::DP => 0,
        APnDP::AP => 1,
    }
}

/// The code of the direction bit.
pub open spec fn rnw_code(r: RnW) -> u8 {
    match r {
        RnW::W => 0,
        RnW::R => 1,
    }
}

/// The code of the two address bits.
pub open spec fn register_code(a: DPRegister) -> u8 {
    match a {
        DPRegister::DPIDR => 0,
        DPRegister::CTRLSTAT => 1,
        DPRegister::SELECT => 2,
        DPRegister::RDBUFF => 3,
    }
}

/// The number of one bits of a number.
pub open spec fn popcount(x: nat) -> nat
    decreases x,
{
    if x == 0 {
        0
    } else {
        x % 2 + popcount(x / 2)
    }
}

/// The SWD request byte: start bit, port, direction, two address bits,
/// parity over those four, stop bit 0 and park bit 1 (bit 0 first).
pub open spec fn spec_make_request(apndp: APnDP, rnw: RnW, a: DPRegister) -> u8 {
    let req = (1u8 | (apndp_code(apndp) << 1u8) | (rnw_code(rnw) << 2u8) | (register_code(a)
        << 3u8) | (1u8 << 7u8)) as u8;
    let parity = (popcount(req as nat) % 2) as u8;
    (req | (parity << 5u8)) as u8
}

/// The outcome that an acknowledgement code stands for.
pub open spec fn ack_outcome(ack: u8) -> Result<(), SwdError> {
    if ack == 0b001 {
        Ok(())
    } else if ack == 0b010 {
        Err(SwdError::AckWait)
    } else if ack == 0b100 {
        Err(SwdError::AckFault)
    } else if ack == 0b111 {
        Err(SwdError::AckProtocol)
    } else {
        Err(SwdError::AckUnknown(ack))
    }
}

/// `dap_rs::swd::make_request`: the request byte of a transfer.
#[verifier::external_body]
pub(crate) fn make_request(apndp: APnDP, rnw: RnW, a: DPRegister) -> (r: u8)
    ensures
        r == spec_make_request(apndp, rnw, a),
{
    let apndp = match apndp {
        APnDP::DP => dap_rs::swd::APnDP::DP,
        APnDP::AP => dap_rs::swd::APnDP::AP,
    };
    let rnw = match rnw {
        RnW::W => dap_rs::swd::RnW::W,
        RnW::R => dap_rs::swd::RnW::R,
    };
    let a = match a {
        DPRegister::DPIDR => dap_rs::swd::DPRegister::DPIDR,
        DPRegister::CTRLSTAT => dap_rs::swd::DPRegister::CTRLSTAT,
        DPRegister::SELECT => dap_rs::swd::DPRegister::SELECT,
        DPRegister::RDBUFF => dap_rs::swd::DPRegister::RDBUFF,
    };
    dap_rs::swd::make_request(apndp, rnw, a)
}

/// `dap_rs::swd::Ack::try_ok`: decodes a three-bit acknowledgement.
#[verifier::external_body]
pub(crate) fn ack_try_ok(ack: u8) -> (r: Result<(), SwdError>)
    ensures
        r == ack_outcome(ack),
{
    match dap_rs::swd::Ack::try_ok(ack) {
        Ok(()) => Ok(()),
        Err(dap_rs::swd::Error::BadParity) => Err(SwdError::BadParity),
        Err(dap_rs::swd::Error::AckWait) => Err(SwdError::AckWait),
        Err(dap_rs::swd::Error::AckFault) => Err(SwdError::AckFault),
        Err(dap_rs::swd::Error::AckProtocol) => Err(SwdError::AckProtocol),
        Err(dap_rs::swd::Error::AckUnknown(v)) => Err(SwdError::AckUnknown(v)),
    }
}

/// A number below `2^k` has at most `k` one bits.
proof fn lemma_popcount_bound(x: nat, k: nat)
    requires
        x < pow2(k),
    ensures
        popcount(x) <= k,
    decreases k,
{
    if k == 0 {
        vstd::arithmetic::power2::lemma2_to64();
    } else if x > 0 {
        vstd::arithmetic::power2::lemma_pow2_unfold(k);
        lemma_popcount_bound(x / 2, (k - 1) as nat);
    }
}

/// The number of one bits of `x`.
pub(crate) fn count_ones(x: u32) -> (r: u32)
    ensures
        r == popcount(x as nat),
{
    proof {
        vstd::arithmetic::power2::lemma2_to64();
        lemma_popcount_bound(x as nat, 32);
    }
    let mut v = x;
    let mut count: u32 = 0;
    while v != 0
        invariant
            count + popcount(v as nat) == popcount(x as nat),
            popcount(x as nat) <= 32,
        decreases v,
    {
        proof {
            assert(v & 1 == v % 2) by (bit_vector);
            assert(v >> 1 == v / 2) by (bit_vector);
        }
        count = count + (v & 1);
        v = v >> 1;
    }
    count
}

/// The number of one bits of a byte is the sum of its eight bits.
proof fn lemma_popcount_byte(x: nat)
    requires
        x < 256,
    ensures
        popcount(x) == x % 2 + (x / 2) % 2 + (x / 4) % 2 + (x / 8) % 2 + (x / 16) % 2 + (x / 32) % 2
            + (x / 64) % 2 + (x / 128) % 2,
{
    reveal_with_fuel(popcount, 9);
    assert(x / 2 / 2 == x / 4);
    assert(x / 4 / 2 == x / 8);
    assert(x / 8 / 2 == x / 16);
    assert(x / 16 / 2 == x / 32);
    assert(x / 32 / 2 == x / 64);
    assert(x / 64 / 2 == x / 128);
    assert(x / 128 / 2 == 0);
}

/// Every request byte is framed as SWD demands: start bit 1, then the port,
/// direction and two address bits, then a parity bit that makes those four
/// bits and itself even, a stop bit 0 and a park bit 1.
pub proof fn lemma_request_framing(apndp: APnDP, rnw: RnW, a: DPRegister)
    ensures
        ({
            let r = spec_make_request(apndp, rnw, a) as nat;
            &&& r % 2 == 1
            &&& (r / 2) % 2 == apndp_code(apndp)
            &&& (r / 4) % 2 == rnw_code(rnw)
            &&& (r / 8) % 4 == register_code(a)
            &&& (r / 32) % 2 == (apndp_code(apndp) + rnw_code(rnw) + register_code(a) % 2
                + register_code(a) / 2) % 2
            &&& (r / 64) % 2 == 0
            &&& r / 128 == 1
        }),
{
    let p = apndp_code(apndp);
    let w = rnw_code(rnw);
    let ad = register_code(a);
    assert(p <= 1 && w <= 1 && ad <= 3 ==> (1u8 | (p << 1u8) | (w << 2u8) | (ad << 3u8) | (1u8
        << 7u8)) == 1 + 2 * p + 4 * w + 8 * ad + 128) by (bit_vector);
    let req = (1u8 | (p << 1u8) | (w << 2u8) | (ad << 3u8) | (1u8 << 7u8)) as u8;
    lemma_popcount_byte(req as nat);
    let parity = (popcount(req as nat) % 2) as u8;
    assert(p <= 1 && w <= 1 && ad <= 3 && parity <= 1 ==> ((1u8 | (p << 1u8) | (w << 2u8) | (ad
        << 3u8) | (1u8 << 7u8)) | (parity << 5u8)) == (1u8 | (p << 1u8) | (w << 2u8) | (ad << 3u8)
        | (1u8 << 7u8)) + 32 * parity) by (bit_vector);
}

/// The value of bits given least significant first.
pub open spec fn bits_value(bits: Seq<bool>) -> nat
    decreases bits.len(),
{
    if bits.len() == 0 {
        0
    } else {
        bits_value(bits.drop_last()) + if bits.last() {
            pow2((bits.len() - 1) as nat)
        } else {
            0
        }
    }
}

/// Bits given least significant first stand for a number below
/// `2^len`.
pub proof fn lemma_bits_value_bound(bits: Seq<bool>)
    ensures
        bits_value(bits) < pow2(bits.len()),
    decreases bits.len(),
{
    vstd::arithmetic::power2::lemma_pow2_pos(bits.len());
    if bits.len() > 0 {
        lemma_bits_value_bound(bits.drop_last());
        vstd::arithmetic::power2::lemma_pow2_unfold(bits.len());
    }
}

/// The number of `true` entries of a bit sequence.
pub open spec fn count_true(bits: Seq<bool>) -> nat
    decreases bits.len(),
{
    if bits.len() == 0 {
        0
    } else {
        count_true(bits.drop_last()) + if bits.last() {
            1nat
        } else {
            0nat
        }
    }
}

/// Setting a clear bit `k` of a number adds one to its one bits.
pub proof fn lemma_popcount_set_bit(y: nat, k: nat)
    requires
        (y / pow2(k)) % 2 == 0,
    ensures
        popcount(y + pow2(k)) == popcount(y) + 1,
    decreases k,
{
    let z = y + pow2(k);
    assert(popcount(y) == y % 2 + popcount(y / 2));
    assert(popcount(z) == z % 2 + popcount(z / 2));
    if k == 0 {
        vstd::arithmetic::power2::lemma2_to64();
        assert(y / 1 == y);
        assert(z / 2 == y / 2);
    } else {
        vstd::arithmetic::power2::lemma_pow2_unfold(k);
        vstd::arithmetic::power2::lemma_pow2_pos((k - 1) as nat);
        let h = pow2((k - 1) as nat);
        assert(z == y + 2 * h);
        assert(z % 2 == y % 2);
        assert(z / 2 == y / 2 + h);
        vstd::arithmetic::div_mod::lemma_div_denominator(y as int, 2, h as int);
        assert((y / 2) / h == y / pow2(k));
        lemma_popcount_set_bit(y / 2, (k - 1) as nat);
    }
}

/// The one bits of the number that some bits stand for are the `true`
/// bits.
pub proof fn lemma_popcount_bits_value(bits: Seq<bool>)
    ensures
        popcount(bits_value(bits)) == count_true(bits),
    decreases bits.len(),
{
    if bits.len() > 0 {
        let n = (bits.len() - 1) as nat;
        let v = bits_value(bits.drop_last());
        lemma_popcount_bits_value(bits.drop_last());
        if bits.last() {
            lemma_bits_value_bound(bits.drop_last());
            vstd::arithmetic::div_mod::lemma_basic_div(v as int, pow2(n) as int);
            lemma_popcount_set_bit(v, n);
        }
    }
}

/// Flipping one bit of a sequence changes its count of `true` bits by
/// one.
pub proof fn lemma_count_true_flip(bits: Seq<bool>, k: int)
    requires
        0 <= k < bits.len(),
    ensures
        count_true(bits.update(k, !bits[k])) as int == if bits[k] {
            count_true(bits) as int - 1
        } else {
            count_true(bits) as int + 1
        },
    decreases bits.len(),
{
    let flipped = bits.update(k, !bits[k]);
    if k == bits.len() - 1 {
        assert(flipped.drop_last() =~= bits.drop_last());
    } else {
        lemma_count_true_flip(bits.drop_last(), k);
        assert(flipped.drop_last() =~= bits.drop_last().update(k, !bits[k]));
        assert(flipped.last() == bits.last());
        assert(bits.drop_last()[k] == bits[k]);
    }
}

/// The low `n` bits of `w`, least significant first.
pub open spec fn word_bits(w: u32, n: nat) -> Seq<bool> {
    Seq::new(n, |i: int| (w >> (i as u32)) & 1u32 == 1u32)
}

/// Bit `i` of a 32-bit word, read by shifting.
proof fn lemma_bit_of_shift(w: u32, i: u32)
    requires
        i < 32,
    ensures
        bit_of(w as nat, i as nat) == ((w >> i) & 1u32 == 1u32),
{
    vstd::bits::lemma_u32_shr_is_div(w, i);
    let v = w >> i;
    assert(v & 1u32 == v % 2) by (bit_vector);
}

/// The bits of `x` below `n`, least significant first, stand for `x`
/// modulo `2^n`.
proof fn lemma_bits_value_of_bits(x: nat, n: nat)
    ensures
        bits_value(Seq::new(n, |i: int| bit_of(x, i as nat))) == x % pow2(n),
    decreases n,
{
    let s = Seq::new(n, |i: int| bit_of(x, i as nat));
    if n == 0 {
        vstd::arithmetic::power2::lemma2_to64();
    } else {
        let m = (n - 1) as nat;
        let prev = Seq::new(m, |i: int| bit_of(x, i as nat));
        assert(s.drop_last() =~= prev);
        lemma_bits_value_of_bits(x, m);
        vstd::arithmetic::power2::lemma_pow2_unfold(n);
        vstd::arithmetic::power2::lemma_pow2_pos(m);
        vstd::arithmetic::div_mod::lemma_mod_breakdown(x as int, pow2(m) as int, 2);
        assert(pow2(m) * 2 == pow2(n));
    }
}

/// The one bits of a 32-bit word, counted over its 32 bits.
pub proof fn lemma_word_bits_count(w: u32)
    ensures
        count_true(word_bits(w, 32)) == popcount(w as nat),
{
    let s = Seq::new(32, |i: int| bit_of(w as nat, i as nat));
    assert forall|i: int| 0 <= i < 32 implies word_bits(w, 32)[i] == s[i] by {
        lemma_bit_of_shift(w, i as u32);
    }
    assert(word_bits(w, 32) =~= s);
    lemma_bits_value_of_bits(w as nat, 32);
    vstd::arithmetic::power2::lemma2_to64();
    vstd::arithmetic::power2::lemma2_to64_rest();
    assert(w as nat % pow2(32) == w as nat);
    lemma_popcount_bits_value(s);
}

/// Bits of equal length that stand for the same number are the same.
proof fn lemma_bits_value_injective(a: Seq<bool>, b: Seq<bool>)
    requires
        a.len() == b.len(),
        bits_value(a) == bits_value(b),
    ensures
        a == b,
    decreases a.len(),
{
    if a.len() > 0 {
        let n = (a.len() - 1) as nat;
        lemma_bits_value_bound(a.drop_last());
        lemma_bits_value_bound(b.drop_last());
        assert(a.last() == b.last());
        lemma_bits_value_injective(a.drop_last(), b.drop_last());
        assert(a =~= a.drop_last().push(a.last()));
        assert(b =~= b.drop_last().push(b.last()));
    } else {
        assert(a =~= b);
    }
}

/// The 32 bits of the word that 32 bits stand for are those bits.
pub proof fn lemma_word_bits_of_value(bits: Seq<bool>)
    requires
        bits.len() == 32,
    ensures
        bits_value(bits) < 0x1_0000_0000,
        word_bits(bits_value(bits) as u32, 32) == bits,
{
    lemma_bits_value_bound(bits);
    vstd::arithmetic::power2::lemma2_to64();
    vstd::arithmetic::power2::lemma2_to64_rest();
    let w = bits_value(bits) as u32;
    assert(w as nat == bits_value(bits));
    let s = Seq::new(32, |i: int| bit_of(w as nat, i as nat));
    assert forall|i: int| 0 <= i < 32 implies word_bits(w, 32)[i] == s[i] by {
        lemma_bit_of_shift(w, i as u32);
    }
    assert(word_bits(w, 32) =~= s);
    lemma_bits_value_of_bits(w as nat, 32);
    assert(w as nat % pow2(32) == w as nat);
    lemma_bits_value_injective(s, bits);
}

/// The levels driven on SWDIO by a run of events, in order.
pub open spec fn swdio_levels_driven(events: Seq<PinEvent>) -> Seq<bool>
    decreases events.len(),
{
    if events.len() == 0 {
        Seq::empty()
    } else {
        swdio_levels_driven(events.drop_last()) + match events.last() {
            PinEvent::Drive(DbgLine::Swdio, level) => seq![level],
            _ => Seq::empty(),
        }
    }
}

/// The levels driven by two runs of events are those of each, in order.
pub proof fn lemma_levels_driven_concat(a: Seq<PinEvent>, b: Seq<PinEvent>)
    ensures
        swdio_levels_driven(a + b) == swdio_levels_driven(a) + swdio_levels_driven(b),
    decreases b.len(),
{
    if b.len() == 0 {
        assert(a + b =~= a);
        assert(swdio_levels_driven(a) + swdio_levels_driven(b) =~= swdio_levels_driven(a));
    } else {
        lemma_levels_driven_concat(a, b.drop_last());
        assert((a + b).drop_last() =~= a + b.drop_last());
        assert((a + b).last() == b.last());
        assert(swdio_levels_driven(a + b) =~= swdio_levels_driven(a) + swdio_levels_driven(b));
    }
}

/// The levels driven by a run of events that drives SWDIO nowhere: none.
pub proof fn lemma_levels_driven_none(events: Seq<PinEvent>)
    requires
        forall|i: int| 0 <= i < events.len() ==> !(#[trigger] events[i] is Drive && events[i]->Drive_0
            == DbgLine::Swdio),
    ensures
        swdio_levels_driven(events) == Seq::<bool>::empty(),
    decreases events.len(),
{
    if events.len() > 0 {
        let prev = events.drop_last();
        assert forall|i: int| 0 <= i < prev.len() implies !(#[trigger] prev[i] is Drive
            && prev[i]->Drive_0 == DbgLine::Swdio) by {
            assert(prev[i] == events[i]);
        }
        lemma_levels_driven_none(prev);
        assert(!(events[events.len() - 1] is Drive && events[events.len() - 1]->Drive_0
            == DbgLine::Swdio));
    }
}

/// One output clock cycle drives its bit on SWDIO, once.
pub proof fn lemma_write_bit_levels(bit: bool, half: u32)
    ensures
        swdio_levels_driven(write_bit_events(bit, half)) == seq![bit],
{
    let head = seq![PinEvent::Drive(DbgLine::Swdio, bit)];
    let tail = seq![
        PinEvent::Drive(DbgLine::Swclk, false),
        PinEvent::Delay(half),
        PinEvent::Drive(DbgLine::Swclk, true),
        PinEvent::Delay(half),
    ];
    assert(write_bit_events(bit, half) =~= head + tail);
    lemma_levels_driven_none(tail);
    lemma_levels_driven_concat(head, tail);
    assert(head.drop_last() =~= Seq::<PinEvent>::empty());
    assert(head.last() == PinEvent::Drive(DbgLine::Swdio, bit));
    assert(swdio_levels_driven(head.drop_last()) =~= Seq::<bool>::empty());
    assert(swdio_levels_driven(head) =~= seq![bit]);
    assert(swdio_levels_driven(head + tail) =~= seq![bit]);
}

/// Clocking out bits of a value drives each of them on SWDIO, in order.
pub proof fn lemma_write_bits_levels(value: nat, n: nat, half: u32)
    ensures
        swdio_levels_driven(write_bits_events(value, n, half)) == Seq::new(
            n,
            |i: int| bit_of(value, i as nat),
        ),
    decreases n,
{
    if n == 0 {
        assert(swdio_levels_driven(write_bits_events(value, n, half)) =~= Seq::new(
            n,
            |i: int| bit_of(value, i as nat),
        ));
    } else {
        let m = (n - 1) as nat;
        let bit = bit_of(value, m);
        lemma_write_bits_levels(value, m, half);
        lemma_write_bit_levels(bit, half);
        lemma_levels_driven_concat(write_bits_events(value, m, half), write_bit_events(bit, half));
        assert(swdio_levels_driven(write_bits_events(value, n, half)) =~= Seq::new(
            n,
            |i: int| bit_of(value, i as nat),
        ));
    }
}

/// Clocking in bits drives nothing on SWDIO.
pub proof fn lemma_read_bits_levels(bits: Seq<bool>, half: u32)
    ensures
        swdio_levels_driven(read_bits_events(bits, half)) == Seq::<bool>::empty(),
    decreases bits.len(),
{
    if bits.len() > 0 {
        lemma_read_bits_levels(bits.drop_last(), half);
        let e = read_bit_events(bits.last(), half);
        lemma_levels_driven_none(e);
        lemma_levels_driven_concat(read_bits_events(bits.drop_last(), half), e);
        assert(swdio_levels_driven(read_bits_events(bits, half)) =~= Seq::<bool>::empty());
    }
}

/// Clocking out the low `n < 32` bits of a word drives them on SWDIO, as
/// its shifts give them.
pub proof fn lemma_write_word_levels(w: u32, n: nat, half: u32)
    requires
        n <= 32,
    ensures
        swdio_levels_driven(write_bits_events(w as nat, n, half)) == word_bits(w, n),
{
    lemma_write_bits_levels(w as nat, n, half);
    assert forall|i: int| 0 <= i < n implies Seq::new(n, |j: int| bit_of(w as nat, j as nat))[i]
        == word_bits(w, n)[i] by {
        lemma_bit_of_shift(w, i as u32);
    }
    assert(Seq::new(n, |j: int| bit_of(w as nat, j as nat)) =~= word_bits(w, n));
}

/// Bit `i` of `v`.
pub open spec fn bit_of(v: nat, i: nat) -> bool {
    (v / pow2(i)) % 2 == 1
}

/// The lines of the debug port.
#[derive(Clone, Copy, Debug, PartialEq, Eq, Structural)]
pub enum DbgLine {
    Swclk,
    Swdio,
    Nreset,
}

/// One action of the engine on a line or on its delay.
#[derive(Clone, Copy, Debug, PartialEq, Eq, Structural)]
pub enum PinEvent {
    /// The line was released (made an input).
    ToInput(DbgLine),
    /// The line was made an output driving the given level.
    Output(DbgLine, bool),
    /// The output level of the line was set.
    Drive(DbgLine, bool),
    /// The line was read with the given result.
    Sample(DbgLine, bool),
    /// The line was read, with the given result, to check whether it has
    /// reached a level; nothing is reported of it.
    Peek(DbgLine, bool),
    /// The delay's tick counter was read; the next wait counts from it.
    ReadCount,
    /// The engine waited the given number of ticks, counted from the end of
    /// the previous wait or counter reading.
    Delay(u32),
}

/// One clock cycle that drives `bit` on SWDIO: data first, then a low and a
/// high clock phase of `half` ticks each.
pub open spec fn write_bit_events(bit: bool, half: u32) -> Seq<PinEvent> {
    seq![
        PinEvent::Drive(DbgLine::Swdio, bit),
        PinEvent::Drive(DbgLine::Swclk, false),
        PinEvent::Delay(half),
        PinEvent::Drive(DbgLine::Swclk, true),
        PinEvent::Delay(half),
    ]
}

/// One clock cycle that samples SWDIO at the end of the low clock phase;
/// each phase lasts `half` ticks.
pub open spec fn read_bit_events(bit: bool, half: u32) -> Seq<PinEvent> {
    seq![
        PinEvent::Drive(DbgLine::Swclk, false),
        PinEvent::Delay(half),
        PinEvent::Sample(DbgLine::Swdio, bit),
        PinEvent::Drive(DbgLine::Swclk, true),
        PinEvent::Delay(half),
    ]
}

/// Clock cycles driving the low `n` bits of `value`, least significant first.
pub open spec fn write_bits_events(value: nat, n: nat, half: u32) -> Seq<PinEvent>
    decreases n,
{
    if n == 0 {
        Seq::empty()
    } else {
        write_bits_events(value, (n - 1) as nat, half) + write_bit_events(
            bit_of(value, (n - 1) as nat),
            half,
        )
    }
}

/// Clock cycles sampling the given bits in order.
pub open spec fn read_bits_events(bits: Seq<bool>, half: u32) -> Seq<PinEvent>
    decreases bits.len(),
{
    if bits.len() == 0 {
        Seq::empty()
    } else {
        read_bits_events(bits.drop_last(), half) + read_bit_events(bits.last(), half)
    }
}

} // verus!
