//! One PPK2 measurement word and its computation from raw ADC samples.
//!
//! Layout of the 32-bit word, least significant bit first:
//! `adc_data` 14 bits, `range` 3 bits, `counter` 6 bits, `logic_data` 8 bits,
//! `rsvd` 1 bit.

use vstd::prelude::*;
use vstd::arithmetic::power2::pow2;
use vstd::bits::{lemma_u32_pow2_no_overflow, lemma_u32_shl_is_mul, lemma_u64_shl_is_mul};

verus! {

/// The mask of the low `width` bits.
pub open spec fn low_mask(width: u32) -> u32 {
    (u32::MAX >> ((32 - width) as u32)) as u32
}

/// The field of `width` bits starting at bit `offset`.
pub open spec fn bit_field(bits: u32, offset: u32, width: u32) -> u32 {
    ((bits >> offset) & low_mask(width)) as u32
}

/// `bits` with the field of `width` bits at `offset` replaced by `value`.
pub open spec fn with_bit_field(bits: u32, offset: u32, width: u32, value: u32) -> u32 {
    ((bits & !(low_mask(width) << offset)) | ((value & low_mask(width)) << offset)) as u32
}

/// A field reads back the value that was written into it.
pub proof fn lemma_field_read_after_write(bits: u32, offset: u32, width: u32, value: u32)
    requires
        1 <= width,
        offset + width <= 32,
        value <= low_mask(width),
    ensures
        bit_field(with_bit_field(bits, offset, width, value), offset, width) == value,
{
    assert(1 <= width && offset + width <= 32 && value <= (u32::MAX >> ((32 - width) as u32))
        ==> (((((bits & !((u32::MAX >> ((32 - width) as u32)) << offset)) | ((value & (u32::MAX
        >> ((32 - width) as u32))) << offset)) >> offset) & (u32::MAX >> ((32 - width) as u32)))
        == value)) by (bit_vector);
}

/// Writing one field leaves every field that does not overlap it unchanged.
pub proof fn lemma_field_write_keeps_others(
    bits: u32,
    offset: u32,
    width: u32,
    value: u32,
    other_offset: u32,
    other_width: u32,
)
    requires
        1 <= width,
        offset + width <= 32,
        1 <= other_width,
        other_offset + other_width <= 32,
        offset + width <= other_offset || other_offset + other_width <= offset,
    ensures
        bit_field(with_bit_field(bits, offset, width, value), other_offset, other_width)
            == bit_field(bits, other_offset, other_width),
{
    assert(1 <= width && offset + width <= 32 && 1 <= other_width && other_offset + other_width
        <= 32 && (offset + width <= other_offset || other_offset + other_width <= offset) ==> ((((
        bits & !((u32::MAX >> ((32 - width) as u32)) << offset)) | ((value & (u32::MAX >> ((32
        - width) as u32))) << offset)) >> other_offset) & (u32::MAX >> ((32 - other_width) as u32)))
        == ((bits >> other_offset) & (u32::MAX >> ((32 - other_width) as u32)))) by (bit_vector);
}


/// The masks of the field widths used by the measurement word.
pub proof fn lemma_field_masks()
    ensures
        low_mask(1) == 1,
        low_mask(3) == 7,
        low_mask(6) == 0x3f,
        low_mask(8) == 0xff,
        low_mask(14) == 0x3fff,
{
    assert((u32::MAX >> 31u32) == 1u32) by (bit_vector);
    assert((u32::MAX >> 29u32) == 7u32) by (bit_vector);
    assert((u32::MAX >> 26u32) == 0x3fu32) by (bit_vector);
    assert((u32::MAX >> 24u32) == 0xffu32) by (bit_vector);
    assert((u32::MAX >> 18u32) == 0x3fffu32) by (bit_vector);
}

/// One PPK2 measurement word with named bit fields.
#[derive(Clone, Copy, Debug)]
pub struct Ppk2MeasurementData(u32);

impl View for Ppk2MeasurementData {
    type V = u32;

    closed spec fn view(&self) -> u32 {
        self.0
    }
}

impl Default for Ppk2MeasurementData {
    /// A word with every field zero.
    fn default() -> (r: Self)
        ensures
            r@ == 0,
    {
        Ppk2MeasurementData(0)
    }
}

/// The word with the given bits.
pub closed spec fn word_of_bits(bits: u32) -> Ppk2MeasurementData {
    Ppk2MeasurementData(bits)
}

/// The word made from some bits holds exactly those bits.
pub proof fn lemma_word_of_bits(bits: u32)
    ensures
        word_of_bits(bits)@ == bits,
{
}

impl vstd::std_specs::convert::FromSpecImpl<u32> for Ppk2MeasurementData {
    open spec fn obeys_from_spec() -> bool {
        true
    }

    open spec fn from_spec(v: u32) -> Self {
        word_of_bits(v)
    }
}

impl From<u32> for Ppk2MeasurementData {
    /// The word with the given bits.
    fn from(v: u32) -> (r: Self) {
        Ppk2MeasurementData(v)
    }
}

impl vstd::std_specs::convert::FromSpecImpl<Ppk2MeasurementData> for u32 {
    open spec fn obeys_from_spec() -> bool {
        true
    }

    open spec fn from_spec(v: Ppk2MeasurementData) -> Self {
        v@
    }
}

impl From<Ppk2MeasurementData> for u32 {
    /// The bits of the word.
    fn from(v: Ppk2MeasurementData) -> (r: Self) {
        v.0
    }
}

/// Reads `width` bits at `offset`.
fn read_field(bits: u32, offset: u32, width: u32) -> (r: u32)
    requires
        1 <= width,
        offset + width <= 32,
    ensures
        r == bit_field(bits, offset, width),
        r <= low_mask(width),
{
    assert((1 <= width && offset + width <= 32) ==> (((bits >> offset) & (u32::MAX >> ((32 - width) as u32))) <= (u32::MAX >> ((32 - width) as u32)))) by (bit_vector);
    (bits >> offset) & (u32::MAX >> (32 - width))
}

/// Writes `value` into `width` bits at `offset`; refuses a value that does
/// not fit.
fn write_field(bits: u32, offset: u32, width: u32, value: u32) -> (r: Option<u32>)
    requires
        1 <= width,
        offset + width <= 32,
    ensures
        r is Some <==> value <= low_mask(width),
        r is Some ==> r->0 == with_bit_field(bits, offset, width, value),
{
    let mask = u32::MAX >> (32 - width);
    if value > mask {
        return None;
    }
    Some((bits & !(mask << offset)) | ((value & mask) << offset))
}

impl Ppk2MeasurementData {
    /// Width of the `adc_data` field.
    pub const ADC_DATA_BITS: usize = 14;
    /// Position of the `adc_data` field.
    pub const ADC_DATA_OFFSET: usize = 0;
    /// Width of the `range` field.
    pub const RANGE_BITS: usize = 3;
    /// Position of the `range` field.
    pub const RANGE_OFFSET: usize = 14;
    /// Width of the `counter` field.
    pub const COUNTER_BITS: usize = 6;
    /// Position of the `counter` field.
    pub const COUNTER_OFFSET: usize = 17;
    /// Width of the `logic_data` field.
    pub const LOGIC_DATA_BITS: usize = 8;
    /// Position of the `logic_data` field.
    pub const LOGIC_DATA_OFFSET: usize = 23;
    /// Width of the `rsvd` field.
    pub const RSVD_BITS: usize = 1;
    /// Position of the `rsvd` field.
    pub const RSVD_OFFSET: usize = 31;

    /// A word with every field zero.
    pub fn new() -> (r: Self)
        ensures
            r@ == 0,
    {
        Ppk2MeasurementData(0)
    }

    /// The word with the given bits.
    pub fn from_bits(bits: u32) -> (r: Self)
        ensures
            r@ == bits,
    {
        Ppk2MeasurementData(bits)
    }

    /// The bits of the word.
    pub fn into_bits(self) -> (r: u32)
        ensures
            r == self@,
    {
        self.0
    }

    /// The `adc_data` field (bits 0..14).
    pub fn adc_data(&self) -> (r: u16)
        ensures
            r as u32 == bit_field(self@, 0, 14),
    {
        proof { lemma_field_masks(); }
        read_field(self.0, 0, 14) as u16
    }

    /// Stores `value` in the `adc_data` field; refuses, leaving the word unchanged,
    /// a value wider than the field.
    pub fn set_adc_data_checked(&mut self, value: u16) -> (r: Result<(), ()>)
        ensures
            r is Ok <==> value as u32 <= low_mask(14),
            r is Ok ==> final(self)@ == with_bit_field(old(self)@, 0, 14, value as u32),
            r is Err ==> final(self)@ == old(self)@,
    {
        proof { lemma_field_masks(); }
        match write_field(self.0, 0, 14, value as u32) {
            Some(bits) => {
                self.0 = bits;
                Ok(())
            },
            None => Err(()),
        }
    }

    /// Stores `value` in the `adc_data` field.
    pub fn set_adc_data(&mut self, value: u16)
        requires
            value as u32 <= low_mask(14),
        ensures
            final(self)@ == with_bit_field(old(self)@, 0, 14, value as u32),
    {
        let _ = self.set_adc_data_checked(value);
    }

    /// The word with `value` in the `adc_data` field, or an error for a value wider
    /// than the field.
    pub fn with_adc_data_checked(self, value: u16) -> (r: Result<Self, ()>)
        ensures
            r is Ok <==> value as u32 <= low_mask(14),
            r is Ok ==> r->Ok_0@ == with_bit_field(self@, 0, 14, value as u32),
    {
        let mut this = self;
        match this.set_adc_data_checked(value) {
            Ok(()) => Ok(this),
            Err(()) => Err(()),
        }
    }

    /// The word with `value` in the `adc_data` field.
    pub fn with_adc_data(self, value: u16) -> (r: Self)
        requires
            value as u32 <= low_mask(14),
        ensures
            r@ == with_bit_field(self@, 0, 14, value as u32),
    {
        let mut this = self;
        this.set_adc_data(value);
        this
    }

    /// The `range` field (bits 14..17).
    pub fn range(&self) -> (r: u8)
        ensures
            r as u32 == bit_field(self@, 14, 3),
    {
        proof { lemma_field_masks(); }
        read_field(self.0, 14, 3) as u8
    }

    /// Stores `value` in the `range` field; refuses, leaving the word unchanged,
    /// a value wider than the field.
    pub fn set_range_checked(&mut self, value: u8) -> (r: Result<(), ()>)
        ensures
            r is Ok <==> value as u32 <= low_mask(3),
            r is Ok ==> final(self)@ == with_bit_field(old(self)@, 14, 3, value as u32),
            r is Err ==> final(self)@ == old(self)@,
    {
        proof { lemma_field_masks(); }
        match write_field(self.0, 14, 3, value as u32) {
            Some(bits) => {
                self.0 = bits;
                Ok(())
            },
            None => Err(()),
        }
    }

    /// Stores `value` in the `range` field.
    pub fn set_range(&mut self, value: u8)
        requires
            value as u32 <= low_mask(3),
        ensures
            final(self)@ == with_bit_field(old(self)@, 14, 3, value as u32),
    {
        let _ = self.set_range_checked(value);
    }

    /// The word with `value` in the `range` field, or an error for a value wider
    /// than the field.
    pub fn with_range_checked(self, value: u8) -> (r: Result<Self, ()>)
        ensures
            r is Ok <==> value as u32 <= low_mask(3),
            r is Ok ==> r->Ok_0@ == with_bit_field(self@, 14, 3, value as u32),
    {
        let mut this = self;
        match this.set_range_checked(value) {
            Ok(()) => Ok(this),
            Err(()) => Err(()),
        }
    }

    /// The word with `value` in the `range` field.
    pub fn with_range(self, value: u8) -> (r: Self)
        requires
            value as u32 <= low_mask(3),
        ensures
            r@ == with_bit_field(self@, 14, 3, value as u32),
    {
        let mut this = self;
        this.set_range(value);
        this
    }

    /// The `counter` field (bits 17..23).
    pub fn counter(&self) -> (r: u8)
        ensures
            r as u32 == bit_field(self@, 17, 6),
    {
        proof { lemma_field_masks(); }
        read_field(self.0, 17, 6) as u8
    }

    /// Stores `value` in the `counter` field; refuses, leaving the word unchanged,
    /// a value wider than the field.
    pub fn set_counter_checked(&mut self, value: u8) -> (r: Result<(), ()>)
        ensures
            r is Ok <==> value as u32 <= low_mask(6),
            r is Ok ==> final(self)@ == with_bit_field(old(self)@, 17, 6, value as u32),
            r is Err ==> final(self)@ == old(self)@,
    {
        proof { lemma_field_masks(); }
        match write_field(self.0, 17, 6, value as u32) {
            Some(bits) => {
                self.0 = bits;
                Ok(())
            },
            None => Err(()),
        }
    }

    /// Stores `value` in the `counter` field.
    pub fn set_counter(&mut self, value: u8)
        requires
            value as u32 <= low_mask(6),
        ensures
            final(self)@ == with_bit_field(old(self)@, 17, 6, value as u32),
    {
        let _ = self.set_counter_checked(value);
    }

    /// The word with `value` in the `counter` field, or an error for a value wider
    /// than the field.
    pub fn with_counter_checked(self, value: u8) -> (r: Result<Self, ()>)
        ensures
            r is Ok <==> value as u32 <= low_mask(6),
            r is Ok ==> r->Ok_0@ == with_bit_field(self@, 17, 6, value as u32),
    {
        let mut this = self;
        match this.set_counter_checked(value) {
            Ok(()) => Ok(this),
            Err(()) => Err(()),
        }
    }

    /// The word with `value` in the `counter` field.
    pub fn with_counter(self, value: u8) -> (r: Self)
        requires
            value as u32 <= low_mask(6),
        ensures
            r@ == with_bit_field(self@, 17, 6, value as u32),
    {
        let mut this = self;
        this.set_counter(value);
        this
    }

    /// The `logic_data` field (bits 23..31).
    pub fn logic_data(&self) -> (r: u8)
        ensures
            r as u32 == bit_field(self@, 23, 8),
    {
        proof { lemma_field_masks(); }
        read_field(self.0, 23, 8) as u8
    }

    /// Stores `value` in the `logic_data` field; refuses, leaving the word unchanged,
    /// a value wider than the field.
    pub fn set_logic_data_checked(&mut self, value: u8) -> (r: Result<(), ()>)
        ensures
            r is Ok <==> value as u32 <= low_mask(8),
            r is Ok ==> final(self)@ == with_bit_field(old(self)@, 23, 8, value as u32),
            r is Err ==> final(self)@ == old(self)@,
    {
        proof { lemma_field_masks(); }
        match write_field(self.0, 23, 8, value as u32) {
            Some(bits) => {
                self.0 = bits;
                Ok(())
            },
            None => Err(()),
        }
    }

    /// Stores `value` in the `logic_data` field.
    pub fn set_logic_data(&mut self, value: u8)
        requires
            value as u32 <= low_mask(8),
        ensures
            final(self)@ == with_bit_field(old(self)@, 23, 8, value as u32),
    {
        let _ = self.set_logic_data_checked(value);
    }

    /// The word with `value` in the `logic_data` field, or an error for a value wider
    /// than the field.
    pub fn with_logic_data_checked(self, value: u8) -> (r: Result<Self, ()>)
        ensures
            r is Ok <==> value as u32 <= low_mask(8),
            r is Ok ==> r->Ok_0@ == with_bit_field(self@, 23, 8, value as u32),
    {
        let mut this = self;
        match this.set_logic_data_checked(value) {
            Ok(()) => Ok(this),
            Err(()) => Err(()),
        }
    }

    /// The word with `value` in the `logic_data` field.
    pub fn with_logic_data(self, value: u8) -> (r: Self)
        requires
            value as u32 <= low_mask(8),
        ensures
            r@ == with_bit_field(self@, 23, 8, value as u32),
    {
        let mut this = self;
        this.set_logic_data(value);
        this
    }

    /// The `rsvd` field (bits 31..32).
    pub fn rsvd(&self) -> (r: bool)
        ensures
            r == (bit_field(self@, 31, 1) != 0),
    {
        proof { lemma_field_masks(); }
        read_field(self.0, 31, 1) != 0
    }

    /// Stores `value` in the `rsvd` field; refuses, leaving the word unchanged,
    /// a value wider than the field.
    pub fn set_rsvd_checked(&mut self, value: bool) -> (r: Result<(), ()>)
        ensures
            r is Ok <==> true,
            r is Ok ==> final(self)@ == with_bit_field(old(self)@, 31, 1, (if value { 1u32 } else { 0u32 })),
            r is Err ==> final(self)@ == old(self)@,
    {
        proof { lemma_field_masks(); }
        match write_field(self.0, 31, 1, (if value { 1u32 } else { 0u32 })) {
            Some(bits) => {
                self.0 = bits;
                Ok(())
            },
            None => Err(()),
        }
    }

    /// Stores `value` in the `rsvd` field.
    pub fn set_rsvd(&mut self, value: bool)
        requires
            true,
        ensures
            final(self)@ == with_bit_field(old(self)@, 31, 1, (if value { 1u32 } else { 0u32 })),
    {
        let _ = self.set_rsvd_checked(value);
    }

    /// The word with `value` in the `rsvd` field, or an error for a value wider
    /// than the field.
    pub fn with_rsvd_checked(self, value: bool) -> (r: Result<Self, ()>)
        ensures
            r is Ok <==> true,
            r is Ok ==> r->Ok_0@ == with_bit_field(self@, 31, 1, (if value { 1u32 } else { 0u32 })),
    {
        let mut this = self;
        match this.set_rsvd_checked(value) {
            Ok(()) => Ok(this),
            Err(()) => Err(()),
        }
    }

    /// The word with `value` in the `rsvd` field.
    pub fn with_rsvd(self, value: bool) -> (r: Self)
        requires
            true,
        ensures
            r@ == with_bit_field(self@, 31, 1, (if value { 1u32 } else { 0u32 })),
    {
        let mut this = self;
        this.set_rsvd(value);
        this
    }
}

/// The sum of a run of ADC samples.
pub open spec fn sample_sum(samples: Seq<u16>) -> nat
    decreases samples.len(),
{
    if samples.len() == 0 {
        0
    } else {
        sample_sum(samples.drop_last()) + samples.last() as nat
    }
}

/// The number of samples as the 32-bit count that the computation divides
/// by (it wraps for runs longer than `u32::MAX`).
pub open spec fn sample_count(samples: Seq<u16>) -> nat {
    (samples.len() as u32) as nat
}

/// The average of `samples` rescaled from an ADC of `adc_bit_resolution`
/// bits to the 14 bits of a measurement word.
pub open spec fn scaled_average(samples: Seq<u16>, adc_bit_resolution: nat) -> nat
    recommends
        sample_count(samples) > 0,
{
    if adc_bit_resolution < 14 {
        sample_sum(samples) * pow2((14 - adc_bit_resolution) as nat) / sample_count(samples)
    } else if adc_bit_resolution == 14 {
        sample_sum(samples) / sample_count(samples)
    } else {
        sample_sum(samples) / (pow2((adc_bit_resolution - 14) as nat) * sample_count(samples))
    }
}

/// The inputs on which the measurement is computed without overflow, shift
/// overflow or division by zero.
pub open spec fn measurement_computable(samples: Seq<u16>, adc_bit_resolution: nat) -> bool {
    &&& sample_count(samples) > 0
    &&& sample_sum(samples) <= u32::MAX
    &&& adc_bit_resolution < 14 ==> sample_sum(samples) * pow2((14 - adc_bit_resolution) as nat)
        <= u32::MAX
    &&& adc_bit_resolution > 14 ==> {
        &&& adc_bit_resolution - 14 < 32
        &&& pow2((adc_bit_resolution - 14) as nat) * sample_count(samples) <= u32::MAX
    }
}

/// The PPK2 wire word: `adc` in bits 0..14, `range` in bits 14..17 and the
/// measurement `counter` in bits 18..24.
pub open spec fn ppk2_word(adc: u32, range: u8, counter: u32) -> u32 {
    ((adc & 0x3fff) | (((range as u32) & 0b111) << 14u32) | ((counter & 0b111111) << 18u32)) as u32
}

/// Whether a run of samples can be turned into a measurement word without
/// overflow, shift overflow or division by zero.
pub fn measurement_computable_check(adc_raw_data: &[u16], adc_bit_resolution: usize) -> (r: bool)
    ensures
        r == measurement_computable(adc_raw_data@, adc_bit_resolution as nat),
{
    #[verifier::truncate]
    let count = adc_raw_data.len() as u32;
    if count == 0 {
        return false;
    }
    let mut sum: u64 = 0;
    let mut k: usize = 0;
    while k < adc_raw_data.len()
        invariant
            k <= adc_raw_data@.len(),
            sum == sample_sum(adc_raw_data@.subrange(0, k as int)),
            sum <= u32::MAX,
        decreases adc_raw_data@.len() - k,
    {
        proof {
            assert(adc_raw_data@.subrange(0, k + 1).drop_last() =~= adc_raw_data@.subrange(0, k as int));
        }
        sum = sum + adc_raw_data[k] as u64;
        if sum > u32::MAX as u64 {
            proof {
                lemma_prefix_sum_bounded(adc_raw_data@, k + 1);
            }
            return false;
        }
        k += 1;
    }
    proof {
        assert(adc_raw_data@.subrange(0, k as int) =~= adc_raw_data@);
    }
    if adc_bit_resolution < 14 {
        let shift = (14 - adc_bit_resolution) as u32;
        proof {
            vstd::arithmetic::power2::lemma_pow2_strictly_increases(shift as nat, 15);
            vstd::arithmetic::power2::lemma2_to64();
            lemma_u64_shl_is_mul(1, shift as u64);
            assert(sum * pow2(shift as nat) <= u32::MAX * 0x8000) by (nonlinear_arith)
                requires sum <= u32::MAX, pow2(shift as nat) <= 0x8000;
        }
        sum * (1u64 << shift) <= u32::MAX as u64
    } else if adc_bit_resolution == 14 {
        true
    } else {
        if adc_bit_resolution - 14 >= 32 {
            return false;
        }
        let shift = (adc_bit_resolution - 14) as u32;
        proof {
            vstd::arithmetic::power2::lemma_pow2_strictly_increases(shift as nat, 32);
            vstd::arithmetic::power2::lemma2_to64();
            lemma_u64_shl_is_mul(1, shift as u64);
            assert(pow2(shift as nat) * count <= 0x1_0000_0000 * u32::MAX) by (nonlinear_arith)
                requires count <= u32::MAX, pow2(shift as nat) <= 0x1_0000_0000;
        }
        (1u64 << shift) * (count as u64) <= u32::MAX as u64
    }
}

/// The fields of a PPK2 wire word read back what it was built from.
pub proof fn lemma_ppk2_word_fields(adc: u32, range: u8, counter: u32)
    ensures
        bit_field(ppk2_word(adc, range, counter), 0, 14) == adc % 0x4000,
        bit_field(ppk2_word(adc, range, counter), 14, 3) == range as u32 % 8,
        bit_field(ppk2_word(adc, range, counter), 17, 1) == 0,
        bit_field(ppk2_word(adc, range, counter), 18, 6) == counter % 64,
        bit_field(ppk2_word(adc, range, counter), 24, 8) == 0,
{
    let r = range as u32;
    assert(((((adc & 0x3fff) | ((r & 0b111) << 14u32) | ((counter & 0b111111) << 18u32)) >> 0u32)
        & (u32::MAX >> 18u32)) == adc % 0x4000) by (bit_vector);
    assert(((((adc & 0x3fff) | ((r & 0b111) << 14u32) | ((counter & 0b111111) << 18u32)) >> 14u32)
        & (u32::MAX >> 29u32)) == r % 8) by (bit_vector);
    assert(((((adc & 0x3fff) | ((r & 0b111) << 14u32) | ((counter & 0b111111) << 18u32)) >> 17u32)
        & (u32::MAX >> 31u32)) == 0) by (bit_vector);
    assert(((((adc & 0x3fff) | ((r & 0b111) << 14u32) | ((counter & 0b111111) << 18u32)) >> 18u32)
        & (u32::MAX >> 26u32)) == counter % 64) by (bit_vector);
    assert(((((adc & 0x3fff) | ((r & 0b111) << 14u32) | ((counter & 0b111111) << 18u32)) >> 24u32)
        & (u32::MAX >> 24u32)) == 0) by (bit_vector);
}

proof fn lemma_prefix_sum_bounded(samples: Seq<u16>, k: int)
    requires
        0 <= k <= samples.len(),
    ensures
        sample_sum(samples.subrange(0, k)) <= sample_sum(samples),
    decreases samples.len() - k,
{
    if k < samples.len() {
        lemma_prefix_sum_bounded(samples, k + 1);
        assert(samples.subrange(0, k + 1).drop_last() =~= samples.subrange(0, k));
    } else {
        assert(samples.subrange(0, k) =~= samples);
    }
}

/// Taking sample `j` out of a run takes its value out of the sum.
proof fn lemma_sum_remove(samples: Seq<u16>, j: int)
    requires
        0 <= j < samples.len(),
    ensures
        sample_sum(samples) == sample_sum(samples.remove(j)) + samples[j] as nat,
    decreases samples.len(),
{
    if j == samples.len() - 1 {
        assert(samples.remove(j) =~= samples.drop_last());
    } else {
        lemma_sum_remove(samples.drop_last(), j);
        assert(samples.remove(j).drop_last() =~= samples.drop_last().remove(j));
        assert(samples.remove(j).last() == samples.last());
    }
}

/// Two runs that hold the same samples, in any order, have the same length
/// and the same sum.
proof fn lemma_sum_permutation(a: Seq<u16>, b: Seq<u16>)
    requires
        a.to_multiset() == b.to_multiset(),
    ensures
        a.len() == b.len(),
        sample_sum(a) == sample_sum(b),
    decreases a.len(),
{
    broadcast use vstd::seq_lib::group_to_multiset_ensures;

    if a.len() == 0 {
        assert(b.to_multiset().len() == 0);
    } else {
        let x = a.last();
        let rest = a.drop_last();
        assert(rest.push(x) =~= a);
        assert(a[a.len() - 1] == x);
        assert(a.contains(x));
        assert(a.to_multiset().count(x) > 0);
        assert(b.to_multiset().count(x) > 0);
        assert(b.contains(x));
        let j = choose|j: int| 0 <= j < b.len() && b[j] == x;
        lemma_sum_remove(b, j);
        assert(rest.to_multiset() =~= a.to_multiset().remove(x));
        assert(b.remove(j).to_multiset() =~= b.to_multiset().remove(x));
        lemma_sum_permutation(rest, b.remove(j));
    }
}

/// Only which samples a run holds matters, not their order: a run and any
/// reordering of it are computable alike and give the same measurement
/// word.
pub proof fn lemma_measurement_ignores_sample_order(
    a: Seq<u16>,
    b: Seq<u16>,
    adc_bit_resolution: nat,
    range: u8,
    counter: u32,
)
    requires
        a.to_multiset() == b.to_multiset(),
    ensures
        measurement_computable(a, adc_bit_resolution) == measurement_computable(
            b,
            adc_bit_resolution,
        ),
        ppk2_word(scaled_average(a, adc_bit_resolution) as u32, range, counter) == ppk2_word(
            scaled_average(b, adc_bit_resolution) as u32,
            range,
            counter,
        ),
{
    lemma_sum_permutation(a, b);
}

/// Averages a run of raw ADC samples, rescales the average to 14 bits and
/// packs it with the measurement range and counter into a PPK2 wire word.
pub fn make_ppk2_measurement_data(
    adc_raw_data: &[u16],
    adc_bit_resolution: usize,
    counter: u32,
    range: u8,
) -> (r: u32)
    requires
        measurement_computable(adc_raw_data@, adc_bit_resolution as nat),
    ensures
        r == ppk2_word(scaled_average(adc_raw_data@, adc_bit_resolution as nat) as u32, range, counter),
{
    let mut adc_data_sum: u32 = 0;
    let mut k: usize = 0;
    while k < adc_raw_data.len()
        invariant
            k <= adc_raw_data@.len(),
            adc_data_sum == sample_sum(adc_raw_data@.subrange(0, k as int)),
            sample_sum(adc_raw_data@) <= u32::MAX,
        decreases adc_raw_data@.len() - k,
    {
        proof {
            assert(adc_raw_data@.subrange(0, k + 1).drop_last() =~= adc_raw_data@.subrange(0, k as int));
            lemma_prefix_sum_bounded(adc_raw_data@, k + 1);
        }
        adc_data_sum = adc_data_sum + adc_raw_data[k] as u32;
        k += 1;
    }
    proof {
        assert(adc_raw_data@.subrange(0, k as int) =~= adc_raw_data@);
    }
    #[verifier::truncate]
    let len = adc_raw_data.len() as u32;
    let adc_data: u32 = if adc_bit_resolution < 14 {
        let shift = (14 - adc_bit_resolution) as u32;
        proof {
            lemma_u32_pow2_no_overflow(shift as nat);
            lemma_u32_shl_is_mul(1, shift);
        }
        let scale = 1u32 << shift;
        proof {
            assert(adc_data_sum * scale <= u32::MAX);
        }
        adc_data_sum * scale / len
    } else if adc_bit_resolution == 14 {
        adc_data_sum / len
    } else {
        let shift = (adc_bit_resolution - 14) as u32;
        proof {
            lemma_u32_pow2_no_overflow(shift as nat);
            lemma_u32_shl_is_mul(1, shift);
            assert(pow2(shift as nat) <= pow2(shift as nat) * len) by (nonlinear_arith)
                requires len >= 1;
        }
        let scale = 1u32 << shift;
        adc_data_sum / (scale * len)
    };
    (adc_data & 0x3fff) | (((range as u32) & 0b111) << 14u32) | ((counter & 0b111111) << 18u32)
}

/// A measurement word is the sum of its five fields, each in its place.
pub proof fn lemma_word_from_fields(bits: u32)
    ensures
        bits == (bit_field(bits, 0, 14) | (bit_field(bits, 14, 3) << 14u32) | (bit_field(bits, 17, 6)
            << 17u32) | (bit_field(bits, 23, 8) << 23u32) | (bit_field(bits, 31, 1) << 31u32)),
{
    assert(bits == (((bits >> 0u32) & (u32::MAX >> 18u32)) | (((bits >> 14u32) & (u32::MAX >> 29u32))
        << 14u32) | (((bits >> 17u32) & (u32::MAX >> 26u32)) << 17u32) | (((bits >> 23u32) & (u32::MAX
        >> 24u32)) << 23u32) | (((bits >> 31u32) & (u32::MAX >> 31u32)) << 31u32))) by (bit_vector);
}

/// The five fields of the measurement word do not overlap: a field reads
/// back any value that fits it, and setting any one of them leaves the
/// other four as they were.
pub proof fn lemma_measurement_fields_independent(bits: u32, value: u32)
    ensures
        forall|i: int|
            0 <= i < 5 && value <= low_mask(field_width(i)) ==> #[trigger] bit_field(
                with_bit_field(bits, field_offset(i), field_width(i), value),
                field_offset(i),
                field_width(i),
            ) == value,
        forall|i: int, j: int|
            0 <= i < 5 && 0 <= j < 5 && i != j ==> #[trigger] bit_field(
                with_bit_field(bits, field_offset(i), field_width(i), value),
                field_offset(j),
                field_width(j),
            ) == #[trigger] bit_field(bits, field_offset(j), field_width(j)),
{
    assert forall|i: int| 0 <= i < 5 && value <= low_mask(field_width(i)) implies #[trigger] bit_field(
        with_bit_field(bits, field_offset(i), field_width(i), value),
        field_offset(i),
        field_width(i),
    ) == value by {
        lemma_field_read_after_write(bits, field_offset(i), field_width(i), value);
    }
    assert forall|i: int, j: int|
        0 <= i < 5 && 0 <= j < 5 && i != j implies #[trigger] bit_field(
            with_bit_field(bits, field_offset(i), field_width(i), value),
            field_offset(j),
            field_width(j),
        ) == #[trigger] bit_field(bits, field_offset(j), field_width(j)) by {
        lemma_field_write_keeps_others(
            bits,
            field_offset(i),
            field_width(i),
            value,
            field_offset(j),
            field_width(j),
        );
    }
}

/// The position of field `i` of the measurement word, in the order
/// `adc_data`, `range`, `counter`, `logic_data`, `rsvd`.
pub open spec fn field_offset(i: int) -> u32 {
    if i == 0 {
        0
    } else if i == 1 {
        14
    } else if i == 2 {
        17
    } else if i == 3 {
        23
    } else {
        31
    }
}

/// The width of field `i` of the measurement word.
pub open spec fn field_width(i: int) -> u32 {
    if i == 0 {
        14
    } else if i == 1 {
        3
    } else if i == 2 {
        6
    } else if i == 3 {
        8
    } else {
        1
    }
}

} // verus!
