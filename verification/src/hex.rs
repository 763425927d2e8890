//! Upper-case hexadecimal rendering of byte strings, used for USB serial
//! numbers built from a chip's unique id.

use vstd::prelude::*;
use vstd::utf8::*;
use vstd::string::StringSliceAdditionalSpecFns;

verus! {

/// ASCII `0`.
pub const ASCII_ZERO: u8 = 48;
/// ASCII `A`.
pub const ASCII_UPPER_A: u8 = 65;
/// ASCII `?`.
pub const ASCII_QUESTION_MARK: u8 = 63;

/// The ASCII character of one hexadecimal digit: `0`-`9`, `A`-`F`, and `?`
/// for a value that is no digit.
pub open spec fn spec_hex_char(n: u8) -> u8 {
    if n <= 9 {
        (ASCII_ZERO + n) as u8
    } else if n <= 15 {
        (ASCII_UPPER_A + (n - 10)) as u8
    } else {
        ASCII_QUESTION_MARK
    }
}

/// Two characters per byte, high nibble first.
pub open spec fn hex_encoding(bytes: Seq<u8>) -> Seq<u8> {
    Seq::new(
        2 * bytes.len(),
        |i: int|
            if i % 2 == 0 {
                spec_hex_char(bytes[i / 2] >> 4)
            } else {
                spec_hex_char(bytes[i / 2] & 0x0f)
            },
    )
}

/// Encoding is byte by byte: the encoding of two byte strings joined is
/// their encodings joined.
pub proof fn lemma_hex_encoding_concat(a: Seq<u8>, b: Seq<u8>)
    ensures
        hex_encoding(a + b) == hex_encoding(a) + hex_encoding(b),
{
    let joined = hex_encoding(a + b);
    let parts = hex_encoding(a) + hex_encoding(b);
    assert forall|i: int| 0 <= i < joined.len() implies joined[i] == parts[i] by {
        if i < 2 * a.len() {
            assert((a + b)[i / 2] == a[i / 2]);
        } else {
            let k = i - 2 * a.len();
            assert(k / 2 == i / 2 - a.len());
            assert(k % 2 == i % 2);
            assert((a + b)[i / 2] == b[k / 2]);
        }
    }
    assert(joined =~= parts);
}

/// The character of one hexadecimal digit.
pub fn hex_char(n: u8) -> (c: u8)
    ensures
        c == spec_hex_char(n),
{
    if n <= 9 {
        ASCII_ZERO + n
    } else if n <= 15 {
        ASCII_UPPER_A + (n - 10)
    } else {
        ASCII_QUESTION_MARK
    }
}

/// Every byte below 0x80 is a one-byte UTF-8 scalar, so such a sequence is
/// valid UTF-8.
pub proof fn lemma_ascii_is_utf8(bytes: Seq<u8>)
    requires
        forall|i: int| 0 <= i < bytes.len() ==> bytes[i] <= 0x7f,
    ensures
        valid_utf8(bytes),
    decreases bytes.len(),
{
    if bytes.len() != 0 {
        let rest = bytes.subrange(1, bytes.len() as int);
        assert(valid_first_scalar(bytes));
        assert(pop_first_scalar(bytes) =~= rest);
        assert forall|i: int| 0 <= i < rest.len() implies rest[i] <= 0x7f by {
            assert(rest[i] == bytes[i + 1]);
        }
        lemma_ascii_is_utf8(rest);
    }
}

#[verifier::external_type_specification]
#[verifier::external_body]
pub struct ExUtf8Error(core::str::Utf8Error);

/// `core::str::from_utf8`: the bytes as a string slice when they are valid
/// UTF-8, an error otherwise; the slice holds exactly the given bytes.
#[verifier::external_body]
fn str_from_utf8(bytes: &[u8]) -> (r: Result<&str, core::str::Utf8Error>)
    ensures
        r is Ok <==> valid_utf8(bytes@),
        r is Ok ==> r->Ok_0.spec_bytes() == bytes@,
{
    core::str::from_utf8(bytes)
}

/// Writes the upper-case hexadecimal form of `bytes` to the front of `out`
/// and returns it as a string; fails, leaving `out` untouched, when `out`
/// has room for fewer than two characters per byte.
pub fn bytes_to_hex<'a>(bytes: &[u8], out: &'a mut [u8]) -> (r: Result<&'a str, ()>)
    ensures
        r is Ok <==> old(out)@.len() >= 2 * bytes@.len(),
        r is Err ==> final(out)@ == old(out)@,
        r is Ok ==> {
            &&& final(out)@.len() == old(out)@.len()
            &&& final(out)@.subrange(0, 2 * bytes@.len() as int) == hex_encoding(bytes@)
            &&& final(out)@.subrange(2 * bytes@.len() as int, old(out)@.len() as int)
                == old(out)@.subrange(2 * bytes@.len() as int, old(out)@.len() as int)
            &&& r->Ok_0.spec_bytes() == hex_encoding(bytes@)
        },
{
    if out.len() / 2 < bytes.len() {
        return Err(());
    }
    let ghost start = out@;
    let mut i: usize = 0;
    let mut k: usize = 0;
    while k < bytes.len()
        invariant
            i == 2 * k,
            k <= bytes@.len(),
            2 * bytes@.len() <= out@.len(),
            out@.len() == start.len(),
            forall|j: int| 0 <= j < i ==> out@[j] == #[trigger] hex_encoding(bytes@)[j],
            forall|j: int| i <= j < out@.len() ==> out@[j] == start[j],
        decreases bytes@.len() - k,
    {
        let b = bytes[k];
        let hi = b >> 4;
        let lo = b & 0x0F;
        out[i] = hex_char(hi);
        out[i + 1] = hex_char(lo);
        i += 2;
        k += 1;
    }
    assert(out@.subrange(0, i as int) =~= hex_encoding(bytes@));
    assert(out@.subrange(i as int, out@.len() as int) =~= start.subrange(i as int, start.len() as int));
    let text = &out[0..i];
    proof {
        assert forall|j: int| 0 <= j < text@.len() implies text@[j] <= 0x7f by {
            assert(text@[j] == hex_encoding(bytes@)[j]);
        }
        lemma_ascii_is_utf8(text@);
    }
    match str_from_utf8(text) {
        Ok(s) => Ok(s),
        Err(_) => Err(()),
    }
}

} // verus!
