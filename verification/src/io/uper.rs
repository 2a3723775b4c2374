use vstd::prelude::*;
use vstd::arithmetic::power2::{pow2, lemma_pow2_strictly_increases, lemma2_to64, lemma2_to64_rest};
use crate::io::bits::bits_of_bytes;
use crate::io::binary::{
    int_to_bits,
    bits_to_int,
    bit_width,
    lemma_bit_width_leading_zeros,
    lemma_bit_width_bound,
    lemma_bits_to_int_bound,
};
use vstd::std_specs::bits::{u64_leading_zeros, axiom_u64_leading_zeros};

verus! {

/// Number of bits in a byte.
pub const BYTE_LEN: usize = 8;

/// Largest length that a one-byte length determinant can hold.
pub const UPER_LENGTH_DET_L1: i64 = 127;

/// Largest length that a two-byte length determinant can hold.
pub const UPER_LENGTH_DET_L2: i64 = 16383;

/// What can go wrong while encoding or decoding.
#[derive(Debug, PartialEq)]
pub enum Error {
    /// An encoding this library does not write or read, with a message.
    UnsupportedOperation(String),
    /// The destination of a bit string read is too short.
    InsufficientSpaceInDestinationBuffer,
    /// The source of a bit string write is too short.
    InsufficientDataInSourceBuffer,
    /// A value, and the lower and upper bounds it lies outside of.
    ValueNotInRange(i64, i64, i64),
    /// Every written bit has been read.
    EndOfStream,
}

/// The message with which a length determinant over 16383 is refused.
pub open spec fn long_length_message() -> Seq<char> {
    "Writing length determinant for lengths > 16383 is unsupported"@
}

/// The message with which a length determinant that starts with `11` is refused.
pub open spec fn long_determinant_message() -> Seq<char> {
    "Cannot read length determinant for other than i8 and i16"@
}

/// The message with which an integer of more than eight bytes is refused.
pub open spec fn wide_int_message() -> Seq<char> {
    "Reading bigger data types than 64bit is not supported"@
}

/// What decoding a prefix of the pending bits gives: a value and the number
/// of bits it took; too few bits (a read that consumes every pending bit and
/// reports `EndOfStream`); or an encoding this library does not read,
/// recognised after the given number of bits.
pub enum Decoded {
    Value(int, nat),
    Short,
    Unsupported(nat),
}

/// How many bits a decoding consumes out of `available` pending ones.
pub open spec fn consumed(d: Decoded, available: nat) -> nat {
    match d {
        Decoded::Value(_, k) => k,
        Decoded::Short => available,
        Decoded::Unsupported(k) => k,
    }
}

/// A decoding that follows `k` bits already consumed.
pub open spec fn after(d: Decoded, k: nat) -> Decoded {
    match d {
        Decoded::Value(v, n) => Decoded::Value(v, n + k),
        Decoded::Short => Decoded::Short,
        Decoded::Unsupported(n) => Decoded::Unsupported(n + k),
    }
}

/// The number of bits that an integer constrained to `[lower, upper]` takes:
/// the bit width of `upper - lower`, or all 64 bits of a word when
/// `upper < lower` (the difference then reads as a word with its top bit set).
pub open spec fn range_bits(lower: int, upper: int) -> nat {
    if upper < lower {
        64
    } else {
        bit_width((upper - lower) as nat)
    }
}

/// The bits for `[lower, upper]` are 64 minus the leading zeros of the
/// difference `upper - lower` taken as a 64-bit word.
pub proof fn lemma_range_bits_leading_zeros(lower: i64, upper: i64)
    requires
        i64::MIN <= upper - lower <= i64::MAX,
    ensures
        range_bits(lower as int, upper as int) == 64 - u64_leading_zeros(
            ((upper - lower) as i64) as u64,
        ),
        range_bits(lower as int, upper as int) <= 64,
{
    let d = (upper - lower) as i64;
    let u = d as u64;
    lemma_bit_width_leading_zeros(u);
    axiom_u64_leading_zeros(u);
    if upper < lower {
        assert(u >= 0x8000_0000_0000_0000u64) by (bit_vector)
            requires
                d < 0,
                u == d as u64,
        ;
        lemma_bit_width_bound(u as nat);
        lemma2_to64_rest();
        if bit_width(u as nat) < 63 {
            lemma_pow2_strictly_increases(bit_width(u as nat), 63);
        }
    }
}

/// The bits of `value` constrained to `[lower, upper]`: its offset from
/// `lower` in binary, on `range_bits(lower, upper)` digits.
pub open spec fn encode_int(value: int, lower: int, upper: int) -> Seq<bool> {
    int_to_bits((value - lower) as nat, range_bits(lower, upper))
}

/// A 64-bit word read as a two's complement signed integer.
pub open spec fn as_signed(r: nat) -> int {
    if r < 0x8000_0000_0000_0000 {
        r as int
    } else {
        r - 0x1_0000_0000_0000_0000
    }
}

/// The first `n` pending bits read as an unsigned binary number.
pub open spec fn decode_uint(pending: Seq<bool>, n: nat) -> Decoded {
    if n <= pending.len() {
        Decoded::Value(bits_to_int(pending.take(n as int)) as int, n)
    } else {
        Decoded::Short
    }
}

/// An integer constrained to `[lower, upper]`: `range_bits(lower, upper)`
/// bits read as a word, taken as signed, plus `lower`.
pub open spec fn decode_int(pending: Seq<bool>, lower: int, upper: int) -> Decoded {
    match decode_uint(pending, range_bits(lower, upper)) {
        Decoded::Value(r, n) => Decoded::Value(as_signed(r as nat) + lower, n),
        d => d,
    }
}

/// The bits of a length determinant: a `0` and the length on 7 bits up to
/// 127; `10` and the length on 14 bits up to 16383.
pub open spec fn encode_length_determinant(length: int) -> Seq<bool> {
    if length <= UPER_LENGTH_DET_L1 {
        seq![false] + encode_int(length, 0, UPER_LENGTH_DET_L1 as int)
    } else {
        seq![true, false] + encode_int(length, 0, UPER_LENGTH_DET_L2 as int)
    }
}

/// Reading a length determinant: after a `0`, a length on 7 bits; after
/// `10`, a length on 14 bits; `11` is not supported.
pub open spec fn decode_length_determinant(pending: Seq<bool>) -> Decoded {
    if pending.len() == 0 {
        Decoded::Short
    } else if !pending[0] {
        after(decode_int(pending.skip(1), 0, UPER_LENGTH_DET_L1 as int), 1)
    } else if pending.len() == 1 {
        Decoded::Short
    } else if !pending[1] {
        after(decode_int(pending.skip(2), 0, UPER_LENGTH_DET_L2 as int), 2)
    } else {
        Decoded::Unsupported(2)
    }
}

/// The least byte count from `n` on (and at most 8) whose bits hold `v`.
pub open spec fn byte_len_from(v: nat, n: nat) -> nat
    decreases 8 - n,
{
    if n >= 8 || v < pow2(8 * n) {
        n
    } else {
        byte_len_from(v, n + 1)
    }
}

/// The number of bytes an unconstrained integer takes: the least count,
/// at least one and at most eight, whose bits hold it.
pub open spec fn int_max_byte_len(v: nat) -> nat {
    byte_len_from(v, 1)
}

/// The bits of an unconstrained non-negative integer: a length determinant
/// with its byte count, then the integer on that many bytes.
pub open spec fn encode_int_max(v: nat) -> Seq<bool> {
    encode_length_determinant(int_max_byte_len(v) as int) + int_to_bits(v, 8 * int_max_byte_len(v))
}

/// Reading an unconstrained integer: a length determinant, then that many
/// bytes as an unsigned binary number; more than eight bytes are not supported.
pub open spec fn decode_int_max(pending: Seq<bool>) -> Decoded {
    match decode_length_determinant(pending) {
        Decoded::Value(len, k) => if len > 8 {
            Decoded::Unsupported(k)
        } else {
            after(decode_uint(pending.skip(k as int), (8 * len) as nat), k)
        },
        d => d,
    }
}

/// Whether an octet string of `len` bytes can be written: its length lies
/// in the given range, or, with no range, fits a length determinant.
pub open spec fn octet_string_len_ok(len: int, length_range: Option<(i64, i64)>) -> bool {
    match length_range {
        Some((min, max)) => min <= len <= max,
        None => len <= UPER_LENGTH_DET_L2,
    }
}

/// The bits of an octet string: its length, constrained to the range when
/// there is one and as a length determinant otherwise, then its bytes.
pub open spec fn encode_octet_string(bytes: Seq<u8>, length_range: Option<(i64, i64)>) -> Seq<bool> {
    let prefix = match length_range {
        Some((min, max)) => encode_int(bytes.len() as int, min as int, max as int),
        None => encode_length_determinant(bytes.len() as int),
    };
    prefix + bits_of_bytes(bytes)
}

/// The two length determinant forms take 7 and 14 bits.
pub proof fn lemma_length_determinant_widths()
    ensures
        range_bits(0, UPER_LENGTH_DET_L1 as int) == 7,
        range_bits(0, UPER_LENGTH_DET_L2 as int) == 14,
{
    reveal_with_fuel(bit_width, 15);
}

/// A length read on the bits for `[0, upper]`, with `upper` one of the two
/// length determinant bounds, lies in `[0, upper]`.
pub proof fn lemma_decode_length(pending: Seq<bool>, upper: int)
    requires
        upper == UPER_LENGTH_DET_L1 || upper == UPER_LENGTH_DET_L2,
    ensures
        decode_int(pending, 0, upper) matches Decoded::Value(v, n) ==> {
            &&& 0 <= v <= upper
            &&& n == range_bits(0, upper)
        },
{
    lemma_length_determinant_widths();
    let n = range_bits(0, upper);
    if n <= pending.len() {
        lemma_bits_to_int_bound(pending.take(n as int));
        lemma2_to64();
    }
}

} // verus!
