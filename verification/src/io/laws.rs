use vstd::prelude::*;
use vstd::arithmetic::power2::{pow2, lemma2_to64, lemma2_to64_rest};
use crate::io::bits::{bit_of, bits_from, bits_of_bytes, set_bits, lemma_set_bits, lemma_bytes_from_bits};
use crate::io::binary::{
    int_to_bits,
    bits_to_int,
    lemma_int_to_bits_roundtrip,
    lemma_bit_width_bound,
    lemma_bit_width_least,
};
use crate::io::model::{BitView, lemma_push_bits_clean};
use crate::io::uper::{
    Decoded,
    range_bits,
    encode_int,
    decode_int,
    encode_length_determinant,
    decode_length_determinant,
    byte_len_from,
    int_max_byte_len,
    encode_int_max,
    decode_int_max,
    UPER_LENGTH_DET_L1,
    UPER_LENGTH_DET_L2,
    encode_octet_string,
    octet_string_len_ok,
    lemma_length_determinant_widths,
};
use crate::io::buffer::full_bit_length;

verus! {

/// Bits written into a clean buffer (one built by writing, from empty) are
/// read back exactly, in the order they were written, after the bits that
/// were already pending; the buffer stays clean.
pub proof fn law_bits_read_back_in_order(s: BitView, bits: Seq<bool>)
    requires
        s.wf(),
        s.clean(),
    ensures
        s.push_bits(bits).pending() == s.pending() + bits,
        s.push_bits(bits).bits() == s.bits() + bits,
        s.push_bits(bits).clean(),
        s.push_bits(bits).wf(),
{
    lemma_push_bits_clean(s, bits);
}

/// The empty buffer is clean.
pub proof fn law_empty_is_clean()
    ensures
        (BitView { bytes: Seq::empty(), write_position: 0, read_position: 0 }).clean(),
        (BitView { bytes: Seq::empty(), write_position: 0, read_position: 0 }).wf(),
{
}

/// Resetting the read position makes every written bit pending again.
pub proof fn law_reset_rereads_everything(s: BitView)
    requires
        s.wf(),
    ensures
        (BitView { read_position: 0, ..s }).pending() == s.bits(),
{
    assert((BitView { read_position: 0, ..s }).pending() =~= s.bits());
}

/// A buffer made from the content and bit length of another has the other's
/// written bits pending.
pub proof fn law_reload_pends_written_bits(s: BitView)
    requires
        s.wf(),
    ensures
        (BitView {
            bytes: s.bytes,
            write_position: s.write_position,
            read_position: 0,
        }).pending() == s.bits(),
{
    law_reset_rereads_everything(s);
}

/// An integer inside `[lower, upper]` reads back as itself from its
/// encoding, whatever follows it, and the read takes exactly the bits of
/// the encoding.
pub proof fn law_int_roundtrip(value: int, lower: int, upper: int, rest: Seq<bool>)
    requires
        lower <= value <= upper,
        upper - lower <= i64::MAX,
    ensures
        decode_int(encode_int(value, lower, upper) + rest, lower, upper) == Decoded::Value(
            value,
            encode_int(value, lower, upper).len(),
        ),
        encode_int(value, lower, upper).len() == range_bits(lower, upper),
{
    let d = (upper - lower) as nat;
    let n = range_bits(lower, upper);
    let enc = encode_int(value, lower, upper);
    lemma_bit_width_bound(d);
    lemma_int_to_bits_roundtrip((value - lower) as nat, n);
    assert((enc + rest).take(n as int) =~= enc);
}

/// A length up to 16383 reads back as itself from its length determinant,
/// whatever follows it, and the read takes exactly the determinant's bits.
pub proof fn law_length_determinant_roundtrip(length: int, rest: Seq<bool>)
    requires
        0 <= length <= UPER_LENGTH_DET_L2,
    ensures
        decode_length_determinant(encode_length_determinant(length) + rest) == Decoded::Value(
            length,
            encode_length_determinant(length).len(),
        ),
        encode_length_determinant(length).len() == (if length <= UPER_LENGTH_DET_L1 {
            8nat
        } else {
            16nat
        }),
{
    lemma_length_determinant_widths();
    let all = encode_length_determinant(length) + rest;
    if length <= UPER_LENGTH_DET_L1 {
        let enc = encode_int(length, 0, UPER_LENGTH_DET_L1 as int);
        law_int_roundtrip(length, 0, UPER_LENGTH_DET_L1 as int, rest);
        assert(all.skip(1) =~= enc + rest);
    } else {
        let enc = encode_int(length, 0, UPER_LENGTH_DET_L2 as int);
        law_int_roundtrip(length, 0, UPER_LENGTH_DET_L2 as int, rest);
        assert(all.skip(2) =~= enc + rest);
    }
}

/// The byte count of an unconstrained integer lies in `[1, 8]` and its
/// bits hold the integer.
pub proof fn lemma_int_max_byte_len(v: nat)
    requires
        v < pow2(64),
    ensures
        1 <= int_max_byte_len(v) <= 8,
        v < pow2(8 * int_max_byte_len(v)),
{
    lemma_byte_len_from(v, 1);
}

proof fn lemma_byte_len_from(v: nat, n: nat)
    requires
        1 <= n <= 8,
        v < pow2(64),
    ensures
        n <= byte_len_from(v, n) <= 8,
        v < pow2(8 * byte_len_from(v, n)),
    decreases 8 - n,
{
    if n < 8 && v >= pow2(8 * n) {
        lemma_byte_len_from(v, n + 1);
    }
}

/// A non-negative integer up to `i64::MAX` reads back as itself from its
/// unconstrained encoding, whatever follows it, and the read takes exactly
/// the bits of the encoding.
pub proof fn law_int_max_roundtrip(value: nat, rest: Seq<bool>)
    requires
        value <= i64::MAX,
    ensures
        decode_int_max(encode_int_max(value) + rest) == Decoded::Value(
            value as int,
            encode_int_max(value).len(),
        ),
{
    lemma2_to64();
    lemma2_to64_rest();
    lemma_int_max_byte_len(value);
    let len = int_max_byte_len(value);
    let det = encode_length_determinant(len as int);
    let body = int_to_bits(value, 8 * len);
    let all = encode_int_max(value) + rest;
    assert(all =~= det + (body + rest));
    law_length_determinant_roundtrip(len as int, body + rest);
    let k = det.len();
    assert(all.skip(k as int) =~= body + rest);
    lemma_int_to_bits_roundtrip(value, 8 * len);
    assert((body + rest).take((8 * len) as int) =~= body);
}

/// A bit string written into a clean buffer with nothing pending, then read
/// into a destination at the same offset, lands there bit for bit; the
/// destination's other bits are untouched.
pub proof fn law_bit_string_roundtrip(
    s: BitView,
    source: Seq<u8>,
    destination: Seq<u8>,
    offset: int,
    len: nat,
)
    requires
        s.wf(),
        s.clean(),
        s.read_position == s.write_position,
        0 <= offset,
        offset + len <= source.len() * 8,
        offset + len <= destination.len() * 8,
    ensures
        ({
            let written = s.push_bits(bits_from(source, offset, len));
            let read = set_bits(destination, offset, written.pending().take(len as int));
            &&& written.pending().len() == len
            &&& read.len() == destination.len()
            &&& forall|j: int|
                0 <= j < destination.len() * 8 ==> #[trigger] bit_of(read, j) == (if offset <= j
                    < offset + len {
                    bit_of(source, j)
                } else {
                    bit_of(destination, j)
                })
        }),
{
    let bits = bits_from(source, offset, len);
    lemma_push_bits_clean(s, bits);
    let written = s.push_bits(bits);
    assert(s.pending() =~= Seq::<bool>::empty());
    assert(written.pending() =~= bits);
    assert(written.pending().take(len as int) =~= bits);
    lemma_set_bits(destination, offset, bits);
}

/// A range `[lower, upper]` takes the fewest bits that hold every offset
/// from `lower`: `upper - lower` is below `2^n`, and, when it is positive,
/// at least `2^(n - 1)`.
pub proof fn law_range_bits_is_least_width(lower: int, upper: int)
    requires
        lower <= upper,
    ensures
        upper - lower < pow2(range_bits(lower, upper)),
        upper - lower == 0 <==> range_bits(lower, upper) == 0,
        upper - lower > 0 ==> pow2((range_bits(lower, upper) - 1) as nat) <= upper - lower,
{
    lemma_bit_width_bound((upper - lower) as nat);
    lemma_bit_width_least((upper - lower) as nat);
}

/// A value in `[lower, upper]` is written as its offset `value - lower`,
/// most significant digit first, on the bits the range takes.
pub proof fn law_int_encoding(value: int, lower: int, upper: int)
    requires
        lower <= value <= upper,
    ensures
        encode_int(value, lower, upper).len() == range_bits(lower, upper),
        bits_to_int(encode_int(value, lower, upper)) == value - lower,
        forall|i: int|
            0 <= i < range_bits(lower, upper) ==> #[trigger] encode_int(value, lower, upper)[i] == ((
            (value - lower) / pow2((range_bits(lower, upper) - 1 - i) as nat) as int) % 2 == 1),
{
    law_range_bits_is_least_width(lower, upper);
    lemma_int_to_bits_roundtrip((value - lower) as nat, range_bits(lower, upper));
}

/// A length up to 127 is written as a `0` bit and the length on 7 bits; a
/// length from 128 to 16383 as `1`, `0` and the length on 14 bits.
pub proof fn law_length_determinant_encoding(length: int)
    requires
        0 <= length <= UPER_LENGTH_DET_L2,
    ensures
        length <= UPER_LENGTH_DET_L1 ==> {
            let e = encode_length_determinant(length);
            &&& e.len() == 8
            &&& !e[0]
            &&& bits_to_int(e.skip(1)) == length
        },
        length > UPER_LENGTH_DET_L1 ==> {
            let e = encode_length_determinant(length);
            &&& e.len() == 16
            &&& e[0]
            &&& !e[1]
            &&& bits_to_int(e.skip(2)) == length
        },
{
    lemma_length_determinant_widths();
    let e = encode_length_determinant(length);
    if length <= UPER_LENGTH_DET_L1 {
        law_int_encoding(length, 0, UPER_LENGTH_DET_L1 as int);
        assert(e.skip(1) =~= encode_int(length, 0, UPER_LENGTH_DET_L1 as int));
    } else {
        law_int_encoding(length, 0, UPER_LENGTH_DET_L2 as int);
        assert(e.skip(2) =~= encode_int(length, 0, UPER_LENGTH_DET_L2 as int));
    }
}

/// An unconstrained integer takes the fewest whole bytes, from one to
/// eight, that hold it; it is written as a one-byte length determinant with
/// that count, then the integer on that many bytes.
pub proof fn law_int_max_encoding(value: nat)
    requires
        value <= i64::MAX,
    ensures
        ({
            let n = int_max_byte_len(value);
            let e = encode_int_max(value);
            &&& 1 <= n <= 8
            &&& value < pow2(8 * n)
            &&& n == 1 || pow2((8 * (n - 1)) as nat) <= value
            &&& e.len() == 8 + 8 * n
            &&& !e[0]
            &&& bits_to_int(e.subrange(1, 8)) == n
            &&& bits_to_int(e.skip(8)) == value
        }),
{
    lemma2_to64();
    lemma2_to64_rest();
    lemma_byte_len_least(value, 1);
    let n = int_max_byte_len(value);
    let e = encode_int_max(value);
    let det = encode_length_determinant(n as int);
    let body = int_to_bits(value, 8 * n);
    law_length_determinant_encoding(n as int);
    lemma_int_to_bits_roundtrip(value, 8 * n);
    assert(e.subrange(1, 8) =~= det.skip(1));
    assert(e.skip(8) =~= body);
}

proof fn lemma_byte_len_least(v: nat, n: nat)
    requires
        1 <= n <= 8,
        v < pow2(64),
        n == 1 || pow2((8 * (n - 1)) as nat) <= v,
    ensures
        ({
            let m = byte_len_from(v, n);
            &&& n <= m <= 8
            &&& v < pow2(8 * m)
            &&& m == 1 || pow2((8 * (m - 1)) as nat) <= v
        }),
    decreases 8 - n,
{
    if n < 8 && v >= pow2(8 * n) {
        lemma_byte_len_least(v, n + 1);
    }
}

/// A buffer over received bytes has every bit of them pending, in order,
/// whenever their bit count fits in a `usize`.
pub proof fn law_received_bytes_all_readable(bytes: Seq<u8>)
    requires
        bytes.len() * 8 <= usize::MAX,
    ensures
        full_bit_length(bytes.len()) == bytes.len() * 8,
        (BitView {
            bytes: bytes,
            write_position: full_bit_length(bytes.len()),
            read_position: 0,
        }).pending() == bits_of_bytes(bytes),
{
    let s = BitView { bytes: bytes, write_position: full_bit_length(bytes.len()), read_position: 0 };
    assert(s.pending() =~= bits_of_bytes(bytes));
}

/// Writing bits into an empty buffer packs them most significant bit first:
/// bit `i` is bit `7 - i % 8` of byte `i / 8`, the bytes are just enough to
/// hold them, and the bits after them are zero.
pub proof fn law_written_bits_packing(bits: Seq<bool>)
    ensures
        ({
            let t = (BitView { bytes: Seq::empty(), write_position: 0, read_position: 0 }).push_bits(
                bits,
            );
            &&& t.write_position == bits.len()
            &&& t.read_position == 0
            &&& t.bytes.len() == (bits.len() + 7) / 8
            &&& forall|i: int|
                0 <= i < t.bytes.len() * 8 ==> (((#[trigger] t.bytes[i / 8] >> ((7 - i % 8) as u8))
                    & 1u8 == 1u8) == (i < bits.len() && bits[i]))
        }),
{
    let s = BitView { bytes: Seq::empty(), write_position: 0, read_position: 0 };
    lemma_push_bits_clean(s, bits);
    let t = s.push_bits(bits);
    assert(s.bits() + bits =~= bits);
    assert forall|i: int| 0 <= i < t.bytes.len() * 8 implies (((#[trigger] t.bytes[i / 8] >> ((7
        - i % 8) as u8)) & 1u8 == 1u8) == (i < bits.len() && bits[i])) by {
        assert(bit_of(t.bytes, i) == ((t.bytes[i / 8] >> ((7 - i % 8) as u8)) & 1u8 == 1u8));
        if i < bits.len() {
            assert(t.bits()[i] == bits[i]);
        }
    }
}

/// An octet string is written as its length (constrained to the range when
/// there is one, a length determinant otherwise) followed by every one of
/// its bits, most significant first; those bits, read into any destination
/// of as many bytes, give back the string itself.
pub proof fn law_octet_string_encoding(bytes: Seq<u8>, length_range: Option<(i64, i64)>)
    requires
        octet_string_len_ok(bytes.len() as int, length_range),
    ensures
        ({
            let e = encode_octet_string(bytes, length_range);
            let prefix = match length_range {
                Some((min, max)) => encode_int(bytes.len() as int, min as int, max as int),
                None => encode_length_determinant(bytes.len() as int),
            };
            &&& e.len() == prefix.len() + 8 * bytes.len()
            &&& e.take(prefix.len() as int) == prefix
            &&& forall|i: int|
                0 <= i < 8 * bytes.len() ==> #[trigger] e[prefix.len() + i] == ((bytes[i / 8] >> ((7
                    - i % 8) as u8)) & 1u8 == 1u8)
            &&& forall|d: Seq<u8>|
                d.len() == bytes.len() ==> #[trigger] set_bits(d, 0, e.skip(prefix.len() as int))
                    == bytes
        }),
{
    let e = encode_octet_string(bytes, length_range);
    let prefix = match length_range {
        Some((min, max)) => encode_int(bytes.len() as int, min as int, max as int),
        None => encode_length_determinant(bytes.len() as int),
    };
    let body = bits_of_bytes(bytes);
    assert(e.take(prefix.len() as int) =~= prefix);
    assert(e.skip(prefix.len() as int) =~= body);
    assert forall|i: int| 0 <= i < 8 * bytes.len() implies #[trigger] e[prefix.len() + i] == ((
    bytes[i / 8] >> ((7 - i % 8) as u8)) & 1u8 == 1u8) by {
        assert(e[prefix.len() + i] == body[i]);
    }
    assert forall|d: Seq<u8>| d.len() == bytes.len() implies #[trigger] set_bits(
        d,
        0,
        e.skip(prefix.len() as int),
    ) == bytes by {
        lemma_set_bits(d, 0, body);
        let r = set_bits(d, 0, body);
        assert forall|i: int| 0 <= i < r.len() * 8 implies #[trigger] bit_of(r, i) == bit_of(
            bytes,
            i,
        ) by {
            assert(body[i] == bit_of(bytes, i));
        }
        lemma_bytes_from_bits(r, bytes);
    }
}

} // verus!
