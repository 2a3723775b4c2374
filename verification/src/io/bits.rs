use vstd::prelude::*;

verus! {

/// The bit at position `k` of byte `b`, counting from the most significant
/// bit (`k == 0`) to the least significant one (`k == 7`).
pub open spec fn msb_bit(b: u8, k: int) -> bool {
    (b >> ((7 - k) as u8)) & 1u8 == 1u8
}

/// The bit at position `i` of a byte sequence read as one long bit string,
/// most significant bit of each byte first.
pub open spec fn bit_of(bytes: Seq<u8>, i: int) -> bool {
    msb_bit(bytes[i / 8], i % 8)
}

/// The mask that selects bit `k` (counted from the most significant bit) of a byte.
pub open spec fn msb_mask(k: int) -> u8 {
    1u8 << ((7 - k) as u8)
}

/// `bytes` with bit `i` set to `bit`: the byte that holds it is or-ed with
/// its mask to set it, and-ed with the mask's complement to clear it.
pub open spec fn set_bit(bytes: Seq<u8>, i: int, bit: bool) -> Seq<u8> {
    let b = bytes[i / 8];
    bytes.update(i / 8, if bit { b | msb_mask(i % 8) } else { b & !msb_mask(i % 8) })
}

/// `bytes` with the bits from position `offset` on replaced by `bits`, one
/// after the other.
pub open spec fn set_bits(bytes: Seq<u8>, offset: int, bits: Seq<bool>) -> Seq<u8>
    decreases bits.len(),
{
    if bits.len() == 0 {
        bytes
    } else {
        set_bit(
            set_bits(bytes, offset, bits.drop_last()),
            offset + bits.len() - 1,
            bits.last(),
        )
    }
}

/// The `len` bits of `bytes` that start at bit position `offset`.
pub open spec fn bits_from(bytes: Seq<u8>, offset: int, len: nat) -> Seq<bool> {
    Seq::new(len, |i: int| bit_of(bytes, offset + i))
}

/// All the bits of `bytes`, eight per byte.
pub open spec fn bits_of_bytes(bytes: Seq<u8>) -> Seq<bool> {
    bits_from(bytes, 0, bytes.len() * 8)
}

proof fn lemma_byte_or(b: u8, s: u8, t: u8)
    by (bit_vector)
    requires
        s < 8,
        t < 8,
    ensures
        ((b | (1u8 << s)) >> t) & 1u8 == (if s == t { 1u8 } else { (b >> t) & 1u8 }),
{
}

proof fn lemma_byte_and_not(b: u8, s: u8, t: u8)
    by (bit_vector)
    requires
        s < 8,
        t < 8,
    ensures
        ((b & !(1u8 << s)) >> t) & 1u8 == (if s == t { 0u8 } else { (b >> t) & 1u8 }),
{
}

proof fn lemma_byte_zero(t: u8)
    by (bit_vector)
    requires
        t < 8,
    ensures
        (0u8 >> t) & 1u8 == 0u8,
{
}

/// Testing a byte against a one-bit mask reads the bit the mask selects.
pub proof fn lemma_mask_test(b: u8, k: int)
    requires
        0 <= k < 8,
    ensures
        (b & msb_mask(k) == msb_mask(k)) == msb_bit(b, k),
        (((b >> ((7 - k) as u8)) & 1u8) == 1u8) == msb_bit(b, k),
{
    let s = (7 - k) as u8;
    assert((b & (1u8 << s) == (1u8 << s)) == ((b >> s) & 1u8 == 1u8)) by (bit_vector)
        requires
            s < 8,
    ;
}

/// The zero byte has no bit set.
pub proof fn lemma_zero_byte_bits(k: int)
    requires
        0 <= k < 8,
    ensures
        !msb_bit(0u8, k),
{
    lemma_byte_zero((7 - k) as u8);
}

/// Setting one bit leaves the length and every other bit as it was.
pub proof fn lemma_set_bit(bytes: Seq<u8>, i: int, bit: bool, j: int)
    requires
        0 <= i < bytes.len() * 8,
        0 <= j < bytes.len() * 8,
    ensures
        set_bit(bytes, i, bit).len() == bytes.len(),
        bit_of(set_bit(bytes, i, bit), j) == (if j == i { bit } else { bit_of(bytes, j) }),
{
    let r = set_bit(bytes, i, bit);
    if i / 8 == j / 8 {
        let s = (7 - i % 8) as u8;
        let t = (7 - j % 8) as u8;
        assert(i == j <==> s == t);
        lemma_byte_or(bytes[i / 8], s, t);
        lemma_byte_and_not(bytes[i / 8], s, t);
    } else {
        assert(r[j / 8] == bytes[j / 8]);
    }
}

/// What `set_bits` does, bit by bit: the bits in `[offset, offset + bits.len())`
/// are the new ones, all others are unchanged, and so is the length.
pub proof fn lemma_set_bits(bytes: Seq<u8>, offset: int, bits: Seq<bool>)
    requires
        0 <= offset,
        offset + bits.len() <= bytes.len() * 8,
    ensures
        set_bits(bytes, offset, bits).len() == bytes.len(),
        forall|j: int|
            0 <= j < bytes.len() * 8 ==> #[trigger] bit_of(set_bits(bytes, offset, bits), j) == (
            if offset <= j < offset + bits.len() {
                bits[j - offset]
            } else {
                bit_of(bytes, j)
            }),
    decreases bits.len(),
{
    if bits.len() > 0 {
        let prefix = bits.drop_last();
        lemma_set_bits(bytes, offset, prefix);
        let mid = set_bits(bytes, offset, prefix);
        let p = offset + bits.len() - 1;
        assert forall|j: int| 0 <= j < bytes.len() * 8 implies #[trigger] bit_of(
            set_bits(bytes, offset, bits),
            j,
        ) == (if offset <= j < offset + bits.len() {
            bits[j - offset]
        } else {
            bit_of(bytes, j)
        }) by {
            lemma_set_bit(mid, p, bits.last(), j);
            if offset <= j < p {
                assert(bits[j - offset] == prefix[j - offset]);
            }
        }
        lemma_set_bit(mid, p, bits.last(), 0);
    }
}

proof fn lemma_byte_from_bits(a: u8, c: u8)
    by (bit_vector)
    requires
        ((a >> 7u8) & 1u8 == 1u8) == ((c >> 7u8) & 1u8 == 1u8),
        ((a >> 6u8) & 1u8 == 1u8) == ((c >> 6u8) & 1u8 == 1u8),
        ((a >> 5u8) & 1u8 == 1u8) == ((c >> 5u8) & 1u8 == 1u8),
        ((a >> 4u8) & 1u8 == 1u8) == ((c >> 4u8) & 1u8 == 1u8),
        ((a >> 3u8) & 1u8 == 1u8) == ((c >> 3u8) & 1u8 == 1u8),
        ((a >> 2u8) & 1u8 == 1u8) == ((c >> 2u8) & 1u8 == 1u8),
        ((a >> 1u8) & 1u8 == 1u8) == ((c >> 1u8) & 1u8 == 1u8),
        ((a >> 0u8) & 1u8 == 1u8) == ((c >> 0u8) & 1u8 == 1u8),
    ensures
        a == c,
{
}

/// Byte sequences of one length with the same bits are the same.
pub proof fn lemma_bytes_from_bits(x: Seq<u8>, y: Seq<u8>)
    requires
        x.len() == y.len(),
        forall|i: int| 0 <= i < x.len() * 8 ==> #[trigger] bit_of(x, i) == bit_of(y, i),
    ensures
        x == y,
{
    assert forall|j: int| 0 <= j < x.len() implies x[j] == y[j] by {
        assert forall|k: int| 0 <= k < 8 implies msb_bit(x[j], k) == msb_bit(y[j], k) by {
            assert(bit_of(x, 8 * j + k) == bit_of(y, 8 * j + k));
            assert((8 * j + k) / 8 == j);
            assert((8 * j + k) % 8 == k);
        }
        assert(msb_bit(x[j], 0) == msb_bit(y[j], 0));
        assert(msb_bit(x[j], 1) == msb_bit(y[j], 1));
        assert(msb_bit(x[j], 2) == msb_bit(y[j], 2));
        assert(msb_bit(x[j], 3) == msb_bit(y[j], 3));
        assert(msb_bit(x[j], 4) == msb_bit(y[j], 4));
        assert(msb_bit(x[j], 5) == msb_bit(y[j], 5));
        assert(msb_bit(x[j], 6) == msb_bit(y[j], 6));
        assert(msb_bit(x[j], 7) == msb_bit(y[j], 7));
        lemma_byte_from_bits(x[j], y[j]);
    }
    assert(x =~= y);
}

} // verus!
