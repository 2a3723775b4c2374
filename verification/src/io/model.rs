use vstd::prelude::*;
use crate::io::bits::{bit_of, set_bit, lemma_set_bit, lemma_zero_byte_bits};

verus! {

/// What a bit buffer holds: its bytes, how many bits have been written into
/// them, and how many of those have been read.
pub struct BitView {
    pub bytes: Seq<u8>,
    pub write_position: nat,
    pub read_position: nat,
}

impl BitView {
    /// Positions are consistent: reading never passes writing, and writing
    /// never passes the end of the bytes.
    pub open spec fn wf(self) -> bool {
        self.read_position <= self.write_position <= self.bytes.len() * 8
    }

    /// The bits written so far, in order.
    pub open spec fn bits(self) -> Seq<bool> {
        Seq::new(self.write_position, |i: int| bit_of(self.bytes, i))
    }

    /// The bits written but not yet read, in order.
    pub open spec fn pending(self) -> Seq<bool> {
        self.bits().subrange(self.read_position as int, self.write_position as int)
    }

    /// The buffer holds just the bytes that the written bits need, and every
    /// bit after the last written one is zero. Buffers built by writing bits
    /// from an empty one are clean.
    pub open spec fn clean(self) -> bool {
        &&& self.bytes.len() == (self.write_position + 7) / 8
        &&& forall|i: int|
            self.write_position <= i < self.bytes.len() * 8 ==> !#[trigger] bit_of(self.bytes, i)
    }

    /// The state after writing one bit: a zero byte is appended when the
    /// write position is at a byte boundary, the bit at the write position
    /// is or-ed in when it is set, and the write position advances.
    pub open spec fn push_bit(self, bit: bool) -> BitView {
        let w = self.write_position as int;
        let padded = if w % 8 == 0 { self.bytes.push(0u8) } else { self.bytes };
        BitView {
            bytes: if bit { set_bit(padded, w, true) } else { padded },
            write_position: self.write_position + 1,
            read_position: self.read_position,
        }
    }

    /// The state after writing `bits`, one after the other.
    pub open spec fn push_bits(self, bits: Seq<bool>) -> BitView
        decreases bits.len(),
    {
        if bits.len() == 0 {
            self
        } else {
            self.push_bits(bits.drop_last()).push_bit(bits.last())
        }
    }

    /// The state after `n` more bits have been read.
    pub open spec fn skip(self, n: nat) -> BitView {
        BitView { read_position: self.read_position + n, ..self }
    }
}

/// Writing one bit into a clean buffer appends exactly that bit and keeps it clean.
pub proof fn lemma_push_bit_clean(s: BitView, bit: bool)
    requires
        s.wf(),
        s.clean(),
    ensures
        s.push_bit(bit).wf(),
        s.push_bit(bit).clean(),
        s.push_bit(bit).bits() == s.bits().push(bit),
{
    let w = s.write_position as int;
    let padded = if w % 8 == 0 { s.bytes.push(0u8) } else { s.bytes };
    let t = s.push_bit(bit);
    assert(padded.len() == (w + 8) / 8);
    assert forall|j: int| 0 <= j < padded.len() * 8 implies #[trigger] bit_of(padded, j) == (
    if j < w {
        bit_of(s.bytes, j)
    } else {
        false
    }) by {
        if j / 8 < s.bytes.len() {
            assert(padded[j / 8] == s.bytes[j / 8]);
        } else {
            lemma_zero_byte_bits(j % 8);
        }
    }
    assert forall|j: int| 0 <= j < padded.len() * 8 implies #[trigger] bit_of(t.bytes, j) == (
    if j < w {
        bit_of(s.bytes, j)
    } else if j == w {
        bit
    } else {
        false
    }) by {
        if bit {
            lemma_set_bit(padded, w, true, j);
        }
    }
    if bit {
        lemma_set_bit(padded, w, true, 0);
    }
    assert(t.bits() =~= s.bits().push(bit));
}

/// Writing bits into a clean buffer appends exactly those bits, keeps it
/// clean, and leaves the read position where it was.
pub proof fn lemma_push_bits_clean(s: BitView, bits: Seq<bool>)
    requires
        s.wf(),
        s.clean(),
    ensures
        s.push_bits(bits).wf(),
        s.push_bits(bits).clean(),
        s.push_bits(bits).bits() == s.bits() + bits,
        s.push_bits(bits).read_position == s.read_position,
        s.push_bits(bits).write_position == s.write_position + bits.len(),
        s.push_bits(bits).pending() == s.pending() + bits,
    decreases bits.len(),
{
    let t = s.push_bits(bits);
    if bits.len() == 0 {
        assert(s.bits() + bits =~= s.bits());
    } else {
        let prefix = bits.drop_last();
        lemma_push_bits_clean(s, prefix);
        lemma_push_bit_clean(s.push_bits(prefix), bits.last());
        assert(s.bits() + bits =~= (s.bits() + prefix).push(bits.last()));
    }
    assert(t.pending() =~= s.pending() + bits);
}

/// Writing one bit moves only the write position, by one, and keeps the
/// positions consistent.
pub proof fn lemma_push_bit_positions(s: BitView, bit: bool)
    requires
        s.wf(),
    ensures
        s.push_bit(bit).wf(),
        s.push_bit(bit).read_position == s.read_position,
        s.push_bit(bit).write_position == s.write_position + 1,
{
    let w = s.write_position as int;
    let padded = if w % 8 == 0 { s.bytes.push(0u8) } else { s.bytes };
    if bit {
        lemma_set_bit(padded, w, true, 0);
    }
}

/// Writing bits moves only the write position, by their number, and keeps
/// the positions consistent.
pub proof fn lemma_push_bits_positions(s: BitView, bits: Seq<bool>)
    requires
        s.wf(),
    ensures
        s.push_bits(bits).wf(),
        s.push_bits(bits).read_position == s.read_position,
        s.push_bits(bits).write_position == s.write_position + bits.len(),
    decreases bits.len(),
{
    if bits.len() > 0 {
        lemma_push_bits_positions(s, bits.drop_last());
        lemma_push_bit_positions(s.push_bits(bits.drop_last()), bits.last());
    }
}

/// Writing `a` and then `b` is writing `a + b`.
pub proof fn lemma_push_bits_append(s: BitView, a: Seq<bool>, b: Seq<bool>)
    ensures
        s.push_bits(a + b) == s.push_bits(a).push_bits(b),
    decreases b.len(),
{
    if b.len() == 0 {
        assert(a + b =~= a);
    } else {
        lemma_push_bits_append(s, a, b.drop_last());
        assert((a + b).drop_last() =~= a + b.drop_last());
        assert((a + b).last() == b.last());
    }
}

/// Writing the first `k + 1` bits of a sequence is writing the first `k`
/// and then bit `k`.
pub proof fn lemma_push_bits_take(s: BitView, bits: Seq<bool>, k: int)
    requires
        0 <= k < bits.len(),
    ensures
        s.push_bits(bits.take(k + 1)) == s.push_bits(bits.take(k)).push_bit(bits[k]),
{
    assert(bits.take(k + 1).drop_last() =~= bits.take(k));
}

/// Writing a sequence of one bit is writing that bit.
pub proof fn lemma_push_bits_one(s: BitView, bit: bool)
    ensures
        s.push_bits(seq![bit]) == s.push_bit(bit),
{
    let one = seq![bit];
    assert(one.drop_last() =~= Seq::<bool>::empty());
    assert(s.push_bits(one.drop_last()) == s);
    assert(one.last() == bit);
}

/// Reading `k` pending bits leaves the rest of them pending.
pub proof fn lemma_skip_pending(s: BitView, k: nat)
    requires
        s.wf(),
        k <= s.pending().len(),
    ensures
        s.skip(k).wf(),
        s.skip(k).pending() == s.pending().skip(k as int),
        s.skip(k).pending().len() == s.pending().len() - k,
{
    assert(s.skip(k).pending() =~= s.pending().skip(k as int));
}

} // verus!
