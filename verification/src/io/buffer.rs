use vstd::prelude::*;
use crate::io::bits::{
    bit_of,
    bits_from,
    bits_of_bytes,
    msb_mask,
    set_bits,
    lemma_mask_test,
    lemma_set_bits,
};
use crate::io::binary::{int_to_bits, bits_to_int, lemma_shr_bit, lemma_bits_to_int_take, lemma_bits_to_int_bound};
use crate::io::model::{
    BitView,
    lemma_push_bits_take,
    lemma_push_bits_positions,
    lemma_push_bits_one,
    lemma_push_bits_append,
    lemma_skip_pending,
};
use vstd::arithmetic::power2::{
    pow2,
    lemma_pow2_pos,
    lemma_pow2_unfold,
    lemma_pow2_strictly_increases,
    lemma2_to64,
};
use vstd::arithmetic::div_mod::{lemma_basic_div, lemma_div_non_zero};
use vstd::bits::lemma_u64_shr_is_div;
use crate::io::uper::{
    Error,
    BYTE_LEN,
    Decoded,
    range_bits,
    encode_int,
    decode_int,
    as_signed,
    encode_length_determinant,
    decode_length_determinant,
    int_max_byte_len,
    byte_len_from,
    encode_int_max,
    decode_int_max,
    octet_string_len_ok,
    encode_octet_string,
    consumed,
    UPER_LENGTH_DET_L1,
    UPER_LENGTH_DET_L2,
    lemma_range_bits_leading_zeros,
    lemma_length_determinant_widths,
    lemma_decode_length,
    long_length_message,
    long_determinant_message,
    wide_int_message,
};

verus! {

/// A byte vector that is written and read one bit at a time, most
/// significant bit of each byte first. Writing appends at the write
/// position; reading consumes from the read position up to the write position.
#[derive(Debug)]
pub struct BitBuffer {
    buffer: Vec<u8>,
    write_position: usize,
    read_position: usize,
}

impl View for BitBuffer {
    type V = BitView;

    closed spec fn view(&self) -> BitView {
        BitView {
            bytes: self.buffer@,
            write_position: self.write_position as nat,
            read_position: self.read_position as nat,
        }
    }
}

impl BitBuffer {
    /// A buffer whose written bits are all the bits of `buffer`.
    pub fn from_bytes(buffer: Vec<u8>) -> (r: BitBuffer)
        requires
            buffer@.len() * 8 <= usize::MAX,
        ensures
            r@ == (BitView { bytes: buffer@, write_position: buffer@.len() * 8, read_position: 0 }),
            r@.wf(),
    {
        let bits = buffer.len() * 8;
        Self::from_bits(buffer, bits)
    }

    /// A buffer whose written bits are the first `bit_length` bits of `buffer`.
    pub fn from_bits(buffer: Vec<u8>, bit_length: usize) -> (r: BitBuffer)
        requires
            buffer@.len() * 8 <= usize::MAX,
            bit_length <= buffer@.len() * 8,
        ensures
            r@ == (BitView { bytes: buffer@, write_position: bit_length as nat, read_position: 0 }),
            r@.wf(),
    {
        BitBuffer { buffer, write_position: bit_length, read_position: 0 }
    }

    /// Empties the buffer.
    pub fn clear(&mut self)
        ensures
            final(self)@ == (BitView { bytes: Seq::empty(), write_position: 0, read_position: 0 }),
            final(self)@.wf(),
    {
        self.write_position = 0;
        self.read_position = 0;
        self.buffer.clear();
    }

    /// Makes every written bit unread again.
    pub fn reset_read_position(&mut self)
        requires
            old(self)@.wf(),
        ensures
            final(self)@ == (BitView { read_position: 0, ..old(self)@ }),
            final(self)@.wf(),
    {
        self.read_position = 0;
    }

    /// The bytes of the buffer.
    pub fn content(&self) -> (r: &[u8])
        ensures
            r@ == self@.bytes,
    {
        self.buffer.as_slice()
    }

    /// The number of bits written.
    pub fn bit_len(&self) -> (r: usize)
        ensures
            r == self@.write_position,
    {
        self.write_position
    }

    /// The number of bytes in the buffer.
    pub fn byte_len(&self) -> (r: usize)
        ensures
            r == self@.bytes.len(),
    {
        self.buffer.len()
    }

    /// Reads the next unread bit: the first pending one, or `EndOfStream`
    /// when every written bit has been read.
    pub fn read_bit(&mut self) -> (r: Result<bool, Error>)
        requires
            old(self)@.wf(),
        ensures
            old(self)@.read_position < old(self)@.write_position ==> {
                &&& r == Ok::<bool, Error>(bit_of(old(self)@.bytes, old(self)@.read_position as int))
                &&& final(self)@ == old(self)@.skip(1)
            },
            old(self)@.read_position >= old(self)@.write_position ==> {
                &&& r == Err::<bool, Error>(Error::EndOfStream)
                &&& final(self)@ == old(self)@
            },
            final(self)@.wf(),
    {
        if self.read_position >= self.write_position {
            return Err(Error::EndOfStream);
        }
        let byte_pos = self.read_position / BYTE_LEN;
        let bit_pos = self.read_position % BYTE_LEN;
        let bit_pos = (BYTE_LEN - bit_pos - 1) as u8;
        let mask: u8 = 0x01 << bit_pos;
        let bit = (self.buffer[byte_pos] & mask) == mask;
        proof {
            lemma_mask_test(self.buffer@[byte_pos as int], (self.read_position % 8) as int);
        }
        self.read_position += 1;
        Ok(bit)
    }

    /// Writes one bit at the write position, appending a zero byte first
    /// when the write position is at a byte boundary. A set bit is or-ed
    /// into its byte; a clear bit leaves the byte as it is.
    pub fn write_bit(&mut self, bit: bool) -> (r: Result<(), Error>)
        requires
            old(self)@.wf(),
            old(self)@.write_position < usize::MAX,
        ensures
            r == Ok::<(), Error>(()),
            final(self)@ == old(self)@.push_bit(bit),
            final(self)@.wf(),
    {
        let byte_pos = self.write_position / BYTE_LEN;
        let bit_pos = self.write_position % BYTE_LEN;
        if bit_pos == 0 {
            self.buffer.push(0x00);
        }
        if bit {
            let bit_pos = (BYTE_LEN - bit_pos - 1) as u8;
            let mask: u8 = 0x01 << bit_pos;
            self.buffer[byte_pos] = self.buffer[byte_pos] | mask;
            assert(mask == msb_mask(old(self)@.write_position as int % 8));
        }
        self.write_position += 1;
        Ok(())
    }

    /// Writes the `n` low bits of `value`, most significant first.
    fn write_uint(&mut self, value: u64, n: usize) -> (r: Result<(), Error>)
        requires
            old(self)@.wf(),
            n <= 64,
            old(self)@.write_position + n <= usize::MAX,
        ensures
            r == Ok::<(), Error>(()),
            final(self)@ == old(self)@.push_bits(int_to_bits(value as nat, n as nat)),
            final(self)@.wf(),
    {
        let ghost start = self@;
        let ghost bits = int_to_bits(value as nat, n as nat);
        let mut k: usize = 0;
        while k < n
            invariant
                k <= n <= 64,
                start.wf(),
                start.write_position + n <= usize::MAX,
                bits == int_to_bits(value as nat, n as nat),
                self@ == start.push_bits(bits.take(k as int)),
                self@.wf(),
                self@.write_position == start.write_position + k,
            decreases n - k,
        {
            let shift = (n - 1 - k) as u64;
            let bit = (value >> shift) & 1 == 1;
            proof {
                lemma_shr_bit(value, shift);
                lemma_push_bits_take(start, bits, k as int);
            }
            self.write_bit(bit)?;
            k += 1;
        }
        proof {
            assert(bits.take(n as int) =~= bits);
        }
        Ok(())
    }

    /// Reads `n` bits as a binary number, most significant first; when fewer
    /// than `n` bits are pending, reads them all and reports `EndOfStream`.
    fn read_uint(&mut self, n: usize) -> (r: Result<u64, Error>)
        requires
            old(self)@.wf(),
            n <= 64,
        ensures
            old(self)@.pending().len() >= n ==> {
                &&& r == Ok::<u64, Error>(bits_to_int(old(self)@.pending().take(n as int)) as u64)
                &&& final(self)@ == old(self)@.skip(n as nat)
            },
            old(self)@.pending().len() < n ==> {
                &&& r == Err::<u64, Error>(Error::EndOfStream)
                &&& final(self)@ == old(self)@.skip(old(self)@.pending().len())
            },
            old(self)@.pending().len() >= n ==> bits_to_int(old(self)@.pending().take(n as int))
                < pow2(n as nat),
            final(self)@.wf(),
    {
        let ghost start = self@;
        let ghost p = self@.pending();
        let mut v: u64 = 0;
        let mut k: usize = 0;
        proof {
            assert(p.take(0) =~= Seq::<bool>::empty());
            lemma2_to64();
            if p.len() >= n {
                lemma_bits_to_int_bound(p.take(n as int));
            }
        }
        while k < n
            invariant
                k <= n <= 64,
                start == old(self)@,
                start.wf(),
                p == start.pending(),
                k <= p.len(),
                self@ == start.skip(k as nat),
                v == bits_to_int(p.take(k as int)),
                v < pow2(k as nat),
            decreases n - k,
        {
            let bit = match self.read_bit() {
                Ok(b) => b,
                Err(e) => {
                    return Err(e);
                },
            };
            proof {
                lemma_bits_to_int_take(p, k as int);
                lemma_pow2_unfold((k + 1) as nat);
                if k + 1 < 64 {
                    lemma_pow2_strictly_increases((k + 1) as nat, 64);
                }
                lemma2_to64();
                assert(bit == p[k as int]);
            }
            v = v * 2 + if bit { 1 } else { 0 };
            k += 1;
        }
        Ok(v)
    }

    /// Writes bits `bit_offset .. bit_offset + bit_length` of `buffer`, or
    /// reports `InsufficientDataInSourceBuffer`, writing nothing, when
    /// `buffer` does not have that many bits.
    pub fn write_bit_string(&mut self, buffer: &[u8], bit_offset: usize, bit_length: usize) -> (r:
        Result<(), Error>)
        requires
            old(self)@.wf(),
            buffer@.len() * 8 <= usize::MAX,
            bit_offset <= buffer@.len() * 8 ==> bit_offset + bit_length <= usize::MAX,
            bit_offset + bit_length <= buffer@.len() * 8 ==> old(self)@.write_position + bit_length
                <= usize::MAX,
        ensures
            buffer@.len() * 8 < bit_offset + bit_length ==> {
                &&& r == Err::<(), Error>(Error::InsufficientDataInSourceBuffer)
                &&& final(self)@ == old(self)@
            },
            bit_offset + bit_length <= buffer@.len() * 8 ==> {
                &&& r == Ok::<(), Error>(())
                &&& final(self)@ == old(self)@.push_bits(
                    bits_from(buffer@, bit_offset as int, bit_length as nat),
                )
            },
            final(self)@.wf(),
    {
        if buffer.len() * BYTE_LEN < bit_offset || buffer.len() * BYTE_LEN < bit_offset
            + bit_length {
            return Err(Error::InsufficientDataInSourceBuffer);
        }
        let ghost start = self@;
        let ghost bits = bits_from(buffer@, bit_offset as int, bit_length as nat);
        let end = bit_offset + bit_length;
        let mut bit = bit_offset;
        while bit < end
            invariant
                bit_offset <= bit <= end == bit_offset + bit_length <= buffer@.len() * 8,
                start.wf(),
                start.write_position + bit_length <= usize::MAX,
                bits == bits_from(buffer@, bit_offset as int, bit_length as nat),
                self@ == start.push_bits(bits.take(bit - bit_offset)),
                self@.wf(),
                self@.write_position == start.write_position + (bit - bit_offset),
            decreases end - bit,
        {
            let byte_pos = bit / BYTE_LEN;
            let bit_pos = bit % BYTE_LEN;
            let bit_pos = (BYTE_LEN - bit_pos - 1) as u8;
            let value = (buffer[byte_pos] >> bit_pos & 0x01) == 0x01;
            proof {
                lemma_mask_test(buffer@[byte_pos as int], (bit % 8) as int);
                lemma_push_bits_take(start, bits, bit - bit_offset);
            }
            self.write_bit(value)?;
            bit += 1;
        }
        proof {
            assert(bits.take(bit_length as int) =~= bits);
        }
        Ok(())
    }

    /// Writes the bits of `buffer` from `bit_offset` to its end.
    pub fn write_bit_string_till_end(&mut self, buffer: &[u8], bit_offset: usize) -> (r: Result<
        (),
        Error,
    >)
        requires
            old(self)@.wf(),
            buffer@.len() * 8 <= usize::MAX,
            bit_offset <= buffer@.len() * 8,
            old(self)@.write_position + (buffer@.len() * 8 - bit_offset) <= usize::MAX,
        ensures
            r == Ok::<(), Error>(()),
            final(self)@ == old(self)@.push_bits(
                bits_from(buffer@, bit_offset as int, (buffer@.len() * 8 - bit_offset) as nat),
            ),
            final(self)@.wf(),
    {
        let len = buffer.len() * BYTE_LEN;
        self.write_bit_string(buffer, bit_offset, len - bit_offset)
    }

    /// Reads `bit_length` bits into `buffer`, from bit `bit_offset` on,
    /// leaving its other bits as they were. Reports
    /// `InsufficientSpaceInDestinationBuffer`, reading nothing, when `buffer`
    /// is too short; reports `EndOfStream` when fewer bits are pending, after
    /// reading those that are.
    pub fn read_bit_string(&mut self, buffer: &mut [u8], bit_offset: usize, bit_length: usize) -> (r:
        Result<(), Error>)
        requires
            old(self)@.wf(),
            old(buffer)@.len() * 8 <= usize::MAX,
            bit_offset <= old(buffer)@.len() * 8 ==> bit_offset + bit_length <= usize::MAX,
        ensures
            old(buffer)@.len() * 8 < bit_offset + bit_length ==> {
                &&& r == Err::<(), Error>(Error::InsufficientSpaceInDestinationBuffer)
                &&& final(self)@ == old(self)@
                &&& final(buffer)@ == old(buffer)@
            },
            bit_offset + bit_length <= old(buffer)@.len() * 8 ==> {
                let pending = old(self)@.pending();
                let n = if bit_length <= pending.len() {
                    bit_length as nat
                } else {
                    pending.len()
                };
                &&& r == (if bit_length <= pending.len() {
                    Ok::<(), Error>(())
                } else {
                    Err::<(), Error>(Error::EndOfStream)
                })
                &&& final(self)@ == old(self)@.skip(n)
                &&& final(buffer)@ == set_bits(old(buffer)@, bit_offset as int, pending.take(n as int))
                &&& final(buffer)@.len() == old(buffer)@.len()
                &&& forall|j: int|
                    0 <= j < old(buffer)@.len() * 8 ==> #[trigger] bit_of(final(buffer)@, j) == (
                    if bit_offset <= j < bit_offset + n {
                        pending[j - bit_offset]
                    } else {
                        bit_of(old(buffer)@, j)
                    })
            },
            final(self)@.wf(),
    {
        if buffer.len() * BYTE_LEN < bit_offset || buffer.len() * BYTE_LEN < bit_offset
            + bit_length {
            return Err(Error::InsufficientSpaceInDestinationBuffer);
        }
        let ghost start = self@;
        let ghost p = self@.pending();
        let ghost original = buffer@;
        let end = bit_offset + bit_length;
        let mut bit = bit_offset;
        proof {
            assert(p.take(0) =~= Seq::<bool>::empty());
        }
        while bit < end
            invariant
                bit_offset <= bit <= end == bit_offset + bit_length <= original.len() * 8,
                start == old(self)@,
                original == old(buffer)@,
                start.wf(),
                p == start.pending(),
                bit - bit_offset <= p.len(),
                self@ == start.skip((bit - bit_offset) as nat),
                buffer@ == set_bits(original, bit_offset as int, p.take(bit - bit_offset)),
                buffer@.len() == original.len(),
            decreases end - bit,
        {
            let byte_pos = bit / BYTE_LEN;
            let bit_pos = bit % BYTE_LEN;
            let bit_pos = (BYTE_LEN - bit_pos - 1) as u8;
            let k = bit - bit_offset;
            let value = match self.read_bit() {
                Ok(b) => b,
                Err(e) => {
                    proof {
                        lemma_set_bits(original, bit_offset as int, p.take(k as int));
                    }
                    return Err(e);
                },
            };
            proof {
                assert(value == p[k as int]);
                assert(p.take(k + 1).drop_last() =~= p.take(k as int));
            }
            if value {
                buffer[byte_pos] = buffer[byte_pos] | (0x01 << bit_pos);
            } else {
                buffer[byte_pos] = buffer[byte_pos] & !(0x01 << bit_pos);
            }
            bit += 1;
        }
        proof {
            lemma_set_bits(original, bit_offset as int, p.take(bit_length as int));
        }
        Ok(())
    }

    /// Reads into `buffer` from bit `bit_offset` to its end.
    pub fn read_bit_string_till_end(&mut self, buffer: &mut [u8], bit_offset: usize) -> (r: Result<
        (),
        Error,
    >)
        requires
            old(self)@.wf(),
            old(buffer)@.len() * 8 <= usize::MAX,
            bit_offset <= old(buffer)@.len() * 8,
        ensures
            ({
                let pending = old(self)@.pending();
                let bit_length = (old(buffer)@.len() * 8 - bit_offset) as nat;
                let n = if bit_length <= pending.len() {
                    bit_length
                } else {
                    pending.len()
                };
                &&& r == (if bit_length <= pending.len() {
                    Ok::<(), Error>(())
                } else {
                    Err::<(), Error>(Error::EndOfStream)
                })
                &&& final(self)@ == old(self)@.skip(n)
                &&& final(buffer)@ == set_bits(old(buffer)@, bit_offset as int, pending.take(n as int))
                &&& final(buffer)@.len() == old(buffer)@.len()
                &&& forall|j: int|
                    0 <= j < old(buffer)@.len() * 8 ==> #[trigger] bit_of(final(buffer)@, j) == (
                    if bit_offset <= j < bit_offset + n {
                        pending[j - bit_offset]
                    } else {
                        bit_of(old(buffer)@, j)
                    })
            }),
            final(self)@.wf(),
    {
        let len = buffer.len() * BYTE_LEN;
        self.read_bit_string(buffer, bit_offset, len - bit_offset)
    }

    /// Writes `value` constrained to `range`, a pair `(lower, upper)`: its
    /// offset from `lower` on as many bits as `upper - lower` needs. Reports
    /// `ValueNotInRange`, writing nothing, when `value` lies outside the range.
    pub fn write_int(&mut self, value: i64, range: (i64, i64)) -> (r: Result<(), Error>)
        requires
            old(self)@.wf(),
            range.0 <= value <= range.1 ==> {
                &&& range.1 - range.0 <= i64::MAX
                &&& old(self)@.write_position + range_bits(range.0 as int, range.1 as int)
                    <= usize::MAX
            },
        ensures
            !(range.0 <= value <= range.1) ==> {
                &&& r == Err::<(), Error>(Error::ValueNotInRange(value, range.0, range.1))
                &&& final(self)@ == old(self)@
            },
            range.0 <= value <= range.1 ==> {
                &&& r == Ok::<(), Error>(())
                &&& final(self)@ == old(self)@.push_bits(
                    encode_int(value as int, range.0 as int, range.1 as int),
                )
            },
            final(self)@.wf(),
    {
        let (lower, upper) = range;
        if value > upper || value < lower {
            return Err(Error::ValueNotInRange(value, lower, upper));
        }
        let offset = (value - lower) as u64;
        let leading_zeros = ((upper - lower) as u64).leading_zeros();
        proof {
            lemma_range_bits_leading_zeros(lower, upper);
        }
        self.write_uint(offset, (64 - leading_zeros) as usize)
    }

    /// Reads an integer constrained to `range`, a pair `(lower, upper)`: as
    /// many bits as `upper - lower` needs, read as a word, plus `lower`.
    pub fn read_int(&mut self, range: (i64, i64)) -> (r: Result<i64, Error>)
        requires
            old(self)@.wf(),
            i64::MIN <= range.1 - range.0 <= i64::MAX,
            decode_int(old(self)@.pending(), range.0 as int, range.1 as int) matches Decoded::Value(
                v,
                _,
            ) ==> i64::MIN <= v <= i64::MAX,
        ensures
            match decode_int(old(self)@.pending(), range.0 as int, range.1 as int) {
                Decoded::Value(v, k) => {
                    &&& r == Ok::<i64, Error>(v as i64)
                    &&& final(self)@ == old(self)@.skip(k)
                },
                _ => {
                    &&& r == Err::<i64, Error>(Error::EndOfStream)
                    &&& final(self)@ == old(self)@.skip(old(self)@.pending().len())
                },
            },
            final(self)@.wf(),
    {
        let (lower, upper) = range;
        let leading_zeros = ((upper - lower) as u64).leading_zeros();
        proof {
            lemma_range_bits_leading_zeros(lower, upper);
            lemma2_to64();
            let n = range_bits(lower as int, upper as int);
            if n < 64 {
                lemma_pow2_strictly_increases(n, 64);
            }
        }
        let raw = self.read_uint((64 - leading_zeros) as usize)?;
        proof {
            lemma_as_signed(raw);
        }
        Ok(raw as i64 + lower)
    }

    /// Writes a length determinant: a `0` bit and the length on 7 bits up to
    /// 127, `10` and the length on 14 bits up to 16383. Longer lengths are
    /// reported as `UnsupportedOperation`, and nothing is written.
    pub fn write_length_determinant(&mut self, length: usize) -> (r: Result<(), Error>)
        requires
            old(self)@.wf(),
            length <= UPER_LENGTH_DET_L2 ==> old(self)@.write_position
                + encode_length_determinant(length as int).len() <= usize::MAX,
        ensures
            length <= UPER_LENGTH_DET_L2 ==> {
                &&& r == Ok::<(), Error>(())
                &&& final(self)@ == old(self)@.push_bits(encode_length_determinant(length as int))
            },
            length > UPER_LENGTH_DET_L2 ==> {
                &&& r matches Err(Error::UnsupportedOperation(m)) && m@ == long_length_message()
                &&& final(self)@ == old(self)@
            },
            final(self)@.wf(),
    {
        let ghost start = self@;
        proof {
            lemma_length_determinant_widths();
        }
        if length <= UPER_LENGTH_DET_L1 as usize {
            proof {
                lemma_push_bits_one(start, false);
                lemma_push_bits_append(
                    start,
                    seq![false],
                    encode_int(length as int, 0, UPER_LENGTH_DET_L1 as int),
                );
            }
            self.write_bit(false)?;
            self.write_int(length as i64, (0, UPER_LENGTH_DET_L1))
        } else if length <= UPER_LENGTH_DET_L2 as usize {
            proof {
                lemma_push_bits_one(start, true);
                lemma_push_bits_one(start.push_bit(true), false);
                lemma_push_bits_append(start, seq![true], seq![false]);
                assert(seq![true] + seq![false] =~= seq![true, false]);
                lemma_push_bits_append(
                    start,
                    seq![true, false],
                    encode_int(length as int, 0, UPER_LENGTH_DET_L2 as int),
                );
            }
            self.write_bit(true)?;
            self.write_bit(false)?;
            self.write_int(length as i64, (0, UPER_LENGTH_DET_L2))
        } else {
            let message = "Writing length determinant for lengths > 16383 is unsupported".to_owned();
            Err(Error::UnsupportedOperation(message))
        }
    }

    /// Reads a length determinant: after a `0` bit, a length on 7 bits;
    /// after `10`, a length on 14 bits; `11` is reported as
    /// `UnsupportedOperation`.
    pub fn read_length_determinant(&mut self) -> (r: Result<usize, Error>)
        requires
            old(self)@.wf(),
        ensures
            match decode_length_determinant(old(self)@.pending()) {
                Decoded::Value(v, _) => r == Ok::<usize, Error>(v as usize),
                Decoded::Short => r == Err::<usize, Error>(Error::EndOfStream),
                Decoded::Unsupported(_) => r matches Err(Error::UnsupportedOperation(m)) && m@
                    == long_determinant_message(),
            },
            decode_length_determinant(old(self)@.pending()) matches Decoded::Value(v, _) ==> 0 <= v
                <= UPER_LENGTH_DET_L2,
            final(self)@ == old(self)@.skip(
                consumed(decode_length_determinant(old(self)@.pending()), old(self)@.pending().len()),
            ),
            final(self)@.wf(),
    {
        let ghost start = self@;
        let ghost p = self@.pending();
        proof {
            lemma_length_determinant_widths();
            if p.len() >= 1 {
                lemma_skip_pending(start, 1);
                lemma_decode_length(p.skip(1), UPER_LENGTH_DET_L1 as int);
            }
            if p.len() >= 2 {
                lemma_skip_pending(start, 2);
                lemma_decode_length(p.skip(2), UPER_LENGTH_DET_L2 as int);
                assert(start.skip(1).pending()[0] == p[1]);
            }
        }
        if !self.read_bit()? {
            Ok(self.read_int((0, UPER_LENGTH_DET_L1))? as usize)
        } else if !self.read_bit()? {
            Ok(self.read_int((0, UPER_LENGTH_DET_L2))? as usize)
        } else {
            let message = "Cannot read length determinant for other than i8 and i16".to_owned();
            Err(Error::UnsupportedOperation(message))
        }
    }

    /// Writes a non-negative integer with no declared range: a length
    /// determinant with the least number of bytes, at least one, that holds
    /// it, then the integer on those bytes. Values above `i64::MAX` are
    /// reported as `ValueNotInRange`, and nothing is written.
    pub fn write_int_max(&mut self, value: u64) -> (r: Result<(), Error>)
        requires
            old(self)@.wf(),
            value <= i64::MAX ==> old(self)@.write_position + encode_int_max(value as nat).len()
                <= usize::MAX,
        ensures
            value > i64::MAX ==> {
                &&& r == Err::<(), Error>(Error::ValueNotInRange(value as i64, 0, i64::MAX))
                &&& final(self)@ == old(self)@
            },
            value <= i64::MAX ==> {
                &&& r == Ok::<(), Error>(())
                &&& final(self)@ == old(self)@.push_bits(encode_int_max(value as nat))
            },
            final(self)@.wf(),
    {
        if value > i64::MAX as u64 {
            return Err(Error::ValueNotInRange(value as i64, 0, i64::MAX));
        }
        let ghost start = self@;
        let mut byte_len: usize = 1;
        while byte_len < 8 && (value >> ((byte_len * 8) as u64)) != 0
            invariant
                1 <= byte_len <= 8,
                byte_len_from(value as nat, byte_len as nat) == int_max_byte_len(value as nat),
            decreases 8 - byte_len,
        {
            proof {
                let shift = (byte_len * 8) as u64;
                lemma_u64_shr_is_div(value, shift);
                lemma_pow2_pos(shift as nat);
                if (value as nat) < pow2(shift as nat) {
                    lemma_basic_div(value as int, pow2(shift as nat) as int);
                }
            }
            byte_len += 1;
        }
        proof {
            if byte_len < 8 {
                let shift = (byte_len * 8) as u64;
                lemma_u64_shr_is_div(value, shift);
                lemma_pow2_pos(shift as nat);
                if (value as nat) >= pow2(shift as nat) {
                    lemma_div_non_zero(value as int, pow2(shift as nat) as int);
                }
            }
            lemma_push_bits_append(
                start,
                encode_length_determinant(byte_len as int),
                int_to_bits(value as nat, 8 * byte_len as nat),
            );
            lemma_length_determinant_widths();
            lemma_push_bits_positions(start, encode_length_determinant(byte_len as int));
        }
        self.write_length_determinant(byte_len)?;
        self.write_uint(value, byte_len * 8)
    }

    /// Reads a non-negative integer with no declared range: a length
    /// determinant, then that many bytes as an unsigned binary number. More
    /// than eight bytes are reported as `UnsupportedOperation`.
    pub fn read_int_max(&mut self) -> (r: Result<u64, Error>)
        requires
            old(self)@.wf(),
        ensures
            match decode_int_max(old(self)@.pending()) {
                Decoded::Value(v, _) => r == Ok::<u64, Error>(v as u64),
                Decoded::Short => r == Err::<u64, Error>(Error::EndOfStream),
                Decoded::Unsupported(_) => r matches Err(Error::UnsupportedOperation(m)) && m@ == (
                if decode_length_determinant(old(self)@.pending()) is Unsupported {
                    long_determinant_message()
                } else {
                    wide_int_message()
                }),
            },
            decode_int_max(old(self)@.pending()) matches Decoded::Value(v, _) ==> 0 <= v <= u64::MAX,
            final(self)@ == old(self)@.skip(
                consumed(decode_int_max(old(self)@.pending()), old(self)@.pending().len()),
            ),
            final(self)@.wf(),
    {
        let ghost start = self@;
        let ghost p = self@.pending();
        let len_in_bytes = self.read_length_determinant()?;
        if len_in_bytes > 8 {
            let message = "Reading bigger data types than 64bit is not supported".to_owned();
            return Err(Error::UnsupportedOperation(message));
        }
        proof {
            let k = consumed(decode_length_determinant(p), p.len());
            lemma_skip_pending(start, k);
            lemma2_to64();
            let n = 8 * len_in_bytes as nat;
            if n < 64 {
                lemma_pow2_strictly_increases(n, 64);
            }
        }
        self.read_uint(len_in_bytes * 8)
    }

    /// Writes an octet string: its length, constrained to `length_range`
    /// when there is one and as a length determinant otherwise, then its
    /// bytes. A length outside the range is reported as `ValueNotInRange`, a
    /// length too long for a determinant as `UnsupportedOperation`; either
    /// way nothing is written.
    pub fn write_octet_string(&mut self, string: &[u8], length_range: Option<(i64, i64)>) -> (r:
        Result<(), Error>)
        requires
            old(self)@.wf(),
            string@.len() <= i64::MAX,
            string@.len() * 8 <= usize::MAX,
            length_range matches Some(range) ==> (range.0 <= string@.len() <= range.1 ==> range.1
                - range.0 <= i64::MAX),
            octet_string_len_ok(string@.len() as int, length_range) ==> old(self)@.write_position
                + encode_octet_string(string@, length_range).len() <= usize::MAX,
        ensures
            octet_string_len_ok(string@.len() as int, length_range) ==> {
                &&& r == Ok::<(), Error>(())
                &&& final(self)@ == old(self)@.push_bits(encode_octet_string(string@, length_range))
            },
            !octet_string_len_ok(string@.len() as int, length_range) ==> {
                &&& final(self)@ == old(self)@
                &&& match length_range {
                    Some(range) => r == Err::<(), Error>(
                        Error::ValueNotInRange(string@.len() as i64, range.0, range.1),
                    ),
                    None => r matches Err(Error::UnsupportedOperation(m)) && m@
                        == long_length_message(),
                }
            },
            final(self)@.wf(),
    {
        let ghost start = self@;
        let ghost prefix = match length_range {
            Some(range) => encode_int(string@.len() as int, range.0 as int, range.1 as int),
            None => encode_length_determinant(string@.len() as int),
        };
        proof {
            lemma_push_bits_append(start, prefix, bits_of_bytes(string@));
            lemma_push_bits_positions(start, prefix);
            lemma_length_determinant_widths();
        }
        if let Some((min, max)) = length_range {
            self.write_int(string.len() as i64, (min, max))?;
        } else {
            self.write_length_determinant(string.len())?;
        }
        proof {
            assert(bits_from(string@, 0, (string@.len() * 8 - 0) as nat) =~= bits_of_bytes(string@));
        }
        self.write_bit_string_till_end(string, 0)?;
        Ok(())
    }
}

/// A word cast to a signed integer is that word taken as two's complement.
proof fn lemma_as_signed(raw: u64)
    ensures
        raw as i64 as int == as_signed(raw as nat),
{
    if raw >= 0x8000_0000_0000_0000u64 {
        assert(raw as i64 as int == raw as int - 0x1_0000_0000_0000_0000) by (bit_vector)
            requires
                raw >= 0x8000_0000_0000_0000u64,
        ;
    }
}

impl Default for BitBuffer {
    /// The empty buffer.
    fn default() -> (r: BitBuffer)
        ensures
            r@ == (BitView { bytes: Seq::empty(), write_position: 0, read_position: 0 }),
            r@.wf(),
    {
        BitBuffer { buffer: Vec::new(), write_position: 0, read_position: 0 }
    }
}

/// The bit length given to a vector of `len` bytes: all of its bits, or, for
/// a vector too long for that count to fit in a `usize`, the largest whole
/// number of bytes that does.
pub open spec fn full_bit_length(len: nat) -> nat {
    if len * 8 <= usize::MAX {
        len * 8
    } else {
        (usize::MAX / 8 * 8) as nat
    }
}

impl From<Vec<u8>> for BitBuffer {
    /// A buffer whose written bits are all the bits of `buffer`.
    fn from(buffer: Vec<u8>) -> (r: BitBuffer)
        ensures
            r@ == (BitView {
                bytes: buffer@,
                write_position: full_bit_length(buffer@.len()),
                read_position: 0,
            }),
            buffer@.len() * 8 <= usize::MAX ==> r@.write_position == buffer@.len() * 8,
            buffer@.len() * 8 <= usize::MAX ==> r@.pending().len() == buffer@.len() * 8,
            r@.wf(),
    {
        let bits = if buffer.len() <= usize::MAX / 8 {
            buffer.len() * 8
        } else {
            usize::MAX / 8 * 8
        };
        BitBuffer { buffer, write_position: bits, read_position: 0 }
    }
}

impl vstd::std_specs::convert::FromSpecImpl<Vec<u8>> for BitBuffer {
    open spec fn obeys_from_spec() -> bool {
        true
    }

    closed spec fn from_spec(v: Vec<u8>) -> BitBuffer {
        BitBuffer {
            buffer: v,
            write_position: full_bit_length(v@.len()) as usize,
            read_position: 0,
        }
    }
}

impl Into<Vec<u8>> for BitBuffer {
    /// The bytes of the buffer.
    fn into(self) -> (r: Vec<u8>)
        ensures
            <Vec<u8> as View>::view(&r) == self@.bytes,
    {
        self.buffer
    }
}

impl vstd::std_specs::convert::IntoSpecImpl<Vec<u8>> for BitBuffer {
    open spec fn obeys_into_spec() -> bool {
        true
    }

    closed spec fn into_spec(self) -> Vec<u8> {
        self.buffer
    }
}

} // verus!
