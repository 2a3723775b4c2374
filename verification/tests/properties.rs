use asn1rs::io::buffer::BitBuffer;
use asn1rs::io::uper::Error;

fn unsupported(message: &str) -> Error {
    Error::UnsupportedOperation(message.to_string())
}

#[test]
fn clear_empties_the_buffer() {
    let mut buffer = BitBuffer::default();
    buffer.write_bit(true).unwrap();
    buffer.write_bit(true).unwrap();
    buffer.clear();
    assert_eq!(buffer.content(), &[] as &[u8]);
    assert_eq!(buffer.bit_len(), 0);
    assert_eq!(buffer.byte_len(), 0);
    assert_eq!(buffer.read_bit(), Err(Error::EndOfStream));
    buffer.write_bit(false).unwrap();
    buffer.write_bit(true).unwrap();
    assert_eq!(buffer.content(), &[0b0100_0000]);
}

#[test]
fn reset_read_position_rereads_written_bits() {
    let mut buffer = BitBuffer::default();
    buffer.write_bit(true).unwrap();
    buffer.write_bit(false).unwrap();
    buffer.write_bit(true).unwrap();
    assert_eq!(buffer.read_bit(), Ok(true));
    assert_eq!(buffer.read_bit(), Ok(false));
    assert_eq!(buffer.read_bit(), Ok(true));
    assert_eq!(buffer.read_bit(), Err(Error::EndOfStream));
    buffer.reset_read_position();
    assert_eq!(buffer.read_bit(), Ok(true));
    assert_eq!(buffer.read_bit(), Ok(false));
    assert_eq!(buffer.read_bit(), Ok(true));
    assert_eq!(buffer.read_bit(), Err(Error::EndOfStream));
}

#[test]
fn from_bytes_reads_every_bit_most_significant_first() {
    let mut buffer = BitBuffer::from_bytes(vec![0xA5]);
    assert_eq!(buffer.bit_len(), 8);
    assert_eq!(buffer.byte_len(), 1);
    let expected = [true, false, true, false, false, true, false, true];
    for bit in expected.iter() {
        assert_eq!(buffer.read_bit(), Ok(*bit));
    }
    assert_eq!(buffer.read_bit(), Err(Error::EndOfStream));
}

#[test]
fn from_bits_stops_at_the_bit_length() {
    let mut buffer = BitBuffer::from_bits(vec![0xFF, 0xFF], 3);
    assert_eq!(buffer.bit_len(), 3);
    assert_eq!(buffer.byte_len(), 2);
    assert_eq!(buffer.read_bit(), Ok(true));
    assert_eq!(buffer.read_bit(), Ok(true));
    assert_eq!(buffer.read_bit(), Ok(true));
    assert_eq!(buffer.read_bit(), Err(Error::EndOfStream));
}

#[test]
fn from_and_into_vec() {
    let buffer = BitBuffer::from(vec![1, 2]);
    assert_eq!(buffer.bit_len(), 16);
    assert_eq!(buffer.content(), &[1, 2]);
    let bytes: Vec<u8> = buffer.into();
    assert_eq!(bytes, vec![1, 2]);
}

#[test]
fn write_bit_at_a_byte_boundary_appends_a_byte_and_ors_the_bit() {
    // The byte after the bit length is appended at the end; a clear bit
    // leaves the bits already in the buffer as they are.
    let mut buffer = BitBuffer::from_bits(vec![0xFF], 0);
    buffer.write_bit(false).unwrap();
    assert_eq!(buffer.content(), &[0xFF, 0x00]);
    assert_eq!(buffer.bit_len(), 1);
    assert_eq!(buffer.read_bit(), Ok(true));

    let mut buffer = BitBuffer::from_bits(vec![0x00], 0);
    buffer.write_bit(true).unwrap();
    assert_eq!(buffer.content(), &[0x80, 0x00]);
}

#[test]
fn write_bit_string_without_enough_source_bits() {
    let mut buffer = BitBuffer::default();
    assert_eq!(
        buffer.write_bit_string(&[0xFF], 4, 5),
        Err(Error::InsufficientDataInSourceBuffer)
    );
    assert_eq!(
        buffer.write_bit_string(&[0xFF], 9, 0),
        Err(Error::InsufficientDataInSourceBuffer)
    );
    assert_eq!(buffer.bit_len(), 0);
    assert_eq!(buffer.content(), &[] as &[u8]);
    buffer.write_bit_string(&[0b0101_0000], 1, 3).unwrap();
    assert_eq!(buffer.content(), &[0b1010_0000]);
    assert_eq!(buffer.bit_len(), 3);
}

#[test]
fn read_bit_string_without_enough_destination_bits() {
    let mut buffer = BitBuffer::from_bytes(vec![0xFF]);
    let mut destination = [0x00_u8];
    assert_eq!(
        buffer.read_bit_string(&mut destination[..], 4, 5),
        Err(Error::InsufficientSpaceInDestinationBuffer)
    );
    assert_eq!(destination, [0x00]);
    // nothing was read
    for _ in 0..8 {
        assert_eq!(buffer.read_bit(), Ok(true));
    }
}

#[test]
fn read_bit_string_past_the_end_reads_what_there_is() {
    let mut buffer = BitBuffer::from_bits(vec![0xFF], 3);
    let mut destination = [0x00_u8];
    assert_eq!(
        buffer.read_bit_string(&mut destination[..], 0, 5),
        Err(Error::EndOfStream)
    );
    assert_eq!(destination, [0b1110_0000]);
    assert_eq!(buffer.read_bit(), Err(Error::EndOfStream));
}

#[test]
fn read_bit_string_clears_and_keeps_bits() {
    let mut buffer = BitBuffer::from_bits(vec![0x00], 2);
    let mut destination = [0xFF_u8];
    buffer.read_bit_string(&mut destination[..], 2, 2).unwrap();
    assert_eq!(destination, [0b1100_1111]);
}

#[test]
fn length_determinant_too_long_to_write() {
    let mut buffer = BitBuffer::default();
    assert_eq!(
        buffer.write_length_determinant(16384),
        Err(unsupported(
            "Writing length determinant for lengths > 16383 is unsupported"
        ))
    );
    assert_eq!(buffer.bit_len(), 0);
}

#[test]
fn length_determinant_with_unsupported_header() {
    let mut buffer = BitBuffer::from_bytes(vec![0xC0]);
    assert_eq!(
        buffer.read_length_determinant(),
        Err(unsupported(
            "Cannot read length determinant for other than i8 and i16"
        ))
    );
    // the two header bits were read, the rest are pending
    for _ in 0..6 {
        assert_eq!(buffer.read_bit(), Ok(false));
    }
    assert_eq!(buffer.read_bit(), Err(Error::EndOfStream));
}

#[test]
fn length_determinant_cut_short() {
    let mut buffer = BitBuffer::from_bits(vec![0x00], 5);
    assert_eq!(buffer.read_length_determinant(), Err(Error::EndOfStream));
    assert_eq!(buffer.read_bit(), Err(Error::EndOfStream));
    let mut buffer = BitBuffer::from_bits(vec![0x80], 1);
    assert_eq!(buffer.read_length_determinant(), Err(Error::EndOfStream));
}

#[test]
fn length_determinant_roundtrip_over_all_lengths() {
    for length in 0..=16383_usize {
        let mut buffer = BitBuffer::default();
        buffer.write_length_determinant(length).unwrap();
        let expected_bits = if length <= 127 { 8 } else { 16 };
        assert_eq!(buffer.bit_len(), expected_bits);
        buffer.write_bit(true).unwrap();
        assert_eq!(buffer.read_length_determinant(), Ok(length));
        assert_eq!(buffer.read_bit(), Ok(true));
    }
}

#[test]
fn int_max_wider_than_eight_bytes() {
    let mut buffer = BitBuffer::default();
    buffer.write_length_determinant(9).unwrap();
    assert_eq!(buffer.content(), &[0x09]);
    assert_eq!(
        buffer.read_int_max(),
        Err(unsupported(
            "Reading bigger data types than 64bit is not supported"
        ))
    );
}

#[test]
fn int_max_above_i64_max() {
    let mut buffer = BitBuffer::default();
    assert_eq!(
        buffer.write_int_max(u64::MAX),
        Err(Error::ValueNotInRange(-1, 0, i64::MAX))
    );
    assert_eq!(
        buffer.write_int_max(i64::MAX as u64 + 1),
        Err(Error::ValueNotInRange(i64::MIN, 0, i64::MAX))
    );
    assert_eq!(buffer.bit_len(), 0);
}

#[test]
fn int_max_exact_bytes() {
    let mut buffer = BitBuffer::default();
    buffer.write_int_max(0x1234).unwrap();
    assert_eq!(buffer.content(), &[0x02, 0x12, 0x34]);
    buffer.write_int_max(0x01_00_00_00_00_00_00).unwrap();
    assert_eq!(
        buffer.content(),
        &[0x02, 0x12, 0x34, 0x07, 0x01, 0x00, 0x00, 0x00, 0x00, 0x00, 0x00]
    );
    assert_eq!(buffer.read_int_max(), Ok(0x1234));
    assert_eq!(buffer.read_int_max(), Ok(0x01_00_00_00_00_00_00));
    assert_eq!(buffer.read_int_max(), Err(Error::EndOfStream));
}

#[test]
fn int_max_roundtrip_around_byte_boundaries() {
    let mut values = vec![0_u64, 1, i64::MAX as u64];
    for shift in 1..63 {
        let power = 1_u64 << shift;
        values.push(power - 1);
        values.push(power);
        values.push(power + 1);
    }
    for value in values {
        let mut buffer = BitBuffer::default();
        buffer.write_int_max(value).unwrap();
        buffer.write_bit(true).unwrap();
        let mut reload = BitBuffer::from_bits(buffer.content().into(), buffer.bit_len());
        assert_eq!(reload.read_int_max(), Ok(value));
        assert_eq!(reload.read_bit(), Ok(true));
        assert_eq!(buffer.read_int_max(), Ok(value));
    }
}

#[test]
fn int_exact_bits() {
    let mut buffer = BitBuffer::default();
    // [3; 10] holds 8 values: 3 bits; 5 is 2 above the lower bound
    buffer.write_int(5, (3, 10)).unwrap();
    assert_eq!(buffer.bit_len(), 3);
    assert_eq!(buffer.content(), &[0b0100_0000]);
    // a range of one value takes no bits
    buffer.write_int(7, (7, 7)).unwrap();
    assert_eq!(buffer.bit_len(), 3);
    assert_eq!(buffer.read_int((3, 10)), Ok(5));
    assert_eq!(buffer.read_int((7, 7)), Ok(7));
}

#[test]
fn int_roundtrip_over_ranges() {
    let ranges = [
        (0_i64, 1_i64),
        (-1, 0),
        (-5, 5),
        (100, 355),
        (i64::MIN, -1),
        (0, i64::MAX),
        (-1000, 1_000_000),
    ];
    for (lower, upper) in ranges.iter() {
        let (lower, upper) = (*lower, *upper);
        let span = upper - lower;
        let candidates = [lower, lower + span / 3, lower + span / 2, upper - 1, upper];
        for value in candidates.iter() {
            let mut buffer = BitBuffer::default();
            buffer.write_int(*value, (lower, upper)).unwrap();
            buffer.write_bit(false).unwrap();
            assert_eq!(buffer.read_int((lower, upper)), Ok(*value));
            assert_eq!(buffer.read_bit(), Ok(false));
        }
    }
}

#[test]
fn int_with_reversed_range_reads_a_whole_word() {
    let mut buffer = BitBuffer::from_bytes(vec![0xFF; 8]);
    assert_eq!(buffer.read_int((0, -1)), Ok(-1));
    assert_eq!(buffer.read_bit(), Err(Error::EndOfStream));
    let mut buffer = BitBuffer::default();
    assert_eq!(
        buffer.write_int(0, (0, -1)),
        Err(Error::ValueNotInRange(0, 0, -1))
    );
}

#[test]
fn int_cut_short_reads_everything_pending() {
    let mut buffer = BitBuffer::from_bits(vec![0x00], 3);
    assert_eq!(buffer.read_int((0, 127)), Err(Error::EndOfStream));
    assert_eq!(buffer.read_bit(), Err(Error::EndOfStream));
}

#[test]
fn octet_string_errors_write_nothing() {
    let mut buffer = BitBuffer::default();
    assert_eq!(
        buffer.write_octet_string(&[1, 2, 3, 4], Some((5, 10))),
        Err(Error::ValueNotInRange(4, 5, 10))
    );
    let long = vec![0_u8; 16384];
    assert_eq!(
        buffer.write_octet_string(&long, None),
        Err(unsupported(
            "Writing length determinant for lengths > 16383 is unsupported"
        ))
    );
    assert_eq!(buffer.bit_len(), 0);
}

#[test]
fn octet_string_with_a_fixed_length_has_no_prefix() {
    let mut buffer = BitBuffer::default();
    buffer.write_octet_string(&[0xAB], Some((1, 1))).unwrap();
    assert_eq!(buffer.content(), &[0xAB]);
    assert_eq!(buffer.bit_len(), 8);
}

#[test]
fn bit_string_roundtrip_at_every_offset() {
    let source = [0b1011_0010_u8, 0b0111_1000, 0b1100_0011];
    for offset in 0..24 {
        for length in 0..(24 - offset) {
            let mut buffer = BitBuffer::default();
            buffer.write_bit_string(&source, offset, length).unwrap();
            assert_eq!(buffer.bit_len(), length);
            let mut destination = [0x5A_u8; 3];
            buffer
                .read_bit_string(&mut destination[..], offset, length)
                .unwrap();
            for bit in 0..24 {
                let mask = 0x80 >> (bit % 8);
                let from = if bit >= offset && bit < offset + length {
                    source[bit / 8]
                } else {
                    0x5A
                };
                assert_eq!(destination[bit / 8] & mask, from & mask);
            }
            assert_eq!(buffer.read_bit(), Err(Error::EndOfStream));
        }
    }
}

#[test]
fn written_bits_are_packed_most_significant_first() {
    let bits = [true, true, false, true, false, false, true, false, true, true];
    let mut buffer = BitBuffer::default();
    for bit in bits.iter() {
        buffer.write_bit(*bit).unwrap();
    }
    assert_eq!(buffer.content(), &[0b1101_0010, 0b1100_0000]);
    assert_eq!(buffer.bit_len(), 10);
    assert_eq!(buffer.byte_len(), 2);
    for bit in bits.iter() {
        assert_eq!(buffer.read_bit(), Ok(*bit));
    }
    assert_eq!(buffer.read_bit(), Err(Error::EndOfStream));
}
