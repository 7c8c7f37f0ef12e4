use bit_buffers::BitBuffer;
use bit_buffers::BitReader;
use bit_buffers::BitWriter;

fn low_bits(value: u128, width: u8) -> u128 {
    if width >= 128 {
        value
    } else {
        value & ((1u128 << width) - 1)
    }
}

#[test]
fn round_trip_every_width_and_offset() {
    let value: u128 = 0xdead_beef_0123_4567_89ab_cdef_f00d_cafe;
    for offset in 0u8..17 {
        for width in 1u8..=128 {
            let mut buffer = BitBuffer::new(None, None);
            for i in 0..offset {
                buffer.push_bit(i % 2);
            }
            buffer.push_bits(value, width);
            assert_eq!(buffer.get_count(), offset as u128 + width as u128);
            assert_eq!(
                buffer.get_bits(offset as u128, width),
                Some(low_bits(value, width)),
                "offset {} width {}",
                offset,
                width
            );
            for i in 0..offset {
                assert_eq!(buffer.get_bit(i as u128), i % 2);
            }
        }
    }
}

#[test]
fn round_trip_all_ones_and_zero() {
    for offset in 0u8..9 {
        for width in 1u8..=128 {
            for value in [0u128, u128::MAX, 1, 1u128 << 127] {
                let mut buffer = BitBuffer::new(None, None);
                buffer.push_bits(0, offset);
                buffer.push_bits(value, width);
                assert_eq!(buffer.get_bits(offset as u128, width), Some(low_bits(value, width)));
            }
        }
    }
}

#[test]
fn field_inside_one_byte() {
    // One bit, then a two-bit field that ends before the byte does.
    let mut buffer = BitBuffer::new(None, None);
    buffer.push_bit(1);
    buffer.push_bits(0b11, 2);
    buffer.push_bits(0b01, 2);
    assert_eq!(buffer.get_count(), 5);
    assert_eq!(buffer.get_bits(0, 5), Some(0b11101));
    assert_eq!(buffer.get_bits(1, 2), Some(0b11));
    assert_eq!(buffer.get_bits(3, 2), Some(0b01));
}

#[test]
fn interior_bytes_are_exact() {
    // A field that starts mid-byte, covers a whole byte and ends mid-byte,
    // with bits that do not repeat.
    let mut buffer = BitBuffer::new(None, None);
    buffer.push_bits(0b0101, 4);
    buffer.push_bits(0b10_0111_0101_1001, 14);
    assert_eq!(buffer.get_count(), 18);
    assert_eq!(buffer.get_bits(4, 14), Some(0b10_0111_0101_1001));
    assert_eq!(buffer.get_bits(0, 8), Some(0b0101_1001));
    assert_eq!(buffer.get_bits(8, 8), Some(0b1101_0110));
    assert_eq!(buffer.get_bits(16, 2), Some(0b01));
    assert_eq!(buffer.get_bits(0, 18), Some(0b01_0110_0111_0101_1001));
}

#[test]
fn first_bit_is_top_bit() {
    let mut buffer = BitBuffer::new(None, None);
    buffer.push_bit(1);
    for _ in 0..7 {
        buffer.push_bit(0);
    }
    assert_eq!(buffer.get_bits(0, 8), Some(0x80));
    assert_eq!(buffer.get_bit(0), 1);
    assert_eq!(buffer.get_bit(7), 0);
}

#[test]
fn push_bit_sets_only_for_one() {
    let mut buffer = BitBuffer::new(None, None);
    buffer.push_bit(1);
    buffer.push_bit(0);
    buffer.push_bit(2);
    buffer.push_bit(3);
    buffer.push_bit(255);
    assert_eq!(buffer.get_count(), 5);
    assert_eq!(buffer.get_bits(0, 5), Some(0b10000));
}

#[test]
fn push_bits_of_width_one_takes_lowest_bit() {
    let mut buffer = BitBuffer::new(None, None);
    buffer.push_bits(1, 1);
    buffer.push_bits(0, 1);
    buffer.push_bits(3, 1);
    buffer.push_bits(2, 1);
    assert_eq!(buffer.get_count(), 4);
    assert_eq!(buffer.get_bits(0, 4), Some(0b1010));
}

#[test]
fn push_bits_ignores_bits_above_the_field() {
    let mut buffer = BitBuffer::new(None, None);
    buffer.push_bits(0xfff5, 4);
    buffer.push_bits(0xabcd, 8);
    assert_eq!(buffer.get_count(), 12);
    assert_eq!(buffer.get_bits(0, 4), Some(0x5));
    assert_eq!(buffer.get_bits(4, 8), Some(0xcd));
}

#[test]
fn invalid_width_pushes_nothing() {
    let mut buffer = BitBuffer::new(None, None);
    buffer.push_bits(0b101, 3);
    buffer.push_bits(0xffff, 0);
    buffer.push_bits(0xffff, 129);
    buffer.push_bits(0xffff, 255);
    assert_eq!(buffer.get_count(), 3);
    assert_eq!(buffer.get_bits(0, 3), Some(0b101));
}

#[test]
fn invalid_width_reads_nothing() {
    let mut buffer = BitBuffer::new(None, None);
    buffer.push_bits(u128::MAX, 128);
    buffer.push_bits(u128::MAX, 128);
    assert_eq!(buffer.get_bits(0, 0), None);
    assert_eq!(buffer.get_bits(0, 129), None);
    assert_eq!(buffer.get_bits(0, 255), None);
    assert_eq!(buffer.get_bits(0, 128), Some(u128::MAX));
}

#[test]
fn out_of_range_reads_nothing() {
    let mut buffer = BitBuffer::new(None, None);
    assert_eq!(buffer.get_bits(0, 1), None);
    buffer.push_bits(0b1011, 4);
    assert_eq!(buffer.get_bits(0, 5), None);
    assert_eq!(buffer.get_bits(1, 4), None);
    assert_eq!(buffer.get_bits(4, 1), None);
    assert_eq!(buffer.get_bits(5, 1), None);
    assert_eq!(buffer.get_bits(u128::MAX, 1), None);
    assert_eq!(buffer.get_bits(u128::MAX - 3, 4), None);
    assert_eq!(buffer.get_bits(3, 1), Some(1));
    assert_eq!(buffer.get_bits(0, 4), Some(0b1011));
}

#[test]
fn new_from_count_and_bytes() {
    let buffer = BitBuffer::new(Some(12), Some(vec![0b1010_0101, 0b1100_0000]));
    assert_eq!(buffer.get_count(), 12);
    assert_eq!(buffer.get_bit(0), 1);
    assert_eq!(buffer.get_bit(1), 0);
    assert_eq!(buffer.get_bit(8), 1);
    assert_eq!(buffer.get_bit(11), 0);
    assert_eq!(buffer.get_bits(0, 12), Some(0b1010_0101_1100));
    assert_eq!(buffer.get_bits(4, 6), Some(0b0101_11));
    assert_eq!(buffer.get_bits(0, 13), None);
}

#[test]
fn new_with_one_part_omitted() {
    let mut buffer = BitBuffer::new(Some(0), None);
    assert_eq!(buffer.get_count(), 0);
    buffer.push_bits(0b101, 3);
    assert_eq!(buffer.get_bits(0, 3), Some(0b101));
    let mut buffer = BitBuffer::new(None, Some(Vec::new()));
    assert_eq!(buffer.get_count(), 0);
    buffer.push_bit(1);
    assert_eq!(buffer.get_bits(0, 1), Some(1));
}

#[test]
fn new_on_a_byte_boundary() {
    let mut buffer = BitBuffer::new(Some(16), Some(vec![0x12, 0x34]));
    assert_eq!(buffer.get_bits(0, 16), Some(0x1234));
    buffer.push_bits(0x5678, 16);
    assert_eq!(buffer.get_count(), 32);
    assert_eq!(buffer.get_bits(0, 32), Some(0x1234_5678));
    assert_eq!(buffer.get_bits(4, 24), Some(0x234_567));
}

#[test]
fn new_then_push_continues_the_last_byte() {
    let mut buffer = BitBuffer::new(Some(3), Some(vec![0b1010_0000]));
    buffer.push_bits(0b1_1111_0000_1, 10);
    assert_eq!(buffer.get_count(), 13);
    assert_eq!(buffer.get_bits(0, 13), Some(0b101_1111_1000_01));
}

#[test]
fn push_never_clears_a_stored_bit() {
    // The byte has set bits behind the three that count; a push lands on them.
    let mut buffer = BitBuffer::new(Some(3), Some(vec![0b1011_0100]));
    buffer.push_bits(0b00000, 5);
    assert_eq!(buffer.get_count(), 8);
    assert_eq!(buffer.get_bits(0, 8), Some(0b1011_0100));
    let mut buffer = BitBuffer::new(Some(3), Some(vec![0b1011_0100]));
    buffer.push_bit(0);
    buffer.push_bits(0b01, 2);
    assert_eq!(buffer.get_bits(0, 6), Some(0b1011_01));
}

#[test]
fn empty_buffer_has_no_bits() {
    let buffer = BitBuffer::new(None, None);
    assert_eq!(buffer.get_count(), 0);
    assert_eq!(buffer.get_bits(0, 1), None);
    let buffer = BitBuffer::default();
    assert_eq!(buffer.get_count(), 0);
}

#[test]
fn flush_gives_a_fresh_buffer() {
    let mut used = BitBuffer::new(None, None);
    used.push_bits(0x1ff, 9);
    used.push_bit(1);
    used.flush();
    assert_eq!(used.get_count(), 0);
    assert_eq!(used.get_bits(0, 1), None);

    let mut fresh = BitBuffer::new(None, None);
    for buffer in [&mut used, &mut fresh] {
        buffer.push_bits(0b001, 3);
        buffer.push_bit(0);
        buffer.push_bits(0x2_4680, 20);
    }
    assert_eq!(used.get_count(), fresh.get_count());
    assert_eq!(used.get_count(), 24);
    assert_eq!(used.get_bits(0, 24), fresh.get_bits(0, 24));
    assert_eq!(used.get_bits(0, 24), Some(0b0010_0010_0100_0110_1000_0000));

    used.flush();
    used.flush();
    assert_eq!(used.get_count(), 0);
}

#[test]
fn clone_is_a_buffer_of_its_own() {
    let mut first = BitBuffer::new(None, None);
    first.push_bits(0b110, 3);
    let second = first.clone();
    first.push_bits(0b11111, 5);
    assert_eq!(second.get_count(), 3);
    assert_eq!(second.get_bits(0, 3), Some(0b110));
    assert_eq!(first.get_count(), 8);
    assert_eq!(first.get_bits(0, 8), Some(0b1101_1111));
}

#[test]
fn debug_shows_count_and_bytes() {
    let mut buffer = BitBuffer::new(None, None);
    buffer.push_bits(0b1010_0000_1, 9);
    let shown = format!("{:?}", buffer);
    assert!(shown.contains("BitBuffer"));
    assert!(shown.contains("count: 9"));
    assert!(shown.contains("[160, 128]"));
}

#[test]
fn storage_holds_fields_top_bit_first() {
    // 4 + 14 bits fill two bytes and the top two bits of a third.
    let mut buffer = BitBuffer::new(None, None);
    buffer.push_bits(0b0101, 4);
    buffer.push_bits(0b11_0011_0011_0011, 14);
    let shown = format!("{:?}", buffer);
    assert!(shown.contains("count: 18"));
    assert!(shown.contains("[92, 204, 192]"));
    buffer.flush();
    let shown = format!("{:?}", buffer);
    assert!(shown.contains("count: 0"));
    assert!(shown.contains("[]"));
}

#[test]
fn many_single_bits_grow_the_buffer() {
    let mut buffer = BitBuffer::new(None, None);
    for i in 0u32..10_000 {
        buffer.push_bit((i % 3 == 0) as u8);
    }
    assert_eq!(buffer.get_count(), 10_000);
    for i in 0u32..10_000 {
        assert_eq!(buffer.get_bit(i as u128), (i % 3 == 0) as u8);
    }
}

#[test]
fn reader_stops_at_the_last_bit() {
    let mut writer = BitWriter::new();
    writer.write_bits(0b101, 3);
    let mut reader = BitReader::new(writer.get_buffer());
    assert_eq!(reader.read_bits(2), Some(0b10));
    assert_eq!(reader.read_bit(), Some(1));
    assert_eq!(reader.read_bit(), None);
    assert_eq!(reader.read_bit(), None);
    assert_eq!(reader.read_bits(1), None);
}

#[test]
fn reader_keeps_its_place_when_too_much_is_asked() {
    let mut writer = BitWriter::new();
    writer.write_bits(0b1011_0011_01, 10);
    let mut reader = BitReader::new(writer.get_buffer());
    assert_eq!(reader.read_bits(4), Some(0b1011));
    assert_eq!(reader.read_bits(7), None);
    assert_eq!(reader.read_bits(0), None);
    assert_eq!(reader.read_bits(200), None);
    assert_eq!(reader.read_bits(6), Some(0b0011_01));
    assert_eq!(reader.read_bits(1), None);
}

#[test]
fn reader_over_nothing_reads_nothing() {
    let mut reader = BitReader::new(BitBuffer::new(None, None));
    assert_eq!(reader.read_bit(), None);
    assert_eq!(reader.read_bits(1), None);
    let mut reader = BitReader::default();
    assert_eq!(reader.read_bit(), None);
}

#[test]
fn snapshot_is_not_touched_by_later_writes() {
    let mut writer = BitWriter::new();
    writer.write_bits(0b10110, 5);
    let snapshot = writer.get_buffer();
    writer.write_bits(0b111, 3);
    writer.write_bit(1);
    writer.write_bits(u128::MAX, 128);

    assert_eq!(snapshot.get_count(), 5);
    assert_eq!(snapshot.get_bits(0, 5), Some(0b10110));
    assert_eq!(snapshot.get_bits(0, 6), None);

    let later = writer.get_buffer();
    assert_eq!(later.get_count(), 137);
    assert_eq!(later.get_bits(0, 9), Some(0b1011_0111_1));

    let mut reader = BitReader::new(snapshot);
    assert_eq!(reader.read_bits(5), Some(0b10110));
    assert_eq!(reader.read_bit(), None);
}

#[test]
fn writer_ignores_invalid_widths() {
    let mut writer = BitWriter::new();
    writer.write_bits(0b11, 2);
    writer.write_bits(0xff, 0);
    writer.write_bits(0xff, 130);
    writer.write_bit(7);
    let buffer = writer.get_buffer();
    assert_eq!(buffer.get_count(), 3);
    assert_eq!(buffer.get_bits(0, 3), Some(0b110));
    let buffer = BitWriter::default().get_buffer();
    assert_eq!(buffer.get_count(), 0);
}

#[test]
fn full_width_fields_at_odd_offsets() {
    let a: u128 = 0x0123_4567_89ab_cdef_fedc_ba98_7654_3210;
    let b: u128 = 0xffff_0000_ffff_0000_aaaa_5555_aaaa_5555;
    let mut writer = BitWriter::new();
    writer.write_bits(0b101, 3);
    writer.write_bits(a, 128);
    writer.write_bits(b, 127);
    writer.write_bits(a, 65);
    let mut reader = BitReader::new(writer.get_buffer());
    assert_eq!(reader.read_bits(3), Some(0b101));
    assert_eq!(reader.read_bits(128), Some(a));
    assert_eq!(reader.read_bits(127), Some(low_bits(b, 127)));
    assert_eq!(reader.read_bits(65), Some(low_bits(a, 65)));
    assert_eq!(reader.read_bit(), None);
}
