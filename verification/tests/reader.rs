use dns_codec::DecodeError;
use dns_codec::DomainName;
use dns_codec::PacketReader;

#[test]
fn read_steps_through_the_buffer() {
    let mut reader = PacketReader::new(&[7, 9]);
    assert_eq!(reader.offset(), 0);
    assert_eq!(reader.read(), Ok(7));
    assert_eq!(reader.offset(), 1);
    assert_eq!(reader.read(), Ok(9));
    assert_eq!(reader.offset(), 2);
    assert_eq!(reader.read(), Err(DecodeError::Truncated));
    assert_eq!(reader.offset(), 2);
}

#[test]
fn read_on_empty_buffer_is_truncated() {
    let mut reader = PacketReader::new(&[]);
    assert_eq!(reader.read(), Err(DecodeError::Truncated));
    assert_eq!(reader.read_u16(), Err(DecodeError::Truncated));
    assert_eq!(reader.read_u32(), Err(DecodeError::Truncated));
    assert_eq!(reader.read_name(), Err(DecodeError::Truncated));
    assert_eq!(reader.offset(), 0);
}

#[test]
fn read_u16_is_big_endian() {
    let mut reader = PacketReader::new(&[0x12, 0x34, 0xFF, 0xFE]);
    assert_eq!(reader.read_u16(), Ok(0x1234));
    assert_eq!(reader.read_u16(), Ok(0xFFFE));
    assert_eq!(reader.offset(), 4);
}

#[test]
fn read_u16_needs_two_bytes() {
    let mut reader = PacketReader::new(&[0x12]);
    assert_eq!(reader.read_u16(), Err(DecodeError::Truncated));
    assert_eq!(reader.offset(), 0);
    assert_eq!(reader.read(), Ok(0x12));
}

#[test]
fn read_u32_is_big_endian() {
    let mut reader = PacketReader::new(&[0x00, 0x00, 0x02, 0x58, 0xDE, 0xAD, 0xBE, 0xEF]);
    assert_eq!(reader.read_u32(), Ok(600));
    assert_eq!(reader.read_u32(), Ok(0xDEADBEEF));
    assert_eq!(reader.offset(), 8);
}

#[test]
fn read_u32_needs_four_bytes() {
    let mut reader = PacketReader::new(&[1, 2, 3]);
    assert_eq!(reader.read_u32(), Err(DecodeError::Truncated));
    assert_eq!(reader.offset(), 0);
    assert_eq!(reader.read_u16(), Ok(0x0102));
}

#[test]
fn read_u16s_reads_values_in_a_row() {
    let mut reader = PacketReader::new(&[0, 1, 0, 2, 1, 0, 9]);
    assert_eq!(reader.read_u16s(3), Ok(vec![1, 2, 256]));
    assert_eq!(reader.offset(), 6);
    assert_eq!(reader.read_u16s(0), Ok(vec![]));
    assert_eq!(reader.read_u16s(1), Err(DecodeError::Truncated));
    assert_eq!(reader.offset(), 6);
}

#[test]
fn read_bytes_copies_a_range() {
    let mut reader = PacketReader::new(&[1, 2, 3, 4, 5]);
    assert_eq!(reader.read_bytes(2), Ok(vec![1, 2]));
    assert_eq!(reader.read_bytes(4), Err(DecodeError::Truncated));
    assert_eq!(reader.offset(), 2);
    assert_eq!(reader.read_bytes(3), Ok(vec![3, 4, 5]));
    assert_eq!(reader.read_bytes(0), Ok(vec![]));
}

#[test]
fn seek_moves_within_the_buffer() {
    let mut reader = PacketReader::new(&[1, 2, 3]);
    assert_eq!(reader.seek(2), Ok(()));
    assert_eq!(reader.read(), Ok(3));
    assert_eq!(reader.seek(3), Ok(()));
    assert_eq!(reader.read(), Err(DecodeError::Truncated));
    assert_eq!(reader.seek(4), Err(DecodeError::Truncated));
    assert_eq!(reader.offset(), 3);
    assert_eq!(reader.seek(0), Ok(()));
    assert_eq!(reader.read(), Ok(1));
}

#[test]
fn read_name_collects_labels() {
    let mut reader = PacketReader::new(&[
        7, b'e', b'x', b'a', b'm', b'p', b'l', b'e', 3, b'c', b'o', b'm', 0, 0xAA,
    ]);
    let name = reader.read_name().unwrap();
    assert_eq!(name.labels, vec![b"example".to_vec(), b"com".to_vec()]);
    assert_eq!(name.to_text(), b"example.com".to_vec());
    assert_eq!(reader.offset(), 13);
    assert_eq!(reader.read(), Ok(0xAA));
}

#[test]
fn read_name_of_the_root() {
    let mut reader = PacketReader::new(&[0, 1]);
    let name = reader.read_name().unwrap();
    assert_eq!(name, DomainName::root());
    assert_eq!(name.to_text(), Vec::<u8>::new());
    assert_eq!(reader.offset(), 1);
}

#[test]
fn read_name_refuses_a_compression_pointer() {
    let mut reader = PacketReader::new(&[3, b'w', b'w', b'w', 0xC0, 0x0C]);
    assert_eq!(reader.read_name(), Err(DecodeError::UnsupportedCompression));
    assert_eq!(reader.offset(), 0);
    let mut reader = PacketReader::new(&[0xFF, 0]);
    assert_eq!(reader.read_name(), Err(DecodeError::UnsupportedCompression));
}

#[test]
fn read_name_takes_length_bytes_below_the_pointer_mark_as_lengths() {
    let mut bytes = vec![191u8];
    bytes.extend(std::iter::repeat(b'a').take(191));
    bytes.push(0);
    let mut reader = PacketReader::new(&bytes);
    let name = reader.read_name().unwrap();
    assert_eq!(name.labels, vec![vec![b'a'; 191]]);
    assert_eq!(reader.offset(), 193);
}

#[test]
fn read_name_cut_short_is_truncated() {
    let whole = [3, b'c', b'o', b'm', 2, b'u', b'k', 0];
    for cut in 0..whole.len() {
        let mut reader = PacketReader::new(&whole[..cut]);
        assert_eq!(reader.read_name(), Err(DecodeError::Truncated));
        assert_eq!(reader.offset(), 0);
    }
    let mut reader = PacketReader::new(&whole);
    assert!(reader.read_name().is_ok());
}

#[test]
fn failed_read_name_leaves_the_reader_in_place() {
    let mut reader = PacketReader::new(&[9, 3, b'c', b'o', b'm']);
    assert_eq!(reader.read(), Ok(9));
    assert_eq!(reader.read_name(), Err(DecodeError::Truncated));
    assert_eq!(reader.offset(), 1);
}
