use anycubic::{
    patch_u32_le, write_named_table_header, write_padded_string, write_u32_le, Cursor, IoError, SeekFrom,
};

#[test]
fn u32_le_writes_four_bytes() {
    let mut c = Cursor::new(Vec::new());
    write_u32_le(&mut c, 0x01020304).unwrap();
    assert_eq!(c.into_inner(), vec![0x04, 0x03, 0x02, 0x01]);
}

#[test]
fn padded_string_pads_with_nulls() {
    let mut c = Cursor::new(Vec::new());
    write_padded_string(&mut c, "HI", 6).unwrap();
    assert_eq!(c.into_inner(), vec![b'H', b'I', 0, 0, 0, 0]);
}

#[test]
fn padded_string_truncates_long_input_leaving_null_terminator() {
    let mut c = Cursor::new(Vec::new());
    write_padded_string(&mut c, "ABCDEFGHIJ", 6).unwrap();
    // Truncated to 5 chars + 1 null
    let result = c.into_inner();
    assert_eq!(result.len(), 6);
    assert_eq!(&result[..5], b"ABCDE");
    assert_eq!(result[5], 0);
}

#[test]
fn named_table_header_writes_12_byte_name_plus_4_byte_length() {
    let mut c = Cursor::new(Vec::new());
    write_named_table_header(&mut c, "HEADER", 80).unwrap();
    let bytes = c.into_inner();
    assert_eq!(bytes.len(), 16);
    assert_eq!(&bytes[..6], b"HEADER");
    assert_eq!(&bytes[6..12], &[0, 0, 0, 0, 0, 0]);
    assert_eq!(&bytes[12..16], &80u32.to_le_bytes());
}

#[test]
fn patch_overwrites_in_place_and_restores_position() {
    let mut c = Cursor::new(vec![0u8; 8]);
    c.seek(SeekFrom::Start(4)).unwrap();
    patch_u32_le(&mut c, 0, 0xDEADBEEF).unwrap();
    assert_eq!(c.position(), 4, "position not restored");
    let bytes = c.into_inner();
    assert_eq!(&bytes[..4], &0xDEADBEEFu32.to_le_bytes());
}

#[test]
fn padded_string_exact_length_keeps_a_terminator() {
    let mut c = Cursor::new(Vec::new());
    write_padded_string(&mut c, "ABCDEF", 6).unwrap();
    assert_eq!(c.into_inner(), b"ABCDE\0".to_vec());
}

#[test]
fn padded_string_of_zero_length_writes_nothing() {
    let mut c = Cursor::new(Vec::new());
    write_padded_string(&mut c, "ABC", 0).unwrap();
    assert_eq!(c.position(), 0);
    assert!(c.into_inner().is_empty());
}

#[test]
fn padded_string_writes_utf8_bytes() {
    let mut c = Cursor::new(Vec::new());
    write_padded_string(&mut c, "é", 4).unwrap();
    assert_eq!(c.into_inner(), vec![0xC3, 0xA9, 0, 0]);
}

#[test]
fn writes_append_one_after_another() {
    let mut c = Cursor::new(Vec::new());
    write_u32_le(&mut c, 1).unwrap();
    write_named_table_header(&mut c, "LAYERDEF", 0x0102).unwrap();
    assert_eq!(c.position(), 20);
    let bytes = c.into_inner();
    assert_eq!(&bytes[..4], &[1, 0, 0, 0]);
    assert_eq!(&bytes[4..12], b"LAYERDEF");
    assert_eq!(&bytes[12..16], &[0, 0, 0, 0]);
    assert_eq!(&bytes[16..20], &[0x02, 0x01, 0, 0]);
}

#[test]
fn write_past_the_end_fills_the_gap_with_zeros() {
    let mut c = Cursor::new(vec![9u8; 2]);
    c.seek(SeekFrom::Start(4)).unwrap();
    write_u32_le(&mut c, 0xAABBCCDD).unwrap();
    assert_eq!(c.position(), 8);
    assert_eq!(c.into_inner(), vec![9, 9, 0, 0, 0xDD, 0xCC, 0xBB, 0xAA]);
}

#[test]
fn write_inside_overwrites_and_keeps_the_tail() {
    let mut c = Cursor::new(vec![1u8, 2, 3, 4, 5, 6]);
    c.seek(SeekFrom::Start(1)).unwrap();
    write_padded_string(&mut c, "x", 2).unwrap();
    assert_eq!(c.position(), 3);
    assert_eq!(c.into_inner(), vec![1, b'x', 0, 4, 5, 6]);
}

#[test]
fn seek_from_end_and_current() {
    let mut c = Cursor::new(vec![0u8; 10]);
    assert_eq!(c.seek(SeekFrom::End(-3)), Ok(7));
    assert_eq!(c.seek(SeekFrom::Current(-2)), Ok(5));
    assert_eq!(c.seek(SeekFrom::Current(4)), Ok(9));
    assert_eq!(c.seek(SeekFrom::End(5)), Ok(15));
    assert_eq!(c.seek(SeekFrom::Current(-16)), Err(IoError::InvalidSeek));
    assert_eq!(c.position(), 15);
    assert_eq!(c.seek(SeekFrom::End(i64::MIN)), Err(IoError::InvalidSeek));
    assert_eq!(c.seek(SeekFrom::Start(u64::MAX)), Ok(u64::MAX));
    assert_eq!(c.seek(SeekFrom::Current(1)), Err(IoError::InvalidSeek));
}

#[test]
fn write_beyond_the_largest_buffer_is_refused() {
    let mut c = Cursor::new(vec![7u8; 3]);
    c.seek(SeekFrom::Start(u64::MAX)).unwrap();
    assert_eq!(write_u32_le(&mut c, 5), Err(IoError::PositionTooLarge));
    assert_eq!(c.position(), u64::MAX);
    assert_eq!(c.into_inner(), vec![7, 7, 7]);
}

#[test]
fn patch_out_of_range_is_refused_and_leaves_the_bytes() {
    let mut c = Cursor::new(vec![1u8, 2, 3, 4]);
    c.seek(SeekFrom::Start(2)).unwrap();
    assert_eq!(patch_u32_le(&mut c, u64::MAX - 1, 7), Err(IoError::PositionTooLarge));
    assert_eq!(c.position(), u64::MAX - 1);
    assert_eq!(c.into_inner(), vec![1, 2, 3, 4]);
}

#[test]
fn patch_past_the_end_extends_the_buffer() {
    let mut c = Cursor::new(vec![1u8, 2]);
    c.seek(SeekFrom::End(0)).unwrap();
    patch_u32_le(&mut c, 4, 0x11223344).unwrap();
    assert_eq!(c.position(), 2);
    assert_eq!(c.into_inner(), vec![1, 2, 0, 0, 0x44, 0x33, 0x22, 0x11]);
}

#[test]
fn cursor_len_counts_the_bytes() {
    let mut c = Cursor::new(vec![1u8, 2, 3]);
    assert_eq!(c.len(), 3);
    c.seek(SeekFrom::End(0)).unwrap();
    write_named_table_header(&mut c, "PREVIEW", 7).unwrap();
    assert_eq!(c.len(), 19);
    assert_eq!(c.position(), 19);
}
