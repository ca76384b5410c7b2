use sqlite_viewer::bytes::{
    read_u16, read_u16_from_page, read_u32, read_u32_from_page, read_u8, read_u8_from_page,
    read_varint, ByteReader,
};
use sqlite_viewer::error::DbError;

#[test]
fn varint_single_byte() {
    assert_eq!(read_varint(&[0x00], 0), (0, 1));
    assert_eq!(read_varint(&[0x7f, 0xff], 0), (127, 1));
}

#[test]
fn varint_two_bytes() {
    assert_eq!(read_varint(&[0x81, 0x00], 0), (128, 2));
    assert_eq!(read_varint(&[0x81, 0x3b], 0), (187, 2));
}

#[test]
fn varint_at_offset() {
    assert_eq!(read_varint(&[0xff, 0x70, 0x01], 1), (0x70, 1));
    assert_eq!(read_varint(&[0xff, 0x70, 0x01], 2), (1, 1));
}

#[test]
fn varint_nine_bytes_uses_all_bits_of_last() {
    let buf = [0xff; 9];
    assert_eq!(read_varint(&buf, 0), (u64::MAX, 9));
    let buf = [0x80, 0x80, 0x80, 0x80, 0x80, 0x80, 0x80, 0x80, 0x01, 0x55];
    assert_eq!(read_varint(&buf, 0), (1, 9));
}

#[test]
fn varint_truncated_or_past_end() {
    assert_eq!(read_varint(&[0x81], 0), (1, 1));
    assert_eq!(read_varint(&[0x81, 0x82], 0), (0x82 & 0x7f | (1 << 7), 2));
    assert_eq!(read_varint(&[0x01], 1), (0, 0));
    assert_eq!(read_varint(&[0x01], 5), (0, 0));
    assert_eq!(read_varint(&[], 0), (0, 0));
}

#[test]
fn page_integers_big_endian() {
    let page = [0x0d, 0x01, 0x4d, 0x00, 0x01, 0x8e, 0x12];
    assert_eq!(read_u8_from_page(&page, 0), Ok(0x0d));
    assert_eq!(read_u16_from_page(&page, 1), Ok(0x014d));
    assert_eq!(read_u32_from_page(&page, 3), Ok(0x00018e12));
}

#[test]
fn page_integers_too_short() {
    let page = [0x01, 0x02, 0x03];
    assert_eq!(read_u16_from_page(&page, 2), Err(DbError::PageTooShort));
    assert_eq!(read_u16_from_page(&page, 7), Err(DbError::PageTooShort));
    assert_eq!(read_u32_from_page(&page, 0), Err(DbError::PageTooShort));
    assert_eq!(read_u16_from_page(&page, 1), Ok(0x0203));
}

#[test]
fn reader_reads_front_to_back() {
    let data = [0x01, 0x02, 0x03, 0x04, 0x05, 0x06, 0x07, 0x08];
    let mut r = ByteReader::new(&data);
    assert_eq!(read_u8(&mut r), Ok(0x01));
    assert_eq!(read_u16(&mut r), Ok(0x0203));
    assert_eq!(read_u32(&mut r), Ok(0x04050607));
    assert_eq!(r.position(), 7);
    assert_eq!(read_u16(&mut r), Err(DbError::UnexpectedEof));
    assert_eq!(r.position(), 7);
    assert_eq!(read_u8(&mut r), Ok(0x08));
    assert_eq!(read_u8(&mut r), Err(DbError::UnexpectedEof));
}

#[test]
fn reader_read_exact() {
    let data = [9, 8, 7, 6];
    let mut r = ByteReader::new(&data);
    assert_eq!(r.read_exact(3), Ok(vec![9, 8, 7]));
    assert_eq!(r.read_exact(2), Err(DbError::UnexpectedEof));
    assert_eq!(r.read_exact(1), Ok(vec![6]));
    assert_eq!(r.read_exact(0), Ok(vec![]));
}

/// Writes `v` as a SQLite varint.
fn encode_varint(v: u64) -> Vec<u8> {
    if v >= 1 << 56 {
        let mut out: Vec<u8> = (0..8).rev().map(|k| 0x80 | ((v >> 8 >> (7 * k)) & 0x7f) as u8).collect();
        out.push(v as u8);
        return out;
    }
    let mut groups = vec![(v & 0x7f) as u8];
    let mut rest = v >> 7;
    while rest > 0 {
        groups.push(0x80 | (rest & 0x7f) as u8);
        rest >>= 7;
    }
    groups.reverse();
    groups
}

#[test]
fn varint_reads_back_what_was_written() {
    let values = [0, 1, 127, 128, 300, 16383, 16384, (1 << 49) - 1, 1 << 49, (1 << 56) - 1, 1 << 56, 0x0123_4567_89ab_cdef, u64::MAX];
    for v in values {
        let enc = encode_varint(v);
        let mut buf = vec![0xff, 0x80];
        buf.extend_from_slice(&enc);
        buf.extend_from_slice(&[0x81, 0xff, 0x00]);
        assert_eq!(read_varint(&buf, 2), (v, enc.len()), "value {v}");
    }
    assert_eq!(encode_varint(300), vec![0x82, 0x2c]);
    assert_eq!(encode_varint(u64::MAX), vec![0xff; 9]);
}
