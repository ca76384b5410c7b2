use sqlite_viewer::bytes::ByteReader;
use sqlite_viewer::error::DbError;
use sqlite_viewer::header::{
    is_valid_page_size, page_offset, read_header, read_leaf_payload_frac, read_magic,
    read_max_payload_frac, read_min_payload_frac, read_page_size, DBTextEncoding,
};

/// The first 100 bytes of a database with 512-byte pages and 3 pages.
fn valid_header() -> Vec<u8> {
    let mut h = vec![0u8; 100];
    h[..16].copy_from_slice(b"SQLite format 3\0");
    h[16] = 0x02; // page size 512
    h[17] = 0x00;
    h[18] = 1;
    h[19] = 1;
    h[20] = 0; // reserved space
    h[21] = 64;
    h[22] = 32;
    h[23] = 32;
    h[31] = 3; // size in pages
    h[47] = 4; // schema format
    h[55] = 1; // largest root page
    h[59] = 1; // text encoding
    h[96..100].copy_from_slice(&[0x00, 0x2e, 0x63, 0x01]);
    h
}

fn parse(bytes: &[u8]) -> Result<sqlite_viewer::header::SqliteHeader, DbError> {
    let mut r = ByteReader::new(bytes);
    read_header(&mut r)
}

#[test]
fn reads_valid_header() {
    let h = parse(&valid_header()).unwrap();
    assert_eq!(h.page_size, 512);
    assert_eq!(h.size_in_pages, 3);
    assert_eq!(h.usable_page_size, 512);
    assert_eq!(h.sqlite_version_num, 3040001);
}

#[test]
fn usable_size_subtracts_reserved_space() {
    let mut b = valid_header();
    b[16] = 0x10; // 4096
    b[20] = 40;
    let h = parse(&b).unwrap();
    assert_eq!(h.page_size, 4096);
    assert_eq!(h.usable_page_size, 4056);
}

#[test]
fn rejects_bad_magic() {
    let mut b = valid_header();
    b[0] = b's';
    assert_eq!(parse(&b).unwrap_err(), DbError::InvalidMagic);
}

#[test]
fn rejects_bad_page_size() {
    let mut b = valid_header();
    b[16] = 0x03; // 768
    assert_eq!(parse(&b).unwrap_err(), DbError::InvalidPageSize);
    b[16] = 0x00;
    b[17] = 0x01; // 1: 65536, not accepted
    assert_eq!(parse(&b).unwrap_err(), DbError::InvalidPageSize);
}

#[test]
fn rejects_payload_fractions() {
    let mut b = valid_header();
    b[21] = 63;
    assert_eq!(parse(&b).unwrap_err(), DbError::InvalidMaxPayloadFrac(63));
    let mut b = valid_header();
    b[22] = 33;
    assert_eq!(parse(&b).unwrap_err(), DbError::InvalidMinPayloadFrac(33));
    let mut b = valid_header();
    b[23] = 0;
    assert_eq!(parse(&b).unwrap_err(), DbError::InvalidLeafPayloadFrac(0));
}

#[test]
fn rejects_schema_format_above_four() {
    let mut b = valid_header();
    b[47] = 5;
    assert_eq!(parse(&b).unwrap_err(), DbError::InvalidSchemaFormat(5));
}

#[test]
fn rejects_text_encoding() {
    let mut b = valid_header();
    b[59] = 4;
    assert_eq!(parse(&b).unwrap_err(), DbError::InvalidTextEncoding(4));
    b[59] = 0;
    assert_eq!(parse(&b).unwrap_err(), DbError::InvalidTextEncoding(0));
}

#[test]
fn rejects_vacuum_without_root_page() {
    let mut b = valid_header();
    b[55] = 0;
    b[67] = 1;
    assert_eq!(parse(&b).unwrap_err(), DbError::InvalidVacuumSettings(0, 1));
    b[55] = 2;
    assert!(parse(&b).is_ok());
}

#[test]
fn rejects_nonzero_reserved_bytes() {
    let mut b = valid_header();
    b[80] = 1;
    assert_eq!(parse(&b).unwrap_err(), DbError::InvalidReserved);
}

#[test]
fn rejects_small_usable_size() {
    let mut b = valid_header();
    b[20] = 33; // 512 - 33 = 479
    assert_eq!(parse(&b).unwrap_err(), DbError::InvalidUsableSize(479));
    b[20] = 32;
    assert_eq!(parse(&b).unwrap().usable_page_size, 480);
}

#[test]
fn short_input_is_unexpected_eof() {
    let b = valid_header();
    assert_eq!(parse(&b[..10]).unwrap_err(), DbError::UnexpectedEof);
    assert_eq!(parse(&b[..17]).unwrap_err(), DbError::UnexpectedEof);
    assert_eq!(parse(&b[..50]).unwrap_err(), DbError::UnexpectedEof);
    assert_eq!(parse(&b[..99]).unwrap_err(), DbError::UnexpectedEof);
    let mut bad = b[..10].to_vec();
    bad[0] = 0;
    assert_eq!(parse(&bad).unwrap_err(), DbError::UnexpectedEof);
}

#[test]
fn checks_come_in_reading_order() {
    let mut b = valid_header();
    b[21] = 1; // bad max fraction
    b[47] = 9; // bad schema format, read later
    assert_eq!(parse(&b).unwrap_err(), DbError::InvalidMaxPayloadFrac(1));
    let b2 = &valid_header()[..30];
    let mut b3 = b2.to_vec();
    b3[16] = 0x03;
    assert_eq!(parse(&b3).unwrap_err(), DbError::InvalidPageSize);
}

#[test]
fn page_sizes() {
    for p in [512u16, 1024, 2048, 4096, 8192, 16384, 32768] {
        assert!(is_valid_page_size(p));
    }
    for p in [0u16, 1, 256, 511, 513, 768, 3000, 32767, 65535] {
        assert!(!is_valid_page_size(p));
    }
}

#[test]
fn field_readers() {
    let b = valid_header();
    let mut r = ByteReader::new(&b);
    assert_eq!(read_magic(&mut r).unwrap(), b"SQLite format 3\0".to_vec());
    assert_eq!(read_page_size(&mut r), Ok(512));
    let frac = [64u8, 32, 32, 7];
    let mut r = ByteReader::new(&frac);
    assert_eq!(read_max_payload_frac(&mut r), Ok(64));
    assert_eq!(read_min_payload_frac(&mut r), Ok(32));
    assert_eq!(read_leaf_payload_frac(&mut r), Ok(32));
    assert_eq!(read_leaf_payload_frac(&mut r), Err(DbError::InvalidLeafPayloadFrac(7)));
    assert_eq!(read_leaf_payload_frac(&mut r), Err(DbError::UnexpectedEof));
}

#[test]
fn text_encodings() {
    assert_eq!(DBTextEncoding::try_from(1), Ok(DBTextEncoding::Utf8));
    assert_eq!(DBTextEncoding::try_from(2), Ok(DBTextEncoding::Utf16Le));
    assert_eq!(DBTextEncoding::try_from(3), Ok(DBTextEncoding::Utf16Be));
    assert_eq!(DBTextEncoding::try_from(7), Err(DbError::InvalidTextEncoding(7)));
}

#[test]
fn page_offsets() {
    assert_eq!(page_offset(512, 1), 0);
    assert_eq!(page_offset(512, 3), 1024);
    assert_eq!(page_offset(32768, u32::MAX), (u32::MAX as u64 - 1) * 32768);
}
