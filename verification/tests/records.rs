use sqlite_viewer::error::DbError;
use sqlite_viewer::page::{
    parse_interior_index_cell, parse_interior_table_cell, parse_leaf_index_cell,
    parse_leaf_table_cell, parse_page_header, Cell, PageType,
};
use sqlite_viewer::record::{
    decode_payload_values, parse_payload, try_parse_payload, SerialType, SqliteValue,
};

#[test]
fn page_types() {
    assert_eq!(PageType::try_from(0x02).unwrap(), PageType::InteriorIndex);
    assert_eq!(PageType::try_from(0x05).unwrap(), PageType::InteriorTable);
    assert_eq!(PageType::try_from(0x0a).unwrap(), PageType::LeafIndex);
    assert_eq!(PageType::try_from(0x0d).unwrap(), PageType::LeafTable);
    assert_eq!(PageType::try_from(0x07).unwrap_err().0, 0x07);
    assert!(PageType::InteriorIndex.is_interior());
    assert!(PageType::InteriorTable.is_interior());
    assert!(!PageType::LeafIndex.is_interior());
    assert!(!PageType::LeafTable.is_interior());
}

#[test]
fn leaf_page_header() {
    let page = [0x0d, 0x00, 0x00, 0x00, 0x03, 0x01, 0xc8, 0x00, 0x01, 0xe9];
    let h = parse_page_header(&page, 2, 0).unwrap();
    assert_eq!(h.page_num, 2);
    assert_eq!(h.page_type, PageType::LeafTable);
    assert_eq!(h.first_free_block, 0);
    assert_eq!(h.num_cells_on_page, 3);
    assert_eq!(h.start_cell_content, 0x01c8);
    assert_eq!(h.frag_free_bytes, 0);
    assert_eq!(h.rightmost_pointer, None);
    assert_eq!(h.size, 8);
}

#[test]
fn interior_page_header_at_offset() {
    let mut page = vec![0u8; 3];
    page.extend_from_slice(&[0x05, 0x00, 0x10, 0x00, 0x02, 0x01, 0x00, 0x04, 0x00, 0x00, 0x00, 0x07]);
    let h = parse_page_header(&page, 9, 3).unwrap();
    assert_eq!(h.page_type, PageType::InteriorTable);
    assert_eq!(h.first_free_block, 0x10);
    assert_eq!(h.num_cells_on_page, 2);
    assert_eq!(h.start_cell_content, 0x0100);
    assert_eq!(h.frag_free_bytes, 4);
    assert_eq!(h.rightmost_pointer, Some(7));
    assert_eq!(h.size, 12);
}

#[test]
fn page_header_errors() {
    assert_eq!(parse_page_header(&[0x04, 0, 0, 0, 0, 0, 0, 0], 1, 0).unwrap_err(), DbError::InvalidPageType(4));
    assert_eq!(parse_page_header(&[0x0d, 0, 0, 0], 1, 0).unwrap_err(), DbError::PageTooShort);
    assert_eq!(
        parse_page_header(&[0x02, 0, 0, 0, 0, 0, 0, 0, 0, 0], 1, 0).unwrap_err(),
        DbError::PageTooShort
    );
}

#[test]
fn leaf_table_cell_splits_payload() {
    let cell = [0x03, 0x07, 0x02, 0x01, 0x2a, 0xee, 0xee];
    match parse_leaf_table_cell(&cell).unwrap() {
        Cell::LeafTable { rowid, payload } => {
            assert_eq!(rowid, 7);
            assert_eq!(payload, &[0x02, 0x01, 0x2a]);
        }
        _ => panic!("wrong cell kind"),
    }
}

#[test]
fn leaf_table_cell_too_large_payload() {
    let cell = [0x05, 0x01, 0x02, 0x01];
    assert_eq!(parse_leaf_table_cell(&cell).unwrap_err(), DbError::PayloadLargerThanCell);
}

#[test]
fn leaf_index_cell_small_payload() {
    let cell = [0x03, 0x02, 0x15, 0x01, 0x99];
    match parse_leaf_index_cell(&cell, 512).unwrap() {
        Cell::LeafIndex { payload, first_overflow_page } => {
            assert_eq!(payload, &[0x02, 0x15, 0x01]);
            assert_eq!(first_overflow_page, None);
        }
        _ => panic!("wrong cell kind"),
    }
}

#[test]
fn leaf_index_cell_overflow_page() {
    // usable size 40: payloads above 5 bytes name an overflow page
    let cell = [0x06, 1, 2, 3, 4, 5, 6, 0x00, 0x00, 0x01, 0x02];
    match parse_leaf_index_cell(&cell, 40).unwrap() {
        Cell::LeafIndex { payload, first_overflow_page } => {
            assert_eq!(payload, &[1, 2, 3, 4, 5, 6]);
            assert_eq!(first_overflow_page, Some(0x0102));
        }
        _ => panic!("wrong cell kind"),
    }
    assert_eq!(parse_leaf_index_cell(&cell[..9], 40).unwrap_err(), DbError::PageTooShort);
    assert_eq!(parse_leaf_index_cell(&cell[..5], 40).unwrap_err(), DbError::CellPayloadTruncated);
}

#[test]
fn interior_cells_are_placeholders() {
    match parse_interior_index_cell(&[1, 2, 3]).unwrap() {
        Cell::InteriorIndex { left_child_page, key } => {
            assert_eq!(left_child_page, 0);
            assert_eq!(key, vec![0, 1, 2]);
        }
        _ => panic!("wrong cell kind"),
    }
    match parse_interior_table_cell(&[1, 2, 3]).unwrap() {
        Cell::InteriorTable { left_child_page, key } => {
            assert_eq!(left_child_page, 0);
            assert_eq!(key, 0);
        }
        _ => panic!("wrong cell kind"),
    }
}

#[test]
fn serial_type_codes() {
    let expected = [
        SerialType::Null, SerialType::I8, SerialType::I16, SerialType::I24, SerialType::I32,
        SerialType::I48, SerialType::I64, SerialType::F64, SerialType::Int0, SerialType::Int1,
    ];
    for (code, t) in expected.iter().enumerate() {
        assert_eq!(SerialType::try_from(code as u64).unwrap(), *t);
    }
    assert_eq!(SerialType::try_from(10).unwrap_err(), DbError::InvalidSerialType(10));
    assert_eq!(SerialType::try_from(11).unwrap_err(), DbError::InvalidSerialType(11));
    assert_eq!(SerialType::try_from(12).unwrap(), SerialType::Bytes(0));
    assert_eq!(SerialType::try_from(18).unwrap(), SerialType::Bytes(3));
    assert_eq!(SerialType::try_from(13).unwrap(), SerialType::Text(0));
    assert_eq!(SerialType::try_from(187).unwrap(), SerialType::Text(87));
}

fn int_value(v: &SqliteValue) -> i64 {
    match v {
        SqliteValue::Integer(i) => *i,
        other => panic!("not an integer: {:?}", other),
    }
}

#[test]
fn decodes_integer_widths() {
    let body = [
        0xf9, // I8 -7
        0x80, 0x00, // I16 -32768
        0xff, 0xff, 0xff, // I24, not sign-extended
        0xff, 0xff, 0xff, 0xfe, // I32 -2
        0xff, 0xff, 0xff, 0xff, 0xff, 0xff, // I48, not sign-extended
        0x80, 0, 0, 0, 0, 0, 0, 0, // I64 min
        0x40, 0x04, 0, 0, 0, 0, 0, 0, // F64 2.5
    ];
    let types = [
        SerialType::I8, SerialType::I16, SerialType::I24, SerialType::I32, SerialType::I48,
        SerialType::I64, SerialType::F64, SerialType::Int0, SerialType::Int1, SerialType::Null,
    ];
    let vals = decode_payload_values(&body, &types, 0).unwrap();
    assert_eq!(vals.len(), 10);
    assert_eq!(int_value(&vals[0]), -7);
    assert_eq!(int_value(&vals[1]), -32768);
    assert_eq!(int_value(&vals[2]), 0xff_ffff);
    assert_eq!(int_value(&vals[3]), -2);
    assert_eq!(int_value(&vals[4]), 0xffff_ffff_ffff);
    assert_eq!(int_value(&vals[5]), i64::MIN);
    match vals[6] {
        SqliteValue::Real(bits) => assert_eq!(f64::from_bits(bits), 2.5),
        _ => panic!("not a real"),
    }
    assert_eq!(int_value(&vals[7]), 0);
    assert_eq!(int_value(&vals[8]), 1);
    assert!(matches!(vals[9], SqliteValue::Null));
}

#[test]
fn decodes_text_and_blob() {
    let body = [0xaa, 0x5a, 0x6f, 0xc3, 0xab, 0x01, 0x02, 0xff, 0xc3, 0x28];
    let types = [SerialType::Text(4), SerialType::Bytes(3), SerialType::Text(2), SerialType::Bytes(0)];
    let vals = decode_payload_values(&body, &types, 1).unwrap();
    match &vals[0] {
        SqliteValue::Text(t) => assert_eq!(t, "Zoë"),
        _ => panic!("not text"),
    }
    match &vals[1] {
        SqliteValue::Blob(b) => assert_eq!(b, &vec![1, 2, 255]),
        _ => panic!("not a blob"),
    }
    match &vals[2] {
        SqliteValue::Text(t) => assert_eq!(t, "<invalid utf8>"),
        _ => panic!("not text"),
    }
    match &vals[3] {
        SqliteValue::Blob(b) => assert!(b.is_empty()),
        _ => panic!("not a blob"),
    }
}

#[test]
fn decodes_null_columns_past_end() {
    let vals = decode_payload_values(&[1, 2], &[SerialType::Null, SerialType::Int1], 10).unwrap();
    assert_eq!(vals.len(), 2);
    assert!(matches!(vals[0], SqliteValue::Null));
    assert_eq!(int_value(&vals[1]), 1);
}

#[test]
fn parses_record() {
    // header length 6: NULL, text(3), I8, F64, blob(3)
    let rec = [
        0x06, 0x00, 0x13, 0x01, 0x07, 0x12, 0x41, 0x6e, 0x6e, 0x1f, 0x40, 0x04, 0, 0, 0, 0, 0, 0,
        0x01, 0x02, 0xff,
    ];
    let p = parse_payload(&rec).unwrap();
    assert_eq!(p.columns.len(), 5);
    assert!(matches!(p.columns[0], SqliteValue::Null));
    match &p.columns[1] {
        SqliteValue::Text(t) => assert_eq!(t, "Ann"),
        _ => panic!("not text"),
    }
    assert_eq!(int_value(&p.columns[2]), 31);
    assert!(matches!(p.columns[3], SqliteValue::Real(0x4004_0000_0000_0000)));
    match &p.columns[4] {
        SqliteValue::Blob(b) => assert_eq!(b, &vec![1, 2, 255]),
        _ => panic!("not a blob"),
    }
}

#[test]
fn record_with_reserved_serial_type() {
    let rec = [0x03, 0x01, 0x0a, 0x05];
    assert_eq!(parse_payload(&rec).unwrap_err(), DbError::InvalidSerialType(10));
    assert!(matches!(try_parse_payload(&rec), Some(Err(DbError::InvalidSerialType(10)))));
}

#[test]
fn record_that_cannot_be_read_is_refused() {
    // header length 9, but the record has 3 bytes: reading would never end
    assert!(try_parse_payload(&[0x09, 0x01, 0x01]).is_none());
    // the body is shorter than the I32 value it declares
    assert!(try_parse_payload(&[0x02, 0x04, 0x00, 0x01]).is_none());
}

#[test]
fn empty_record() {
    let p = parse_payload(&[0x01]).unwrap();
    assert!(p.columns.is_empty());
    let p = parse_payload(&[]).unwrap();
    assert!(p.columns.is_empty());
}

#[test]
fn leaf_index_cell_truncated_with_small_usable_size() {
    let cell = [0x05, 0x01, 0x02];
    assert_eq!(parse_leaf_index_cell(&cell, 20).unwrap_err(), DbError::CellPayloadTruncated);
}
