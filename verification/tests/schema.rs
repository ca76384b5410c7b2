use sqlite_viewer::bytes::read_varint;
use sqlite_viewer::error::DbError;
use sqlite_viewer::record::SqliteValue;
use sqlite_viewer::schema::{
    copy_strings, extract_schema_table, extract_table_map, extract_table_name_rowid_map,
    parse_master_schema_page, try_parse_master_schema_page,
};

/// The record of a schema row: type, name, table name, root page and sql.
fn schema_record(kind: &str, name: &str, root: u8, sql: &str) -> Vec<u8> {
    let text_code = |s: &str| (13 + 2 * s.len()) as u8;
    let mut rec = vec![6, text_code(kind), text_code(name), text_code(name), 1, text_code(sql)];
    rec.extend_from_slice(kind.as_bytes());
    rec.extend_from_slice(name.as_bytes());
    rec.extend_from_slice(name.as_bytes());
    rec.push(root);
    rec.extend_from_slice(sql.as_bytes());
    rec
}

/// Page 1 holding the given (rowid, record) leaf table cells.
fn schema_page(rows: &[(u8, Vec<u8>)]) -> Vec<u8> {
    let mut page = vec![0u8; 400];
    page[100] = 0x0d;
    page[104] = rows.len() as u8;
    let mut at = 200usize;
    for (i, (rowid, rec)) in rows.iter().enumerate() {
        page[108 + 2 * i] = (at >> 8) as u8;
        page[109 + 2 * i] = at as u8;
        page[at] = rec.len() as u8;
        page[at + 1] = *rowid;
        page[at + 2..at + 2 + rec.len()].copy_from_slice(rec);
        at += 2 + rec.len();
    }
    page
}

#[test]
fn later_row_of_same_name_replaces_entry() {
    let page = schema_page(&[
        (1, schema_record("table", "t", 2, "CREATE TABLE t(a)")),
        (2, schema_record("table", "u", 4, "CREATE TABLE u(c, d)")),
        (3, schema_record("table", "t", 3, "CREATE TABLE t(b)")),
    ]);
    let m = parse_master_schema_page(&page, 1, 512).unwrap();
    assert_eq!(*m.b_tree_pages(), vec![2, 4, 3]);
    assert_eq!(m.map().len(), 2);
    assert_eq!(m.map()[0].0, "t");
    assert_eq!(m.map()[0].1.rowid, 3);
    assert!(matches!(m.map()[0].1.rootpage, SqliteValue::Integer(3)));
    assert_eq!(m.map()[0].1.columns, vec!["b"]);
    assert_eq!(m.map()[1].0, "u");
    assert_eq!(m.map()[1].1.columns, vec!["c", "d"]);
    let items = extract_table_name_rowid_map(&m).unwrap();
    assert_ne!(items[0].name, items[1].name);
    assert_eq!(items.iter().map(|t| (t.name.as_str(), t.index, t.rowid)).collect::<Vec<_>>(), vec![("t", 0, 3), ("u", 1, 2)]);
    let map = extract_table_map(&m).unwrap();
    assert_eq!(map[&3], vec!["b"]);
    assert_eq!(map[&2], vec!["c", "d"]);
    assert!(!map.contains_key(&1));
}

#[test]
fn schema_row_with_few_columns_is_refused() {
    let rec = vec![3, 23, 15, b't', b'a', b'b', b'l', b'e', b'x'];
    let page = schema_page(&[(1, rec)]);
    assert!(try_parse_master_schema_page(&page, 1, 512).is_none());
}

#[test]
fn misplaced_column_list_is_refused() {
    let page = schema_page(&[(1, schema_record("table", "t", 2, "CREATE TABLE t)x("))]);
    assert!(try_parse_master_schema_page(&page, 1, 512).is_none());
}

#[test]
fn interior_schema_page_is_refused() {
    let mut page = schema_page(&[(1, schema_record("table", "t", 2, "CREATE TABLE t(a)"))]);
    page[100] = 0x05;
    page[108..112].copy_from_slice(&[0, 0, 0, 2]);
    page[112] = 0;
    page[113] = 200;
    assert!(try_parse_master_schema_page(&page, 1, 512).is_none());
}

#[test]
fn schema_page_errors() {
    let mut page = schema_page(&[]);
    page[100] = 0x00;
    assert_eq!(parse_master_schema_page(&page, 1, 512).unwrap_err(), DbError::InvalidPageType(0));
    let mut rec = schema_record("table", "t", 2, "CREATE TABLE t(a)");
    rec[4] = 10;
    let page = schema_page(&[(1, rec)]);
    assert_eq!(parse_master_schema_page(&page, 1, 512).unwrap_err(), DbError::InvalidSerialType(10));
    assert!(try_parse_master_schema_page(&[0u8; 50], 1, 512).is_none());
}

#[test]
fn non_text_names_and_roots_are_skipped() {
    // name is an integer and root page is NULL: nothing is recorded
    let rec = vec![6, 23, 1, 15, 0, 15, b't', b'a', b'b', b'l', b'e', 9, b'x', b'y'];
    let page = schema_page(&[(1, rec)]);
    let m = parse_master_schema_page(&page, 1, 512).unwrap();
    assert!(m.map().is_empty());
    assert!(m.b_tree_pages().is_empty());
}

#[test]
fn schema_table_columns() {
    let cols = vec![
        SqliteValue::Text("table".to_string()),
        SqliteValue::Text("t".to_string()),
        SqliteValue::Text("t".to_string()),
        SqliteValue::Integer(2),
        SqliteValue::Text("CREATE TABLE t(a)".to_string()),
        SqliteValue::Null,
    ];
    let t = extract_schema_table(&cols).unwrap();
    assert!(matches!(&t._type, SqliteValue::Text(s) if s == "table"));
    assert!(matches!(&t.name, SqliteValue::Text(s) if s == "t"));
    assert!(matches!(&t.tbl_name, SqliteValue::Text(s) if s == "t"));
    assert!(matches!(t.rootpage, SqliteValue::Integer(2)));
    assert!(matches!(&t.sql, SqliteValue::Text(s) if s == "CREATE TABLE t(a)"));
}

#[test]
fn string_lists_are_copied() {
    let v = vec!["a".to_string(), "bc".to_string()];
    assert_eq!(copy_strings(&v), v);
    assert!(copy_strings(&vec![]).is_empty());
}

#[test]
fn varint_ignores_following_bytes() {
    assert_eq!(read_varint(&[0x05], 0), read_varint(&[0x05, 0xff, 0x01], 0));
    assert_eq!(read_varint(&[0x81, 0x00], 0), read_varint(&[0x81, 0x00, 0xff, 0xff], 0));
}

#[test]
fn truncated_index_payload_on_schema_page() {
    // page 1: the b-tree header follows the file header
    let mut page = vec![0u8; 164];
    page[100] = 0x0a;
    page[104] = 1;
    page[109] = 161;
    page[161..164].copy_from_slice(&[0x05, 0x01, 0x02]);
    assert_eq!(
        try_parse_master_schema_page(&page, 1, 20).map(|r| r.err()),
        Some(Some(DbError::CellPayloadTruncated))
    );
    assert_eq!(parse_master_schema_page(&page, 1, 20).err(), Some(DbError::CellPayloadTruncated));
}
