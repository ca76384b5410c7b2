use sqlite_viewer::app_state::{parse_page, try_parse_page, AppState};
use sqlite_viewer::bytes::ByteReader;
use sqlite_viewer::cli::{KeyCode, Mode};
use sqlite_viewer::header::{page_offset, read_header};
use sqlite_viewer::record::SqliteValue;
use sqlite_viewer::schema::{
    extract_table_map, extract_table_name_rowid_map, parse_master_schema_page,
    try_parse_master_schema_page,
};
use sqlite_viewer::text::Rendered;

/// A database written by SQLite 3.40.1 with 512-byte pages: the table
/// `people (id INTEGER PRIMARY KEY, name TEXT, age INT, score REAL, data BLOB)`
/// on page 2 holding three rows, and the index `idx_name` on page 3.
const SEGMENTS: &[(usize, &str)] = &[
    (0, "53514c69746520666f726d617420330002000101004020200000000200000003"),
    (43, "0200000004"),
    (59, "01"),
    (95, "02002e63010d00000002014d00018e014d"),
    (333, "3f0206171d190157696e6465786964785f6e616d6570656f706c650343524541544520494e444558206964785f6e616d65204f4e2070656f706c65286e616d652970010717191901813b7461626c6570656f706c6570656f706c6502435245415445205441424c452070656f706c652028696420494e5445474552205052494d415259204b45592c206e616d6520544558542c2061676520494e542c2073636f7265205245414c2c206461746120424c4f42290d0000000301c80001e901dd01c8"),
    (968, "130306001503050c5a6fc3ab0493e00002540be4000a02060013010000426f62f91501060013010712416e6e1f40040000000000000102ff0a0000000301e80001f901f101e8"),
    (1512, "080315015a6fc3ab0307031301426f620206031309416e6e"),
];

fn database() -> Vec<u8> {
    let mut db = vec![0u8; 1536];
    for (offset, hex) in SEGMENTS {
        let bytes: Vec<u8> = (0..hex.len())
            .step_by(2)
            .map(|i| u8::from_str_radix(&hex[i..i + 2], 16).unwrap())
            .collect();
        db[*offset..*offset + bytes.len()].copy_from_slice(&bytes);
    }
    db
}

fn page(db: &[u8], page_size: u16, page_num: u32) -> Vec<u8> {
    let start = page_offset(page_size, page_num) as usize;
    db[start..start + page_size as usize].to_vec()
}

fn text_of(v: &SqliteValue) -> String {
    match v {
        SqliteValue::Text(t) => t.clone(),
        other => panic!("not text: {:?}", other),
    }
}

fn shown(r: &Rendered) -> String {
    match r {
        Rendered::Text(s) => s.clone(),
        Rendered::Real(bits) => format!("{:e}", f64::from_bits(*bits)),
    }
}

#[test]
fn reads_header_of_real_database() {
    let db = database();
    let mut r = ByteReader::new(&db);
    let h = read_header(&mut r).unwrap();
    assert_eq!(h.page_size, 512);
    assert_eq!(h.size_in_pages, 3);
    assert_eq!(h.usable_page_size, 512);
    assert_eq!(h.sqlite_version_num, 3040001);
    assert_eq!(r.position(), 100);
}

#[test]
fn reads_schema_page() {
    let db = database();
    let p1 = page(&db, 512, 1);
    let m = parse_master_schema_page(&p1, 1, 512).unwrap();
    assert_eq!(*m.b_tree_pages(), vec![2, 3]);
    assert_eq!(m.map().len(), 2);
    let (name, schema) = &m.map()[0];
    assert_eq!(name, "people");
    assert_eq!(text_of(&schema._type), "table");
    assert_eq!(text_of(&schema.name), "people");
    assert!(matches!(schema.rootpage, SqliteValue::Integer(2)));
    assert_eq!(schema.rowid, 1);
    assert_eq!(schema.columns, vec!["id", "name", "age", "score", "data"]);
    let (name, schema) = &m.map()[1];
    assert_eq!(name, "idx_name");
    assert_eq!(text_of(&schema._type), "index");
    assert!(matches!(schema.rootpage, SqliteValue::Integer(3)));
    assert_eq!(schema.rowid, 2);
    assert_eq!(schema.columns, vec!["name"]);
    assert!(try_parse_master_schema_page(&p1, 1, 512).is_some());
}

#[test]
fn table_menu_and_column_map() {
    let db = database();
    let m = parse_master_schema_page(&page(&db, 512, 1), 1, 512).unwrap();
    let items = extract_table_name_rowid_map(&m).unwrap();
    assert_eq!(items.len(), 2);
    assert_eq!((items[0].name.as_str(), items[0].index, items[0].rowid), ("people", 0, 1));
    assert_eq!((items[1].name.as_str(), items[1].index, items[1].rowid), ("idx_name", 1, 2));
    let map = extract_table_map(&m).unwrap();
    assert_eq!(map.len(), 2);
    assert_eq!(map[&1], vec!["id", "name", "age", "score", "data"]);
    assert_eq!(map[&2], vec!["name"]);
}

#[test]
fn reads_table_rows() {
    let db = database();
    let m = parse_master_schema_page(&page(&db, 512, 1), 1, 512).unwrap();
    let mut app = AppState::new(&m).unwrap();
    assert_eq!(app.cli_state.num_tables, 2);
    parse_page(&page(&db, 512, 2), 2, 512, &mut app).unwrap();
    parse_page(&page(&db, 512, 3), 3, 512, &mut app).unwrap();
    assert_eq!(app.rows.len(), 3);
    let rows: Vec<Vec<String>> =
        app.get_active_rows().iter().map(|r| r.iter().map(shown).collect()).collect();
    assert_eq!(rows[0], vec!["Null", "Ann", "31", "2.5e0", "[1, 2, 255]"]);
    assert_eq!(rows[1], vec!["Null", "Bob", "-7", "Null", "Null"]);
    assert_eq!(rows[2], vec!["Null", "Zoë", "300000", "10000000000", "[]"]);
}

#[test]
fn index_page_adds_no_rows() {
    let db = database();
    let m = parse_master_schema_page(&page(&db, 512, 1), 1, 512).unwrap();
    let mut app = AppState::new(&m).unwrap();
    assert_eq!(try_parse_page(&page(&db, 512, 3), 3, 512, &mut app), Some(Ok(())));
    assert!(app.rows.is_empty());
}

#[test]
fn browsing_the_database() {
    let db = database();
    let m = parse_master_schema_page(&page(&db, 512, 1), 1, 512).unwrap();
    let mut app = AppState::new(&m).unwrap();
    parse_page(&page(&db, 512, 2), 2, 512, &mut app).unwrap();
    assert_eq!(app.get_active_rowid(), Some(1));
    assert!(!app.on_key(KeyCode::Down));
    assert_eq!(app.cli_state.table_idx, 1);
    assert_eq!(app.active_table, Some(vec!["name".to_string()]));
    assert!(!app.on_key(KeyCode::Up));
    assert_eq!(app.active_table, Some(vec!["id", "name", "age", "score", "data"].iter().map(|s| s.to_string()).collect()));
    assert!(!app.on_key(KeyCode::Enter));
    assert_eq!(app.cli_state.mode, Mode::RowSelect);
    assert_eq!(app.row_strings.len(), 3);
    assert!(!app.on_key(KeyCode::Other));
    assert!(app.on_key(KeyCode::Esc));
}
