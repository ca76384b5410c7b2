use std::collections::HashMap;

use sqlite_viewer::app_state::{
    column_widths, menu_lines, parse_page, table_lines, try_parse_page, AppState,
};
use sqlite_viewer::cli::{CliState, KeyCode, Mode};
use sqlite_viewer::error::DbError;
use sqlite_viewer::record::SqliteValue;
use sqlite_viewer::schema::TableUISelect;
use sqlite_viewer::text::Rendered;

fn empty_app() -> AppState {
    AppState {
        cli_state: CliState::new(0, 0),
        items: Vec::new(),
        active_table: None,
        map: HashMap::new(),
        rows: Vec::new(),
        row_strings: Vec::new(),
    }
}

/// A leaf table page (not page 1) whose cells start at the given offsets.
fn leaf_table_page(cells: &[(usize, &[u8])]) -> Vec<u8> {
    let mut page = vec![0u8; 64];
    page[0] = 0x0d;
    page[4] = cells.len() as u8;
    for (i, (at, bytes)) in cells.iter().enumerate() {
        page[8 + 2 * i] = 0;
        page[9 + 2 * i] = *at as u8;
        page[*at..*at + bytes.len()].copy_from_slice(bytes);
    }
    page
}

#[test]
fn rows_before_a_failing_cell_stay() {
    let page = leaf_table_page(&[(20, &[0x03, 0x01, 0x02, 0x01, 0x05]), (40, &[0x03, 0x02, 0x02, 0x0a, 0x00])]);
    let mut app = empty_app();
    assert_eq!(parse_page(&page, 2, 512, &mut app), Err(DbError::InvalidSerialType(10)));
    assert_eq!(app.rows.len(), 1);
    assert!(matches!(app.rows[0][0], SqliteValue::Integer(5)));
}

#[test]
fn bad_page_header_adds_nothing() {
    let mut page = leaf_table_page(&[]);
    page[0] = 0x01;
    let mut app = empty_app();
    assert_eq!(parse_page(&page, 2, 512, &mut app), Err(DbError::InvalidPageType(1)));
    assert!(app.rows.is_empty());
}

#[test]
fn page_one_header_follows_file_header() {
    let mut page = vec![0u8; 160];
    page[100] = 0x0d;
    page[104] = 1;
    page[109] = 140;
    page[140..145].copy_from_slice(&[0x03, 0x09, 0x02, 0x09, 0xee]);
    let mut app = empty_app();
    parse_page(&page, 1, 512, &mut app).unwrap();
    assert_eq!(app.rows.len(), 1);
    assert!(matches!(app.rows[0][0], SqliteValue::Integer(1)));
}

#[test]
fn interior_pages_are_refused() {
    let mut page = leaf_table_page(&[(20, &[0x03, 0x01, 0x02, 0x01, 0x05])]);
    page[0] = 0x05;
    page[8..12].copy_from_slice(&[0, 0, 0, 9]);
    page[12] = 0;
    page[13] = 20;
    let mut app = empty_app();
    assert_eq!(try_parse_page(&page, 2, 512, &mut app), None);
    assert!(app.rows.is_empty());
    // without cells an interior page reads fine
    page[4] = 0;
    assert_eq!(try_parse_page(&page, 2, 512, &mut app), Some(Ok(())));
}

#[test]
fn cell_pointer_outside_page_is_refused() {
    let mut page = leaf_table_page(&[]);
    page[4] = 1;
    page[8] = 0x01;
    page[9] = 0x00;
    let mut app = empty_app();
    assert_eq!(try_parse_page(&page, 2, 512, &mut app), None);
}

#[test]
fn active_table_follows_cursor() {
    let mut app = empty_app();
    app.items = vec![
        TableUISelect { name: "a".to_string(), index: 0, rowid: 7 },
        TableUISelect { name: "b".to_string(), index: 1, rowid: 9 },
    ];
    app.map.insert(7, vec!["x".to_string()]);
    app.cli_state = CliState::new(2, 0);
    assert_eq!(app.get_active_rowid(), Some(7));
    assert_eq!(app.get_active_table(), Some(vec!["x".to_string()]));
    app.on_key(KeyCode::Down);
    assert_eq!(app.get_active_rowid(), Some(9));
    assert_eq!(app.get_active_table(), None);
    assert_eq!(app.active_table, None);
    app.cli_state.table_idx = 5;
    assert_eq!(app.get_active_rowid(), None);
}

#[test]
fn rows_are_rendered_on_entering_a_table() {
    let mut app = empty_app();
    app.rows = vec![
        vec![SqliteValue::Integer(1), SqliteValue::Real(0x3ff0_0000_0000_0000)],
        vec![SqliteValue::Blob(vec![7]), SqliteValue::Null],
    ];
    app.cli_state = CliState::new(1, 0);
    assert!(!app.on_key(KeyCode::Right));
    assert_eq!(app.cli_state.mode, Mode::RowSelect);
    assert_eq!(app.row_strings.len(), 2);
    assert!(matches!(&app.row_strings[0][0], Rendered::Text(s) if s == "1"));
    assert!(matches!(app.row_strings[0][1], Rendered::Real(0x3ff0_0000_0000_0000)));
    assert!(matches!(&app.row_strings[1][0], Rendered::Text(s) if s == "[7]"));
    assert!(matches!(&app.row_strings[1][1], Rendered::Text(s) if s == "Null"));
}

#[test]
fn widths_cover_headers_and_cells() {
    let headers = vec!["id".to_string(), "name".to_string(), "x".to_string()];
    let rows = vec![
        vec!["12345".to_string(), "Al".to_string()],
        vec!["1".to_string(), "Zoë".to_string(), "".to_string()],
    ];
    assert_eq!(column_widths(&headers, &rows), vec![5, 4, 1]);
    let rows = vec![vec!["a".to_string(), "longer name".to_string(), "yz".to_string()]];
    assert_eq!(column_widths(&headers, &rows), vec![2, 11, 2]);
    assert_eq!(column_widths(&headers, &[]), vec![2, 4, 1]);
}

#[test]
fn truncated_index_payload_reported_with_small_usable_size() {
    // a leaf index cell at the very end of the page declares 5 payload bytes
    // and holds 2; usable size 20 is too small for the overflow rule
    let mut page = vec![0u8; 64];
    page[0] = 0x0a;
    page[4] = 1;
    page[9] = 61;
    page[61..64].copy_from_slice(&[0x05, 0x01, 0x02]);
    let mut app = empty_app();
    assert_eq!(try_parse_page(&page, 2, 20, &mut app), Some(Err(DbError::CellPayloadTruncated)));
    assert_eq!(parse_page(&page, 2, 20, &mut app), Err(DbError::CellPayloadTruncated));
    assert!(app.rows.is_empty());
    // a payload that fits needs a usable size of at least 35
    page[61] = 0x02;
    assert_eq!(try_parse_page(&page, 2, 20, &mut app), None);
}

#[test]
fn table_lines_pad_mark_and_uppercase() {
    let headers = vec!["id".to_string(), "name".to_string()];
    let rows = vec![
        vec!["1".to_string(), "alice".to_string()],
        vec!["22".to_string(), "bo".to_string()],
    ];
    let lines = table_lines(&headers, &rows, 1);
    assert_eq!(
        lines,
        vec![
            "  | ID | NAME  |".to_string(),
            "  | -- | ----- |".to_string(),
            "  | 1  | alice |".to_string(),
            "> | 22 | bo    |".to_string(),
        ]
    );
}

#[test]
fn table_lines_short_rows_and_wide_chars() {
    // widths count bytes, padding counts characters
    let headers = vec!["é".to_string(), "b".to_string()];
    let rows = vec![vec!["x".to_string()]];
    let lines = table_lines(&headers, &rows, 5);
    assert_eq!(lines[0], "  | é  | B |");
    assert_eq!(lines[1], "  | -- | - |");
    assert_eq!(lines[2], "  | x  |");
    assert_eq!(table_lines(&headers, &[], 0).len(), 2);
}

#[test]
fn menu_marks_the_entry_under_the_cursor() {
    let items = vec![
        TableUISelect { name: "users".to_string(), index: 0, rowid: 2 },
        TableUISelect { name: "orders".to_string(), index: 1, rowid: 3 },
    ];
    let lines = menu_lines(&items, 1);
    assert_eq!(lines.len(), 2);
    assert_eq!((lines[0].row, lines[0].text.as_str(), lines[0].selected), (0, "  users", false));
    assert_eq!((lines[1].row, lines[1].text.as_str(), lines[1].selected), (1, "> orders", true));
    assert!(menu_lines(&items, 7).iter().all(|l| !l.selected && l.text.starts_with("  ")));
    assert!(menu_lines(&[], 0).is_empty());
}
