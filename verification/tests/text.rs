use sqlite_viewer::record::SqliteValue;
use sqlite_viewer::text::{
    blob_to_string, columns_readable, extract_table_columns, int_to_string, is_whitespace,
    push_cell, push_dashes, to_ascii_uppercase, Rendered,
};

fn text(s: &str) -> SqliteValue {
    SqliteValue::Text(s.to_string())
}

fn shown(v: &SqliteValue) -> String {
    match v.to_str() {
        Rendered::Text(s) => s,
        Rendered::Real(_) => panic!("a real value"),
    }
}

#[test]
fn integers_in_decimal() {
    assert_eq!(int_to_string(0), "0");
    assert_eq!(int_to_string(7), "7");
    assert_eq!(int_to_string(-7), "-7");
    assert_eq!(int_to_string(300000), "300000");
    assert_eq!(int_to_string(i64::MAX), i64::MAX.to_string());
    assert_eq!(int_to_string(i64::MIN), i64::MIN.to_string());
}

#[test]
fn blobs_as_byte_lists() {
    assert_eq!(blob_to_string(&vec![]), "[]");
    assert_eq!(blob_to_string(&vec![1, 2, 255]), "[1, 2, 255]");
    assert_eq!(blob_to_string(&vec![0]), format!("{:?}", vec![0u8]));
}

#[test]
fn values_as_shown() {
    assert_eq!(shown(&SqliteValue::Null), "Null");
    assert_eq!(shown(&SqliteValue::Integer(-42)), "-42");
    assert_eq!(shown(&text("Zoë")), "Zoë");
    assert_eq!(shown(&SqliteValue::Blob(vec![16, 32])), "[16, 32]");
    match SqliteValue::Real(0x4004_0000_0000_0000).to_str() {
        Rendered::Real(bits) => assert_eq!(format!("{:e}", f64::from_bits(bits)), "2.5e0"),
        Rendered::Text(_) => panic!("a real value is left to the caller"),
    }
}

#[test]
fn whitespace_is_unicode_white_space() {
    for c in [' ', '\t', '\n', '\r', '\u{b}', '\u{c}', '\u{85}', '\u{a0}', '\u{2003}', '\u{3000}'] {
        assert!(is_whitespace(c));
        assert!(c.is_whitespace());
    }
    for c in ['a', '(', ',', '\u{200b}', 'é'] {
        assert!(!is_whitespace(c));
        assert!(!c.is_whitespace());
    }
}

#[test]
fn table_columns_from_create_statement() {
    let sql = text("CREATE TABLE people (id INTEGER PRIMARY KEY, name TEXT, age INT, score REAL, data BLOB)");
    assert_eq!(extract_table_columns(&sql).unwrap(), vec!["id", "name", "age", "score", "data"]);
}

#[test]
fn table_columns_skip_empty_entries_and_white_space() {
    let sql = text("CREATE TABLE t(\n  a int,\n\t b  ,  , c\n)");
    assert_eq!(extract_table_columns(&sql).unwrap(), vec!["a", "b", "c"]);
}

#[test]
fn table_columns_use_first_open_and_last_close() {
    let sql = text("CREATE TABLE t (x DECIMAL(10, 2), y TEXT)");
    assert_eq!(extract_table_columns(&sql).unwrap(), vec!["x", "2)", "y"]);
    let sql = text("CREATE INDEX idx_name ON people(name)");
    assert_eq!(extract_table_columns(&sql).unwrap(), vec!["name"]);
}

#[test]
fn table_columns_without_parentheses_or_text() {
    assert!(extract_table_columns(&text("CREATE TABLE t")).unwrap().is_empty());
    assert!(extract_table_columns(&text("CREATE TABLE t (a")).unwrap().is_empty());
    assert!(extract_table_columns(&text("()")).unwrap().is_empty());
    assert!(extract_table_columns(&SqliteValue::Integer(3)).unwrap().is_empty());
    assert!(extract_table_columns(&SqliteValue::Null).unwrap().is_empty());
}

#[test]
fn column_list_placement() {
    assert!(columns_readable(&text("t (a)")));
    assert!(columns_readable(&text("no list")));
    assert!(columns_readable(&SqliteValue::Integer(1)));
    assert!(!columns_readable(&text(") before (")));
}

#[test]
fn ascii_letters_upper_cased_only() {
    assert_eq!(to_ascii_uppercase("aZé_q9"), "AZé_Q9");
    assert_eq!(to_ascii_uppercase(""), "");
}

#[test]
fn cells_padded_to_width() {
    let mut out = String::from("|");
    push_cell(&mut out, "ab", 4);
    assert_eq!(out, "| ab   |");
    push_cell(&mut out, "long", 2);
    assert_eq!(out, "| ab   | long |");
    push_dashes(&mut out, 3);
    assert_eq!(out, "| ab   | long |---");
}
