use sqlite_viewer::cli::{
    handle_down, handle_enter, handle_key, handle_left, handle_right, handle_up, CliState, KeyCode,
    Mode, Signal,
};

fn state(table_idx: usize, row_idx: usize, num_tables: usize, num_rows: usize, mode: Mode) -> CliState {
    CliState { table_idx, row_idx, num_tables, num_rows, mode }
}

#[test]
fn new_state_starts_on_first_table() {
    let s = CliState::new(3, 0);
    assert_eq!(s.table_idx(), 0);
    assert_eq!(s.row_idx(), 0);
    assert_eq!(s.num_tables(), 3);
    assert_eq!(s.num_rows(), 0);
    assert_eq!(s.mode(), Mode::TableSelect);
    assert_eq!(s.active_limit(), 3);
}

#[test]
fn up_moves_table_cursor_and_stops_at_zero() {
    let mut s = state(2, 0, 3, 0, Mode::TableSelect);
    assert_eq!(handle_key(&mut s, KeyCode::Up), Some(Signal::UpdateTable));
    assert_eq!(s.table_idx, 1);
    assert_eq!(handle_key(&mut s, KeyCode::Up), Some(Signal::UpdateTable));
    assert_eq!(s.table_idx, 0);
    assert_eq!(handle_key(&mut s, KeyCode::Up), Some(Signal::UpdateTable));
    assert_eq!(s.table_idx, 0);
}

#[test]
fn down_moves_table_cursor_and_stops_at_last() {
    let mut s = state(0, 0, 2, 0, Mode::TableSelect);
    assert_eq!(handle_key(&mut s, KeyCode::Down), Some(Signal::UpdateTable));
    assert_eq!(s.table_idx, 1);
    assert_eq!(handle_key(&mut s, KeyCode::Down), Some(Signal::UpdateTable));
    assert_eq!(s.table_idx, 1);
}

#[test]
fn row_mode_moves_row_cursor_only() {
    let mut s = state(1, 0, 3, 4, Mode::RowSelect);
    assert_eq!(handle_key(&mut s, KeyCode::Down), Some(Signal::UpdateRow));
    assert_eq!(handle_key(&mut s, KeyCode::Down), Some(Signal::UpdateRow));
    assert_eq!(s.row_idx, 2);
    assert_eq!(s.table_idx, 1);
    assert_eq!(handle_key(&mut s, KeyCode::Up), Some(Signal::UpdateRow));
    assert_eq!(s.row_idx, 1);
    assert_eq!(s.table_idx, 1);
}

#[test]
fn right_and_enter_open_rows_left_returns() {
    let mut s = state(1, 0, 3, 0, Mode::TableSelect);
    assert_eq!(handle_key(&mut s, KeyCode::Right), Some(Signal::UpdateRow));
    assert_eq!(s.mode, Mode::RowSelect);
    assert_eq!(handle_key(&mut s, KeyCode::Right), None);
    assert_eq!(handle_key(&mut s, KeyCode::Enter), None);
    assert_eq!(s.mode, Mode::RowSelect);
    assert_eq!(handle_key(&mut s, KeyCode::Left), Some(Signal::UpdateTable));
    assert_eq!(s.mode, Mode::TableSelect);
    assert_eq!(handle_key(&mut s, KeyCode::Left), None);
    assert_eq!(s.mode, Mode::TableSelect);
    assert_eq!(handle_key(&mut s, KeyCode::Enter), Some(Signal::UpdateRow));
    assert_eq!(s.mode, Mode::RowSelect);
    assert_eq!(s.table_idx, 1);
}

#[test]
fn esc_exits_and_other_keys_do_nothing() {
    let mut s = state(1, 2, 3, 5, Mode::RowSelect);
    assert_eq!(handle_key(&mut s, KeyCode::Esc), Some(Signal::Exit));
    assert_eq!(handle_key(&mut s, KeyCode::Other), None);
    assert_eq!((s.table_idx, s.row_idx, s.num_tables, s.num_rows, s.mode), (1, 2, 3, 5, Mode::RowSelect));
}

#[test]
fn right_then_left_restores_state() {
    let start = state(2, 3, 4, 6, Mode::TableSelect);
    let mut s = start;
    handle_key(&mut s, KeyCode::Right);
    assert_eq!(handle_key(&mut s, KeyCode::Left), Some(Signal::UpdateTable));
    assert_eq!((s.table_idx, s.row_idx, s.num_tables, s.num_rows, s.mode), (2, 3, 4, 6, Mode::TableSelect));
}

#[test]
fn up_then_down_and_down_then_up_restore_cursor() {
    let mut s = state(2, 0, 5, 0, Mode::TableSelect);
    handle_key(&mut s, KeyCode::Up);
    handle_key(&mut s, KeyCode::Down);
    assert_eq!(s.table_idx, 2);
    handle_key(&mut s, KeyCode::Down);
    handle_key(&mut s, KeyCode::Up);
    assert_eq!(s.table_idx, 2);
}

#[test]
fn cursors_stay_in_range_over_a_key_sequence() {
    let mut s = state(0, 0, 3, 2, Mode::TableSelect);
    let keys = [
        KeyCode::Down, KeyCode::Down, KeyCode::Down, KeyCode::Enter, KeyCode::Down,
        KeyCode::Down, KeyCode::Down, KeyCode::Up, KeyCode::Left, KeyCode::Up, KeyCode::Other,
    ];
    for k in keys {
        handle_key(&mut s, k);
        assert!(s.table_idx == 0 || s.table_idx < s.num_tables);
        assert!(s.row_idx == 0 || s.row_idx < s.num_rows);
        assert_eq!((s.num_tables, s.num_rows), (3, 2));
    }
    assert_eq!((s.table_idx, s.row_idx, s.mode), (1, 0, Mode::TableSelect));
}

#[test]
fn down_then_up_restores_state_and_signal() {
    let old = state(1, 3, 4, 6, Mode::RowSelect);
    let mut s = old;
    let down = handle_down(&mut s);
    assert_eq!(s.row_idx, 4);
    let up = handle_up(&mut s);
    assert_eq!(down, up);
    assert_eq!(up, Some(Signal::UpdateRow));
    assert_eq!((s.table_idx, s.row_idx, s.num_tables, s.num_rows, s.mode), (1, 3, 4, 6, Mode::RowSelect));
}

#[test]
fn enter_equals_right() {
    for mode in [Mode::TableSelect, Mode::RowSelect] {
        let mut a = state(1, 2, 3, 4, mode);
        let mut b = a;
        assert_eq!(handle_enter(&mut a), handle_right(&mut b));
        assert_eq!((a.table_idx, a.row_idx, a.mode), (b.table_idx, b.row_idx, b.mode));
    }
}

#[test]
fn handlers_keep_cursors_strictly_inside() {
    let mut s = state(2, 1, 3, 2, Mode::TableSelect);
    assert_eq!(handle_down(&mut s), Some(Signal::UpdateTable));
    assert_eq!(s.table_idx, 2);
    assert_eq!(handle_right(&mut s), Some(Signal::UpdateRow));
    assert_eq!(handle_down(&mut s), Some(Signal::UpdateRow));
    assert_eq!(s.row_idx, 1);
    assert_eq!(handle_left(&mut s), Some(Signal::UpdateTable));
    assert_eq!(handle_left(&mut s), None);
    assert!(s.table_idx < s.num_tables && s.row_idx < s.num_rows);
}
