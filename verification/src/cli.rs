//! Keyboard navigation between the list of tables and the rows of one table.
use vstd::prelude::*;

verus! {

/// Which list the cursor moves in.
#[derive(Clone, Copy, Debug, PartialEq, Eq, Structural)]
pub enum Mode {
    TableSelect,
    RowSelect,
}

/// Cursor positions and list lengths of the browser.
#[derive(Debug, Clone, Copy)]
pub struct CliState {
    pub table_idx: usize,
    pub row_idx: usize,
    pub num_tables: usize,
    pub num_rows: usize,
    pub mode: Mode,
}

/// What the caller has to refresh after a key was handled.
#[derive(Clone, Copy, Debug, PartialEq, Eq, Structural)]
pub enum Signal {
    Exit,
    UpdateTable,
    UpdateRow,
}

/// The keys the browser reacts to; every other key is `Other`.
#[derive(Clone, Copy, Debug, PartialEq, Eq, Structural)]
pub enum KeyCode {
    Up,
    Down,
    Left,
    Right,
    Enter,
    Esc,
    Other,
}

/// The cursor of the list that the current mode selects.
pub open spec fn active_idx(s: CliState) -> usize {
    match s.mode {
        Mode::TableSelect => s.table_idx,
        Mode::RowSelect => s.row_idx,
    }
}

/// The length of the list that the current mode selects.
pub open spec fn active_limit(s: CliState) -> usize {
    match s.mode {
        Mode::TableSelect => s.num_tables,
        Mode::RowSelect => s.num_rows,
    }
}

/// The signal that asks for the list of the current mode to be refreshed.
pub open spec fn active_signal(s: CliState) -> Signal {
    match s.mode {
        Mode::TableSelect => Signal::UpdateTable,
        Mode::RowSelect => Signal::UpdateRow,
    }
}

/// `s` with the cursor of its active list moved to `v`.
pub open spec fn with_active_idx(s: CliState, v: usize) -> CliState {
    match s.mode {
        Mode::TableSelect => CliState { table_idx: v, ..s },
        Mode::RowSelect => CliState { row_idx: v, ..s },
    }
}

/// `s` in mode `m`.
pub open spec fn with_mode(s: CliState, m: Mode) -> CliState {
    CliState { mode: m, ..s }
}

/// Up: the active cursor moves one towards the start, and stops at 0.
pub open spec fn spec_up(s: CliState) -> (CliState, Option<Signal>) {
    let i = active_idx(s);
    (with_active_idx(s, if i > 0 { (i - 1) as usize } else { i }), Some(active_signal(s)))
}

/// Down: the active cursor moves one towards the end, and stops at the last entry.
pub open spec fn spec_down(s: CliState) -> (CliState, Option<Signal>) {
    let i = active_idx(s);
    (
        with_active_idx(s, if i < active_limit(s) - 1 { (i + 1) as usize } else { i }),
        Some(active_signal(s)),
    )
}

/// Left: from the rows back to the table list.
pub open spec fn spec_left(s: CliState) -> (CliState, Option<Signal>) {
    match s.mode {
        Mode::TableSelect => (s, None),
        Mode::RowSelect => (with_mode(s, Mode::TableSelect), Some(Signal::UpdateTable)),
    }
}

/// Right (and Enter): from the table list into its rows.
pub open spec fn spec_right(s: CliState) -> (CliState, Option<Signal>) {
    match s.mode {
        Mode::TableSelect => (with_mode(s, Mode::RowSelect), Some(Signal::UpdateRow)),
        Mode::RowSelect => (s, None),
    }
}

/// The state after a key and the signal it raises.
pub open spec fn spec_handle_key(s: CliState, key: KeyCode) -> (CliState, Option<Signal>) {
    match key {
        KeyCode::Up => spec_up(s),
        KeyCode::Down => spec_down(s),
        KeyCode::Enter => spec_right(s),
        KeyCode::Left => spec_left(s),
        KeyCode::Right => spec_right(s),
        KeyCode::Esc => (s, Some(Signal::Exit)),
        KeyCode::Other => (s, None),
    }
}

/// A key can be handled in `s`: Down needs a non-empty active list.
pub open spec fn key_allowed(s: CliState, key: KeyCode) -> bool {
    key == KeyCode::Down ==> active_limit(s) >= 1
}

/// Every cursor is 0 or points into its list.
pub open spec fn cursors_in_range(s: CliState) -> bool {
    &&& (s.table_idx == 0 || s.table_idx < s.num_tables)
    &&& (s.row_idx == 0 || s.row_idx < s.num_rows)
}

impl CliState {
    /// A browser at the start of the table list.
    pub fn new(num_tables: usize, num_rows: usize) -> (s: CliState)
        ensures
            s.table_idx == 0,
            s.row_idx == 0,
            s.num_tables == num_tables,
            s.num_rows == num_rows,
            s.mode == Mode::TableSelect,
    {
        CliState { table_idx: 0, row_idx: 0, num_tables, num_rows, mode: Mode::TableSelect }
    }

    pub fn table_idx(&self) -> (r: usize)
        ensures
            r == self.table_idx,
    {
        self.table_idx
    }

    pub fn row_idx(&self) -> (r: usize)
        ensures
            r == self.row_idx,
    {
        self.row_idx
    }

    pub fn num_tables(&self) -> (r: usize)
        ensures
            r == self.num_tables,
    {
        self.num_tables
    }

    pub fn num_rows(&self) -> (r: usize)
        ensures
            r == self.num_rows,
    {
        self.num_rows
    }

    pub fn mode(&self) -> (r: Mode)
        ensures
            r == self.mode,
    {
        self.mode
    }

    /// The length of the list that the current mode moves in.
    pub fn active_limit(&self) -> (r: usize)
        ensures
            r == active_limit(*self),
    {
        match self.mode {
            Mode::TableSelect => self.num_tables,
            Mode::RowSelect => self.num_rows,
        }
    }
}

struct Active<'a> {
    idx: &'a mut usize,
    limit: usize,
    signal: Signal,
}

fn active(state: &mut CliState) -> (a: Active<'_>)
    ensures
        *a.idx == active_idx(*old(state)),
        a.limit == active_limit(*old(state)),
        a.signal == active_signal(*old(state)),
        *final(state) == with_active_idx(*old(state), *final(a.idx)),
{
    match state.mode {
        Mode::TableSelect => Active {
            idx: &mut state.table_idx,
            limit: state.num_tables,
            signal: Signal::UpdateTable,
        },
        Mode::RowSelect => Active {
            idx: &mut state.row_idx,
            limit: state.num_rows,
            signal: Signal::UpdateRow,
        },
    }
}

/// Up: moves the active cursor one towards the start of its list.
pub fn handle_up(state: &mut CliState) -> (r: Option<Signal>)
    ensures
        (*final(state), r) == spec_up(*old(state)),
{
    let active = active(state);
    if *active.idx > 0 {
        *active.idx -= 1;
    }
    Some(active.signal)
}

/// Down: moves the active cursor one towards the end of its list.
pub fn handle_down(state: &mut CliState) -> (r: Option<Signal>)
    requires
        active_limit(*old(state)) >= 1,
    ensures
        (*final(state), r) == spec_down(*old(state)),
{
    let active = active(state);
    if *active.idx < active.limit - 1 {
        *active.idx += 1;
    }
    Some(active.signal)
}

/// Left: goes back from the rows to the table list.
pub fn handle_left(state: &mut CliState) -> (r: Option<Signal>)
    ensures
        (*final(state), r) == spec_left(*old(state)),
{
    match state.mode {
        Mode::TableSelect => None,
        Mode::RowSelect => {
            state.mode = Mode::TableSelect;
            Some(Signal::UpdateTable)
        },
    }
}

/// Right: goes from the table list into the rows of the selected table.
pub fn handle_right(state: &mut CliState) -> (r: Option<Signal>)
    ensures
        (*final(state), r) == spec_right(*old(state)),
{
    match state.mode {
        Mode::TableSelect => {
            state.mode = Mode::RowSelect;
            Some(Signal::UpdateRow)
        },
        Mode::RowSelect => None,
    }
}

/// Enter: the same as Right.
pub fn handle_enter(state: &mut CliState) -> (r: Option<Signal>)
    ensures
        (*final(state), r) == spec_right(*old(state)),
{
    match state.mode {
        Mode::TableSelect => {
            state.mode = Mode::RowSelect;
            Some(Signal::UpdateRow)
        },
        Mode::RowSelect => None,
    }
}

/// Moves the cursor or switches lists as `key` asks, and says what to refresh.
pub fn handle_key(state: &mut CliState, key: KeyCode) -> (r: Option<Signal>)
    requires
        key_allowed(*old(state), key),
    ensures
        (*final(state), r) == spec_handle_key(*old(state), key),
{
    match key {
        KeyCode::Up => handle_up(state),
        KeyCode::Down => handle_down(state),
        KeyCode::Enter => handle_enter(state),
        KeyCode::Left => handle_left(state),
        KeyCode::Right => handle_right(state),
        KeyCode::Esc => Some(Signal::Exit),
        _ => None,
    }
}

/// No key moves a cursor out of its list: a cursor that is 0 or inside its
/// list stays so.
pub proof fn lemma_keys_keep_cursors_in_range(s: CliState, key: KeyCode)
    requires
        cursors_in_range(s),
        key_allowed(s, key),
    ensures
        cursors_in_range(spec_handle_key(s, key).0),
{
}

/// Both cursors strictly inside their lists stay strictly inside them after
/// any key.
pub proof fn lemma_keys_keep_cursors_inside(s: CliState, key: KeyCode)
    requires
        s.table_idx < s.num_tables,
        s.row_idx < s.num_rows,
    ensures
        spec_handle_key(s, key).0.table_idx < spec_handle_key(s, key).0.num_tables,
        spec_handle_key(s, key).0.row_idx < spec_handle_key(s, key).0.num_rows,
{
}

/// No key changes the number of tables or rows.
pub proof fn lemma_keys_keep_list_lengths(s: CliState, key: KeyCode)
    ensures
        spec_handle_key(s, key).0.num_tables == s.num_tables,
        spec_handle_key(s, key).0.num_rows == s.num_rows,
{
}

/// Enter does exactly what Right does.
pub proof fn lemma_enter_is_right(s: CliState)
    ensures
        spec_handle_key(s, KeyCode::Enter) == spec_handle_key(s, KeyCode::Right),
{
}

/// Going into the rows of a table and back out restores the browser state.
pub proof fn lemma_right_then_left(s: CliState)
    requires
        s.mode == Mode::TableSelect,
    ensures
        spec_handle_key(spec_handle_key(s, KeyCode::Right).0, KeyCode::Left).0 == s,
        spec_handle_key(spec_handle_key(s, KeyCode::Right).0, KeyCode::Left).1 == Some(
            Signal::UpdateTable,
        ),
{
}

/// Down undoes Up wherever Up moved the cursor.
pub proof fn lemma_up_then_down(s: CliState)
    requires
        0 < active_idx(s) < active_limit(s),
    ensures
        spec_handle_key(spec_handle_key(s, KeyCode::Up).0, KeyCode::Down).0 == s,
{
}

/// Up undoes Down wherever Down moved the cursor, and raises the same signal.
pub proof fn lemma_down_then_up(s: CliState)
    requires
        active_idx(s) + 1 < active_limit(s),
    ensures
        spec_handle_key(spec_handle_key(s, KeyCode::Down).0, KeyCode::Up).0 == s,
        spec_handle_key(spec_handle_key(s, KeyCode::Down).0, KeyCode::Up).1 == spec_handle_key(
            s,
            KeyCode::Down,
        ).1,
{
}

/// Escape asks to exit and leaves the state alone; keys without a binding do
/// nothing.
pub proof fn lemma_esc_and_unbound_keys(s: CliState)
    ensures
        spec_handle_key(s, KeyCode::Esc) == (s, Some(Signal::Exit)),
        spec_handle_key(s, KeyCode::Other) == (s, Option::<Signal>::None),
{
}

/// A refresh signal always names the list that is active after the key.
pub proof fn lemma_signal_matches_mode(s: CliState, key: KeyCode)
    ensures
        spec_handle_key(s, key).1 == Some(Signal::UpdateTable) ==> spec_handle_key(s, key).0.mode
            == Mode::TableSelect,
        spec_handle_key(s, key).1 == Some(Signal::UpdateRow) ==> spec_handle_key(s, key).0.mode
            == Mode::RowSelect,
{
}

} // verus!
