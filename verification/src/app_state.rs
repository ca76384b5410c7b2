//! The browser: the table menu, the rows read from the tables' pages, and
//! what a key press changes.
use std::collections::HashMap;

use vstd::prelude::*;
use vstd::utf8::encode_utf8;

use crate::cli::{handle_key, key_allowed, spec_handle_key, CliState, KeyCode, Mode, Signal};
use crate::error::DbError;
use crate::page::{
    cell_at,
    cell_slice,
    index_cell_step,
    index_step,
    parse_interior_index_cell,
    parse_interior_table_cell,
    parse_leaf_table_cell,
    parse_page_header,
    page_header_readable,
    spec_leaf_table_cell,
    spec_is_interior,
    spec_parse_page_header,
    Cell,
    PageHeader,
    PageType,
};
use crate::record::{spec_parse_payload, try_parse_payload, values_view, SqliteValue, ValueModel};
use crate::schema::{
    columns_map_view,
    copy_strings,
    extract_table_map,
    extract_table_name_rowid_map,
    table_map,
    MasterSchemaPage,
    TableUISelect,
};
use crate::text::{
    ascii_upper_text, cell_text, push_cell, push_dashes, rendered_as, repeated, strings_view,
    to_ascii_uppercase, Rendered,
};

verus! {

broadcast use vstd::std_specs::hash::group_hash_axioms;

/// Everything the browser shows and navigates.
#[derive(Debug, Clone)]
pub struct AppState {
    pub cli_state: CliState,
    pub items: Vec<TableUISelect>,
    pub active_table: Option<Vec<String>>,
    pub map: HashMap<u64, Vec<String>>,
    pub rows: Vec<Vec<SqliteValue>>,
    pub row_strings: Vec<Vec<Rendered>>,
}

/// The models of a list of rows.
pub open spec fn rows_view(rows: Seq<Vec<SqliteValue>>) -> Seq<Seq<ValueModel>> {
    rows.map_values(|r: Vec<SqliteValue>| values_view(r@))
}

/// The rowid of the schema row of the table under the menu cursor.
pub open spec fn spec_active_rowid(s: AppState) -> Option<u64> {
    if s.cli_state.table_idx < s.items@.len() {
        Some(s.items@[s.cli_state.table_idx as int].rowid)
    } else {
        None
    }
}

/// The columns of the table under the menu cursor.
pub open spec fn spec_active_table(s: AppState) -> Option<Seq<Seq<char>>> {
    match spec_active_rowid(s) {
        Some(id) => if s.map@.contains_key(id) {
            Some(strings_view(s.map@[id]@))
        } else {
            None
        },
        None => None,
    }
}

/// An optional list of strings matches an optional list of their views.
pub open spec fn opt_strings_match(v: Option<Vec<String>>, m: Option<Seq<Seq<char>>>) -> bool {
    match m {
        None => v is None,
        Some(cols) => v matches Some(x) && strings_view(x@) == cols,
    }
}

/// Shown rows match the rows they show, cell by cell.
pub open spec fn rows_rendered(shown: Seq<Vec<Rendered>>, rows: Seq<Vec<SqliteValue>>) -> bool {
    &&& shown.len() == rows.len()
    &&& forall|i: int|
        0 <= i < rows.len() ==> {
            &&& #[trigger] shown[i]@.len() == rows[i]@.len()
            &&& forall|j: int| 0 <= j < rows[i]@.len() ==> rendered_as(shown[i]@[j], rows[i]@[j]@)
        }
}

/// What one cell of a table page adds: a row for a leaf table cell, nothing
/// for a leaf index cell. `None` where reading stops without an answer: a
/// cell pointer outside the page, an interior page, a leaf index cell that
/// `index_step` cannot read, or a record that cannot be read to its end.
pub open spec fn page_step(p: Seq<u8>, hdr: PageHeader, usable: u16, base: int, i: int) -> Option<
    Result<Option<Seq<ValueModel>>, DbError>,
> {
    match cell_at(p, base, i) {
        None => None,
        Some(c) => match hdr.page_type {
            PageType::InteriorIndex => None,
            PageType::InteriorTable => None,
            PageType::LeafIndex => match index_step(c, usable) {
                None => None,
                Some(Err(e)) => Some(Err(e)),
                Some(Ok(())) => Some(Ok(None)),
            },
            PageType::LeafTable => match spec_leaf_table_cell(c) {
                Err(e) => Some(Err(e)),
                Ok((s, l, _)) => match spec_parse_payload(c.subrange(s, s + l)) {
                    None => None,
                    Some(Err(e)) => Some(Err(e)),
                    Some(Ok(cols)) => Some(Ok(Some(cols))),
                },
            },
        },
    }
}

/// The rows read from the first `n` cells and the error that stopped the
/// reading, if any; `None` where reading stops without an answer.
pub open spec fn page_fold(p: Seq<u8>, hdr: PageHeader, usable: u16, base: int, n: nat) -> Option<
    (Seq<Seq<ValueModel>>, Option<DbError>),
>
    decreases n,
{
    if n == 0 {
        Some((seq![], None))
    } else {
        match page_fold(p, hdr, usable, base, (n - 1) as nat) {
            Some((rows, None)) => match page_step(p, hdr, usable, base, n - 1) {
                None => None,
                Some(Err(e)) => Some((rows, Some(e))),
                Some(Ok(None)) => Some((rows, None)),
                Some(Ok(Some(row))) => Some((rows.push(row), None)),
            },
            other => other,
        }
    }
}

/// Where the b-tree header of page `page_num` starts: after the file header
/// on page 1.
pub open spec fn header_offset(page_num: u32) -> int {
    if page_num == 1 {
        100
    } else {
        0
    }
}

/// The rows that the leaf table cells of page `p` hold, in cell order, and
/// the error that stopped the reading, if any; `None` where reading stops
/// without an answer.
pub open spec fn spec_parse_page(p: Seq<u8>, page_num: u32, usable: u16) -> Option<
    (Seq<Seq<ValueModel>>, Option<DbError>),
> {
    let offset = header_offset(page_num);
    if !page_header_readable(p, offset) {
        None
    } else {
        match spec_parse_page_header(p, page_num, offset) {
            Err(e) => Some((seq![], Some(e))),
            Ok(hdr) => page_fold(p, hdr, usable, offset + hdr.size, hdr.num_cells_on_page as nat),
        }
    }
}

proof fn lemma_page_fold_stops(
    p: Seq<u8>,
    hdr: PageHeader,
    usable: u16,
    base: int,
    k: nat,
    n: nat,
)
    requires
        k <= n,
        !(page_fold(p, hdr, usable, base, k) matches Some((_, None))),
    ensures
        page_fold(p, hdr, usable, base, n) == page_fold(p, hdr, usable, base, k),
    decreases n - k,
{
    if k < n {
        lemma_page_fold_stops(p, hdr, usable, base, k, (n - 1) as nat);
    }
}

/// Reads the `i`-th cell of a table page whose cell pointers start at
/// `base`, as `page_step` says.
fn page_cell_step(page: &[u8], hdr: &PageHeader, usable_page_size: u16, base: usize, i: u16) -> (r:
    Option<Result<Option<Vec<SqliteValue>>, DbError>>)
    requires
        base <= 112,
    ensures
        match page_step(page@, *hdr, usable_page_size, base as int, i as int) {
            None => r is None,
            Some(Err(e)) => r matches Some(Err(e2)) && e2 == e,
            Some(Ok(None)) => r matches Some(Ok(None)),
            Some(Ok(Some(row))) => r matches Some(Ok(Some(v))) && values_view(v@) == row,
        },
{
    let cell = match cell_slice(page, base, i) {
        Some(c) => c,
        None => {
            return None;
        },
    };
    match hdr.page_type {
        PageType::InteriorIndex => {
            let _ = parse_interior_index_cell(cell);
            None
        },
        PageType::InteriorTable => {
            let _ = parse_interior_table_cell(cell);
            None
        },
        PageType::LeafIndex => match index_cell_step(cell, usable_page_size) {
            None => None,
            Some(Err(e)) => Some(Err(e)),
            Some(Ok(())) => Some(Ok(None)),
        },
        PageType::LeafTable => match parse_leaf_table_cell(cell) {
            Err(e) => Some(Err(e)),
            Ok(Cell::LeafTable { rowid: _, payload }) => match try_parse_payload(payload) {
                None => None,
                Some(Err(e)) => Some(Err(e)),
                Some(Ok(parsed_payload)) => Some(Ok(Some(parsed_payload.columns))),
            },
            Ok(_) => {
                proof {
                    assert(false);
                }
                None
            },
        },
    }
}

/// Reads the rows of a table page; `None` where reading stops without an
/// answer.
fn scan_page(page: &[u8], page_num: u32, usable_page_size: u16) -> (r: Option<
    (Vec<Vec<SqliteValue>>, Option<DbError>),
>)
    ensures
        match spec_parse_page(page@, page_num, usable_page_size) {
            None => r is None,
            Some((rows, err)) => r matches Some((found, e)) && rows_view(found@) == rows && e
                == err,
        },
{
    let ghost p = page@;
    let mut rows: Vec<Vec<SqliteValue>> = Vec::new();
    let offset: usize = if page_num == 1 {
        100
    } else {
        0
    };
    let page_len = page.len();
    if offset >= page_len || (page_len == offset + 7 && matches!(
        PageType::try_from(page[offset]),
        Ok(_)
    )) {
        return None;
    }
    let page_header = match parse_page_header(&page, page_num, offset) {
        Ok(h) => h,
        Err(e) => {
            proof {
                assert(rows_view(rows@) =~= seq![]);
            }
            return Some((rows, Some(e)));
        },
    };
    let ghost hdr = page_header;

    let base = offset + page_header.size;
    let num_cells = page_header.num_cells_on_page;
    proof {
        assert(rows_view(rows@) =~= seq![]);
    }

    let mut i: u16 = 0;
    while i < num_cells
        invariant
            p == page@,
            hdr == page_header,
            num_cells == hdr.num_cells_on_page,
            base == header_offset(page_num) + hdr.size,
            hdr.size <= 12,
            spec_parse_page(p, page_num, usable_page_size) == page_fold(
                p,
                hdr,
                usable_page_size,
                base as int,
                num_cells as nat,
            ),
            page_fold(p, hdr, usable_page_size, base as int, i as nat) == Some(
                (rows_view(rows@), Option::<DbError>::None),
            ),
            i <= num_cells,
        decreases num_cells - i,
    {
        let ghost before = rows@;
        match page_cell_step(page, &page_header, usable_page_size, base, i) {
            None => {
                proof {
                    lemma_page_fold_stops(p, hdr, usable_page_size, base as int, (i + 1) as nat, num_cells as nat);
                }
                return None;
            },
            Some(Err(e)) => {
                proof {
                    lemma_page_fold_stops(p, hdr, usable_page_size, base as int, (i + 1) as nat, num_cells as nat);
                }
                return Some((rows, Some(e)));
            },
            Some(Ok(None)) => {},
            Some(Ok(Some(row))) => {
                let ghost rv = values_view(row@);
                rows.push(row);
                proof {
                    assert(rows_view(rows@) =~= rows_view(before).push(rv));
                }
            },
        }
        i += 1;
    }
    Some((rows, None))
}

impl AppState {
    /// The browser for a schema page: its table menu and column lists, the
    /// cursor on the first table, and no rows yet.
    pub fn new(master_schema_page: &MasterSchemaPage) -> (r: Result<AppState, DbError>)
        ensures
            r matches Ok(s) && {
                &&& s.items@.len() == master_schema_page@.entries.len()
                &&& forall|i: int|
                    0 <= i < s.items@.len() ==> {
                        &&& #[trigger] s.items@[i].name@ == master_schema_page@.entries[i].0
                        &&& s.items@[i].index == i
                        &&& s.items@[i].rowid == master_schema_page@.entries[i].1.rowid
                    }
                &&& forall|i: int, j: int|
                    0 <= i < j < s.items@.len() ==> (#[trigger] s.items@[i]).name@ != (
                    #[trigger] s.items@[j]).name@
                &&& columns_map_view(s.map@) == table_map(master_schema_page@.entries)
                &&& s.active_table is None
                &&& s.rows@.len() == 0
                &&& s.row_strings@.len() == 0
                &&& s.cli_state.table_idx == 0
                &&& s.cli_state.row_idx == 0
                &&& s.cli_state.num_tables == s.items@.len()
                &&& s.cli_state.num_rows == 0
                &&& s.cli_state.mode == Mode::TableSelect
            },
    {
        let items = extract_table_name_rowid_map(master_schema_page)?;
        let num_tables = items.len();
        let map = extract_table_map(master_schema_page)?;
        Ok(
            AppState {
                items: items,
                map,
                active_table: None,
                rows: Vec::new(),
                row_strings: Vec::new(),
                cli_state: CliState::new(num_tables, 0),
            },
        )
    }

    /// The rowid of the schema row of the table under the menu cursor.
    pub fn get_active_rowid(&self) -> (r: Option<u64>)
        ensures
            r == spec_active_rowid(*self),
    {
        if self.cli_state.table_idx < self.items.len() {
            Some(self.items[self.cli_state.table_idx].rowid)
        } else {
            None
        }
    }

    /// The columns of the table under the menu cursor.
    pub fn get_active_table(&self) -> (r: Option<Vec<String>>)
        ensures
            opt_strings_match(r, spec_active_table(*self)),
    {
        match self.get_active_rowid() {
            Some(rowid) => match self.map.get(&rowid) {
                Some(cols) => Some(copy_strings(cols)),
                None => None,
            },
            None => None,
        }
    }

    /// Every value of every row read so far, as it is shown.
    pub fn get_active_rows(&self) -> (r: Vec<Vec<Rendered>>)
        ensures
            rows_rendered(r@, self.rows@),
    {
        let mut out: Vec<Vec<Rendered>> = Vec::new();
        let mut i: usize = 0;
        while i < self.rows.len()
            invariant
                i <= self.rows@.len(),
                out@.len() == i,
                forall|k: int|
                    0 <= k < i ==> {
                        &&& #[trigger] out@[k]@.len() == self.rows@[k]@.len()
                        &&& forall|j: int|
                            0 <= j < self.rows@[k]@.len() ==> rendered_as(
                                out@[k]@[j],
                                self.rows@[k]@[j]@,
                            )
                    },
            decreases self.rows.len() - i,
        {
            let row = &self.rows[i];
            let mut shown: Vec<Rendered> = Vec::new();
            let mut j: usize = 0;
            while j < row.len()
                invariant
                    j <= row@.len(),
                    shown@.len() == j,
                    forall|m: int| 0 <= m < j ==> rendered_as(shown@[m], row@[m]@),
                decreases row.len() - j,
            {
                shown.push(row[j].to_str());
                j += 1;
            }
            out.push(shown);
            i += 1;
        }
        out
    }

    /// Handles a key: moves the cursor or switches lists, then refreshes what
    /// the raised signal names (the active table's columns, or the shown
    /// rows). Returns whether the browser should exit.
    pub fn on_key(&mut self, key: KeyCode) -> (exit: bool)
        requires
            key_allowed(old(self).cli_state, key),
        ensures
            final(self).cli_state == spec_handle_key(old(self).cli_state, key).0,
            exit == (spec_handle_key(old(self).cli_state, key).1 == Some(Signal::Exit)),
            spec_handle_key(old(self).cli_state, key).1 == Some(Signal::UpdateTable)
                ==> opt_strings_match(final(self).active_table, spec_active_table(*final(self))),
            spec_handle_key(old(self).cli_state, key).1 != Some(Signal::UpdateTable)
                ==> final(self).active_table == old(self).active_table,
            spec_handle_key(old(self).cli_state, key).1 == Some(Signal::UpdateRow)
                ==> rows_rendered(final(self).row_strings@, old(self).rows@),
            spec_handle_key(old(self).cli_state, key).1 != Some(Signal::UpdateRow)
                ==> final(self).row_strings == old(self).row_strings,
            final(self).items == old(self).items,
            final(self).map == old(self).map,
            final(self).rows == old(self).rows,
    {
        match handle_key(&mut self.cli_state, key) {
            Some(Signal::Exit) => true,
            Some(Signal::UpdateTable) => {
                self.active_table = self.get_active_table();
                false
            },
            Some(Signal::UpdateRow) => {
                self.row_strings = self.get_active_rows();
                false
            },
            None => false,
        }
    }
}

/// Reads the rows of table page `page_num` and appends them; on an error
/// the rows of the cells before the failing one stay appended.
pub fn parse_page(page: &[u8], page_num: u32, usable_page_size: u16, app_state: &mut AppState) -> (r: Result<
    (),
    DbError,
>)
    requires
        spec_parse_page(page@, page_num, usable_page_size) is Some,
    ensures
        spec_parse_page(page@, page_num, usable_page_size) matches Some((rows, err)) && {
            &&& rows_view(final(app_state).rows@) == rows_view(old(app_state).rows@) + rows
            &&& err is None ==> r is Ok
            &&& err matches Some(e) ==> r matches Err(e2) && e2 == e
        },
        final(app_state).cli_state == old(app_state).cli_state,
        final(app_state).items == old(app_state).items,
        final(app_state).active_table == old(app_state).active_table,
        final(app_state).map == old(app_state).map,
        final(app_state).row_strings == old(app_state).row_strings,
{
    match try_parse_page(page, page_num, usable_page_size, app_state) {
        Some(r) => r,
        None => {
            proof {
                assert(false);
            }
            Ok(())
        },
    }
}

/// Reads the rows of table page `page_num` and appends them, or returns
/// `None`, changing nothing, where the reading stops without an answer.
pub fn try_parse_page(page: &[u8], page_num: u32, usable_page_size: u16, app_state: &mut AppState) -> (r:
    Option<Result<(), DbError>>)
    ensures
        match spec_parse_page(page@, page_num, usable_page_size) {
            None => r is None && final(app_state).rows@ == old(app_state).rows@,
            Some((rows, err)) => {
                &&& rows_view(final(app_state).rows@) == rows_view(old(app_state).rows@) + rows
                &&& err is None ==> r == Some(Ok::<(), DbError>(()))
                &&& err matches Some(e) ==> r == Some(Err::<(), DbError>(e))
            },
        },
        final(app_state).cli_state == old(app_state).cli_state,
        final(app_state).items == old(app_state).items,
        final(app_state).active_table == old(app_state).active_table,
        final(app_state).map == old(app_state).map,
        final(app_state).row_strings == old(app_state).row_strings,
{
    match scan_page(page, page_num, usable_page_size) {
        None => None,
        Some((found, err)) => {
            let ghost before = app_state.rows@;
            let mut found = found;
            let ghost fv = found@;
            app_state.rows.append(&mut found);
            proof {
                assert(rows_view(app_state.rows@) =~= rows_view(before) + rows_view(fv));
            }
            match err {
                None => Some(Ok(())),
                Some(e) => Some(Err(e)),
            }
        },
    }
}

/// The number of UTF-8 bytes of `s`, as `str::len` gives it.
pub open spec fn byte_len(s: Seq<char>) -> nat {
    (encode_utf8(s).len() as usize) as nat
}

/// The width of column `i` after the first `n` rows: the byte length of its
/// header or of its widest cell among those rows.
pub open spec fn width_after(headers: Seq<Seq<char>>, rows: Seq<Seq<Seq<char>>>, i: int, n: nat) -> nat
    decreases n,
{
    if n == 0 {
        byte_len(headers[i])
    } else {
        let w = width_after(headers, rows, i, (n - 1) as nat);
        let r = rows[n - 1];
        if i < r.len() && byte_len(r[i]) > w {
            byte_len(r[i])
        } else {
            w
        }
    }
}

/// The views of a list of rows of strings.
pub open spec fn string_rows_view(rows: Seq<Vec<String>>) -> Seq<Seq<Seq<char>>> {
    rows.map_values(|r: Vec<String>| strings_view(r@))
}

/// The widths of the columns of a table: for each header, the largest byte
/// length of the header and of the cells below it.
pub fn column_widths(headers: &[String], rows: &[Vec<String>]) -> (widths: Vec<usize>)
    requires
        forall|k: int| 0 <= k < rows@.len() ==> (#[trigger] rows@[k])@.len() <= headers@.len(),
    ensures
        widths@.len() == headers@.len(),
        forall|i: int|
            0 <= i < headers@.len() ==> widths@[i] == width_after(
                strings_view(headers@),
                string_rows_view(rows@),
                i,
                rows@.len(),
            ),
{
    let ghost hv = strings_view(headers@);
    let ghost rv = string_rows_view(rows@);
    let mut widths: Vec<usize> = Vec::new();
    let mut i: usize = 0;
    while i < headers.len()
        invariant
            i <= headers@.len(),
            hv == strings_view(headers@),
            widths@.len() == i,
            forall|m: int| 0 <= m < i ==> widths@[m] == width_after(hv, rv, m, 0),
        decreases headers.len() - i,
    {
        assert(hv[i as int] == headers@[i as int]@);
        widths.push(headers[i].as_str().len());
        i += 1;
    }
    let mut n: usize = 0;
    while n < rows.len()
        invariant
            n <= rows@.len(),
            hv == strings_view(headers@),
            rv == string_rows_view(rows@),
            widths@.len() == headers@.len(),
            forall|k: int| 0 <= k < rows@.len() ==> (#[trigger] rows@[k])@.len() <= headers@.len(),
            forall|m: int| 0 <= m < headers@.len() ==> widths@[m] == width_after(hv, rv, m, n as nat),
        decreases rows.len() - n,
    {
        let row = &rows[n];
        assert(rv[n as int] == strings_view(row@));
        let mut j: usize = 0;
        while j < row.len()
            invariant
                j <= row@.len(),
                row@.len() <= headers@.len(),
                n < rows@.len(),
                row == rows@[n as int],
                rv == string_rows_view(rows@),
                rv[n as int] == strings_view(row@),
                widths@.len() == headers@.len(),
                forall|m: int|
                    0 <= m < headers@.len() ==> widths@[m] == if m < j {
                        width_after(hv, rv, m, (n + 1) as nat)
                    } else {
                        width_after(hv, rv, m, n as nat)
                    },
            decreases row.len() - j,
        {
            assert(rv[n as int][j as int] == row@[j as int]@);
            let len = row[j].as_str().len();
            if len > widths[j] {
                widths.set(j, len);
            }
            j += 1;
        }
        n += 1;
    }
    widths
}

/// Every cell fits in its column: a column is at least as wide as its header
/// and as each of its cells in the rows counted so far.
pub proof fn lemma_widths_cover_cells(
    headers: Seq<Seq<char>>,
    rows: Seq<Seq<Seq<char>>>,
    i: int,
    n: nat,
)
    requires
        n <= rows.len(),
    ensures
        width_after(headers, rows, i, n) >= byte_len(headers[i]),
        forall|k: int|
            0 <= k < n && 0 <= i < rows[k].len() ==> width_after(headers, rows, i, n) >= byte_len(
                #[trigger] rows[k][i],
            ),
    decreases n,
{
    if n > 0 {
        lemma_widths_cover_cells(headers, rows, i, (n - 1) as nat);
    }
}

/// A table page yields at most one row per cell.
pub proof fn lemma_page_rows_bounded(p: Seq<u8>, hdr: PageHeader, usable: u16, base: int, n: nat)
    ensures
        page_fold(p, hdr, usable, base, n) matches Some((rows, _)) ==> rows.len() <= n,
    decreases n,
{
    if n > 0 {
        lemma_page_rows_bounded(p, hdr, usable, base, (n - 1) as nat);
    }
}

/// A leaf table page read without error yields exactly one row per cell.
pub proof fn lemma_leaf_table_rows_count(p: Seq<u8>, hdr: PageHeader, usable: u16, base: int, n: nat)
    requires
        hdr.page_type == PageType::LeafTable,
    ensures
        page_fold(p, hdr, usable, base, n) matches Some((rows, None)) ==> rows.len() == n,
    decreases n,
{
    if n > 0 {
        lemma_leaf_table_rows_count(p, hdr, usable, base, (n - 1) as nat);
    }
}

/// The widths of the columns of a drawn table, as `column_widths` computes
/// them.
pub open spec fn table_widths(headers: Seq<Seq<char>>, rows: Seq<Seq<Seq<char>>>) -> Seq<int> {
    Seq::new(headers.len(), |i: int| width_after(headers, rows, i, rows.len()) as int)
}

/// The cells of the first `n` items, each padded to its column's width.
pub open spec fn cells_text(items: Seq<Seq<char>>, widths: Seq<int>, n: nat) -> Seq<char>
    decreases n,
{
    if n == 0 {
        Seq::empty()
    } else {
        cells_text(items, widths, (n - 1) as nat) + cell_text(items[n - 1], widths[n - 1])
    }
}

/// The header line: the column names in upper case.
pub open spec fn header_line(headers: Seq<Seq<char>>, widths: Seq<int>) -> Seq<char> {
    seq![' ', ' ', '|'] + cells_text(
        headers.map_values(|h: Seq<char>| ascii_upper_text(h)),
        widths,
        headers.len(),
    )
}

/// The line under the header: a run of dashes as wide as each column.
pub open spec fn separator_line(widths: Seq<int>) -> Seq<char> {
    seq![' ', ' ', '|'] + cells_text(
        widths.map_values(|w: int| repeated('-', w as nat)),
        widths,
        widths.len(),
    )
}

/// The line of one row, marked with `> ` when it is the selected one.
pub open spec fn row_line(row: Seq<Seq<char>>, widths: Seq<int>, selected: bool) -> Seq<char> {
    (if selected {
        seq!['>', ' ']
    } else {
        seq![' ', ' ']
    }) + seq!['|'] + cells_text(row, widths, row.len())
}

/// The lines of a drawn table: the header, the separator, then one line per
/// row, the row at `selected` marked.
pub fn table_lines(headers: &[String], rows: &[Vec<String>], selected: usize) -> (lines: Vec<String>)
    requires
        forall|k: int| 0 <= k < rows@.len() ==> (#[trigger] rows@[k])@.len() <= headers@.len(),
    ensures
        lines@.len() == rows@.len() + 2,
        lines@[0]@ == header_line(
            strings_view(headers@),
            table_widths(strings_view(headers@), string_rows_view(rows@)),
        ),
        lines@[1]@ == separator_line(table_widths(strings_view(headers@), string_rows_view(rows@))),
        forall|k: int|
            0 <= k < rows@.len() ==> (#[trigger] lines@[k + 2])@ == row_line(
                strings_view(rows@[k]@),
                table_widths(strings_view(headers@), string_rows_view(rows@)),
                k == selected,
            ),
{
    let ghost hv = strings_view(headers@);
    let ghost rv = string_rows_view(rows@);
    let ghost ws = table_widths(hv, rv);
    let widths = column_widths(headers, rows);
    assert(forall|i: int| 0 <= i < headers@.len() ==> widths@[i] as int == #[trigger] ws[i]);
    let bar = "  |";
    proof {
        reveal_strlit("  |");
    }
    let mut lines: Vec<String> = Vec::new();

    let ghost upper = hv.map_values(|h: Seq<char>| ascii_upper_text(h));
    let mut head = String::new();
    head.append(bar);
    let mut i: usize = 0;
    while i < headers.len()
        invariant
            i <= headers@.len(),
            hv == strings_view(headers@),
            upper == hv.map_values(|h: Seq<char>| ascii_upper_text(h)),
            widths@.len() == headers@.len(),
            forall|m: int| 0 <= m < headers@.len() ==> widths@[m] as int == #[trigger] ws[m],
            head@ == seq![' ', ' ', '|'] + cells_text(upper, ws, i as nat),
        decreases headers.len() - i,
    {
        let u = to_ascii_uppercase(headers[i].as_str());
        assert(u@ == upper[i as int]);
        push_cell(&mut head, u.as_str(), widths[i]);
        i += 1;
    }
    lines.push(head);

    let ghost dashes = ws.map_values(|w: int| repeated('-', w as nat));
    let mut sep = String::new();
    sep.append(bar);
    let mut i: usize = 0;
    while i < widths.len()
        invariant
            i <= widths@.len(),
            widths@.len() == headers@.len(),
            ws.len() == headers@.len(),
            dashes == ws.map_values(|w: int| repeated('-', w as nat)),
            forall|m: int| 0 <= m < headers@.len() ==> widths@[m] as int == #[trigger] ws[m],
            sep@ == seq![' ', ' ', '|'] + cells_text(dashes, ws, i as nat),
        decreases widths.len() - i,
    {
        let mut d = String::new();
        push_dashes(&mut d, widths[i]);
        assert(d@ =~= dashes[i as int]);
        push_cell(&mut sep, d.as_str(), widths[i]);
        i += 1;
    }
    lines.push(sep);

    let mut k: usize = 0;
    while k < rows.len()
        invariant
            k <= rows@.len(),
            lines@.len() == k + 2,
            hv == strings_view(headers@),
            rv == string_rows_view(rows@),
            ws == table_widths(hv, rv),
            bar@ == seq![' ', ' ', '|'],
            widths@.len() == headers@.len(),
            forall|m: int| 0 <= m < headers@.len() ==> widths@[m] as int == #[trigger] ws[m],
            forall|q: int| 0 <= q < rows@.len() ==> (#[trigger] rows@[q])@.len() <= headers@.len(),
            lines@[0]@ == header_line(hv, ws),
            lines@[1]@ == separator_line(ws),
            forall|q: int|
                0 <= q < k ==> (#[trigger] lines@[q + 2])@ == row_line(
                    strings_view(rows@[q]@),
                    ws,
                    q == selected,
                ),
        decreases rows.len() - k,
    {
        let row = &rows[k];
        let ghost cells = strings_view(row@);
        let mut line = String::new();
        if k == selected {
            let mark = "> |";
            proof {
                reveal_strlit("> |");
            }
            line.append(mark);
        } else {
            line.append(bar);
        }
        assert(line@ =~= (if k == selected {
            seq!['>', ' ']
        } else {
            seq![' ', ' ']
        }) + seq!['|'] + cells_text(cells, ws, 0));
        let mut j: usize = 0;
        while j < row.len()
            invariant
                j <= row@.len(),
                row@.len() <= headers@.len(),
                cells == strings_view(row@),
                widths@.len() == headers@.len(),
                forall|m: int| 0 <= m < headers@.len() ==> widths@[m] as int == #[trigger] ws[m],
                line@ == (if k == selected {
                    seq!['>', ' ']
                } else {
                    seq![' ', ' ']
                }) + seq!['|'] + cells_text(cells, ws, j as nat),
            decreases row.len() - j,
        {
            assert(cells[j as int] == row@[j as int]@);
            push_cell(&mut line, row[j].as_str(), widths[j]);
            j += 1;
        }
        lines.push(line);
        k += 1;
    }
    lines
}

/// One entry of the drawn table menu: the screen row it goes to, its text,
/// and whether it is the highlighted entry.
#[derive(Debug, Clone)]
pub struct MenuLine {
    pub row: usize,
    pub text: String,
    pub selected: bool,
}

/// The text of a menu entry: `> ` before the selected name, two spaces
/// before the others.
pub open spec fn menu_text(name: Seq<char>, selected: bool) -> Seq<char> {
    (if selected {
        seq!['>', ' ']
    } else {
        seq![' ', ' ']
    }) + name
}

/// The lines of the table menu, one per entry, the entry whose position is
/// `table_idx` marked.
pub fn menu_lines(items: &[TableUISelect], table_idx: usize) -> (lines: Vec<MenuLine>)
    ensures
        lines@.len() == items@.len(),
        forall|k: int|
            0 <= k < items@.len() ==> {
                &&& (#[trigger] lines@[k]).row == items@[k].index
                &&& lines@[k].selected == (items@[k].index == table_idx)
                &&& lines@[k].text@ == menu_text(items@[k].name@, items@[k].index == table_idx)
            },
{
    let marked = "> ";
    let plain = "  ";
    proof {
        reveal_strlit("> ");
        reveal_strlit("  ");
    }
    let mut lines: Vec<MenuLine> = Vec::new();
    let mut k: usize = 0;
    while k < items.len()
        invariant
            k <= items@.len(),
            lines@.len() == k,
            marked@ == seq!['>', ' '],
            plain@ == seq![' ', ' '],
            forall|q: int|
                0 <= q < k ==> {
                    &&& (#[trigger] lines@[q]).row == items@[q].index
                    &&& lines@[q].selected == (items@[q].index == table_idx)
                    &&& lines@[q].text@ == menu_text(items@[q].name@, items@[q].index == table_idx)
                },
        decreases items.len() - k,
    {
        let item = &items[k];
        let selected = item.index == table_idx;
        let mut text = String::new();
        if selected {
            text.append(marked);
        } else {
            text.append(plain);
        }
        text.append(item.name.as_str());
        assert(text@ =~= menu_text(item.name@, selected));
        lines.push(MenuLine { row: item.index, text, selected });
        k += 1;
    }
    lines
}

/// The cell pointer at `at` (a big-endian 16-bit offset) lies in the page
/// and points into it, and the leaf table cell there holds the record `row`.
pub open spec fn cell_record(p: Seq<u8>, at: int, row: Seq<ValueModel>) -> bool {
    let ptr = p[at] * 256 + p[at + 1];
    &&& 0 <= at
    &&& at + 2 <= p.len()
    &&& ptr <= p.len()
    &&& spec_leaf_table_cell(p.skip(ptr)) matches Ok((s, l, _))
    &&& spec_parse_payload(p.skip(ptr).subrange(s, s + l)) == Some(Ok::<Seq<ValueModel>, DbError>(row))
}

proof fn lemma_leaf_rows_fold(p: Seq<u8>, hdr: PageHeader, usable: u16, base: int, n: nat)
    requires
        hdr.page_type == PageType::LeafTable,
        0 <= base,
    ensures
        page_fold(p, hdr, usable, base, n) matches Some((rows, None)) ==> {
            &&& rows.len() == n
            &&& forall|k: int| 0 <= k < n ==> cell_record(p, base + 2 * k, #[trigger] rows[k])
        },
    decreases n,
{
    if n > 0 {
        lemma_leaf_rows_fold(p, hdr, usable, base, (n - 1) as nat);
        if let Some((prev, None)) = page_fold(p, hdr, usable, base, (n - 1) as nat) {
            if let Some(Ok(Some(row))) = page_step(p, hdr, usable, base, n - 1) {
                let rows = prev.push(row);
                assert(cell_record(p, base + 2 * (n - 1), row));
                assert forall|k: int| 0 <= k < n implies cell_record(
                    p,
                    base + 2 * k,
                    #[trigger] rows[k],
                ) by {
                    if k < n - 1 {
                        assert(rows[k] == prev[k]);
                    }
                }
            }
        }
    }
}

/// The rows of a leaf table page read without error are the records of its
/// cells, one per cell and in cell order: the `k`-th row is the record in the
/// payload of the cell that the `k`-th big-endian pointer after the page
/// header points to.
pub proof fn lemma_leaf_page_rows(p: Seq<u8>, page_num: u32, usable: u16)
    ensures
        ({
            let o = header_offset(page_num);
            0 <= o < p.len() && p[o] == 13 ==> (spec_parse_page(p, page_num, usable) matches Some(
                (rows, None),
            ) ==> {
                &&& rows.len() == p[o + 3] * 256 + p[o + 4]
                &&& forall|k: int| 0 <= k < rows.len() ==> cell_record(p, o + 8 + 2 * k, #[trigger] rows[k])
            })
        }),
{
    let o = header_offset(page_num);
    if page_header_readable(p, o) {
        if let Ok(hdr) = spec_parse_page_header(p, page_num, o) {
            if p[o] == 13 {
                lemma_leaf_rows_fold(p, hdr, usable, o + hdr.size, hdr.num_cells_on_page as nat);
            }
        }
    }
}

/// A column is no wider than it has to be: its width is the byte length of
/// its header or of one of its cells in the rows counted so far.
pub proof fn lemma_width_attained(
    headers: Seq<Seq<char>>,
    rows: Seq<Seq<Seq<char>>>,
    i: int,
    n: nat,
)
    requires
        0 <= i < headers.len(),
        n <= rows.len(),
    ensures
        width_after(headers, rows, i, n) == byte_len(headers[i]) || exists|k: int|
            0 <= k < n && 0 <= i < rows[k].len() && width_after(headers, rows, i, n) == byte_len(
                #[trigger] rows[k][i],
            ),
    decreases n,
{
    if n > 0 {
        lemma_width_attained(headers, rows, i, (n - 1) as nat);
        let r = rows[n - 1];
        if !(0 <= i < r.len() && byte_len(r[i]) > width_after(headers, rows, i, (n - 1) as nat)) {
            assert(width_after(headers, rows, i, n) == width_after(headers, rows, i, (n - 1) as nat));
            if width_after(headers, rows, i, (n - 1) as nat) != byte_len(headers[i]) {
                let k = choose|k: int|
                    0 <= k < n - 1 && 0 <= i < rows[k].len() && width_after(
                        headers,
                        rows,
                        i,
                        (n - 1) as nat,
                    ) == byte_len(#[trigger] rows[k][i]);
                assert(0 <= k < n && 0 <= i < rows[k].len());
            }
        } else {
            assert(width_after(headers, rows, i, n) == byte_len(rows[n - 1][i]));
            assert(0 <= n - 1 < n && 0 <= i < rows[n - 1].len());
        }
    }
}

proof fn lemma_index_fold_no_rows(p: Seq<u8>, hdr: PageHeader, usable: u16, base: int, n: nat)
    requires
        hdr.page_type == PageType::LeafIndex,
    ensures
        page_fold(p, hdr, usable, base, n) matches Some((rows, _)) ==> rows.len() == 0,
    decreases n,
{
    if n > 0 {
        lemma_index_fold_no_rows(p, hdr, usable, base, (n - 1) as nat);
    }
}

proof fn lemma_interior_fold_stops(p: Seq<u8>, hdr: PageHeader, usable: u16, base: int, n: nat)
    requires
        spec_is_interior(hdr.page_type),
        n >= 1,
    ensures
        page_fold(p, hdr, usable, base, n) is None,
    decreases n,
{
    if n > 1 {
        lemma_interior_fold_stops(p, hdr, usable, base, (n - 1) as nat);
    } else {
        assert(page_fold(p, hdr, usable, base, 0) == Some((Seq::<Seq<ValueModel>>::empty(), Option::<DbError>::None)));
        assert(page_step(p, hdr, usable, base, 0) is None);
    }
}

/// An index page yields no rows, and an interior page with a cell is not
/// read at all (`None`).
pub proof fn lemma_page_kind_rows(p: Seq<u8>, page_num: u32, usable: u16)
    ensures
        ({
            let o = header_offset(page_num);
            &&& 0 <= o < p.len() && p[o] == 10 ==> (spec_parse_page(p, page_num, usable) matches Some(
                (rows, _),
            ) ==> rows.len() == 0)
            &&& 0 <= o < p.len() && (p[o] == 2 || p[o] == 5) && o + 12 <= p.len() && p[o + 3] * 256
                + p[o + 4] > 0 ==> spec_parse_page(p, page_num, usable) is None
        }),
{
    let o = header_offset(page_num);
    if page_header_readable(p, o) {
        if let Ok(hdr) = spec_parse_page_header(p, page_num, o) {
            if p[o] == 10 {
                lemma_index_fold_no_rows(p, hdr, usable, o + hdr.size, hdr.num_cells_on_page as nat);
            }
            if (p[o] == 2 || p[o] == 5) && hdr.num_cells_on_page > 0 {
                lemma_interior_fold_stops(p, hdr, usable, o + hdr.size, hdr.num_cells_on_page as nat);
            }
        }
    }
}

} // verus!
