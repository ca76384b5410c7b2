//! The schema table on page 1: which tables exist, where their b-trees start
//! and which columns they declare.
use std::collections::HashMap;

use vstd::prelude::*;

use crate::error::DbError;
use crate::page::{
    cell_at,
    cell_slice,
    index_cell_step,
    index_step,
    parse_interior_index_cell,
    parse_interior_table_cell,
    parse_leaf_table_cell,
    parse_page_header,
    page_header_readable,
    spec_leaf_table_cell,
    spec_parse_page_header,
    Cell,
    PageHeader,
    PageType,
};
use crate::record::{spec_parse_payload, try_parse_payload, values_view, SqliteValue, ValueModel};
use crate::text::{
    columns_readable,
    extract_table_columns,
    spec_table_columns,
    strings_view,
    table_columns_readable,
};

verus! {

broadcast use vstd::std_specs::hash::group_hash_axioms;

/// The five columns of a row of the schema table.
#[derive(Debug, Clone)]
pub struct SchemaTable {
    pub _type: SqliteValue,
    pub name: SqliteValue,
    pub tbl_name: SqliteValue,
    pub rootpage: SqliteValue,
    pub sql: SqliteValue,
}

/// What the browser keeps of a schema row.
#[derive(Debug)]
pub struct Schema {
    pub _type: SqliteValue,
    pub name: SqliteValue,
    pub rootpage: SqliteValue,
    pub rowid: u64,
    pub columns: Vec<String>,
}

/// The model of a `Schema`.
pub struct SchemaModel {
    pub type_: ValueModel,
    pub name: ValueModel,
    pub rootpage: ValueModel,
    pub rowid: u64,
    pub columns: Seq<Seq<char>>,
}

impl View for Schema {
    type V = SchemaModel;

    open spec fn view(&self) -> SchemaModel {
        SchemaModel {
            type_: self._type@,
            name: self.name@,
            rootpage: self.rootpage@,
            rowid: self.rowid,
            columns: strings_view(self.columns@),
        }
    }
}

/// The schema rows of page 1, keyed by table name (each name once), and the
/// root pages of the tables in the order their rows were read.
#[derive(Debug)]
pub struct MasterSchemaPage {
    map: Vec<(String, Schema)>,
    b_tree_pages: Vec<u32>,
}

/// The model of a `MasterSchemaPage`.
pub struct MasterModel {
    pub entries: Seq<(Seq<char>, SchemaModel)>,
    pub pages: Seq<u32>,
}

/// The models of name-keyed schema entries.
pub open spec fn entries_view(es: Seq<(String, Schema)>) -> Seq<(Seq<char>, SchemaModel)> {
    es.map_values(|e: (String, Schema)| (e.0@, e.1@))
}

/// The model of the entries `map` and the root pages `pages`.
pub open spec fn master_model(map: Seq<(String, Schema)>, pages: Seq<u32>) -> MasterModel {
    MasterModel { entries: entries_view(map), pages }
}

impl View for MasterSchemaPage {
    type V = MasterModel;

    closed spec fn view(&self) -> MasterModel {
        master_model(self.map@, self.b_tree_pages@)
    }
}

impl MasterSchemaPage {
    /// No two entries share a table name.
    #[verifier::type_invariant]
    spec fn names_unique(self) -> bool {
        names_distinct(entries_view(self.map@))
    }

    /// The entries, keyed by table name; no name occurs twice.
    pub fn map(&self) -> (r: &Vec<(String, Schema)>)
        ensures
            entries_view(r@) == self@.entries,
            names_distinct(self@.entries),
    {
        proof {
            use_type_invariant(self);
        }
        &self.map
    }

    /// The root pages of the tables, in the order their rows were read.
    pub fn b_tree_pages(&self) -> (r: &Vec<u32>)
        ensures
            r@ == self@.pages,
    {
        &self.b_tree_pages
    }
}

/// The position of the entry named `k`, or `es.len()` when there is none.
pub open spec fn key_index(es: Seq<(Seq<char>, SchemaModel)>, k: Seq<char>) -> int
    decreases es.len(),
{
    if es.len() == 0 {
        0
    } else if es[0].0 == k {
        0
    } else {
        1 + key_index(es.drop_first(), k)
    }
}

/// `es` with the entry named `k` set to `v`: replaced where it is, or added
/// at the end.
pub open spec fn entries_insert(
    es: Seq<(Seq<char>, SchemaModel)>,
    k: Seq<char>,
    v: SchemaModel,
) -> Seq<(Seq<char>, SchemaModel)> {
    let i = key_index(es, k);
    if i < es.len() {
        es.update(i, (k, v))
    } else {
        es.push((k, v))
    }
}

/// No two entries share a name.
pub open spec fn names_distinct(es: Seq<(Seq<char>, SchemaModel)>) -> bool {
    forall|i: int, j: int| 0 <= i < j < es.len() ==> es[i].0 != es[j].0
}

/// The empty model.
pub open spec fn empty_master() -> MasterModel {
    MasterModel { entries: seq![], pages: seq![] }
}

/// What a schema row adds to the model: its root page, when it is an
/// integer, and its entry, when its name is text.
pub open spec fn add_schema_row(m: MasterModel, cols: Seq<ValueModel>, rowid: u64) -> MasterModel {
    MasterModel {
        pages: match cols[3] {
            ValueModel::Integer(r) => m.pages.push(r as u32),
            _ => m.pages,
        },
        entries: match cols[1] {
            ValueModel::Text(n) => entries_insert(
                m.entries,
                n,
                SchemaModel {
                    type_: cols[0],
                    name: cols[1],
                    rootpage: cols[3],
                    rowid,
                    columns: spec_table_columns(cols[4]),
                },
            ),
            _ => m.entries,
        },
    }
}

/// The effect of the `i`-th cell of the schema page on the model `m`. `None`
/// stands for the inputs on which reading stops without an answer: a cell
/// pointer outside the page, an interior page, a leaf index cell that
/// `index_step` cannot read, a record that cannot be read to its end, a
/// schema row of fewer than five columns, or a `CREATE TABLE` text whose last
/// `)` comes before its first `(`.
pub open spec fn master_step(
    p: Seq<u8>,
    hdr: PageHeader,
    usable: u16,
    i: int,
    m: MasterModel,
) -> Option<Result<MasterModel, DbError>> {
    match cell_at(p, 100 + hdr.size, i) {
        None => None,
        Some(c) => match hdr.page_type {
            PageType::InteriorIndex => None,
            PageType::InteriorTable => None,
            PageType::LeafIndex => match index_step(c, usable) {
                None => None,
                Some(Err(e)) => Some(Err(e)),
                Some(Ok(())) => Some(Ok(m)),
            },
            PageType::LeafTable => match spec_leaf_table_cell(c) {
                Err(e) => Some(Err(e)),
                Ok((s, l, rowid)) => match spec_parse_payload(c.subrange(s, s + l)) {
                    None => None,
                    Some(Err(e)) => Some(Err(e)),
                    Some(Ok(cols)) => if cols.len() < 5 {
                        None
                    } else if !table_columns_readable(cols[4]) {
                        None
                    } else {
                        Some(Ok(add_schema_row(m, cols, rowid)))
                    },
                },
            },
        },
    }
}

/// The model after the first `n` cells of the schema page, the error that
/// stopped it, or `None`.
pub open spec fn master_fold(p: Seq<u8>, hdr: PageHeader, usable: u16, n: nat) -> Option<
    Result<MasterModel, DbError>,
>
    decreases n,
{
    if n == 0 {
        Some(Ok(empty_master()))
    } else {
        match master_fold(p, hdr, usable, (n - 1) as nat) {
            Some(Ok(m)) => master_step(p, hdr, usable, n - 1, m),
            other => other,
        }
    }
}

/// The schema that page 1 `p` holds (its b-tree header follows the 100-byte
/// file header), the error that rejects it, or `None` where reading it stops
/// without an answer.
pub open spec fn spec_parse_master_schema_page(p: Seq<u8>, page_num: u32, usable: u16) -> Option<
    Result<MasterModel, DbError>,
> {
    if !page_header_readable(p, 100) {
        None
    } else {
        match spec_parse_page_header(p, page_num, 100) {
            Err(e) => Some(Err(e)),
            Ok(hdr) => master_fold(p, hdr, usable, hdr.num_cells_on_page as nat),
        }
    }
}

/// Once reading has stopped, later cells change nothing.
proof fn lemma_master_fold_stops(p: Seq<u8>, hdr: PageHeader, usable: u16, k: nat, n: nat)
    requires
        k <= n,
        !(master_fold(p, hdr, usable, k) matches Some(Ok(_))),
    ensures
        master_fold(p, hdr, usable, n) == master_fold(p, hdr, usable, k),
    decreases n - k,
{
    if k < n {
        lemma_master_fold_stops(p, hdr, usable, k, (n - 1) as nat);
    }
}

/// The first five columns of a schema row.
pub fn extract_schema_table(columns: &[SqliteValue]) -> (r: Result<SchemaTable, DbError>)
    requires
        columns@.len() >= 5,
    ensures
        r matches Ok(t) && t._type@ == columns@[0]@ && t.name@ == columns@[1]@ && t.tbl_name@
            == columns@[2]@ && t.rootpage@ == columns@[3]@ && t.sql@ == columns@[4]@,
{
    Ok(
        SchemaTable {
            _type: columns[0].copy_value(),
            name: columns[1].copy_value(),
            tbl_name: columns[2].copy_value(),
            rootpage: columns[3].copy_value(),
            sql: columns[4].copy_value(),
        },
    )
}

/// A copy of a list of strings.
pub fn copy_strings(v: &Vec<String>) -> (r: Vec<String>)
    ensures
        strings_view(r@) == strings_view(v@),
{
    let mut out: Vec<String> = Vec::new();
    let mut i: usize = 0;
    while i < v.len()
        invariant
            i <= v@.len(),
            out@.len() == i,
            forall|j: int| 0 <= j < i ==> out@[j]@ == v@[j]@,
        decreases v.len() - i,
    {
        let c = v[i].clone();
        assert(c@ == v@[i as int]@);
        out.push(c);
        i += 1;
    }
    proof {
        assert(strings_view(out@) =~= strings_view(v@));
    }
    out
}

/// Sets the entry named `name` to `schema`, in place when the name is there
/// already.
fn insert_schema(map: &mut Vec<(String, Schema)>, name: String, schema: Schema)
    ensures
        entries_view(final(map)@) == entries_insert(entries_view(old(map)@), name@, schema@),
{
    let ghost es = entries_view(map@);
    let mut i: usize = 0;
    while i < map.len()
        invariant
            i <= map@.len(),
            es == entries_view(map@),
            es == entries_view(old(map)@),
            forall|j: int| 0 <= j < i ==> es[j].0 != name@,
        decreases map.len() - i,
    {
        if map[i].0 == name {
            proof {
                assert(es[i as int].0 == map@[i as int].0@);
                lemma_key_index_at(es, name@, i as int);
            }
            let ghost nv = name@;
            let ghost sv = schema@;
            map.set(i, (name, schema));
            proof {
                assert(entries_view(map@) =~= es.update(i as int, (nv, sv)));
                assert(entries_insert(es, nv, sv) == es.update(i as int, (nv, sv)));
            }
            return;
        }
        assert(es[i as int].0 == map@[i as int].0@);
        i += 1;
    }
    proof {
        lemma_key_index_at(es, name@, i as int);
    }
    map.push((name, schema));
    proof {
        assert(entries_view(map@) =~= es.push((name@, schema@)));
    }
}

proof fn lemma_key_index_at(es: Seq<(Seq<char>, SchemaModel)>, k: Seq<char>, i: int)
    requires
        0 <= i <= es.len(),
        forall|j: int| 0 <= j < i ==> es[j].0 != k,
        i < es.len() ==> es[i].0 == k,
    ensures
        key_index(es, k) == i,
    decreases es.len(),
{
    if es.len() > 0 && i > 0 {
        lemma_key_index_at(es.drop_first(), k, i - 1);
    }
}

/// Reads the `i`-th cell of the schema page into `master`, as `master_step`
/// says; `master` changes only when the step succeeds.
fn master_cell_step(
    page: &[u8],
    hdr: &PageHeader,
    usable_page_size: u16,
    i: u16,
    map: &mut Vec<(String, Schema)>,
    pages: &mut Vec<u32>,
) -> (r: Option<Result<(), DbError>>)
    requires
        hdr.size <= 12,
    ensures
        match master_step(page@, *hdr, usable_page_size, i as int, master_model(old(map)@, old(pages)@)) {
            None => r is None,
            Some(Err(e)) => r matches Some(Err(e2)) && e2 == e,
            Some(Ok(m)) => r matches Some(Ok(())) && master_model(final(map)@, final(pages)@) == m,
        },
{
    let cell = match cell_slice(page, 100 + hdr.size, i) {
        Some(c) => c,
        None => {
            return None;
        },
    };
    match hdr.page_type {
        PageType::InteriorIndex => {
            let _ = parse_interior_index_cell(cell);
            None
        },
        PageType::InteriorTable => {
            let _ = parse_interior_table_cell(cell);
            None
        },
        PageType::LeafIndex => match index_cell_step(cell, usable_page_size) {
            None => None,
            Some(Err(e)) => Some(Err(e)),
            Some(Ok(())) => Some(Ok(())),
        },
        PageType::LeafTable => {
            let (rowid, payload) = match parse_leaf_table_cell(cell) {
                Err(e) => {
                    return Some(Err(e));
                },
                Ok(Cell::LeafTable { rowid, payload }) => (rowid, payload),
                Ok(_) => {
                    proof {
                        assert(false);
                    }
                    return None;
                },
            };
            let parsed_payload = match try_parse_payload(payload) {
                None => {
                    return None;
                },
                Some(Err(e)) => {
                    return Some(Err(e));
                },
                Some(Ok(pp)) => pp,
            };
            let ghost cols = values_view(parsed_payload.columns@);
            if parsed_payload.columns.len() < 5 {
                return None;
            }
            assert(cols[4] == parsed_payload.columns@[4]@);
            if !columns_readable(&parsed_payload.columns[4]) {
                return None;
            }
            let schema_table = match extract_schema_table(parsed_payload.columns.as_slice()) {
                Ok(t) => t,
                Err(e) => {
                    return Some(Err(e));
                },
            };
            let columns = match extract_table_columns(&parsed_payload.columns[4]) {
                Ok(c) => c,
                Err(e) => {
                    return Some(Err(e));
                },
            };

            if let SqliteValue::Integer(root_page) = schema_table.rootpage {
                pages.push(#[verifier::truncate] (root_page as u32));
            }
            let schema = Schema {
                _type: schema_table._type.copy_value(),
                name: schema_table.name.copy_value(),
                rootpage: schema_table.rootpage,
                rowid,
                columns,
            };
            if let SqliteValue::Text(name) = schema_table.name {
                insert_schema(map, name, schema);
            }
            assert(master_model(map@, pages@) == add_schema_row(master_model(old(map)@, old(pages)@), cols, rowid));
            Some(Ok(()))
        },
    }
}

/// Reads the schema table on page 1, or `None` where the reading stops
/// without an answer (see `master_step`). The entries it reads never share a
/// table name.
pub fn try_parse_master_schema_page(page: &[u8], page_num: u32, usable_page_size: u16) -> (r:
    Option<Result<MasterSchemaPage, DbError>>)
    ensures
        match spec_parse_master_schema_page(page@, page_num, usable_page_size) {
            None => r is None,
            Some(Err(e)) => r matches Some(Err(e2)) && e2 == e,
            Some(Ok(m)) => r matches Some(Ok(mp)) && mp@ == m && names_distinct(mp@.entries),
        },
{
    proof {
        lemma_master_names_distinct(page@, page_num, usable_page_size);
    }
    let ghost p = page@;
    let mut map: Vec<(String, Schema)> = Vec::new();
    let mut pages: Vec<u32> = Vec::new();
    let offset: usize = 100;
    let page_len = page.len();
    if offset >= page_len || (page_len == offset + 7 && matches!(
        PageType::try_from(page[offset]),
        Ok(_)
    )) {
        return None;
    }
    let page_header = match parse_page_header(&page, page_num, offset) {
        Ok(h) => h,
        Err(e) => {
            return Some(Err(e));
        },
    };
    let ghost hdr = page_header;
    let num_cells = page_header.num_cells_on_page;
    proof {
        assert(master_model(map@, pages@).entries =~= seq![]);
        assert(master_model(map@, pages@).pages =~= seq![]);
    }
    let mut i: u16 = 0;
    while i < num_cells
        invariant
            p == page@,
            hdr == page_header,
            num_cells == hdr.num_cells_on_page,
            hdr.size <= 12,
            spec_parse_master_schema_page(p, page_num, usable_page_size) == master_fold(
                p,
                hdr,
                usable_page_size,
                num_cells as nat,
            ),
            master_fold(p, hdr, usable_page_size, i as nat) == Some(
                Ok::<MasterModel, DbError>(master_model(map@, pages@)),
            ),
            i <= num_cells,
        decreases num_cells - i,
    {
        let step = master_cell_step(page, &page_header, usable_page_size, i, &mut map, &mut pages);
        match step {
            Some(Ok(())) => {},
            Some(Err(e)) => {
                proof {
                    lemma_master_fold_stops(p, hdr, usable_page_size, (i + 1) as nat, num_cells as nat);
                }
                return Some(Err(e));
            },
            None => {
                proof {
                    lemma_master_fold_stops(p, hdr, usable_page_size, (i + 1) as nat, num_cells as nat);
                }
                return None;
            },
        }
        i += 1;
    }
    let master_schema_page = MasterSchemaPage { map, b_tree_pages: pages };
    Some(Ok(master_schema_page))
}

/// Reads the schema table on page 1: for every leaf table cell, its record's
/// root page (when an integer) and its schema, keyed by table name (when
/// text); leaf index records are read and dropped.
pub fn parse_master_schema_page(page: &[u8], page_num: u32, usable_page_size: u16) -> (r: Result<
    MasterSchemaPage,
    DbError,
>)
    requires
        spec_parse_master_schema_page(page@, page_num, usable_page_size) is Some,
    ensures
        match spec_parse_master_schema_page(page@, page_num, usable_page_size) {
            Some(Err(e)) => r matches Err(e2) && e2 == e,
            Some(Ok(m)) => r matches Ok(mp) && mp@ == m && names_distinct(mp@.entries),
            None => false,
        },
{
    match try_parse_master_schema_page(page, page_num, usable_page_size) {
        Some(r) => r,
        None => {
            proof {
                assert(false);
            }
            Err(DbError::UnexpectedEof)
        },
    }
}

/// An entry of the table menu: a table name, its position and the rowid of
/// its schema row.
#[derive(Debug, Clone)]
pub struct TableUISelect {
    pub name: String,
    pub index: usize,
    pub rowid: u64,
}

/// The menu entries of the schema tables, in the order of their entries.
pub fn extract_table_name_rowid_map(master_schema_page: &MasterSchemaPage) -> (r: Result<
    Vec<TableUISelect>,
    DbError,
>)
    ensures
        r matches Ok(items) && items@.len() == master_schema_page@.entries.len() && forall|i: int|
            0 <= i < items@.len() ==> {
                &&& #[trigger] items@[i].name@ == master_schema_page@.entries[i].0
                &&& items@[i].index == i
                &&& items@[i].rowid == master_schema_page@.entries[i].1.rowid
            } && forall|i: int, j: int|
            0 <= i < j < items@.len() ==> (#[trigger] items@[i]).name@ != (#[trigger] items@[j]).name@,
{
    proof {
        use_type_invariant(master_schema_page);
    }
    let mut items: Vec<TableUISelect> = Vec::new();
    let mut index: usize = 0;
    while index < master_schema_page.map.len()
        invariant
            index <= master_schema_page.map@.len(),
            items@.len() == index,
            forall|i: int|
                0 <= i < index ==> {
                    &&& #[trigger] items@[i].name@ == master_schema_page@.entries[i].0
                    &&& items@[i].index == i
                    &&& items@[i].rowid == master_schema_page@.entries[i].1.rowid
                },
        decreases master_schema_page.map.len() - index,
    {
        let (name, schema) = &master_schema_page.map[index];
        items.insert(index, TableUISelect { name: name.clone(), index, rowid: schema.rowid });
        index += 1;
    }
    Ok(items)
}

/// The column lists of the schema entries by rowid; of two entries with the
/// same rowid the later one counts.
pub open spec fn table_map(es: Seq<(Seq<char>, SchemaModel)>) -> Map<u64, Seq<Seq<char>>>
    decreases es.len(),
{
    if es.len() == 0 {
        Map::empty()
    } else {
        table_map(es.drop_last()).insert(es.last().1.rowid, es.last().1.columns)
    }
}

/// The views of a map from rowids to column lists.
pub open spec fn columns_map_view(m: Map<u64, Vec<String>>) -> Map<u64, Seq<Seq<char>>> {
    Map::new(|k: u64| m.dom().contains(k), |k: u64| strings_view(m[k]@))
}

/// The column lists of the schema entries, keyed by the rowid of their
/// schema row.
pub fn extract_table_map(master_schema_page: &MasterSchemaPage) -> (r: Result<
    HashMap<u64, Vec<String>>,
    DbError,
>)
    ensures
        r matches Ok(m) && columns_map_view(m@) == table_map(master_schema_page@.entries),
        names_distinct(master_schema_page@.entries),
{
    proof {
        use_type_invariant(master_schema_page);
    }
    let mut items: HashMap<u64, Vec<String>> = HashMap::new();
    let ghost es = master_schema_page@.entries;
    let mut i: usize = 0;
    proof {
        assert(columns_map_view(items@) =~= table_map(es.take(0)));
    }
    while i < master_schema_page.map.len()
        invariant
            i <= master_schema_page.map@.len(),
            es == master_schema_page@.entries,
            columns_map_view(items@) == table_map(es.take(i as int)),
        decreases master_schema_page.map.len() - i,
    {
        let schema = &master_schema_page.map[i].1;
        let cols = copy_strings(&schema.columns);
        items.insert(schema.rowid, cols);
        proof {
            assert(es.take(i + 1).drop_last() =~= es.take(i as int));
            assert(es[i as int].1 == master_schema_page.map@[i as int].1@);
            assert(columns_map_view(items@) =~= table_map(es.take(i + 1)));
        }
        i += 1;
    }
    proof {
        assert(es.take(i as int) =~= es);
    }
    Ok(items)
}

/// Setting an entry keeps the names distinct, and afterwards the name maps to
/// the new schema.
pub proof fn lemma_entries_insert(es: Seq<(Seq<char>, SchemaModel)>, k: Seq<char>, v: SchemaModel)
    requires
        names_distinct(es),
    ensures
        names_distinct(entries_insert(es, k, v)),
        key_index(entries_insert(es, k, v), k) < entries_insert(es, k, v).len(),
        entries_insert(es, k, v)[key_index(entries_insert(es, k, v), k)] == (k, v),
        entries_insert(es, k, v).len() == es.len() + (if key_index(es, k) < es.len() {
            0int
        } else {
            1int
        }),
{
    lemma_key_index_bounds(es, k);
    let r = entries_insert(es, k, v);
    let i = key_index(es, k);
    if i < es.len() {
        assert forall|j: int| 0 <= j < i implies r[j].0 != k by {
            lemma_key_index_before(es, k, j);
        }
        lemma_key_index_at(r, k, i);
    } else {
        assert forall|j: int| 0 <= j < es.len() implies r[j].0 != k by {
            lemma_key_index_before(es, k, j);
        }
        lemma_key_index_at(r, k, es.len() as int);
    }
}

proof fn lemma_key_index_bounds(es: Seq<(Seq<char>, SchemaModel)>, k: Seq<char>)
    ensures
        0 <= key_index(es, k) <= es.len(),
        key_index(es, k) < es.len() ==> es[key_index(es, k)].0 == k,
    decreases es.len(),
{
    if es.len() > 0 && es[0].0 != k {
        lemma_key_index_bounds(es.drop_first(), k);
    }
}

proof fn lemma_key_index_before(es: Seq<(Seq<char>, SchemaModel)>, k: Seq<char>, j: int)
    requires
        0 <= j < key_index(es, k),
        j < es.len(),
    ensures
        es[j].0 != k,
    decreases es.len(),
{
    if j > 0 {
        lemma_key_index_before(es.drop_first(), k, j - 1);
    }
}

/// The schema entries read from page 1 never share a table name, just as the
/// keys of a map.
pub proof fn lemma_master_names_distinct(p: Seq<u8>, page_num: u32, usable: u16)
    ensures
        spec_parse_master_schema_page(p, page_num, usable) matches Some(Ok(m)) ==> names_distinct(
            m.entries,
        ),
{
    if page_header_readable(p, 100) {
        match spec_parse_page_header(p, page_num, 100) {
            Ok(hdr) => {
                lemma_master_fold_distinct(p, hdr, usable, hdr.num_cells_on_page as nat);
            },
            Err(_) => {},
        }
    }
}

proof fn lemma_master_fold_distinct(p: Seq<u8>, hdr: PageHeader, usable: u16, n: nat)
    ensures
        master_fold(p, hdr, usable, n) matches Some(Ok(m)) ==> names_distinct(m.entries),
    decreases n,
{
    if n > 0 {
        lemma_master_fold_distinct(p, hdr, usable, (n - 1) as nat);
        match master_fold(p, hdr, usable, (n - 1) as nat) {
            Some(Ok(m)) => {
                match master_step(p, hdr, usable, n - 1, m) {
                    Some(Ok(m2)) => {
                        match cell_at(p, 100 + hdr.size, n - 1) {
                            Some(c) => {
                                if let Ok((s, l, rowid)) = spec_leaf_table_cell(c) {
                                    if let Some(Ok(cols)) = spec_parse_payload(c.subrange(s, s + l)) {
                                        if cols.len() >= 5 {
                                            if let ValueModel::Text(nm) = cols[1] {
                                                lemma_entries_insert(
                                                    m.entries,
                                                    nm,
                                                    SchemaModel {
                                                        type_: cols[0],
                                                        name: cols[1],
                                                        rootpage: cols[3],
                                                        rowid,
                                                        columns: spec_table_columns(cols[4]),
                                                    },
                                                );
                                            }
                                        }
                                    }
                                }
                            },
                            None => {},
                        }
                    },
                    _ => {},
                }
            },
            _ => {},
        }
    }
}

/// Every schema row adds at most one root page: page 1 lists no more root
/// pages than it has cells.
pub proof fn lemma_master_pages_bounded(p: Seq<u8>, hdr: PageHeader, usable: u16, n: nat)
    ensures
        master_fold(p, hdr, usable, n) matches Some(Ok(m)) ==> m.pages.len() <= n && m.entries.len()
            <= n,
    decreases n,
{
    if n > 0 {
        lemma_master_pages_bounded(p, hdr, usable, (n - 1) as nat);
        match master_fold(p, hdr, usable, (n - 1) as nat) {
            Some(Ok(m)) => {
                match cell_at(p, 100 + hdr.size, n - 1) {
                    Some(c) => {
                        if let Ok((s, l, rowid)) = spec_leaf_table_cell(c) {
                            if let Some(Ok(cols)) = spec_parse_payload(c.subrange(s, s + l)) {
                                if cols.len() >= 5 {
                                    if let ValueModel::Text(nm) = cols[1] {
                                        lemma_key_index_bounds(m.entries, nm);
                                    }
                                }
                            }
                        }
                    },
                    None => {},
                }
            },
            _ => {},
        }
    }
}

/// A schema row read from a leaf table cell of page 1 adds its root page to
/// the list of table pages exactly when the root page column holds an integer
/// `r`: then `r` itself (for `0 <= r < 2^32`) is appended after the pages
/// read before; otherwise the list stays as it was.
pub proof fn lemma_schema_row_root_page(
    p: Seq<u8>,
    hdr: PageHeader,
    usable: u16,
    i: int,
    m: MasterModel,
    c: Seq<u8>,
    cols: Seq<ValueModel>,
)
    requires
        hdr.page_type == PageType::LeafTable,
        cell_at(p, 100 + hdr.size, i) == Some(c),
        spec_leaf_table_cell(c) matches Ok((s, l, _)) && spec_parse_payload(c.subrange(s, s + l))
            == Some(Ok::<Seq<ValueModel>, DbError>(cols)),
        master_step(p, hdr, usable, i, m) is Some,
    ensures
        master_step(p, hdr, usable, i, m) matches Some(Ok(m2)) && {
            &&& cols.len() >= 5
            &&& (cols[3] matches ValueModel::Integer(r) && 0 <= r < 0x1_0000_0000) ==> {
                &&& m2.pages.len() == m.pages.len() + 1
                &&& m2.pages.drop_last() == m.pages
                &&& cols[3] == ValueModel::Integer(m2.pages.last() as i64)
            }
            &&& !(cols[3] is Integer) ==> m2.pages == m.pages
        },
{
    if let ValueModel::Integer(r) = cols[3] {
        if 0 <= r < 0x1_0000_0000 {
            let m2 = master_step(p, hdr, usable, i, m)->0->Ok_0;
            assert(m2.pages =~= m.pages.push(r as u32));
            assert(m2.pages.drop_last() =~= m.pages);
        }
    }
}

/// A schema row read from a leaf table cell of page 1 whose name column is a
/// text `n` makes `n` name exactly one entry, holding the row's type, name,
/// root page, rowid and the column names of its `CREATE TABLE` text; entries
/// of other names stay where and what they were, and the list grows by one
/// only when `n` was new. A row whose name is not a text leaves the entries
/// alone.
pub proof fn lemma_schema_row_entry(
    p: Seq<u8>,
    hdr: PageHeader,
    usable: u16,
    i: int,
    m: MasterModel,
    c: Seq<u8>,
    s: int,
    l: int,
    rowid: u64,
    cols: Seq<ValueModel>,
)
    requires
        names_distinct(m.entries),
        hdr.page_type == PageType::LeafTable,
        cell_at(p, 100 + hdr.size, i) == Some(c),
        spec_leaf_table_cell(c) == Ok::<(int, int, u64), DbError>((s, l, rowid)),
        spec_parse_payload(c.subrange(s, s + l)) == Some(Ok::<Seq<ValueModel>, DbError>(cols)),
        master_step(p, hdr, usable, i, m) is Some,
    ensures
        master_step(p, hdr, usable, i, m) matches Some(Ok(m2)) && {
            &&& names_distinct(m2.entries)
            &&& (cols[1] matches ValueModel::Text(n) ==> {
                &&& exists|j: int| 0 <= j < m2.entries.len() && (#[trigger] m2.entries[j]).0 == n
                &&& forall|j: int|
                    0 <= j < m2.entries.len() && (#[trigger] m2.entries[j]).0 == n ==> m2.entries[j].1
                        == (SchemaModel {
                        type_: cols[0],
                        name: cols[1],
                        rootpage: cols[3],
                        rowid,
                        columns: spec_table_columns(cols[4]),
                    })
                &&& forall|j: int|
                    0 <= j < m.entries.len() && (#[trigger] m.entries[j]).0 != n ==> m2.entries[j]
                        == m.entries[j]
                &&& m2.entries.len() == m.entries.len() + (if (exists|j: int|
                    0 <= j < m.entries.len() && (#[trigger] m.entries[j]).0 == n) {
                    0int
                } else {
                    1int
                })
            })
            &&& !(cols[1] is Text) ==> m2.entries == m.entries
        },
{
    if let ValueModel::Text(n) = cols[1] {
        let v = SchemaModel {
            type_: cols[0],
            name: cols[1],
            rootpage: cols[3],
            rowid,
            columns: spec_table_columns(cols[4]),
        };
        let es = m.entries;
        let r = entries_insert(es, n, v);
        lemma_entries_insert(es, n, v);
        lemma_key_index_bounds(es, n);
        let k = key_index(r, n);
        lemma_key_index_bounds(r, n);
        assert(0 <= k < r.len());
        assert(r[k] == (n, v));
        assert forall|j: int| 0 <= j < r.len() && (#[trigger] r[j]).0 == n implies r[j].1 == v by {
            if j < k {
                assert(r[j].0 != r[k].0);
            } else if j > k {
                assert(r[k].0 != r[j].0);
            }
        }
        let ki = key_index(es, n);
        assert forall|j: int| 0 <= j < es.len() && (#[trigger] es[j]).0 != n implies r[j] == es[j] by {
        }
        if ki < es.len() {
            assert(es[ki].0 == n);
        } else {
            assert forall|j: int| 0 <= j < es.len() implies (#[trigger] es[j]).0 != n by {
                lemma_key_index_before(es, n, j);
            }
        }
    }
}

} // verus!
