//! B-tree page headers and the cells that a page holds.
use vstd::prelude::*;
use vstd::slice::slice_subrange;

use crate::bytes::{
    be16,
    be32,
    lemma_read_varint_inverts_encoding,
    lemma_varint_size_bounds,
    read_u16_from_page,
    read_u32_from_page,
    read_u8_from_page,
    read_varint,
    tail,
    varint_encoding,
    varint_size,
    varint_value,
};
use crate::error::DbError;
use crate::record::{spec_parse_payload, try_parse_payload};

verus! {

/// The four kinds of b-tree page.
#[derive(Debug, Clone, Copy, PartialEq, Eq, Structural)]
pub enum PageType {
    InteriorIndex,
    InteriorTable,
    LeafIndex,
    LeafTable,
}

/// A page type byte that names no b-tree page type.
#[derive(Debug, Clone, Copy)]
pub struct InvalidPageType(pub u8);

/// The page type that the byte `v` encodes.
pub open spec fn page_type_of(v: u8) -> Option<PageType> {
    if v == 0x02 {
        Some(PageType::InteriorIndex)
    } else if v == 0x05 {
        Some(PageType::InteriorTable)
    } else if v == 0x0a {
        Some(PageType::LeafIndex)
    } else if v == 0x0d {
        Some(PageType::LeafTable)
    } else {
        None
    }
}

/// Interior pages point to child pages.
pub open spec fn spec_is_interior(t: PageType) -> bool {
    t == PageType::InteriorIndex || t == PageType::InteriorTable
}

impl PageType {
    /// Whether pages of this type point to child pages.
    pub fn is_interior(&self) -> (r: bool)
        ensures
            r == spec_is_interior(*self),
    {
        matches!(self, PageType::InteriorIndex | PageType::InteriorTable)
    }

    /// The page type of a type byte.
    pub fn try_from(v: u8) -> (r: Result<PageType, InvalidPageType>)
        ensures
            page_type_of(v) is Some ==> r is Ok && r->Ok_0 == page_type_of(v)->0,
            page_type_of(v) is None ==> r is Err && r->Err_0.0 == v,
    {
        match v {
            0x02 => Ok(PageType::InteriorIndex),
            0x05 => Ok(PageType::InteriorTable),
            0x0a => Ok(PageType::LeafIndex),
            0x0d => Ok(PageType::LeafTable),
            _ => Err(InvalidPageType(v)),
        }
    }
}

/// The b-tree header of a page.
#[derive(Debug, Clone, Copy)]
pub struct PageHeader {
    pub page_num: u32,
    pub page_type: PageType,
    pub first_free_block: u16,
    pub num_cells_on_page: u16,
    pub start_cell_content: u16,
    pub frag_free_bytes: u8,
    pub rightmost_pointer: Option<u32>,
    pub size: usize,
}

pub const FREE_BLOCK_OFFSET: usize = 1;

pub const NUM_CELLS_OFFSET: usize = 3;

pub const START_CELL_CONTENT_OFFSET: usize = 5;

pub const FRAG_FREE_BYTES_OFFSET: usize = 7;

pub const RIGHTMOST_POINTER_OFFSET: usize = 8;

/// The page header can be read at `offset`: its type byte lies in the page,
/// and so does the fragmented-bytes count once the three fields before it do.
pub open spec fn page_header_readable(p: Seq<u8>, offset: int) -> bool {
    &&& 0 <= offset < p.len()
    &&& (p.len() == offset + 7 ==> page_type_of(p[offset]) is None)
}

/// The header at `offset` of page `p`, or the first field that fails: an
/// unknown type byte, or a field that does not fit in the page.
pub open spec fn spec_parse_page_header(p: Seq<u8>, page_num: u32, offset: int) -> Result<
    PageHeader,
    DbError,
> {
    match page_type_of(p[offset]) {
        None => Err(DbError::InvalidPageType(p[offset])),
        Some(t) => if offset + 7 > p.len() {
            Err(DbError::PageTooShort)
        } else if spec_is_interior(t) && offset + 12 > p.len() {
            Err(DbError::PageTooShort)
        } else {
            Ok(
                PageHeader {
                    page_num,
                    page_type: t,
                    first_free_block: be16(p, offset + 1) as u16,
                    num_cells_on_page: be16(p, offset + 3) as u16,
                    start_cell_content: be16(p, offset + 5) as u16,
                    frag_free_bytes: p[offset + 7],
                    rightmost_pointer: if spec_is_interior(t) {
                        Some(be32(p, offset + 8) as u32)
                    } else {
                        None
                    },
                    size: if spec_is_interior(t) {
                        12
                    } else {
                        8
                    },
                },
            )
        },
    }
}

/// Reads the b-tree page header that starts at `offset`.
pub fn parse_page_header(page: &[u8], page_num: u32, offset: usize) -> (r: Result<
    PageHeader,
    DbError,
>)
    requires
        page_header_readable(page@, offset as int),
    ensures
        r == spec_parse_page_header(page@, page_num, offset as int),
{
    let page_len = page.len();
    assert(page_len == page@.len());
    let page_type_u8 = read_u8_from_page(&page, offset)?;
    let page_type = match PageType::try_from(page_type_u8) {
        Ok(t) => t,
        Err(v) => {
            return Err(DbError::InvalidPageType(v.0));
        },
    };

    let first_free_block = read_u16_from_page(&page, offset + FREE_BLOCK_OFFSET)?;
    let num_cells_on_page = read_u16_from_page(&page, offset + NUM_CELLS_OFFSET)?;
    let start_cell_content = read_u16_from_page(&page, offset + START_CELL_CONTENT_OFFSET)?;
    let frag_free_bytes = read_u8_from_page(&page, offset + FRAG_FREE_BYTES_OFFSET)?;

    let size: usize = if page_type.is_interior() {
        12
    } else {
        8
    };

    let mut rightmost_pointer = None;
    if page_type.is_interior() {
        rightmost_pointer = Some(read_u32_from_page(&page, offset + RIGHTMOST_POINTER_OFFSET)?);
    }

    Ok(
        PageHeader {
            page_num,
            page_type,
            first_free_block,
            num_cells_on_page,
            start_cell_content,
            frag_free_bytes,
            rightmost_pointer: rightmost_pointer,
            size,
        },
    )
}

/// A parsed cell of a b-tree page; leaf payloads borrow from the page.
#[derive(Debug)]
pub enum Cell<'a> {
    InteriorIndex { left_child_page: u32, key: Vec<u8> },
    InteriorTable { left_child_page: u32, key: u64 },
    LeafIndex { payload: &'a [u8], first_overflow_page: Option<u32> },
    LeafTable { rowid: u64, payload: &'a [u8] },
}

/// Interior index cells are not decoded: the cell is a fixed placeholder.
pub fn parse_interior_index_cell(cell: &[u8]) -> (r: Result<Cell<'_>, DbError>)
    ensures
        r matches Ok(Cell::InteriorIndex { left_child_page, key }) && left_child_page == 0
            && key@ == seq![0u8, 1u8, 2u8],
{
    let key: Vec<u8> = vec![0, 1, 2];
    assert(key@ =~= seq![0u8, 1u8, 2u8]);
    Ok(Cell::InteriorIndex { left_child_page: 0, key })
}

/// Interior table cells are not decoded: the cell is a fixed placeholder.
pub fn parse_interior_table_cell(cell: &[u8]) -> (r: Result<Cell<'_>, DbError>)
    ensures
        r matches Ok(Cell::InteriorTable { left_child_page, key }) && left_child_page == 0 && key
            == 0,
{
    Ok(Cell::InteriorTable { left_child_page: 0, key: 0 })
}

/// The varint at the start of `c`: its value and its size.
pub open spec fn head_varint(c: Seq<u8>) -> (nat, nat) {
    (varint_value(tail(c, 0)), varint_size(tail(c, 0)))
}

/// How a leaf index cell splits up: payload start and length, and the first
/// overflow page when the payload is too large to be stored on the page alone.
pub open spec fn spec_leaf_index_cell(c: Seq<u8>, usable_size: u16) -> Result<
    (int, int, Option<u32>),
    DbError,
> {
    let start = head_varint(c).1 as int;
    let len = (head_varint(c).0 as u64) as usize as int;
    let max_local = usable_size - 35;
    if start + len > c.len() {
        Err(DbError::CellPayloadTruncated)
    } else if len > max_local {
        if start + len + 4 > c.len() {
            Err(DbError::PageTooShort)
        } else {
            Ok((start, len, Some(be32(c, start + len) as u32)))
        }
    } else {
        Ok((start, len, None))
    }
}

/// The payload that a leaf index cell declares does not fit in the cell.
pub open spec fn leaf_index_payload_truncated(c: Seq<u8>) -> bool {
    head_varint(c).1 + (head_varint(c).0 as u64) as usize as int > c.len()
}

/// A leaf index cell can be read with usable page size `usable_size`: the
/// size is at least 35, or the payload is found truncated before the size is
/// used.
pub open spec fn leaf_index_cell_readable(c: Seq<u8>, usable_size: u16) -> bool {
    usable_size >= 35 || leaf_index_payload_truncated(c)
}

/// Reads a leaf index cell: the payload length varint, the payload, and an
/// overflow page number when the payload exceeds `usable_size - 35` bytes.
pub fn parse_leaf_index_cell(cell: &[u8], usable_size: u16) -> (r: Result<Cell<'_>, DbError>)
    requires
        leaf_index_cell_readable(cell@, usable_size),
    ensures
        match spec_leaf_index_cell(cell@, usable_size) {
            Ok((start, len, overflow)) => r matches Ok(Cell::LeafIndex { payload, first_overflow_page })
                && payload@ == cell@.subrange(start, start + len) && first_overflow_page == overflow,
            Err(e) => r matches Err(e2) && e2 == e,
        },
{
    let (payload_len, varint_size) = read_varint(&cell, 0);
    proof {
        lemma_varint_size_bounds(tail(cell@, 0));
    }
    let offset = varint_size;
    let payload_len = payload_len as usize;

    if payload_len > cell.len() - offset {
        return Err(DbError::CellPayloadTruncated);
    }
    let payload = slice_subrange(cell, offset, offset + payload_len);

    let max_local = (usable_size as usize) - 35;

    let first_overflow_page = if payload_len > max_local {
        Some(read_u32_from_page(cell, offset + payload_len)?)
    } else {
        None
    };

    Ok(Cell::LeafIndex { payload, first_overflow_page })
}

/// How a leaf table cell splits up: payload start and length, and the rowid;
/// fails when the declared payload does not fit in the cell.
pub open spec fn spec_leaf_table_cell(c: Seq<u8>) -> Result<(int, int, u64), DbError> {
    let n1 = head_varint(c).1 as int;
    let rowid = varint_value(tail(c, n1)) as u64;
    let n2 = varint_size(tail(c, n1)) as int;
    let len = (head_varint(c).0 as u64) as usize as int;
    if len > c.len() - (n1 + n2) {
        Err(DbError::PayloadLargerThanCell)
    } else {
        Ok((n1 + n2, len, rowid))
    }
}

/// Reads a leaf table cell: the payload size varint, the rowid varint and the
/// payload; the cell may hold more bytes than the payload needs.
pub fn parse_leaf_table_cell(cell: &[u8]) -> (r: Result<Cell<'_>, DbError>)
    ensures
        match spec_leaf_table_cell(cell@) {
            Ok((start, len, rowid)) => r matches Ok(Cell::LeafTable { rowid: id, payload })
                && payload@ == cell@.subrange(start, start + len) && id == rowid,
            Err(e) => r matches Err(e2) && e2 == e,
        },
{
    let (payload_size, payload_varint_size) = read_varint(&cell, 0);
    proof {
        lemma_varint_size_bounds(tail(cell@, 0));
    }
    let (rowid, rowid_varint_size) = read_varint(&cell, payload_varint_size);
    proof {
        lemma_varint_size_bounds(tail(cell@, payload_varint_size as int));
    }
    let offset = payload_varint_size + rowid_varint_size;

    if payload_size as usize > cell.len() - offset {
        return Err(DbError::PayloadLargerThanCell);
    }

    let payload = slice_subrange(cell, offset, offset + (payload_size as usize));

    Ok(Cell::LeafTable { rowid, payload })
}

/// Interior pages, and only they, have a 12-byte header with a rightmost
/// child pointer; leaf pages have an 8-byte header.
pub proof fn lemma_page_header_shape(p: Seq<u8>, page_num: u32, offset: int)
    requires
        page_header_readable(p, offset),
    ensures
        spec_parse_page_header(p, page_num, offset) matches Ok(h) ==> {
            &&& h.page_num == page_num
            &&& (h.size == 12 <==> spec_is_interior(h.page_type))
            &&& (h.size == 8 <==> !spec_is_interior(h.page_type))
            &&& (h.rightmost_pointer is Some <==> spec_is_interior(h.page_type))
            &&& page_type_of(p[offset]) == Some(h.page_type)
        },
{
}

/// The payload of an accepted leaf cell lies inside the cell, right after its
/// varints.
pub proof fn lemma_leaf_payload_in_cell(c: Seq<u8>, usable_size: u16)
    ensures
        spec_leaf_table_cell(c) matches Ok((s, l, _)) ==> 0 <= s <= 18 && 0 <= l && s + l
            <= c.len() && (c.len() > 0 ==> s >= 1),
        spec_leaf_index_cell(c, usable_size) matches Ok((s, l, _)) ==> 0 <= s <= 9 && 0 <= l
            && s + l <= c.len() && (c.len() > 0 ==> s >= 1),
{
    lemma_varint_size_bounds(tail(c, 0));
    let n1 = varint_size(tail(c, 0)) as int;
    if 0 <= n1 <= c.len() {
        lemma_varint_size_bounds(tail(c, n1));
    }
}

/// The bytes from the `i`-th cell pointer's target to the end of the page,
/// or `None` where the pointer or its target lies outside the page.
pub open spec fn cell_at(p: Seq<u8>, base: int, i: int) -> Option<Seq<u8>> {
    let ptr = base + 2 * i;
    if ptr + 2 > p.len() {
        None
    } else if be16(p, ptr) > p.len() {
        None
    } else {
        Some(p.skip(be16(p, ptr)))
    }
}

/// The bytes from the `i`-th cell pointer (the pointers start at `base`) to
/// the end of the page, or `None` where the pointer or its target lies
/// outside the page.
pub fn cell_slice(page: &[u8], base: usize, i: u16) -> (r: Option<&[u8]>)
    requires
        base <= 112,
    ensures
        match cell_at(page@, base as int, i as int) {
            None => r is None,
            Some(c) => r matches Some(s) && s@ == c,
        },
{
    let page_len = page.len();
    let ptr_offset = base + (i as usize) * 2;
    let cell_pointer = match read_u16_from_page(page, ptr_offset) {
        Ok(v) => v,
        Err(_) => {
            return None;
        },
    };
    if cell_pointer as usize > page_len {
        return None;
    }
    let cell = slice_subrange(page, cell_pointer as usize, page_len);
    assert(cell@ =~= page@.skip(cell_pointer as int));
    Some(cell)
}

/// What reading a leaf index cell and its record yields (the record itself is
/// dropped): the error that rejects it, or `None` where reading stops without
/// an answer (a usable page size below 35 for a payload that fits, or a
/// record that cannot be read to its end).
pub open spec fn index_step(c: Seq<u8>, usable: u16) -> Option<Result<(), DbError>> {
    if !leaf_index_cell_readable(c, usable) {
        None
    } else {
        match spec_leaf_index_cell(c, usable) {
            Err(e) => Some(Err(e)),
            Ok((s, l, _)) => match spec_parse_payload(c.subrange(s, s + l)) {
                None => None,
                Some(Err(e)) => Some(Err(e)),
                Some(Ok(_)) => Some(Ok(())),
            },
        }
    }
}

/// Reads a leaf index cell and its record, as `index_step` says.
pub fn index_cell_step(cell: &[u8], usable_size: u16) -> (r: Option<Result<(), DbError>>)
    ensures
        match index_step(cell@, usable_size) {
            None => r is None,
            Some(Err(e)) => r matches Some(Err(e2)) && e2 == e,
            Some(Ok(())) => r matches Some(Ok(())),
        },
{
    if usable_size < 35 {
        let (payload_len, varint_size) = read_varint(&cell, 0);
        proof {
            lemma_varint_size_bounds(tail(cell@, 0));
        }
        if payload_len as usize <= cell.len() - varint_size {
            return None;
        }
    }
    match parse_leaf_index_cell(cell, usable_size) {
        Err(e) => Some(Err(e)),
        Ok(Cell::LeafIndex { payload, first_overflow_page: _ }) => match try_parse_payload(payload) {
            None => None,
            Some(Err(e)) => Some(Err(e)),
            Some(Ok(_)) => Some(Ok(())),
        },
        Ok(_) => {
            proof {
                assert(false);
            }
            None
        },
    }
}

/// An accepted page header holds the numbers stored at its offset: the type
/// byte, the big-endian 16-bit freeblock, cell count and content start at
/// +1, +3 and +5, the fragmented byte count at +7, and for interior pages the
/// big-endian 32-bit rightmost pointer at +8. It is accepted exactly when the
/// type byte names a page type and the header's 8 (leaf) or 12 (interior)
/// bytes lie in the page.
pub proof fn lemma_page_header_fields(p: Seq<u8>, page_num: u32, offset: int)
    requires
        page_header_readable(p, offset),
    ensures
        spec_parse_page_header(p, page_num, offset) is Ok <==> {
            &&& (p[offset] == 2 || p[offset] == 5 || p[offset] == 10 || p[offset] == 13)
            &&& offset + 8 <= p.len()
            &&& (p[offset] == 2 || p[offset] == 5) ==> offset + 12 <= p.len()
        },
        spec_parse_page_header(p, page_num, offset) matches Ok(h) ==> {
            &&& h.page_num == page_num
            &&& (h.page_type == PageType::InteriorIndex <==> p[offset] == 2)
            &&& (h.page_type == PageType::InteriorTable <==> p[offset] == 5)
            &&& (h.page_type == PageType::LeafIndex <==> p[offset] == 10)
            &&& (h.page_type == PageType::LeafTable <==> p[offset] == 13)
            &&& h.first_free_block as int == p[offset + 1] * 256 + p[offset + 2]
            &&& h.num_cells_on_page as int == p[offset + 3] * 256 + p[offset + 4]
            &&& h.start_cell_content as int == p[offset + 5] * 256 + p[offset + 6]
            &&& h.frag_free_bytes == p[offset + 7]
            &&& (p[offset] == 2 || p[offset] == 5) ==> {
                &&& h.size == 12
                &&& h.rightmost_pointer matches Some(r) && r as int == p[offset + 8] * 16777216
                    + p[offset + 9] * 65536 + p[offset + 10] * 256 + p[offset + 11]
            }
            &&& (p[offset] == 10 || p[offset] == 13) ==> h.size == 8 && h.rightmost_pointer is None
        },
{
}

/// A leaf table cell written as the varint of the payload length `len`, the
/// varint of the rowid, the payload and any further bytes reads back as that
/// rowid and that payload: the payload starts right after both varints, each
/// taken at its own length.
pub proof fn lemma_leaf_table_cell_layout(len: u64, rowid: u64, payload: Seq<u8>, rest: Seq<u8>)
    requires
        payload.len() == len,
        (varint_encoding(len) + varint_encoding(rowid) + payload + rest).len() <= usize::MAX,
    ensures
        ({
            let c = varint_encoding(len) + varint_encoding(rowid) + payload + rest;
            let start = varint_encoding(len).len() + varint_encoding(rowid).len();
            &&& spec_leaf_table_cell(c) == Ok::<(int, int, u64), DbError>((start as int, len as int, rowid))
            &&& c.subrange(start as int, start + len) == payload
        }),
{
    let e1 = varint_encoding(len);
    let e2 = varint_encoding(rowid);
    let c = e1 + e2 + payload + rest;
    assert(c =~= Seq::<u8>::empty() + e1 + (e2 + payload + rest));
    lemma_read_varint_inverts_encoding(len, Seq::<u8>::empty(), e2 + payload + rest);
    assert(c =~= e1 + e2 + (payload + rest));
    lemma_read_varint_inverts_encoding(rowid, e1, payload + rest);
    assert(c.subrange((e1.len() + e2.len()) as int, e1.len() + e2.len() + len) =~= payload);
}

/// A leaf index cell written as the varint of the payload length `len`, the
/// payload and further bytes: the payload starts right after the varint; a
/// payload longer than `usable_size - 35` bytes is followed by the big-endian
/// number of its first overflow page (`PageTooShort` when those four bytes
/// are missing); and a cell with fewer than `len` bytes after the varint is
/// reported truncated, whatever the usable size.
pub proof fn lemma_leaf_index_cell_layout(
    len: u64,
    payload: Seq<u8>,
    rest: Seq<u8>,
    usable_size: u16,
)
    requires
        (varint_encoding(len) + payload + rest).len() <= usize::MAX,
    ensures
        ({
            let c = varint_encoding(len) + payload + rest;
            let start = varint_encoding(len).len() as int;
            &&& payload.len() < len <= usize::MAX ==> rest.len() == 0 ==> spec_leaf_index_cell(
                c,
                usable_size,
            )
                == Err::<(int, int, Option<u32>), DbError>(DbError::CellPayloadTruncated)
            &&& payload.len() == len ==> {
                &&& c.subrange(start, start + len) == payload
                &&& usable_size >= 35 && len <= usable_size - 35 ==> spec_leaf_index_cell(
                    c,
                    usable_size,
                ) == Ok::<(int, int, Option<u32>), DbError>((start, len as int, None))
                &&& usable_size >= 35 && len > usable_size - 35 && rest.len() >= 4
                    ==> (spec_leaf_index_cell(c, usable_size) matches Ok((s, l, Some(v))) && s
                    == start && l == len && v as int == rest[0] * 16777216 + rest[1] * 65536
                    + rest[2] * 256 + rest[3])
                &&& usable_size >= 35 && len > usable_size - 35 && rest.len() < 4
                    ==> spec_leaf_index_cell(c, usable_size) == Err::<(int, int, Option<u32>), DbError>(
                    DbError::PageTooShort,
                )
            }
        }),
{
    let e = varint_encoding(len);
    let c = e + payload + rest;
    assert(c =~= Seq::<u8>::empty() + e + (payload + rest));
    lemma_read_varint_inverts_encoding(len, Seq::<u8>::empty(), payload + rest);
    if payload.len() == len {
        assert(c.subrange(e.len() as int, e.len() + len) =~= payload);
        if rest.len() >= 4 {
            assert(c[e.len() + len] == rest[0]);
            assert(c[e.len() + len + 1] == rest[1]);
            assert(c[e.len() + len + 2] == rest[2]);
            assert(c[e.len() + len + 3] == rest[3]);
        }
    }
}

/// A leaf table cell whose bytes after the two varints are fewer than the
/// payload length it declares is refused with `PayloadLargerThanCell`.
pub proof fn lemma_leaf_table_cell_too_short(len: u64, rowid: u64, short: Seq<u8>)
    requires
        short.len() < len <= usize::MAX,
    ensures
        spec_leaf_table_cell(varint_encoding(len) + varint_encoding(rowid) + short) == Err::<
            (int, int, u64),
            DbError,
        >(DbError::PayloadLargerThanCell),
{
    let e1 = varint_encoding(len);
    let e2 = varint_encoding(rowid);
    let c = e1 + e2 + short;
    assert(c =~= Seq::<u8>::empty() + e1 + (e2 + short));
    lemma_read_varint_inverts_encoding(len, Seq::<u8>::empty(), e2 + short);
    assert(c =~= e1 + e2 + short);
    lemma_read_varint_inverts_encoding(rowid, e1, short);
}

} // verus!
