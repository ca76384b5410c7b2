//! The 100-byte header at the start of a database file.
use vstd::prelude::*;

use crate::bytes::{be16, be32, tail, read_u16, read_u32, read_u8, ByteReader};
use crate::error::DbError;

verus! {

/// What the rest of the file is read with: the page geometry, the page count
/// and the version of SQLite that last wrote the file (0 when unset).
#[derive(Debug, Clone, Copy)]
pub struct SqliteHeader {
    pub page_size: u16,
    pub size_in_pages: u32,
    pub usable_page_size: u16,
    pub sqlite_version_num: u32,
}

/// The encoding of the text values of a database.
#[derive(Debug, Clone, Copy, PartialEq, Eq, Structural)]
pub enum DBTextEncoding {
    Utf8,
    Utf16Le,
    Utf16Be,
}

impl DBTextEncoding {
    /// The encoding with header code 1, 2 or 3.
    pub fn try_from(value: u32) -> (r: Result<DBTextEncoding, DbError>)
        ensures
            value == 1 ==> r == Ok::<DBTextEncoding, DbError>(DBTextEncoding::Utf8),
            value == 2 ==> r == Ok::<DBTextEncoding, DbError>(DBTextEncoding::Utf16Le),
            value == 3 ==> r == Ok::<DBTextEncoding, DbError>(DBTextEncoding::Utf16Be),
            !(1 <= value <= 3) ==> r == Err::<DBTextEncoding, DbError>(
                DbError::InvalidTextEncoding(value),
            ),
    {
        match value {
            1 => Ok(DBTextEncoding::Utf8),
            2 => Ok(DBTextEncoding::Utf16Le),
            3 => Ok(DBTextEncoding::Utf16Be),
            _ => Err(DbError::InvalidTextEncoding(value)),
        }
    }
}

/// `n` is 1, 2, 4, 8, ...
pub open spec fn is_power_of_two(n: int) -> bool
    decreases n,
{
    if n <= 0 {
        false
    } else if n == 1 {
        true
    } else {
        n % 2 == 0 && is_power_of_two(n / 2)
    }
}

/// A page size that a database may declare.
pub open spec fn valid_page_size(page_size: int) -> bool {
    512 <= page_size <= 32768 && is_power_of_two(page_size)
}

/// The bytes `"SQLite format 3\0"` that every database file starts with.
pub open spec fn sqlite_magic() -> Seq<u8> {
    seq![
        0x53u8,
        0x51u8,
        0x4cu8,
        0x69u8,
        0x74u8,
        0x65u8,
        0x20u8,
        0x66u8,
        0x6fu8,
        0x72u8,
        0x6du8,
        0x61u8,
        0x74u8,
        0x20u8,
        0x33u8,
        0x00u8,
    ]
}

/// Whether the 20 reserved bytes at offset 72 are all zero.
pub open spec fn reserved_zero(b: Seq<u8>) -> bool {
    forall|i: int| 72 <= i < 92 ==> b[i] == 0
}

/// The header that the bytes `b` (from the file's start) describe, or the
/// first check that fails, in the order in which the fields are read: a field
/// that lies past the end of `b` fails with `UnexpectedEof`.
pub open spec fn spec_read_header(b: Seq<u8>) -> Result<SqliteHeader, DbError> {
    if b.len() < 16 {
        Err(DbError::UnexpectedEof)
    } else if b.subrange(0, 16) != sqlite_magic() {
        Err(DbError::InvalidMagic)
    } else if b.len() < 18 {
        Err(DbError::UnexpectedEof)
    } else if !valid_page_size(be16(b, 16)) {
        Err(DbError::InvalidPageSize)
    } else if b.len() < 22 {
        Err(DbError::UnexpectedEof)
    } else if b[21] != 64 {
        Err(DbError::InvalidMaxPayloadFrac(b[21]))
    } else if b.len() < 23 {
        Err(DbError::UnexpectedEof)
    } else if b[22] != 32 {
        Err(DbError::InvalidMinPayloadFrac(b[22]))
    } else if b.len() < 24 {
        Err(DbError::UnexpectedEof)
    } else if b[23] != 32 {
        Err(DbError::InvalidLeafPayloadFrac(b[23]))
    } else if b.len() < 48 {
        Err(DbError::UnexpectedEof)
    } else if be32(b, 44) > 4 {
        Err(DbError::InvalidSchemaFormat(be32(b, 44) as u32))
    } else if b.len() < 60 {
        Err(DbError::UnexpectedEof)
    } else if !(1 <= be32(b, 56) <= 3) {
        Err(DbError::InvalidTextEncoding(be32(b, 56) as u32))
    } else if b.len() < 68 {
        Err(DbError::UnexpectedEof)
    } else if be32(b, 52) == 0 && be32(b, 64) != 0 {
        Err(DbError::InvalidVacuumSettings(be32(b, 52) as u32, be32(b, 64) as u32))
    } else if b.len() < 92 {
        Err(DbError::UnexpectedEof)
    } else if !reserved_zero(b) {
        Err(DbError::InvalidReserved)
    } else if b.len() < 100 {
        Err(DbError::UnexpectedEof)
    } else if be16(b, 16) - b[20] < 480 {
        Err(DbError::InvalidUsableSize((be16(b, 16) - b[20]) as u16))
    } else {
        Ok(
            SqliteHeader {
                page_size: be16(b, 16) as u16,
                size_in_pages: be32(b, 28) as u32,
                usable_page_size: (be16(b, 16) - b[20]) as u16,
                sqlite_version_num: be32(b, 96) as u32,
            },
        )
    }
}

/// Whether `page_size` is a page size that a database may declare.
pub fn is_valid_page_size(page_size: u16) -> (r: bool)
    ensures
        r == valid_page_size(page_size as int),
{
    if page_size < 512 || page_size > 32768 {
        return false;
    }
    let mut n: u16 = page_size;
    while n > 1 && n % 2 == 0
        invariant
            n >= 1,
            is_power_of_two(n as int) == is_power_of_two(page_size as int),
        decreases n,
    {
        n = n / 2;
    }
    n == 1
}

/// Reads the 16 magic bytes and checks them.
pub fn read_magic(reader: &mut ByteReader) -> (r: Result<Vec<u8>, DbError>)
    ensures
        final(reader).data() == old(reader).data(),
        old(reader).pos() + 16 <= old(reader).data().len() ==> {
            let got = old(reader).data().subrange(
                old(reader).pos() as int,
                (old(reader).pos() + 16) as int,
            );
            &&& final(reader).pos() == old(reader).pos() + 16
            &&& got == sqlite_magic() ==> r is Ok && r->Ok_0@ == got
            &&& got != sqlite_magic() ==> r == Err::<Vec<u8>, DbError>(DbError::InvalidMagic)
        },
        old(reader).pos() + 16 > old(reader).data().len() ==> r == Err::<Vec<u8>, DbError>(
            DbError::UnexpectedEof,
        ),
{
    let magic_bytes = reader.read_exact(16)?;
    let expected: Vec<u8> = vec![
        0x53u8,
        0x51u8,
        0x4cu8,
        0x69u8,
        0x74u8,
        0x65u8,
        0x20u8,
        0x66u8,
        0x6fu8,
        0x72u8,
        0x6du8,
        0x61u8,
        0x74u8,
        0x20u8,
        0x33u8,
        0x00u8,
    ];
    assert(expected@ =~= sqlite_magic());
    let mut i: usize = 0;
    while i < 16
        invariant
            i <= 16,
            magic_bytes@.len() == 16,
            reader.data() == old(reader).data(),
            old(reader).pos() + 16 <= old(reader).data().len(),
            reader.pos() == old(reader).pos() + 16,
            magic_bytes@ == old(reader).data().subrange(
                old(reader).pos() as int,
                (old(reader).pos() + 16) as int,
            ),
            expected@ == sqlite_magic(),
            forall|j: int| 0 <= j < i ==> magic_bytes@[j] == expected@[j],
        decreases 16 - i,
    {
        if magic_bytes[i] != expected[i] {
            return Err(DbError::InvalidMagic);
        }
        i += 1;
    }
    assert(magic_bytes@ =~= sqlite_magic());
    Ok(magic_bytes)
}

/// Reads the page size and checks it.
pub fn read_page_size(reader: &mut ByteReader) -> (r: Result<u16, DbError>)
    ensures
        final(reader).data() == old(reader).data(),
        old(reader).pos() + 2 <= old(reader).data().len() ==> {
            let v = be16(old(reader).data(), old(reader).pos() as int);
            &&& final(reader).pos() == old(reader).pos() + 2
            &&& valid_page_size(v) ==> r == Ok::<u16, DbError>(v as u16)
            &&& !valid_page_size(v) ==> r == Err::<u16, DbError>(DbError::InvalidPageSize)
        },
        old(reader).pos() + 2 > old(reader).data().len() ==> r == Err::<u16, DbError>(
            DbError::UnexpectedEof,
        ),
{
    let page_size = read_u16(reader)?;
    if !is_valid_page_size(page_size) {
        return Err(DbError::InvalidPageSize);
    }
    Ok(page_size)
}

/// Reads the maximum embedded payload fraction, which must be 64.
pub fn read_max_payload_frac(reader: &mut ByteReader) -> (r: Result<u8, DbError>)
    ensures
        final(reader).data() == old(reader).data(),
        old(reader).pos() + 1 <= old(reader).data().len() ==> {
            let v = old(reader).data()[old(reader).pos() as int];
            &&& final(reader).pos() == old(reader).pos() + 1
            &&& v == 64 ==> r == Ok::<u8, DbError>(v)
            &&& v != 64 ==> r == Err::<u8, DbError>(DbError::InvalidMaxPayloadFrac(v))
        },
        old(reader).pos() + 1 > old(reader).data().len() ==> r == Err::<u8, DbError>(
            DbError::UnexpectedEof,
        ),
{
    let max_payload_frac = read_u8(reader)?;
    if max_payload_frac != 64 {
        return Err(DbError::InvalidMaxPayloadFrac(max_payload_frac));
    }
    Ok(max_payload_frac)
}

/// Reads the minimum embedded payload fraction, which must be 32.
pub fn read_min_payload_frac(reader: &mut ByteReader) -> (r: Result<u8, DbError>)
    ensures
        final(reader).data() == old(reader).data(),
        old(reader).pos() + 1 <= old(reader).data().len() ==> {
            let v = old(reader).data()[old(reader).pos() as int];
            &&& final(reader).pos() == old(reader).pos() + 1
            &&& v == 32 ==> r == Ok::<u8, DbError>(v)
            &&& v != 32 ==> r == Err::<u8, DbError>(DbError::InvalidMinPayloadFrac(v))
        },
        old(reader).pos() + 1 > old(reader).data().len() ==> r == Err::<u8, DbError>(
            DbError::UnexpectedEof,
        ),
{
    let min_payload_frac = read_u8(reader)?;
    if min_payload_frac != 32 {
        return Err(DbError::InvalidMinPayloadFrac(min_payload_frac));
    }
    Ok(min_payload_frac)
}

/// Reads the leaf payload fraction, which must be 32.
pub fn read_leaf_payload_frac(reader: &mut ByteReader) -> (r: Result<u8, DbError>)
    ensures
        final(reader).data() == old(reader).data(),
        old(reader).pos() + 1 <= old(reader).data().len() ==> {
            let v = old(reader).data()[old(reader).pos() as int];
            &&& final(reader).pos() == old(reader).pos() + 1
            &&& v == 32 ==> r == Ok::<u8, DbError>(v)
            &&& v != 32 ==> r == Err::<u8, DbError>(DbError::InvalidLeafPayloadFrac(v))
        },
        old(reader).pos() + 1 > old(reader).data().len() ==> r == Err::<u8, DbError>(
            DbError::UnexpectedEof,
        ),
{
    let leaf_payload_frac = read_u8(reader)?;
    if leaf_payload_frac != 32 {
        return Err(DbError::InvalidLeafPayloadFrac(leaf_payload_frac));
    }
    Ok(leaf_payload_frac)
}

/// Whether every byte of `bytes` is zero.
fn all_zero(bytes: &Vec<u8>) -> (r: bool)
    ensures
        r == (forall|j: int| 0 <= j < bytes@.len() ==> bytes@[j] == 0),
{
    let mut i: usize = 0;
    while i < bytes.len()
        invariant
            i <= bytes@.len(),
            forall|j: int| 0 <= j < i ==> bytes@[j] == 0,
        decreases bytes.len() - i,
    {
        if bytes[i] != 0 {
            return false;
        }
        i += 1;
    }
    true
}

/// Reads and checks the database header from the reader's position: the
/// magic string, the page size, the payload fractions, the schema format, the
/// text encoding, the vacuum settings, the reserved bytes and the usable page
/// size, in that order.
pub fn read_header(reader: &mut ByteReader) -> (r: Result<SqliteHeader, DbError>)
    ensures
        final(reader).data() == old(reader).data(),
        r == spec_read_header(tail(old(reader).data(), old(reader).pos() as int)),
        r is Ok ==> final(reader).pos() == old(reader).pos() + 100,
{
    let ghost b = tail(reader.data(), reader.pos() as int);
    let ghost p0 = reader.pos() as int;
    proof {
        if p0 + 16 <= reader.data().len() {
            assert(b.subrange(0, 16) =~= reader.data().subrange(p0, p0 + 16));
        }
    }
    let _magic_bytes = read_magic(reader)?;
    let page_size = read_page_size(reader)?;

    let _format_write_version = read_u8(reader)?;
    let _format_read_version = read_u8(reader)?;

    let reserved_space = read_u8(reader)?;
    let _max_payload_frac = read_max_payload_frac(reader)?;
    let _min_payload_frac = read_min_payload_frac(reader)?;
    let _leaf_payload_frac = read_leaf_payload_frac(reader)?;

    let _file_change_count = read_u32(reader)?;
    let size_in_pages = read_u32(reader)?;
    let _first_freelist_trunk_page_num = read_u32(reader)?;
    let _num_freelist_pages = read_u32(reader)?;
    let _schema_cookie = read_u32(reader)?;

    let schema_format = read_u32(reader)?;
    if schema_format > 4 {
        return Err(DbError::InvalidSchemaFormat(schema_format));
    }
    let _suggested_cache_size = read_u32(reader)?;

    let largest_b_tree_root_page_num = read_u32(reader)?;

    let text_encoding_u32 = read_u32(reader)?;
    let _text_encoding = DBTextEncoding::try_from(text_encoding_u32)?;

    let _user_version = read_u32(reader)?;

    let incremental_vacuum_enabled_u32 = read_u32(reader)?;
    let _incremental_vacuum_enabled = incremental_vacuum_enabled_u32 != 0;

    // A zero largest root page requires incremental vacuum to be off.
    if largest_b_tree_root_page_num == 0 && incremental_vacuum_enabled_u32 != 0 {
        return Err(
            DbError::InvalidVacuumSettings(
                largest_b_tree_root_page_num,
                incremental_vacuum_enabled_u32,
            ),
        );
    }

    let _application_id = read_u32(reader)?;

    let reserved = reader.read_exact(20)?;
    if !all_zero(&reserved) {
        assert(!reserved_zero(b)) by {
            let j = choose|j: int| 0 <= j < reserved@.len() && reserved@[j] != 0;
            assert(b[72 + j] == reserved@[j]);
        }
        return Err(DbError::InvalidReserved);
    }
    assert(reserved_zero(b)) by {
        assert forall|j: int| 72 <= j < 92 implies b[j] == 0 by {
            assert(reserved@[j - 72] == b[j]);
        }
    }

    let _valid_for_num = read_u32(reader)?;

    let sqlite_version_num = read_u32(reader)?;

    let usable_page_size = page_size - reserved_space as u16;
    if usable_page_size < 480 {
        return Err(DbError::InvalidUsableSize(usable_page_size));
    }

    Ok(SqliteHeader { page_size, size_in_pages, usable_page_size, sqlite_version_num })
}

/// The byte offset in the file of page `page_num` (pages count from 1).
pub fn page_offset(page_size: u16, page_num: u32) -> (r: u64)
    requires
        page_num >= 1,
    ensures
        r == (page_num - 1) * page_size,
{
    assert((page_num - 1) * page_size <= 0xffff_ffff * 0xffff) by (nonlinear_arith)
        requires
            page_num >= 1,
    ;
    (page_num - 1) as u64 * page_size as u64
}

/// An accepted header describes a usable page geometry: a valid page size, and
/// a usable size of at least 480 bytes that is the page size less the
/// reserved bytes per page.
pub proof fn lemma_header_geometry(b: Seq<u8>)
    ensures
        spec_read_header(b) matches Ok(h) ==> {
            &&& valid_page_size(h.page_size as int)
            &&& 480 <= h.usable_page_size <= h.page_size
            &&& h.page_size - h.usable_page_size == b[20]
        },
{
}

/// The fields of an accepted header are the big-endian numbers stored in its
/// bytes: the page size at 16..18, the page count at 28..32 (all 32 bits),
/// the SQLite version at 96..100, and the usable size is the page size less
/// the reserved byte at 20.
pub proof fn lemma_header_fields(b: Seq<u8>)
    ensures
        spec_read_header(b) matches Ok(h) ==> {
            &&& b.len() >= 100
            &&& h.page_size as int == b[16] * 256 + b[17]
            &&& h.size_in_pages as int == b[28] * 16777216 + b[29] * 65536 + b[30] * 256 + b[31]
            &&& h.usable_page_size as int == b[16] * 256 + b[17] - b[20]
            &&& h.sqlite_version_num as int == b[96] * 16777216 + b[97] * 65536 + b[98] * 256
                + b[99]
        },
{
}

/// `n` is one of the page sizes 512, 1024, ..., 32768.
pub open spec fn listed_page_size(n: int) -> bool {
    n == 512 || n == 1024 || n == 2048 || n == 4096 || n == 8192 || n == 16384 || n == 32768
}

proof fn lemma_power_of_two_small(n: int)
    requires
        1 <= n <= 32768,
    ensures
        is_power_of_two(n) <==> (n == 1 || n == 2 || n == 4 || n == 8 || n == 16 || n == 32 || n
            == 64 || n == 128 || n == 256 || listed_page_size(n)),
    decreases n,
{
    if n > 1 {
        lemma_power_of_two_small(n / 2);
    }
}

/// A header is accepted exactly when its 100 bytes are there and hold: the
/// string "SQLite format 3" and a zero byte, a page size of 512, 1024, ...,
/// 32768 at 16..18, the payload fractions 64, 32 and 32 at 21, 22 and 23, a
/// schema format of at most 4 at 44..48, a text encoding of 1, 2 or 3 at
/// 56..60, a zero at 64..68 whenever 52..56 is zero, twenty zero bytes at
/// 72..92, and at least 480 usable bytes per page (page size less the byte at
/// 20).
pub proof fn lemma_header_accepted(b: Seq<u8>)
    ensures
        spec_read_header(b) is Ok <==> {
            &&& b.len() >= 100
            &&& b[0] == 0x53 && b[1] == 0x51 && b[2] == 0x4c && b[3] == 0x69 && b[4] == 0x74
            &&& b[5] == 0x65 && b[6] == 0x20 && b[7] == 0x66 && b[8] == 0x6f && b[9] == 0x72
            &&& b[10] == 0x6d && b[11] == 0x61 && b[12] == 0x74 && b[13] == 0x20 && b[14] == 0x33
            &&& b[15] == 0
            &&& listed_page_size(b[16] * 256 + b[17])
            &&& b[21] == 64 && b[22] == 32 && b[23] == 32
            &&& b[44] * 16777216 + b[45] * 65536 + b[46] * 256 + b[47] <= 4
            &&& 1 <= b[56] * 16777216 + b[57] * 65536 + b[58] * 256 + b[59] <= 3
            &&& b[52] * 16777216 + b[53] * 65536 + b[54] * 256 + b[55] == 0 ==> b[64] * 16777216
                + b[65] * 65536 + b[66] * 256 + b[67] == 0
            &&& forall|i: int| 72 <= i < 92 ==> b[i] == 0
            &&& b[16] * 256 + b[17] - b[20] >= 480
        },
{
    if b.len() >= 18 && 1 <= b[16] * 256 + b[17] <= 32768 {
        lemma_power_of_two_small(b[16] * 256 + b[17]);
    }
    if b.len() >= 16 {
        if b.subrange(0, 16) == sqlite_magic() {
            assert(b[0] == b.subrange(0, 16)[0]);
            assert(b[15] == b.subrange(0, 16)[15]);
        }
        if b[0] == 0x53 && b[1] == 0x51 && b[2] == 0x4c && b[3] == 0x69 && b[4] == 0x74 && b[5]
            == 0x65 && b[6] == 0x20 && b[7] == 0x66 && b[8] == 0x6f && b[9] == 0x72 && b[10]
            == 0x6d && b[11] == 0x61 && b[12] == 0x74 && b[13] == 0x20 && b[14] == 0x33 && b[15]
            == 0 {
            assert(b.subrange(0, 16) =~= sqlite_magic());
        }
    }
}

} // verus!
