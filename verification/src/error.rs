//! The ways in which a database file can be rejected.
use vstd::prelude::*;

verus! {

/// Why a header, page, cell or record was rejected.
#[derive(Clone, Copy, Debug, PartialEq, Eq, Structural)]
pub enum DbError {
    /// The input ended before a field that had to be read.
    UnexpectedEof,
    /// The first 16 bytes are not `"SQLite format 3\0"`.
    InvalidMagic,
    /// The page size is not a power of two between 512 and 32768.
    InvalidPageSize,
    /// The maximum embedded payload fraction is not 64.
    InvalidMaxPayloadFrac(u8),
    /// The minimum embedded payload fraction is not 32.
    InvalidMinPayloadFrac(u8),
    /// The leaf payload fraction is not 32.
    InvalidLeafPayloadFrac(u8),
    /// The schema format number is above 4.
    InvalidSchemaFormat(u32),
    /// The text encoding is not 1, 2 or 3.
    InvalidTextEncoding(u32),
    /// The largest root b-tree page is 0 but incremental vacuum is set
    /// (the two values, in that order).
    InvalidVacuumSettings(u32, u32),
    /// The 20 reserved header bytes are not all zero.
    InvalidReserved,
    /// The usable page size is below 480.
    InvalidUsableSize(u16),
    /// A page ended before a field that had to be read.
    PageTooShort,
    /// A cell ended before its payload.
    CellPayloadTruncated,
    /// A table cell declares more payload than the cell holds.
    PayloadLargerThanCell,
    /// The page type byte is not one of the four b-tree page types.
    InvalidPageType(u8),
    /// A record header holds serial type 10 or 11.
    InvalidSerialType(u64),
}

} // verus!
