//! Records: the header of serial types and the column values that follow it.
use vstd::prelude::*;
use vstd::slice::slice_subrange;
use vstd::utf8::{decode_utf8, valid_utf8};

use crate::bytes::{
    lemma_read_varint_inverts_encoding, lemma_varint_single_byte, lemma_varint_size_bounds,
    read_varint, tail, varint_encoding, varint_size, varint_value,
};
use crate::error::DbError;

verus! {

/// How a column value is stored in a record body.
#[derive(Debug, Clone, Copy, PartialEq, Eq, Structural)]
pub enum SerialType {
    Null,
    I8,
    I16,
    I24,
    I32,
    I48,
    I64,
    F64,
    Int0,
    Int1,
    Bytes(usize),
    Text(usize),
}

/// The serial type with code `v`; codes 10 and 11 are reserved.
pub open spec fn serial_type_of(v: u64) -> Option<SerialType> {
    if v == 0 {
        Some(SerialType::Null)
    } else if v == 1 {
        Some(SerialType::I8)
    } else if v == 2 {
        Some(SerialType::I16)
    } else if v == 3 {
        Some(SerialType::I24)
    } else if v == 4 {
        Some(SerialType::I32)
    } else if v == 5 {
        Some(SerialType::I48)
    } else if v == 6 {
        Some(SerialType::I64)
    } else if v == 7 {
        Some(SerialType::F64)
    } else if v == 8 {
        Some(SerialType::Int0)
    } else if v == 9 {
        Some(SerialType::Int1)
    } else if v >= 12 && v % 2 == 0 {
        Some(SerialType::Bytes(((v - 12) / 2) as usize))
    } else if v >= 13 && v % 2 == 1 {
        Some(SerialType::Text(((v - 13) / 2) as usize))
    } else {
        None
    }
}

impl SerialType {
    /// The serial type with code `value`.
    pub fn try_from(value: u64) -> (r: Result<SerialType, DbError>)
        ensures
            serial_type_of(value) is Some ==> r == Ok::<SerialType, DbError>(
                serial_type_of(value)->0,
            ),
            serial_type_of(value) is None ==> r == Err::<SerialType, DbError>(
                DbError::InvalidSerialType(value),
            ),
    {
        match value {
            0 => Ok(SerialType::Null),
            1 => Ok(SerialType::I8),
            2 => Ok(SerialType::I16),
            3 => Ok(SerialType::I24),
            4 => Ok(SerialType::I32),
            5 => Ok(SerialType::I48),
            6 => Ok(SerialType::I64),
            7 => Ok(SerialType::F64),
            8 => Ok(SerialType::Int0),
            9 => Ok(SerialType::Int1),
            st => {
                if st >= 12 && st % 2 == 0 {
                    let n = ((st - 12) / 2) as usize;
                    Ok(SerialType::Bytes(n))
                } else if st >= 13 && st % 2 == 1 {
                    let n = ((st - 13) / 2) as usize;
                    Ok(SerialType::Text(n))
                } else {
                    Err(DbError::InvalidSerialType(value))
                }
            },
        }
    }
}

/// How many body bytes a value of serial type `t` takes.
pub open spec fn serial_size(t: SerialType) -> nat {
    match t {
        SerialType::Null => 0,
        SerialType::I8 => 1,
        SerialType::I16 => 2,
        SerialType::I24 => 3,
        SerialType::I32 => 4,
        SerialType::I48 => 6,
        SerialType::I64 => 8,
        SerialType::F64 => 8,
        SerialType::Int0 => 0,
        SerialType::Int1 => 0,
        SerialType::Bytes(n) => n as nat,
        SerialType::Text(n) => n as nat,
    }
}

/// Whether values of type `t` are sliced out of the body even when empty.
pub open spec fn is_sliced(t: SerialType) -> bool {
    t is Bytes || t is Text
}

/// The body bytes that all of `types` take together.
pub open spec fn total_size(types: Seq<SerialType>) -> nat
    decreases types.len(),
{
    if types.len() == 0 {
        0
    } else {
        total_size(types.drop_last()) + serial_size(types.last())
    }
}

/// A column value. A floating-point value is kept as its IEEE 754 bit pattern.
#[derive(Debug, Clone)]
pub enum SqliteValue {
    Null,
    Integer(i64),
    Real(u64),
    Text(String),
    Blob(Vec<u8>),
}

/// The mathematical content of a column value.
pub enum ValueModel {
    Null,
    Integer(i64),
    Real(u64),
    Text(Seq<char>),
    Blob(Seq<u8>),
}

impl View for SqliteValue {
    type V = ValueModel;

    open spec fn view(&self) -> ValueModel {
        match self {
            SqliteValue::Null => ValueModel::Null,
            SqliteValue::Integer(i) => ValueModel::Integer(*i),
            SqliteValue::Real(b) => ValueModel::Real(*b),
            SqliteValue::Text(t) => ValueModel::Text(t@),
            SqliteValue::Blob(b) => ValueModel::Blob(b@),
        }
    }
}

/// The models of a sequence of values.
pub open spec fn values_view(v: Seq<SqliteValue>) -> Seq<ValueModel> {
    v.map_values(|x: SqliteValue| x@)
}

impl SqliteValue {
    /// A copy of this value.
    pub fn copy_value(&self) -> (r: SqliteValue)
        ensures
            r@ == self@,
    {
        match self {
            SqliteValue::Null => SqliteValue::Null,
            SqliteValue::Integer(i) => SqliteValue::Integer(*i),
            SqliteValue::Real(b) => SqliteValue::Real(*b),
            SqliteValue::Text(t) => SqliteValue::Text(t.clone()),
            SqliteValue::Blob(b) => {
                let mut out: Vec<u8> = Vec::new();
                let mut i: usize = 0;
                while i < b.len()
                    invariant
                        i <= b@.len(),
                        out@ == b@.subrange(0, i as int),
                    decreases b.len() - i,
                {
                    out.push(b[i]);
                    i += 1;
                    proof {
                        assert(out@ =~= b@.subrange(0, i as int));
                    }
                }
                proof {
                    assert(out@ =~= b@);
                }
                SqliteValue::Blob(out)
            },
        }
    }
}

/// The big-endian unsigned value of the `k` bytes at `o`.
pub open spec fn be_n(p: Seq<u8>, o: int, k: nat) -> nat
    decreases k,
{
    if k == 0 {
        0
    } else {
        be_n(p, o, (k - 1) as nat) * 256 + p[o + k - 1] as nat
    }
}

/// 256 to the power `k`.
pub open spec fn p256(k: nat) -> nat
    decreases k,
{
    if k == 0 {
        1
    } else {
        256 * p256((k - 1) as nat)
    }
}

/// The two's complement value of the `bits`-bit pattern `v`.
pub open spec fn signed(v: nat, bits: nat) -> int {
    if v >= p256(bits / 8) / 2 {
        v - p256(bits / 8)
    } else {
        v as int
    }
}

/// The text of a body slice: its UTF-8 decoding, or a marker when it is not
/// valid UTF-8.
pub open spec fn text_of(b: Seq<u8>) -> Seq<char> {
    if valid_utf8(b) {
        decode_utf8(b)
    } else {
        "<invalid utf8>"@
    }
}

/// The value of type `t` stored at `o` in the record `p`. The 24- and 48-bit
/// integers are read without sign extension.
pub open spec fn decode_value(p: Seq<u8>, o: int, t: SerialType) -> ValueModel {
    match t {
        SerialType::Null => ValueModel::Null,
        SerialType::I8 => ValueModel::Integer(signed(be_n(p, o, 1), 8) as i64),
        SerialType::I16 => ValueModel::Integer(signed(be_n(p, o, 2), 16) as i64),
        SerialType::I24 => ValueModel::Integer(be_n(p, o, 3) as i64),
        SerialType::I32 => ValueModel::Integer(signed(be_n(p, o, 4), 32) as i64),
        SerialType::I48 => ValueModel::Integer(be_n(p, o, 6) as i64),
        SerialType::I64 => ValueModel::Integer(signed(be_n(p, o, 8), 64) as i64),
        SerialType::F64 => ValueModel::Real(be_n(p, o, 8) as u64),
        SerialType::Int0 => ValueModel::Integer(0),
        SerialType::Int1 => ValueModel::Integer(1),
        SerialType::Bytes(n) => ValueModel::Blob(p.subrange(o, o + n)),
        SerialType::Text(n) => ValueModel::Text(text_of(p.subrange(o, o + n))),
    }
}

/// The values of `types`, stored one after another from offset `h` of `p`.
pub open spec fn spec_decode_values(p: Seq<u8>, types: Seq<SerialType>, h: int) -> Seq<
    ValueModel,
>
    decreases types.len(),
{
    if types.len() == 0 {
        seq![]
    } else {
        spec_decode_values(p, types.drop_last(), h).push(
            decode_value(p, h + total_size(types.drop_last()), types.last()),
        )
    }
}

/// The values of `types` can be read from offset `h` of a record of `len`
/// bytes: they end inside it, or none of them reads any byte.
pub open spec fn decode_fits(len: int, types: Seq<SerialType>, h: int) -> bool {
    ||| h + total_size(types) <= len
    ||| (total_size(types) == 0 && forall|i: int| 0 <= i < types.len() ==> !is_sliced(#[trigger] types[i]))
}

proof fn lemma_p256_small(k: nat)
    requires
        k <= 8,
    ensures
        p256(k) <= 0x1_0000_0000_0000_0000,
        k <= 7 ==> p256(k) <= 0x100_0000_0000_0000,
        k == 1 ==> p256(k) == 0x100,
        k == 2 ==> p256(k) == 0x1_0000,
        k == 4 ==> p256(k) == 0x1_0000_0000,
        k == 8 ==> p256(k) == 0x1_0000_0000_0000_0000,
{
    reveal_with_fuel(p256, 9);
    assert(k == 0 || k == 1 || k == 2 || k == 3 || k == 4 || k == 5 || k == 6 || k == 7 || k
        == 8);
}

proof fn lemma_be_n_bound(p: Seq<u8>, o: int, k: nat)
    ensures
        be_n(p, o, k) < p256(k),
    decreases k,
{
    if k > 0 {
        lemma_be_n_bound(p, o, (k - 1) as nat);
    }
}

/// The sizes of a prefix of `types` add up to no more than all of them.
pub proof fn lemma_total_size_prefix(types: Seq<SerialType>, k: int)
    requires
        0 <= k <= types.len(),
    ensures
        total_size(types.take(k)) <= total_size(types),
    decreases types.len(),
{
    if k < types.len() {
        assert(types.drop_last().take(k) =~= types.take(k));
        lemma_total_size_prefix(types.drop_last(), k);
    } else {
        assert(types.take(k) =~= types);
    }
}

/// Reads the big-endian unsigned integer of `n` bytes at `o`.
fn read_be(payload: &[u8], o: usize, n: usize) -> (r: u64)
    requires
        n <= 8,
        o + n <= payload@.len(),
    ensures
        r == be_n(payload@, o as int, n as nat),
        r < p256(n as nat),
{
    let len = payload.len();
    let mut v: u64 = 0;
    let mut k: usize = 0;
    while k < n
        invariant
            k <= n <= 8,
            o + n <= len,
            len == payload@.len(),
            v == be_n(payload@, o as int, k as nat),
        decreases n - k,
    {
        proof {
            lemma_be_n_bound(payload@, o as int, k as nat);
            lemma_p256_small(k as nat);
        }
        v = v * 256 + payload[o + k] as u64;
        k += 1;
    }
    proof {
        lemma_be_n_bound(payload@, o as int, n as nat);
    }
    v
}

/// The text of a body slice, or the invalid-UTF-8 marker.
fn decode_text(bytes: &[u8]) -> (r: String)
    ensures
        r@ == text_of(bytes@),
{
    match utf8_to_string(bytes) {
        Some(s) => s,
        None => String::from_str("<invalid utf8>"),
    }
}

/// `std::str::from_utf8`, turned into an owned string. Its documentation says
/// that it fails exactly when the bytes are not UTF-8 and otherwise gives the
/// string whose UTF-8 encoding they are; this contract states that with vstd's
/// model of UTF-8 (`valid_utf8`, `decode_utf8`).
#[verifier::external_body]
fn utf8_to_string(bytes: &[u8]) -> (r: Option<String>)
    ensures
        r is Some <==> valid_utf8(bytes@),
        r matches Some(s) ==> s@ == decode_utf8(bytes@),
{
    std::str::from_utf8(bytes).ok().map(|s| s.to_string())
}

/// Decodes the values of `serial_types`, stored one after another from offset
/// `header_length` of `payload`.
pub fn decode_payload_values(payload: &[u8], serial_types: &[SerialType], header_length: usize) -> (r:
    Result<Vec<SqliteValue>, DbError>)
    requires
        decode_fits(payload@.len() as int, serial_types@, header_length as int),
    ensures
        r is Ok,
        r matches Ok(v) && values_view(v@) == spec_decode_values(
            payload@,
            serial_types@,
            header_length as int,
        ),
{
    let payload_len = payload.len();
    let mut columns: Vec<SqliteValue> = Vec::new();
    let ghost types = serial_types@;
    let ghost p = payload@;
    let ghost h = header_length as int;

    let mut body_offset = header_length;
    let mut i: usize = 0;
    while i < serial_types.len()
        invariant
            types == serial_types@,
            p == payload@,
            payload_len == p.len(),
            h == header_length,
            decode_fits(p.len() as int, types, h),
            i <= types.len(),
            body_offset == h + total_size(types.take(i as int)),
            values_view(columns@) == spec_decode_values(p, types.take(i as int), h),
        decreases types.len() - i,
    {
        let serial_type = serial_types[i];
        proof {
            assert(types.take(i + 1).drop_last() =~= types.take(i as int));
            lemma_total_size_prefix(types, i + 1);
            if !(h + total_size(types) <= p.len()) {
                assert(!is_sliced(types[i as int]));
            }
        }
        let ghost before = columns@;
        match serial_type {
            SerialType::Null => columns.push(SqliteValue::Null),
            SerialType::I8 => {
                let v = read_be(payload, body_offset, 1);
                proof {
                    lemma_p256_small(1);
                }
                let val: i64 = if v >= 128 {
                    v as i64 - 256
                } else {
                    v as i64
                };
                columns.push(SqliteValue::Integer(val));
                body_offset += 1;
            },
            SerialType::I16 => {
                let v = read_be(payload, body_offset, 2);
                proof {
                    lemma_p256_small(2);
                }
                let val: i64 = if v >= 32768 {
                    v as i64 - 65536
                } else {
                    v as i64
                };
                columns.push(SqliteValue::Integer(val));
                body_offset += 2;
            },
            SerialType::I24 => {
                let v = read_be(payload, body_offset, 3);
                proof {
                    lemma_be_n_bound(p, body_offset as int, 3);
                    reveal_with_fuel(p256, 4);
                }
                columns.push(SqliteValue::Integer(v as i64));
                body_offset += 3;
            },
            SerialType::I32 => {
                let v = read_be(payload, body_offset, 4);
                proof {
                    lemma_p256_small(4);
                }
                let val: i64 = if v >= 0x8000_0000 {
                    v as i64 - 0x1_0000_0000
                } else {
                    v as i64
                };
                columns.push(SqliteValue::Integer(val));
                body_offset += 4;
            },
            SerialType::I48 => {
                let v = read_be(payload, body_offset, 6);
                proof {
                    lemma_be_n_bound(p, body_offset as int, 6);
                    reveal_with_fuel(p256, 7);
                }
                columns.push(SqliteValue::Integer(v as i64));
                body_offset += 6;
            },
            SerialType::I64 => {
                let v = read_be(payload, body_offset, 8);
                proof {
                    lemma_p256_small(8);
                }
                let val: i64 = if v >= 0x8000_0000_0000_0000 {
                    (v - 0x8000_0000_0000_0000) as i64 + i64::MIN
                } else {
                    v as i64
                };
                columns.push(SqliteValue::Integer(val));
                body_offset += 8;
            },
            SerialType::F64 => {
                let v = read_be(payload, body_offset, 8);
                columns.push(SqliteValue::Real(v));
                body_offset += 8;
            },
            SerialType::Int0 => columns.push(SqliteValue::Integer(0)),
            SerialType::Int1 => columns.push(SqliteValue::Integer(1)),
            SerialType::Bytes(len) => {
                let bytes = slice_subrange(payload, body_offset, body_offset + len);
                let mut val: Vec<u8> = Vec::new();
                let mut k: usize = 0;
                while k < bytes.len()
                    invariant
                        k <= bytes@.len(),
                        val@ == bytes@.subrange(0, k as int),
                    decreases bytes.len() - k,
                {
                    val.push(bytes[k]);
                    k += 1;
                    proof {
                        assert(val@ =~= bytes@.subrange(0, k as int));
                    }
                }
                proof {
                    assert(val@ =~= bytes@);
                }
                columns.push(SqliteValue::Blob(val));
                body_offset += len;
            },
            SerialType::Text(len) => {
                let val = decode_text(slice_subrange(payload, body_offset, body_offset + len));
                columns.push(SqliteValue::Text(val));
                body_offset += len;
            },
        }
        proof {
            assert(values_view(columns@) =~= values_view(before).push(
                decode_value(p, h + total_size(types.take(i as int)), types[i as int]),
            ));
        }
        i += 1;
    }
    proof {
        assert(types.take(i as int) =~= types);
    }
    Ok(columns)
}

/// The decoded columns of a record.
#[derive(Debug)]
pub struct CellPayload {
    pub columns: Vec<SqliteValue>,
}

/// `r` with `pre` put in front of the serial types it holds.
pub open spec fn prepend_types(
    pre: Seq<SerialType>,
    r: Option<Result<Seq<SerialType>, DbError>>,
) -> Option<Result<Seq<SerialType>, DbError>> {
    match r {
        Some(Ok(rest)) => Some(Ok(pre + rest)),
        other => other,
    }
}

/// The serial types of a record header read from `offset` until the header
/// length `hl` is reached: a reserved code fails, and `None` stands for a
/// header that claims more bytes than the record has, where the reading
/// would never end.
pub open spec fn header_types(p: Seq<u8>, offset: int, hl: int) -> Option<
    Result<Seq<SerialType>, DbError>,
>
    decreases p.len() - offset,
{
    if offset >= hl {
        Some(Ok(seq![]))
    } else if offset < 0 || offset >= p.len() {
        None
    } else {
        let v = varint_value(tail(p, offset)) as u64;
        let n = varint_size(tail(p, offset));
        match serial_type_of(v) {
            None => Some(Err(DbError::InvalidSerialType(v))),
            Some(t) => {
                proof {
                    lemma_varint_size_bounds(tail(p, offset));
                }
                prepend_types(seq![t], header_types(p, offset + n, hl))
            },
        }
    }
}

/// The header length that a record declares in its first varint.
pub open spec fn record_header_length(p: Seq<u8>) -> int {
    (varint_value(tail(p, 0)) as u64) as usize as int
}

/// The columns of the record `p`, the error that rejects it, or `None` where
/// reading it would not end or would index past the record.
pub open spec fn spec_parse_payload(p: Seq<u8>) -> Option<Result<Seq<ValueModel>, DbError>> {
    let hl = record_header_length(p);
    match header_types(p, varint_size(tail(p, 0)) as int, hl) {
        None => None,
        Some(Err(e)) => Some(Err(e)),
        Some(Ok(types)) => if decode_fits(p.len() as int, types, hl) {
            Some(Ok(spec_decode_values(p, types, hl)))
        } else {
            None
        },
    }
}

/// Whether the values of `types` can be read from offset `h` of a record of
/// `len` bytes.
fn decode_fits_check(len: usize, types: &Vec<SerialType>, h: usize) -> (r: bool)
    ensures
        r == decode_fits(len as int, types@, h as int),
{
    let mut fits = h <= len;
    let mut remaining: usize = if h <= len {
        len - h
    } else {
        0
    };
    let mut total_zero = true;
    let mut none_sliced = true;
    let mut i: usize = 0;
    while i < types.len()
        invariant
            i <= types@.len(),
            fits == (h + total_size(types@.take(i as int)) <= len),
            fits ==> remaining == len - h - total_size(types@.take(i as int)),
            total_zero == (total_size(types@.take(i as int)) == 0),
            none_sliced == (forall|j: int| 0 <= j < i ==> !is_sliced(#[trigger] types@[j])),
        decreases types.len() - i,
    {
        let t = types[i];
        proof {
            assert(types@.take(i + 1).drop_last() =~= types@.take(i as int));
        }
        let size: usize = match t {
            SerialType::Null => 0,
            SerialType::I8 => 1,
            SerialType::I16 => 2,
            SerialType::I24 => 3,
            SerialType::I32 => 4,
            SerialType::I48 => 6,
            SerialType::I64 => 8,
            SerialType::F64 => 8,
            SerialType::Int0 => 0,
            SerialType::Int1 => 0,
            SerialType::Bytes(n) => n,
            SerialType::Text(n) => n,
        };
        if matches!(t, SerialType::Bytes(_) | SerialType::Text(_)) {
            none_sliced = false;
        }
        if size > 0 {
            total_zero = false;
        }
        if fits {
            if size > remaining {
                fits = false;
            } else {
                remaining = remaining - size;
            }
        }
        i += 1;
    }
    proof {
        assert(types@.take(i as int) =~= types@);
    }
    fits || (total_zero && none_sliced)
}

/// Reads a record, or `None` where reading it would not end (a header that
/// claims more bytes than the record has) or would index past the record.
pub fn try_parse_payload(payload: &[u8]) -> (r: Option<Result<CellPayload, DbError>>)
    ensures
        match spec_parse_payload(payload@) {
            None => r is None,
            Some(Err(e)) => r matches Some(Err(e2)) && e2 == e,
            Some(Ok(vals)) => r matches Some(Ok(cp)) && values_view(cp.columns@) == vals,
        },
{
    let ghost p = payload@;
    let (header_length, header_len_bytes) = read_varint(payload, 0);
    let hl = #[verifier::truncate] (header_length as usize);
    proof {
        lemma_varint_size_bounds(tail(p, 0));
    }
    let mut serial_types: Vec<SerialType> = Vec::new();

    let mut offset = header_len_bytes;
    while offset < hl
        invariant
            p == payload@,
            offset <= p.len(),
            hl as int == record_header_length(p),
            header_len_bytes == varint_size(tail(p, 0)),
            header_types(p, header_len_bytes as int, hl as int) == prepend_types(
                serial_types@,
                header_types(p, offset as int, hl as int),
            ),
        decreases p.len() - offset,
    {
        if offset >= payload.len() {
            return None;
        }
        let (serial_type_u64, size) = read_varint(payload, offset);
        proof {
            lemma_varint_size_bounds(tail(p, offset as int));
        }
        let serial_type = match SerialType::try_from(serial_type_u64) {
            Ok(t) => t,
            Err(e) => {
                return Some(Err(e));
            },
        };
        proof {
            let rest = header_types(p, offset + size, hl as int);
            match rest {
                Some(Ok(tys)) => {
                    assert(serial_types@ + (seq![serial_type] + tys) =~= serial_types@.push(
                        serial_type,
                    ) + tys);
                },
                _ => {},
            }
        }
        serial_types.push(serial_type);
        offset += size;
    }
    proof {
        assert(serial_types@ + seq![] =~= serial_types@);
    }
    if !decode_fits_check(payload.len(), &serial_types, hl) {
        return None;
    }
    let columns = match decode_payload_values(payload, serial_types.as_slice(), hl) {
        Ok(c) => c,
        Err(e) => {
            return Some(Err(e));
        },
    };
    Some(Ok(CellPayload { columns }))
}

/// Reads a record: the header length, the serial types up to it, and the
/// values they describe.
pub fn parse_payload(payload: &[u8]) -> (r: Result<CellPayload, DbError>)
    requires
        spec_parse_payload(payload@) is Some,
    ensures
        match spec_parse_payload(payload@) {
            Some(Err(e)) => r matches Err(e2) && e2 == e,
            Some(Ok(vals)) => r matches Ok(cp) && values_view(cp.columns@) == vals,
            None => false,
        },
{
    match try_parse_payload(payload) {
        Some(r) => r,
        None => {
            proof {
                assert(false);
            }
            Err(DbError::UnexpectedEof)
        },
    }
}

/// A record yields one value per serial type.
pub proof fn lemma_decode_values_len(p: Seq<u8>, types: Seq<SerialType>, h: int)
    ensures
        spec_decode_values(p, types, h).len() == types.len(),
    decreases types.len(),
{
    if types.len() > 0 {
        lemma_decode_values_len(p, types.drop_last(), h);
    }
}

/// An accepted record has exactly as many columns as its header has serial
/// types.
pub proof fn lemma_record_columns_match_header(p: Seq<u8>)
    ensures
        spec_parse_payload(p) matches Some(Ok(vals)) ==> header_types(
            p,
            varint_size(tail(p, 0)) as int,
            record_header_length(p),
        ) matches Some(Ok(types)) && vals.len() == types.len(),
{
    let hl = record_header_length(p);
    match header_types(p, varint_size(tail(p, 0)) as int, hl) {
        Some(Ok(types)) => {
            lemma_decode_values_len(p, types, hl);
        },
        _ => {},
    }
}

proof fn lemma_decode_values_index(p: Seq<u8>, types: Seq<SerialType>, h: int, i: int)
    requires
        0 <= i < types.len(),
    ensures
        spec_decode_values(p, types, h)[i] == decode_value(p, h + total_size(types.take(i)), types[i]),
        total_size(types.take(i + 1)) == total_size(types.take(i)) + serial_size(types[i]),
    decreases types.len(),
{
    lemma_decode_values_len(p, types.drop_last(), h);
    assert(types.take(i + 1).drop_last() =~= types.take(i));
    if i < types.len() - 1 {
        lemma_decode_values_index(p, types.drop_last(), h, i);
        assert(types.drop_last().take(i) =~= types.take(i));
        assert(types.drop_last().take(i + 1) =~= types.take(i + 1));
    } else {
        assert(types.take(i) =~= types.drop_last());
    }
}

/// What each column of a record holds, read straight from its bytes: the
/// `i`-th value starts where the values before it end (`o`), takes 0, 1, 2,
/// 3, 4, 6, 8, 8, 0, 0, `n` or `n` bytes for its type, and is the big-endian
/// number in them: two's complement for 8, 16, 32 and 64 bits, plain for 24
/// and 48 bits, the bit pattern of a real; 0 and 1 for their types; the bytes
/// of a blob; and the UTF-8 text of a text (or the invalid-UTF-8 marker).
pub proof fn lemma_column_value(p: Seq<u8>, types: Seq<SerialType>, h: int, i: int)
    requires
        0 <= i < types.len(),
    ensures
        ({
            let o = h + total_size(types.take(i));
            let v = spec_decode_values(p, types, h)[i];
            let w2 = p[o] * 256 + p[o + 1];
            let w3 = p[o] * 65536 + p[o + 1] * 256 + p[o + 2];
            let w4 = p[o] * 16777216 + p[o + 1] * 65536 + p[o + 2] * 256 + p[o + 3];
            let w6 = w4 * 65536 + p[o + 4] * 256 + p[o + 5];
            let w8 = w6 * 65536 + p[o + 6] * 256 + p[o + 7];
            &&& total_size(types.take(i + 1)) == total_size(types.take(i)) + match types[i] {
                SerialType::Null => 0int,
                SerialType::I8 => 1int,
                SerialType::I16 => 2int,
                SerialType::I24 => 3int,
                SerialType::I32 => 4int,
                SerialType::I48 => 6int,
                SerialType::I64 => 8int,
                SerialType::F64 => 8int,
                SerialType::Int0 => 0int,
                SerialType::Int1 => 0int,
                SerialType::Bytes(n) => n as int,
                SerialType::Text(n) => n as int,
            }
            &&& match types[i] {
                SerialType::Null => v == ValueModel::Null,
                SerialType::I8 => v matches ValueModel::Integer(x) && x == (if p[o] < 128 {
                    p[o] as int
                } else {
                    p[o] - 256
                }),
                SerialType::I16 => v matches ValueModel::Integer(x) && x == (if w2 < 0x8000 {
                    w2
                } else {
                    w2 - 0x1_0000
                }),
                SerialType::I24 => v matches ValueModel::Integer(x) && x == w3,
                SerialType::I32 => v matches ValueModel::Integer(x) && x == (if w4 < 0x8000_0000 {
                    w4
                } else {
                    w4 - 0x1_0000_0000
                }),
                SerialType::I48 => v matches ValueModel::Integer(x) && x == w6,
                SerialType::I64 => v matches ValueModel::Integer(x) && x == (if w8
                    < 0x8000_0000_0000_0000 {
                    w8
                } else {
                    w8 - 0x1_0000_0000_0000_0000
                }),
                SerialType::F64 => v matches ValueModel::Real(x) && x == w8,
                SerialType::Int0 => v == ValueModel::Integer(0),
                SerialType::Int1 => v == ValueModel::Integer(1),
                SerialType::Bytes(n) => v == ValueModel::Blob(p.subrange(o, o + n)),
                SerialType::Text(n) => v matches ValueModel::Text(t) && (valid_utf8(
                    p.subrange(o, o + n),
                ) ==> t == decode_utf8(p.subrange(o, o + n))) && (!valid_utf8(p.subrange(o, o + n))
                    ==> t == "<invalid utf8>"@),
            }
        }),
{
    let o = h + total_size(types.take(i));
    lemma_decode_values_index(p, types, h, i);
    reveal_with_fuel(be_n, 9);
    reveal_with_fuel(p256, 9);
    lemma_be_n_bound(p, o, 8);
    lemma_be_n_bound(p, o, 6);
    lemma_be_n_bound(p, o, 4);
    lemma_be_n_bound(p, o, 3);
    lemma_be_n_bound(p, o, 2);
    lemma_be_n_bound(p, o, 1);
}

/// The serial type codes: 0 to 9 are the fixed types (null, the 8-, 16-, 24-,
/// 32-, 48- and 64-bit integers, the real, and the constants 0 and 1), 10 and
/// 11 are reserved, an even code `v >= 12` is a blob of `(v - 12) / 2` bytes
/// and an odd code `v >= 13` a text of `(v - 13) / 2` bytes.
pub proof fn lemma_serial_codes(v: u64)
    ensures
        v == 0 ==> serial_type_of(v) == Some(SerialType::Null),
        v == 1 ==> serial_type_of(v) == Some(SerialType::I8),
        v == 2 ==> serial_type_of(v) == Some(SerialType::I16),
        v == 3 ==> serial_type_of(v) == Some(SerialType::I24),
        v == 4 ==> serial_type_of(v) == Some(SerialType::I32),
        v == 5 ==> serial_type_of(v) == Some(SerialType::I48),
        v == 6 ==> serial_type_of(v) == Some(SerialType::I64),
        v == 7 ==> serial_type_of(v) == Some(SerialType::F64),
        v == 8 ==> serial_type_of(v) == Some(SerialType::Int0),
        v == 9 ==> serial_type_of(v) == Some(SerialType::Int1),
        v == 10 || v == 11 ==> serial_type_of(v) is None,
        v >= 12 && v % 2 == 0 ==> serial_type_of(v) == Some(
            SerialType::Bytes(((v - 12) / 2) as usize),
        ),
        v >= 13 && v % 2 == 1 ==> serial_type_of(v) == Some(
            SerialType::Text(((v - 13) / 2) as usize),
        ),
{
}

proof fn lemma_short_header_types(p: Seq<u8>, k: int, hl: int)
    requires
        1 <= k <= hl <= p.len(),
        forall|j: int| 1 <= j < hl ==> #[trigger] p[j] < 128 && serial_type_of(p[j] as u64) is Some,
    ensures
        header_types(p, k, hl) == Some(
            Ok::<Seq<SerialType>, DbError>(
                Seq::new((hl - k) as nat, |j: int| serial_type_of(p[k + j] as u64)->0),
            ),
        ),
    decreases hl - k,
{
    if k < hl {
        assert(tail(p, k)[0] == p[k]);
        lemma_varint_single_byte(tail(p, k));
        lemma_short_header_types(p, k + 1, hl);
        assert(seq![serial_type_of(p[k] as u64)->0] + Seq::new(
            (hl - (k + 1)) as nat,
            |j: int| serial_type_of(p[k + 1 + j] as u64)->0,
        ) =~= Seq::new((hl - k) as nat, |j: int| serial_type_of(p[k + j] as u64)->0));
    } else {
        assert(Seq::new((hl - k) as nat, |j: int| serial_type_of(p[k + j] as u64)->0) =~= seq![]);
    }
}

/// A record whose header length `p[0]` and serial type codes are single
/// bytes: its header is `p[0]` bytes long, the `j`-th column has the type of
/// code `p[j + 1]`, and its values are read one after another from offset
/// `p[0]`. It is accepted exactly when the sizes of those values, after the
/// header, add up to no more than the record's length.
pub proof fn lemma_short_record(p: Seq<u8>)
    requires
        p.len() >= 1,
        1 <= p[0] < 128,
        p[0] <= p.len(),
        forall|j: int| 1 <= j < p[0] ==> #[trigger] p[j] < 128 && serial_type_of(p[j] as u64) is Some,
    ensures
        ({
            let types = Seq::new((p[0] - 1) as nat, |j: int| serial_type_of(p[1 + j] as u64)->0);
            &&& spec_parse_payload(p) is Some <==> p[0] + total_size(types) <= p.len()
            &&& spec_parse_payload(p) is Some ==> spec_parse_payload(p) == Some(
                Ok::<Seq<ValueModel>, DbError>(spec_decode_values(p, types, p[0] as int)),
            )
        }),
{
    assert(tail(p, 0)[0] == p[0]);
    lemma_varint_single_byte(tail(p, 0));
    lemma_short_header_types(p, 1, p[0] as int);
}

/// The varints of `codes`, one after another.
pub open spec fn encoded_codes(codes: Seq<u64>) -> Seq<u8>
    decreases codes.len(),
{
    if codes.len() == 0 {
        seq![]
    } else {
        varint_encoding(codes[0]) + encoded_codes(codes.drop_first())
    }
}

proof fn lemma_encoded_header_types(p: Seq<u8>, off: int, hl: int, codes: Seq<u64>)
    requires
        0 <= off,
        off + encoded_codes(codes).len() == hl <= p.len(),
        p.subrange(off, hl) == encoded_codes(codes),
        forall|j: int| 0 <= j < codes.len() ==> serial_type_of(#[trigger] codes[j]) is Some,
    ensures
        header_types(p, off, hl) == Some(
            Ok::<Seq<SerialType>, DbError>(codes.map_values(|v: u64| serial_type_of(v)->0)),
        ),
    decreases codes.len(),
{
    if codes.len() == 0 {
        assert(codes.map_values(|v: u64| serial_type_of(v)->0) =~= seq![]);
    } else {
        let e = varint_encoding(codes[0]);
        let rest = encoded_codes(codes.drop_first());
        assert(e.len() >= 1) by {
            lemma_read_varint_inverts_encoding(codes[0], seq![], seq![]);
            lemma_varint_size_bounds(tail(seq![] + e + seq![], 0));
            assert(tail(Seq::<u8>::empty() + e + Seq::<u8>::empty(), 0) =~= e);
        }
        let ec = encoded_codes(codes);
        assert(ec == e + rest);
        assert forall|k: int| off <= k < hl implies p[k] == ec[k - off] by {
            assert(p.subrange(off, hl)[k - off] == p[k]);
        }
        assert forall|k: int| 0 <= k < e.len() implies ec[k] == e[k] by {}
        assert forall|k: int| 0 <= k < rest.len() implies ec[e.len() + k] == rest[k] by {}
        assert(p =~= p.take(off) + e + p.skip(off + e.len()));
        lemma_read_varint_inverts_encoding(codes[0], p.take(off), p.skip(off + e.len()));
        assert(p.subrange(off + e.len(), hl) =~= rest);
        assert(serial_type_of(codes[0]) is Some);
        assert forall|j: int| 0 <= j < codes.drop_first().len() implies serial_type_of(
            #[trigger] codes.drop_first()[j],
        ) is Some by {
            assert(codes.drop_first()[j] == codes[j + 1]);
        }
        lemma_encoded_header_types(p, off + e.len(), hl, codes.drop_first());
        assert(seq![serial_type_of(codes[0])->0] + codes.drop_first().map_values(
            |v: u64| serial_type_of(v)->0,
        ) =~= codes.map_values(|v: u64| serial_type_of(v)->0));
    }
}

/// A record written as the varint of its header length `hl`, the varints of
/// its serial type codes (the header thus being `hl` bytes long) and a body
/// is read as the types of those codes, in order, whose values follow the
/// header; it is accepted exactly when the header and the sizes of the values
/// add up to no more than the record's length.
pub proof fn lemma_record_layout(hl: u64, codes: Seq<u64>, body: Seq<u8>)
    requires
        hl == varint_encoding(hl).len() + encoded_codes(codes).len(),
        (varint_encoding(hl) + encoded_codes(codes) + body).len() <= usize::MAX,
        forall|j: int| 0 <= j < codes.len() ==> serial_type_of(#[trigger] codes[j]) is Some,
    ensures
        ({
            let p = varint_encoding(hl) + encoded_codes(codes) + body;
            let types = codes.map_values(|v: u64| serial_type_of(v)->0);
            &&& spec_parse_payload(p) is Some <==> hl + total_size(types) <= p.len()
            &&& spec_parse_payload(p) is Some ==> spec_parse_payload(p) == Some(
                Ok::<Seq<ValueModel>, DbError>(spec_decode_values(p, types, hl as int)),
            )
        }),
{
    let e = varint_encoding(hl);
    let ec = encoded_codes(codes);
    let p = e + ec + body;
    assert(p =~= Seq::<u8>::empty() + e + (ec + body));
    lemma_read_varint_inverts_encoding(hl, Seq::<u8>::empty(), ec + body);
    assert(p.subrange(e.len() as int, hl as int) =~= ec);
    lemma_encoded_header_types(p, e.len() as int, hl as int, codes);
}

} // verus!
