//! Big-endian integers and SQLite varints read out of byte buffers.
use vstd::prelude::*;

use crate::error::DbError;

verus! {

/// The big-endian value of the two bytes at `i`.
pub open spec fn be16(s: Seq<u8>, i: int) -> int {
    s[i] * 256 + s[i + 1]
}

/// The big-endian value of the four bytes at `i`.
pub open spec fn be32(s: Seq<u8>, i: int) -> int {
    s[i] * 16777216 + s[i + 1] * 65536 + s[i + 2] * 256 + s[i + 3]
}

/// The bytes of `buf` from `offset` on; empty when `offset` is past the end.
pub open spec fn tail(buf: Seq<u8>, offset: int) -> Seq<u8> {
    if 0 <= offset <= buf.len() {
        buf.skip(offset)
    } else {
        Seq::empty()
    }
}

/// How many bytes a varint that starts at `s[0]` occupies, given that the
/// bytes before `i` all had their high bit set: a byte with the high bit clear
/// ends it, the ninth byte always ends it, and so does the end of the input.
pub open spec fn varint_end(s: Seq<u8>, i: nat) -> nat
    decreases 9 - i,
{
    if i >= s.len() {
        i
    } else if i >= 8 {
        9
    } else if s[i as int] < 128 {
        i + 1
    } else {
        varint_end(s, i + 1)
    }
}

/// The number of bytes of the varint at the start of `s` (0 for empty `s`).
pub open spec fn varint_size(s: Seq<u8>) -> nat {
    varint_end(s, 0)
}

/// The low seven bits of the first `k` bytes of `s`, most significant first.
pub open spec fn acc7(s: Seq<u8>, k: nat) -> nat
    decreases k,
{
    if k == 0 {
        0
    } else {
        acc7(s, (k - 1) as nat) * 128 + (s[k - 1] % 128) as nat
    }
}

/// The value of the varint at the start of `s`: seven bits from each of the
/// first eight bytes and all eight bits of a ninth.
pub open spec fn varint_value(s: Seq<u8>) -> nat {
    let n = varint_size(s);
    if n == 9 {
        acc7(s, 8) * 256 + s[8] as nat
    } else {
        acc7(s, n)
    }
}

/// 128 to the power `k`.
pub open spec fn p128(k: nat) -> nat
    decreases k,
{
    if k == 0 {
        1
    } else {
        128 * p128((k - 1) as nat)
    }
}

proof fn lemma_acc7_bound(s: Seq<u8>, k: nat)
    requires
        k <= s.len(),
    ensures
        acc7(s, k) < p128(k),
    decreases k,
{
    if k > 0 {
        lemma_acc7_bound(s, (k - 1) as nat);
    }
}

proof fn lemma_p128_small(k: nat)
    requires
        k <= 8,
    ensures
        p128(k) <= 0x100000000000000,
        k <= 7 ==> p128(k) <= 0x2000000000000,
{
    reveal_with_fuel(p128, 9);
    assert(k == 0 || k == 1 || k == 2 || k == 3 || k == 4 || k == 5 || k == 6 || k == 7 || k
        == 8);
}

/// A varint never takes more than nine bytes nor more than the input holds,
/// and takes at least one byte when there is one.
pub proof fn lemma_varint_size_bounds(s: Seq<u8>)
    ensures
        varint_size(s) <= 9,
        varint_size(s) <= s.len(),
        s.len() > 0 ==> varint_size(s) >= 1,
{
    lemma_varint_end_bounds(s, 0);
}

proof fn lemma_varint_end_bounds(s: Seq<u8>, i: nat)
    requires
        i <= 8,
        i <= s.len(),
    ensures
        i <= varint_end(s, i) <= 9,
        varint_end(s, i) <= s.len(),
        i < s.len() ==> varint_end(s, i) > i,
    decreases 9 - i,
{
    if i < s.len() && i < 8 && s[i as int] >= 128 {
        lemma_varint_end_bounds(s, i + 1);
    }
}

/// Reads the varint that starts at `offset`: its value and the number of
/// bytes it took (0 and 0 when `offset` is at or past the end).
pub fn read_varint(buf: &[u8], offset: usize) -> (r: (u64, usize))
    ensures
        r.0 == varint_value(tail(buf@, offset as int)),
        r.1 == varint_size(tail(buf@, offset as int)),
{
    let mut value: u64 = 0;
    let mut bytes_read: usize = 0;
    if offset >= buf.len() {
        return (value, bytes_read);
    }
    let ghost s = buf@.skip(offset as int);
    while bytes_read < 9 && bytes_read < buf.len() - offset
        invariant
            offset < buf.len(),
            s == buf@.skip(offset as int),
            s == tail(buf@, offset as int),
            bytes_read <= 8,
            bytes_read <= s.len(),
            value == acc7(s, bytes_read as nat),
            varint_end(s, 0) == varint_end(s, bytes_read as nat),
        decreases 9 - bytes_read,
    {
        let byte = buf[offset + bytes_read];
        proof {
            lemma_acc7_bound(s, bytes_read as nat);
            lemma_p128_small(bytes_read as nat);
            assert(byte == s[bytes_read as int]);
        }
        bytes_read += 1;
        if bytes_read < 9 {
            value = value * 128 + (byte % 128) as u64;
            if byte < 128 {
                return (value, bytes_read);
            }
        } else {
            value = value * 256 + byte as u64;
            return (value, bytes_read);
        }
    }
    (value, bytes_read)
}

/// The big-endian `u16` at `offset`, or `PageTooShort` when the two bytes are
/// not all inside `page`.
pub fn read_u16_from_page(page: &[u8], offset: usize) -> (r: Result<u16, DbError>)
    ensures
        offset + 2 <= page@.len() ==> r == Ok::<u16, DbError>(be16(page@, offset as int) as u16),
        offset + 2 > page@.len() ==> r == Err::<u16, DbError>(DbError::PageTooShort),
{
    if offset > page.len() || page.len() - offset < 2 {
        return Err(DbError::PageTooShort);
    }
    Ok((page[offset] as u16) * 256 + page[offset + 1] as u16)
}

/// The big-endian `u32` at `offset`, or `PageTooShort` when the four bytes are
/// not all inside `page`.
pub fn read_u32_from_page(page: &[u8], offset: usize) -> (r: Result<u32, DbError>)
    ensures
        offset + 4 <= page@.len() ==> r == Ok::<u32, DbError>(be32(page@, offset as int) as u32),
        offset + 4 > page@.len() ==> r == Err::<u32, DbError>(DbError::PageTooShort),
{
    if offset > page.len() || page.len() - offset < 4 {
        return Err(DbError::PageTooShort);
    }
    Ok((page[offset] as u32) * 16777216 + (page[offset + 1] as u32) * 65536 + (page[offset
        + 2] as u32) * 256 + page[offset + 3] as u32)
}

/// The byte at `offset`.
pub fn read_u8_from_page(page: &[u8], offset: usize) -> (r: Result<u8, DbError>)
    requires
        offset < page@.len(),
    ensures
        r == Ok::<u8, DbError>(page@[offset as int]),
{
    Ok(page[offset])
}

/// A cursor over the bytes of a file's beginning, read front to back.
pub struct ByteReader<'a> {
    data: &'a [u8],
    pos: usize,
}

impl<'a> ByteReader<'a> {
    #[verifier::type_invariant]
    spec fn inv(self) -> bool {
        self.pos <= self.data@.len()
    }

    /// All the bytes, read or not.
    pub closed spec fn data(&self) -> Seq<u8> {
        self.data@
    }

    /// How many bytes have been read.
    pub closed spec fn pos(&self) -> nat {
        self.pos as nat
    }

    /// A reader at the start of `data`.
    pub fn new(data: &'a [u8]) -> (r: Self)
        ensures
            r.data() == data@,
            r.pos() == 0,
    {
        ByteReader { data, pos: 0 }
    }

    /// How many bytes have been read.
    pub fn position(&self) -> (r: usize)
        ensures
            r == self.pos(),
    {
        self.pos
    }

    /// Takes the next `n` bytes; fails with `UnexpectedEof`, reading
    /// nothing, when fewer are left.
    pub fn read_exact(&mut self, n: usize) -> (r: Result<Vec<u8>, DbError>)
        ensures
            final(self).data() == old(self).data(),
            old(self).pos() + n <= old(self).data().len() ==> {
                &&& r is Ok
                &&& r->Ok_0@ == old(self).data().subrange(
                    old(self).pos() as int,
                    old(self).pos() + n,
                )
                &&& final(self).pos() == old(self).pos() + n
            },
            old(self).pos() + n > old(self).data().len() ==> {
                &&& r == Err::<Vec<u8>, DbError>(DbError::UnexpectedEof)
                &&& final(self).pos() == old(self).pos()
            },
    {
        proof {
            use_type_invariant(&*self);
        }
        if n > self.data.len() - self.pos {
            return Err(DbError::UnexpectedEof);
        }
        let data = self.data;
        let pos = self.pos;
        let mut out: Vec<u8> = Vec::new();
        let mut i: usize = 0;
        while i < n
            invariant
                i <= n,
                pos + n <= data.len(),
                out@ == data@.subrange(pos as int, pos + i),
            decreases n - i,
        {
            out.push(data[pos + i]);
            i += 1;
            proof {
                assert(out@ =~= data@.subrange(pos as int, pos + i));
            }
        }
        self.pos = pos + n;
        Ok(out)
    }
}

/// Reads one byte.
pub fn read_u8(reader: &mut ByteReader) -> (r: Result<u8, DbError>)
    ensures
        final(reader).data() == old(reader).data(),
        old(reader).pos() + 1 <= old(reader).data().len() ==> {
            &&& r == Ok::<u8, DbError>(old(reader).data()[old(reader).pos() as int])
            &&& final(reader).pos() == old(reader).pos() + 1
        },
        old(reader).pos() + 1 > old(reader).data().len() ==> {
            &&& r == Err::<u8, DbError>(DbError::UnexpectedEof)
            &&& final(reader).pos() == old(reader).pos()
        },
{
    let buf = reader.read_exact(1)?;
    Ok(buf[0])
}

/// Reads a big-endian `u16`.
pub fn read_u16(reader: &mut ByteReader) -> (r: Result<u16, DbError>)
    ensures
        final(reader).data() == old(reader).data(),
        old(reader).pos() + 2 <= old(reader).data().len() ==> {
            &&& r == Ok::<u16, DbError>(
                be16(old(reader).data(), old(reader).pos() as int) as u16,
            )
            &&& final(reader).pos() == old(reader).pos() + 2
        },
        old(reader).pos() + 2 > old(reader).data().len() ==> {
            &&& r == Err::<u16, DbError>(DbError::UnexpectedEof)
            &&& final(reader).pos() == old(reader).pos()
        },
{
    let buf = reader.read_exact(2)?;
    Ok((buf[0] as u16) * 256 + buf[1] as u16)
}

/// Reads a big-endian `u32`.
pub fn read_u32(reader: &mut ByteReader) -> (r: Result<u32, DbError>)
    ensures
        final(reader).data() == old(reader).data(),
        old(reader).pos() + 4 <= old(reader).data().len() ==> {
            &&& r == Ok::<u32, DbError>(
                be32(old(reader).data(), old(reader).pos() as int) as u32,
            )
            &&& final(reader).pos() == old(reader).pos() + 4
        },
        old(reader).pos() + 4 > old(reader).data().len() ==> {
            &&& r == Err::<u32, DbError>(DbError::UnexpectedEof)
            &&& final(reader).pos() == old(reader).pos()
        },
{
    let buf = reader.read_exact(4)?;
    Ok((buf[0] as u32) * 16777216 + (buf[1] as u32) * 65536 + (buf[2] as u32) * 256
        + buf[3] as u32)
}

/// A byte below 128 is a whole varint: its own value, in one byte.
pub proof fn lemma_varint_single_byte(s: Seq<u8>)
    requires
        s.len() >= 1,
        s[0] < 128,
    ensures
        varint_size(s) == 1,
        varint_value(s) == s[0],
{
    assert(acc7(s, 1) == acc7(s, 0) * 128 + (s[0] % 128) as nat);
}

/// A varint is read from its own bytes only: bytes after it do not change it.
pub proof fn lemma_varint_prefix(s: Seq<u8>, more: Seq<u8>)
    requires
        varint_size(s) == 9 || (varint_size(s) < s.len()) || (varint_size(s) > 0 && s[varint_size(s) - 1] < 128),
    ensures
        varint_size(s + more) == varint_size(s),
        varint_value(s + more) == varint_value(s),
{
    lemma_varint_size_bounds(s);
    lemma_varint_end_prefix(s, more, 0);
    lemma_acc7_prefix(s, more, if varint_size(s) == 9 { 8 } else { varint_size(s) });
}

proof fn lemma_varint_end_prefix(s: Seq<u8>, more: Seq<u8>, i: nat)
    requires
        i <= 8,
        i <= s.len(),
        varint_end(s, 0) == varint_end(s, i),
        forall|j: int| 0 <= j < i ==> s[j] >= 128,
        varint_end(s, i) == 9 || varint_end(s, i) < s.len() || (varint_end(s, i) > 0 && s[
            varint_end(s, i) - 1] < 128),
    ensures
        varint_end(s + more, i) == varint_end(s, i),
    decreases 9 - i,
{
    lemma_varint_end_bounds(s, i);
    if i < s.len() {
        assert((s + more)[i as int] == s[i as int]);
        if i < 8 && s[i as int] >= 128 {
            lemma_varint_end_prefix(s, more, i + 1);
        }
    }
}

proof fn lemma_acc7_prefix(s: Seq<u8>, more: Seq<u8>, k: nat)
    requires
        k <= s.len(),
    ensures
        acc7(s + more, k) == acc7(s, k),
    decreases k,
{
    if k > 0 {
        lemma_acc7_prefix(s, more, (k - 1) as nat);
        assert((s + more)[k - 1] == s[k - 1]);
    }
}

/// The `n` seven-bit groups of `x`, most significant first, each with its high
/// bit set to say that more bytes follow.
pub open spec fn marked_groups(x: nat, n: nat) -> Seq<u8>
    decreases n,
{
    if n == 0 {
        Seq::empty()
    } else {
        marked_groups(x / 128, (n - 1) as nat).push((128 + x % 128) as u8)
    }
}

/// How many seven-bit groups it takes to write `x` (at least one).
pub open spec fn groups_needed(x: nat) -> nat
    decreases x,
{
    if x < 128 {
        1
    } else {
        1 + groups_needed(x / 128)
    }
}

/// The SQLite varint of `v`: below 2^56, its seven-bit groups, most
/// significant first, with the high bit set on all but the last; from 2^56 on,
/// nine bytes, the first eight holding `v >> 8` as marked seven-bit groups and
/// the ninth holding the low eight bits of `v`.
pub open spec fn varint_encoding(v: u64) -> Seq<u8> {
    if v < 0x100000000000000 {
        marked_groups(v as nat / 128, (groups_needed(v as nat) - 1) as nat).push((v % 128) as u8)
    } else {
        marked_groups(v as nat / 256, 8).push((v % 256) as u8)
    }
}

proof fn lemma_marked_groups(x: nat, n: nat)
    requires
        x < p128(n),
    ensures
        marked_groups(x, n).len() == n,
        forall|j: int| 0 <= j < n ==> #[trigger] marked_groups(x, n)[j] >= 128,
        acc7(marked_groups(x, n), n) == x,
    decreases n,
{
    if n > 0 {
        let q = x / 128;
        assert(x == q * 128 + x % 128);
        assert(q < p128((n - 1) as nat));
        lemma_marked_groups(q, (n - 1) as nat);
        let g = marked_groups(q, (n - 1) as nat);
        let b = (128 + x % 128) as u8;
        assert(marked_groups(x, n) == g + seq![b]);
        lemma_acc7_prefix(g, seq![b], (n - 1) as nat);
        assert(marked_groups(x, n)[n - 1] == b);
    }
}

proof fn lemma_groups_needed(x: nat, k: nat)
    requires
        1 <= k,
        x < p128(k),
    ensures
        1 <= groups_needed(x) <= k,
        x < p128(groups_needed(x)),
    decreases x,
{
    reveal_with_fuel(p128, 2);
    if x >= 128 {
        let q = x / 128;
        assert(x == q * 128 + x % 128);
        assert(k >= 2);
        assert(q < p128((k - 1) as nat));
        lemma_groups_needed(q, (k - 1) as nat);
    }
}

proof fn lemma_varint_end_of_groups(e: Seq<u8>, m: nat, i: nat)
    requires
        m <= 8,
        e.len() == m + 1,
        i <= m,
        forall|j: int| 0 <= j < m ==> #[trigger] e[j] >= 128,
        m < 8 ==> e[m as int] < 128,
    ensures
        varint_end(e, i) == m + 1,
    decreases m - i,
{
    if i < m {
        lemma_varint_end_of_groups(e, m, i + 1);
    }
}

/// Reading a varint inverts writing one: the bytes of `varint_encoding(v)`,
/// wherever they stand and whatever follows them, read back as `v` and are
/// taken whole.
pub proof fn lemma_read_varint_inverts_encoding(v: u64, before: Seq<u8>, after: Seq<u8>)
    ensures
        varint_value(tail(before + varint_encoding(v) + after, before.len() as int)) == v,
        varint_size(tail(before + varint_encoding(v) + after, before.len() as int))
            == varint_encoding(v).len(),
{
    let e = varint_encoding(v);
    reveal_with_fuel(p128, 9);
    assert(tail(before + e + after, before.len() as int) =~= e + after);
    if v < 0x100000000000000 {
        lemma_groups_needed(v as nat, 8);
        let m = (groups_needed(v as nat) - 1) as nat;
        let q = v as nat / 128;
        assert(v == q * 128 + v % 128);
        assert(q < p128(m));
        lemma_marked_groups(q, m);
        let g = marked_groups(q, m);
        assert(e == g + seq![(v % 128) as u8]);
        assert(e[m as int] == v % 128);
        lemma_varint_end_of_groups(e, m, 0);
        lemma_acc7_prefix(g, seq![(v % 128) as u8], m);
    } else {
        let q = v as nat / 256;
        assert(v == q * 256 + v % 256);
        assert(q < p128(8));
        lemma_marked_groups(q, 8);
        let g = marked_groups(q, 8);
        assert(e == g + seq![(v % 256) as u8]);
        lemma_varint_end_of_groups(e, 8, 0);
        lemma_acc7_prefix(g, seq![(v % 256) as u8], 8);
    }
    lemma_varint_prefix(e, after);
}

} // verus!
