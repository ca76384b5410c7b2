//! Text: how column values are shown, and the column names of a
//! `CREATE TABLE` statement.
use vstd::prelude::*;

use crate::error::DbError;
use crate::record::{SqliteValue, ValueModel};

verus! {

/// The decimal digit `d` (0 to 9).
pub open spec fn digit_char(d: int) -> char {
    if d == 0 {
        '0'
    } else if d == 1 {
        '1'
    } else if d == 2 {
        '2'
    } else if d == 3 {
        '3'
    } else if d == 4 {
        '4'
    } else if d == 5 {
        '5'
    } else if d == 6 {
        '6'
    } else if d == 7 {
        '7'
    } else if d == 8 {
        '8'
    } else {
        '9'
    }
}

/// The decimal digits of `n`, without leading zeros.
pub open spec fn nat_text(n: nat) -> Seq<char>
    decreases n,
{
    if n < 10 {
        seq![digit_char(n as int)]
    } else {
        nat_text(n / 10).push(digit_char((n % 10) as int))
    }
}

/// `i` in decimal, with a leading `-` when negative.
pub open spec fn int_text(i: int) -> Seq<char> {
    if i < 0 {
        seq!['-'] + nat_text((-i) as nat)
    } else {
        nat_text(i as nat)
    }
}

/// The bytes of `b` in decimal, separated by `", "`.
pub open spec fn join_bytes(b: Seq<u8>) -> Seq<char>
    decreases b.len(),
{
    if b.len() == 0 {
        seq![]
    } else if b.len() == 1 {
        nat_text(b[0] as nat)
    } else {
        join_bytes(b.drop_last()) + seq![',', ' '] + nat_text(b.last() as nat)
    }
}

/// A byte string as a bracketed list of its bytes, such as `[1, 2, 255]`.
pub open spec fn blob_text(b: Seq<u8>) -> Seq<char> {
    seq!['['] + join_bytes(b) + seq![']']
}

/// How a value is shown; `None` for a floating-point value, whose shortest
/// scientific notation is produced by the caller.
pub open spec fn spec_value_text(v: ValueModel) -> Option<Seq<char>> {
    match v {
        ValueModel::Null => Some(seq!['N', 'u', 'l', 'l']),
        ValueModel::Integer(i) => Some(int_text(i as int)),
        ValueModel::Real(_) => None,
        ValueModel::Text(t) => Some(t),
        ValueModel::Blob(b) => Some(blob_text(b)),
    }
}

/// A shown value: text, or the bit pattern of a floating-point value that is
/// still to be formatted.
#[derive(Debug, Clone)]
pub enum Rendered {
    Text(String),
    Real(u64),
}

/// A shown value matches the model of the value it shows.
pub open spec fn rendered_as(r: Rendered, v: ValueModel) -> bool {
    match v {
        ValueModel::Real(b) => r matches Rendered::Real(b2) && b2 == b,
        _ => r matches Rendered::Text(s) && Some(s@) == spec_value_text(v),
    }
}

/// Appends the decimal digit `d`.
fn push_digit(out: &mut String, d: u64)
    requires
        d < 10,
    ensures
        final(out)@ == old(out)@.push(digit_char(d as int)),
{
    let digits = "0123456789";
    proof {
        reveal_strlit("0123456789");
    }
    let one = digits.substring_char(d as usize, d as usize + 1);
    assert(one@ =~= seq![digit_char(d as int)]);
    out.append(one);
}

/// Appends `n` in decimal.
fn push_nat(out: &mut String, n: u64)
    ensures
        final(out)@ == old(out)@ + nat_text(n as nat),
    decreases n,
{
    if n >= 10 {
        push_nat(out, n / 10);
        push_digit(out, n % 10);
        assert(old(out)@ + nat_text(n as nat) =~= old(out)@ + nat_text((n / 10) as nat) + seq![
            digit_char((n % 10) as int),
        ]);
    } else {
        push_digit(out, n);
        assert(old(out)@ + nat_text(n as nat) =~= old(out)@.push(digit_char(n as int)));
    }
}

/// `i` in decimal.
pub fn int_to_string(i: i64) -> (r: String)
    ensures
        r@ == int_text(i as int),
{
    let mut out = String::new();
    if i < 0 {
        let minus = "-";
        proof {
            reveal_strlit("-");
        }
        out.append(minus);
        let magnitude: u64 = if i == i64::MIN {
            0x8000_0000_0000_0000
        } else {
            (-i) as u64
        };
        push_nat(&mut out, magnitude);
        assert(out@ =~= int_text(i as int));
    } else {
        push_nat(&mut out, i as u64);
        assert(out@ =~= int_text(i as int));
    }
    out
}

/// A byte string as a bracketed list of its bytes.
pub fn blob_to_string(b: &Vec<u8>) -> (r: String)
    ensures
        r@ == blob_text(b@),
{
    let mut out = String::new();
    let open = "[";
    let sep = ", ";
    let close = "]";
    proof {
        reveal_strlit("[");
        reveal_strlit(", ");
        reveal_strlit("]");
    }
    out.append(open);
    let mut i: usize = 0;
    while i < b.len()
        invariant
            i <= b@.len(),
            sep@ == seq![',', ' '],
            out@ == seq!['['] + join_bytes(b@.take(i as int)),
        decreases b.len() - i,
    {
        let ghost before = out@;
        if i > 0 {
            out.append(sep);
        }
        push_nat(&mut out, b[i] as u64);
        proof {
            assert(b@.take(i + 1).drop_last() =~= b@.take(i as int));
            if i == 0 {
                assert(b@.take(1).len() == 1);
                assert(out@ =~= seq!['['] + join_bytes(b@.take(1)));
            } else {
                assert(out@ =~= seq!['['] + join_bytes(b@.take(i + 1)));
            }
        }
        i += 1;
    }
    assert(b@.take(i as int) =~= b@);
    out.append(close);
    assert(out@ =~= blob_text(b@));
    out
}

impl SqliteValue {
    /// How the value is shown: `Null`, an integer in decimal, the text itself,
    /// or a byte string as a bracketed list of its bytes. A floating-point value
    /// comes back as its bit pattern.
    pub fn to_str(&self) -> (r: Rendered)
        ensures
            rendered_as(r, self@),
    {
        match self {
            SqliteValue::Null => {
                let s = "Null";
                proof {
                    reveal_strlit("Null");
                }
                let t = String::from_str(s);
                assert(t@ =~= seq!['N', 'u', 'l', 'l']);
                Rendered::Text(t)
            },
            SqliteValue::Integer(i) => Rendered::Text(int_to_string(*i)),
            SqliteValue::Real(bits) => Rendered::Real(*bits),
            SqliteValue::Text(t) => Rendered::Text(t.clone()),
            SqliteValue::Blob(items) => Rendered::Text(blob_to_string(items)),
        }
    }
}

/// Unicode White_Space, the characters that `char::is_whitespace` accepts.
pub open spec fn is_ws(c: char) -> bool {
    let u = c as u32;
    ||| 0x09 <= u <= 0x0d
    ||| u == 0x20
    ||| u == 0x85
    ||| u == 0xa0
    ||| u == 0x1680
    ||| 0x2000 <= u <= 0x200a
    ||| u == 0x2028
    ||| u == 0x2029
    ||| u == 0x202f
    ||| u == 0x205f
    ||| u == 0x3000
}

/// Whether `c` is Unicode white space.
pub fn is_whitespace(c: char) -> (r: bool)
    ensures
        r == is_ws(c),
{
    let u = c as u32;
    (0x09 <= u && u <= 0x0d) || u == 0x20 || u == 0x85 || u == 0xa0 || u == 0x1680 || (0x2000
        <= u && u <= 0x200a) || u == 0x2028 || u == 0x2029 || u == 0x202f || u == 0x205f || u
        == 0x3000
}

/// The index of the first `x` in `s`, or `s.len()` when there is none.
pub open spec fn index_of(s: Seq<char>, x: char) -> int
    decreases s.len(),
{
    if s.len() == 0 {
        0
    } else if s[0] == x {
        0
    } else {
        1 + index_of(s.drop_first(), x)
    }
}

/// The index of the first character of `s` whose white-space-ness is `ws`,
/// or `s.len()` when there is none.
pub open spec fn index_of_ws(s: Seq<char>, ws: bool) -> int
    decreases s.len(),
{
    if s.len() == 0 {
        0
    } else if is_ws(s[0]) == ws {
        0
    } else {
        1 + index_of_ws(s.drop_first(), ws)
    }
}

/// The index of the last `x` in `s`, or -1 when there is none.
pub open spec fn last_index_of(s: Seq<char>, x: char) -> int
    decreases s.len(),
{
    if s.len() == 0 {
        -1
    } else if s.last() == x {
        s.len() - 1
    } else {
        last_index_of(s.drop_last(), x)
    }
}

pub proof fn lemma_index_of_bounds(s: Seq<char>, x: char)
    ensures
        0 <= index_of(s, x) <= s.len(),
        index_of(s, x) < s.len() ==> s[index_of(s, x)] == x,
    decreases s.len(),
{
    if s.len() > 0 && s[0] != x {
        lemma_index_of_bounds(s.drop_first(), x);
    }
}

proof fn lemma_index_of_at(s: Seq<char>, x: char, k: int)
    requires
        0 <= k <= s.len(),
        forall|j: int| 0 <= j < k ==> s[j] != x,
        k < s.len() ==> s[k] == x,
    ensures
        index_of(s, x) == k,
    decreases s.len(),
{
    if s.len() > 0 && k > 0 {
        lemma_index_of_at(s.drop_first(), x, k - 1);
    }
}

proof fn lemma_index_of_ws_at(s: Seq<char>, ws: bool, k: int)
    requires
        0 <= k <= s.len(),
        forall|j: int| 0 <= j < k ==> is_ws(#[trigger] s[j]) != ws,
        k < s.len() ==> is_ws(s[k]) == ws,
    ensures
        index_of_ws(s, ws) == k,
    decreases s.len(),
{
    if s.len() > 0 && k > 0 {
        assert(is_ws(s[0]) != ws);
        assert forall|j: int| 0 <= j < k - 1 implies is_ws(#[trigger] s.drop_first()[j]) != ws by {
            assert(s.drop_first()[j] == s[j + 1]);
        }
        lemma_index_of_ws_at(s.drop_first(), ws, k - 1);
    }
}

proof fn lemma_last_index_of_at(s: Seq<char>, x: char, k: int)
    requires
        -1 <= k < s.len(),
        forall|j: int| k < j < s.len() ==> s[j] != x,
        k >= 0 ==> s[k] == x,
    ensures
        last_index_of(s, x) == k,
    decreases s.len(),
{
    if s.len() > 0 && k < s.len() - 1 {
        lemma_last_index_of_at(s.drop_last(), x, k);
    }
}

/// `s` cut at every `x`; a string without `x` is one piece.
pub open spec fn split_on(s: Seq<char>, x: char) -> Seq<Seq<char>>
    decreases s.len(),
{
    let k = index_of(s, x);
    if k >= s.len() || k < 0 {
        seq![s]
    } else {
        proof {
            lemma_index_of_bounds(s, x);
        }
        seq![s.take(k)] + split_on(s.skip(k + 1), x)
    }
}

/// The first word of `piece`: from its first non-white-space character up to
/// the next white space; `None` when it is all white space.
pub open spec fn first_word(piece: Seq<char>) -> Option<Seq<char>> {
    let a = index_of_ws(piece, false);
    if a >= piece.len() || a < 0 {
        None
    } else {
        let rest = piece.skip(a);
        Some(rest.take(index_of_ws(rest, true)))
    }
}

/// The first words of the pieces that are not all white space.
pub open spec fn first_words(pieces: Seq<Seq<char>>) -> Seq<Seq<char>>
    decreases pieces.len(),
{
    if pieces.len() == 0 {
        seq![]
    } else {
        let rest = first_words(pieces.drop_first());
        match first_word(pieces[0]) {
            Some(w) => seq![w] + rest,
            None => rest,
        }
    }
}

/// Where the column list of `s` lies: after its first `(` and before its last
/// `)`.
pub open spec fn column_list_bounds(s: Seq<char>) -> Option<(int, int)> {
    let start = index_of(s, '(');
    let end = last_index_of(s, ')');
    if start < s.len() && end >= 0 {
        Some((start, end))
    } else {
        None
    }
}

/// The column list can be cut out of `s`: its last `)` does not come before
/// its first `(`.
pub open spec fn column_list_well_placed(s: Seq<char>) -> bool {
    column_list_bounds(s) matches Some((start, end)) ==> start < end
}

/// The column names of a `CREATE TABLE` statement: the first word of every
/// comma-separated entry between the first `(` and the last `)` that is not
/// all white space.
pub open spec fn table_columns(s: Seq<char>) -> Seq<Seq<char>> {
    match column_list_bounds(s) {
        Some((start, end)) => first_words(split_on(s.subrange(start + 1, end), ',')),
        None => seq![],
    }
}

/// The column names that a schema's `sql` value declares; none unless it is
/// text.
pub open spec fn spec_table_columns(v: ValueModel) -> Seq<Seq<char>> {
    match v {
        ValueModel::Text(s) => table_columns(s),
        _ => seq![],
    }
}

/// The column names can be read from `v`.
pub open spec fn table_columns_readable(v: ValueModel) -> bool {
    v matches ValueModel::Text(s) ==> column_list_well_placed(s)
}

/// The views of a sequence of strings.
pub open spec fn strings_view(v: Seq<String>) -> Seq<Seq<char>> {
    v.map_values(|x: String| x@)
}

/// The characters of `s`.
fn chars_of(s: &str) -> (r: Vec<char>)
    ensures
        r@ == s@,
{
    let n = s.unicode_len();
    let mut out: Vec<char> = Vec::new();
    let mut i: usize = 0;
    while i < n
        invariant
            i <= n,
            n == s@.len(),
            out@ == s@.take(i as int),
        decreases n - i,
    {
        out.push(s.get_char(i));
        i += 1;
        proof {
            assert(out@ =~= s@.take(i as int));
        }
    }
    assert(out@ =~= s@);
    out
}

/// The first index at or after `from` and before `to` that holds `x`, or
/// `to`.
fn find_char(c: &Vec<char>, x: char, from: usize, to: usize) -> (k: usize)
    requires
        from <= to <= c@.len(),
    ensures
        from <= k <= to,
        forall|j: int| from <= j < k ==> c@[j] != x,
        k < to ==> c@[k as int] == x,
{
    let mut k = from;
    while k < to
        invariant
            from <= k <= to,
            to <= c@.len(),
            forall|j: int| from <= j < k ==> c@[j] != x,
        decreases to - k,
    {
        if c[k] == x {
            return k;
        }
        k += 1;
    }
    k
}

/// The first index at or after `from` and before `to` whose white-space-ness
/// is `ws`, or `to`.
fn find_ws(c: &Vec<char>, ws: bool, from: usize, to: usize) -> (k: usize)
    requires
        from <= to <= c@.len(),
    ensures
        from <= k <= to,
        forall|j: int| from <= j < k ==> is_ws(#[trigger] c@[j]) != ws,
        k < to ==> is_ws(c@[k as int]) == ws,
{
    let mut k = from;
    while k < to
        invariant
            from <= k <= to,
            to <= c@.len(),
            forall|j: int| from <= j < k ==> is_ws(#[trigger] c@[j]) != ws,
        decreases to - k,
    {
        if is_whitespace(c[k]) == ws {
            return k;
        }
        k += 1;
    }
    k
}

/// The index of the last `x` in `c`, if any.
fn rfind_char(c: &Vec<char>, x: char) -> (r: Option<usize>)
    ensures
        r is Some <==> last_index_of(c@, x) >= 0,
        r matches Some(k) ==> k == last_index_of(c@, x) && k < c@.len(),
{
    let mut k = c.len();
    while k > 0
        invariant
            k <= c@.len(),
            forall|j: int| k <= j < c@.len() ==> c@[j] != x,
        decreases k,
    {
        if c[k - 1] == x {
            proof {
                lemma_last_index_of_at(c@, x, k - 1);
            }
            return Some(k - 1);
        }
        k -= 1;
    }
    proof {
        lemma_last_index_of_at(c@, x, -1);
    }
    None
}

/// The column names declared by the `CREATE TABLE` text of a schema row.
pub fn extract_table_columns(sql_text: &SqliteValue) -> (r: Result<Vec<String>, DbError>)
    requires
        table_columns_readable(sql_text@),
    ensures
        r matches Ok(cols) && strings_view(cols@) == spec_table_columns(sql_text@),
{
    let mut columns: Vec<String> = Vec::new();

    if let SqliteValue::Text(s) = sql_text {
        let text = s.as_str();
        let c = chars_of(text);
        let ghost cs = c@;
        let start = find_char(&c, '(', 0, c.len());
        proof {
            lemma_index_of_at(cs, '(', start as int);
        }
        if start < c.len() {
            if let Some(end) = rfind_char(&c, ')') {
                let ghost inner = cs.subrange(start + 1, end as int);
                assert(column_list_bounds(cs) == Some((start as int, end as int)));
                assert(sql_text@ == ValueModel::Text(cs));
                assert(start < end);
                let mut pos = start + 1;
                let mut done = false;
                while !done
                    invariant
                        cs == c@,
                        cs == text@,
                        start < end < cs.len(),
                        inner == cs.subrange(start + 1, end as int),
                        start + 1 <= pos <= end,
                        first_words(split_on(inner, ',')) == strings_view(columns@) + (if done {
                            seq![]
                        } else {
                            first_words(split_on(cs.subrange(pos as int, end as int), ','))
                        }),
                    decreases end - pos, if done { 0int } else { 1int },
                {
                    let ghost cur = cs.subrange(pos as int, end as int);
                    let k = find_char(&c, ',', pos, end);
                    proof {
                        lemma_index_of_at(cur, ',', k - pos);
                    }
                    let ghost piece = cur.take(k - pos);
                    let a = find_ws(&c, false, pos, k);
                    proof {
                        assert forall|j: int| 0 <= j < a - pos implies is_ws(#[trigger] piece[j])
                            != false by {
                            assert(piece[j] == c@[pos + j]);
                        }
                        lemma_index_of_ws_at(piece, false, a - pos);
                    }
                    let ghost before = columns@;
                    if a < k {
                        let b = find_ws(&c, true, a, k);
                        let ghost rest = piece.skip(a - pos);
                        proof {
                            assert forall|j: int| 0 <= j < b - a implies is_ws(#[trigger] rest[j])
                                != true by {
                                assert(rest[j] == c@[a + j]);
                            }
                            lemma_index_of_ws_at(rest, true, b - a);
                            assert(rest.take(b - a) =~= text@.subrange(a as int, b as int));
                        }
                        let name = text.substring_char(a, b).to_owned();
                        columns.push(name);
                    }
                    proof {
                        let w = first_word(piece);
                        assert(strings_view(columns@) =~= strings_view(before) + (match w {
                            Some(x) => seq![x],
                            None => seq![],
                        }));
                    }
                    if k == end {
                        proof {
                            assert(split_on(cur, ',') == seq![cur]);
                            assert(piece =~= cur);
                            assert(seq![cur].drop_first() =~= Seq::<Seq<char>>::empty());
                            assert(seq![cur][0] == cur);
                            reveal_with_fuel(first_words, 2);
                            assert(first_words(seq![cur]) =~= (match first_word(cur) {
                                Some(x) => seq![x],
                                None => seq![],
                            }));
                        }
                        done = true;
                    } else {
                        proof {
                            assert(cur.skip(k - pos + 1) =~= cs.subrange(k + 1, end as int));
                            let rest_pieces = split_on(cur.skip(k - pos + 1), ',');
                            assert(split_on(cur, ',') == seq![piece] + rest_pieces);
                            assert((seq![piece] + rest_pieces).drop_first() =~= rest_pieces);
                        }
                        pos = k + 1;
                    }
                }
                proof {
                    assert(strings_view(columns@) + seq![] =~= strings_view(columns@));
                }
            }
        }
    }
    Ok(columns)
}

/// Whether the column names can be read from `v`: it is not text, or its last
/// `)` does not come before its first `(`.
pub fn columns_readable(v: &SqliteValue) -> (r: bool)
    ensures
        r == table_columns_readable(v@),
{
    if let SqliteValue::Text(s) = v {
        let c = chars_of(s.as_str());
        let start = find_char(&c, '(', 0, c.len());
        proof {
            lemma_index_of_at(c@, '(', start as int);
        }
        if start < c.len() {
            if let Some(end) = rfind_char(&c, ')') {
                return start < end;
            }
        }
        true
    } else {
        true
    }
}

/// `c` with the ASCII letters `a` to `z` turned into `A` to `Z`; every other
/// character unchanged.
pub open spec fn ascii_upper(c: char) -> char {
    if 'a' <= c && c <= 'z' {
        ((c as int) - 32) as char
    } else {
        c
    }
}

/// `s` with every ASCII lower-case letter made upper-case.
pub open spec fn ascii_upper_text(s: Seq<char>) -> Seq<char> {
    s.map_values(|c: char| ascii_upper(c))
}

/// `n` copies of `c`.
pub open spec fn repeated(c: char, n: nat) -> Seq<char> {
    Seq::new(n, |k: int| c)
}

/// `s` followed by spaces up to `w` characters (nothing added when `s` is
/// already that long).
pub open spec fn padded(s: Seq<char>, w: int) -> Seq<char> {
    s + repeated(' ', if w > s.len() { (w - s.len()) as nat } else { 0 })
}

fn push_upper_letter(out: &mut String, c: char)
    requires
        'a' <= c && c <= 'z',
    ensures
        final(out)@ == old(out)@.push(ascii_upper(c)),
{
    let letters = "ABCDEFGHIJKLMNOPQRSTUVWXYZ";
    proof {
        reveal_strlit("ABCDEFGHIJKLMNOPQRSTUVWXYZ");
    }
    let k = (c as u32 - 97) as usize;
    let one = letters.substring_char(k, k + 1);
    assert(letters@[k as int] == ascii_upper(c));
    assert(one@ =~= seq![ascii_upper(c)]);
    out.append(one);
}

/// `s` with every ASCII lower-case letter made upper-case.
pub fn to_ascii_uppercase(s: &str) -> (r: String)
    ensures
        r@ == ascii_upper_text(s@),
{
    let n = s.unicode_len();
    let mut out = String::new();
    let mut i: usize = 0;
    while i < n
        invariant
            i <= n,
            n == s@.len(),
            out@ == ascii_upper_text(s@.subrange(0, i as int)),
        decreases n - i,
    {
        let c = s.get_char(i);
        if 'a' <= c && c <= 'z' {
            push_upper_letter(&mut out, c);
        } else {
            out.append(s.substring_char(i, i + 1));
        }
        assert(ascii_upper_text(s@.subrange(0, i + 1)) =~= ascii_upper_text(
            s@.subrange(0, i as int),
        ).push(ascii_upper(c)));
        i += 1;
    }
    assert(s@.subrange(0, n as int) =~= s@);
    out
}

/// One cell of a drawn table line: a space, `s` padded to `w` characters, a
/// space and a bar.
pub open spec fn cell_text(s: Seq<char>, w: int) -> Seq<char> {
    seq![' '] + padded(s, w) + seq![' ', '|']
}

/// Appends `n` copies of the one character of `unit`.
fn push_repeated(out: &mut String, unit: &str, n: usize)
    requires
        unit@.len() == 1,
    ensures
        final(out)@ == old(out)@ + repeated(unit@[0], n as nat),
{
    let mut k: usize = 0;
    while k < n
        invariant
            k <= n,
            unit@.len() == 1,
            out@ == old(out)@ + repeated(unit@[0], k as nat),
        decreases n - k,
    {
        out.append(unit);
        k += 1;
        assert(out@ =~= old(out)@ + repeated(unit@[0], k as nat));
    }
}

/// Appends `text` as one cell of a table line, padded to `width` characters.
pub fn push_cell(out: &mut String, text: &str, width: usize)
    ensures
        final(out)@ == old(out)@ + cell_text(text@, width as int),
{
    let space = " ";
    let close = " |";
    proof {
        reveal_strlit(" ");
        reveal_strlit(" |");
    }
    out.append(space);
    out.append(text);
    let n = text.unicode_len();
    if width > n {
        push_repeated(out, space, width - n);
    } else {
        push_repeated(out, space, 0);
    }
    out.append(close);
    assert(out@ =~= old(out)@ + cell_text(text@, width as int));
}

/// Appends `n` dashes.
pub fn push_dashes(out: &mut String, n: usize)
    ensures
        final(out)@ == old(out)@ + repeated('-', n as nat),
{
    let dash = "-";
    proof {
        reveal_strlit("-");
    }
    push_repeated(out, dash, n);
}

/// The number that the decimal digits `s` spell, read left to right.
pub open spec fn decimal_value(s: Seq<char>) -> int
    decreases s.len(),
{
    if s.len() == 0 {
        0
    } else {
        decimal_value(s.drop_last()) * 10 + (s.last() as int - '0' as int)
    }
}

/// Every character of `s` is one of the digits `0` to `9`.
pub open spec fn all_digits(s: Seq<char>) -> bool {
    forall|k: int| 0 <= k < s.len() ==> '0' <= #[trigger] s[k] <= '9'
}

proof fn lemma_nat_text(n: nat)
    ensures
        nat_text(n).len() >= 1,
        all_digits(nat_text(n)),
        decimal_value(nat_text(n)) == n,
        n > 0 ==> nat_text(n)[0] != '0',
    decreases n,
{
    let d = if n < 10 { n as int } else { (n % 10) as int };
    assert(d == 0 || d == 1 || d == 2 || d == 3 || d == 4 || d == 5 || d == 6 || d == 7 || d == 8
        || d == 9);
    assert(digit_char(d) as int == '0' as int + d);
    if n < 10 {
        assert(seq![digit_char(n as int)].drop_last() =~= Seq::<char>::empty());
        assert(decimal_value(nat_text(n)) == decimal_value(Seq::<char>::empty()) * 10 + d);
    } else {
        lemma_nat_text(n / 10);
        let t = nat_text(n / 10);
        assert(nat_text(n).drop_last() =~= t);
        assert(nat_text(n)[0] == t[0]);
        assert(nat_text(n).last() == digit_char(d));
        assert(n == (n / 10) * 10 + n % 10);
        assert(decimal_value(nat_text(n)) == decimal_value(t) * 10 + d);
    }
}

/// The decimal text of an integer reads back as that integer: an optional
/// `-` (exactly for negative numbers) followed by at least one digit, with no
/// leading zero except for 0 itself.
pub proof fn lemma_int_text_reads_back(i: int)
    ensures
        ({
            let t = int_text(i);
            let digits = if i < 0 { t.drop_first() } else { t };
            &&& (i < 0 <==> t[0] == '-')
            &&& digits.len() >= 1
            &&& all_digits(digits)
            &&& (digits.len() > 1 ==> digits[0] != '0')
            &&& (if i < 0 { -decimal_value(digits) } else { decimal_value(digits) }) == i
        }),
{
    if i < 0 {
        lemma_nat_text((-i) as nat);
        assert((seq!['-'] + nat_text((-i) as nat)).drop_first() =~= nat_text((-i) as nat));
    } else {
        lemma_nat_text(i as nat);
        assert('0' <= nat_text(i as nat)[0] <= '9');
    }
}

/// The entries `es` separated by commas.
pub open spec fn join_commas(es: Seq<Seq<char>>) -> Seq<char>
    decreases es.len(),
{
    if es.len() == 0 {
        seq![]
    } else if es.len() == 1 {
        es[0]
    } else {
        es[0] + seq![','] + join_commas(es.drop_first())
    }
}

proof fn lemma_split_joined(es: Seq<Seq<char>>)
    requires
        es.len() >= 1,
        forall|j: int, k: int| 0 <= j < es.len() && 0 <= k < es[j].len() ==> #[trigger] es[j][k] != ',',
    ensures
        split_on(join_commas(es), ',') == es,
    decreases es.len(),
{
    let s = join_commas(es);
    if es.len() == 1 {
        lemma_index_of_at(s, ',', s.len() as int);
        assert(seq![s] =~= es);
    } else {
        let rest = es.drop_first();
        assert forall|j: int, k: int| 0 <= j < rest.len() && 0 <= k < rest[j].len() implies #[trigger] rest[j][k]
            != ',' by {
            assert(rest[j] == es[j + 1]);
        }
        lemma_split_joined(rest);
        let k0 = es[0].len() as int;
        assert forall|j: int| 0 <= j < k0 implies s[j] != ',' by {
            assert(s[j] == es[0][j]);
        }
        lemma_index_of_at(s, ',', k0);
        assert(s.take(k0) =~= es[0]);
        assert(s.skip(k0 + 1) =~= join_commas(rest));
        assert(seq![es[0]] + rest =~= es);
    }
}

/// An entry of a column list: white space, the column's name, and the rest of
/// its definition.
pub open spec fn column_entry(lead: Seq<char>, word: Seq<char>, rest: Seq<char>) -> Seq<char> {
    lead + word + rest
}

proof fn lemma_first_word_of_entry(lead: Seq<char>, word: Seq<char>, rest: Seq<char>)
    requires
        forall|k: int| 0 <= k < lead.len() ==> is_ws(#[trigger] lead[k]),
        word.len() >= 1,
        forall|k: int| 0 <= k < word.len() ==> !is_ws(#[trigger] word[k]),
        rest.len() > 0 ==> is_ws(rest[0]),
    ensures
        first_word(column_entry(lead, word, rest)) == Some(word),
{
    let e = column_entry(lead, word, rest);
    assert forall|j: int| 0 <= j < lead.len() implies is_ws(#[trigger] e[j]) != false by {
        assert(e[j] == lead[j]);
    }
    assert(e[lead.len() as int] == word[0]);
    lemma_index_of_ws_at(e, false, lead.len() as int);
    let r = e.skip(lead.len() as int);
    assert(r =~= word + rest);
    assert forall|j: int| 0 <= j < word.len() implies is_ws(#[trigger] r[j]) != true by {
        assert(r[j] == word[j]);
    }
    if rest.len() > 0 {
        assert(r[word.len() as int] == rest[0]);
    }
    lemma_index_of_ws_at(r, true, word.len() as int);
    assert(r.take(word.len() as int) =~= word);
}

proof fn lemma_first_words_of_entries(
    leads: Seq<Seq<char>>,
    words: Seq<Seq<char>>,
    rests: Seq<Seq<char>>,
)
    requires
        leads.len() == words.len() == rests.len(),
        forall|j: int, k: int| 0 <= j < leads.len() && 0 <= k < leads[j].len() ==> is_ws(#[trigger] leads[j][k]),
        forall|j: int| 0 <= j < words.len() ==> (#[trigger] words[j]).len() >= 1,
        forall|j: int, k: int| 0 <= j < words.len() && 0 <= k < words[j].len() ==> !is_ws(#[trigger] words[j][k]),
        forall|j: int| 0 <= j < rests.len() && (#[trigger] rests[j]).len() > 0 ==> is_ws(rests[j][0]),
    ensures
        first_words(Seq::new(words.len(), |j: int| column_entry(leads[j], words[j], rests[j]))) == words,
    decreases words.len(),
{
    let es = Seq::new(words.len(), |j: int| column_entry(leads[j], words[j], rests[j]));
    if words.len() > 0 {
        assert forall|k: int| 0 <= k < leads[0].len() implies is_ws(#[trigger] leads[0][k]) by {}
        assert forall|k: int| 0 <= k < words[0].len() implies !is_ws(#[trigger] words[0][k]) by {}
        assert(words[0].len() >= 1);
        lemma_first_word_of_entry(leads[0], words[0], rests[0]);
        let l2 = leads.drop_first();
        let w2 = words.drop_first();
        let r2 = rests.drop_first();
        assert forall|j: int, k: int| 0 <= j < l2.len() && 0 <= k < l2[j].len() implies is_ws(#[trigger] l2[j][k]) by {
            assert(l2[j] == leads[j + 1]);
        }
        assert forall|j: int| 0 <= j < w2.len() implies (#[trigger] w2[j]).len() >= 1 by {
            assert(w2[j] == words[j + 1]);
        }
        assert forall|j: int, k: int| 0 <= j < w2.len() && 0 <= k < w2[j].len() implies !is_ws(#[trigger] w2[j][k]) by {
            assert(w2[j] == words[j + 1]);
        }
        assert forall|j: int| 0 <= j < r2.len() && (#[trigger] r2[j]).len() > 0 implies is_ws(r2[j][0]) by {
            assert(r2[j] == rests[j + 1]);
        }
        lemma_first_words_of_entries(l2, w2, r2);
        assert(es.drop_first() =~= Seq::new(w2.len(), |j: int| column_entry(l2[j], w2[j], r2[j])));
        assert(seq![words[0]] + w2 =~= words);
    } else {
        assert(words =~= seq![]);
    }
}

/// The column names of a `CREATE TABLE` statement written as a text without
/// `(` (the table part), `(`, comma-separated entries, `)` and a text without
/// `)`: each entry being white space, a name of characters that are neither
/// white space nor commas, and the rest of its definition (starting with
/// white space and holding no comma), the columns are exactly those names, in
/// order.
pub proof fn lemma_table_columns_layout(
    before: Seq<char>,
    leads: Seq<Seq<char>>,
    words: Seq<Seq<char>>,
    rests: Seq<Seq<char>>,
    after: Seq<char>,
)
    requires
        leads.len() == words.len() == rests.len() >= 1,
        forall|k: int| 0 <= k < before.len() ==> #[trigger] before[k] != '(',
        forall|k: int| 0 <= k < after.len() ==> #[trigger] after[k] != ')',
        forall|j: int, k: int| 0 <= j < leads.len() && 0 <= k < leads[j].len() ==> is_ws(#[trigger] leads[j][k]),
        forall|j: int| 0 <= j < words.len() ==> (#[trigger] words[j]).len() >= 1,
        forall|j: int, k: int|
            0 <= j < words.len() && 0 <= k < words[j].len() ==> !is_ws(#[trigger] words[j][k])
                && words[j][k] != ',',
        forall|j: int| 0 <= j < rests.len() && (#[trigger] rests[j]).len() > 0 ==> is_ws(rests[j][0]),
        forall|j: int, k: int| 0 <= j < rests.len() && 0 <= k < rests[j].len() ==> #[trigger] rests[j][k] != ',',
    ensures
        table_columns(
            before + seq!['('] + join_commas(
                Seq::new(words.len(), |j: int| column_entry(leads[j], words[j], rests[j])),
            ) + seq![')'] + after,
        ) == words,
{
    let es = Seq::new(words.len(), |j: int| column_entry(leads[j], words[j], rests[j]));
    let body = join_commas(es);
    let s = before + seq!['('] + body + seq![')'] + after;
    let start = before.len() as int;
    let end = start + 1 + body.len();
    assert forall|j: int| 0 <= j < start implies s[j] != '(' by {
        assert(s[j] == before[j]);
    }
    lemma_index_of_at(s, '(', start);
    assert forall|j: int| end < j < s.len() implies s[j] != ')' by {
        assert(s[j] == after[j - end - 1]);
    }
    lemma_last_index_of_at(s, ')', end);
    assert(s.subrange(start + 1, end) =~= body);
    assert forall|j: int, k: int| 0 <= j < es.len() && 0 <= k < es[j].len() implies #[trigger] es[j][k] != ',' by {
        let l = leads[j];
        let w = words[j];
        let r = rests[j];
        if k < l.len() {
            assert(es[j][k] == l[k]);
            assert(is_ws(l[k]));
        } else if k < l.len() + w.len() {
            assert(es[j][k] == w[k - l.len()]);
        } else {
            assert(es[j][k] == r[k - l.len() - w.len()]);
        }
    }
    lemma_split_joined(es);
    lemma_first_words_of_entries(leads, words, rests);
}

} // verus!
