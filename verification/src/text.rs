//! Character-level helpers shared by the parsers: the characters of a string,
//! UTF-8 byte offsets over a sequence of characters, and the decimal integers
//! that `str::parse` reads.

use vstd::prelude::*;
use std::num::IntErrorKind;

verus! {

/// The error that `str::parse` gives for an integer it cannot read
/// (`std::num::ParseIntError`, carried through as it is).
#[verifier::external_type_specification]
#[verifier::external_body]
pub struct ExParseIntError(std::num::ParseIntError);

/// The characters of `s`, in order.
pub fn chars_of(s: &str) -> (r: Vec<char>)
    ensures
        r@ == s@,
{
    let mut out: Vec<char> = Vec::new();
    for c in it: s.chars()
        invariant
            out@ == it.seq().take(it.index() as int),
            it.seq() == s@,
    {
        out.push(c);
    }
    out
}

/// Whether the two character sequences are equal.
pub fn chars_eq(a: &Vec<char>, b: &Vec<char>) -> (r: bool)
    ensures
        r == (a@ == b@),
{
    if a.len() != b.len() {
        return false;
    }
    let n = a.len();
    let mut i: usize = 0;
    while i < n
        invariant
            n == a@.len(),
            n == b@.len(),
            i <= n,
            forall|j: int| 0 <= j < i ==> a@[j] == b@[j],
        decreases n - i,
    {
        if a[i] != b[i] {
            return false;
        }
        i = i + 1;
    }
    assert(a@ =~= b@);
    true
}

/// An owned copy of the characters `from..to` of `s`.
pub fn substring(s: &str, from: usize, to: usize) -> (r: String)
    requires
        from <= to <= s@.len(),
    ensures
        r@ == s@.subrange(from as int, to as int),
{
    s.substring_char(from, to).to_owned()
}

/// What a parse that reads a string by byte offsets yields: a value or a
/// failure, or `Panics` where an offset falls off a character boundary (or
/// out of range), where indexing the string would panic.
pub enum Outcome<T, F> {
    Done(Result<T, F>),
    Panics,
}

/// Continues with `f` on a value, and passes a failure or a panic on.
pub open spec fn and_then<T, U, F>(o: Outcome<T, F>, f: spec_fn(T) -> Outcome<U, F>) -> Outcome<U, F> {
    match o {
        Outcome::Done(Ok(v)) => f(v),
        Outcome::Done(Err(e)) => Outcome::Done(Err(e)),
        Outcome::Panics => Outcome::Panics,
    }
}

/// The index of the first `c` in `cs` at or after `from`, or `cs.len()`.
pub open spec fn find_from(cs: Seq<char>, c: char, from: int) -> int
    decreases cs.len() - from,
{
    if from < 0 || from >= cs.len() {
        cs.len() as int
    } else if cs[from] == c {
        from
    } else {
        find_from(cs, c, from + 1)
    }
}

pub proof fn lemma_find_from_bounds(cs: Seq<char>, c: char, from: int)
    requires
        0 <= from <= cs.len(),
    ensures
        from <= find_from(cs, c, from) <= cs.len(),
        find_from(cs, c, from) < cs.len() ==> cs[find_from(cs, c, from)] == c,
        forall|k: int| from <= k < find_from(cs, c, from) ==> cs[k] != c,
    decreases cs.len() - from,
{
    if from < cs.len() && cs[from] != c {
        lemma_find_from_bounds(cs, c, from + 1);
    }
}

/// The index of the first `c` in `cs` at or after `from`, or `cs.len()`.
pub fn find_char(cs: &Vec<char>, c: char, from: usize) -> (r: usize)
    requires
        from <= cs@.len(),
    ensures
        r == find_from(cs@, c, from as int),
        from <= r <= cs@.len(),
{
    proof {
        lemma_find_from_bounds(cs@, c, from as int);
    }
    let mut i = from;
    while i < cs.len()
        invariant
            from <= i <= cs@.len(),
            find_from(cs@, c, from as int) == find_from(cs@, c, i as int),
        decreases cs@.len() - i,
    {
        if cs[i] == c {
            return i;
        }
        i = i + 1;
    }
    i
}

/// The pieces of `cs` from index `from` on, between the characters `sep`, as
/// `split(sep)` gives them (empty pieces included).
pub open spec fn pieces_from(cs: Seq<char>, sep: char, from: int) -> Seq<Seq<char>>
    decreases cs.len() - from,
{
    if from < 0 || from > cs.len() {
        Seq::empty()
    } else {
        let e = find_from(cs, sep, from);
        proof {
            lemma_find_from_bounds(cs, sep, from);
        }
        if e >= cs.len() {
            seq![cs.subrange(from, cs.len() as int)]
        } else {
            seq![cs.subrange(from, e)] + pieces_from(cs, sep, e + 1)
        }
    }
}

/// Splitting loses nothing: two texts with the same pieces (from `a` and from
/// `b` on) are the same text from there on.
pub proof fn lemma_pieces_from_injective(p: Seq<char>, q: Seq<char>, sep: char, a: int, b: int)
    requires
        0 <= a <= p.len(),
        0 <= b <= q.len(),
        pieces_from(p, sep, a) == pieces_from(q, sep, b),
    ensures
        p.skip(a) == q.skip(b),
    decreases p.len() - a,
{
    lemma_find_from_bounds(p, sep, a);
    lemma_find_from_bounds(q, sep, b);
    let e1 = find_from(p, sep, a);
    let e2 = find_from(q, sep, b);
    let ps = pieces_from(p, sep, a);
    let qs = pieces_from(q, sep, b);
    assert(ps[0] == qs[0]);
    if e1 < p.len() {
        assert(pieces_from(p, sep, e1 + 1).len() >= 1);
    }
    if e2 < q.len() {
        assert(pieces_from(q, sep, e2 + 1).len() >= 1);
    }
    if e1 >= p.len() {
        assert(e2 >= q.len());
        assert(p.skip(a) =~= p.subrange(a, p.len() as int));
        assert(q.skip(b) =~= q.subrange(b, q.len() as int));
    } else {
        assert(e2 < q.len());
        assert(ps.skip(1) =~= pieces_from(p, sep, e1 + 1));
        assert(qs.skip(1) =~= pieces_from(q, sep, e2 + 1));
        lemma_pieces_from_injective(p, q, sep, e1 + 1, e2 + 1);
        assert(p.skip(a) =~= p.subrange(a, e1) + seq![sep] + p.skip(e1 + 1));
        assert(q.skip(b) =~= q.subrange(b, e2) + seq![sep] + q.skip(e2 + 1));
    }
}

/// No piece holds the separator.
pub proof fn lemma_pieces_from_no_sep(cs: Seq<char>, sep: char, from: int)
    ensures
        forall|i: int, j: int|
            0 <= i < pieces_from(cs, sep, from).len() && 0 <= j < pieces_from(cs, sep, from)[i].len()
                ==> #[trigger] pieces_from(cs, sep, from)[i][j] != sep,
    decreases cs.len() - from,
{
    if 0 <= from <= cs.len() {
        lemma_find_from_bounds(cs, sep, from);
        let e = find_from(cs, sep, from);
        if e < cs.len() {
            lemma_pieces_from_no_sep(cs, sep, e + 1);
            let ps = pieces_from(cs, sep, from);
            assert forall|i: int, j: int| 0 <= i < ps.len() && 0 <= j < ps[i].len() implies #[trigger] ps[i][j] != sep by {
                if i > 0 {
                    assert(ps[i] == pieces_from(cs, sep, e + 1)[i - 1]);
                } else {
                    assert(ps[0][j] == cs[from + j]);
                }
            }
        } else {
            let ps = pieces_from(cs, sep, from);
            assert forall|i: int, j: int| 0 <= i < ps.len() && 0 <= j < ps[i].len() implies #[trigger] ps[i][j] != sep by {
                assert(ps[0][j] == cs[from + j]);
            }
        }
    }
}

/// `s.push(c)` (std's `String::push`). Taken from std's documentation, not
/// proved: the string is the old one with `c` appended.
#[verifier::external_body]
pub(crate) fn push_char(s: &mut String, c: char)
    ensures
        final(s)@ == old(s)@.push(c),
{
    s.push(c);
}

// ---------------------------------------------------------------- ASCII

/// Whether `c` is a one-byte (ASCII) character.
pub open spec fn is_ascii_char(c: char) -> bool {
    (c as u32) < 0x80
}

pub fn char_is_ascii(c: char) -> (r: bool)
    ensures
        r == is_ascii_char(c),
{
    (c as u32) < 0x80
}

/// Whether `c` is an ASCII decimal digit.
pub open spec fn is_digit(c: char) -> bool {
    '0' <= c && c <= '9'
}

// ---------------------------------------------------------------- UTF-8 offsets

/// The number of bytes that the UTF-8 encoding of `c` takes.
pub open spec fn utf8_width(c: char) -> nat {
    let u = c as u32;
    if u < 0x80 {
        1
    } else if u < 0x800 {
        2
    } else if u < 0x10000 {
        3
    } else {
        4
    }
}

/// The number of bytes of the UTF-8 encoding of `cs` (what `str::len` gives).
pub open spec fn utf8_len(cs: Seq<char>) -> nat
    decreases cs.len(),
{
    if cs.len() == 0 {
        0
    } else {
        utf8_width(cs[0]) + utf8_len(cs.drop_first())
    }
}

/// Walking the characters of `cs` from index `k`, which starts at byte `off`:
/// the index of the character that starts at byte `p`, if one does.
pub open spec fn char_at_byte_from(cs: Seq<char>, p: int, k: int, off: int) -> Option<int>
    decreases cs.len() - k,
{
    if off == p {
        Some(k)
    } else if off > p || k < 0 || k >= cs.len() {
        None
    } else {
        char_at_byte_from(cs, p, k + 1, off + utf8_width(cs[k]))
    }
}

/// The index of the character of `cs` that starts at byte offset `p` of its
/// UTF-8 encoding; `Some(cs.len())` for the end; `None` where `p` falls inside
/// a character or past the end (where `str` indexing panics).
pub open spec fn char_at_byte(cs: Seq<char>, p: int) -> Option<int> {
    char_at_byte_from(cs, p, 0, 0)
}

/// The characters between byte offsets `a` and `c` of the UTF-8 encoding of
/// `cs` (what `&s[a..c]` holds), or `None` where that indexing panics.
pub open spec fn byte_slice(cs: Seq<char>, a: int, c: int) -> Option<Seq<char>> {
    match (char_at_byte(cs, a), char_at_byte(cs, c)) {
        (Some(i), Some(j)) => if i <= j {
            Some(cs.subrange(i, j))
        } else {
            None
        },
        _ => None,
    }
}

/// Every character of `cs` is one byte.
pub open spec fn all_ascii(cs: Seq<char>) -> bool {
    forall|k: int| 0 <= k < cs.len() ==> is_ascii_char(#[trigger] cs[k])
}

proof fn lemma_char_at_byte_ascii(cs: Seq<char>, p: int, k: int)
    requires
        forall|j: int| k <= j < p ==> is_ascii_char(#[trigger] cs[j]),
        0 <= k <= p <= cs.len(),
    ensures
        char_at_byte_from(cs, p, k, k) == Some(p),
    decreases p - k,
{
    if k < p {
        assert(is_ascii_char(cs[k]));
        lemma_char_at_byte_ascii(cs, p, k + 1);
    }
}

/// In a text of one-byte characters, bytes are characters: `utf8_len` is the
/// length, and every byte range within it can be cut.
pub proof fn lemma_ascii_bytes(cs: Seq<char>)
    requires
        all_ascii(cs),
    ensures
        utf8_len(cs) == cs.len(),
        forall|a: int, c: int|
            0 <= a <= c <= cs.len() ==> #[trigger] byte_slice(cs, a, c) == Some(cs.subrange(a, c)),
    decreases cs.len(),
{
    if cs.len() > 0 {
        assert(is_ascii_char(cs[0]));
        assert forall|k: int| 0 <= k < cs.drop_first().len() implies is_ascii_char(
            #[trigger] cs.drop_first()[k],
        ) by {
            assert(cs.drop_first()[k] == cs[k + 1]);
        }
        lemma_ascii_bytes(cs.drop_first());
    }
    assert forall|a: int, c: int| 0 <= a <= c <= cs.len() implies #[trigger] byte_slice(cs, a, c)
        == Some(cs.subrange(a, c)) by {
        lemma_char_at_byte_ascii(cs, a, 0);
        lemma_char_at_byte_ascii(cs, c, 0);
    }
}

/// Every character takes one byte at least.
pub proof fn lemma_utf8_len_at_least(cs: Seq<char>)
    ensures
        utf8_len(cs) >= cs.len(),
    decreases cs.len(),
{
    if cs.len() > 0 {
        lemma_utf8_len_at_least(cs.drop_first());
    }
}

/// Where the first `n` characters are one byte each, the text has `n`
/// bytes at least, and every byte range within them can be cut.
pub proof fn lemma_ascii_prefix_bytes(cs: Seq<char>, n: int)
    requires
        0 <= n <= cs.len(),
        forall|k: int| 0 <= k < n ==> is_ascii_char(#[trigger] cs[k]),
    ensures
        utf8_len(cs) >= n,
        forall|a: int, c: int|
            0 <= a <= c <= n ==> #[trigger] byte_slice(cs, a, c) == Some(cs.subrange(a, c)),
{
    lemma_utf8_len_at_least(cs);
    assert forall|a: int, c: int| 0 <= a <= c <= n implies #[trigger] byte_slice(cs, a, c)
        == Some(cs.subrange(a, c)) by {
        lemma_char_at_byte_ascii(cs, a, 0);
        lemma_char_at_byte_ascii(cs, c, 0);
    }
}

/// A decimal digit is one byte.
pub proof fn lemma_digit_ascii(c: char)
    requires
        is_digit(c),
    ensures
        is_ascii_char(c),
{
    if c == '0' {
    } else if c == '1' {
    } else if c == '2' {
    } else if c == '3' {
    } else if c == '4' {
    } else if c == '5' {
    } else if c == '6' {
    } else if c == '7' {
    } else if c == '8' {
    } else {
        assert(c == '9');
    }
}

pub fn char_width(c: char) -> (w: usize)
    ensures
        w == utf8_width(c),
{
    let u = c as u32;
    if u < 0x80 {
        1
    } else if u < 0x800 {
        2
    } else if u < 0x10000 {
        3
    } else {
        4
    }
}

proof fn lemma_utf8_len_skip(cs: Seq<char>, k: int)
    requires
        0 <= k < cs.len(),
    ensures
        utf8_len(cs.skip(k)) == utf8_width(cs[k]) + utf8_len(cs.skip(k + 1)),
{
    assert(cs.skip(k).drop_first() =~= cs.skip(k + 1));
}

/// Whether the UTF-8 encoding of `cs` takes at least `limit` bytes.
pub fn utf8_len_at_least(cs: &Vec<char>, limit: usize) -> (r: bool)
    requires
        limit <= usize::MAX - 4,
    ensures
        r == (utf8_len(cs@) >= limit),
{
    let n = cs.len();
    let mut k: usize = 0;
    let mut off: usize = 0;
    assert(cs@.skip(0) =~= cs@);
    while k < n && off < limit
        invariant
            n == cs@.len(),
            k <= n,
            off <= limit + 4,
            limit <= usize::MAX - 4,
            utf8_len(cs@) == off + utf8_len(cs@.skip(k as int)),
        decreases n - k,
    {
        proof {
            lemma_utf8_len_skip(cs@, k as int);
        }
        off = off + char_width(cs[k]);
        k = k + 1;
    }
    if off >= limit {
        true
    } else {
        assert(cs@.skip(n as int) =~= Seq::<char>::empty());
        false
    }
}

/// The index of the character that starts at byte offset `p` (see `char_at_byte`).
pub fn char_index_at_byte(cs: &Vec<char>, p: usize) -> (r: Option<usize>)
    requires
        p <= usize::MAX - 4,
    ensures
        match r {
            Some(k) => char_at_byte(cs@, p as int) == Some(k as int),
            None => char_at_byte(cs@, p as int) is None,
        },
{
    let n = cs.len();
    let mut k: usize = 0;
    let mut off: usize = 0;
    while off < p && k < n
        invariant
            n == cs@.len(),
            k <= n,
            off <= p + 4,
            p <= usize::MAX - 4,
            char_at_byte(cs@, p as int) == char_at_byte_from(cs@, p as int, k as int, off as int),
        decreases n - k,
    {
        off = off + char_width(cs[k]);
        k = k + 1;
    }
    if off == p {
        Some(k)
    } else {
        None
    }
}

/// The string `&s[a..c]` (byte offsets), or `None` where that indexing panics.
pub fn byte_range<'a>(s: &'a str, cs: &Vec<char>, a: usize, c: usize) -> (r: Option<&'a str>)
    requires
        cs@ == s@,
        a <= usize::MAX - 4,
        c <= usize::MAX - 4,
    ensures
        match r {
            Some(t) => byte_slice(s@, a as int, c as int) == Some(t@),
            None => byte_slice(s@, a as int, c as int) is None,
        },
{
    match (char_index_at_byte(cs, a), char_index_at_byte(cs, c)) {
        (Some(i), Some(j)) => {
            if i <= j {
                proof {
                    // char_at_byte never goes past the end
                    lemma_char_at_byte_bounded(cs@, c as int, 0, 0);
                }
                Some(s.substring_char(i, j))
            } else {
                None
            }
        },
        _ => None,
    }
}

proof fn lemma_char_at_byte_bounded(cs: Seq<char>, p: int, k: int, off: int)
    requires
        0 <= k <= cs.len(),
    ensures
        char_at_byte_from(cs, p, k, off) matches Some(i) ==> k <= i <= cs.len(),
    decreases cs.len() - k,
{
    if off != p && !(off > p || k >= cs.len()) {
        lemma_char_at_byte_bounded(cs, p, k + 1, off + utf8_width(cs[k]));
    }
}

// ---------------------------------------------------------------- decimal integers

/// The value of a sequence of decimal digits.
pub open spec fn digits_value(ds: Seq<char>) -> nat
    decreases ds.len(),
{
    if ds.len() == 0 {
        0
    } else {
        digits_value(ds.drop_last()) * 10 + ((ds.last() as u32) - ('0' as u32)) as nat
    }
}

/// The digits that `str::parse` reads for an unsigned integer: a leading `+`
/// is dropped where more characters follow it.
pub open spec fn unsigned_digits(s: Seq<char>) -> Seq<char> {
    if s.len() > 1 && s[0] == '+' {
        s.drop_first()
    } else {
        s
    }
}

/// The unsigned decimal integer that `s` spells, as `str::parse` reads it:
/// an optional `+` followed by one or more ASCII digits, and nothing else.
pub open spec fn decimal_value(s: Seq<char>) -> Option<nat> {
    let ds = unsigned_digits(s);
    if ds.len() > 0 && (forall|i: int| 0 <= i < ds.len() ==> is_digit(#[trigger] ds[i])) {
        Some(digits_value(ds))
    } else {
        None
    }
}

/// The kind of a failed reading of an integer, as std's `IntErrorKind`
/// tells it (`Other` for a kind that std may add later).
#[derive(Debug, Clone, Copy, PartialEq, Eq, Structural)]
pub enum IntFault {
    Empty,
    InvalidDigit,
    PosOverflow,
    NegOverflow,
    Zero,
    Other,
}

/// The kind of error that `s.parse::<u8>()` gives for `s`.
pub uninterp spec fn u8_parse_fault(s: Seq<char>) -> IntFault;

/// The kind of error that `s.parse::<u16>()` gives for `s`.
pub uninterp spec fn u16_parse_fault(s: Seq<char>) -> IntFault;

/// The kind of error that `s.parse::<u64>()` gives for `s`.
pub uninterp spec fn u64_parse_fault(s: Seq<char>) -> IntFault;

/// The kind of error of reading `s` as an unsigned integer of at most `max`,
/// where std's documentation says it: `Empty` for an empty text,
/// `PosOverflow` for digits of a value above `max`, `InvalidDigit` for a `+`
/// on its own; else the kind std reports, `other`.
pub open spec fn unsigned_fault(s: Seq<char>, max: nat, other: IntFault) -> IntFault {
    if s.len() == 0 {
        IntFault::Empty
    } else if decimal_value(s) matches Some(v) && v > max {
        IntFault::PosOverflow
    } else if s == seq!['+'] {
        IntFault::InvalidDigit
    } else {
        other
    }
}

/// The kind of error that `s.parse::<u8>()` gives.
pub open spec fn fault_u8(s: Seq<char>) -> IntFault {
    unsigned_fault(s, u8::MAX as nat, u8_parse_fault(s))
}

/// The kind of error that `s.parse::<u16>()` gives.
pub open spec fn fault_u16(s: Seq<char>) -> IntFault {
    unsigned_fault(s, u16::MAX as nat, u16_parse_fault(s))
}

/// The kind of error that `s.parse::<u64>()` gives.
pub open spec fn fault_u64(s: Seq<char>) -> IntFault {
    unsigned_fault(s, u64::MAX as nat, u64_parse_fault(s))
}

/// `s.parse::<u8>()` (std's `u8::from_str`), with the kind of its error
/// (`ParseIntError::kind`). Taken from std's documentation, not proved: `Ok`
/// exactly when `s` is an optional `+` and then decimal digits only, of a
/// value of at most 255, and then that value; the kind of error as
/// `unsigned_fault` says, where the documentation says it, and otherwise one
/// that depends on `s` alone.
#[verifier::external_body]
pub(crate) fn parse_u8(s: &str) -> (r: Result<u8, (std::num::ParseIntError, IntFault)>)
    ensures
        r is Ok <==> (decimal_value(s@) matches Some(v) && v <= u8::MAX),
        r matches Ok(v) ==> decimal_value(s@) == Some(v as nat),
        r matches Err((_, k)) ==> k == unsigned_fault(s@, u8::MAX as nat, u8_parse_fault(s@)),
{
    match s.parse::<u8>() {
        Ok(v) => Ok(v),
        Err(e) => {
            let k = match e.kind() {
                IntErrorKind::Empty => IntFault::Empty,
                IntErrorKind::InvalidDigit => IntFault::InvalidDigit,
                IntErrorKind::PosOverflow => IntFault::PosOverflow,
                IntErrorKind::NegOverflow => IntFault::NegOverflow,
                IntErrorKind::Zero => IntFault::Zero,
                _ => IntFault::Other,
            };
            Err((e, k))
        },
    }
}

/// `s.parse::<u16>()` (std's `u16::from_str`), with the kind of its error.
/// Taken from std's documentation, not proved: `Ok` exactly when `s` is an
/// optional `+` and then decimal digits only, of a value of at most 65535,
/// and then that value; the kind of error as `unsigned_fault` says, where
/// the documentation says it, and otherwise one that depends on `s` alone.
#[verifier::external_body]
pub(crate) fn parse_u16(s: &str) -> (r: Result<u16, (std::num::ParseIntError, IntFault)>)
    ensures
        r is Ok <==> (decimal_value(s@) matches Some(v) && v <= u16::MAX),
        r matches Ok(v) ==> decimal_value(s@) == Some(v as nat),
        r matches Err((_, k)) ==> k == unsigned_fault(s@, u16::MAX as nat, u16_parse_fault(s@)),
{
    match s.parse::<u16>() {
        Ok(v) => Ok(v),
        Err(e) => {
            let k = match e.kind() {
                IntErrorKind::Empty => IntFault::Empty,
                IntErrorKind::InvalidDigit => IntFault::InvalidDigit,
                IntErrorKind::PosOverflow => IntFault::PosOverflow,
                IntErrorKind::NegOverflow => IntFault::NegOverflow,
                IntErrorKind::Zero => IntFault::Zero,
                _ => IntFault::Other,
            };
            Err((e, k))
        },
    }
}

/// `s.parse::<u64>()` (std's `u64::from_str`), with the kind of its error.
/// Taken from std's documentation, not proved: `Ok` exactly when `s` is an
/// optional `+` and then decimal digits only, of a value that fits in 64
/// bits, and then that value; the kind of error as `unsigned_fault` says,
/// where the documentation says it, and otherwise one that depends on `s` alone.
#[verifier::external_body]
pub(crate) fn parse_u64(s: &str) -> (r: Result<u64, (std::num::ParseIntError, IntFault)>)
    ensures
        r is Ok <==> (decimal_value(s@) matches Some(v) && v <= u64::MAX),
        r matches Ok(v) ==> decimal_value(s@) == Some(v as nat),
        r matches Err((_, k)) ==> k == unsigned_fault(s@, u64::MAX as nat, u64_parse_fault(s@)),
{
    match s.parse::<u64>() {
        Ok(v) => Ok(v),
        Err(e) => {
            let k = match e.kind() {
                IntErrorKind::Empty => IntFault::Empty,
                IntErrorKind::InvalidDigit => IntFault::InvalidDigit,
                IntErrorKind::PosOverflow => IntFault::PosOverflow,
                IntErrorKind::NegOverflow => IntFault::NegOverflow,
                IntErrorKind::Zero => IntFault::Zero,
                _ => IntFault::Other,
            };
            Err((e, k))
        },
    }
}

/// The `u8` that `s.parse::<u8>()` gives, if any.
pub open spec fn parsed_u8(s: Seq<char>) -> Option<u8> {
    match decimal_value(s) {
        Some(v) => if v <= u8::MAX {
            Some(v as u8)
        } else {
            None
        },
        None => None,
    }
}

/// The `u16` that `s.parse::<u16>()` gives, if any.
pub open spec fn parsed_u16(s: Seq<char>) -> Option<u16> {
    match decimal_value(s) {
        Some(v) => if v <= u16::MAX {
            Some(v as u16)
        } else {
            None
        },
        None => None,
    }
}

/// The `u64` that `s.parse::<u64>()` gives, if any.
pub open spec fn parsed_u64(s: Seq<char>) -> Option<u64> {
    match decimal_value(s) {
        Some(v) => if v <= u64::MAX {
            Some(v as u64)
        } else {
            None
        },
        None => None,
    }
}

// ---------------------------------------------------------------- writing numbers

/// The ASCII digit for `d` in 0..=9.
pub open spec fn digit_char(d: nat) -> char {
    if d == 0 {
        '0'
    } else if d == 1 {
        '1'
    } else if d == 2 {
        '2'
    } else if d == 3 {
        '3'
    } else if d == 4 {
        '4'
    } else if d == 5 {
        '5'
    } else if d == 6 {
        '6'
    } else if d == 7 {
        '7'
    } else if d == 8 {
        '8'
    } else {
        '9'
    }
}

/// The decimal writing of `n`, without leading zeros (`{}`).
pub open spec fn decimal_chars(n: nat) -> Seq<char>
    decreases n,
{
    if n < 10 {
        seq![digit_char(n)]
    } else {
        decimal_chars(n / 10).push(digit_char(n % 10))
    }
}

proof fn lemma_decimal_chars_len(n: nat)
    ensures
        decimal_chars(n).len() >= 1,
        n >= 10 ==> decimal_chars(n).len() >= 2,
    decreases n,
{
    if n >= 10 {
        lemma_decimal_chars_len(n / 10);
    }
}

/// Different numbers are written differently.
pub proof fn lemma_decimal_chars_injective(a: nat, b: nat)
    requires
        decimal_chars(a) == decimal_chars(b),
    ensures
        a == b,
    decreases a,
{
    lemma_decimal_chars_len(a);
    lemma_decimal_chars_len(b);
    if a >= 10 && b >= 10 {
        let da = decimal_chars(a);
        let db = decimal_chars(b);
        assert(da.drop_last() == decimal_chars(a / 10));
        assert(db.drop_last() == decimal_chars(b / 10));
        assert(da.last() == digit_char(a % 10));
        assert(db.last() == digit_char(b % 10));
        lemma_decimal_chars_injective(a / 10, b / 10);
    } else if a < 10 && b < 10 {
        assert(decimal_chars(a)[0] == digit_char(a));
        assert(decimal_chars(b)[0] == digit_char(b));
    }
}

/// The decimal writing of `n`, with a leading zero below 10 (`{:0>2}`).
pub open spec fn padded2(n: nat) -> Seq<char> {
    if n < 10 {
        seq!['0', digit_char(n)]
    } else {
        decimal_chars(n)
    }
}

fn digit_str(d: u64) -> (r: &'static str)
    requires
        d < 10,
    ensures
        r@ == seq![digit_char(d as nat)],
{
    proof {
        reveal_strlit("0");
        reveal_strlit("1");
        reveal_strlit("2");
        reveal_strlit("3");
        reveal_strlit("4");
        reveal_strlit("5");
        reveal_strlit("6");
        reveal_strlit("7");
        reveal_strlit("8");
        reveal_strlit("9");
    }
    if d == 0 {
        "0"
    } else if d == 1 {
        "1"
    } else if d == 2 {
        "2"
    } else if d == 3 {
        "3"
    } else if d == 4 {
        "4"
    } else if d == 5 {
        "5"
    } else if d == 6 {
        "6"
    } else if d == 7 {
        "7"
    } else if d == 8 {
        "8"
    } else {
        "9"
    }
}

/// Appends the decimal writing of `n`.
pub fn push_decimal(out: &mut String, n: u64)
    ensures
        final(out)@ == old(out)@ + decimal_chars(n as nat),
    decreases n,
{
    if n >= 10 {
        push_decimal(out, n / 10);
    }
    out.append(digit_str(n % 10));
}

/// Appends the decimal writing of `n`, with a leading zero below 10.
pub fn push_padded2(out: &mut String, n: u64)
    ensures
        final(out)@ == old(out)@ + padded2(n as nat),
{
    if n < 10 {
        out.append(digit_str(0));
        out.append(digit_str(n));
        assert(out@ =~= old(out)@ + padded2(n as nat));
    } else {
        push_decimal(out, n);
    }
}

// ---------------------------------------------------------------- reading back what is written

proof fn lemma_digit_char(d: nat)
    requires
        d < 10,
    ensures
        is_digit(digit_char(d)),
        ((digit_char(d) as u32) - ('0' as u32)) as nat == d,
{
}

/// The decimal writing of a number is made of digits, and spells that number.
pub proof fn lemma_decimal_chars_value(n: nat)
    ensures
        forall|i: int| 0 <= i < decimal_chars(n).len() ==> is_digit(#[trigger] decimal_chars(n)[i]),
        digits_value(decimal_chars(n)) == n,
        decimal_value(decimal_chars(n)) == Some(n),
    decreases n,
{
    lemma_decimal_chars_len(n);
    let s = decimal_chars(n);
    if n < 10 {
        lemma_digit_char(n);
        assert(s.drop_last() =~= Seq::<char>::empty());
        assert(digits_value(Seq::<char>::empty()) == 0);
        assert(s.last() == digit_char(n));
        assert(digits_value(s) == digits_value(s.drop_last()) * 10 + ((s.last() as u32) - ('0' as u32)) as nat);
    } else {
        lemma_decimal_chars_value(n / 10);
        lemma_digit_char(n % 10);
        assert(s.drop_last() =~= decimal_chars(n / 10));
        assert(s.last() == digit_char(n % 10));
        assert(digits_value(s) == digits_value(s.drop_last()) * 10 + ((s.last() as u32) - ('0' as u32)) as nat);
        assert(digits_value(s) == (n / 10) * 10 + n % 10);
    }
    assert(unsigned_digits(s) == s);
}

/// The two-digit writing of a number below 100 spells that number.
pub proof fn lemma_padded2_value(n: nat)
    ensures
        forall|i: int| 0 <= i < padded2(n).len() ==> is_digit(#[trigger] padded2(n)[i]),
        decimal_value(padded2(n)) == Some(n),
{
    if n < 10 {
        lemma_digit_char(n);
        lemma_digit_char(0);
        let s = padded2(n);
        assert(s.drop_last() =~= seq!['0']);
        assert(s.drop_last().drop_last() =~= Seq::<char>::empty());
        assert(digits_value(Seq::<char>::empty()) == 0);
        assert(s.drop_last().last() == digit_char(0));
        assert(digits_value(s.drop_last()) == digits_value(s.drop_last().drop_last()) * 10 + ((s.drop_last().last() as u32) - ('0' as u32)) as nat);
        assert(digits_value(s.drop_last()) == 0);
        assert(s.last() == digit_char(n));
        assert(digits_value(s) == digits_value(s.drop_last()) * 10 + ((s.last() as u32) - ('0' as u32)) as nat);
        assert(unsigned_digits(s) == s);
    } else {
        lemma_decimal_chars_value(n);
    }
}

/// Where `a` holds no `c` from `from` on, the first `c` of `a + b` from
/// `from` on is the first `c` of `b`, shifted.
pub proof fn lemma_find_from_concat(a: Seq<char>, b: Seq<char>, c: char, from: int)
    requires
        0 <= from <= a.len(),
        forall|i: int| from <= i < a.len() ==> a[i] != c,
    ensures
        find_from(a + b, c, from) == a.len() + find_from(b, c, 0),
    decreases a.len() - from,
{
    if from < a.len() {
        lemma_find_from_concat(a, b, c, from + 1);
    } else {
        lemma_find_from_shift(a, b, c, 0);
    }
}

proof fn lemma_find_from_shift(a: Seq<char>, b: Seq<char>, c: char, k: int)
    requires
        0 <= k <= b.len(),
    ensures
        find_from(a + b, c, a.len() + k) == a.len() + find_from(b, c, k),
    decreases b.len() - k,
{
    if k < b.len() {
        assert((a + b)[a.len() + k] == b[k]);
        lemma_find_from_shift(a, b, c, k + 1);
    }
}

} // verus!
