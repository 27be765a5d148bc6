//! Reading access-log lines by an nginx `log_format`.
//!
//! A format such as `$remote_addr - $remote_user [$time_local] "$request"`
//! becomes a list of parts: a variable name and the separator that follows
//! it. A line is scanned character by character against the separators, and
//! the text before each separator is the value of its variable.

use vstd::prelude::*;
use crate::datetime::{lemma_ascii_date_time_no_panic, nginx_date_time, DateFault, DateTime, ParseDateTimeError};
use crate::errors::NgxLaserError;
use crate::log_line::{method_of, LogLine, LogLineView, Method};
use crate::text::{
    all_ascii, lemma_find_from_concat, chars_eq, chars_of, find_char, find_from, char_is_ascii, is_ascii_char, parse_u16, parse_u64, parsed_u16,
    parsed_u64, fault_u16, fault_u64, IntFault, substring, Outcome,
};

verus! {

/// Why a log line could not be read.
#[derive(Debug)]
pub enum ParseLogError {
    InvalidLogLine(String),
    CharNotFound(char),
    InvalidDateTime(ParseDateTimeError),
    IntExpected(std::num::ParseIntError, IntFault),
}

/// A `ParseLogError` as a plain value (the integer error itself is opaque;
/// its kind is kept beside it).
pub enum LineFault {
    InvalidLogLine(Seq<char>),
    CharNotFound(char),
    InvalidDateTime(DateFault),
    IntExpected(IntFault),
}

impl View for ParseLogError {
    type V = LineFault;

    open spec fn view(&self) -> LineFault {
        match self {
            ParseLogError::InvalidLogLine(s) => LineFault::InvalidLogLine(s@),
            ParseLogError::CharNotFound(c) => LineFault::CharNotFound(*c),
            ParseLogError::InvalidDateTime(e) => LineFault::InvalidDateTime(e@),
            ParseLogError::IntExpected(_, k) => LineFault::IntExpected(*k),
        }
    }
}

/// A parser of the lines of one `log_format`.
#[derive(Debug)]
pub struct Parser {
    parts: Vec<(Vec<char>, Vec<char>)>,
}

/// A format part as plain values: the variable name (with its `$`, or empty)
/// and the separator that ends its value.
pub type PartView = (Seq<char>, Seq<char>);

impl View for Parser {
    type V = Seq<PartView>;

    closed spec fn view(&self) -> Seq<PartView> {
        self.parts@.map_values(|p: (Vec<char>, Vec<char>)| (p.0@, p.1@))
    }
}

// ---------------------------------------------------------------- the variables

/// The variables whose values a `LogLine` holds, by their index in the data.
pub open spec fn var_name(i: int) -> Seq<char> {
    if i == 0 {
        "$remote_addr"@
    } else if i == 1 {
        "$remote_user"@
    } else if i == 2 {
        "$time_local"@
    } else if i == 3 {
        "$request"@
    } else if i == 4 {
        "$status"@
    } else if i == 5 {
        "$body_bytes_sent"@
    } else if i == 6 {
        "$http_referer"@
    } else {
        "$http_user_agent"@
    }
}

pub open spec fn var_index_from(name: Seq<char>, i: int) -> Option<int>
    decreases 8 - i,
{
    if i < 0 || i >= 8 {
        None
    } else if var_name(i) == name {
        Some(i)
    } else {
        var_index_from(name, i + 1)
    }
}

/// The index of the variable called `name`, if it is one of the eight known.
pub open spec fn var_index(name: Seq<char>) -> Option<int> {
    var_index_from(name, 0)
}

fn var_name_str(i: usize) -> (r: &'static str)
    requires
        i < 8,
    ensures
        r@ == var_name(i as int),
{
    if i == 0 {
        "$remote_addr"
    } else if i == 1 {
        "$remote_user"
    } else if i == 2 {
        "$time_local"
    } else if i == 3 {
        "$request"
    } else if i == 4 {
        "$status"
    } else if i == 5 {
        "$body_bytes_sent"
    } else if i == 6 {
        "$http_referer"
    } else {
        "$http_user_agent"
    }
}

fn find_var(name: &Vec<char>) -> (r: Option<usize>)
    ensures
        match r {
            Some(k) => var_index(name@) == Some(k as int) && k < 8,
            None => var_index(name@) is None,
        },
{
    let mut i: usize = 0;
    while i < 8
        invariant
            i <= 8,
            var_index(name@) == var_index_from(name@, i as int),
        decreases 8 - i,
    {
        let v = chars_of(var_name_str(i));
        if chars_eq(&v, name) {
            return Some(i);
        }
        i = i + 1;
    }
    None
}

// ---------------------------------------------------------------- the format

/// Where the reading of a format stands: the parts done, the text gathered
/// since the last `$` or end of a variable, whether that text is a variable
/// name, and the name of the part under way.
pub struct FormatState {
    pub parts: Seq<PartView>,
    pub cursor: Seq<char>,
    pub in_var: bool,
    pub name: Seq<char>,
}

/// The characters that continue a variable name.
pub open spec fn is_var_char(c: char) -> bool {
    ('a' <= c && c <= 'z') || c == '_'
}

/// One character of the format: `$` closes the part under way (its
/// separator is the text gathered) and starts a name; a name goes on with
/// lower-case letters and `_`; any other character ends the name.
pub open spec fn format_step(st: FormatState, c: char) -> FormatState {
    if c == '$' {
        if st.cursor.len() > 0 {
            FormatState {
                parts: st.parts.push((st.name, st.cursor)),
                cursor: seq![c],
                in_var: true,
                name: Seq::empty(),
            }
        } else {
            FormatState { parts: st.parts, cursor: seq![c], in_var: true, name: st.name }
        }
    } else if is_var_char(c) {
        FormatState { cursor: st.cursor.push(c), ..st }
    } else if st.in_var {
        FormatState { parts: st.parts, cursor: seq![c], in_var: false, name: st.cursor }
    } else {
        FormatState { cursor: st.cursor.push(c), ..st }
    }
}

/// The state after the first `n` characters of the format `f`.
pub open spec fn format_prefix(f: Seq<char>, n: int) -> FormatState
    decreases n,
{
    if n <= 0 {
        FormatState { parts: Seq::empty(), cursor: Seq::empty(), in_var: false, name: Seq::empty() }
    } else {
        format_step(format_prefix(f, n - 1), f[n - 1])
    }
}

/// The parts of the format `f`: where text is left at the end, it closes a
/// last part, a name followed by a new line where it is a name.
pub open spec fn format_parts(f: Seq<char>) -> Seq<PartView> {
    let st = format_prefix(f, f.len() as int);
    if st.cursor.len() > 0 {
        if st.in_var {
            st.parts.push((st.cursor, seq!['\n']))
        } else {
            st.parts.push((st.name, st.cursor))
        }
    } else {
        st.parts
    }
}

impl Parser {
    /// The parser of the lines that `format` describes.
    pub fn new(format: &str) -> (r: Result<Self, NgxLaserError>)
        ensures
            r matches Ok(p) && p@ == format_parts(format@),
    {
        let fc = chars_of(format);
        let n = fc.len();
        let mut parts: Vec<(Vec<char>, Vec<char>)> = Vec::new();
        let mut cursor: Vec<char> = Vec::new();
        let mut in_var = false;
        let mut name: Vec<char> = Vec::new();
        let mut i: usize = 0;
        assert(parts@.map_values(|p: (Vec<char>, Vec<char>)| (p.0@, p.1@)) =~= Seq::empty());
        while i < n
            invariant
                n == fc@.len(),
                fc@ == format@,
                i <= n,
                format_prefix(format@, i as int) == (FormatState {
                    parts: parts@.map_values(|p: (Vec<char>, Vec<char>)| (p.0@, p.1@)),
                    cursor: cursor@,
                    in_var,
                    name: name@,
                }),
            decreases n - i,
        {
            let c = fc[i];
            let ghost before = parts@;
            if c == '$' {
                if cursor.len() > 0 {
                    parts.push((name, cursor));
                    name = Vec::new();
                    proof {
                        assert(parts@.map_values(|p: (Vec<char>, Vec<char>)| (p.0@, p.1@))
                            =~= before.map_values(|p: (Vec<char>, Vec<char>)| (p.0@, p.1@)).push(
                            (parts@.last().0@, parts@.last().1@),
                        ));
                    }
                }
                cursor = Vec::new();
                in_var = true;
                cursor.push(c);
            } else if ('a' <= c && c <= 'z') || c == '_' {
                cursor.push(c);
            } else if in_var {
                name = cursor;
                cursor = Vec::new();
                in_var = false;
                cursor.push(c);
            } else {
                cursor.push(c);
            }
            proof {
                assert(cursor@ =~= format_prefix(format@, i + 1).cursor);
            }
            i = i + 1;
        }
        if cursor.len() > 0 {
            let ghost before = parts@;
            if in_var {
                let mut nl: Vec<char> = Vec::new();
                nl.push('\n');
                parts.push((cursor, nl));
            } else {
                parts.push((name, cursor));
            }
            proof {
                assert(parts@.map_values(|p: (Vec<char>, Vec<char>)| (p.0@, p.1@))
                    =~= before.map_values(|p: (Vec<char>, Vec<char>)| (p.0@, p.1@)).push(
                    (parts@.last().0@, parts@.last().1@),
                ));
            }
        }
        Ok(Self { parts })
    }
}

// ---------------------------------------------------------------- the scan

/// Where the scan of a line stands: the part whose separator is awaited, how
/// much of that separator has been seen, the range of characters of the value
/// so far, the ranges found for the eight variables, and whether the last
/// separator has been seen.
pub struct ScanState {
    pub cursor: int,
    pub part_idx: int,
    pub start: int,
    pub end: int,
    pub data: Seq<Option<(int, int)>>,
    pub done: bool,
}

/// The value range `start..=end` of `line` can be cut out: it lies in the
/// line, the character before it and its last character are one byte each
/// (values are cut by byte offsets, and cutting inside a character panics).
pub open spec fn slice_ok(line: Seq<char>, start: int, end: int) -> bool {
    &&& 0 <= start <= end < line.len()
    &&& (start == 0 || is_ascii_char(line[start - 1]))
    &&& is_ascii_char(line[end])
}

/// One character of the line: a character that is the next one of the
/// separator advances in it (characters that are not leave the separator
/// where it is and extend the value); the end of a separator stores the
/// value under its variable and moves on to the next part, or ends the scan
/// after the last part. A part without a name only skips its separator.
/// `None` where the scan runs out of parts or separator characters, or would
/// cut a value inside a character.
pub open spec fn scan_step(parts: Seq<PartView>, line: Seq<char>, st: ScanState, idx: int) -> Option<ScanState> {
    if st.done {
        Some(st)
    } else if st.cursor < 0 || st.cursor >= parts.len() {
        None
    } else {
        let item = parts[st.cursor].0;
        let sep = parts[st.cursor].1;
        if st.part_idx < 0 || st.part_idx >= sep.len() {
            None
        } else if line[idx] == sep[st.part_idx] {
            if st.part_idx < sep.len() - 1 {
                Some(ScanState { part_idx: st.part_idx + 1, ..st })
            } else if item.len() == 0 {
                if st.cursor + 1 >= parts.len() {
                    None
                } else {
                    Some(ScanState { cursor: st.cursor + 1, start: idx + 1, end: idx + 1, ..st })
                }
            } else {
                let stored = match var_index(item) {
                    Some(k) => if slice_ok(line, st.start, st.end) {
                        Some(st.data.update(k, Some((st.start, st.end))))
                    } else {
                        None
                    },
                    None => Some(st.data),
                };
                match stored {
                    None => None,
                    Some(data) => if st.cursor + 1 < parts.len() {
                        Some(
                            ScanState {
                                cursor: st.cursor + 1,
                                part_idx: 0,
                                start: idx + 1,
                                end: idx + 1,
                                data,
                                done: false,
                            },
                        )
                    } else {
                        Some(ScanState { part_idx: 0, data, done: true, ..st })
                    },
                }
            }
        } else {
            Some(ScanState { end: idx, ..st })
        }
    }
}

/// The scan state after the first `n` characters of `line`; `None` for no parts.
pub open spec fn scan_prefix(parts: Seq<PartView>, line: Seq<char>, n: int) -> Option<ScanState>
    decreases n,
{
    if n <= 0 {
        if parts.len() == 0 {
            None
        } else {
            Some(
                ScanState {
                    cursor: 0,
                    part_idx: 0,
                    start: 0,
                    end: 0,
                    data: Seq::new(8, |i: int| None),
                    done: false,
                },
            )
        }
    } else {
        match scan_prefix(parts, line, n - 1) {
            None => None,
            Some(st) => scan_step(parts, line, st, n - 1),
        }
    }
}

/// The value ranges found in `line`, by variable.
pub open spec fn scan(parts: Seq<PartView>, line: Seq<char>) -> Option<Seq<Option<(int, int)>>> {
    match scan_prefix(parts, line, line.len() as int) {
        Some(st) => Some(st.data),
        None => None,
    }
}

/// The text of a value range (empty where the variable was not found).
pub open spec fn field_text(line: Seq<char>, r: Option<(int, int)>) -> Seq<char> {
    match r {
        Some((s, e)) => line.subrange(s, e + 1),
        None => Seq::empty(),
    }
}

/// The method and the path of a request `METHOD PATH PROTOCOL`: the first two
/// words; a request of one word is a path without a method.
pub open spec fn request_parts(req: Seq<char>) -> (Method, Seq<char>) {
    let i1 = find_from(req, ' ', 0);
    if i1 < req.len() {
        (method_of(req.subrange(0, i1)), req.subrange(i1 + 1, find_from(req, ' ', i1 + 1)))
    } else {
        (Method::Absent, req)
    }
}

/// What a line whose values are `fields` (by variable) reads as: the
/// date-time, the status and the bytes sent are read in that order, and the
/// first that fails is the error.
pub open spec fn read_fields(fields: Seq<Seq<char>>) -> Outcome<LogLineView, LineFault> {
    match nginx_date_time(fields[2]) {
        Outcome::Panics => Outcome::Panics,
        Outcome::Done(Err(e)) => Outcome::Done(Err(LineFault::InvalidDateTime(e))),
        Outcome::Done(Ok(date_time)) => match parsed_u16(fields[4]) {
            None => Outcome::Done(Err(LineFault::IntExpected(fault_u16(fields[4])))),
            Some(status) => match parsed_u64(fields[5]) {
                None => Outcome::Done(Err(LineFault::IntExpected(fault_u64(fields[5])))),
                Some(bytes_sent) => Outcome::Done(
                    Ok(
                        LogLineView {
                            remote_addr: fields[0],
                            date_time,
                            method: request_parts(fields[3]).0,
                            path: request_parts(fields[3]).1,
                            status,
                            bytes_sent,
                            referer: fields[6],
                            agent: fields[7],
                        },
                    ),
                ),
            },
        },
    }
}

/// The texts of the value ranges, by variable.
pub open spec fn field_texts(line: Seq<char>, data: Seq<Option<(int, int)>>) -> Seq<Seq<char>> {
    Seq::new(8, |k: int| field_text(line, data[k]))
}

/// What `Parser::parse` makes of `line`: its values, as the scan finds them, read.
pub open spec fn parse_line(parts: Seq<PartView>, line: Seq<char>) -> Outcome<LogLineView, LineFault> {
    match scan(parts, line) {
        None => Outcome::Panics,
        Some(data) => read_fields(field_texts(line, data)),
    }
}

/// `r` is what the outcome `o` describes, with `None` for a panic.
pub open spec fn line_outcome_is(r: Option<Result<LogLine, ParseLogError>>, o: Outcome<LogLineView, LineFault>) -> bool {
    match o {
        Outcome::Done(Ok(v)) => r matches Some(Ok(ll)) && ll@ == v,
        Outcome::Done(Err(f)) => r matches Some(Err(e)) && e@ == f,
        Outcome::Panics => r is None,
    }
}

/// The ranges as integers.
pub open spec fn ranges_view(d: Seq<Option<(usize, usize)>>) -> Seq<Option<(int, int)>> {
    d.map_values(
        |o: Option<(usize, usize)>|
            match o {
                Some((s, e)) => Some((s as int, e as int)),
                None => None,
            },
    )
}

proof fn lemma_scan_stays_done(parts: Seq<PartView>, line: Seq<char>, i: int, n: int, st: ScanState)
    requires
        0 <= i <= n,
        scan_prefix(parts, line, i) == Some(st),
        st.done,
    ensures
        scan_prefix(parts, line, n) == Some(st),
    decreases n - i,
{
    if i < n {
        lemma_scan_stays_done(parts, line, i, n - 1, st);
    }
}

proof fn lemma_scan_stays_stuck(parts: Seq<PartView>, line: Seq<char>, i: int, n: int)
    requires
        0 <= i <= n,
        scan_prefix(parts, line, i) is None,
    ensures
        scan_prefix(parts, line, n) is None,
    decreases n - i,
{
    if i < n {
        lemma_scan_stays_stuck(parts, line, i, n - 1);
    }
}

fn field(line: &str, data: &Vec<Option<(usize, usize)>>, k: usize) -> (r: String)
    requires
        k < data@.len(),
        data@[k as int] matches Some((s, e)) ==> s <= e < line@.len() && e < usize::MAX,
    ensures
        r@ == field_text(line@, ranges_view(data@)[k as int]),
{
    match data[k] {
        Some((s, e)) => substring(line, s, e + 1),
        None => {
            let r = String::new();
            assert(r@ =~= Seq::<char>::empty());
            r
        },
    }
}

impl Parser {
    fn scan(&self, line: &str) -> (r: Option<Vec<Option<(usize, usize)>>>)
        ensures
            match r {
                Some(d) => scan(self@, line@) == Some(ranges_view(d@)) && d@.len() == 8 && (forall|k: int|
                    0 <= k < 8 ==> (#[trigger] d@[k] matches Some((s, e)) ==> s <= e < line@.len() && e
                    < usize::MAX)),
                None => scan(self@, line@) is None,
            },
    {
        let cs = chars_of(line);
        let n = cs.len();
        let np = self.parts.len();
        if np == 0 {
            proof {
                lemma_scan_stays_stuck(self@, line@, 0, line@.len() as int);
            }
            return None;
        }
        let mut data: Vec<Option<(usize, usize)>> = Vec::new();
        let mut j: usize = 0;
        while j < 8
            invariant
                j <= 8,
                data@ == Seq::new(j as nat, |i: int| None::<(usize, usize)>),
            decreases 8 - j,
        {
            data.push(None);
            j = j + 1;
            assert(data@ =~= Seq::new(j as nat, |i: int| None::<(usize, usize)>));
        }
        let mut cursor: usize = 0;
        let mut part_idx: usize = 0;
        let mut start: usize = 0;
        let mut end: usize = 0;
        let mut i: usize = 0;
        assert(ranges_view(data@) =~= Seq::new(8, |i: int| None::<(int, int)>));
        while i < n
            invariant
                n == cs@.len(),
                cs@ == line@,
                np == self@.len(),
                i <= n,
                cursor < np,
                start <= end <= i,
                data@.len() == 8,
                forall|k: int|
                    0 <= k < 8 ==> (#[trigger] data@[k] matches Some((s, e)) ==> s <= e < n),
                scan_prefix(self@, line@, i as int) == Some(
                    ScanState {
                        cursor: cursor as int,
                        part_idx: part_idx as int,
                        start: start as int,
                        end: end as int,
                        data: ranges_view(data@),
                        done: false,
                    },
                ),
            decreases n - i,
        {
            let ghost st = scan_prefix(self@, line@, i as int)->0;
            let item = &self.parts[cursor].0;
            let sep = &self.parts[cursor].1;
            proof {
                assert(self@[cursor as int] == (item@, sep@));
            }
            if part_idx >= sep.len() {
                proof {
                    lemma_scan_stays_stuck(self@, line@, i + 1, n as int);
                }
                return None;
            }
            let ch = cs[i];
            if ch == sep[part_idx] {
                if part_idx < sep.len() - 1 {
                    part_idx = part_idx + 1;
                } else if item.len() == 0 {
                    if cursor + 1 >= np {
                        proof {
                            lemma_scan_stays_stuck(self@, line@, i + 1, n as int);
                        }
                        return None;
                    }
                    cursor = cursor + 1;
                    start = i + 1;
                    end = i + 1;
                } else {
                    match find_var(item) {
                        Some(k) => {
                            if !(end < n && (start == 0 || char_is_ascii(cs[start - 1]))
                                && char_is_ascii(cs[end])) {
                                proof {
                                    lemma_scan_stays_stuck(self@, line@, i + 1, n as int);
                                }
                                return None;
                            }
                            let ghost before = data@;
                            data.set(k, Some((start, end)));
                            proof {
                                assert(ranges_view(data@) =~= ranges_view(before).update(
                                    k as int,
                                    Some((start as int, end as int)),
                                ));
                            }
                        },
                        None => {},
                    }
                    part_idx = 0;
                    if cursor + 1 < np {
                        cursor = cursor + 1;
                        start = i + 1;
                        end = i + 1;
                    } else {
                        proof {
                            lemma_scan_stays_done(
                                self@,
                                line@,
                                i + 1,
                                n as int,
                                scan_prefix(self@, line@, i + 1)->0,
                            );
                        }
                        return Some(data);
                    }
                }
            } else {
                end = i;
            }
            i = i + 1;
        }
        Some(data)
    }

    /// Reads a log line; `None` on the lines whose reading would panic: a
    /// separator or a value that ends in a character of more than one byte
    /// (values are cut by byte offsets), a format whose parts or separator
    /// characters run out, an empty format, or a date-time cut inside a
    /// character.
    pub fn try_parse(&self, line: &str) -> (r: Option<Result<LogLine, ParseLogError>>)
        ensures
            line_outcome_is(r, parse_line(self@, line@)),
    {
        let data = match self.scan(line) {
            Some(d) => d,
            None => return None,
        };
        let time_local = field(line, &data, 2);
        let date_time = match DateTime::try_from_nginx(time_local.as_str()) {
            None => return None,
            Some(Err(e)) => return Some(Err(ParseLogError::InvalidDateTime(e))),
            Some(Ok(dt)) => dt,
        };
        let status_text = field(line, &data, 4);
        let status = match parse_u16(status_text.as_str()) {
            Ok(v) => v,
            Err((e, k)) => return Some(Err(ParseLogError::IntExpected(e, k))),
        };
        let request = field(line, &data, 3);
        let rc = chars_of(request.as_str());
        let i1 = find_char(&rc, ' ', 0);
        let (method, path) = if i1 < rc.len() {
            let i2 = find_char(&rc, ' ', i1 + 1);
            let word = request.as_str().substring_char(0, i1);
            (Method::from(word), substring(request.as_str(), i1 + 1, i2))
        } else {
            (Method::Absent, request)
        };
        let bytes_text = field(line, &data, 5);
        let bytes_sent = match parse_u64(bytes_text.as_str()) {
            Ok(v) => v,
            Err((e, k)) => return Some(Err(ParseLogError::IntExpected(e, k))),
        };
        let referer = field(line, &data, 6);
        let agent = field(line, &data, 7);
        let remote_addr = field(line, &data, 0);
        Some(
            Ok(
                LogLine {
                    remote_addr,
                    date_time,
                    method,
                    path,
                    status,
                    bytes_sent,
                    referer,
                    agent,
                },
            ),
        )
    }

    /// Reads a log line (see `try_parse`).
    pub fn parse(&self, line: &str) -> (r: Result<LogLine, ParseLogError>)
        requires
            !(parse_line(self@, line@) is Panics),
        ensures
            match parse_line(self@, line@) {
                Outcome::Done(Ok(v)) => r matches Ok(ll) && ll@ == v,
                Outcome::Done(Err(f)) => r matches Err(e) && e@ == f,
                Outcome::Panics => false,
            },
    {
        match self.try_parse(line) {
            Some(r) => r,
            None => vstd::pervasive::unreached(),
        }
    }
}

/// Every line that `Parser::parse` reads holds a valid date and time.
pub proof fn lemma_parsed_date_time_valid(parts: Seq<PartView>, line: Seq<char>)
    ensures
        parse_line(parts, line) matches Outcome::Done(Ok(v)) ==> v.date_time.date.valid()
            && v.date_time.time.valid(),
{
    if let Some(data) = scan(parts, line) {
        crate::datetime::lemma_nginx_date_time_valid(field_text(line, data[2]));
    }
}

/// Every part of a format ends in a separator of at least one character.
pub open spec fn separators_nonempty(parts: Seq<PartView>) -> bool {
    forall|i: int| 0 <= i < parts.len() ==> (#[trigger] parts[i]).1.len() > 0
}

proof fn lemma_format_prefix_separators(f: Seq<char>, n: int)
    requires
        0 <= n <= f.len(),
    ensures
        separators_nonempty(format_prefix(f, n).parts),
    decreases n,
{
    if n > 0 {
        lemma_format_prefix_separators(f, n - 1);
    }
}

/// Every part that `Parser::new` makes of a format has a separator of at
/// least one character.
pub proof fn lemma_format_parts_separators(f: Seq<char>)
    ensures
        separators_nonempty(format_parts(f)),
{
    lemma_format_prefix_separators(f, f.len() as int);
}

// ---------------------------------------------------------------- reading back a written line

/// The line that the parts describe from part `i` on, with the values
/// `values`: each value followed by the separator of its part.
pub open spec fn line_from(parts: Seq<PartView>, values: Seq<Seq<char>>, i: int) -> Seq<char>
    decreases parts.len() - i,
{
    if i < 0 || i >= parts.len() {
        Seq::empty()
    } else {
        values[i] + parts[i].1 + line_from(parts, values, i + 1)
    }
}

/// Where the value of part `i` starts in the line.
pub open spec fn part_offset(parts: Seq<PartView>, values: Seq<Seq<char>>, i: int) -> int
    decreases i,
{
    if i <= 0 {
        0
    } else {
        part_offset(parts, values, i - 1) + values[i - 1].len() + parts[i - 1].1.len()
    }
}

/// The values can be written with the parts so that a scan reads them back:
/// every separator is one character at least, and ends in a one-byte
/// character; a named part has a value of one character at least, that ends
/// in a one-byte character; a part without a name has no value, a separator
/// of one character, and is not the last; no value holds the first character
/// of its separator; no two parts name the same known variable.
pub open spec fn writable(parts: Seq<PartView>, values: Seq<Seq<char>>) -> bool {
    &&& parts.len() > 0
    &&& values.len() == parts.len()
    &&& forall|i: int|
        0 <= i < parts.len() ==> (#[trigger] parts[i]).1.len() > 0 && is_ascii_char(
            parts[i].1.last(),
        )
    &&& forall|i: int|
        0 <= i < parts.len() && (#[trigger] parts[i]).0.len() == 0 ==> values[i].len() == 0
            && parts[i].1.len() == 1 && i + 1 < parts.len()
    &&& forall|i: int|
        0 <= i < parts.len() && (#[trigger] parts[i]).0.len() > 0 ==> values[i].len() > 0
            && is_ascii_char(values[i].last())
    &&& forall|i: int, j: int|
        0 <= i < parts.len() && 0 <= j < values[i].len() ==> #[trigger] values[i][j]
            != parts[i].1[0]
    &&& forall|i: int, j: int|
        0 <= i < parts.len() && 0 <= j < parts.len() && i != j && (#[trigger] var_index(
            parts[i].0,
        )) is Some ==> var_index(parts[i].0) != #[trigger] var_index(parts[j].0)
}

/// The value ranges stored for the parts before part `i`.
pub open spec fn data_upto(parts: Seq<PartView>, values: Seq<Seq<char>>, i: int) -> Seq<
    Option<(int, int)>,
>
    decreases i,
{
    if i <= 0 {
        Seq::new(8, |x: int| None)
    } else {
        let d = data_upto(parts, values, i - 1);
        let o = part_offset(parts, values, i - 1);
        if parts[i - 1].0.len() > 0 {
            match var_index(parts[i - 1].0) {
                Some(k) => d.update(k, Some((o, o + values[i - 1].len() - 1))),
                None => d,
            }
        } else {
            d
        }
    }
}

/// The scan state where the value of part `i` starts.
pub open spec fn state_at_part(parts: Seq<PartView>, values: Seq<Seq<char>>, i: int) -> ScanState {
    ScanState {
        cursor: i,
        part_idx: 0,
        start: part_offset(parts, values, i),
        end: part_offset(parts, values, i),
        data: data_upto(parts, values, i),
        done: false,
    }
}

proof fn lemma_line_from_skip(parts: Seq<PartView>, values: Seq<Seq<char>>, i: int)
    requires
        values.len() == parts.len(),
        0 <= i <= parts.len(),
    ensures
        0 <= part_offset(parts, values, i) <= line_from(parts, values, 0).len(),
        line_from(parts, values, 0).skip(part_offset(parts, values, i)) == line_from(parts, values, i),
    decreases i,
{
    if i == 0 {
        assert(line_from(parts, values, 0).skip(0) =~= line_from(parts, values, 0));
    } else {
        lemma_line_from_skip(parts, values, i - 1);
        let a = line_from(parts, values, 0);
        let o = part_offset(parts, values, i - 1);
        let w = values[i - 1] + parts[i - 1].1;
        assert(line_from(parts, values, i - 1) == w + line_from(parts, values, i));
        assert(a.skip(o + w.len()) =~= a.skip(o).skip(w.len() as int));
        assert((w + line_from(parts, values, i)).skip(w.len() as int) =~= line_from(parts, values, i));
    }
}

/// The characters of the written line around part `i`.
proof fn lemma_line_chars(parts: Seq<PartView>, values: Seq<Seq<char>>, rest: Seq<char>, i: int)
    requires
        values.len() == parts.len(),
        0 <= i < parts.len(),
    ensures
        ({
            let line = line_from(parts, values, 0) + rest;
            let o = part_offset(parts, values, i);
            &&& 0 <= o
            &&& o + values[i].len() + parts[i].1.len() <= line_from(parts, values, 0).len()
            &&& forall|t: int|
                0 <= t < values[i].len() ==> #[trigger] line[o + t] == values[i][t]
            &&& forall|t: int|
                0 <= t < parts[i].1.len() ==> #[trigger] line[o + values[i].len() + t]
                    == parts[i].1[t]
            &&& part_offset(parts, values, i + 1) == o + values[i].len() + parts[i].1.len()
        }),
{
    lemma_line_from_skip(parts, values, i);
    let a = line_from(parts, values, 0);
    let line = a + rest;
    let o = part_offset(parts, values, i);
    let w = values[i] + parts[i].1;
    assert(line_from(parts, values, i) == w + line_from(parts, values, i + 1));
    assert forall|t: int| 0 <= t < values[i].len() implies #[trigger] line[o + t] == values[i][t] by {
        assert(a.skip(o)[t] == a[o + t]);
        assert(w[t] == values[i][t]);
    }
    assert forall|t: int| 0 <= t < parts[i].1.len() implies #[trigger] line[o + values[i].len() + t]
        == parts[i].1[t] by {
        assert(a.skip(o)[values[i].len() + t] == a[o + values[i].len() + t]);
        assert(w[values[i].len() + t] == parts[i].1[t]);
    }
}

proof fn lemma_scan_value(
    parts: Seq<PartView>,
    values: Seq<Seq<char>>,
    rest: Seq<char>,
    i: int,
    t: int,
)
    requires
        writable(parts, values),
        0 <= i < parts.len(),
        0 <= t <= values[i].len(),
        scan_prefix(parts, line_from(parts, values, 0) + rest, part_offset(parts, values, i))
            == Some(state_at_part(parts, values, i)),
    ensures
        scan_prefix(parts, line_from(parts, values, 0) + rest, part_offset(parts, values, i) + t)
            == Some(
            ScanState {
                end: if t == 0 {
                    part_offset(parts, values, i)
                } else {
                    part_offset(parts, values, i) + t - 1
                },
                ..state_at_part(parts, values, i)
            },
        ),
    decreases t,
{
    if t > 0 {
        lemma_scan_value(parts, values, rest, i, t - 1);
        lemma_line_chars(parts, values, rest, i);
        let line = line_from(parts, values, 0) + rest;
        let o = part_offset(parts, values, i);
        assert(line[o + t - 1] == values[i][t - 1]);
        assert(parts[i].1.len() > 0);
    }
}

proof fn lemma_scan_separator(
    parts: Seq<PartView>,
    values: Seq<Seq<char>>,
    rest: Seq<char>,
    i: int,
    j: int,
)
    requires
        writable(parts, values),
        0 <= i < parts.len(),
        0 <= j < parts[i].1.len(),
        scan_prefix(parts, line_from(parts, values, 0) + rest, part_offset(parts, values, i))
            == Some(state_at_part(parts, values, i)),
    ensures
        scan_prefix(
            parts,
            line_from(parts, values, 0) + rest,
            part_offset(parts, values, i) + values[i].len() + j,
        ) == Some(
            ScanState {
                part_idx: j,
                end: if values[i].len() == 0 {
                    part_offset(parts, values, i)
                } else {
                    part_offset(parts, values, i) + values[i].len() - 1
                },
                ..state_at_part(parts, values, i)
            },
        ),
    decreases j,
{
    if j == 0 {
        lemma_scan_value(parts, values, rest, i, values[i].len() as int);
    } else {
        lemma_scan_separator(parts, values, rest, i, j - 1);
        lemma_line_chars(parts, values, rest, i);
        let line = line_from(parts, values, 0) + rest;
        let o = part_offset(parts, values, i);
        assert(line[o + values[i].len() + j - 1] == parts[i].1[j - 1]);
    }
}

/// The scan of a whole part: its value, then its separator.
proof fn lemma_scan_part(parts: Seq<PartView>, values: Seq<Seq<char>>, rest: Seq<char>, i: int)
    requires
        writable(parts, values),
        0 <= i < parts.len(),
        scan_prefix(parts, line_from(parts, values, 0) + rest, part_offset(parts, values, i))
            == Some(state_at_part(parts, values, i)),
    ensures
        i + 1 < parts.len() ==> scan_prefix(
            parts,
            line_from(parts, values, 0) + rest,
            part_offset(parts, values, i + 1),
        ) == Some(state_at_part(parts, values, i + 1)),
        i + 1 == parts.len() ==> (scan_prefix(
            parts,
            line_from(parts, values, 0) + rest,
            part_offset(parts, values, i + 1),
        ) matches Some(st) && st.done && st.data == data_upto(parts, values, i + 1)),
{
    let line = line_from(parts, values, 0) + rest;
    let o = part_offset(parts, values, i);
    let sl = parts[i].1.len();
    lemma_scan_separator(parts, values, rest, i, sl - 1);
    lemma_line_chars(parts, values, rest, i);
    assert(line[o + values[i].len() + sl - 1] == parts[i].1[sl - 1]);
    assert(part_offset(parts, values, i + 1) == o + values[i].len() + sl);
    if parts[i].0.len() > 0 {
        let e = o + values[i].len() - 1;
        let t = values[i].len() - 1;
        assert(line[o + t] == values[i][t]);
        assert(o + t == e);
        assert(line[e] == values[i].last());
        if i > 0 {
            lemma_line_chars(parts, values, rest, i - 1);
            let o1 = part_offset(parts, values, i - 1);
            let sl1 = parts[i - 1].1.len();
            assert(line[o1 + values[i - 1].len() + sl1 - 1] == parts[i - 1].1[sl1 - 1]);
            assert(parts[i - 1].1.last() == parts[i - 1].1[sl1 - 1]);
        }
        assert(slice_ok(line, o, e));
    }
}

proof fn lemma_scan_parts(parts: Seq<PartView>, values: Seq<Seq<char>>, rest: Seq<char>, i: int)
    requires
        writable(parts, values),
        0 <= i < parts.len(),
    ensures
        scan_prefix(parts, line_from(parts, values, 0) + rest, part_offset(parts, values, i))
            == Some(state_at_part(parts, values, i)),
    decreases i,
{
    if i == 0 {
        assert(data_upto(parts, values, 0) =~= Seq::new(8, |x: int| None::<(int, int)>));
    } else {
        lemma_scan_parts(parts, values, rest, i - 1);
        lemma_scan_part(parts, values, rest, i - 1);
    }
}

proof fn lemma_data_upto_len(parts: Seq<PartView>, values: Seq<Seq<char>>, m: int)
    requires
        0 <= m <= parts.len(),
    ensures
        data_upto(parts, values, m).len() == 8,
    decreases m,
{
    if m > 0 {
        lemma_data_upto_len(parts, values, m - 1);
        if parts[m - 1].0.len() > 0 {
            if let Some(k) = var_index(parts[m - 1].0) {
                lemma_var_index_bounds(parts[m - 1].0, 0);
            }
        }
    }
}

proof fn lemma_var_index_bounds(name: Seq<char>, i: int)
    requires
        0 <= i,
    ensures
        var_index_from(name, i) matches Some(k) ==> i <= k < 8,
    decreases 8 - i,
{
    if i < 8 && var_name(i) != name {
        lemma_var_index_bounds(name, i + 1);
    }
}

/// After the parts before `m`, the range stored for variable `k` is that of
/// the part that names it, if one before `m` does, and none otherwise.
proof fn lemma_data_upto_at(parts: Seq<PartView>, values: Seq<Seq<char>>, m: int, k: int)
    requires
        writable(parts, values),
        0 <= m <= parts.len(),
        0 <= k < 8,
    ensures
        forall|i: int|
            0 <= i < m && parts[i].0.len() > 0 && var_index(parts[i].0) == Some(k) ==> (#[trigger] data_upto(
                parts,
                values,
                m,
            )[k]) == Some(
                (
                    part_offset(parts, values, i),
                    part_offset(parts, values, i) + values[i].len() - 1,
                ),
            ),
        (forall|i: int| 0 <= i < m && parts[i].0.len() > 0 ==> var_index(parts[i].0) != Some(k))
            ==> data_upto(parts, values, m)[k] is None,
    decreases m,
{
    lemma_data_upto_len(parts, values, m);
    if m > 0 {
        lemma_data_upto_at(parts, values, m - 1, k);
        lemma_data_upto_len(parts, values, m - 1);
        let prev = data_upto(parts, values, m - 1);
        let cur = data_upto(parts, values, m);
        let last = parts[m - 1];
        lemma_var_index_bounds(last.0, 0);
        // the last part either stores its range under its own variable or stores nothing
        if last.0.len() > 0 && var_index(last.0) is Some {
            let k2 = var_index(last.0)->0;
            let o = part_offset(parts, values, m - 1);
            assert(cur == prev.update(k2, Some((o, o + values[m - 1].len() - 1))));
            if k2 != k {
                assert(cur[k] == prev[k]);
            }
        } else {
            assert(cur == prev);
        }
        assert forall|i: int|
            0 <= i < m && parts[i].0.len() > 0 && var_index(parts[i].0) == Some(k) implies (#[trigger] data_upto(
            parts,
            values,
            m,
        )[k]) == Some(
            (
                part_offset(parts, values, i),
                part_offset(parts, values, i) + values[i].len() - 1,
            ),
        ) by {
            if i < m - 1 {
                assert(var_index(parts[m - 1].0) != var_index(parts[i].0));
            }
        }
    }
}

/// A line written by the parts of a format, with values that the scan can
/// tell from the separators (see `writable`), and followed by anything, is
/// scanned back into those values: the range stored for each known variable
/// holds the value of the part that names it, and no range is stored for a
/// variable that no part names.
pub proof fn lemma_scan_reads_back(parts: Seq<PartView>, values: Seq<Seq<char>>, rest: Seq<char>)
    requires
        writable(parts, values),
    ensures
        ({
            let line = line_from(parts, values, 0) + rest;
            &&& scan(parts, line) is Some
            &&& scan(parts, line)->0.len() == 8
            &&& forall|i: int|
                0 <= i < parts.len() && parts[i].0.len() > 0 && var_index(parts[i].0) is Some
                    ==> #[trigger] field_text(line, scan(parts, line)->0[var_index(parts[i].0)->0])
                    == values[i]
            &&& forall|k: int|
                0 <= k < 8 && (forall|i: int|
                    0 <= i < parts.len() && parts[i].0.len() > 0 ==> var_index(parts[i].0) != Some(
                        k,
                    )) ==> #[trigger] scan(parts, line)->0[k] is None
        }),
{
    let n = parts.len() as int;
    let line = line_from(parts, values, 0) + rest;
    lemma_scan_parts(parts, values, rest, n - 1);
    lemma_scan_part(parts, values, rest, n - 1);
    lemma_line_from_skip(parts, values, n);
    let st = scan_prefix(parts, line, part_offset(parts, values, n))->0;
    lemma_scan_stays_done(parts, line, part_offset(parts, values, n), line.len() as int, st);
    let data = data_upto(parts, values, n);
    assert(scan(parts, line) == Some(data));
    lemma_data_upto_len(parts, values, n);
    assert forall|i: int|
        0 <= i < parts.len() && parts[i].0.len() > 0 && var_index(parts[i].0) is Some implies #[trigger] field_text(
        line,
        scan(parts, line)->0[var_index(parts[i].0)->0],
    ) == values[i] by {
        let k = var_index(parts[i].0)->0;
        lemma_var_index_bounds(parts[i].0, 0);
        lemma_data_upto_at(parts, values, n, k);
        lemma_line_chars(parts, values, rest, i);
        let o = part_offset(parts, values, i);
        assert forall|t: int| 0 <= t < values[i].len() implies line.subrange(o, o + values[i].len())[t]
            == values[i][t] by {
            assert(line[o + t] == values[i][t]);
        }
        assert(line.subrange(o, o + values[i].len()) =~= values[i]);
    }
    assert forall|k: int|
        0 <= k < 8 && (forall|i: int|
            0 <= i < parts.len() && parts[i].0.len() > 0 ==> var_index(parts[i].0) != Some(k))
            implies #[trigger] scan(parts, line)->0[k] is None by {
        lemma_data_upto_at(parts, values, n, k);
    }
}

/// The value that `values` give to variable `k`: that of the named part that
/// names it, or none.
pub open spec fn written_field(parts: Seq<PartView>, values: Seq<Seq<char>>, k: int) -> Seq<char> {
    if exists|i: int|
        0 <= i < parts.len() && parts[i].0.len() > 0 && #[trigger] var_index(parts[i].0) == Some(k) {
        values[choose|i: int|
            0 <= i < parts.len() && parts[i].0.len() > 0 && #[trigger] var_index(parts[i].0) == Some(
                k,
            )]
    } else {
        Seq::empty()
    }
}

/// The values that `values` give to the eight variables.
pub open spec fn written_fields(parts: Seq<PartView>, values: Seq<Seq<char>>) -> Seq<Seq<char>> {
    Seq::new(8, |k: int| written_field(parts, values, k))
}

/// A line written by the parts of a format, with values that the scan can
/// tell from the separators, and followed by anything, parses as those
/// values read: its date-time, status, bytes sent, request, address, referer
/// and agent are those written.
pub proof fn lemma_parse_reads_back(parts: Seq<PartView>, values: Seq<Seq<char>>, rest: Seq<char>)
    requires
        writable(parts, values),
    ensures
        parse_line(parts, line_from(parts, values, 0) + rest) == read_fields(
            written_fields(parts, values),
        ),
{
    let line = line_from(parts, values, 0) + rest;
    lemma_scan_reads_back(parts, values, rest);
    let data = scan(parts, line)->0;
    assert forall|k: int| 0 <= k < 8 implies field_texts(line, data)[k] == written_fields(
        parts,
        values,
    )[k] by {
        if exists|i: int|
            0 <= i < parts.len() && parts[i].0.len() > 0 && #[trigger] var_index(parts[i].0)
                == Some(k) {
            let i = choose|i: int|
                0 <= i < parts.len() && parts[i].0.len() > 0 && #[trigger] var_index(parts[i].0)
                    == Some(k);
            assert(field_text(line, data[var_index(parts[i].0)->0]) == values[i]);
        } else {
            assert(data[k] is None);
        }
    }
    assert(field_texts(line, data) =~= written_fields(parts, values));
}

/// The values of the variables that a `LogLine` does not hold never reach
/// the parse: two lines written by the same parts, whose values agree on
/// every part that names one of the eight known variables, parse alike,
/// whatever follows each of them.
pub proof fn lemma_parse_ignores_unknown(
    parts: Seq<PartView>,
    values1: Seq<Seq<char>>,
    values2: Seq<Seq<char>>,
    rest1: Seq<char>,
    rest2: Seq<char>,
)
    requires
        writable(parts, values1),
        writable(parts, values2),
        forall|i: int|
            0 <= i < parts.len() && parts[i].0.len() > 0 && var_index(parts[i].0) is Some
                ==> #[trigger] values1[i] == values2[i],
    ensures
        parse_line(parts, line_from(parts, values1, 0) + rest1) == parse_line(
            parts,
            line_from(parts, values2, 0) + rest2,
        ),
{
    lemma_parse_reads_back(parts, values1, rest1);
    lemma_parse_reads_back(parts, values2, rest2);
    assert forall|k: int| 0 <= k < 8 implies written_fields(parts, values1)[k] == written_fields(
        parts,
        values2,
    )[k] by {
        if exists|i: int|
            0 <= i < parts.len() && parts[i].0.len() > 0 && #[trigger] var_index(parts[i].0)
                == Some(k) {
            let i = choose|i: int|
                0 <= i < parts.len() && parts[i].0.len() > 0 && #[trigger] var_index(parts[i].0)
                    == Some(k);
            assert(values1[i] == values2[i]);
        }
    }
    assert(written_fields(parts, values1) =~= written_fields(parts, values2));
}

/// The scan of the first `n` characters reads those characters only.
proof fn lemma_scan_prefix_agree(parts: Seq<PartView>, a: Seq<char>, b: Seq<char>, n: int)
    requires
        0 <= n <= a.len(),
        n <= b.len(),
        forall|k: int| 0 <= k < n ==> a[k] == b[k],
    ensures
        scan_prefix(parts, a, n) == scan_prefix(parts, b, n),
        scan_prefix(parts, a, n) matches Some(st) ==> 0 <= st.start <= st.end + 1 && st.end <= n,
    decreases n,
{
    if n > 0 {
        lemma_scan_prefix_agree(parts, a, b, n - 1);
        if let Some(st) = scan_prefix(parts, a, n - 1) {
            assert(a[n - 1] == b[n - 1]);
            if 0 <= st.start <= st.end && st.end < a.len() {
                assert(a[st.end] == b[st.end]);
                if st.start > 0 {
                    assert(a[st.start - 1] == b[st.start - 1]);
                }
            }
            assert(slice_ok(a, st.start, st.end) == slice_ok(b, st.start, st.end));
            assert(scan_step(parts, a, st, n - 1) == scan_step(parts, b, st, n - 1));
        }
    }
}

/// The line that the parts write with `values`, cut before its last
/// separator: it ends with the value of the last part.
pub open spec fn unclosed_line(parts: Seq<PartView>, values: Seq<Seq<char>>) -> Seq<char> {
    line_from(parts, values, 0).take(
        part_offset(parts, values, parts.len() - 1) + values[parts.len() - 1].len(),
    )
}

/// A line written by the parts of a format, with values that the scan can
/// tell from the separators, and cut before the last separator, parses as
/// those values read, where the last part names no variable that a `LogLine`
/// holds: that separator is never needed.
pub proof fn lemma_unclosed_line_reads_back(parts: Seq<PartView>, values: Seq<Seq<char>>)
    requires
        writable(parts, values),
        var_index(parts[parts.len() - 1].0) is None,
    ensures
        parse_line(parts, unclosed_line(parts, values)) == read_fields(
            written_fields(parts, values),
        ),
{
    let n = parts.len() as int;
    let rest = Seq::<char>::empty();
    let full = line_from(parts, values, 0) + rest;
    assert(full =~= line_from(parts, values, 0));
    let t = unclosed_line(parts, values);
    let o = part_offset(parts, values, n - 1);
    let v = values[n - 1];
    lemma_line_chars(parts, values, rest, n - 1);
    assert(t.len() == o + v.len());
    lemma_scan_parts(parts, values, rest, n - 1);
    lemma_scan_value(parts, values, rest, n - 1, v.len() as int);
    lemma_scan_prefix_agree(parts, full, t, t.len() as int);
    let data = data_upto(parts, values, n - 1);
    assert(scan(parts, t) == Some(data));
    lemma_data_upto_len(parts, values, n - 1);
    assert forall|k: int| 0 <= k < 8 implies field_texts(t, data)[k] == written_fields(
        parts,
        values,
    )[k] by {
        lemma_data_upto_at(parts, values, n - 1, k);
        if exists|i: int|
            0 <= i < parts.len() && parts[i].0.len() > 0 && #[trigger] var_index(parts[i].0)
                == Some(k) {
            let i = choose|i: int|
                0 <= i < parts.len() && parts[i].0.len() > 0 && #[trigger] var_index(parts[i].0)
                    == Some(k);
            assert(i < n - 1);
            lemma_line_chars(parts, values, rest, i);
            let oi = part_offset(parts, values, i);
            lemma_part_offset_mono(parts, values, i + 1, n - 1);
            assert forall|u: int| 0 <= u < values[i].len() implies t.subrange(
                oi,
                oi + values[i].len(),
            )[u] == values[i][u] by {
                assert(full[oi + u] == values[i][u]);
            }
            assert(t.subrange(oi, oi + values[i].len()) =~= values[i]);
        } else {
            assert forall|i: int|
                0 <= i < n - 1 && parts[i].0.len() > 0 implies var_index(parts[i].0) != Some(
                k,
            ) by {}
        }
    }
    assert(field_texts(t, data) =~= written_fields(parts, values));
}

proof fn lemma_part_offset_mono(parts: Seq<PartView>, values: Seq<Seq<char>>, i: int, j: int)
    requires
        0 <= i <= j <= parts.len(),
        values.len() == parts.len(),
    ensures
        part_offset(parts, values, i) <= part_offset(parts, values, j),
    decreases j - i,
{
    if i < j {
        lemma_part_offset_mono(parts, values, i, j - 1);
    }
}

/// The values of the variables that a `LogLine` does not hold never reach
/// the parse of a line cut before the last separator either, where the last
/// part names no variable that a `LogLine` holds.
pub proof fn lemma_unclosed_parse_ignores_unknown(
    parts: Seq<PartView>,
    values1: Seq<Seq<char>>,
    values2: Seq<Seq<char>>,
)
    requires
        writable(parts, values1),
        writable(parts, values2),
        var_index(parts[parts.len() - 1].0) is None,
        forall|i: int|
            0 <= i < parts.len() && parts[i].0.len() > 0 && var_index(parts[i].0) is Some
                ==> #[trigger] values1[i] == values2[i],
    ensures
        parse_line(parts, unclosed_line(parts, values1)) == parse_line(
            parts,
            unclosed_line(parts, values2),
        ),
{
    lemma_unclosed_line_reads_back(parts, values1);
    lemma_unclosed_line_reads_back(parts, values2);
    assert forall|k: int| 0 <= k < 8 implies written_fields(parts, values1)[k] == written_fields(
        parts,
        values2,
    )[k] by {
        if exists|i: int|
            0 <= i < parts.len() && parts[i].0.len() > 0 && #[trigger] var_index(parts[i].0)
                == Some(k) {
            let i = choose|i: int|
                0 <= i < parts.len() && parts[i].0.len() > 0 && #[trigger] var_index(parts[i].0)
                    == Some(k);
            assert(values1[i] == values2[i]);
        }
    }
    assert(written_fields(parts, values1) =~= written_fields(parts, values2));
}

/// Every part names a variable and has a separator.
pub open spec fn all_named(parts: Seq<PartView>) -> bool {
    &&& parts.len() > 0
    &&& forall|i: int|
        0 <= i < parts.len() ==> (#[trigger] parts[i]).0.len() > 0 && parts[i].1.len() > 0
}

proof fn lemma_scan_ascii(parts: Seq<PartView>, line: Seq<char>, n: int)
    requires
        all_named(parts),
        all_ascii(line),
        0 <= n <= line.len(),
    ensures
        scan_prefix(parts, line, n) matches Some(st) && (st.done || (0 <= st.cursor < parts.len()
            && 0 <= st.part_idx < parts[st.cursor].1.len() && 0 <= st.start <= st.end && st.end
            <= n)),
    decreases n,
{
    if n == 0 {
        assert(parts[0].1.len() > 0);
    } else {
        lemma_scan_ascii(parts, line, n - 1);
        let st = scan_prefix(parts, line, n - 1)->0;
        if !st.done {
            assert(parts[st.cursor].0.len() > 0);
            if st.cursor + 1 < parts.len() {
                assert(parts[st.cursor + 1].1.len() > 0);
            }
            assert(is_ascii_char(line[st.end]));
            if st.start > 0 {
                assert(is_ascii_char(line[st.start - 1]));
            }
            assert(slice_ok(line, st.start, st.end));
        }
    }
}

/// The value ranges that a scan stores lie in the line.
proof fn lemma_scan_ranges(parts: Seq<PartView>, line: Seq<char>, n: int)
    requires
        0 <= n <= line.len(),
    ensures
        scan_prefix(parts, line, n) matches Some(st) ==> st.data.len() == 8 && forall|k: int|
            0 <= k < 8 ==> (#[trigger] st.data[k] matches Some((s, e)) ==> 0 <= s <= e < line.len()),
    decreases n,
{
    if n > 0 {
        lemma_scan_ranges(parts, line, n - 1);
        if let Some(st) = scan_prefix(parts, line, n - 1) {
            if !st.done && 0 <= st.cursor < parts.len() {
                lemma_var_index_bounds(parts[st.cursor].0, 0);
            }
        }
    }
}

/// `Parser::parse` never panics on a line of one-byte characters, with parts
/// that all name a variable (as those of the combined format): its
/// requirement holds for every such line.
pub proof fn lemma_ascii_line_no_panic(parts: Seq<PartView>, line: Seq<char>)
    requires
        all_named(parts),
        all_ascii(line),
    ensures
        !(parse_line(parts, line) is Panics),
{
    lemma_scan_ascii(parts, line, line.len() as int);
    let data = scan(parts, line)->0;
    let t = field_texts(line, data)[2];
    assert(all_ascii(t)) by {
        if let Some((s, e)) = data[2] {
            // a stored range lies in the line
            lemma_scan_ranges(parts, line, line.len() as int);
            assert(data[2] is Some);
            assert forall|k: int| 0 <= k < t.len() implies is_ascii_char(#[trigger] t[k]) by {
                assert(t[k] == line[s + k]);
            }
        }
    }
    lemma_ascii_date_time_no_panic(t);
}

// ---------------------------------------------------------------- the combined format

/// The state after the characters `cs`, from the state `st`.
pub open spec fn format_run(st: FormatState, cs: Seq<char>) -> FormatState
    decreases cs.len(),
{
    if cs.len() == 0 {
        st
    } else {
        format_step(format_run(st, cs.drop_last()), cs.last())
    }
}

proof fn lemma_format_run_concat(st: FormatState, x: Seq<char>, y: Seq<char>)
    ensures
        format_run(st, x + y) == format_run(format_run(st, x), y),
    decreases y.len(),
{
    if y.len() == 0 {
        assert(x + y =~= x);
    } else {
        lemma_format_run_concat(st, x, y.drop_last());
        assert((x + y).drop_last() =~= x + y.drop_last());
        assert((x + y).last() == y.last());
    }
}

proof fn lemma_format_prefix_run(f: Seq<char>, n: int)
    requires
        0 <= n <= f.len(),
    ensures
        format_prefix(f, n) == format_run(format_prefix(f, 0), f.take(n)),
    decreases n,
{
    if n > 0 {
        lemma_format_prefix_run(f, n - 1);
        assert(f.take(n).drop_last() =~= f.take(n - 1));
    }
}

/// A variable name goes on the cursor.
proof fn lemma_format_run_name(st: FormatState, cs: Seq<char>)
    requires
        forall|k: int| 0 <= k < cs.len() ==> is_var_char(#[trigger] cs[k]),
    ensures
        format_run(st, cs) == (FormatState { cursor: st.cursor + cs, ..st }),
    decreases cs.len(),
{
    if cs.len() > 0 {
        lemma_format_run_name(st, cs.drop_last());
        assert(is_var_char(cs[cs.len() - 1]));
        assert((st.cursor + cs.drop_last()).push(cs.last()) =~= st.cursor + cs);
    } else {
        assert(st.cursor + cs =~= st.cursor);
    }
}

/// A separator after a name closes the name and goes on the cursor.
proof fn lemma_format_run_sep(st: FormatState, sep: Seq<char>)
    requires
        st.in_var,
        sep.len() > 0,
        forall|k: int| 0 <= k < sep.len() ==> (#[trigger] sep[k]) != '$' && !is_var_char(sep[k]),
    ensures
        format_run(st, sep) == (FormatState {
            parts: st.parts,
            cursor: sep,
            in_var: false,
            name: st.cursor,
        }),
    decreases sep.len(),
{
    let c = sep[sep.len() - 1];
    assert(c != '$' && !is_var_char(c));
    if sep.len() == 1 {
        assert(sep.drop_last() =~= Seq::<char>::empty());
        assert(format_run(st, sep.drop_last()) == st);
        assert(seq![c] =~= sep);
    } else {
        lemma_format_run_sep(st, sep.drop_last());
        assert(sep.drop_last().push(c) =~= sep);
    }
}

/// One part `$name` and its separator, up to the `$` of the next part.
proof fn lemma_format_run_part(st: FormatState, name: Seq<char>, sep: Seq<char>)
    requires
        st.in_var,
        st.cursor == seq!['$'],
        forall|k: int| 0 <= k < name.len() ==> is_var_char(#[trigger] name[k]),
        sep.len() > 0,
        forall|k: int| 0 <= k < sep.len() ==> (#[trigger] sep[k]) != '$' && !is_var_char(sep[k]),
    ensures
        format_run(st, name + sep) == (FormatState {
            parts: st.parts,
            cursor: sep,
            in_var: false,
            name: seq!['$'] + name,
        }),
        format_run(st, name + sep + seq!['$']) == (FormatState {
            parts: st.parts.push((seq!['$'] + name, sep)),
            cursor: seq!['$'],
            in_var: true,
            name: Seq::empty(),
        }),
{
    lemma_format_run_concat(st, name, sep);
    lemma_format_run_name(st, name);
    lemma_format_run_sep(format_run(st, name), sep);
    lemma_format_run_concat(st, name + sep, seq!['$']);
    let x = format_run(st, name + sep);
    assert(seq!['$'].drop_last() =~= Seq::<char>::empty());
    assert(format_run(x, seq!['$'].drop_last()) == x);
    assert(x.cursor.len() > 0);
}

/// The combined log format of nginx.
pub open spec fn combined_format() -> Seq<char> {
    "$remote_addr - $remote_user [$time_local] \"$request\" $status $body_bytes_sent \"$http_referer\" \"$http_user_agent\""@
}

/// The separators of the combined format, by part.
pub open spec fn combined_separator(i: int) -> Seq<char> {
    if i == 0 {
        " - "@
    } else if i == 1 {
        " ["@
    } else if i == 2 {
        "] \""@
    } else if i == 3 {
        "\" "@
    } else if i == 4 {
        " "@
    } else if i == 5 {
        " \""@
    } else if i == 6 {
        "\" \""@
    } else {
        "\""@
    }
}

/// The parts of the combined format: the eight known variables in their
/// order, each with its separator.
pub open spec fn combined_parts() -> Seq<PartView> {
    Seq::new(8, |i: int| (var_name(i), combined_separator(i)))
}

proof fn lemma_combined_format_parts()
    ensures
        format_parts(combined_format()) == combined_parts(),
{
    reveal_strlit("$remote_addr - $remote_user [$time_local] \"$request\" $status $body_bytes_sent \"$http_referer\" \"$http_user_agent\"");
    reveal_strlit("$remote_addr");
    reveal_strlit("$remote_user");
    reveal_strlit("$time_local");
    reveal_strlit("$request");
    reveal_strlit("$status");
    reveal_strlit("$body_bytes_sent");
    reveal_strlit("$http_referer");
    reveal_strlit("$http_user_agent");
    reveal_strlit(" - ");
    reveal_strlit(" [");
    reveal_strlit("] \"");
    reveal_strlit("\" ");
    reveal_strlit(" ");
    reveal_strlit(" \"");
    reveal_strlit("\" \"");
    reveal_strlit("\"");
    let d = seq!['$'];
    let names = Seq::new(8, |i: int| var_name(i).skip(1));
    let seps = Seq::new(8, |i: int| combined_separator(i));
    assert forall|i: int| 0 <= i < 8 implies seq!['$'] + #[trigger] names[i] == var_name(i) by {
        assert(seq!['$'] + names[i] =~= var_name(i));
    }
    assert forall|i: int, k: int| 0 <= i < 8 && 0 <= k < names[i].len() implies is_var_char(
        #[trigger] names[i][k],
    ) by {
        assert(names[i][k] == var_name(i)[k + 1]);
    }
    assert forall|i: int, k: int| 0 <= i < 8 && 0 <= k < seps[i].len() implies (#[trigger] seps[i][k])
        != '$' && !is_var_char(seps[i][k]) by {}
    let p0 = d + (names[0] + seps[0] + d);
    let p1 = p0 + (names[1] + seps[1] + d);
    let p2 = p1 + (names[2] + seps[2] + d);
    let p3 = p2 + (names[3] + seps[3] + d);
    let p4 = p3 + (names[4] + seps[4] + d);
    let p5 = p4 + (names[5] + seps[5] + d);
    let p6 = p5 + (names[6] + seps[6] + d);
    let f = p6 + (names[7] + seps[7]);
    assert(f =~= combined_format());
    let st = format_prefix(f, 0);
    assert(d.drop_last() =~= Seq::<char>::empty());
    assert(format_run(st, d.drop_last()) == st);
    let s0 = format_run(st, d);
    assert(s0 == (FormatState { parts: Seq::empty(), cursor: d, in_var: true, name: Seq::empty() }));
    lemma_format_run_concat(st, d, names[0] + seps[0] + d);
    lemma_format_run_part(s0, names[0], seps[0]);
    let s1 = format_run(st, p0);
    lemma_format_run_concat(st, p0, names[1] + seps[1] + d);
    lemma_format_run_part(s1, names[1], seps[1]);
    let s2 = format_run(st, p1);
    lemma_format_run_concat(st, p1, names[2] + seps[2] + d);
    lemma_format_run_part(s2, names[2], seps[2]);
    let s3 = format_run(st, p2);
    lemma_format_run_concat(st, p2, names[3] + seps[3] + d);
    lemma_format_run_part(s3, names[3], seps[3]);
    let s4 = format_run(st, p3);
    lemma_format_run_concat(st, p3, names[4] + seps[4] + d);
    lemma_format_run_part(s4, names[4], seps[4]);
    let s5 = format_run(st, p4);
    lemma_format_run_concat(st, p4, names[5] + seps[5] + d);
    lemma_format_run_part(s5, names[5], seps[5]);
    let s6 = format_run(st, p5);
    lemma_format_run_concat(st, p5, names[6] + seps[6] + d);
    lemma_format_run_part(s6, names[6], seps[6]);
    let s7 = format_run(st, p6);
    lemma_format_run_concat(st, p6, names[7] + seps[7]);
    lemma_format_run_part(s7, names[7], seps[7]);
    lemma_format_prefix_run(f, f.len() as int);
    assert(f.take(f.len() as int) =~= f);
    let fin = format_prefix(f, f.len() as int);
    assert(fin.parts.push((fin.name, fin.cursor)) =~= combined_parts());
}

/// Each of the eight known variables is found under its own index.
proof fn lemma_var_names()
    ensures
        forall|k: int| 0 <= k < 8 ==> var_index(#[trigger] var_name(k)) == Some(k),
{
    reveal_strlit("$remote_addr");
    reveal_strlit("$remote_user");
    reveal_strlit("$time_local");
    reveal_strlit("$request");
    reveal_strlit("$status");
    reveal_strlit("$body_bytes_sent");
    reveal_strlit("$http_referer");
    reveal_strlit("$http_user_agent");
    assert(var_name(0)[8] != var_name(1)[8]);
    assert(var_name(5)[1] != var_name(7)[1]);
    assert forall|k: int| 0 <= k < 8 implies var_index(#[trigger] var_name(k)) == Some(k) by {
        assert forall|m: int| 0 <= m < k implies var_name(m) != var_name(k) by {
            if var_name(m).len() == var_name(k).len() {
                if m == 0 && k == 1 {
                    assert(var_name(m)[8] != var_name(k)[8]);
                } else if m == 5 && k == 7 {
                    assert(var_name(m)[1] != var_name(k)[1]);
                }
            }
        }
        assert(var_index_from(var_name(k), k) == Some(k));
        if k >= 1 { assert(var_index_from(var_name(k), k - 1) == Some(k)); }
        if k >= 2 { assert(var_index_from(var_name(k), k - 2) == Some(k)); }
        if k >= 3 { assert(var_index_from(var_name(k), k - 3) == Some(k)); }
        if k >= 4 { assert(var_index_from(var_name(k), k - 4) == Some(k)); }
        if k >= 5 { assert(var_index_from(var_name(k), k - 5) == Some(k)); }
        if k >= 6 { assert(var_index_from(var_name(k), k - 6) == Some(k)); }
        if k >= 7 { assert(var_index_from(var_name(k), k - 7) == Some(k)); }
    }
}

/// A value the scan can tell from the separator that follows it (whose first
/// character is `c`): not empty, ending in a one-byte character, free of `c`.
pub open spec fn fits_before(v: Seq<char>, c: char) -> bool {
    &&& v.len() > 0
    &&& is_ascii_char(v.last())
    &&& forall|j: int| 0 <= j < v.len() ==> v[j] != c
}

proof fn lemma_combined_writable(values: Seq<Seq<char>>)
    requires
        values.len() == 8,
        forall|i: int| 0 <= i < 8 ==> fits_before(#[trigger] values[i], combined_separator(i)[0]),
    ensures
        writable(combined_parts(), values),
        written_fields(combined_parts(), values) == values,
{
    reveal_strlit(" - ");
    reveal_strlit(" [");
    reveal_strlit("] \"");
    reveal_strlit("\" ");
    reveal_strlit(" ");
    reveal_strlit(" \"");
    reveal_strlit("\" \"");
    reveal_strlit("\"");
    reveal_strlit("$remote_addr");
    reveal_strlit("$remote_user");
    reveal_strlit("$time_local");
    reveal_strlit("$request");
    reveal_strlit("$status");
    reveal_strlit("$body_bytes_sent");
    reveal_strlit("$http_referer");
    reveal_strlit("$http_user_agent");
    lemma_var_names();
    let parts = combined_parts();
    assert forall|i: int| 0 <= i < 8 implies var_index(#[trigger] parts[i].0) == Some(i) by {
        assert(var_index(var_name(i)) == Some(i));
    }
    assert forall|i: int, j: int|
        0 <= i < parts.len() && 0 <= j < values[i].len() implies #[trigger] values[i][j]
        != parts[i].1[0] by {
        assert(fits_before(values[i], combined_separator(i)[0]));
    }
    assert forall|i: int, j: int|
        0 <= i < parts.len() && 0 <= j < parts.len() && i != j && (#[trigger] var_index(
            parts[i].0,
        )) is Some implies var_index(parts[i].0) != #[trigger] var_index(parts[j].0) by {
        assert(var_index(parts[i].0) == Some(i));
        assert(var_index(parts[j].0) == Some(j));
    }
    assert forall|i: int| 0 <= i < parts.len() implies (#[trigger] parts[i]).1.len() > 0
        && is_ascii_char(parts[i].1.last()) by {}
    assert forall|i: int| 0 <= i < parts.len() && (#[trigger] parts[i]).0.len() > 0 implies values[i].len()
        > 0 && is_ascii_char(values[i].last()) by {
        assert(fits_before(values[i], combined_separator(i)[0]));
    }
    assert forall|k: int| 0 <= k < 8 implies #[trigger] written_fields(parts, values)[k]
        == values[k] by {
        assert(var_index(parts[k].0) == Some(k));
        let i = choose|i: int|
            0 <= i < parts.len() && parts[i].0.len() > 0 && #[trigger] var_index(parts[i].0)
                == Some(k);
        assert(var_index(parts[i].0) == Some(i));
    }
    assert(written_fields(parts, values) =~= values);
}

proof fn lemma_combined_line(
    a: Seq<char>,
    u: Seq<char>,
    t: Seq<char>,
    r: Seq<char>,
    s: Seq<char>,
    b: Seq<char>,
    f: Seq<char>,
    g: Seq<char>,
)
    ensures
        line_from(combined_parts(), seq![a, u, t, r, s, b, f, g], 0) == a + " - "@ + u + " ["@ + t
            + "] \""@ + r + "\" "@ + s + " "@ + b + " \""@ + f + "\" \""@ + g + "\""@,
{
    let parts = combined_parts();
    let values = seq![a, u, t, r, s, b, f, g];
    let l = |k: int| line_from(parts, values, k);
    assert(l(8) == Seq::<char>::empty());
    assert forall|k: int| 0 <= k < 8 implies #[trigger] l(k) == values[k] + combined_separator(k)
        + l(k + 1) by {}
    let q0 = a + " - "@;
    assert(l(0) == q0 + l(1));
    let q1 = q0 + u + " ["@;
    assert(l(0) =~= q1 + l(2));
    let q2 = q1 + t + "] \""@;
    assert(l(0) =~= q2 + l(3));
    let q3 = q2 + r + "\" "@;
    assert(l(0) =~= q3 + l(4));
    let q4 = q3 + s + " "@;
    assert(l(0) =~= q4 + l(5));
    let q5 = q4 + b + " \""@;
    assert(l(0) =~= q5 + l(6));
    let q6 = q5 + f + "\" \""@;
    assert(l(0) =~= q6 + l(7));
    let q7 = q6 + g + "\""@;
    assert(l(0) =~= q7 + l(8));
    assert(l(0) =~= q7);
}

/// The combined format reads a line back: with an address, a user, a
/// date-time, a request, a status, a byte count, a referer and an agent that
/// hold no character of the separator after them, end in a one-byte
/// character and are not empty, the line that the format writes with them,
/// followed by anything, parses as those values read (`read_fields`): the
/// address, referer and agent as written, the date-time, status and byte
/// count as read from their text, the method and path from the request.
pub proof fn lemma_combined_line_reads_back(
    a: Seq<char>,
    u: Seq<char>,
    t: Seq<char>,
    r: Seq<char>,
    s: Seq<char>,
    b: Seq<char>,
    f: Seq<char>,
    g: Seq<char>,
    rest: Seq<char>,
)
    requires
        fits_before(a, ' '),
        fits_before(u, ' '),
        fits_before(t, ']'),
        fits_before(r, '"'),
        fits_before(s, ' '),
        fits_before(b, ' '),
        fits_before(f, '"'),
        fits_before(g, '"'),
    ensures
        format_parts(combined_format()) == combined_parts(),
        parse_line(
            format_parts(combined_format()),
            a + " - "@ + u + " ["@ + t + "] \""@ + r + "\" "@ + s + " "@ + b + " \""@ + f
                + "\" \""@ + g + "\""@ + rest,
        ) == read_fields(seq![a, u, t, r, s, b, f, g]),
{
    lemma_combined_format_parts();
    let values = seq![a, u, t, r, s, b, f, g];
    assert forall|i: int| 0 <= i < 8 implies fits_before(
        #[trigger] values[i],
        combined_separator(i)[0],
    ) by {
        reveal_strlit(" - ");
        reveal_strlit(" [");
        reveal_strlit("] \"");
        reveal_strlit("\" ");
        reveal_strlit(" ");
        reveal_strlit(" \"");
        reveal_strlit("\" \"");
        reveal_strlit("\"");
    }
    lemma_combined_writable(values);
    lemma_parse_reads_back(combined_parts(), values, rest);
    lemma_combined_line(a, u, t, r, s, b, f, g);
}

/// `Parser::parse` with the combined format never panics on a line of
/// one-byte characters.
pub proof fn lemma_combined_ascii_no_panic(line: Seq<char>)
    requires
        all_ascii(line),
    ensures
        !(parse_line(format_parts(combined_format()), line) is Panics),
{
    lemma_combined_format_parts();
    let parts = combined_parts();
    assert forall|i: int| 0 <= i < parts.len() implies (#[trigger] parts[i]).0.len() > 0
        && parts[i].1.len() > 0 by {
        reveal_strlit(" - ");
        reveal_strlit(" [");
        reveal_strlit("] \"");
        reveal_strlit("\" ");
        reveal_strlit(" ");
        reveal_strlit(" \"");
        reveal_strlit("\" \"");
        reveal_strlit("\"");
        reveal_strlit("$remote_addr");
        reveal_strlit("$remote_user");
        reveal_strlit("$time_local");
        reveal_strlit("$request");
        reveal_strlit("$status");
        reveal_strlit("$body_bytes_sent");
        reveal_strlit("$http_referer");
        reveal_strlit("$http_user_agent");
    }
    lemma_ascii_line_no_panic(parts, line);
}

/// A variable name goes on over every lower-case ASCII letter and `_`, and
/// ends at any other character: a format of one variable, `$` and a name
/// of such characters, then a separator of none of them (nor `$`), is the
/// one part of that variable and separator.
pub proof fn lemma_one_variable_format(name: Seq<char>, sep: Seq<char>)
    requires
        forall|k: int| 0 <= k < name.len() ==> ('a' <= #[trigger] name[k] <= 'z' || name[k] == '_'),
        sep.len() > 0,
        forall|k: int|
            0 <= k < sep.len() ==> #[trigger] sep[k] != '$' && !('a' <= sep[k] <= 'z') && sep[k]
                != '_',
    ensures
        format_parts(seq!['$'] + name + sep) == seq![(seq!['$'] + name, sep)],
{
    let d = seq!['$'];
    let f = d + (name + sep);
    assert(f =~= seq!['$'] + name + sep);
    let st = format_prefix(f, 0);
    assert(d.drop_last() =~= Seq::<char>::empty());
    assert(format_run(st, d.drop_last()) == st);
    let s0 = format_run(st, d);
    assert(s0 == (FormatState { parts: Seq::empty(), cursor: d, in_var: true, name: Seq::empty() }));
    assert forall|k: int| 0 <= k < name.len() implies is_var_char(#[trigger] name[k]) by {}
    assert forall|k: int| 0 <= k < sep.len() implies (#[trigger] sep[k]) != '$' && !is_var_char(
        sep[k],
    ) by {}
    lemma_format_run_concat(st, d, name + sep);
    lemma_format_run_part(s0, name, sep);
    lemma_format_prefix_run(f, f.len() as int);
    assert(f.take(f.len() as int) =~= f);
    let fin = format_prefix(f, f.len() as int);
    assert(fin.parts.push((fin.name, fin.cursor)) =~= seq![(seq!['$'] + name, sep)]);
}

/// A request `METHOD PATH` (then nothing, or a space and anything, such as
/// the protocol) is read as the method its first word names and the path
/// its second word is; a request of one word is a path without a method.
pub proof fn lemma_request_parts(m: Seq<char>, p: Seq<char>, tail: Seq<char>)
    requires
        forall|k: int| 0 <= k < m.len() ==> #[trigger] m[k] != ' ',
        forall|k: int| 0 <= k < p.len() ==> #[trigger] p[k] != ' ',
        tail.len() == 0 || tail[0] == ' ',
    ensures
        request_parts(m + seq![' '] + p + tail) == (method_of(m), p),
        request_parts(m) == (Method::Absent, m),
{
    let sp = seq![' '];
    let req = m + sp + p + tail;
    let rest = sp + p + tail;
    assert(req =~= m + rest);
    lemma_find_from_concat(m, rest, ' ', 0);
    assert(rest[0] == ' ');
    assert(find_from(rest, ' ', 0) == 0);
    let i1 = m.len() as int;
    assert(find_from(req, ' ', 0) == i1);
    assert(req =~= (m + sp) + (p + tail));
    lemma_find_from_concat(m + sp, p + tail, ' ', i1 + 1);
    lemma_find_from_concat(p, tail, ' ', 0);
    assert(find_from(tail, ' ', 0) == 0);
    assert(find_from(req, ' ', i1 + 1) == i1 + 1 + p.len());
    assert(req.subrange(0, i1) =~= m);
    assert(req.subrange(i1 + 1, i1 + 1 + p.len()) =~= p);
    lemma_find_from_concat(m, Seq::<char>::empty(), ' ', 0);
    assert(m + Seq::<char>::empty() =~= m);
}

} // verus!
