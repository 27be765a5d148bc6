//! One hit of the access log.

use vstd::prelude::*;
use crate::datetime::{Date, DateTime, Time};
use crate::text::chars_of;

verus! {

/// The HTTP method of a request.
#[derive(Debug, Clone, Copy, PartialEq, Eq, Structural)]
pub enum Method {
    Get,
    Head,
    Post,
    Put,
    Delete,
    Connect,
    Options,
    Trace,
    Patch,
    Other,
    Absent,
}

/// The method that the (upper-case) word `s` names; `Other` for any other word.
pub open spec fn method_of(s: Seq<char>) -> Method {
    if s == "GET"@ {
        Method::Get
    } else if s == "HEAD"@ {
        Method::Head
    } else if s == "POST"@ {
        Method::Post
    } else if s == "PUT"@ {
        Method::Put
    } else if s == "DELETE"@ {
        Method::Delete
    } else if s == "CONNECT"@ {
        Method::Connect
    } else if s == "OPTIONS"@ {
        Method::Options
    } else if s == "TRACE"@ {
        Method::Trace
    } else if s == "PATCH"@ {
        Method::Patch
    } else {
        Method::Other
    }
}

fn is_word(cs: &Vec<char>, word: &str) -> (r: bool)
    ensures
        r == (cs@ == word@),
{
    let w = chars_of(word);
    crate::text::chars_eq(cs, &w)
}

impl<'a> From<&'a str> for Method {
    fn from(s: &'a str) -> (r: Method)
        ensures
            r == method_of(s@),
    {
        let cs = chars_of(s);
        if is_word(&cs, "GET") {
            Method::Get
        } else if is_word(&cs, "HEAD") {
            Method::Head
        } else if is_word(&cs, "POST") {
            Method::Post
        } else if is_word(&cs, "PUT") {
            Method::Put
        } else if is_word(&cs, "DELETE") {
            Method::Delete
        } else if is_word(&cs, "CONNECT") {
            Method::Connect
        } else if is_word(&cs, "OPTIONS") {
            Method::Options
        } else if is_word(&cs, "TRACE") {
            Method::Trace
        } else if is_word(&cs, "PATCH") {
            Method::Patch
        } else {
            Method::Other
        }
    }
}

impl<'a> vstd::std_specs::convert::FromSpecImpl<&'a str> for Method {
    open spec fn obeys_from_spec() -> bool {
        true
    }

    open spec fn from_spec(v: &'a str) -> Method {
        method_of(v@)
    }
}

/// A line in the access log, describing a hit.
#[derive(Debug)]
pub struct LogLine {
    pub remote_addr: String,
    pub date_time: DateTime,
    pub method: Method,
    pub path: String,
    pub status: u16,
    pub bytes_sent: u64,
    pub referer: String,
    pub agent: String,
}

/// A `LogLine` as plain values.
pub struct LogLineView {
    pub remote_addr: Seq<char>,
    pub date_time: DateTime,
    pub method: Method,
    pub path: Seq<char>,
    pub status: u16,
    pub bytes_sent: u64,
    pub referer: Seq<char>,
    pub agent: Seq<char>,
}

impl View for LogLine {
    type V = LogLineView;

    open spec fn view(&self) -> LogLineView {
        LogLineView {
            remote_addr: self.remote_addr@,
            date_time: self.date_time,
            method: self.method,
            path: self.path@,
            status: self.status,
            bytes_sent: self.bytes_sent,
            referer: self.referer@,
            agent: self.agent@,
        }
    }
}

/// Whether `s` ends with `suffix`.
pub open spec fn ends_with(s: Seq<char>, suffix: Seq<char>) -> bool {
    s.len() >= suffix.len() && s.subrange(s.len() - suffix.len(), s.len() as int) == suffix
}

/// Whether the path names a static resource: an image, a style sheet, a
/// script or a font, by its extension.
pub open spec fn is_resource_path(p: Seq<char>) -> bool {
    ||| ends_with(p, ".png"@)
    ||| ends_with(p, ".css"@)
    ||| ends_with(p, ".svg"@)
    ||| ends_with(p, ".jpg"@)
    ||| ends_with(p, ".jpeg"@)
    ||| ends_with(p, ".gif"@)
    ||| ends_with(p, ".ico"@)
    ||| ends_with(p, ".js"@)
    ||| ends_with(p, ".woff2"@)
    ||| ends_with(p, ".webp"@)
}

/// Whether the characters `cs` end with `suffix`.
pub fn chars_end_with(cs: &Vec<char>, suffix: &str) -> (r: bool)
    ensures
        r == ends_with(cs@, suffix@),
{
    let sc = chars_of(suffix);
    let n = cs.len();
    let m = sc.len();
    if n < m {
        return false;
    }
    let mut i: usize = 0;
    while i < m
        invariant
            n == cs@.len(),
            m == sc@.len(),
            sc@ == suffix@,
            m <= n,
            i <= m,
            forall|j: int| 0 <= j < i ==> cs@[n - m + j] == sc@[j],
        decreases m - i,
    {
        if cs[n - m + i] != sc[i] {
            assert(cs@.subrange(n - m, n as int)[i as int] != suffix@[i as int]);
            return false;
        }
        i = i + 1;
    }
    assert(cs@.subrange(n - m, n as int) =~= suffix@);
    true
}

impl LogLine {
    /// Whether the hit is for a static resource (see `is_resource_path`).
    pub fn is_resource(&self) -> (r: bool)
        ensures
            r == is_resource_path(self.path@),
    {
        let s = chars_of(self.path.as_str());
        chars_end_with(&s, ".png") || chars_end_with(&s, ".css") || chars_end_with(&s, ".svg")
            || chars_end_with(&s, ".jpg") || chars_end_with(&s, ".jpeg") || chars_end_with(
            &s,
            ".gif",
        ) || chars_end_with(&s, ".ico") || chars_end_with(&s, ".js") || chars_end_with(
            &s,
            ".woff2",
        ) || chars_end_with(&s, ".webp")
    }

    pub fn date(&self) -> (r: Date)
        ensures
            r == self.date_time.date,
    {
        self.date_time.date
    }

    pub fn time(&self) -> (r: Time)
        ensures
            r == self.date_time.time,
    {
        self.date_time.time
    }
}

/// The extensions of the static resources: images, style sheets, scripts
/// and fonts.
pub open spec fn static_extensions() -> Seq<Seq<char>> {
    seq![
        ".png"@,
        ".css"@,
        ".svg"@,
        ".jpg"@,
        ".jpeg"@,
        ".gif"@,
        ".ico"@,
        ".js"@,
        ".woff2"@,
        ".webp"@,
    ]
}

/// A path names a static resource exactly when it ends with one of the ten
/// extensions of `static_extensions`.
pub proof fn lemma_resource_extensions(p: Seq<char>)
    ensures
        is_resource_path(p) <==> exists|i: int|
            0 <= i < 10 && ends_with(p, #[trigger] static_extensions()[i]),
{
    let es = static_extensions();
    if is_resource_path(p) {
        if ends_with(p, ".png"@) {
            assert(ends_with(p, es[0]));
        } else if ends_with(p, ".css"@) {
            assert(ends_with(p, es[1]));
        } else if ends_with(p, ".svg"@) {
            assert(ends_with(p, es[2]));
        } else if ends_with(p, ".jpg"@) {
            assert(ends_with(p, es[3]));
        } else if ends_with(p, ".jpeg"@) {
            assert(ends_with(p, es[4]));
        } else if ends_with(p, ".gif"@) {
            assert(ends_with(p, es[5]));
        } else if ends_with(p, ".ico"@) {
            assert(ends_with(p, es[6]));
        } else if ends_with(p, ".js"@) {
            assert(ends_with(p, es[7]));
        } else if ends_with(p, ".woff2"@) {
            assert(ends_with(p, es[8]));
        } else {
            assert(ends_with(p, es[9]));
        }
    }
}

/// The request methods of HTTP that a `Method` names, by their word.
pub open spec fn http_method_words() -> Seq<Seq<char>> {
    seq!["GET"@, "HEAD"@, "POST"@, "PUT"@, "DELETE"@, "CONNECT"@, "OPTIONS"@, "TRACE"@, "PATCH"@]
}

/// The methods that those words name, in the same order.
pub open spec fn http_methods() -> Seq<Method> {
    seq![
        Method::Get,
        Method::Head,
        Method::Post,
        Method::Put,
        Method::Delete,
        Method::Connect,
        Method::Options,
        Method::Trace,
        Method::Patch,
    ]
}

/// Each word of an HTTP method is read as that method, and any other word
/// as `Other`.
pub proof fn lemma_method_words(s: Seq<char>)
    ensures
        forall|i: int| 0 <= i < 9 ==> method_of(#[trigger] http_method_words()[i]) == http_methods()[i],
        (forall|i: int| 0 <= i < 9 ==> s != #[trigger] http_method_words()[i]) ==> method_of(s)
            == Method::Other,
{
    reveal_strlit("GET");
    reveal_strlit("HEAD");
    reveal_strlit("POST");
    reveal_strlit("PUT");
    reveal_strlit("DELETE");
    reveal_strlit("CONNECT");
    reveal_strlit("OPTIONS");
    reveal_strlit("TRACE");
    reveal_strlit("PATCH");
    let ws = http_method_words();
    assert forall|i: int, j: int| 0 <= j < i < 9 implies #[trigger] ws[j] != #[trigger] ws[i] by {
        assert(ws[j].len() != ws[i].len() || ws[j][0] != ws[i][0]);
    }
    assert forall|i: int| 0 <= i < 9 implies method_of(#[trigger] ws[i]) == http_methods()[i] by {
        assert(ws[0] != ws[i] || i == 0);
        assert(ws[1] != ws[i] || i <= 1);
        assert(ws[2] != ws[i] || i <= 2);
        assert(ws[3] != ws[i] || i <= 3);
        assert(ws[4] != ws[i] || i <= 4);
        assert(ws[5] != ws[i] || i <= 5);
        assert(ws[6] != ws[i] || i <= 6);
        assert(ws[7] != ws[i] || i <= 7);
    }
    if forall|i: int| 0 <= i < 9 ==> s != #[trigger] http_method_words()[i] {
        assert(s != ws[0] && s != ws[1] && s != ws[2] && s != ws[3] && s != ws[4]);
        assert(s != ws[5] && s != ws[6] && s != ws[7] && s != ws[8]);
    }
}

} // verus!
