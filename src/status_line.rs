//! The status line that opens a response.
use vstd::prelude::*;
use vstd::string::*;
use vstd::utf8::{decode_utf8, valid_utf8};
use crate::error::HttpError;
use crate::lines::{first_line, get_line};
use crate::outside::utf8_text;
use crate::text::{parse_unsigned, unsigned_of};

verus! {

/// ASCII white space, which separates the words of a status line.
pub open spec fn is_ascii_ws(c: char) -> bool {
    c == ' ' || c == '\t' || c == '\n' || c == '\x0C' || c == '\r'
}

/// How many characters of ASCII white space open `t`.
pub open spec fn ws_prefix(t: Seq<char>) -> nat
    decreases t.len(),
{
    if t.len() > 0 && is_ascii_ws(t[0]) {
        1 + ws_prefix(t.skip(1))
    } else {
        0
    }
}

/// How many characters other than ASCII white space open `t`.
pub open spec fn word_prefix(t: Seq<char>) -> nat
    decreases t.len(),
{
    if t.len() > 0 && !is_ascii_ws(t[0]) {
        1 + word_prefix(t.skip(1))
    } else {
        0
    }
}

/// How many characters of ASCII white space close `t`.
pub open spec fn ws_suffix(t: Seq<char>) -> nat
    decreases t.len(),
{
    if t.len() > 0 && is_ascii_ws(t.last()) {
        1 + ws_suffix(t.drop_last())
    } else {
        0
    }
}

/// `v` holds `/1.`, as the versions HTTP/1.0 and HTTP/1.1 do.
pub open spec fn names_http1(v: Seq<char>) -> bool {
    exists|i: int| #[trigger] http1_at(v, i)
}

/// `v` holds `/1.` at index `i`.
pub open spec fn http1_at(v: Seq<char>, i: int) -> bool {
    0 <= i && i + 3 <= v.len() && v[i] == '/' && v[i + 1] == '1' && v[i + 2] == '.'
}

/// The version, code and reason phrase of the status line `t`: words
/// separated by ASCII white space, a version word holding `/1.`, a numeric
/// code that fits 16 bits, and the rest of the line, trimmed, as the reason.
pub open spec fn status_of_text(t: Seq<char>) -> Option<(Seq<char>, u16, Seq<char>)> {
    let a = t.skip(ws_prefix(t) as int);
    let version = a.take(word_prefix(a) as int);
    let b = a.skip(version.len() as int);
    let c = b.skip(ws_prefix(b) as int);
    let code = c.take(word_prefix(c) as int);
    let d = c.skip(code.len() as int);
    let e = d.skip(ws_prefix(d) as int);
    let reason = e.take(e.len() - ws_suffix(e));
    if version.len() > 0 && names_http1(version) {
        match unsigned_of(code, 65535) {
            Some(n) => Some((version, n as u16, reason)),
            None => None,
        }
    } else {
        None
    }
}

/// The status that opens the preamble `meta`.
pub open spec fn status_of(meta: Seq<u8>) -> Option<(Seq<char>, u16, Seq<char>)> {
    if valid_utf8(first_line(meta)) {
        status_of_text(decode_utf8(first_line(meta)))
    } else {
        None
    }
}

/// A response's status line.
#[derive(Debug, Clone)]
pub struct Status {
    pub http_version: String,
    pub code: u16,
    pub reason_phrase: String,
}

/// How many characters of ASCII white space open `s`.
fn skip_ws(s: &str) -> (r: usize)
    ensures
        r == ws_prefix(s@),
        r <= s@.len(),
{
    let n = s.unicode_len();
    let mut i: usize = 0;
    assert(s@.skip(0) =~= s@);
    while i < n && is_ascii_ws_char(s.get_char(i))
        invariant
            n == s@.len(),
            i <= n,
            ws_prefix(s@) == i + ws_prefix(s@.skip(i as int)),
        decreases n - i,
    {
        assert(s@.skip(i as int).skip(1) =~= s@.skip(i + 1));
        i += 1;
    }
    i
}

/// How many characters other than ASCII white space open `s`.
fn skip_word(s: &str) -> (r: usize)
    ensures
        r == word_prefix(s@),
        r <= s@.len(),
{
    let n = s.unicode_len();
    let mut i: usize = 0;
    assert(s@.skip(0) =~= s@);
    while i < n && !is_ascii_ws_char(s.get_char(i))
        invariant
            n == s@.len(),
            i <= n,
            word_prefix(s@) == i + word_prefix(s@.skip(i as int)),
        decreases n - i,
    {
        assert(s@.skip(i as int).skip(1) =~= s@.skip(i + 1));
        i += 1;
    }
    i
}

/// How many characters of ASCII white space close `s`.
fn skip_ws_back(s: &str) -> (r: usize)
    ensures
        r == ws_suffix(s@),
        r <= s@.len(),
{
    let n = s.unicode_len();
    let mut j: usize = n;
    assert(s@.take(n as int) =~= s@);
    while j > 0 && is_ascii_ws_char(s.get_char(j - 1))
        invariant
            n == s@.len(),
            j <= n,
            ws_suffix(s@) == (n - j) + ws_suffix(s@.take(j as int)),
        decreases j,
    {
        assert(s@.take(j as int).drop_last() =~= s@.take(j - 1));
        j -= 1;
    }
    n - j
}

/// Whether `c` is ASCII white space.
fn is_ascii_ws_char(c: char) -> (r: bool)
    ensures
        r == is_ascii_ws(c),
{
    c == ' ' || c == '\t' || c == '\n' || c == '\x0C' || c == '\r'
}

/// Whether `v` holds `/1.`.
fn contains_http1(v: &str) -> (r: bool)
    ensures
        r == names_http1(v@),
{
    let n = v.unicode_len();
    let mut i: usize = 0;
    while i < n && n - i >= 3
        invariant
            n == v@.len(),
            i <= n,
            forall|j: int| 0 <= j < i ==> !#[trigger] http1_at(v@, j),
        decreases n - i,
    {
        if v.get_char(i) == '/' && v.get_char(i + 1) == '1' && v.get_char(i + 2) == '.' {
            assert(http1_at(v@, i as int));
            return true;
        }
        i += 1;
    }
    assert forall|j: int| !#[trigger] http1_at(v@, j) by {
        if http1_at(v@, j) {
            assert(j < i);
        }
    }
    false
}

impl Status {
    /// Reads the status line that opens the preamble `meta`.
    pub fn new(meta: &[u8]) -> (r: Result<Status, HttpError>)
        ensures
            r is Ok <==> status_of(meta@) is Some,
            r matches Ok(st) ==> status_of(meta@) == Some((st.http_version@, st.code, st.reason_phrase@)),
            r matches Err(e) ==> e == HttpError::MalformedStatusLine,
    {
        let line = get_line(meta);
        let t = match utf8_text(line) {
            Some(t) => t,
            None => {
                return Err(HttpError::MalformedStatusLine);
            },
        };
        let n = t.unicode_len();
        let a = t.substring_char(skip_ws(t), n);
        let an = a.unicode_len();
        let vl = skip_word(a);
        let version = a.substring_char(0, vl);
        let b = a.substring_char(vl, an);
        let bn = b.unicode_len();
        let c = b.substring_char(skip_ws(b), bn);
        let cn = c.unicode_len();
        let cl = skip_word(c);
        let code = c.substring_char(0, cl);
        let d = c.substring_char(cl, cn);
        let dn = d.unicode_len();
        let e = d.substring_char(skip_ws(d), dn);
        let en = e.unicode_len();
        let reason = e.substring_char(0, en - skip_ws_back(e));
        proof {
            assert(a@ =~= t@.skip(ws_prefix(t@) as int));
            assert(version@ =~= a@.take(word_prefix(a@) as int));
            assert(b@ =~= a@.skip(version@.len() as int));
            assert(c@ =~= b@.skip(ws_prefix(b@) as int));
            assert(code@ =~= c@.take(word_prefix(c@) as int));
            assert(d@ =~= c@.skip(code@.len() as int));
            assert(e@ =~= d@.skip(ws_prefix(d@) as int));
            assert(reason@ =~= e@.take(e@.len() - ws_suffix(e@)));
        }
        if vl == 0 || !contains_http1(version) {
            return Err(HttpError::MalformedStatusLine);
        }
        match parse_unsigned(code, 65535) {
            Some(v) => Ok(Status {
                http_version: version.to_owned(),
                code: v as u16,
                reason_phrase: reason.to_owned(),
            }),
            None => Err(HttpError::MalformedStatusLine),
        }
    }

    /// Whether the code is in the 2xx class.
    pub fn is_success(&self) -> (r: bool)
        ensures
            r == (200 <= self.code < 300),
    {
        200 <= self.code && self.code < 300
    }
}

} // verus!
