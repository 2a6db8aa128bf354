//! Header lines of a response, and the headers of a request.
use vstd::prelude::*;
use vstd::string::*;
use vstd::utf8::{decode_utf8, valid_utf8};
use crate::error::HttpError;
use crate::lines::{after_line, first_line, get_line, skip_line};
use crate::outside::{
    decimal_text, format_http_date, host_text, http_date_secs, http_date_text, parse_host,
    parse_http_date, usize_text, utf8_text, MAX_HTTP_DATE_SECS,
};
use crate::text::{
    eq_ignore_ascii_case, find_char, index_of, names_match, parse_unsigned, trim, trim_str,
    unsigned_of,
};

verus! {

/// A header: the kinds that framing and common use need, and any other as
/// a name and a value.
#[derive(Debug, Clone, PartialEq, Eq)]
pub enum HttpHeader {
    Custom { name: String, value: String },
    ContentLength(usize),
    ContentType { media_type: String },
    /// A time in seconds since the Unix epoch.
    Date(u64),
    /// A host in its canonical text.
    Host(String),
    TransferEncodingChunked,
}

/// What a header holds, as values of the specification.
pub enum HeaderView {
    Custom { name: Seq<char>, value: Seq<char> },
    ContentLength(usize),
    ContentType { media_type: Seq<char> },
    Date(u64),
    Host(Seq<char>),
    TransferEncodingChunked,
}

impl View for HttpHeader {
    type V = HeaderView;

    open spec fn view(&self) -> HeaderView {
        match self {
            HttpHeader::Custom { name, value } => HeaderView::Custom { name: name@, value: value@ },
            HttpHeader::ContentLength(n) => HeaderView::ContentLength(*n),
            HttpHeader::ContentType { media_type } => HeaderView::ContentType {
                media_type: media_type@,
            },
            HttpHeader::Date(t) => HeaderView::Date(*t),
            HttpHeader::Host(h) => HeaderView::Host(h@),
            HttpHeader::TransferEncodingChunked => HeaderView::TransferEncodingChunked,
        }
    }
}

/// A comma-separated list holds the token `chunked`, in any ASCII case and
/// with white space around it.
pub open spec fn has_chunked(v: Seq<char>) -> bool
    decreases v.len(),
{
    let c = index_of(v, ',');
    names_match(trim(v.take(c)), "chunked"@) || (0 <= c < v.len() && has_chunked(v.skip(c + 1)))
}

/// The header that a name and a value make; `None` where a recognized
/// header's value cannot be read.
pub open spec fn header_of(name: Seq<char>, value: Seq<char>) -> Option<HeaderView> {
    if names_match(name, "content-length"@) {
        match unsigned_of(trim(value), usize::MAX as nat) {
            Some(n) => Some(HeaderView::ContentLength(n as usize)),
            None => None,
        }
    } else if names_match(name, "content-type"@) {
        Some(HeaderView::ContentType { media_type: trim(value) })
    } else if names_match(name, "date"@) {
        match http_date_secs(value) {
            Some(t) => Some(HeaderView::Date(t)),
            None => None,
        }
    } else if names_match(name, "host"@) {
        match host_text(trim(value)) {
            Some(h) => Some(HeaderView::Host(h)),
            None => None,
        }
    } else if names_match(name, "transfer-encoding"@) {
        if has_chunked(value) {
            Some(HeaderView::TransferEncodingChunked)
        } else {
            None
        }
    } else {
        Some(HeaderView::Custom { name, value })
    }
}

/// The header on the first line of `line`: UTF-8 text split at its first
/// colon into a name, trimmed, and a value.
pub open spec fn header_of_line(line: Seq<u8>) -> Option<HeaderView> {
    let l = first_line(line);
    if valid_utf8(l) {
        let t = decode_utf8(l);
        let c = index_of(t, ':');
        if 0 <= c < t.len() {
            header_of(trim(t.take(c)), t.skip(c + 1))
        } else {
            None
        }
    } else {
        None
    }
}

/// The headers on the lines of `s`; `None` where one of them is malformed.
pub open spec fn headers_of(s: Seq<u8>) -> Option<Seq<HeaderView>>
    decreases s.len(),
{
    if s.len() == 0 {
        Some(Seq::<HeaderView>::empty())
    } else {
        match header_of_line(s) {
            None => None,
            Some(h) => match headers_of(after_line(s)) {
                None => None,
                Some(hs) => Some(seq![h] + hs),
            },
        }
    }
}

/// The text of a header line, without its terminator.
pub open spec fn header_text(h: HeaderView) -> Seq<char> {
    match h {
        HeaderView::Custom { name, value } => name + ": "@ + value,
        HeaderView::ContentLength(n) => "Content-Length: "@ + decimal_text(n as nat),
        HeaderView::ContentType { media_type } => "Content-Type: "@ + media_type,
        HeaderView::Date(t) => "Date: "@ + http_date_text(t),
        HeaderView::Host(h) => "Host: "@ + h,
        HeaderView::TransferEncodingChunked => "Transfer-Encoding: chunked"@,
    }
}

impl HttpHeader {
    /// A date, if any, lies within the years that HTTP dates can name.
    pub open spec fn wf(&self) -> bool {
        self matches HttpHeader::Date(t) ==> t <= MAX_HTTP_DATE_SECS
    }

    /// The header that a name and a value make: recognized names, in any
    /// ASCII case, give their kinds; any other name a custom header.
    pub fn from_name_value(name: &str, value: &str) -> (r: Result<HttpHeader, HttpError>)
        ensures
            r is Ok <==> header_of(name@, value@) is Some,
            r matches Ok(h) ==> header_of(name@, value@) == Some(h@) && h.wf(),
            r matches Err(e) ==> e == HttpError::MalformedHeader,
    {
        if eq_ignore_ascii_case(name, "content-length") {
            match parse_unsigned(trim_str(value), usize::MAX) {
                Some(n) => Ok(HttpHeader::ContentLength(n)),
                None => Err(HttpError::MalformedHeader),
            }
        } else if eq_ignore_ascii_case(name, "content-type") {
            Ok(HttpHeader::ContentType { media_type: trim_str(value).to_owned() })
        } else if eq_ignore_ascii_case(name, "date") {
            match parse_http_date(value) {
                Some(t) => Ok(HttpHeader::Date(t)),
                None => Err(HttpError::MalformedHeader),
            }
        } else if eq_ignore_ascii_case(name, "host") {
            match parse_host(trim_str(value)) {
                Some(h) => Ok(HttpHeader::Host(h)),
                None => Err(HttpError::MalformedHeader),
            }
        } else if eq_ignore_ascii_case(name, "transfer-encoding") {
            transfer_encoding_accept(value)
        } else {
            Ok(HttpHeader::Custom { name: name.to_owned(), value: value.to_owned() })
        }
    }

    /// The header's line as it is sent, without its terminator.
    pub fn to_string(&self) -> (r: String)
        requires
            self.wf(),
        ensures
            r@ == header_text(self@),
    {
        match self {
            HttpHeader::Custom { name, value } => {
                let mut s = name.clone();
                s.append(": ");
                s.append(value.as_str());
                s
            },
            HttpHeader::ContentLength(n) => {
                let mut s = String::from_str("Content-Length: ");
                s.append(usize_text(*n).as_str());
                s
            },
            HttpHeader::ContentType { media_type } => {
                let mut s = String::from_str("Content-Type: ");
                s.append(media_type.as_str());
                s
            },
            HttpHeader::Date(t) => {
                let mut s = String::from_str("Date: ");
                s.append(format_http_date(*t).as_str());
                s
            },
            HttpHeader::Host(h) => {
                let mut s = String::from_str("Host: ");
                s.append(h.as_str());
                s
            },
            HttpHeader::TransferEncodingChunked => String::from_str("Transfer-Encoding: chunked"),
        }
    }
}

/// Accepts a `Transfer-Encoding` value that lists `chunked`.
fn transfer_encoding_accept(header_value: &str) -> (r: Result<HttpHeader, HttpError>)
    ensures
        r is Ok <==> has_chunked(header_value@),
        r matches Ok(h) ==> h == HttpHeader::TransferEncodingChunked,
        r matches Err(e) ==> e == HttpError::MalformedHeader,
{
    let mut rest: &str = header_value;
    loop
        invariant
            has_chunked(rest@) == has_chunked(header_value@),
        decreases rest@.len(),
    {
        let n = rest.unicode_len();
        let c = find_char(rest, ',');
        let token = trim_str(rest.substring_char(0, c));
        if eq_ignore_ascii_case(token, "chunked") {
            return Ok(HttpHeader::TransferEncodingChunked);
        }
        if c == n {
            return Err(HttpError::MalformedHeader);
        }
        rest = rest.substring_char(c + 1, n);
    }
}

/// Reads the header on the first line of `line`.
pub fn parse_header(line: &[u8]) -> (r: Result<HttpHeader, HttpError>)
    ensures
        r is Ok <==> header_of_line(line@) is Some,
        r matches Ok(h) ==> header_of_line(line@) == Some(h@) && h.wf(),
        r matches Err(e) ==> e == HttpError::MalformedHeader,
{
    let l = get_line(line);
    match utf8_text(l) {
        None => Err(HttpError::MalformedHeader),
        Some(t) => {
            let n = t.unicode_len();
            let c = find_char(t, ':');
            if c == n {
                return Err(HttpError::MalformedHeader);
            }
            let name = trim_str(t.substring_char(0, c));
            let value = t.substring_char(c + 1, n);
            assert(t@.subrange(0, c as int) =~= t@.take(c as int));
            assert(t@.subrange(c + 1, n as int) =~= t@.skip(c + 1));
            HttpHeader::from_name_value(name, value)
        },
    }
}

/// The headers on the lines of a byte sequence, one at a time.
pub struct HeaderIter {
    cursor: Vec<u8>,
}

impl View for HeaderIter {
    type V = Seq<u8>;

    /// The lines not yet read.
    closed spec fn view(&self) -> Seq<u8> {
        self.cursor@
    }
}

impl HeaderIter {
    pub fn new(cursor: &[u8]) -> (r: HeaderIter)
        ensures
            r@ == cursor@,
    {
        HeaderIter { cursor: vstd::slice::slice_to_vec(cursor) }
    }

    /// The header on the next line. A malformed line ends the iteration
    /// with an error.
    pub fn next(&mut self) -> (r: Option<Result<HttpHeader, HttpError>>)
        ensures
            old(self)@.len() == 0 ==> r is None && final(self)@ == old(self)@,
            old(self)@.len() > 0 ==> r is Some,
            r matches Some(Ok(h)) ==> header_of_line(old(self)@) == Some(h@) && h.wf() && final(self)@
                == after_line(old(self)@),
            r matches Some(Err(e)) ==> header_of_line(old(self)@) is None && e
                == HttpError::MalformedHeader && final(self)@.len() == 0,
    {
        if self.cursor.len() == 0 {
            return None;
        }
        match parse_header(self.cursor.as_slice()) {
            Ok(h) => {
                let rest = vstd::slice::slice_to_vec(skip_line(self.cursor.as_slice()));
                self.cursor = rest;
                Some(Ok(h))
            },
            Err(e) => {
                self.cursor = Vec::new();
                Some(Err(e))
            },
        }
    }
}

} // verus!
