//! The calls this library makes into std and outside crates, each with the
//! contract it relies on.
use vstd::prelude::*;
use vstd::utf8::{decode_utf8, valid_utf8};

verus! {

/// The last second that an HTTP date can name: the end of year 9999.
pub const MAX_HTTP_DATE_SECS: u64 = 253402300799;

/// The seconds since the Unix epoch of the HTTP date that `s` spells, as
/// the `httpdate` crate reads it.
pub uninterp spec fn http_date_secs(s: Seq<char>) -> Option<u64>;

/// The IMF-fixdate text of a time given in seconds since the Unix epoch,
/// as the `httpdate` crate writes it.
pub uninterp spec fn http_date_text(secs: u64) -> Seq<char>;

/// The canonical text of the host that `s` names, as the `url` crate parses
/// and writes it back.
pub uninterp spec fn host_text(s: Seq<char>) -> Option<Seq<char>>;

/// The decimal digits of `n`, most significant first, without leading zeros.
pub open spec fn decimal_text(n: nat) -> Seq<char>
    decreases n,
{
    if n < 10 {
        seq![digit_char(n)]
    } else {
        decimal_text(n / 10).push(digit_char(n % 10))
    }
}

/// The ASCII digit of a value below ten.
pub open spec fn digit_char(d: nat) -> char {
    if d == 0 {
        '0'
    } else if d == 1 {
        '1'
    } else if d == 2 {
        '2'
    } else if d == 3 {
        '3'
    } else if d == 4 {
        '4'
    } else if d == 5 {
        '5'
    } else if d == 6 {
        '6'
    } else if d == 7 {
        '7'
    } else if d == 8 {
        '8'
    } else {
        '9'
    }
}

/// Relies on `std::str::from_utf8`: it accepts exactly the well-formed UTF-8
/// byte sequences and reads their characters.
#[verifier::external_body]
pub(crate) fn utf8_text(b: &[u8]) -> (r: Option<&str>)
    ensures
        r is Some <==> valid_utf8(b@),
        r matches Some(t) ==> t@ == decode_utf8(b@),
{
    std::str::from_utf8(b).ok()
}

/// Relies on `httpdate::parse_http_date`: the result depends on the text
/// alone, and dates past year 9999 are refused.
#[verifier::external_body]
pub(crate) fn parse_http_date(s: &str) -> (r: Option<u64>)
    ensures
        r == http_date_secs(s@),
        r matches Some(t) ==> t <= MAX_HTTP_DATE_SECS,
{
    match httpdate::parse_http_date(s) {
        Ok(t) => match t.duration_since(std::time::UNIX_EPOCH) {
            Ok(d) => Some(d.as_secs()),
            Err(_) => None,
        },
        Err(_) => None,
    }
}

/// Relies on `httpdate::fmt_http_date`, which panics past year 9999: the
/// text depends on the time alone.
#[verifier::external_body]
pub(crate) fn format_http_date(secs: u64) -> (r: String)
    requires
        secs <= MAX_HTTP_DATE_SECS,
    ensures
        r@ == http_date_text(secs),
{
    httpdate::fmt_http_date(std::time::UNIX_EPOCH + std::time::Duration::from_secs(secs))
}

/// Relies on `url::Host::parse` and on the `Display` of `url::Host`: whether
/// a host is accepted, and its canonical text, depend on the input alone.
#[verifier::external_body]
pub(crate) fn parse_host(s: &str) -> (r: Option<String>)
    ensures
        r is Some <==> host_text(s@) is Some,
        r matches Some(t) ==> host_text(s@) == Some(t@),
{
    match url::Host::parse(s) {
        Ok(h) => Some(h.to_string()),
        Err(_) => None,
    }
}

/// Relies on the `Display` of `usize`: decimal digits, without sign or
/// leading zeros.
#[verifier::external_body]
pub(crate) fn usize_text(n: usize) -> (r: String)
    ensures
        r@ == decimal_text(n as nat),
{
    n.to_string()
}

} // verus!
