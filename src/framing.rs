//! What the bytes of a response body mean under each framing rule, stated
//! over the stream of bytes still to be read.
use vstd::prelude::*;
use crate::bbuf::{crlf, ends_with, no_delim_between};
use crate::context::State;

verus! {

/// `d` occurs in `s` starting at index `i`.
pub open spec fn delim_at(s: Seq<u8>, d: Seq<u8>, i: int) -> bool {
    0 <= i && i + d.len() <= s.len() && s.subrange(i, i + d.len()) == d
}

/// `d` occurs in `s` at `i` and nowhere before.
pub open spec fn first_delim_at(s: Seq<u8>, d: Seq<u8>, i: int) -> bool {
    delim_at(s, d, i) && forall|j: int| 0 <= j < i ==> !#[trigger] delim_at(s, d, j)
}

/// Where the first occurrence of `d` in `s` starts, if there is one.
pub open spec fn first_delim(s: Seq<u8>, d: Seq<u8>) -> Option<int> {
    if exists|i: int| first_delim_at(s, d, i) {
        Some(choose|i: int| first_delim_at(s, d, i))
    } else {
        None
    }
}

/// `d` occurs nowhere in `s`.
pub open spec fn free_of(s: Seq<u8>, d: Seq<u8>) -> bool {
    forall|j: int| !#[trigger] delim_at(s, d, j)
}

/// What a stream still yields as body: the body bytes it carries, up to
/// the end of the body or to where the stream breaks off or turns
/// malformed, and whether the body is complete.
pub type BodyRest = (Seq<u8>, bool);

/// Prefixes `out` to what a stream still yields.
pub open spec fn prepend(out: Seq<u8>, rest: BodyRest) -> BodyRest {
    (out + rest.0, rest.1)
}

/// No further body bytes, and no complete body.
pub open spec fn broken() -> BodyRest {
    (Seq::<u8>::empty(), false)
}

/// The value of an ASCII hexadecimal digit.
pub open spec fn hex_digit(b: u8) -> Option<nat> {
    if 48 <= b <= 57 {
        Some((b - 48) as nat)
    } else if 97 <= b <= 102 {
        Some((b - 87) as nat)
    } else if 65 <= b <= 70 {
        Some((b - 55) as nat)
    } else {
        None
    }
}

/// Every byte of `s` is a hexadecimal digit.
pub open spec fn all_hex(s: Seq<u8>) -> bool {
    forall|i: int| 0 <= i < s.len() ==> #[trigger] hex_digit(s[i]) is Some
}

/// The number that the hexadecimal digits of `s` spell.
pub open spec fn hex_value(s: Seq<u8>) -> nat
    decreases s.len(),
{
    if s.len() == 0 {
        0
    } else {
        hex_value(s.drop_last()) * 16 + hex_digit(s.last()).unwrap_or(0)
    }
}

/// The size that a chunk-size line announces: one or more hexadecimal
/// digits and nothing else, with a value that fits a `usize`.
pub open spec fn chunk_size_of(line: Seq<u8>) -> Option<nat> {
    if line.len() > 0 && all_hex(line) && hex_value(line) <= usize::MAX {
        Some(hex_value(line))
    } else {
        None
    }
}

/// The body that a chunked stream `s` yields, read from a chunk-size line
/// on: each chunk is a size line, that many data bytes, and a line that ends
/// the chunk; a size of zero ends the body. A size line that is not a
/// hexadecimal number, or a stream that ends early, breaks the body off.
#[verifier::opaque]
pub open spec fn chunked_body(s: Seq<u8>) -> BodyRest
    decreases s.len(),
{
    match first_delim(s, crlf()) {
        None => broken(),
        Some(i) => match chunk_size_of(s.take(i)) {
            None => broken(),
            Some(n) => if n == 0 {
                (Seq::<u8>::empty(), true)
            } else if 0 <= i && i + 2 + n <= s.len() {
                let data = s.subrange(i + 2, i + 2 + n);
                let tail = s.skip(i + 2 + n);
                match first_delim(tail, crlf()) {
                    None => (data, false),
                    Some(j) => if 0 <= j && j + 2 <= tail.len() {
                        prepend(data, chunked_body(tail.skip(j + 2)))
                    } else {
                        (data, false)
                    },
                }
            } else if 0 <= i && i + 2 <= s.len() {
                (s.skip(i + 2), false)
            } else {
                broken()
            },
        },
    }
}

/// The body that follows once the line ending a chunk has been read.
#[verifier::opaque]
pub open spec fn after_chunk(s: Seq<u8>) -> BodyRest {
    match first_delim(s, crlf()) {
        None => broken(),
        Some(j) => if 0 <= j && j + 2 <= s.len() {
            chunked_body(s.skip(j + 2))
        } else {
            broken()
        },
    }
}

/// What the rest of the stream `s` yields as body in decoder state
/// `state`, where `s` is what is buffered followed by all that is still to
/// be received.
pub open spec fn body_rest(state: State, s: Seq<u8>) -> BodyRest {
    match state {
        State::SendingRequest => broken(),
        State::Exhausted => (Seq::<u8>::empty(), true),
        State::Content { content_length, bytes_read } => {
            let left = content_length - bytes_read;
            if 0 <= left <= s.len() {
                (s.take(left), true)
            } else {
                (s, false)
            }
        },
        State::Chunked { chunk_size, bytes_read } => {
            if chunk_size == 0 {
                chunked_body(s)
            } else if bytes_read < chunk_size {
                let left = chunk_size - bytes_read;
                if left <= s.len() {
                    prepend(s.take(left), after_chunk(s.skip(left)))
                } else {
                    (s, false)
                }
            } else {
                after_chunk(s)
            }
        },
    }
}

/// The first occurrence of a delimiter is the one a scan found.
pub proof fn lemma_first_delim(s: Seq<u8>, d: Seq<u8>, i: int)
    requires
        first_delim_at(s, d, i),
    ensures
        first_delim(s, d) == Some(i),
{
    let c = choose|k: int| first_delim_at(s, d, k);
    assert(first_delim_at(s, d, c));
    if c < i {
        assert(delim_at(s, d, c));
    } else if c > i {
        assert(delim_at(s, d, i));
    }
}

/// Bytes that follow do not move the first occurrence of a delimiter.
pub proof fn lemma_first_delim_extend(s: Seq<u8>, d: Seq<u8>, f: Seq<u8>, i: int)
    requires
        first_delim_at(s, d, i),
    ensures
        first_delim_at(s + f, d, i),
        first_delim(s + f, d) == Some(i),
{
    assert((s + f).subrange(i, i + d.len()) =~= s.subrange(i, i + d.len()));
    assert forall|j: int| 0 <= j < i implies !#[trigger] delim_at(s + f, d, j) by {
        assert((s + f).subrange(j, j + d.len()) =~= s.subrange(j, j + d.len()));
        assert(!delim_at(s, d, j));
    }
    lemma_first_delim(s + f, d, i);
}

/// A delimiter that a scan found ending at `k`, past a prefix of `from`
/// bytes free of it, is the first one.
pub proof fn lemma_scan_found(s: Seq<u8>, d: Seq<u8>, from: int, k: int)
    requires
        0 <= from < k <= s.len(),
        d.len() > 0,
        free_of(s.take(from), d),
        ends_with(s.take(k), d),
        no_delim_between(s, d, from, k - 1),
    ensures
        first_delim_at(s, d, k - d.len()),
{
    assert(s.take(k).subrange(k - d.len(), k) =~= s.subrange(k - d.len(), k));
    assert forall|j: int| 0 <= j < k - d.len() implies !#[trigger] delim_at(s, d, j) by {
        let e = j + d.len();
        if e <= from {
            assert(s.take(from).subrange(j, e) =~= s.subrange(j, e));
            assert(!delim_at(s.take(from), d, j));
        } else {
            assert(s.take(e).subrange(e - d.len(), e) =~= s.subrange(j, e));
            assert(!ends_with(s.take(e), d));
        }
    }
}

/// A scan that found no delimiter past a prefix free of it leaves a
/// sequence free of it.
pub proof fn lemma_scan_missed(s: Seq<u8>, d: Seq<u8>, from: int)
    requires
        0 <= from <= s.len(),
        d.len() > 0,
        free_of(s.take(from), d),
        no_delim_between(s, d, from, s.len() as int),
    ensures
        free_of(s, d),
{
    assert forall|j: int| !#[trigger] delim_at(s, d, j) by {
        if delim_at(s, d, j) {
            let e = j + d.len();
            if e <= from {
                assert(s.take(from).subrange(j, e) =~= s.subrange(j, e));
                assert(delim_at(s.take(from), d, j));
            } else {
                assert(s.take(e).subrange(e - d.len(), e) =~= s.subrange(j, e));
                assert(ends_with(s.take(e), d));
            }
        }
    }
}

/// A number spelled by more digits is no smaller than its leading part.
pub proof fn lemma_hex_prefix_le(s: Seq<u8>, i: int)
    requires
        0 <= i <= s.len(),
    ensures
        hex_value(s.take(i)) <= hex_value(s),
    decreases s.len(),
{
    if i < s.len() {
        assert(s.drop_last().take(i) =~= s.take(i));
        lemma_hex_prefix_le(s.drop_last(), i);
    } else {
        assert(s.take(i) =~= s);
    }
}

/// The value of one hexadecimal digit.
fn hex_digit_value(b: u8) -> (r: Option<u8>)
    ensures
        r matches Some(v) ==> hex_digit(b) == Some(v as nat) && v < 16,
        r is None ==> hex_digit(b) is None,
{
    if 48 <= b && b <= 57 {
        Some(b - 48)
    } else if 97 <= b && b <= 102 {
        Some(b - 87)
    } else if 65 <= b && b <= 70 {
        Some(b - 55)
    } else {
        None
    }
}

/// Parses a chunk-size line: hexadecimal digits only, at least one, with a
/// value that fits a `usize`. Chunk extensions are rejected.
pub fn parse_chunk_size(line: &[u8]) -> (r: Option<usize>)
    ensures
        r matches Some(v) ==> chunk_size_of(line@) == Some(v as nat),
        r is None ==> chunk_size_of(line@) is None,
{
    let n = line.len();
    if n == 0 {
        return None;
    }
    let mut v: usize = 0;
    let mut i: usize = 0;
    while i < n
        invariant
            n == line@.len(),
            i <= n,
            v as nat == hex_value(line@.take(i as int)),
            all_hex(line@.take(i as int)),
        decreases n - i,
    {
        let ghost pre = line@.take(i as int);
        let ghost next = line@.take(i + 1);
        assert(next.drop_last() =~= pre);
        assert(next.last() == line@[i as int]);
        match hex_digit_value(line[i]) {
            None => {
                assert(!all_hex(line@));
                return None;
            },
            Some(d) => {
                if v > (usize::MAX - d as usize) / 16 {
                    proof {
                        assert(hex_value(next) > usize::MAX) by (nonlinear_arith)
                            requires
                                hex_value(next) == v * 16 + d,
                                v > (usize::MAX - d) / 16,
                                d < 16,
                        ;
                        lemma_hex_prefix_le(line@, i + 1);
                    }
                    return None;
                }
                proof {
                    assert(v * 16 + d <= usize::MAX) by (nonlinear_arith)
                        requires
                            v <= (usize::MAX - d) / 16,
                            d < 16,
                    ;
                    assert forall|j: int| 0 <= j < next.len() implies #[trigger] hex_digit(next[j]) is Some by {
                        if j < i {
                            assert(next[j] == pre[j]);
                        }
                    }
                }
                v = v * 16 + d as usize;
                i += 1;
            },
        }
    }
    assert(line@.take(n as int) =~= line@);
    Some(v)
}

} // verus!
