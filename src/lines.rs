//! Lines of a byte sequence, each ended by a carriage return and line feed.
use vstd::prelude::*;
use crate::bbuf::crlf;
use crate::framing::{delim_at, first_delim, first_delim_at, free_of, lemma_first_delim};

verus! {

/// Where the first line of `s` ends: at its terminator, or at the end of `s`.
pub open spec fn line_end(s: Seq<u8>) -> int {
    match first_delim(s, crlf()) {
        Some(i) => if 0 <= i && i + 2 <= s.len() {
            i
        } else {
            s.len() as int
        },
        None => s.len() as int,
    }
}

/// The first line of `s`, without its terminator.
pub open spec fn first_line(s: Seq<u8>) -> Seq<u8> {
    s.take(line_end(s))
}

/// What follows the first line of `s` and its terminator.
pub open spec fn after_line(s: Seq<u8>) -> Seq<u8> {
    if line_end(s) == s.len() {
        Seq::<u8>::empty()
    } else {
        s.skip(line_end(s) + 2)
    }
}

/// A sequence without a terminator has no first occurrence of one.
pub proof fn lemma_free_of_none(s: Seq<u8>, d: Seq<u8>)
    requires
        free_of(s, d),
    ensures
        first_delim(s, d) is None,
{
    if exists|i: int| first_delim_at(s, d, i) {
        let i = choose|i: int| first_delim_at(s, d, i);
        assert(delim_at(s, d, i));
    }
}

/// Where the first line of `line` ends.
pub fn end_of_line(line: &[u8]) -> (r: usize)
    ensures
        r == line_end(line@),
{
    let n = line.len();
    let mut i: usize = 0;
    while i < n && i + 1 < n
        invariant
            n == line@.len(),
            i <= n,
            forall|j: int| 0 <= j < i ==> !#[trigger] delim_at(line@, crlf(), j),
        decreases n - i,
    {
        if line[i] == 13 && line[i + 1] == 10 {
            proof {
                assert(line@.subrange(i as int, i + 2) =~= crlf());
                lemma_first_delim(line@, crlf(), i as int);
            }
            return i;
        }
        proof {
            assert(line@.subrange(i as int, i + 2)[0] == line@[i as int]);
            assert(line@.subrange(i as int, i + 2)[1] == line@[i + 1]);
        }
        i += 1;
    }
    proof {
        assert forall|j: int| !#[trigger] delim_at(line@, crlf(), j) by {
            if j >= i && delim_at(line@, crlf(), j) {
                assert(j + 2 <= n);
            }
        }
        lemma_free_of_none(line@, crlf());
    }
    n
}

/// The first line of `line`, without its terminator.
pub fn get_line(line: &[u8]) -> (r: &[u8])
    ensures
        r@ == first_line(line@),
{
    let end = end_of_line(line);
    vstd::slice::slice_subrange(line, 0, end)
}

/// What follows the first line of `line` and its terminator.
pub fn skip_line(line: &[u8]) -> (r: &[u8])
    ensures
        r@ == after_line(line@),
{
    let end = end_of_line(line);
    if end == line.len() {
        let r = vstd::slice::slice_subrange(line, end, end);
        assert(r@ =~= Seq::<u8>::empty());
        r
    } else {
        vstd::slice::slice_subrange(line, end + 2, line.len())
    }
}

} // verus!
