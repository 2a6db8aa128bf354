use vstd::prelude::*;
use crate::error::HttpError;

verus! {

/// `s` ends with the bytes of `d`.
pub open spec fn ends_with(s: Seq<u8>, d: Seq<u8>) -> bool {
    d.len() <= s.len() && s.subrange(s.len() - d.len(), s.len() as int) == d
}

/// No prefix of `s` longer than `from` bytes and at most `to` bytes long ends with `d`.
pub open spec fn no_delim_between(s: Seq<u8>, d: Seq<u8>, from: int, to: int) -> bool {
    forall|k: int| from < k <= to ==> !#[trigger] ends_with(s.take(k), d)
}

/// Capacity of the rolling buffer's storage.
pub const MAX_BUFFER_SIZE: usize = 4096;

/// Fixed-capacity storage for bytes received from the stream and not yet
/// consumed.
pub struct Buffer {
    inner: Vec<u8>,
    begin: usize,
    end: usize,
    closed: bool,
}

impl View for Buffer {
    type V = Seq<u8>;

    /// The bytes received and not yet consumed.
    closed spec fn view(&self) -> Seq<u8> {
        self.inner@.subrange(self.begin as int, self.end as int)
    }
}

impl Buffer {
    /// The storage has its fixed capacity and the cursors lie inside it.
    pub closed spec fn wf(&self) -> bool {
        &&& self.inner@.len() == MAX_BUFFER_SIZE
        &&& self.begin <= self.end <= self.inner@.len()
    }

    /// The last network read returned no bytes: the peer closed the stream.
    pub closed spec fn is_closed(&self) -> bool {
        self.closed
    }

    pub fn new() -> (r: Buffer)
        ensures
            r.wf(),
            r@ == Seq::<u8>::empty(),
            !r.is_closed(),
    {
        let mut inner: Vec<u8> = Vec::new();
        let mut i: usize = 0;
        while i < MAX_BUFFER_SIZE
            invariant
                i <= MAX_BUFFER_SIZE,
                inner@.len() == i,
            decreases MAX_BUFFER_SIZE - i,
        {
            inner.push(0);
            i += 1;
        }
        Buffer { inner, begin: 0, end: 0, closed: false }
    }

    /// Whether the peer has closed the stream.
    pub fn peer_closed(&self) -> (r: bool)
        ensures
            r == self.is_closed(),
    {
        self.closed
    }

    /// The bytes received and not yet consumed.
    pub fn buffer(&self) -> (r: &[u8])
        requires
            self.wf(),
        ensures
            r@ == self@,
            r@.len() <= MAX_BUFFER_SIZE,
    {
        vstd::slice::slice_subrange(self.inner.as_slice(), self.begin, self.end)
    }

    /// The first `until` unread bytes, if that many are buffered.
    pub fn slice(&self, until: usize) -> (r: Option<&[u8]>)
        requires
            self.wf(),
        ensures
            r is Some <==> until <= self@.len(),
            r matches Some(b) ==> b@ == self@.take(until as int),
    {
        if until <= self.end - self.begin {
            let all = self.buffer();
            Some(vstd::slice::slice_subrange(all, 0, until))
        } else {
            None
        }
    }

    /// Hands the buffer the bytes of one network read. They replace the
    /// storage from its start; an empty read marks the stream as closed.
    pub fn refill(&mut self, data: &[u8])
        requires
            old(self).wf(),
            data@.len() <= MAX_BUFFER_SIZE,
        ensures
            final(self).wf(),
            final(self)@ == data@,
            final(self).is_closed() == (data@.len() == 0),
    {
        let n = data.len();
        let mut i: usize = 0;
        while i < n
            invariant
                n == data@.len() <= MAX_BUFFER_SIZE,
                self.inner@.len() == MAX_BUFFER_SIZE,
                i <= n,
                forall|j: int| 0 <= j < i ==> self.inner@[j] == data@[j],
            decreases n - i,
        {
            self.inner.set(i, data[i]);
            i += 1;
        }
        self.begin = 0;
        self.end = n;
        self.closed = n == 0;
        assert(self@ =~= data@);
    }

    /// Consumes `until` unread bytes.
    /// Consumes `until` unread bytes, unless fewer are buffered; then
    /// nothing changes and `false` is returned.
    fn shift_buffer(&mut self, until: usize) -> (ok: bool)
        requires
            old(self).wf(),
        ensures
            final(self).wf(),
            ok == (until <= old(self)@.len()),
            ok ==> final(self)@ == old(self)@.skip(until as int),
            !ok ==> *final(self) == *old(self),
            final(self).is_closed() == old(self).is_closed(),
    {
        if until > self.end - self.begin {
            return false;
        }
        self.begin = self.begin + until;
        assert(self@ =~= old(self)@.skip(until as int));
        true
    }

    /// Copies as many unread bytes as fit into `buf` and consumes them.
    /// Returns how many were copied; a short count is no error. Where `buf`
    /// has room, nothing is buffered and the peer has closed the stream, no
    /// byte can come any more: that is `StreamClosed`.
    pub fn read_some_bytes(&mut self, buf: &mut [u8]) -> (r: Result<usize, HttpError>)
        requires
            old(self).wf(),
        ensures
            final(self).wf(),
            final(self).is_closed() == old(self).is_closed(),
            final(buf)@.len() == old(buf)@.len(),
            r is Err <==> old(buf)@.len() > 0 && old(self)@.len() == 0 && old(self).is_closed(),
            r is Err ==> r == Err::<usize, HttpError>(HttpError::StreamClosed) && *final(self)
                == *old(self) && final(buf)@ == old(buf)@,
            r matches Ok(n) ==> {
                &&& n == min(old(buf)@.len() as int, old(self)@.len() as int)
                &&& final(buf)@.take(n as int) == old(self)@.take(n as int)
                &&& final(buf)@.skip(n as int) == old(buf)@.skip(n as int)
                &&& final(self)@ == old(self)@.skip(n as int)
            },
    {
        if buf.len() > 0 && self.begin == self.end && self.closed {
            return Err(HttpError::StreamClosed);
        }
        let limit = buf.len();
        Ok(self.copy_into(buf, limit))
    }

    /// Copies at most `limit` unread bytes into the front of `buf` and
    /// consumes them.
    pub(crate) fn copy_into(&mut self, buf: &mut [u8], limit: usize) -> (n: usize)
        requires
            old(self).wf(),
            limit <= old(buf)@.len(),
        ensures
            final(self).wf(),
            n == min(limit as int, old(self)@.len() as int),
            n == 0 ==> *final(self) == *old(self) && final(buf)@ == old(buf)@,
            final(buf)@.len() == old(buf)@.len(),
            final(buf)@.take(n as int) == old(self)@.take(n as int),
            final(buf)@.skip(n as int) == old(buf)@.skip(n as int),
            final(self)@ == old(self)@.skip(n as int),
            final(self).is_closed() == old(self).is_closed(),
    {
        let avail = self.end - self.begin;
        let n = if limit < avail {
            limit
        } else {
            avail
        };
        let mut i: usize = 0;
        while i < n
            invariant
                self.wf(),
                *self == *old(self),
                n <= buf@.len(),
                n <= self@.len(),
                buf@.len() == old(buf)@.len(),
                i <= n,
                forall|j: int| 0 <= j < i ==> buf@[j] == self@[j],
                forall|j: int| n <= j < buf@.len() ==> buf@[j] == old(buf)@[j],
            decreases n - i,
        {
            buf[i] = self.inner[self.begin + i];
            i += 1;
        }
        assert(buf@.take(n as int) =~= old(self)@.take(n as int));
        assert(buf@.skip(n as int) =~= old(buf)@.skip(n as int));
        if n == 0 {
            assert(buf@ =~= old(buf)@);
            return 0;
        }
        let shifted = self.shift_buffer(n);
        assert(shifted);
        n
    }

    /// Moves unread bytes onto `line` until `line` ends with `delim`, looking
    /// for the delimiter only where it ends past the bytes `line` held
    /// before, so that a delimiter split between two network reads is found.
    /// On success the delimiter is removed from `line` and `true` returned;
    /// otherwise every unread byte has been moved and more are needed.
    pub(crate) fn scan_until(&mut self, delim: &[u8], line: &mut Vec<u8>) -> (found: bool)
        requires
            old(self).wf(),
        ensures
            final(self).wf(),
            final(self).is_closed() == old(self).is_closed(),
            line_scanned(old(line)@ + old(self)@, delim@, old(line)@.len() as int, found, final(line)@, final(self)@),
    {
        let ghost s = old(line)@ + old(self)@;
        let ghost l0 = old(line)@.len() as int;
        let mut found = false;
        while self.begin < self.end
            invariant_except_break
                no_delim_between(s, delim@, l0, line@.len() as int),
                !found,
            invariant
                self.wf(),
                self.closed == old(self).closed,
                line@ + self@ == s,
                l0 <= line@.len(),
                line@ == s.take(line@.len() as int),
            ensures
                found ==> ends_with(line@, delim@) && l0 < line@.len() && no_delim_between(
                    s,
                    delim@,
                    l0,
                    line@.len() - 1,
                ),
                !found ==> self.begin == self.end && no_delim_between(
                    s,
                    delim@,
                    l0,
                    line@.len() as int,
                ),
            decreases self.end - self.begin,
        {
            let b = self.inner[self.begin];
            line.push(b);
            self.begin = self.begin + 1;
            proof {
                assert(line@ =~= s.take(line@.len() as int));
            }
            if ends_with_bytes(line, delim) {
                found = true;
                break;
            }
        }
        if found {
            let ghost full = line@;
            let keep = line.len() - delim.len();
            line.truncate(keep);
            proof {
                assert(s.take(full.len() as int) == full);
                assert(line@ =~= s.take(keep as int));
                assert(self@ =~= s.skip(keep + delim@.len()));
            }
        } else {
            proof {
                assert(self@ =~= Seq::<u8>::empty());
                assert(line@ =~= s);
            }
        }
        found
    }

    /// Moves unread bytes onto `line`, as [`Buffer::scan_until`] does, and
    /// says whether the delimiter was found (`Ok(true)`), more bytes are
    /// needed (`Ok(false)`), or the peer closed the stream before the
    /// delimiter came (`StreamClosed`).
    pub fn read_until_and_chop(&mut self, delim: &[u8], line: &mut Vec<u8>) -> (r: Result<bool, HttpError>)
        requires
            old(self).wf(),
        ensures
            final(self).wf(),
            final(self).is_closed() == old(self).is_closed(),
            line_scanned(
                old(line)@ + old(self)@,
                delim@,
                old(line)@.len() as int,
                r == Ok::<bool, HttpError>(true),
                final(line)@,
                final(self)@,
            ),
            r == Ok::<bool, HttpError>(false) ==> !old(self).is_closed(),
            r is Err ==> r == Err::<bool, HttpError>(HttpError::StreamClosed) && old(self).is_closed(),
    {
        let found = self.scan_until(delim, line);
        if !found && self.closed {
            Err(HttpError::StreamClosed)
        } else {
            Ok(found)
        }
    }

    /// Reads one line terminated by CRLF; see [`Buffer::read_until_and_chop`].
    pub fn read_line(&mut self, line: &mut Vec<u8>) -> (r: Result<bool, HttpError>)
        requires
            old(self).wf(),
        ensures
            final(self).wf(),
            final(self).is_closed() == old(self).is_closed(),
            line_scanned(
                old(line)@ + old(self)@,
                crlf(),
                old(line)@.len() as int,
                r == Ok::<bool, HttpError>(true),
                final(line)@,
                final(self)@,
            ),
            r == Ok::<bool, HttpError>(false) ==> !old(self).is_closed(),
            r is Err ==> r == Err::<bool, HttpError>(HttpError::StreamClosed) && old(self).is_closed(),
    {
        let delim: [u8; 2] = [13u8, 10u8];
        let d = delim.as_slice();
        assert(d@ == crlf());
        self.read_until_and_chop(d, line)
    }
}

/// The outcome of scanning `s` for `d`, where the first `from` bytes of `s`
/// were scanned before: either the first delimiter ending past `from` was
/// found, `line` holds what precedes it and `rest` what follows it; or there
/// is none, and `line` holds all of `s`.
pub open spec fn line_scanned(s: Seq<u8>, d: Seq<u8>, from: int, found: bool, line: Seq<u8>, rest: Seq<u8>) -> bool {
    let k = (line.len() + d.len()) as int;
    if found {
        &&& from < k <= s.len()
        &&& ends_with(s.take(k), d)
        &&& no_delim_between(s, d, from, k - 1)
        &&& line == s.take(k - d.len())
        &&& rest == s.skip(k)
    } else {
        &&& no_delim_between(s, d, from, s.len() as int)
        &&& line == s
        &&& rest == Seq::<u8>::empty()
    }
}

/// The smaller of two integers.
pub open spec fn min(a: int, b: int) -> int {
    if a < b {
        a
    } else {
        b
    }
}

/// The line terminator, carriage return then line feed.
pub open spec fn crlf() -> Seq<u8> {
    seq![13u8, 10u8]
}

/// Whether `line` ends with `delim`.
fn ends_with_bytes(line: &Vec<u8>, delim: &[u8]) -> (r: bool)
    ensures
        r == ends_with(line@, delim@),
{
    let n = line.len();
    let d = delim.len();
    if d > n {
        return false;
    }
    let mut i: usize = 0;
    while i < d
        invariant
            d <= n,
            n == line@.len(),
            d == delim@.len(),
            i <= d,
            forall|j: int| 0 <= j < i ==> line@[n - d + j] == delim@[j],
        decreases d - i,
    {
        if line[n - d + i] != delim[i] {
            assert(line@.subrange(n - d, n as int)[i as int] != delim@[i as int]);
            return false;
        }
        i += 1;
    }
    assert(line@.subrange(n - d, n as int) =~= delim@);
    true
}

} // verus!
