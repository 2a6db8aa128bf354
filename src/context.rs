use vstd::prelude::*;
use vstd::string::*;
use crate::bbuf::{crlf, min, Buffer, MAX_BUFFER_SIZE};
use crate::error::HttpError;
use crate::framing::{
    after_chunk, body_rest, broken, chunk_size_of, chunked_body, first_delim_at, free_of,
    first_delim, lemma_first_delim, lemma_first_delim_extend, lemma_scan_found, lemma_scan_missed, parse_chunk_size, prepend,
};
use crate::headers::{headers_of, HeaderIter, HeaderView, HttpHeader};
use crate::lines::{after_line, lemma_free_of_none, skip_line};
use crate::method::{method_token, Method};
use crate::status_line::{status_of, Status};

verus! {

/// Where the decoder stands in reading a response body.
#[derive(Debug, Clone, Copy, PartialEq, Eq, Structural)]
pub enum State {
    /// No response has begun: the preamble is still to be read.
    SendingRequest,
    /// The body is `content_length` bytes long and `bytes_read` of them have
    /// been handed out.
    Content { content_length: usize, bytes_read: usize },
    /// The body is chunked. A `chunk_size` of zero means that a chunk-size
    /// line is to be read next; otherwise `bytes_read` bytes of the current
    /// chunk have been handed out, and once all have, the line that ends the
    /// chunk is to be read.
    Chunked { chunk_size: usize, bytes_read: usize },
    /// The whole body has been handed out.
    Exhausted,
}

/// The outcome of a step that may need more bytes from the stream.
#[derive(Debug, Clone, Copy, PartialEq, Eq)]
pub enum Progress<T> {
    /// The step is done.
    Ready(T),
    /// Every buffered byte has been used: read from the stream, hand the
    /// bytes to [`Context::refill`] and call again.
    Pending,
}

/// Whether body bytes may still come in a state.
pub open spec fn more_body(s: State) -> bool {
    match s {
        State::Content { content_length, bytes_read } => bytes_read < content_length,
        State::Chunked { .. } => true,
        _ => false,
    }
}

/// The counters of a state never run past their totals.
pub open spec fn state_wf(s: State) -> bool {
    match s {
        State::Content { content_length, bytes_read } => bytes_read <= content_length,
        State::Chunked { chunk_size, bytes_read } => bytes_read <= chunk_size,
        _ => true,
    }
}

/// In this state the decoder is reading a line: a chunk-size line, or the
/// line that ends a chunk.
pub open spec fn reads_line(s: State) -> bool {
    s matches State::Chunked { chunk_size, bytes_read } && bytes_read == chunk_size
}

/// One body read as its contract describes it: from state `before` with
/// unread stream `s` to state `after` with unread stream `t`, handing out
/// `out`. Whatever bytes `f` are still to come, what the stream yields as
/// body before the read is `out` followed by what it yields after.
pub open spec fn body_step(before: State, s: Seq<u8>, out: Seq<u8>, after: State, t: Seq<u8>) -> bool {
    forall|f: Seq<u8>| #[trigger] body_rest(before, s + f) == prepend(out, body_rest(after, t + f))
}

/// A read of a body of fixed length into `l` bytes of room, with `b` bytes
/// buffered, hands out as many bytes as fit, are buffered and belong to the
/// body, and counts them.
pub open spec fn fixed_length_read(
    before: State,
    l: int,
    b: int,
    r: Result<Progress<usize>, HttpError>,
    after: State,
) -> bool {
    match before {
        State::Content { content_length, bytes_read } => (l > 0 && (bytes_read == content_length
            || b > 0)) ==> match r {
            Ok(Progress::Ready(n)) => n == min(min(l, content_length - bytes_read), b) && after
                == if bytes_read + n == content_length {
                State::Exhausted
            } else {
                State::Content { content_length, bytes_read: (bytes_read + n) as usize }
            },
            _ => false,
        },
        _ => true,
    }
}

/// The framing that a response's headers select: chunked wherever a
/// `Transfer-Encoding: chunked` header occurs, else the length of the last
/// `Content-Length` header, else no body at all.
pub open spec fn framing_of(hs: Seq<HeaderView>) -> State
    decreases hs.len(),
{
    if hs.len() == 0 {
        State::Exhausted
    } else {
        let prev = framing_of(hs.drop_last());
        match hs.last() {
            HeaderView::TransferEncodingChunked => State::Chunked { chunk_size: 0, bytes_read: 0 },
            HeaderView::ContentLength(n) => if prev is Chunked {
                prev
            } else {
                State::Content { content_length: n, bytes_read: 0 }
            },
            _ => prev,
        }
    }
}

/// What a read reports once every buffered byte has been used.
pub open spec fn starved_result(closed: bool) -> Result<Progress<usize>, HttpError> {
    if closed {
        Err(HttpError::StreamClosed)
    } else {
        Ok(Progress::Pending)
    }
}

/// Reading the chunk-size line that ends at `i` in `s`: a line that is not
/// a hexadecimal number is `MalformedChunkSize`; otherwise the line and its
/// terminator are consumed and zero ends the body, while any other size
/// starts a chunk of that size.
pub open spec fn size_line_read(
    s: Seq<u8>,
    i: int,
    r: Result<bool, HttpError>,
    after: State,
    t: Seq<u8>,
) -> bool {
    match chunk_size_of(s.take(i)) {
        None => r == Err::<bool, HttpError>(HttpError::MalformedChunkSize),
        Some(n) => r == Ok::<bool, HttpError>(true) && t == s.skip(i + 2) && after == if n == 0 {
            State::Exhausted
        } else {
            State::Chunked { chunk_size: n as usize, bytes_read: 0 }
        },
    }
}

/// A read of chunk data from state `Chunked { cs, br }` with `br < cs`,
/// over unread stream `s` and into `l` bytes of room: as many bytes as fit,
/// are unread and belong to the chunk, and once the chunk is complete the
/// line that ends it, if it has arrived. Gives the result, the state after
/// and the stream left unread.
pub open spec fn chunk_data_read(
    cs: usize,
    br: usize,
    s: Seq<u8>,
    l: int,
    closed: bool,
) -> (Result<Progress<usize>, HttpError>, State, Seq<u8>) {
    if s.len() == 0 {
        (starved_result(closed), State::Chunked { chunk_size: cs, bytes_read: br }, s)
    } else {
        let n = min(min(l, cs - br), s.len() as int);
        let t = s.skip(n);
        if br + n < cs {
            (Ok(Progress::Ready(n as usize)), State::Chunked { chunk_size: cs, bytes_read: (br + n) as usize }, t)
        } else {
            match first_delim(t, crlf()) {
                Some(j) => (Ok(Progress::Ready(n as usize)), State::Chunked { chunk_size: 0, bytes_read: 0 }, t.skip(j + 2)),
                None => (Ok(Progress::Ready(n as usize)), State::Chunked { chunk_size: cs, bytes_read: cs }, t),
            }
        }
    }
}

/// A read from the chunk-size line at the front of `s` on.
pub open spec fn size_then_data_read(s: Seq<u8>, l: int, closed: bool) -> (
    Result<Progress<usize>, HttpError>,
    State,
    Seq<u8>,
) {
    match first_delim(s, crlf()) {
        None => (starved_result(closed), State::Chunked { chunk_size: 0, bytes_read: 0 }, s),
        Some(i) => match chunk_size_of(s.take(i)) {
            None => (Err(HttpError::MalformedChunkSize), State::Exhausted, s.skip(i + 2)),
            Some(n) => if n == 0 {
                (Ok(Progress::Ready(0)), State::Exhausted, s.skip(i + 2))
            } else {
                chunk_data_read(n as usize, 0, s.skip(i + 2), l, closed)
            },
        },
    }
}

/// What one read of a chunked body into `l > 0` bytes of room does, from
/// state `st` over unread stream `s`: the line that ends the previous
/// chunk, if it is still to be read; then a chunk-size line, if one is due;
/// then chunk data. Gives the result, the state after and the stream left
/// unread (the last two bind only a successful read). Where the bytes
/// received run out before a step can be taken, the read reports
/// `Pending`, or `StreamClosed` once the peer has closed the stream.
pub open spec fn chunked_read(st: State, s: Seq<u8>, l: int, closed: bool) -> (
    Result<Progress<usize>, HttpError>,
    State,
    Seq<u8>,
) {
    match st {
        State::Chunked { chunk_size, bytes_read } => if chunk_size == 0 {
            size_then_data_read(s, l, closed)
        } else if bytes_read < chunk_size {
            chunk_data_read(chunk_size, bytes_read, s, l, closed)
        } else {
            match first_delim(s, crlf()) {
                None => (starved_result(closed), st, s),
                Some(j) => size_then_data_read(s.skip(j + 2), l, closed),
            }
        },
        _ => (Err(HttpError::AlreadyExhausted), st, s),
    }
}

/// A read came out as `c` describes: its result, and for a successful
/// read also the state after and the stream left unread.
pub open spec fn read_outcome(
    c: (Result<Progress<usize>, HttpError>, State, Seq<u8>),
    r: Result<Progress<usize>, HttpError>,
    after: State,
    t: Seq<u8>,
) -> bool {
    r == c.0 && (r is Ok ==> after == c.1 && t == c.2)
}

/// Two body reads in a row make one.
pub proof fn lemma_body_step_trans(
    a: State,
    s: Seq<u8>,
    o1: Seq<u8>,
    b: State,
    t: Seq<u8>,
    o2: Seq<u8>,
    c: State,
    u: Seq<u8>,
)
    requires
        body_step(a, s, o1, b, t),
        body_step(b, t, o2, c, u),
    ensures
        body_step(a, s, o1 + o2, c, u),
{
    assert forall|f: Seq<u8>| #[trigger] body_rest(a, s + f) == prepend(o1 + o2, body_rest(c, u + f)) by {
        assert(body_rest(a, s + f) == prepend(o1, body_rest(b, t + f)));
        assert(body_rest(b, t + f) == prepend(o2, body_rest(c, u + f)));
        assert(o1 + (o2 + body_rest(c, u + f).0) =~= (o1 + o2) + body_rest(c, u + f).0);
    }
}

/// A read that hands out nothing and changes nothing.
pub proof fn lemma_body_step_refl(a: State, s: Seq<u8>)
    ensures
        body_step(a, s, Seq::<u8>::empty(), a, s),
{
    assert forall|f: Seq<u8>| #[trigger] body_rest(a, s + f) == prepend(Seq::<u8>::empty(), body_rest(a, s + f)) by {
        assert(Seq::<u8>::empty() + body_rest(a, s + f).0 =~= body_rest(a, s + f).0);
    }
}

/// Reading the line that ends a chunk leads to the next chunk-size line.
proof fn lemma_chunk_end(cs: usize, s: Seq<u8>, i: int)
    requires
        cs > 0,
        first_delim_at(s, crlf(), i),
    ensures
        body_step(
            State::Chunked { chunk_size: cs, bytes_read: cs },
            s,
            Seq::<u8>::empty(),
            State::Chunked { chunk_size: 0, bytes_read: 0 },
            s.skip(i + 2),
        ),
{
    let a = State::Chunked { chunk_size: cs, bytes_read: cs };
    let b = State::Chunked { chunk_size: 0, bytes_read: 0 };
    assert forall|f: Seq<u8>| #[trigger] body_rest(a, s + f) == prepend(Seq::<u8>::empty(), body_rest(b, s.skip(i + 2) + f)) by {
        reveal(after_chunk);
        lemma_first_delim_extend(s, crlf(), f, i);
        assert((s + f).skip(i + 2) =~= s.skip(i + 2) + f);
        let r = chunked_body(s.skip(i + 2) + f);
        assert(Seq::<u8>::empty() + r.0 =~= r.0);
    }
}

/// Reading a chunk-size line of a nonzero size starts that chunk.
proof fn lemma_chunk_start(s: Seq<u8>, i: int, n: usize)
    requires
        first_delim_at(s, crlf(), i),
        chunk_size_of(s.take(i)) == Some(n as nat),
        n > 0,
    ensures
        body_step(
            State::Chunked { chunk_size: 0, bytes_read: 0 },
            s,
            Seq::<u8>::empty(),
            State::Chunked { chunk_size: n, bytes_read: 0 },
            s.skip(i + 2),
        ),
{
    reveal(chunked_body);
    let a = State::Chunked { chunk_size: 0, bytes_read: 0 };
    let b = State::Chunked { chunk_size: n, bytes_read: 0 };
    assert forall|f: Seq<u8>| #[trigger] body_rest(a, s + f) == prepend(Seq::<u8>::empty(), body_rest(b, s.skip(i + 2) + f)) by {
        let t = s + f;
        let u = s.skip(i + 2) + f;
        reveal(after_chunk);
        lemma_first_delim_extend(s, crlf(), f, i);
        assert(t.take(i) =~= s.take(i));
        assert(t.skip(i + 2) =~= u);
        if i + 2 + n <= t.len() {
            assert(u.take(n as int) =~= t.subrange(i + 2, i + 2 + n));
            assert(u.skip(n as int) =~= t.skip(i + 2 + n));
        }
        let r = body_rest(b, u);
        assert(Seq::<u8>::empty() + r.0 =~= r.0);
    }
}

/// A chunk-size line of zero ends the body.
proof fn lemma_chunk_last(s: Seq<u8>, i: int)
    requires
        first_delim_at(s, crlf(), i),
        chunk_size_of(s.take(i)) == Some(0nat),
    ensures
        body_step(
            State::Chunked { chunk_size: 0, bytes_read: 0 },
            s,
            Seq::<u8>::empty(),
            State::Exhausted,
            s.skip(i + 2),
        ),
{
    reveal(chunked_body);
    let a = State::Chunked { chunk_size: 0, bytes_read: 0 };
    assert forall|f: Seq<u8>| #[trigger] body_rest(a, s + f) == prepend(Seq::<u8>::empty(), body_rest(State::Exhausted, s.skip(i + 2) + f)) by {
        lemma_first_delim_extend(s, crlf(), f, i);
        assert((s + f).take(i) =~= s.take(i));
        assert(Seq::<u8>::empty() + Seq::<u8>::empty() =~= Seq::<u8>::empty());
    }
}

/// A chunk-size line that is no hexadecimal number breaks the body off,
/// whatever follows.
proof fn lemma_chunk_bad(s: Seq<u8>, i: int, f: Seq<u8>)
    requires
        first_delim_at(s, crlf(), i),
        chunk_size_of(s.take(i)) is None,
    ensures
        body_rest(State::Chunked { chunk_size: 0, bytes_read: 0 }, s + f) == broken(),
{
    reveal(chunked_body);
    lemma_first_delim_extend(s, crlf(), f, i);
    assert((s + f).take(i) =~= s.take(i));
}

/// A line still being read, with no terminator in what is left of the
/// stream, yields nothing more.
proof fn lemma_line_cut(a: State, s: Seq<u8>)
    requires
        reads_line(a),
        free_of(s, crlf()),
    ensures
        body_rest(a, s) == broken(),
{
    reveal(chunked_body);
    reveal(after_chunk);
    if exists|i: int| first_delim_at(s, crlf(), i) {
        let i = choose|i: int| first_delim_at(s, crlf(), i);
        assert(crate::framing::delim_at(s, crlf(), i));
    }
}

/// Handing out `n` bytes of the current chunk.
proof fn lemma_chunk_data(cs: usize, br: usize, s: Seq<u8>, n: usize)
    requires
        br < cs,
        0 < n <= cs - br,
        n <= s.len(),
    ensures
        body_step(
            State::Chunked { chunk_size: cs, bytes_read: br },
            s,
            s.take(n as int),
            State::Chunked { chunk_size: cs, bytes_read: (br + n) as usize },
            s.skip(n as int),
        ),
{
    let a = State::Chunked { chunk_size: cs, bytes_read: br };
    let b = State::Chunked { chunk_size: cs, bytes_read: (br + n) as usize };
    let left = cs - br;
    assert forall|f: Seq<u8>| #[trigger] body_rest(a, s + f) == prepend(s.take(n as int), body_rest(b, s.skip(n as int) + f)) by {
        let t = s + f;
        let u = s.skip(n as int) + f;
        let out = s.take(n as int);
        assert(t =~= out + u);
        assert(body_rest(a, t) == if left <= t.len() {
            prepend(t.take(left), after_chunk(t.skip(left)))
        } else {
            (t, false)
        });
        if br + n == cs {
            assert(body_rest(b, u) == after_chunk(u));
            assert(t.skip(left) =~= u);
            assert(t.take(left) =~= out);
        } else {
            let rest = left - n;
            assert(body_rest(b, u) == if rest <= u.len() {
                prepend(u.take(rest), after_chunk(u.skip(rest)))
            } else {
                (u, false)
            });
            if left <= t.len() {
                assert(t.skip(left) =~= u.skip(rest));
                assert(t.take(left) =~= out + u.take(rest));
                let r = after_chunk(u.skip(rest));
                assert(t.take(left) + r.0 =~= out + (u.take(rest) + r.0));
            }
        }
    }
}

/// Handing out `n` bytes of a body of fixed length.
proof fn lemma_content_data(cl: usize, br: usize, s: Seq<u8>, n: usize)
    requires
        br < cl,
        0 < n <= cl - br,
        n <= s.len(),
    ensures
        body_step(
            State::Content { content_length: cl, bytes_read: br },
            s,
            s.take(n as int),
            if br + n == cl {
                State::Exhausted
            } else {
                State::Content { content_length: cl, bytes_read: (br + n) as usize }
            },
            s.skip(n as int),
        ),
{
    let a = State::Content { content_length: cl, bytes_read: br };
    let b = if br + n == cl {
        State::Exhausted
    } else {
        State::Content { content_length: cl, bytes_read: (br + n) as usize }
    };
    let left = cl - br;
    assert forall|f: Seq<u8>| #[trigger] body_rest(a, s + f) == prepend(s.take(n as int), body_rest(b, s.skip(n as int) + f)) by {
        let t = s + f;
        let u = s.skip(n as int) + f;
        assert(t =~= s.take(n as int) + u);
        if left <= t.len() {
            assert(t.take(left) =~= s.take(n as int) + u.take(left - n));
            if br + n == cl {
                assert(s.take(n as int) + Seq::<u8>::empty() =~= s.take(n as int));
                assert(u.take(0) =~= Seq::<u8>::empty());
            }
        }
    }
}

/// A read that hands out nothing, into a state where the stream received
/// so far yields nothing more, shows that it yielded nothing more before.
proof fn lemma_step_cut(a: State, s: Seq<u8>, b: State, t: Seq<u8>)
    requires
        body_step(a, s, Seq::<u8>::empty(), b, t),
        body_rest(b, t) == broken(),
    ensures
        body_rest(a, s) == broken(),
{
    let e = Seq::<u8>::empty();
    assert(body_rest(a, s + e) == prepend(e, body_rest(b, t + e)));
    assert(s + e =~= s);
    assert(t + e =~= t);
    assert(e + e =~= e);
}

/// The two bytes of a carriage return and line feed, twice: the end of the
/// preamble.
pub open spec fn blank_line() -> Seq<u8> {
    seq![13u8, 10u8, 13u8, 10u8]
}

/// One HTTP exchange over a byte stream that the caller reads and writes:
/// the rolling buffer, the response preamble and the body decoder's state.
pub struct Context {
    buffer: Buffer,
    response_meta: Vec<u8>,
    line: Vec<u8>,
    state: State,
}

impl Context {
    /// The buffer is well formed; a partial preamble or line holds no
    /// terminator yet; no partial line is kept where none is being read.
    pub closed spec fn wf(&self) -> bool {
        &&& self.buffer.wf()
        &&& state_wf(self.state)
        &&& self.state is SendingRequest ==> free_of(self.response_meta@, blank_line())
            && self.line@.len() == 0
        &&& reads_line(self.state) ==> free_of(self.line@, crlf())
        &&& !reads_line(self.state) && !(self.state is SendingRequest) ==> self.line@.len() == 0
    }

    /// The decoder's state.
    pub closed spec fn spec_state(&self) -> State {
        self.state
    }

    /// Bytes taken from the buffer into an unfinished preamble or line.
    pub closed spec fn partial(&self) -> Seq<u8> {
        if self.state is SendingRequest {
            self.response_meta@
        } else {
            self.line@
        }
    }

    /// Bytes received and not yet looked at.
    pub closed spec fn buffered(&self) -> Seq<u8> {
        self.buffer@
    }

    /// The stream as far as it has been received and not yet consumed.
    pub open spec fn unread(&self) -> Seq<u8> {
        self.partial() + self.buffered()
    }

    /// The peer has closed the stream.
    pub closed spec fn is_closed(&self) -> bool {
        self.buffer.is_closed()
    }

    /// The response preamble: status line and header lines, without the
    /// blank line that ends it.
    pub closed spec fn preamble(&self) -> Seq<u8> {
        self.response_meta@
    }

    /// A context for a new exchange: nothing received, no response begun.
    pub fn new() -> (r: Context)
        ensures
            r.wf(),
            r.spec_state() == State::SendingRequest,
            r.unread() == Seq::<u8>::empty(),
            !r.is_closed(),
    {
        let c = Context {
            buffer: Buffer::new(),
            response_meta: Vec::new(),
            line: Vec::new(),
            state: State::SendingRequest,
        };
        proof {
            assert(free_of(c.response_meta@, blank_line())) by {
                assert forall|j: int| !#[trigger] crate::framing::delim_at(c.response_meta@, blank_line(), j) by {}
            }
            assert(c.unread() =~= Seq::<u8>::empty());
        }
        c
    }

    /// Hands the context the bytes of one network read. They replace what
    /// is buffered, which the decoder has used up whenever it reported
    /// [`Progress::Pending`]; an empty read marks the stream as closed.
    pub fn refill(&mut self, data: &[u8])
        requires
            old(self).wf(),
            data@.len() <= MAX_BUFFER_SIZE,
        ensures
            final(self).wf(),
            final(self).spec_state() == old(self).spec_state(),
            final(self).partial() == old(self).partial(),
            final(self).buffered() == data@,
            final(self).preamble() == old(self).preamble(),
            final(self).is_closed() == (data@.len() == 0),
    {
        self.buffer.refill(data);
    }

    /// The decoder's state.
    pub fn state(&self) -> (r: State)
        ensures
            r == self.spec_state(),
    {
        self.state
    }

    /// Whether body bytes may still come: a chunked body cannot tell before
    /// its last chunk-size line is read.
    pub fn has_response(&self) -> (r: bool)
        ensures
            r == more_body(self.spec_state()),
    {
        match self.state {
            State::SendingRequest => false,
            State::Content { content_length, bytes_read } => bytes_read < content_length,
            State::Chunked { .. } => true,
            State::Exhausted => false,
        }
    }

    /// What a read reports once every buffered byte has been used.
    fn starved(&self) -> (r: Result<Progress<usize>, HttpError>)
        ensures
            r == if self.is_closed() {
                Err::<Progress<usize>, HttpError>(HttpError::StreamClosed)
            } else {
                Ok(Progress::Pending)
            },
    {
        if self.buffer.peer_closed() {
            Err(HttpError::StreamClosed)
        } else {
            Ok(Progress::Pending)
        }
    }

    /// Continues reading the current line.
    fn next_line(&mut self) -> (found: bool)
        requires
            old(self).wf(),
            reads_line(old(self).state),
        ensures
            final(self).buffer.wf(),
            final(self).state == old(self).state,
            final(self).response_meta == old(self).response_meta,
            final(self).is_closed() == old(self).is_closed(),
            found ==> {
                let s = old(self).unread();
                let i = final(self).line@.len() as int;
                &&& first_delim_at(s, crlf(), i)
                &&& final(self).line@ == s.take(i)
                &&& final(self).buffer@ == s.skip(i + 2)
            },
            !found ==> final(self).wf() && final(self).unread() == old(self).unread()
                && final(self).buffered().len() == 0 && free_of(final(self).line@, crlf()),
    {
        let ghost s = self.unread();
        let ghost from = self.line@.len() as int;
        let delim: [u8; 2] = [13u8, 10u8];
        let d = delim.as_slice();
        assert(d@ == crlf());
        let found = self.buffer.scan_until(d, &mut self.line);
        proof {
            assert(s.take(from) =~= old(self).line@);
            if found {
                lemma_scan_found(s, crlf(), from, (self.line@.len() + 2) as int);
            } else {
                lemma_scan_missed(s, crlf(), from);
                assert(self.unread() =~= s);
            }
        }
        found
    }

    /// Reads the line that ends a chunk, whose bytes have all been handed out.
    fn end_chunk(&mut self) -> (found: bool)
        requires
            old(self).wf(),
            old(self).state matches State::Chunked { chunk_size, bytes_read } && chunk_size > 0
                && bytes_read == chunk_size,
        ensures
            !(final(self).state is SendingRequest),
            final(self).response_meta == old(self).response_meta,
            final(self).wf(),
            final(self).is_closed() == old(self).is_closed(),
            found ==> final(self).state == (State::Chunked { chunk_size: 0, bytes_read: 0 })
                && body_step(old(self).state, old(self).unread(), Seq::<u8>::empty(), final(self).state, final(self).unread()),
            found ==> (first_delim(old(self).unread(), crlf()) matches Some(j)
                && final(self).unread() == old(self).unread().skip(j + 2)),
            !found ==> first_delim(old(self).unread(), crlf()) is None,
            !found ==> final(self).state == old(self).state && final(self).unread() == old(self).unread()
                && final(self).buffered().len() == 0
                && (final(self).is_closed() ==> body_rest(final(self).state, final(self).unread()) == broken()),
    {
        let ghost s = self.unread();
        let found = self.next_line();
        if found {
            let ghost i = self.line@.len() as int;
            proof {
                lemma_first_delim(s, crlf(), i);
            }
            self.line.clear();
            let cs = match self.state {
                State::Chunked { chunk_size, .. } => chunk_size,
                _ => 0,
            };
            self.state = State::Chunked { chunk_size: 0, bytes_read: 0 };
            proof {
                lemma_chunk_end(cs, s, i);
                assert(self.unread() =~= s.skip(i + 2));
                assert(free_of(self.line@, crlf())) by {
                    assert forall|j: int| !#[trigger] crate::framing::delim_at(self.line@, crlf(), j) by {}
                }
            }
        } else {
            proof {
                lemma_line_cut(self.state, self.unread());
                lemma_free_of_none(s, crlf());
            }
        }
        found
    }

    /// Reads a chunk-size line: a nonzero size starts that chunk, zero ends
    /// the body.
    fn start_chunk(&mut self) -> (r: Result<bool, HttpError>)
        requires
            old(self).wf(),
            old(self).state == (State::Chunked { chunk_size: 0, bytes_read: 0 }),
        ensures
            !(final(self).state is SendingRequest),
            final(self).response_meta == old(self).response_meta,
            final(self).wf(),
            final(self).is_closed() == old(self).is_closed(),
            r == Ok::<bool, HttpError>(true) ==> body_step(old(self).state, old(self).unread(), Seq::<u8>::empty(), final(self).state, final(self).unread())
                && (final(self).state is Exhausted || (final(self).state matches State::Chunked { chunk_size, bytes_read } && chunk_size > 0 && bytes_read == 0)),
            r == Ok::<bool, HttpError>(false) ==> final(self).state == old(self).state && final(self).unread() == old(self).unread()
                && final(self).buffered().len() == 0
                && (final(self).is_closed() ==> body_rest(final(self).state, final(self).unread()) == broken()),
            r is Err ==> r == Err::<bool, HttpError>(HttpError::MalformedChunkSize)
                && forall|f: Seq<u8>| #[trigger] body_rest(old(self).state, old(self).unread() + f) == broken(),
            r == Ok::<bool, HttpError>(false) <==> first_delim(old(self).unread(), crlf()) is None,
            first_delim(old(self).unread(), crlf()) matches Some(i) ==> size_line_read(
                old(self).unread(),
                i,
                r,
                final(self).state,
                final(self).unread(),
            ),
    {
        let ghost s = self.unread();
        let found = self.next_line();
        if !found {
            proof {
                lemma_line_cut(self.state, self.unread());
                lemma_free_of_none(s, crlf());
            }
            return Ok(false);
        }
        let ghost i = self.line@.len() as int;
        proof {
            lemma_first_delim(s, crlf(), i);
        }
        match parse_chunk_size(self.line.as_slice()) {
            None => {
                proof {
                    assert forall|f: Seq<u8>| #[trigger] body_rest(old(self).state, old(self).unread() + f) == broken() by {
                        lemma_chunk_bad(s, i, f);
                    }
                }
                self.line.clear();
                self.state = State::Exhausted;
                Err(HttpError::MalformedChunkSize)
            },
            Some(n) => {
                self.line.clear();
                if n == 0 {
                    self.state = State::Exhausted;
                    proof {
                        lemma_chunk_last(s, i);
                    }
                } else {
                    self.state = State::Chunked { chunk_size: n, bytes_read: 0 };
                    proof {
                        lemma_chunk_start(s, i, n);
                    }
                }
                proof {
                    assert(self.unread() =~= s.skip(i + 2));
                }
                Ok(true)
            },
        }
    }

    /// Hands out bytes of the current chunk, as many as fit, are buffered
    /// and belong to the chunk.
    fn chunk_data(&mut self, buf: &mut [u8]) -> (n: usize)
        requires
            old(self).wf(),
            old(self).state matches State::Chunked { chunk_size, bytes_read } && bytes_read < chunk_size,
        ensures
            !(final(self).state is SendingRequest),
            final(self).response_meta == old(self).response_meta,
            final(self).wf(),
            final(self).is_closed() == old(self).is_closed(),
            final(buf)@.len() == old(buf)@.len(),
            n <= old(buf)@.len(),
            n == 0 <==> old(buf)@.len() == 0 || old(self).buffered().len() == 0,
            n == 0 ==> *final(self) == *old(self) && final(buf)@ == old(buf)@,
            n > 0 ==> final(buf)@.skip(n as int) == old(buf)@.skip(n as int),
            n > 0 ==> body_step(
                old(self).state,
                old(self).unread(),
                final(buf)@.take(n as int),
                final(self).state,
                final(self).unread(),
            ),
            n > 0 ==> (final(self).state matches State::Chunked { chunk_size, bytes_read } && bytes_read > 0),
            old(self).unread() == old(self).buffered(),
            old(self).state matches State::Chunked { chunk_size, bytes_read } && n == min(
                min(old(buf)@.len() as int, chunk_size - bytes_read),
                old(self).buffered().len() as int,
            ),
            n > 0 ==> (old(self).state matches State::Chunked { chunk_size, bytes_read }
                && final(self).state == (State::Chunked { chunk_size, bytes_read: (bytes_read + n) as usize })),
            final(self).unread() == old(self).unread().skip(n as int),
    {
        let (cs, br) = match self.state {
            State::Chunked { chunk_size, bytes_read } => (chunk_size, bytes_read),
            _ => (1, 0),
        };
        let left = cs - br;
        let limit = if buf.len() < left {
            buf.len()
        } else {
            left
        };
        let ghost s = self.unread();
        proof {
            assert(s =~= self.buffer@);
        }
        let n = self.buffer.copy_into(buf, limit);
        if n > 0 {
            self.state = State::Chunked { chunk_size: cs, bytes_read: br + n };
            assert(self.unread() =~= s.skip(n as int));
            proof {
                lemma_chunk_data(cs, br, s, n);
                assert(self.unread() =~= s.skip(n as int));
                if br + n == cs {
                    assert(free_of(self.line@, crlf())) by {
                        assert forall|j: int| !#[trigger] crate::framing::delim_at(self.line@, crlf(), j) by {}
                    }
                }
            }
        } else {
            proof {
                assert(buf@ == old(buf)@);
                assert(s.skip(0) =~= s);
            }
        }
        n
    }

    /// Hands out bytes of a body of fixed length, as many as fit, are
    /// buffered and belong to the body.
    fn content_data(&mut self, buf: &mut [u8]) -> (n: usize)
        requires
            old(self).wf(),
            old(self).state matches State::Content { content_length, bytes_read } && bytes_read < content_length,
        ensures
            final(self).unread() == old(self).unread().skip(n as int),
            !(final(self).state is SendingRequest),
            final(self).response_meta == old(self).response_meta,
            final(self).wf(),
            final(self).is_closed() == old(self).is_closed(),
            final(buf)@.len() == old(buf)@.len(),
            old(self).state matches State::Content { content_length, bytes_read } && n == min(
                min(old(buf)@.len() as int, content_length - bytes_read),
                old(self).buffered().len() as int,
            ),
            n == 0 ==> *final(self) == *old(self) && final(buf)@ == old(buf)@,
            n > 0 ==> final(buf)@.skip(n as int) == old(buf)@.skip(n as int),
            n > 0 ==> body_step(
                old(self).state,
                old(self).unread(),
                final(buf)@.take(n as int),
                final(self).state,
                final(self).unread(),
            ),
            n > 0 ==> (old(self).state matches State::Content { content_length, bytes_read }
                && final(self).state == if bytes_read + n == content_length {
                State::Exhausted
            } else {
                State::Content { content_length, bytes_read: (bytes_read + n) as usize }
            }),
    {
        let (cl, br) = match self.state {
            State::Content { content_length, bytes_read } => (content_length, bytes_read),
            _ => (1, 0),
        };
        let left = cl - br;
        let limit = if buf.len() < left {
            buf.len()
        } else {
            left
        };
        let ghost s = self.unread();
        proof {
            assert(s =~= self.buffer@);
        }
        let n = self.buffer.copy_into(buf, limit);
        if n > 0 {
            if br + n == cl {
                self.state = State::Exhausted;
            } else {
                self.state = State::Content { content_length: cl, bytes_read: br + n };
            }
            proof {
                lemma_content_data(cl, br, s, n);
                assert(self.unread() =~= s.skip(n as int));
            }
        } else {
            proof {
                assert(buf@ == old(buf)@);
                assert(s.skip(0) =~= s);
            }
        }
        n
    }

    /// Hands out bytes of the current chunk and, once the chunk is complete,
    /// reads the line that ends it if it has arrived.
    fn chunk_data_and_end(&mut self, buf: &mut [u8]) -> (n: usize)
        requires
            old(self).wf(),
            old(self).state matches State::Chunked { chunk_size, bytes_read } && bytes_read < chunk_size,
            old(buf)@.len() > 0,
        ensures
            !(final(self).state is SendingRequest),
            final(self).response_meta == old(self).response_meta,
            final(self).wf(),
            final(self).is_closed() == old(self).is_closed(),
            final(buf)@.len() == old(buf)@.len(),
            n <= old(buf)@.len(),
            n == 0 <==> old(self).unread().len() == 0,
            n == 0 ==> *final(self) == *old(self) && final(buf)@ == old(buf)@,
            n > 0 ==> final(buf)@.skip(n as int) == old(buf)@.skip(n as int),
            n > 0 ==> body_step(
                old(self).state,
                old(self).unread(),
                final(buf)@.take(n as int),
                final(self).state,
                final(self).unread(),
            ),
            n > 0 ==> (old(self).state matches State::Chunked { chunk_size, bytes_read }
                && chunk_data_read(chunk_size, bytes_read, old(self).unread(), old(buf)@.len() as int, old(self).is_closed())
                == (Ok::<Progress<usize>, HttpError>(Progress::Ready(n)), final(self).state, final(self).unread())),
    {
        let ghost s = self.unread();
        let n = self.chunk_data(buf);
        if n == 0 {
            return 0;
        }
        let done = match self.state {
            State::Chunked { chunk_size, bytes_read } => bytes_read == chunk_size,
            _ => false,
        };
        if done {
            let ghost st3 = self.state;
            let ghost s3 = self.unread();
            if self.end_chunk() {
                proof {
                    lemma_body_step_trans(old(self).state, s, buf@.take(n as int), st3, s3, Seq::<u8>::empty(), self.state, self.unread());
                    assert(buf@.take(n as int) + Seq::<u8>::empty() =~= buf@.take(n as int));
                }
            }
        }
        n
    }

    /// One chunked body read into a nonempty destination.
    fn read_chunked(&mut self, buf: &mut [u8]) -> (r: Result<Progress<usize>, HttpError>)
        requires
            old(self).wf(),
            old(self).state is Chunked,
            old(buf)@.len() > 0,
        ensures
            old(self).buffered().len() == 0 ==> r == starved_result(old(self).is_closed())
                && final(self).state == old(self).state && final(self).unread() == old(self).unread(),
            read_outcome(
                chunked_read(old(self).state, old(self).unread(), old(buf)@.len() as int, old(self).is_closed()),
                r,
                final(self).state,
                final(self).unread(),
            ),
            r is Err ==> final(buf)@ == old(buf)@,
            !(final(self).state is SendingRequest),
            final(self).wf(),
            final(self).is_closed() == old(self).is_closed(),
            final(self).response_meta == old(self).response_meta,
            final(buf)@.len() == old(buf)@.len(),
            r matches Ok(Progress::Ready(n)) ==> n <= old(buf)@.len() && final(buf)@.skip(n as int)
                == old(buf)@.skip(n as int) && body_step(
                old(self).state,
                old(self).unread(),
                final(buf)@.take(n as int),
                final(self).state,
                final(self).unread(),
            ) && (n > 0 || final(self).state is Exhausted),
            r matches Ok(Progress::Pending) ==> final(buf)@ == old(buf)@ && body_step(
                old(self).state,
                old(self).unread(),
                Seq::<u8>::empty(),
                final(self).state,
                final(self).unread(),
            ) && final(self).buffered().len() == 0 && !final(self).is_closed(),
            r == Err::<Progress<usize>, HttpError>(HttpError::StreamClosed) ==> old(self).is_closed()
                && body_rest(old(self).state, old(self).unread()) == broken(),
            r == Err::<Progress<usize>, HttpError>(HttpError::MalformedChunkSize) ==> forall|f: Seq<u8>|
                #[trigger] body_rest(old(self).state, old(self).unread() + f) == broken(),
            r matches Err(e) ==> e == HttpError::StreamClosed || e == HttpError::MalformedChunkSize,
    {
        let ghost s0 = self.unread();
        proof {
            if self.buffer@.len() == 0 && reads_line(self.state) {
                assert(s0 =~= self.line@);
                lemma_free_of_none(s0, crlf());
            }
        }
        let ghost st0 = self.state;
        proof {
            lemma_body_step_refl(st0, s0);
        }
        let ending = match self.state {
            State::Chunked { chunk_size, bytes_read } => chunk_size > 0 && bytes_read == chunk_size,
            _ => false,
        };
        if ending {
            if !self.end_chunk() {
                return self.starved();
            }
        }
        let starting = match self.state {
            State::Chunked { chunk_size, .. } => chunk_size == 0,
            _ => false,
        };
        if starting {
            let ghost st1 = self.state;
            let ghost s1 = self.unread();
            match self.start_chunk() {
                Err(e) => {
                    proof {
                        assert forall|f: Seq<u8>| #[trigger] body_rest(st0, s0 + f) == broken() by {
                            assert(body_rest(st0, s0 + f) == prepend(Seq::<u8>::empty(), body_rest(st1, s1 + f)));
                            assert(body_rest(st1, s1 + f) == broken());
                            assert(Seq::<u8>::empty() + Seq::<u8>::empty() =~= Seq::<u8>::empty());
                        }
                    }
                    return Err(e);
                },
                Ok(false) => {
                    proof {
                        if self.is_closed() {
                            lemma_step_cut(st0, s0, st1, s1);
                        }
                    }
                    return self.starved();
                },
                Ok(true) => {
                    proof {
                        lemma_body_step_trans(st0, s0, Seq::<u8>::empty(), st1, s1, Seq::<u8>::empty(), self.state, self.unread());
                        assert(Seq::<u8>::empty() + Seq::<u8>::empty() =~= Seq::<u8>::empty());
                    }
                    if let State::Exhausted = self.state {
                        proof {
                            assert(buf@.skip(0) =~= old(buf)@.skip(0));
                            assert(buf@.take(0) =~= Seq::<u8>::empty());
                        }
                        return Ok(Progress::Ready(0));
                    }
                },
            }
        }
        let ghost st2 = self.state;
        let ghost s2 = self.unread();
        let n = self.chunk_data_and_end(buf);
        if n == 0 {
            proof {
                if self.is_closed() {
                    assert(s2 =~= Seq::<u8>::empty());
                    lemma_step_cut(st0, s0, st2, s2);
                }
            }
            return self.starved();
        }
        proof {
            lemma_body_step_trans(st0, s0, Seq::<u8>::empty(), st2, s2, buf@.take(n as int), self.state, self.unread());
            assert(Seq::<u8>::empty() + buf@.take(n as int) =~= buf@.take(n as int));
        }
        Ok(Progress::Ready(n))
    }

    /// Reads the next body bytes into `buf`, however the body is framed.
    /// A short count is no error: call again until the body is exhausted.
    /// With an empty `buf` nothing changes. Where the bytes buffered do not
    /// suffice, [`Progress::Pending`] asks for a network read first.
    pub fn response_body_chunk_read(&mut self, buf: &mut [u8]) -> (r: Result<Progress<usize>, HttpError>)
        requires
            old(self).wf(),
        ensures
            (old(self).spec_state() is Chunked && old(buf)@.len() > 0 && old(self).buffered().len() == 0)
                ==> r == starved_result(old(self).is_closed()) && final(self).spec_state()
                == old(self).spec_state() && final(self).unread() == old(self).unread(),
            r == Err::<Progress<usize>, HttpError>(HttpError::ResponseNotStarted) <==> old(self).spec_state() is SendingRequest,
            r == Err::<Progress<usize>, HttpError>(HttpError::AlreadyExhausted) <==> old(self).spec_state() is Exhausted,
            r is Err ==> final(buf)@ == old(buf)@,
            old(self).spec_state() is Chunked && old(buf)@.len() > 0 ==> read_outcome(
                chunked_read(old(self).spec_state(), old(self).unread(), old(buf)@.len() as int, old(self).is_closed()),
                r,
                final(self).spec_state(),
                final(self).unread(),
            ),
            (old(self).spec_state() matches State::Content { content_length, bytes_read } && bytes_read
                < content_length && old(buf)@.len() > 0 && old(self).buffered().len() == 0) ==> r
                == starved_result(old(self).is_closed()) && *final(self) == *old(self),
            old(self).spec_state() is Content ==> (r matches Ok(Progress::Ready(n)) ==> final(self).unread()
                == old(self).unread().skip(n as int)),
            final(self).wf(),
            final(self).is_closed() == old(self).is_closed(),
            final(self).preamble() == old(self).preamble(),
            !(old(self).spec_state() is SendingRequest) ==> !(final(self).spec_state() is SendingRequest),
            final(buf)@.len() == old(buf)@.len(),
            old(self).spec_state() is SendingRequest ==> r == Err::<Progress<usize>, HttpError>(
                HttpError::ResponseNotStarted,
            ) && *final(self) == *old(self),
            old(self).spec_state() is Exhausted ==> r == Err::<Progress<usize>, HttpError>(
                HttpError::AlreadyExhausted,
            ) && *final(self) == *old(self),
            (old(self).spec_state() is Content || old(self).spec_state() is Chunked) && old(buf)@.len()
                == 0 ==> r == Ok::<Progress<usize>, HttpError>(Progress::Ready(0)) && *final(self)
                == *old(self),
            r matches Ok(Progress::Ready(n)) ==> n <= old(buf)@.len() && final(buf)@.skip(n as int)
                == old(buf)@.skip(n as int) && body_step(
                old(self).spec_state(),
                old(self).unread(),
                final(buf)@.take(n as int),
                final(self).spec_state(),
                final(self).unread(),
            ) && (old(buf)@.len() > 0 ==> n > 0 || final(self).spec_state() is Exhausted),
            r matches Ok(Progress::Pending) ==> final(buf)@ == old(buf)@ && body_step(
                old(self).spec_state(),
                old(self).unread(),
                Seq::<u8>::empty(),
                final(self).spec_state(),
                final(self).unread(),
            ) && final(self).buffered().len() == 0 && !final(self).is_closed(),
            r == Err::<Progress<usize>, HttpError>(HttpError::StreamClosed) ==> old(self).is_closed()
                && body_rest(old(self).spec_state(), old(self).unread()) == broken(),
            r == Err::<Progress<usize>, HttpError>(HttpError::MalformedChunkSize) ==> old(self).spec_state() is Chunked
                && forall|f: Seq<u8>| #[trigger] body_rest(old(self).spec_state(), old(self).unread() + f) == broken(),
            r matches Err(e) ==> e == HttpError::StreamClosed || e == HttpError::MalformedChunkSize
                || e == HttpError::ResponseNotStarted || e == HttpError::AlreadyExhausted,
            fixed_length_read(
                old(self).spec_state(),
                old(buf)@.len() as int,
                old(self).buffered().len() as int,
                r,
                final(self).spec_state(),
            ),
    {
        match self.state {
            State::SendingRequest => {
                return Err(HttpError::ResponseNotStarted);
            },
            State::Exhausted => {
                return Err(HttpError::AlreadyExhausted);
            },
            _ => {},
        }
        if buf.len() == 0 {
            proof {
                assert(buf@.skip(0) =~= old(buf)@.skip(0));
                assert(buf@.take(0) =~= Seq::<u8>::empty());
                lemma_body_step_refl(self.state, self.unread());
            }
            return Ok(Progress::Ready(0));
        }
        match self.state {
            State::Content { content_length, bytes_read } => {
                if bytes_read == content_length {
                    let ghost s = self.unread();
                    self.state = State::Exhausted;
                    proof {
                        assert forall|f: Seq<u8>| #[trigger] body_rest(old(self).state, s + f) == prepend(Seq::<u8>::empty(), body_rest(State::Exhausted, s + f)) by {
                            assert((s + f).take(0) =~= Seq::<u8>::empty());
                            assert(Seq::<u8>::empty() + Seq::<u8>::empty() =~= Seq::<u8>::empty());
                        }
                        assert(buf@.skip(0) =~= old(buf)@.skip(0));
                        assert(buf@.take(0) =~= Seq::<u8>::empty());
                    }
                    return Ok(Progress::Ready(0));
                }
                let n = self.content_data(buf);
                if n == 0 {
                    proof {
                        lemma_body_step_refl(self.state, self.unread());
                    }
                    return self.starved();
                }
                Ok(Progress::Ready(n))
            },
            _ => self.read_chunked(buf),
        }
    }

    /// Continues reading the response preamble, up to the blank line that
    /// ends it, and selects the body's framing from its headers. Bytes that
    /// arrived after the blank line stay buffered as the body's first bytes.
    /// Once the preamble is complete, further calls change nothing.
    pub fn response_begin(&mut self) -> (r: Result<Progress<()>, HttpError>)
        requires
            old(self).wf(),
        ensures
            final(self).wf(),
            final(self).is_closed() == old(self).is_closed(),
            !(old(self).spec_state() is SendingRequest) ==> r == Ok::<Progress<()>, HttpError>(
                Progress::Ready(()),
            ) && *final(self) == *old(self),
            old(self).spec_state() is SendingRequest ==> match r {
                Ok(Progress::Pending) => {
                    &&& free_of(old(self).unread(), blank_line())
                    &&& final(self).spec_state() is SendingRequest
                    &&& final(self).unread() == old(self).unread()
                    &&& final(self).buffered().len() == 0
                    &&& !final(self).is_closed()
                },
                Ok(Progress::Ready(())) => {
                    let p = final(self).preamble();
                    &&& first_delim_at(old(self).unread(), blank_line(), p.len() as int)
                    &&& p == old(self).unread().take(p.len() as int)
                    &&& final(self).unread() == old(self).unread().skip(p.len() as int + 4)
                    &&& headers_of(after_line(p)) matches Some(hs) && final(self).spec_state()
                        == framing_of(hs)
                },
                Err(HttpError::StreamClosed) => old(self).is_closed() && free_of(
                    old(self).unread(),
                    blank_line(),
                ),
                Err(HttpError::MalformedHeader) => {
                    let p = final(self).preamble();
                    &&& first_delim_at(old(self).unread(), blank_line(), p.len() as int)
                    &&& p == old(self).unread().take(p.len() as int)
                    &&& headers_of(after_line(p)) is None
                    &&& final(self).spec_state() is Exhausted
                },
                _ => false,
            },
    {
        if !matches!(self.state, State::SendingRequest) {
            return Ok(Progress::Ready(()));
        }
        let ghost s = self.unread();
        let ghost from = self.response_meta@.len() as int;
        let delim: [u8; 4] = [13u8, 10u8, 13u8, 10u8];
        let d = delim.as_slice();
        assert(d@ == blank_line());
        let found = self.buffer.scan_until(d, &mut self.response_meta);
        proof {
            assert(s.take(from) =~= old(self).response_meta@);
        }
        if !found {
            proof {
                lemma_scan_missed(s, blank_line(), from);
                assert(self.unread() =~= s);
            }
            if self.buffer.peer_closed() {
                return Err(HttpError::StreamClosed);
            }
            return Ok(Progress::Pending);
        }
        proof {
            lemma_scan_found(s, blank_line(), from, (self.response_meta@.len() + 4) as int);
            assert(self.buffer@ == s.skip(self.response_meta@.len() as int + 4));
        }
        let mut headers = HeaderIter::new(skip_line(self.response_meta.as_slice()));
        let ghost all = headers@;
        let ghost mut seen: Seq<HeaderView> = Seq::empty();
        let mut framing = State::Exhausted;
        let ghost snap = *self;
        let ghost k = self.response_meta@.len() as int;
        loop
            invariant
                *self == snap,
                old(self).state is SendingRequest,
                s == old(self).unread(),
                self.buffer.is_closed() == old(self).buffer.is_closed(),
                first_delim_at(s, blank_line(), k),
                k == self.response_meta@.len(),
                self.response_meta@ == s.take(k),
                self.buffer@ == s.skip(k + 4),
                all == after_line(self.response_meta@),
                self.buffer.wf(),
                self.line@.len() == 0,
                self.state is SendingRequest,
                headers_of(all) == match headers_of(headers@) {
                    Some(rest) => Some(seen + rest),
                    None => None::<Seq<HeaderView>>,
                },
                framing == framing_of(seen),
                state_wf(framing),
                !(framing is SendingRequest),
                !reads_line(framing) || framing == (State::Chunked { chunk_size: 0, bytes_read: 0 }),
            ensures
                headers_of(all) == Some(seen),
            decreases headers@.len(),
        {
            let ghost before = headers@;
            match headers.next() {
                None => {
                    assert(seen + Seq::<HeaderView>::empty() =~= seen);
                    assert(headers_of(headers@) == Some(Seq::<HeaderView>::empty()));
                    break;
                },
                Some(Err(_)) => {
                    self.state = State::Exhausted;
                    return Err(HttpError::MalformedHeader);
                },
                Some(Ok(h)) => {
                    proof {
                        assert(seen.push(h@).drop_last() =~= seen);
                        match headers_of(headers@) {
                            Some(rest) => assert(seen + (seq![h@] + rest) =~= seen.push(h@) + rest),
                            None => {},
                        }
                    }
                    match h {
                        HttpHeader::TransferEncodingChunked => {
                            framing = State::Chunked { chunk_size: 0, bytes_read: 0 };
                        },
                        HttpHeader::ContentLength(n) => {
                            if !matches!(framing, State::Chunked { .. }) {
                                framing = State::Content { content_length: n, bytes_read: 0 };
                            }
                        },
                        _ => {},
                    }
                    proof {
                        seen = seen.push(h@);
                    }
                },
            }
        }
        self.state = framing;
        proof {
            assert(self.unread() =~= self.buffer@);
        }
        Ok(Progress::Ready(()))
    }

    /// The response's headers, read from its preamble.
    pub fn response_header_iter(&self) -> (r: HeaderIter)
        requires
            self.wf(),
        ensures
            r@ == after_line(self.preamble()),
    {
        HeaderIter::new(skip_line(self.response_meta.as_slice()))
    }

    /// The request line to send: method, target and protocol version.
    pub fn begin_request(&self, method: Method, resource: &str) -> (r: String)
        ensures
            r@ == method_token(method) + " "@ + resource@ + " HTTP/1.1\r\n"@,
    {
        let mut s = method.to_string();
        s.append(" ");
        s.append(resource);
        s.append(" HTTP/1.1\r\n");
        s
    }

    /// A header line to send, with its terminator.
    pub fn request_header(&self, header: &HttpHeader) -> (r: String)
        requires
            header.wf(),
        ensures
            r@ == crate::headers::header_text(header@) + "\r\n"@,
    {
        let mut s = header.to_string();
        s.append("\r\n");
        s
    }

    /// The blank line that ends the request's headers.
    pub fn request_headers_end(&self) -> (r: String)
        ensures
            r@ == "\r\n"@,
    {
        String::from_str("\r\n")
    }

    /// The response's status line, read from its preamble.
    pub fn status(&self) -> (r: Result<Status, HttpError>)
        requires
            self.wf(),
        ensures
            r is Ok <==> status_of(self.preamble()) is Some,
            r matches Ok(st) ==> status_of(self.preamble()) == Some(
                (st.http_version@, st.code, st.reason_phrase@),
            ),
            r matches Err(e) ==> e == HttpError::MalformedStatusLine,
    {
        Status::new(self.response_meta.as_slice())
    }

    /// The bytes received and not yet looked at.
    pub fn buffered_bytes(&self) -> (r: &[u8])
        requires
            self.wf(),
        ensures
            r@ == self.buffered(),
    {
        self.buffer.buffer()
    }

    /// The announced body length, where the body is framed by one.
    pub fn content_length(&self) -> (r: Option<usize>)
        ensures
            r == match self.spec_state() {
                State::Content { content_length, .. } => Some(content_length),
                _ => None,
            },
    {
        match self.state {
            State::Content { content_length, .. } => Some(content_length),
            _ => None,
        }
    }
}

} // verus!
