//! Properties that relate several calls of the decoder, proved from what
//! the individual contracts state.
use vstd::prelude::*;
use crate::bbuf::{crlf, ends_with, line_scanned};
use crate::context::{body_step, more_body, State};
use crate::framing::{
    all_hex, body_rest, chunk_size_of, chunked_body, delim_at, first_delim, first_delim_at,
    hex_digit, hex_value, lemma_first_delim, prepend,
};

verus! {

/// What happens to a context between two snapshots.
pub enum Event {
    /// A body read that handed out these bytes.
    Read(Seq<u8>),
    /// A network read of these bytes, handed to the context once the
    /// decoder had used up what was buffered.
    Refill(Seq<u8>),
}

/// One event as the contracts of the body read and of the refill describe
/// it, from state `a` with unread stream `s` to state `b` with unread `t`.
pub open spec fn event_ok(a: State, s: Seq<u8>, e: Event, b: State, t: Seq<u8>) -> bool {
    match e {
        Event::Read(out) => body_step(a, s, out, b, t),
        Event::Refill(data) => b == a && t == s + data,
    }
}

/// A run of events over snapshots of a context's state and unread stream.
pub open spec fn run_ok(states: Seq<State>, unread: Seq<Seq<u8>>, events: Seq<Event>) -> bool {
    &&& states.len() == events.len() + 1
    &&& unread.len() == events.len() + 1
    &&& forall|i: int|
        0 <= i < events.len() ==> #[trigger] event_ok(
            states[i],
            unread[i],
            events[i],
            states[i + 1],
            unread[i + 1],
        )
}

/// The bytes that the reads of a run handed out, in order.
pub open spec fn handed_out(events: Seq<Event>) -> Seq<u8>
    decreases events.len(),
{
    if events.len() == 0 {
        Seq::<u8>::empty()
    } else {
        handed_out(events.drop_last()) + match events.last() {
            Event::Read(out) => out,
            Event::Refill(_) => Seq::<u8>::empty(),
        }
    }
}

/// The bytes that the network reads of a run delivered, in order.
pub open spec fn received(events: Seq<Event>) -> Seq<u8>
    decreases events.len(),
{
    if events.len() == 0 {
        Seq::<u8>::empty()
    } else {
        received(events.drop_last()) + match events.last() {
            Event::Read(_) => Seq::<u8>::empty(),
            Event::Refill(data) => data,
        }
    }
}

/// Over any run of body reads and network reads, however the stream was
/// cut into reads, the bytes handed out followed by the body still owed
/// are the body that the whole stream carries. So a run that ends exhausted
/// has handed out exactly that body: bytes are neither lost nor repeated,
/// and where a network read ended makes no difference.
pub proof fn law_run(states: Seq<State>, unread: Seq<Seq<u8>>, events: Seq<Event>, f: Seq<u8>)
    requires
        run_ok(states, unread, events),
    ensures
        body_rest(states[0], unread[0] + received(events) + f) == prepend(
            handed_out(events),
            body_rest(states.last(), unread.last() + f),
        ),
    decreases events.len(),
{
    let n = events.len() as int;
    if n == 0 {
        assert(unread[0] + Seq::<u8>::empty() =~= unread[0]);
        let r = body_rest(states[0], unread[0] + f);
        assert(Seq::<u8>::empty() + r.0 =~= r.0);
    } else {
        let ps = states.take(n);
        let pu = unread.take(n);
        let pe = events.drop_last();
        assert(run_ok(ps, pu, pe)) by {
            assert forall|i: int| 0 <= i < pe.len() implies #[trigger] event_ok(
                ps[i],
                pu[i],
                pe[i],
                ps[i + 1],
                pu[i + 1],
            ) by {
                assert(event_ok(states[i], unread[i], events[i], states[i + 1], unread[i + 1]));
            }
        }
        assert(event_ok(states[n - 1], unread[n - 1], events[n - 1], states[n], unread[n]));
        match events.last() {
            Event::Read(out) => {
                law_run(ps, pu, pe, f);
                assert(received(events) == received(pe) + Seq::<u8>::empty());
                assert(received(pe) + Seq::<u8>::empty() =~= received(pe));
                assert(body_rest(states[n - 1], unread[n - 1] + f) == prepend(out, body_rest(states[n], unread[n] + f)));
                let r = body_rest(states[n], unread[n] + f);
                assert(handed_out(pe) + (out + r.0) =~= (handed_out(pe) + out) + r.0);
            },
            Event::Refill(data) => {
                law_run(ps, pu, pe, data + f);
                assert(unread[0] + received(pe) + (data + f) =~= unread[0] + received(events) + f);
                assert(unread[n - 1] + (data + f) =~= unread[n] + f);
                assert(handed_out(events) =~= handed_out(pe));
            },
        }
    }
}

/// A body of fixed length is the announced number of bytes that follow the
/// preamble: after any run of reads from its start, what was handed out is
/// the stream's first bytes; while the body is not exhausted the state
/// counts exactly those bytes, so that more body is owed just while fewer
/// than the announced length were handed out; and once it is exhausted,
/// exactly the announced length was handed out.
pub proof fn law_fixed_length(n: usize, s: Seq<u8>, out: Seq<u8>, last: State, t: Seq<u8>)
    requires
        s.len() >= n,
        body_step(State::Content { content_length: n, bytes_read: 0 }, s, out, last, t),
        last is Exhausted || (last matches State::Content { content_length, bytes_read }
            && content_length == n && bytes_read <= n),
    ensures
        out == s.take(out.len() as int),
        last is Exhausted ==> out.len() == n,
        last matches State::Content { bytes_read, .. } ==> out.len() == bytes_read,
        more_body(last) <==> out.len() < n,
{
    let pad = Seq::<u8>::new(n as nat, |i: int| 0u8);
    assert(body_rest(State::Content { content_length: n, bytes_read: 0 }, s + pad) == prepend(out, body_rest(last, t + pad)));
    assert((s + pad).take(n as int) =~= s.take(n as int));
    match last {
        State::Content { content_length, bytes_read } => {
            let rest = (t + pad).take(n - bytes_read);
            assert(s.take(n as int) == out + rest);
            assert(out =~= s.take(n as int).take(out.len() as int));
            assert(s.take(n as int).take(out.len() as int) =~= s.take(out.len() as int));
        },
        _ => {
            assert(s.take(n as int) == out + Seq::<u8>::empty());
            assert(out =~= s.take(n as int));
        },
    }
}

/// The wire form of a chunked body: each chunk after its size line, each
/// followed by a line terminator, then a size line of zero.
pub open spec fn chunk_encoding(sizes: Seq<Seq<u8>>, chunks: Seq<Seq<u8>>) -> Seq<u8>
    decreases chunks.len(),
{
    if chunks.len() == 0 || sizes.len() == 0 {
        seq![48u8] + crlf()
    } else {
        sizes[0] + crlf() + chunks[0] + crlf() + chunk_encoding(sizes.skip(1), chunks.skip(1))
    }
}

/// The chunks one after another.
pub open spec fn flatten(chunks: Seq<Seq<u8>>) -> Seq<u8>
    decreases chunks.len(),
{
    if chunks.len() == 0 {
        Seq::<u8>::empty()
    } else {
        chunks[0] + flatten(chunks.skip(1))
    }
}

/// A size line of hexadecimal digits holds no line terminator, so the first
/// terminator after it is the one that ends it.
proof fn lemma_size_line_end(line: Seq<u8>, rest: Seq<u8>)
    requires
        all_hex(line),
    ensures
        first_delim_at(line + crlf() + rest, crlf(), line.len() as int),
{
    let s = line + crlf() + rest;
    assert(s.subrange(line.len() as int, line.len() as int + 2) =~= crlf());
    assert forall|j: int| 0 <= j < line.len() implies !#[trigger] delim_at(s, crlf(), j) by {
        assert(s[j] == line[j]);
        assert(hex_digit(line[j]) is Some);
        if delim_at(s, crlf(), j) {
            assert(s.subrange(j, j + 2)[0] == s[j]);
        }
    }
}

/// One chunk on the wire: its size line, its bytes and a terminator.
proof fn lemma_chunk_step(line: Seq<u8>, c: Seq<u8>, more: Seq<u8>)
    requires
        c.len() > 0,
        chunk_size_of(line) == Some(c.len()),
    ensures
        chunked_body(line + crlf() + c + crlf() + more) == prepend(c, chunked_body(more)),
{
    let s = line + crlf() + c + crlf() + more;
    let i = line.len() as int;
    let n = c.len() as int;
    let tail = s.skip(i + 2 + n);
    assert(first_delim(s, crlf()) == Some(i)) by {
        assert(s =~= line + crlf() + (c + crlf() + more));
        lemma_size_line_end(line, c + crlf() + more);
        lemma_first_delim(s, crlf(), i);
    }
    assert(s.take(i) =~= line);
    assert(s.subrange(i + 2, i + 2 + n) =~= c);
    assert(first_delim(tail, crlf()) == Some(0int)) by {
        assert(tail =~= crlf() + more);
        assert(tail.subrange(0, 2) =~= crlf());
        lemma_first_delim(tail, crlf(), 0);
    }
    assert(tail.skip(2) =~= more);
    reveal(chunked_body);
}

/// The size line of zero ends the body, whatever follows it.
proof fn lemma_last_chunk(f: Seq<u8>)
    ensures
        chunked_body(seq![48u8] + crlf() + f) == (Seq::<u8>::empty(), true),
{
    reveal(chunked_body);
    let z = seq![48u8];
    let s = z + crlf() + f;
    assert(all_hex(z)) by {
        assert(hex_digit(z[0]) is Some);
    }
    lemma_size_line_end(z, f);
    lemma_first_delim(s, crlf(), 1);
    assert(s.take(1) =~= z);
    assert(z.drop_last() =~= Seq::<u8>::empty());
    assert(hex_value(Seq::<u8>::empty()) == 0);
    assert(z.last() == 48u8);
    assert(hex_value(z) == 0);
    assert(chunk_size_of(z) == Some(0nat));
}

/// Decoding the wire form of a chunked body gives back the chunks one
/// after another and ends at the size line of zero, whatever follows it.
pub proof fn law_chunked_round_trip(sizes: Seq<Seq<u8>>, chunks: Seq<Seq<u8>>, f: Seq<u8>)
    requires
        sizes.len() == chunks.len(),
        forall|i: int|
            0 <= i < chunks.len() ==> chunks[i].len() > 0 && #[trigger] chunk_size_of(sizes[i])
                == Some(chunks[i].len()),
    ensures
        body_rest(State::Chunked { chunk_size: 0, bytes_read: 0 }, chunk_encoding(sizes, chunks) + f)
            == (flatten(chunks), true),
    decreases chunks.len(),
{
    if chunks.len() == 0 {
        lemma_last_chunk(f);
        assert(chunk_encoding(sizes, chunks) + f =~= seq![48u8] + crlf() + f);
    } else {
        let more = chunk_encoding(sizes.skip(1), chunks.skip(1)) + f;
        assert(chunk_size_of(sizes[0]) == Some(chunks[0].len()));
        lemma_chunk_step(sizes[0], chunks[0], more);
        assert(chunk_encoding(sizes, chunks) + f =~= sizes[0] + crlf() + chunks[0] + crlf() + more);
        assert forall|k: int| 0 <= k < chunks.skip(1).len() implies chunks.skip(1)[k].len() > 0
            && #[trigger] chunk_size_of(sizes.skip(1)[k]) == Some(chunks.skip(1)[k].len()) by {
            assert(chunk_size_of(sizes[k + 1]) == Some(chunks[k + 1].len()));
        }
        law_chunked_round_trip(sizes.skip(1), chunks.skip(1), f);
        assert(flatten(chunks) == chunks[0] + flatten(chunks.skip(1)));
    }
}

/// A run of reads over a chunked body, however its bytes arrived, that ends
/// exhausted has handed out exactly the chunks one after another.
pub proof fn law_chunked_run(
    sizes: Seq<Seq<u8>>,
    chunks: Seq<Seq<u8>>,
    states: Seq<State>,
    unread: Seq<Seq<u8>>,
    events: Seq<Event>,
    g: Seq<u8>,
)
    requires
        sizes.len() == chunks.len(),
        forall|i: int|
            0 <= i < chunks.len() ==> chunks[i].len() > 0 && #[trigger] chunk_size_of(sizes[i])
                == Some(chunks[i].len()),
        run_ok(states, unread, events),
        states[0] == (State::Chunked { chunk_size: 0, bytes_read: 0 }),
        unread[0] + received(events) == chunk_encoding(sizes, chunks) + g,
        states.last() is Exhausted,
    ensures
        handed_out(events) == flatten(chunks),
{
    let e = Seq::<u8>::empty();
    law_run(states, unread, events, e);
    law_chunked_round_trip(sizes, chunks, g);
    assert(unread[0] + received(events) + e =~= chunk_encoding(sizes, chunks) + g);
    assert(handed_out(events) + e =~= handed_out(events));
}

/// Scanning for a delimiter in two parts, the second after a scan of the
/// first found none, comes out as one scan of both parts together: a line
/// split between two network reads is read as if it had come whole.
pub proof fn law_split_scan(
    a: Seq<u8>,
    b: Seq<u8>,
    d: Seq<u8>,
    found: bool,
    line: Seq<u8>,
    rest: Seq<u8>,
)
    requires
        line_scanned(a, d, 0, false, a, Seq::<u8>::empty()),
        line_scanned(a + b, d, a.len() as int, found, line, rest),
    ensures
        line_scanned(a + b, d, 0, found, line, rest),
{
    let s = a + b;
    let k = (line.len() + d.len()) as int;
    let top = if found {
        k - 1
    } else {
        s.len() as int
    };
    assert forall|j: int| 0 < j <= top implies !#[trigger] ends_with(s.take(j), d) by {
        if j <= a.len() {
            assert(s.take(j) =~= a.take(j));
        }
    }
}

} // verus!
