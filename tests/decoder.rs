use http_chunked::{Context, HttpError, Progress, State};

/// Feeds `parts` one network read at a time until the preamble is read.
fn begin(ctx: &mut Context, parts: &mut Vec<Vec<u8>>) -> Result<(), HttpError> {
    loop {
        match ctx.response_begin()? {
            Progress::Ready(()) => return Ok(()),
            Progress::Pending => {
                let next = if parts.is_empty() { Vec::new() } else { parts.remove(0) };
                ctx.refill(&next);
            }
        }
    }
}

/// Reads the whole body with a destination of `room` bytes, feeding `parts`
/// whenever the decoder asks for more.
fn body(ctx: &mut Context, parts: &mut Vec<Vec<u8>>, room: usize) -> Result<Vec<u8>, HttpError> {
    let mut out = Vec::new();
    let mut buf = vec![0u8; room];
    while ctx.has_response() {
        match ctx.response_body_chunk_read(&mut buf)? {
            Progress::Ready(n) => out.extend_from_slice(&buf[..n]),
            Progress::Pending => {
                let next = if parts.is_empty() { Vec::new() } else { parts.remove(0) };
                ctx.refill(&next);
            }
        }
    }
    Ok(out)
}

fn parts(list: &[&str]) -> Vec<Vec<u8>> {
    list.iter().map(|p| p.as_bytes().to_vec()).collect()
}

fn run(list: &[&str], room: usize) -> Result<Vec<u8>, HttpError> {
    let mut ctx = Context::new();
    let mut p = parts(list);
    begin(&mut ctx, &mut p)?;
    body(&mut ctx, &mut p, room)
}

#[test]
fn fixed_length_in_two_byte_reads() {
    let mut ctx = Context::new();
    let mut p = parts(&["HTTP/1.1 200 OK\r\nContent-Length: 5\r\n\r\n", "He", "ll", "o"]);
    begin(&mut ctx, &mut p).unwrap();
    assert_eq!(ctx.state(), State::Content { content_length: 5, bytes_read: 0 });
    assert_eq!(ctx.content_length(), Some(5));
    let out = body(&mut ctx, &mut p, 16).unwrap();
    assert_eq!(out.len(), 5);
    assert_eq!(out, b"Hello".to_vec());
    assert_eq!(ctx.state(), State::Exhausted);
}

#[test]
fn fixed_length_counts_every_read() {
    let mut ctx = Context::new();
    let mut p = parts(&["HTTP/1.1 200 OK\r\nContent-Length: 7\r\n\r\nabc", "defgXYZ"]);
    begin(&mut ctx, &mut p).unwrap();
    let mut buf = [0u8; 2];
    let mut total = 0;
    let mut seen = Vec::new();
    while ctx.has_response() {
        match ctx.response_body_chunk_read(&mut buf).unwrap() {
            Progress::Ready(n) => {
                total += n;
                seen.extend_from_slice(&buf[..n]);
                assert_eq!(ctx.has_response(), total < 7);
            }
            Progress::Pending => {
                let next = p.remove(0);
                ctx.refill(&next);
            }
        }
    }
    assert_eq!(total, 7);
    assert_eq!(seen, b"abcdefg".to_vec());
    assert_eq!(ctx.buffered_bytes(), b"XYZ");
}

#[test]
fn fixed_length_zero_has_no_body() {
    let mut ctx = Context::new();
    let mut p = parts(&["HTTP/1.1 204 No Content\r\nContent-Length: 0\r\n\r\n"]);
    begin(&mut ctx, &mut p).unwrap();
    assert!(!ctx.has_response());
    let mut buf = [0u8; 4];
    assert_eq!(ctx.response_body_chunk_read(&mut buf), Ok(Progress::Ready(0)));
    assert_eq!(ctx.state(), State::Exhausted);
}

#[test]
fn chunked_wikipedia() {
    let mut ctx = Context::new();
    let mut p = parts(&[
        "HTTP/1.1 200 OK\r\nTransfer-Encoding: chunked\r\n\r\n",
        "4\r\nWiki\r\n5\r\npedia\r\n0\r\n\r\n",
    ]);
    begin(&mut ctx, &mut p).unwrap();
    assert_eq!(ctx.state(), State::Chunked { chunk_size: 0, bytes_read: 0 });
    let mut out = Vec::new();
    let mut buf = [0u8; 64];
    loop {
        match ctx.response_body_chunk_read(&mut buf).unwrap() {
            Progress::Ready(0) => break,
            Progress::Ready(n) => out.extend_from_slice(&buf[..n]),
            Progress::Pending => {
                let next = p.remove(0);
                ctx.refill(&next);
            }
        }
    }
    assert_eq!(out, b"Wikipedia".to_vec());
    assert_eq!(out.len(), 9);
    assert_eq!(ctx.state(), State::Exhausted);
    assert!(!ctx.has_response());
    assert_eq!(ctx.response_body_chunk_read(&mut buf), Err(HttpError::AlreadyExhausted));
}

#[test]
fn chunked_wins_over_content_length() {
    let mut ctx = Context::new();
    let mut p = parts(&[
        "HTTP/1.1 200 OK\r\nContent-Length: 0\r\nTransfer-Encoding: chunked\r\n\r\n",
        "0\r\n\r\n",
    ]);
    begin(&mut ctx, &mut p).unwrap();
    assert_eq!(ctx.state(), State::Chunked { chunk_size: 0, bytes_read: 0 });
    assert_eq!(ctx.content_length(), None);
    let mut buf = [0u8; 8];
    let mut got = ctx.response_body_chunk_read(&mut buf).unwrap();
    if got == Progress::Pending {
        ctx.refill(&p.remove(0));
        got = ctx.response_body_chunk_read(&mut buf).unwrap();
    }
    assert_eq!(got, Progress::Ready(0));
    assert_eq!(ctx.state(), State::Exhausted);
}

#[test]
fn chunked_wins_in_either_order() {
    let out = run(
        &["HTTP/1.1 200 OK\r\nTransfer-Encoding: chunked\r\nContent-Length: 3\r\n\r\n2\r\nok\r\n0\r\n\r\n"],
        8,
    );
    assert_eq!(out, Ok(b"ok".to_vec()));
}

#[test]
fn malformed_chunk_size_fails() {
    let mut ctx = Context::new();
    let mut p = parts(&["HTTP/1.1 200 OK\r\nTransfer-Encoding: chunked\r\n\r\nxyz\r\n"]);
    begin(&mut ctx, &mut p).unwrap();
    let mut buf = [0u8; 8];
    assert_eq!(ctx.response_body_chunk_read(&mut buf), Err(HttpError::MalformedChunkSize));
}

#[test]
fn chunk_extension_is_rejected() {
    let out = run(&["HTTP/1.1 200 OK\r\nTransfer-Encoding: chunked\r\n\r\n3;x=y\r\nabc\r\n0\r\n\r\n"], 8);
    assert_eq!(out, Err(HttpError::MalformedChunkSize));
}

#[test]
fn zero_length_destination_changes_nothing() {
    let mut ctx = Context::new();
    let mut p = parts(&["HTTP/1.1 200 OK\r\nTransfer-Encoding: chunked\r\n\r\n3\r\nabc\r\n0\r\n\r\n"]);
    begin(&mut ctx, &mut p).unwrap();
    let before = ctx.buffered_bytes().to_vec();
    let mut empty: [u8; 0] = [];
    for _ in 0..3 {
        assert_eq!(ctx.response_body_chunk_read(&mut empty), Ok(Progress::Ready(0)));
        assert_eq!(ctx.state(), State::Chunked { chunk_size: 0, bytes_read: 0 });
        assert_eq!(ctx.buffered_bytes(), &before[..]);
    }
    let mut ctx = Context::new();
    let mut p = parts(&["HTTP/1.1 200 OK\r\nContent-Length: 3\r\n\r\nabc"]);
    begin(&mut ctx, &mut p).unwrap();
    assert_eq!(ctx.response_body_chunk_read(&mut empty), Ok(Progress::Ready(0)));
    assert_eq!(ctx.state(), State::Content { content_length: 3, bytes_read: 0 });
}

#[test]
fn size_line_split_across_reads() {
    let head = "HTTP/1.1 200 OK\r\nTransfer-Encoding: chunked\r\n\r\n";
    let whole = run(&[head, "3\r\nabc\r\n0\r\n\r\n"], 8).unwrap();
    let split = run(&[head, "3", "\r\nabc\r\n0\r\n\r\n"], 8).unwrap();
    let straddled = run(&[head, "3\r", "\nab", "c\r", "\n0", "\r", "\n\r\n"], 8).unwrap();
    assert_eq!(whole, b"abc".to_vec());
    assert_eq!(split, whole);
    assert_eq!(straddled, whole);
}

#[test]
fn every_fragmentation_decodes_alike() {
    let wire = "HTTP/1.1 200 OK\r\nTransfer-Encoding: chunked\r\nX-Note: yes\r\n\r\n4\r\nWiki\r\n5\r\npedia\r\nA\r\n0123456789\r\n0\r\n\r\n";
    let bytes = wire.as_bytes();
    for size in 1..=bytes.len() {
        let pieces: Vec<String> = bytes
            .chunks(size)
            .map(|c| String::from_utf8(c.to_vec()).unwrap())
            .collect();
        let refs: Vec<&str> = pieces.iter().map(|s| s.as_str()).collect();
        for room in [1usize, 3, 64] {
            assert_eq!(run(&refs, room), Ok(b"Wikipedia0123456789".to_vec()));
        }
    }
}

#[test]
fn body_bytes_in_the_preamble_read_are_kept() {
    let out = run(&["HTTP/1.1 200 OK\r\nContent-Length: 6\r\n\r\nabcdef"], 4).unwrap();
    assert_eq!(out, b"abcdef".to_vec());
    let out = run(&["HTTP/1.1 200 OK\r\nTransfer-Encoding: chunked\r\n\r\n2\r\nhi\r\n0\r\n\r\n"], 4).unwrap();
    assert_eq!(out, b"hi".to_vec());
    let mut ctx = Context::new();
    ctx.refill(b"HTTP/1.1 200 OK\r\nContent-Length: 2\r\n\r\nxy");
    assert_eq!(ctx.response_begin(), Ok(Progress::Ready(())));
    assert_eq!(ctx.buffered_bytes(), b"xy");
}

#[test]
fn no_framing_header_means_no_body() {
    let mut ctx = Context::new();
    let mut p = parts(&["HTTP/1.0 200 OK\r\nServer: x\r\n\r\n"]);
    begin(&mut ctx, &mut p).unwrap();
    assert_eq!(ctx.state(), State::Exhausted);
    assert!(!ctx.has_response());
}

#[test]
fn read_before_response_fails() {
    let mut ctx = Context::new();
    let mut buf = [0u8; 4];
    assert_eq!(ctx.response_body_chunk_read(&mut buf), Err(HttpError::ResponseNotStarted));
    assert!(!ctx.has_response());
}

#[test]
fn stream_closed_before_preamble_end() {
    let mut ctx = Context::new();
    ctx.refill(b"HTTP/1.1 200 OK\r\n");
    assert_eq!(ctx.response_begin(), Ok(Progress::Pending));
    ctx.refill(b"");
    assert_eq!(ctx.response_begin(), Err(HttpError::StreamClosed));
}

#[test]
fn stream_closed_inside_body() {
    let out = run(&["HTTP/1.1 200 OK\r\nContent-Length: 9\r\n\r\nabc"], 8);
    assert_eq!(out, Err(HttpError::StreamClosed));
    let out = run(&["HTTP/1.1 200 OK\r\nTransfer-Encoding: chunked\r\n\r\n5\r\nab"], 8);
    assert_eq!(out, Err(HttpError::StreamClosed));
}

#[test]
fn malformed_header_fails_the_preamble() {
    let mut ctx = Context::new();
    ctx.refill(b"HTTP/1.1 200 OK\r\nContent-Length: ten\r\n\r\n");
    assert_eq!(ctx.response_begin(), Err(HttpError::MalformedHeader));
    let mut ctx = Context::new();
    ctx.refill(b"HTTP/1.1 200 OK\r\nno colon here\r\n\r\n");
    assert_eq!(ctx.response_begin(), Err(HttpError::MalformedHeader));
}

#[test]
fn status_of_the_response() {
    let mut ctx = Context::new();
    ctx.refill(b"HTTP/1.1 404 Not Found\r\nContent-Length: 0\r\n\r\n");
    assert_eq!(ctx.response_begin(), Ok(Progress::Ready(())));
    let st = ctx.status().unwrap();
    assert_eq!(st.http_version, "HTTP/1.1");
    assert_eq!(st.code, 404);
    assert_eq!(st.reason_phrase, "Not Found");
    assert!(!st.is_success());
    let mut it = ctx.response_header_iter();
    assert_eq!(it.next(), Some(Ok(http_chunked::HttpHeader::ContentLength(0))));
    assert_eq!(it.next(), None);
}

#[test]
fn read_before_refill_asks_for_bytes() {
    let mut ctx = Context::new();
    ctx.refill(b"HTTP/1.1 200 OK\r\nContent-Length: 5\r\n\r\n");
    assert_eq!(ctx.response_begin(), Ok(Progress::Ready(())));
    let mut buf = [7u8; 16];
    let mut out = Vec::new();
    let mut parts = parts(&["He", "ll", "o"]);
    while ctx.has_response() {
        match ctx.response_body_chunk_read(&mut buf) {
            Ok(Progress::Ready(n)) => out.extend_from_slice(&buf[..n]),
            Ok(Progress::Pending) => {
                let next = parts.remove(0);
                ctx.refill(&next);
            }
            Err(e) => panic!("unexpected {:?}", e),
        }
    }
    assert_eq!(out, b"Hello".to_vec());
    assert_eq!(ctx.state(), State::Exhausted);
}

#[test]
fn errors_leave_the_destination_alone() {
    let mut ctx = Context::new();
    ctx.refill(b"HTTP/1.1 200 OK\r\nContent-Length: 4\r\n\r\n");
    assert_eq!(ctx.response_begin(), Ok(Progress::Ready(())));
    ctx.refill(b"");
    let mut buf = [9u8; 4];
    assert_eq!(ctx.response_body_chunk_read(&mut buf), Err(HttpError::StreamClosed));
    assert_eq!(buf, [9u8; 4]);
    assert_eq!(ctx.state(), State::Content { content_length: 4, bytes_read: 0 });

    let mut ctx = Context::new();
    ctx.refill(b"HTTP/1.1 200 OK\r\nTransfer-Encoding: chunked\r\n\r\nxyz\r\n");
    assert_eq!(ctx.response_begin(), Ok(Progress::Ready(())));
    let mut buf = [9u8; 4];
    assert_eq!(ctx.response_body_chunk_read(&mut buf), Err(HttpError::MalformedChunkSize));
    assert_eq!(buf, [9u8; 4]);

    let mut ctx = Context::new();
    let mut buf = [9u8; 4];
    assert_eq!(ctx.response_body_chunk_read(&mut buf), Err(HttpError::ResponseNotStarted));
    assert_eq!(buf, [9u8; 4]);
}

#[test]
fn chunk_end_is_consumed_exactly() {
    let mut ctx = Context::new();
    ctx.refill(b"HTTP/1.1 200 OK\r\nTransfer-Encoding: chunked\r\n\r\n3\r\nabc\r\n2\r\n");
    assert_eq!(ctx.response_begin(), Ok(Progress::Ready(())));
    let mut buf = [0u8; 8];
    assert_eq!(ctx.response_body_chunk_read(&mut buf), Ok(Progress::Ready(3)));
    assert_eq!(&buf[..3], b"abc");
    assert_eq!(ctx.state(), State::Chunked { chunk_size: 0, bytes_read: 0 });
    assert_eq!(ctx.buffered_bytes(), b"2\r\n");
    assert_eq!(ctx.response_body_chunk_read(&mut buf), Ok(Progress::Pending));
    assert_eq!(ctx.state(), State::Chunked { chunk_size: 2, bytes_read: 0 });
}
