use http_chunked::framing::parse_chunk_size;
use http_chunked::lines::{end_of_line, get_line, skip_line};
use http_chunked::{Buffer, Context, HeaderIter, HttpError, HttpHeader, Method, Status};

#[test]
fn try_http_date() {
    let h = HttpHeader::from_name_value("Date", " Fri, 24 Nov 2023 06:58:19 GMT").unwrap();
    assert_eq!("Date: Fri, 24 Nov 2023 06:58:19 GMT", h.to_string());
}

#[test]
fn try_parse_host() {
    let h = HttpHeader::from_name_value("host", " test.host.example.org".trim()).unwrap();
    assert_eq!("Host: test.host.example.org", h.to_string());
}

#[test]
fn date_is_seconds_since_epoch() {
    let h = HttpHeader::from_name_value("date", "Thu, 01 Jan 1970 00:01:00 GMT").unwrap();
    assert_eq!(h, HttpHeader::Date(60));
    assert_eq!(HttpHeader::Date(0).to_string(), "Date: Thu, 01 Jan 1970 00:00:00 GMT");
    assert_eq!(
        HttpHeader::from_name_value("Date", "yesterday"),
        Err(HttpError::MalformedHeader)
    );
}

#[test]
fn host_is_written_canonically() {
    let h = HttpHeader::from_name_value("Host", "  EXAMPLE.com ").unwrap();
    assert_eq!(h, HttpHeader::Host("example.com".to_string()));
    assert_eq!(h.to_string(), "Host: example.com");
    assert_eq!(HttpHeader::from_name_value("Host", "a b"), Err(HttpError::MalformedHeader));
}

#[test]
fn content_length_values() {
    assert_eq!(HttpHeader::from_name_value("Content-Length", " 42 "), Ok(HttpHeader::ContentLength(42)));
    assert_eq!(HttpHeader::from_name_value("CONTENT-LENGTH", "+7"), Ok(HttpHeader::ContentLength(7)));
    assert_eq!(HttpHeader::from_name_value("content-length", "-1"), Err(HttpError::MalformedHeader));
    assert_eq!(HttpHeader::from_name_value("content-length", ""), Err(HttpError::MalformedHeader));
    assert_eq!(
        HttpHeader::from_name_value("content-length", "99999999999999999999999"),
        Err(HttpError::MalformedHeader)
    );
    assert_eq!(HttpHeader::ContentLength(1234).to_string(), "Content-Length: 1234");
    assert_eq!(HttpHeader::ContentLength(0).to_string(), "Content-Length: 0");
}

#[test]
fn transfer_encoding_values() {
    assert_eq!(
        HttpHeader::from_name_value("Transfer-Encoding", " chunked"),
        Ok(HttpHeader::TransferEncodingChunked)
    );
    assert_eq!(
        HttpHeader::from_name_value("transfer-encoding", "gzip, Chunked "),
        Ok(HttpHeader::TransferEncodingChunked)
    );
    assert_eq!(HttpHeader::from_name_value("transfer-encoding", "gzip"), Err(HttpError::MalformedHeader));
    assert_eq!(
        HttpHeader::TransferEncodingChunked.to_string(),
        "Transfer-Encoding: chunked"
    );
}

#[test]
fn other_headers() {
    assert_eq!(
        HttpHeader::from_name_value("Content-Type", " text/html "),
        Ok(HttpHeader::ContentType { media_type: "text/html".to_string() })
    );
    let h = HttpHeader::from_name_value("Foo", " Bar").unwrap();
    assert_eq!(h, HttpHeader::Custom { name: "Foo".to_string(), value: " Bar".to_string() });
    assert_eq!(h.to_string(), "Foo:  Bar");
}

#[test]
fn header_iteration_stops_at_a_malformed_line() {
    let mut it = HeaderIter::new(b"Content-Length: 3\r\nBroken\r\nX: y\r\n");
    assert_eq!(it.next(), Some(Ok(HttpHeader::ContentLength(3))));
    assert_eq!(it.next(), Some(Err(HttpError::MalformedHeader)));
    assert_eq!(it.next(), None);
}

#[test]
fn status_lines() {
    let st = Status::new(b"HTTP/1.0 200 OK\r\nA: b").unwrap();
    assert_eq!(st.http_version, "HTTP/1.0");
    assert_eq!(st.code, 200);
    assert_eq!(st.reason_phrase, "OK");
    assert!(st.is_success());
    let st = Status::new(b"HTTP/1.1 302").unwrap();
    assert_eq!(st.reason_phrase, "");
    assert!(!st.is_success());
    assert!(Status::new(b"HTTP/1.1 299 Fine").unwrap().is_success());
    assert!(Status::new(b"HTTP/1.1 300 Multiple").map(|s| !s.is_success()).unwrap());
    assert_eq!(Status::new(b"HTTP/2 200 OK").err(), Some(HttpError::MalformedStatusLine));
    assert_eq!(Status::new(b"HTTP/1.1 abc").err(), Some(HttpError::MalformedStatusLine));
    assert_eq!(Status::new(b"HTTP/1.1 70000 Big").err(), Some(HttpError::MalformedStatusLine));
    assert_eq!(Status::new(b"").err(), Some(HttpError::MalformedStatusLine));
}

#[test]
fn lines_of_bytes() {
    assert_eq!(end_of_line(b"ab\r\ncd"), 2);
    assert_eq!(end_of_line(b"abcd"), 4);
    assert_eq!(get_line(b"ab\r\ncd"), b"ab");
    assert_eq!(skip_line(b"ab\r\ncd"), b"cd");
    assert_eq!(skip_line(b"abcd"), b"");
}

#[test]
fn chunk_sizes() {
    assert_eq!(parse_chunk_size(b"1A"), Some(26));
    assert_eq!(parse_chunk_size(b"ff"), Some(255));
    assert_eq!(parse_chunk_size(b"0"), Some(0));
    assert_eq!(parse_chunk_size(b""), None);
    assert_eq!(parse_chunk_size(b"+3"), None);
    assert_eq!(parse_chunk_size(b"3 "), None);
    assert_eq!(parse_chunk_size(b"FFFFFFFFFFFFFFFFFF"), None);
}

#[test]
fn rolling_buffer_lines() {
    let mut b = Buffer::new();
    let mut line = Vec::new();
    b.refill(b"GET\r");
    assert_eq!(b.read_line(&mut line), Ok(false));
    assert_eq!(line, b"GET\r".to_vec());
    b.refill(b"\nrest");
    assert_eq!(b.read_line(&mut line), Ok(true));
    assert_eq!(line, b"GET".to_vec());
    assert_eq!(b.buffer(), b"rest");
    assert_eq!(b.slice(2), Some(&b"re"[..]));
    assert_eq!(b.slice(5), None);
    let mut dst = [0u8; 3];
    assert_eq!(b.read_some_bytes(&mut dst), Ok(3));
    assert_eq!(&dst, b"res");
    assert_eq!(b.read_some_bytes(&mut dst), Ok(1));
    assert_eq!(dst[0], b't');
    assert_eq!(b.read_some_bytes(&mut dst), Ok(0));
    assert!(!b.peer_closed());
    b.refill(b"");
    assert!(b.peer_closed());
    assert_eq!(b.read_some_bytes(&mut dst), Err(HttpError::StreamClosed));
    let mut partial = Vec::new();
    assert_eq!(b.read_until_and_chop(b"\r\n\r\n", &mut partial), Err(HttpError::StreamClosed));
}

#[test]
fn request_side_text() {
    let ctx = Context::new();
    assert_eq!(ctx.begin_request(Method::Get, "/"), "GET / HTTP/1.1\r\n");
    assert_eq!(ctx.begin_request(Method::Post, "/a?b=c"), "POST /a?b=c HTTP/1.1\r\n");
    assert_eq!(ctx.request_header(&HttpHeader::ContentLength(0)), "Content-Length: 0\r\n");
    assert_eq!(ctx.request_headers_end(), "\r\n");
    assert_eq!(Method::Get.as_str(), "GET");
    assert_eq!(Method::Post.to_string(), "POST");
    assert_eq!(Method::from_str("POST"), Some(Method::Post));
    assert_eq!(Method::from_str("get"), None);
}
