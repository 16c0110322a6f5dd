//! The response parser and the body sinks.

use std::cell::RefCell;
use std::rc::Rc;

use mininet::http::{parse_content_range, parse_status, ParseError, ResponseParser, MAX_HEAD};
use mininet::{BodySink, BufferSink, ContentRange};

/// Keeps every byte, where the test can see it.
struct Shared(Rc<RefCell<Vec<u8>>>);

impl BodySink for Shared {
    fn write(&mut self, data: &[u8]) {
        self.0.borrow_mut().extend_from_slice(data);
    }

    fn written(&self) -> u64 {
        self.0.borrow().len() as u64
    }

    fn overflowed(&self) -> bool {
        false
    }
}

/// Discards the body; the parser tests only look at the head.
struct NullSink;

impl BodySink for NullSink {
    fn write(&mut self, _data: &[u8]) {}

    fn written(&self) -> u64 {
        0
    }

    fn overflowed(&self) -> bool {
        false
    }
}

const GUARD: usize = 64;
const GUARD_BYTE: u8 = 0xA5;

/// A buffer with guard bytes, so that a write out of bounds is detected.
struct Guarded {
    mem: Vec<u8>,
    cap: usize,
}

impl Guarded {
    fn new(cap: usize) -> Self {
        Guarded { mem: vec![GUARD_BYTE; cap + 2 * GUARD], cap }
    }

    fn sink(&mut self) -> BufferSink<'_> {
        let cap = self.cap;
        BufferSink::new(&mut self.mem[GUARD..GUARD + cap])
    }

    /// True when neither guard band was touched.
    fn intact(&self) -> bool {
        self.mem[..GUARD].iter().all(|&b| b == GUARD_BYTE)
            && self.mem[GUARD + self.cap..].iter().all(|&b| b == GUARD_BYTE)
    }

    fn body(&self) -> &[u8] {
        &self.mem[GUARD..GUARD + self.cap]
    }
}

fn parse_all<S: BodySink>(bytes: &[u8], sink: &mut S) -> (ResponseParser, Result<(), ParseError>) {
    let mut p = ResponseParser::new();
    let rc = p.feed(bytes, sink);
    (p, rc)
}

#[test]
fn buffer_sink_exact_fit() {
    let mut g = Guarded::new(8);
    let mut s = g.sink();
    s.write(b"abcdefgh");
    assert_eq!(s.written(), 8);
    assert!(!s.overflowed());
    assert!(g.intact());
    assert_eq!(g.body(), b"abcdefgh");
}

#[test]
fn buffer_sink_one_byte_too_many() {
    let mut g = Guarded::new(4);
    let mut s = g.sink();
    s.write(b"abcde");
    assert_eq!(s.written(), 4);
    assert!(s.overflowed());
    assert!(g.intact());
    assert_eq!(g.body(), b"abcd");
}

#[test]
fn buffer_sink_crosses_its_end_partway() {
    let mut g = Guarded::new(10);
    let mut s = g.sink();
    for _ in 0..5 {
        s.write(b"xyz"); // 15 bytes offered into a 10-byte buffer
    }
    assert_eq!(s.written(), 10);
    assert!(s.overflowed());
    assert!(g.intact());
    assert_eq!(g.body(), b"xyzxyzxyzx");
}

#[test]
fn buffer_sink_writes_after_full() {
    let mut g = Guarded::new(3);
    let mut s = g.sink();
    s.write(b"abc");
    s.write(b"defghijklmnop");
    s.write(b"q");
    assert_eq!(s.written(), 3);
    assert!(g.intact());
    assert_eq!(g.body(), b"abc");
}

#[test]
fn buffer_sink_without_room() {
    let mut g = Guarded::new(0);
    let mut s = g.sink();
    s.write(b"anything");
    assert_eq!(s.written(), 0);
    assert!(s.overflowed());
    assert!(g.intact());
}

#[test]
fn buffer_sink_empty_write() {
    let mut g = Guarded::new(4);
    let mut s = g.sink();
    s.write(b"");
    assert_eq!(s.written(), 0);
    assert!(!s.overflowed());
    assert_eq!(g.body(), [GUARD_BYTE; 4]);
}

#[test]
fn a_boxed_sink_is_a_sink() {
    let seen = Rc::new(RefCell::new(Vec::new()));
    let mut sink: Box<dyn BodySink> = Box::new(Shared(seen.clone()));
    let (p, rc) = parse_all(b"HTTP/1.1 200 OK\r\n\r\nbody", &mut sink);
    assert_eq!(rc, Ok(()));
    assert_eq!(p.body_bytes(), 4);
    assert_eq!(sink.written(), 4);
    assert!(!sink.overflowed());
    assert_eq!(*seen.borrow(), b"body");
}

#[test]
fn parser_206_with_body() {
    let mut g = Guarded::new(5);
    let mut s = g.sink();
    let (p, rc) = parse_all(
        b"HTTP/1.1 206 Partial Content\r\nContent-Length: 5\r\n\
          Content-Range: bytes 0-4/100\r\nETag: \"abc\"\r\n\r\nhello",
        &mut s,
    );
    assert_eq!(rc, Ok(()));
    assert_eq!(p.status(), 206);
    assert_eq!(p.body_bytes(), 5);
    assert_eq!(s.written(), 5);
    assert!(p.headers_done());
    assert_eq!(p.head().content_length, Some(5));
    assert_eq!(
        p.head().content_range,
        Some(ContentRange { first: 0, last: 4, total: Some(100) })
    );
    assert_eq!(p.head().etag.as_deref(), Some("\"abc\""));
    assert_eq!(g.body(), b"hello");
}

#[test]
fn parser_head_split_anywhere() {
    let msg = b"HTTP/1.1 206 Partial\r\nContent-Length: 3\r\n\r\nabc";
    for split in 1..msg.len() {
        let mut g = Guarded::new(3);
        let mut s = g.sink();
        let mut p = ResponseParser::new();
        assert_eq!(p.feed(&msg[..split], &mut s), Ok(()), "split at {}", split);
        assert_eq!(p.feed(&msg[split..], &mut s), Ok(()), "split at {}", split);
        assert_eq!(p.status(), 206);
        assert_eq!(p.body_bytes(), 3);
        assert_eq!(s.written(), 3);
        assert!(g.intact());
        assert_eq!(g.body(), b"abc");
    }
}

#[test]
fn parser_byte_by_byte() {
    let msg = b"HTTP/1.1 200 OK\r\nETag: x\r\nContent-Length: 2\r\n\r\n\r\n";
    let mut g = Guarded::new(2);
    let mut s = g.sink();
    let mut p = ResponseParser::new();
    for b in msg.iter() {
        assert_eq!(p.feed(&[*b], &mut s), Ok(()));
    }
    assert_eq!(p.head().content_length, Some(2));
    assert_eq!(p.head().etag.as_deref(), Some("x"));
    assert_eq!(p.body_bytes(), 2);
    assert_eq!(g.body(), b"\r\n");
}

#[test]
fn parser_body_across_three_feeds() {
    let mut g = Guarded::new(9);
    let mut s = g.sink();
    let mut p = ResponseParser::new();
    assert_eq!(p.feed(b"HTTP/1.1 200 OK\r\nContent-Length: 9\r\n\r\nabc", &mut s), Ok(()));
    assert_eq!(p.feed(b"def", &mut s), Ok(()));
    assert_eq!(p.feed(b"ghi", &mut s), Ok(()));
    assert_eq!(p.body_bytes(), 9);
    assert_eq!(g.body(), b"abcdefghi");
    assert!(g.intact());
}

#[test]
fn parser_more_body_than_promised() {
    let mut g = Guarded::new(4);
    let mut s = g.sink();
    let (p, rc) =
        parse_all(b"HTTP/1.1 206 Partial\r\nContent-Length: 4\r\n\r\nAAAABBBBCCCC", &mut s);
    assert_eq!(rc, Ok(()));
    assert_eq!(p.body_bytes(), 12);
    assert_eq!(s.written(), 4);
    assert!(s.overflowed());
    assert!(g.intact());
}

#[test]
fn parser_rejects_chunked() {
    let (_, rc) = parse_all(b"HTTP/1.1 200 OK\r\nTransfer-Encoding: chunked\r\n\r\n", &mut NullSink);
    assert_eq!(rc, Err(ParseError::Chunked));
    let (_, rc) =
        parse_all(b"HTTP/1.1 200 OK\r\nTRANSFER-ENCODING: gzip, Chunked\r\n\r\n", &mut NullSink);
    assert_eq!(rc, Err(ParseError::Chunked));
    let (_, rc) = parse_all(b"HTTP/1.1 200 OK\r\nTransfer-Encoding: identity\r\n\r\n", &mut NullSink);
    assert_eq!(rc, Ok(()));
}

#[test]
fn parser_rejects_malformed_status_lines() {
    for bytes in [
        &b"nonsense\r\n\r\n"[..],
        &b"HTTP/1.1 20 OK\r\n\r\n"[..],
        &b"HTTP/1.1 2O6 OK\r\n\r\n"[..],
    ] {
        let (p, rc) = parse_all(bytes, &mut NullSink);
        assert_eq!(rc, Err(ParseError::BadStatusLine));
        assert!(!p.headers_done());
    }
}

#[test]
fn status_lines() {
    assert_eq!(parse_status(b"HTTP/1.1 206 Partial Content\r"), Some(206));
    assert_eq!(parse_status(b"HTTP/1.0 404"), Some(404));
    assert_eq!(parse_status(b"HTTP/2 200 OK"), None);
    assert_eq!(parse_status(b"HTTP/1.x 200 OK"), None);
    assert_eq!(parse_status(b"HTTP/1.1 2000 OK"), None);
    assert_eq!(parse_status(b""), None);
}

#[test]
fn content_ranges() {
    assert_eq!(
        parse_content_range(b"bytes 0-65535/10737418240"),
        Some(ContentRange { first: 0, last: 65535, total: Some(10737418240) })
    );
    assert_eq!(
        parse_content_range(b" bytes 0-65535/* "),
        Some(ContentRange { first: 0, last: 65535, total: None })
    );
    assert_eq!(parse_content_range(b"items 0-1/2"), None);
    assert_eq!(parse_content_range(b"bytes 0-1"), None);
    assert_eq!(parse_content_range(b"bytes 01/2"), None);
    assert_eq!(parse_content_range(b"bytes a-1/2"), None);
}

#[test]
fn parser_bounds_an_endless_head() {
    let mut p = ResponseParser::new();
    let filler = vec![b'x'; 8 * 1024];
    let mut fed = 0;
    let mut rc = Ok(());
    for _ in 0..16 {
        rc = p.feed(&filler, &mut NullSink);
        if rc.is_err() {
            break;
        }
        fed += filler.len();
    }
    assert_eq!(rc, Err(ParseError::HeadTooLong));
    assert_eq!(fed, MAX_HEAD);
}

#[test]
fn parser_header_names_ignore_case() {
    let (p, rc) = parse_all(
        b"HTTP/1.1 206 Partial\r\ncOnTeNt-LeNgTh: 7\r\n\
          Content-Range: bytes 10-16/*\r\n\r\nabcdefg",
        &mut NullSink,
    );
    assert_eq!(rc, Ok(()));
    assert_eq!(p.head().content_length, Some(7));
    assert_eq!(
        p.head().content_range,
        Some(ContentRange { first: 10, last: 16, total: None })
    );
}

#[test]
fn parser_head_details() {
    let (p, rc) = parse_all(
        b"HTTP/1.1 200 OK\r\nno colon here\r\nContent-Length: twelve\r\n\
          Last-Modified:  Tue, 15 Nov 1994 12:45:26 GMT \r\nETag: caf\xc3\xa9\r\nX-Other: 1\r\n\r\n",
        &mut NullSink,
    );
    assert_eq!(rc, Ok(()));
    assert_eq!(p.head().content_length, None);
    assert_eq!(p.head().last_modified.as_deref(), Some("Tue, 15 Nov 1994 12:45:26 GMT"));
    assert_eq!(p.head().etag, None);
}

#[test]
fn parser_204_has_no_body() {
    let (p, rc) = parse_all(b"HTTP/1.1 204 No Content\r\n\r\n", &mut NullSink);
    assert_eq!(rc, Ok(()));
    assert_eq!(p.status(), 204);
    assert_eq!(p.body_bytes(), 0);
    assert_eq!(p.head().content_length, None);
    assert!(p.headers_done());
}

#[test]
fn completion_needs_the_whole_body() {
    let mut g = Guarded::new(6);
    let mut s = g.sink();
    let mut p = ResponseParser::new();
    assert_eq!(p.feed(b"HTTP/1.1 206 Partial\r\nContent-Length: 6\r\n\r\nabc", &mut s), Ok(()));
    let want = p.head().content_length.unwrap_or(0);
    assert!(p.body_bytes() < want);
    assert_eq!(p.feed(b"def", &mut s), Ok(()));
    assert!(p.body_bytes() >= want);
    assert!(g.intact());
}

#[test]
fn no_response_is_no_head() {
    let mut p = ResponseParser::new();
    assert!(!p.headers_done());
    assert!(!p.begun());
    assert_eq!(p.status(), 0);
    assert_eq!(p.body_bytes(), 0);
    assert_eq!(p.feed(b"", &mut NullSink), Ok(()));
    assert!(!p.headers_done());
    assert!(!p.begun());

    let mut p = ResponseParser::new();
    assert_eq!(p.feed(b"HTTP/1.1 206 Partial\r\nContent-Length: 5\r\n", &mut NullSink), Ok(()));
    assert!(p.begun());
    assert!(!p.headers_done());
    assert_eq!(p.status(), 0);
}
