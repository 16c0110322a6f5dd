//! Just enough HTTP/1.1 to find the response head and hand the body on.
//! Chunked transfer-encoding is rejected, not guessed at.

use vstd::prelude::*;
use vstd::string::*;

use crate::text;

verus! {

/// Where a response body goes. What a sink is, is told by its model. A sink in code
/// that is not verified can leave the model out; then it meets no contract here, and
/// nothing that is proved of a connection holds of what goes through such a sink.
pub trait BodySink {
    /// What the sink needs to hold between calls.
    open spec fn inv(&self) -> bool {
        true
    }

    /// Every byte handed to the sink so far, in order.
    open spec fn received(&self) -> Seq<u8> {
        Seq::empty()
    }

    /// How many of those bytes it stored.
    open spec fn stored(&self) -> u64 {
        0
    }

    /// It was handed more than it could store.
    open spec fn dropped(&self) -> bool {
        false
    }

    /// What the sink was made over; it stays the same.
    open spec fn origin(&self) -> Seq<u8> {
        Seq::empty()
    }

    fn write(&mut self, data: &[u8])
        requires
            old(self).inv(),
        ensures
            final(self).inv(),
            final(self).received() == old(self).received() + data@,
            final(self).origin() == old(self).origin(),
    ;

    /// Bytes the sink stored.
    fn written(&self) -> (n: u64)
        requires
            self.inv(),
        ensures
            n == self.stored(),
    ;

    /// The sink was handed more than it could store.
    fn overflowed(&self) -> (r: bool)
        requires
            self.inv(),
        ensures
            r == self.dropped(),
    ;
}

impl<S: BodySink + ?Sized> BodySink for Box<S> {
    open spec fn inv(&self) -> bool {
        (**self).inv()
    }

    open spec fn received(&self) -> Seq<u8> {
        (**self).received()
    }

    open spec fn origin(&self) -> Seq<u8> {
        (**self).origin()
    }

    open spec fn stored(&self) -> u64 {
        (**self).stored()
    }

    open spec fn dropped(&self) -> bool {
        (**self).dropped()
    }

    fn write(&mut self, data: &[u8]) {
        (**self).write(data);
    }

    fn written(&self) -> (n: u64) {
        (**self).written()
    }

    fn overflowed(&self) -> (r: bool) {
        (**self).overflowed()
    }
}

/// The value of a sink, whatever its kind.
#[verifier::ext_equal]
pub struct SinkView {
    pub received: Seq<u8>,
    pub origin: Seq<u8>,
}

impl SinkView {
    /// Handed more bytes.
    pub open spec fn with(self, data: Seq<u8>) -> SinkView {
        SinkView { received: self.received + data, ..self }
    }
}

/// The value of a sink.
pub open spec fn sink_view<S: BodySink + ?Sized>(s: &S) -> SinkView {
    SinkView { received: s.received(), origin: s.origin() }
}

/// Writes the body into a caller-owned buffer that outlives the request.
pub struct BufferSink<'a> {
    buf: &'a mut [u8],
    written: usize,
    overflowed: bool,
    offered: Ghost<Seq<u8>>,
    initial: Ghost<Seq<u8>>,
}

impl<'a> BufferSink<'a> {
    /// The buffer as it stands.
    pub closed spec fn buffer(&self) -> Seq<u8> {
        self.buf@
    }

    /// A sink over `buf`, which takes at most `buf.len()` bytes.
    pub fn new(buf: &'a mut [u8]) -> (s: Self)
        ensures
            s.inv(),
            s.received() == Seq::<u8>::empty(),
            s.buffer() == old(buf)@,
            s.origin() == old(buf)@,
    {
        let ghost before = buf@;
        assert(before.take(0) == Seq::<u8>::empty().take(0));
        BufferSink {
            buf,
            written: 0,
            overflowed: false,
            offered: Ghost(Seq::empty()),
            initial: Ghost(before),
        }
    }
}

impl BufferSink<'_> {
    /// The buffer holds what was offered, as far as it fits, and is otherwise
    /// untouched; the cursor and the overflow flag say how far that was.
    pub proof fn lemma_contents(&self)
        requires
            self.inv(),
        ensures
            self.buffer().len() == self.origin().len(),
            self.stored() == vstd::math::min(
                self.received().len() as int,
                self.buffer().len() as int,
            ),
            self.dropped() <==> self.received().len() > self.buffer().len(),
            self.buffer().take(self.stored() as int) == self.received().take(self.stored() as int),
            self.buffer().skip(self.stored() as int) == self.origin().skip(self.stored() as int),
    {
    }
}

impl BodySink for BufferSink<'_> {
    closed spec fn inv(&self) -> bool {
        let n = self.written as int;
        &&& self.buf@.len() == self.initial@.len()
        &&& n == vstd::math::min(self.offered@.len() as int, self.buf@.len() as int)
        &&& n <= u64::MAX
        &&& self.overflowed == (self.offered@.len() > self.buf@.len())
        &&& self.buf@.take(n) == self.offered@.take(n)
        &&& self.buf@.skip(n) == self.initial@.skip(n)
    }

    closed spec fn received(&self) -> Seq<u8> {
        self.offered@
    }

    /// The buffer as the caller handed it over.
    closed spec fn origin(&self) -> Seq<u8> {
        self.initial@
    }

    closed spec fn stored(&self) -> u64 {
        self.written as u64
    }

    closed spec fn dropped(&self) -> bool {
        self.overflowed
    }

    fn write(&mut self, data: &[u8]) {
        let room: usize = self.buf.len() - self.written;
        let n: usize = if data.len() < room {
            data.len()
        } else {
            room
        };
        if n < data.len() {
            self.overflowed = true;
        }
        let ghost before = self.buf@;
        let ghost all = self.offered@ + data@;
        let ghost w0 = self.written as int;
        let mut i: usize = 0;
        while i < n
            invariant
                n <= data@.len(),
                i <= n,
                w0 + n <= before.len() <= usize::MAX,
                self.written == w0,
                self.overflowed == (all.len() > before.len()),
                self.offered == old(self).offered,
                self.initial == old(self).initial,
                self.buf@.len() == before.len(),
                forall|k: int| 0 <= k < w0 ==> #[trigger] self.buf@[k] == before[k],
                forall|k: int| w0 <= k < w0 + i ==> #[trigger] self.buf@[k] == data@[k - w0],
                forall|k: int| w0 + i <= k < before.len() ==> #[trigger] self.buf@[k] == before[k],
            decreases n - i,
        {
            self.buf[self.written + i] = data[i];
            i += 1;
        }
        self.written += n;
        self.offered = Ghost(all);
        proof {
            let w = self.written as int;
            assert(before.take(w0) == old(self).offered@.take(w0));
            assert forall|k: int| 0 <= k < w implies self.buf@.take(w)[k] == all.take(w)[k] by {
                if k < w0 {
                    assert(before.take(w0)[k] == old(self).offered@.take(w0)[k]);
                }
            }
            assert(self.buf@.take(w) == all.take(w));
            assert forall|k: int| 0 <= k < before.len() - w implies self.buf@.skip(w)[k]
                == self.initial@.skip(w)[k] by {
                assert(before.skip(w0)[k + w - w0] == old(self).initial@.skip(w0)[k + w - w0]);
            }
            assert(self.buf@.skip(w) == self.initial@.skip(w));
        }
    }

    fn written(&self) -> (n: u64) {
        self.written as u64
    }

    fn overflowed(&self) -> (r: bool) {
        self.overflowed
    }
}

/// `Content-Range: bytes 0-65535/10737418240`.
#[derive(Debug, Clone, Copy, PartialEq, Eq, Structural)]
pub struct ContentRange {
    pub first: u64,
    pub last: u64,
    /// `None` for the `*` form, where the server declines to say.
    pub total: Option<u64>,
}

/// The head fields something above this layer reads.
#[derive(Debug, Clone)]
pub struct ResponseHead {
    pub status: u16,
    pub content_length: Option<u64>,
    pub content_range: Option<ContentRange>,
    pub etag: Option<String>,
    pub last_modified: Option<String>,
}

/// The value of a [`ResponseHead`], its strings as characters.
#[verifier::ext_equal]
pub struct HeadView {
    pub status: u16,
    pub content_length: Option<u64>,
    pub content_range: Option<ContentRange>,
    pub etag: Option<Seq<char>>,
    pub last_modified: Option<Seq<char>>,
}

/// The characters of an optional string.
pub open spec fn text_of(s: Option<String>) -> Option<Seq<char>> {
    match s {
        Some(t) => Some(t@),
        None => None,
    }
}

impl View for ResponseHead {
    type V = HeadView;

    open spec fn view(&self) -> HeadView {
        HeadView {
            status: self.status,
            content_length: self.content_length,
            content_range: self.content_range,
            etag: text_of(self.etag),
            last_modified: text_of(self.last_modified),
        }
    }
}

/// A head about which nothing is known yet.
pub open spec fn blank_head() -> HeadView {
    HeadView {
        status: 0,
        content_length: None,
        content_range: None,
        etag: None,
        last_modified: None,
    }
}

impl Default for ResponseHead {
    fn default() -> (h: Self)
        ensures
            h@ == blank_head(),
    {
        ResponseHead {
            status: 0,
            content_length: None,
            content_range: None,
            etag: None,
            last_modified: None,
        }
    }
}

/// A head longer than this that has not ended yet is given up on: it is buffered whole.
pub const MAX_HEAD: usize = 65536;

#[derive(Debug, Clone, Copy, PartialEq, Eq, Structural)]
pub enum ParseError {
    /// No status line, or one that is not `HTTP/1.x NNN`.
    BadStatusLine,
    /// The head grew past `MAX_HEAD` without terminating.
    HeadTooLong,
    /// `Transfer-Encoding: chunked`. Not implemented; see the module comment.
    Chunked,
}

/// `HTTP/1.x`: the version a status line opens with.
pub open spec fn is_version(s: Seq<u8>) -> bool {
    let p = "HTTP/1.".spec_bytes();
    s.len() == p.len() + 1 && p.is_prefix_of(s) && text::is_digit(s.last())
}

/// The status code of a status line: `HTTP/1.1 206 Partial Content` is 206.
pub open spec fn status_of(line: Seq<u8>) -> Option<u16> {
    match text::cut(text::trimmed(line), 32) {
        Some(p) => {
            let code = text::fields(p.1, 32)[0];
            if is_version(p.0) && code.len() == 3 && text::all_digits(code) {
                Some(text::decimal(code) as u16)
            } else {
                None
            }
        },
        None => None,
    }
}

/// The value of a `Content-Range` header: `bytes 0-65535/10737418240`, or
/// `bytes 0-65535/*`.
pub open spec fn range_of(value: Seq<u8>) -> Option<ContentRange> {
    let v = text::trimmed(value);
    let unit = "bytes ".spec_bytes();
    if unit.is_prefix_of(v) {
        match text::cut(v.skip(unit.len() as int), 47) {
            Some((range, total)) => match text::cut(range, 45) {
                Some((first, last)) => match (text::number(first), text::number(last)) {
                    (Some(first), Some(last)) => if text::trimmed(total) == seq![42u8] {
                        Some(ContentRange { first, last, total: None })
                    } else {
                        match text::number(total) {
                            Some(t) => Some(ContentRange { first, last, total: Some(t) }),
                            None => None,
                        }
                    },
                    _ => None,
                },
                None => None,
            },
            None => None,
        }
    } else {
        None
    }
}

/// `name` is the header `header`, ASCII case aside.
pub open spec fn names(name: Seq<u8>, header: &str) -> bool {
    text::same_ignoring_case(name, header.spec_bytes())
}

/// What one line after the status line adds to the head. A line that is empty,
/// or has no colon, or names a header nothing reads, adds nothing.
pub open spec fn with_line(h: HeadView, line: Seq<u8>) -> Result<HeadView, ParseError> {
    match text::header_parts(text::trimmed(line)) {
        None => Ok(h),
        Some((name, value)) => {
            if names(name, "content-length") {
                Ok(HeadView { content_length: text::number(value), ..h })
            } else if names(name, "content-range") {
                Ok(HeadView { content_range: range_of(value), ..h })
            } else if names(name, "etag") {
                Ok(HeadView { etag: text::ascii_text(value), ..h })
            } else if names(name, "last-modified") {
                Ok(HeadView { last_modified: text::ascii_text(value), ..h })
            } else if names(name, "transfer-encoding") && text::occurs_ignoring_case(
                value,
                "chunked".spec_bytes(),
            ) {
                Err(ParseError::Chunked)
            } else {
                Ok(h)
            }
        },
    }
}

/// The head after the given lines, and the error that stopped it, if one did.
pub open spec fn with_lines(h: HeadView, lines: Seq<Seq<u8>>) -> (HeadView, Option<ParseError>)
    decreases lines.len(),
{
    if lines.len() == 0 {
        (h, None)
    } else {
        match with_line(h, lines[0]) {
            Ok(next) => with_lines(next, lines.drop_first()),
            Err(e) => (h, Some(e)),
        }
    }
}

/// The head that the bytes up to and with the blank line describe, laid over `h`.
pub open spec fn head_of(h: HeadView, bytes: Seq<u8>) -> (HeadView, Option<ParseError>) {
    let lines = text::fields(bytes, 10);
    match status_of(lines[0]) {
        Some(status) => with_lines(HeadView { status, ..h }, lines.drop_first()),
        None => (h, Some(ParseError::BadStatusLine)),
    }
}

/// `HTTP/1.1 206 Partial Content` -> 206.
pub fn parse_status(line: &[u8]) -> (r: Option<u16>)
    ensures
        r == status_of(line@),
{
    let line = text::trim(line);
    let (version, rest) = match text::split_once(line, 32) {
        Some(p) => p,
        None => return None,
    };
    let prefix = "HTTP/1.".as_bytes();
    let n: usize = prefix.len();
    if version.len() == 0 || version.len() - 1 != n || !text::starts_with(version, prefix)
        || !text::is_ascii_digit(version[n]) {
        return None;
    }
    let end: usize = text::find(rest, 32);
    let code = &rest[0..end];
    assert(code@ == text::fields(rest@, 32)[0]) by {
        if end == rest@.len() {
            assert(rest@.take(end as int) == rest@);
        }
    }
    if code.len() != 3 || !text::is_ascii_digit(code[0]) || !text::is_ascii_digit(code[1])
        || !text::is_ascii_digit(code[2]) {
        return None;
    }
    let v: u16 = (code[0] - 48) as u16 * 100 + (code[1] - 48) as u16 * 10 + (code[2] - 48) as u16;
    proof {
        reveal_with_fuel(text::decimal, 4);
        let c = code@;
        assert(c.drop_last().drop_last().drop_last().len() == 0);
        assert(text::decimal(c) == v);
    }
    Some(v)
}

/// `bytes 0-65535/10737418240`, or `bytes 0-65535/*`.
pub fn parse_content_range(value: &[u8]) -> (r: Option<ContentRange>)
    ensures
        r == range_of(value@),
{
    let value = text::trim(value);
    let unit = "bytes ".as_bytes();
    if !text::starts_with(value, unit) {
        return None;
    }
    let rest = &value[unit.len()..value.len()];
    let (range, total) = match text::split_once(rest, 47) {
        Some(p) => p,
        None => return None,
    };
    let (first, last) = match text::split_once(range, 45) {
        Some(p) => p,
        None => return None,
    };
    let first: u64 = match text::parse_u64(first) {
        Some(v) => v,
        None => return None,
    };
    let last: u64 = match text::parse_u64(last) {
        Some(v) => v,
        None => return None,
    };
    let star = text::trim(total);
    if star.len() == 1 && star[0] == 42 {
        assert(star@ == seq![42u8]);
        return Some(ContentRange { first, last, total: None });
    }
    match text::parse_u64(total) {
        Some(t) => Some(ContentRange { first, last, total: Some(t) }),
        None => None,
    }
}

/// How much of CR LF CR LF has been seen after one more byte.
pub open spec fn next_mark(mark: u8, b: u8) -> u8 {
    if mark == 1 && b == 10 {
        2
    } else if mark == 2 && b == 13 {
        3
    } else if mark == 3 && b == 10 {
        4
    } else if b == 13 {
        1
    } else {
        0
    }
}

/// How much of CR LF CR LF has been seen after `data`.
pub open spec fn mark_after(mark: u8, data: Seq<u8>) -> u8
    decreases data.len(),
{
    if data.len() == 0 {
        mark
    } else {
        next_mark(mark_after(mark, data.drop_last()), data.last())
    }
}

/// The blank line that ends the head is complete right after `n` bytes of
/// `data`, and not before.
pub open spec fn ends_at(mark: u8, data: Seq<u8>, n: int) -> bool {
    &&& 0 < n <= data.len()
    &&& mark_after(mark, data.take(n)) == 4
    &&& forall|k: int| 0 < k < n ==> mark_after(mark, #[trigger] data.take(k)) != 4
}

/// The value of a [`ResponseParser`].
#[verifier::ext_equal]
pub struct ParserView {
    /// Head bytes buffered so far.
    pub pending: Seq<u8>,
    /// The head is complete; what follows is body.
    pub done: bool,
    /// Progress through the CR LF CR LF that ends the head.
    pub mark: u8,
    pub head: HeadView,
    /// Body bytes seen.
    pub body: u64,
}

impl ParserView {
    /// A byte of the head has come in.
    pub open spec fn begun(self) -> bool {
        self.done || self.pending.len() > 0
    }
}

/// A parser that has been fed nothing.
pub open spec fn blank_parser() -> ParserView {
    ParserView { pending: Seq::empty(), done: false, mark: 0, head: blank_head(), body: 0 }
}

/// The body count after `n` more bytes; it stops at `u64::MAX`.
pub open spec fn counted(body: u64, n: nat) -> u64 {
    if body + n <= u64::MAX {
        (body + n) as u64
    } else {
        u64::MAX
    }
}

/// What feeding does: the parser afterwards, the body bytes it passes on, and
/// the error, if there is one.
pub struct Fed {
    pub parser: ParserView,
    pub body: Seq<u8>,
    pub error: Option<ParseError>,
}

/// Feeds `data` when the head ends after `n` bytes of it.
pub open spec fn fed_head_end(p: ParserView, data: Seq<u8>, n: int) -> Fed {
    let bytes = p.pending + data.take(n);
    let (head, error) = head_of(p.head, bytes);
    if error is Some {
        Fed {
            parser: ParserView { pending: bytes, mark: 4, head, ..p },
            body: Seq::empty(),
            error,
        }
    } else {
        Fed {
            parser: ParserView {
                pending: Seq::empty(),
                done: true,
                mark: 4,
                head,
                body: counted(p.body, data.skip(n).len()),
            },
            body: data.skip(n),
            error: None,
        }
    }
}

/// Feeds `data` when the head does not end in it.
pub open spec fn fed_head_part(p: ParserView, data: Seq<u8>) -> Fed {
    let mark = mark_after(p.mark, data);
    if p.pending.len() + data.len() > MAX_HEAD {
        Fed {
            parser: ParserView { mark, ..p },
            body: Seq::empty(),
            error: Some(ParseError::HeadTooLong),
        }
    } else {
        Fed {
            parser: ParserView { pending: p.pending + data, mark, ..p },
            body: Seq::empty(),
            error: None,
        }
    }
}

/// Feeds `data` to the parser.
pub open spec fn fed(p: ParserView, data: Seq<u8>) -> Fed {
    if p.done {
        Fed {
            parser: ParserView { body: counted(p.body, data.len()), ..p },
            body: data,
            error: None,
        }
    } else if exists|n: int| ends_at(p.mark, data, n) {
        fed_head_end(p, data, choose|n: int| ends_at(p.mark, data, n))
    } else {
        fed_head_part(p, data)
    }
}

proof fn lemma_ends_at_unique(mark: u8, data: Seq<u8>, m: int, n: int)
    requires
        ends_at(mark, data, m),
        ends_at(mark, data, n),
    ensures
        m == n,
{
    if m < n {
        assert(mark_after(mark, data.take(m)) != 4);
    }
    if n < m {
        assert(mark_after(mark, data.take(n)) != 4);
    }
}

/// Feeding, when where the head ends is known.
pub proof fn lemma_fed_head_end(p: ParserView, data: Seq<u8>, n: int)
    requires
        !p.done,
        ends_at(p.mark, data, n),
    ensures
        fed(p, data) == fed_head_end(p, data, n),
{
    let m = choose|m: int| ends_at(p.mark, data, m);
    lemma_ends_at_unique(p.mark, data, m, n);
}

impl ResponseHead {
    /// Takes in one line after the status line.
    fn read_line(&mut self, line: &[u8]) -> (r: Result<(), ParseError>)
        ensures
            match with_line(old(self)@, line@) {
                Ok(h) => r == Ok::<(), ParseError>(()) && final(self)@ == h,
                Err(e) => r == Err::<(), ParseError>(e) && final(self)@ == old(self)@,
            },
    {
        let (name, value) = match text::split_header(text::trim(line)) {
            Some(pair) => pair,
            // A continuation or a malformed line; ignored.
            None => return Ok(()),
        };
        if text::eq_ignore_case(name, "content-length".as_bytes()) {
            self.content_length = text::parse_u64(value);
        } else if text::eq_ignore_case(name, "content-range".as_bytes()) {
            self.content_range = parse_content_range(value);
        } else if text::eq_ignore_case(name, "etag".as_bytes()) {
            self.etag = text::to_string(value);
        } else if text::eq_ignore_case(name, "last-modified".as_bytes()) {
            self.last_modified = text::to_string(value);
        } else if text::eq_ignore_case(name, "transfer-encoding".as_bytes())
            && text::contains_ignore_case(value, "chunked".as_bytes()) {
            return Err(ParseError::Chunked);
        }
        Ok(())
    }
}

pub struct ResponseParser {
    pending: Vec<u8>,
    headers_done: bool,
    /// CRLFCRLF progress; it can straddle two TLS records.
    hdr_state: u8,
    head: ResponseHead,
    body_bytes: u64,
}

impl View for ResponseParser {
    type V = ParserView;

    closed spec fn view(&self) -> ParserView {
        ParserView {
            pending: self.pending@,
            done: self.headers_done,
            mark: self.hdr_state,
            head: self.head@,
            body: self.body_bytes,
        }
    }
}

impl ResponseParser {
    pub fn new() -> (p: Self)
        ensures
            p@ == blank_parser(),
    {
        ResponseParser {
            pending: Vec::new(),
            headers_done: false,
            hdr_state: 0,
            head: ResponseHead::default(),
            body_bytes: 0,
        }
    }

    /// The HTTP status, or 0 until the head has been parsed.
    pub fn status(&self) -> (r: u16)
        ensures
            r == self@.head.status,
    {
        self.head.status
    }

    pub fn head(&self) -> (r: &ResponseHead)
        ensures
            r@ == self@.head,
    {
        &self.head
    }

    pub fn head_mut(&mut self) -> (r: &mut ResponseHead)
        ensures
            r@ == old(self)@.head,
            final(self)@ == (ParserView { head: final(r)@, ..old(self)@ }),
    {
        &mut self.head
    }

    /// Body bytes only.
    pub fn body_bytes(&self) -> (r: u64)
        ensures
            r == self@.body,
    {
        self.body_bytes
    }

    /// A byte of the head has come in.
    pub fn begun(&self) -> (r: bool)
        ensures
            r == self@.begun(),
    {
        self.headers_done || self.pending.len() > 0
    }

    pub fn headers_done(&self) -> (r: bool)
        ensures
            r == self@.done,
    {
        self.headers_done
    }

    fn count_body(&mut self, n: usize)
        ensures
            final(self)@ == (ParserView { body: counted(old(self)@.body, n as nat), ..old(self)@ }),
    {
        self.body_bytes = self.body_bytes.saturating_add(n as u64);
    }

    /// Takes the next bytes of the response: head bytes are kept until the head
    /// is whole, body bytes go to `sink`.
    pub fn feed<S: BodySink + ?Sized>(&mut self, data: &[u8], sink: &mut S) -> (r: Result<
        (),
        ParseError,
    >)
        requires
            old(sink).inv(),
        ensures
            final(sink).inv(),
            final(self)@ == fed(old(self)@, data@).parser,
            final(sink).received() == old(sink).received() + fed(old(self)@, data@).body,
            final(sink).origin() == old(sink).origin(),
            match fed(old(self)@, data@).error {
                None => r == Ok::<(), ParseError>(()),
                Some(e) => r == Err::<(), ParseError>(e),
            },
    {
        let ghost p = self@;
        if self.headers_done {
            self.count_body(data.len());
            sink.write(data);
            return Ok(());
        }
        let mut i: usize = 0;
        while i < data.len()
            invariant
                i <= data@.len(),
                !p.done,
                self.hdr_state == mark_after(p.mark, data@.take(i as int)),
                self@ == (ParserView { mark: self.hdr_state, ..p }),
                sink.inv(),
                sink.received() == old(sink).received(),
                sink.origin() == old(sink).origin(),
                p == old(self)@,
                forall|k: int| 0 < k <= i ==> mark_after(p.mark, #[trigger] data@.take(k)) != 4,
            decreases data@.len() - i,
        {
            let b: u8 = data[i];
            proof {
                let t = data@.take(i + 1);
                assert(t.drop_last() == data@.take(i as int));
                assert(t.last() == b);
            }
            self.hdr_state = if self.hdr_state == 1 && b == 10 {
                2
            } else if self.hdr_state == 2 && b == 13 {
                3
            } else if self.hdr_state == 3 && b == 10 {
                4
            } else if b == 13 {
                1
            } else {
                0
            };
            if self.hdr_state == 4 {
                let n: usize = i + 1;
                proof {
                    assert(ends_at(p.mark, data@, n as int));
                    lemma_fed_head_end(p, data@, n as int);
                }
                self.pending.extend_from_slice(&data[0..n]);
                assert(self.pending@ == p.pending + data@.take(n as int));
                match self.parse_head() {
                    Ok(()) => {},
                    Err(e) => {
                        assert(sink.received() + Seq::<u8>::empty() == sink.received());
                        return Err(e);
                    },
                }
                self.headers_done = true;
                self.pending = Vec::new();
                let body = &data[n..data.len()];
                assert(body@ == data@.skip(n as int));
                self.count_body(body.len());
                sink.write(body);
                assert(self@ == fed(p, data@).parser);
                return Ok(());
            }
            i += 1;
        }
        proof {
            assert(data@.take(i as int) == data@);
            assert forall|n: int| !ends_at(p.mark, data@, n) by {}
            assert(sink.received() + Seq::<u8>::empty() == sink.received());
        }
        if self.pending.len() > MAX_HEAD || data.len() > MAX_HEAD - self.pending.len() {
            return Err(ParseError::HeadTooLong);
        }
        self.pending.extend_from_slice(data);
        assert(self.pending@ == p.pending + data@);
        Ok(())
    }

    /// Reads the head out of the buffered bytes.
    fn parse_head(&mut self) -> (r: Result<(), ParseError>)
        ensures
            final(self)@ == (ParserView {
                head: head_of(old(self)@.head, old(self)@.pending).0,
                ..old(self)@
            }),
            match head_of(old(self)@.head, old(self)@.pending).1 {
                None => r == Ok::<(), ParseError>(()),
                Some(e) => r == Err::<(), ParseError>(e),
            },
    {
        let ghost p = self@;
        let ghost all = self.pending@;
        let ghost lines = text::fields(all, 10);
        let len: usize = self.pending.len();
        let mut at: usize = text::find(&self.pending, 10);
        assert(lines[0] == all.take(at as int)) by {
            assert(all.take(all.len() as int) == all);
        }
        match parse_status(&self.pending[0..at]) {
            Some(status) => {
                self.head.status = status;
            },
            None => return Err(ParseError::BadStatusLine),
        }
        let ghost h0 = HeadView { status: self.head.status, ..p.head };
        let ghost goal = with_lines(h0, lines.drop_first());
        proof {
            if at < len {
                assert(lines.drop_first() == text::fields(all.skip(at + 1), 10));
            } else {
                assert(lines.drop_first() == Seq::<Seq<u8>>::empty());
            }
        }
        while at < len
            invariant
                at <= len == all.len(),
                self.pending@ == all,
                self@ == (ParserView { head: self.head@, ..p }),
                goal == (if at < len {
                    with_lines(self.head@, text::fields(all.skip(at + 1), 10))
                } else {
                    (self.head@, None)
                }),
                goal == head_of(p.head, p.pending),
                p == old(self)@,
            decreases len - at,
        {
            let start: usize = at + 1;
            let ghost rest = all.skip(start as int);
            let ghost tail = text::fields(rest, 10);
            let n: usize = text::find(&self.pending[start..len], 10);
            let ghost raw = rest.take(n as int);
            proof {
                assert(self.pending@.subrange(start as int, len as int) == rest);
                text::lemma_run_len(rest, 10);
                assert(rest.take(rest.len() as int) == rest);
                assert(tail[0] == raw);
                if n < rest.len() {
                    assert(rest.skip(n + 1) == all.skip(start + n + 1));
                    assert(tail.drop_first() == text::fields(all.skip(start + n + 1), 10));
                } else {
                    assert(tail.drop_first() == Seq::<Seq<u8>>::empty());
                }
            }
            let ghost before = self.head@;
            assert(self.pending@.subrange(start as int, start + n) == raw);
            match self.head.read_line(&self.pending[start..start + n]) {
                Ok(()) => {},
                Err(e) => {
                    return Err(e);
                },
            }
            at = start + n;
            proof {
                assert(with_lines(before, tail) == with_lines(self.head@, tail.drop_first()));
                if n >= rest.len() {
                    assert(with_lines(self.head@, tail.drop_first()) == (
                        self.head@,
                        None::<ParseError>,
                    ));
                }
            }
        }
        Ok(())
    }
}

} // verus!
