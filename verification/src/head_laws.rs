//! What a response head is read as: what a server writes into it, whatever the
//! order of its lines, the case of its names and the whitespace around its values.

use vstd::prelude::*;
use vstd::string::*;

use crate::http;
use crate::http::{ContentRange, HeadView, ParseError};
use crate::http_laws;
use crate::print;
use crate::text;
use crate::text_laws;

verus! {

/// A decimal digit.
pub open spec fn digit(b: u8) -> bool {
    48 <= b <= 57
}

/// A status line is read exactly where it is `HTTP/1.`, a digit, a space and three
/// digits, and then its end or another space; those three digits are the status.
pub proof fn law_status_line(line: Seq<u8>)
    ensures
        ({
            let t = text::trimmed(line);
            let good = {
                &&& t.len() >= 12
                &&& t.take(7) == seq![72u8, 84, 84, 80, 47, 49, 46]
                &&& digit(t[7])
                &&& t[8] == 32
                &&& digit(t[9]) && digit(t[10]) && digit(t[11])
                &&& t.len() > 12 ==> t[12] == 32
            };
            http::status_of(line) == (if good {
                Some((100 * (t[9] - 48) + 10 * (t[10] - 48) + (t[11] - 48)) as u16)
            } else {
                None
            })
        }),
{
    let t = text::trimmed(line);
    let p = "HTTP/1.".spec_bytes();
    reveal_strlit("HTTP/1.");
    text_laws::lemma_literal("HTTP/1.");
    let lit = seq![72u8, 84, 84, 80, 47, 49, 46];
    assert(p == lit);
    text::lemma_run_len(t, 32);
    let i = text::run_len(t, 32) as int;
    if t.len() >= 12 && t.take(7) == lit && digit(t[7]) && t[8] == 32 {
        assert forall|j: int| 0 <= j < 8 implies #[trigger] t[j] != 32 by {
            if j < 7 {
                assert(t[j] == t.take(7)[j]);
            }
        }
        text::lemma_run_len_is(t, 32, 8);
    }
    if i < t.len() {
        let v = t.take(i);
        let rest = t.skip(i + 1);
        text::lemma_run_len(rest, 32);
        let n = text::run_len(rest, 32) as int;
        let code = text::fields(rest, 32)[0];
        assert(code == rest.take(n)) by {
            if n == rest.len() {
                assert(rest.take(n) == rest);
            }
        }
        if http::is_version(v) {
            assert(i == 8);
            assert(t.take(7) == v.take(7));
            assert(v.take(7) == lit) by {
                assert forall|j: int| 0 <= j < 7 implies v.take(7)[j] == lit[j] by {
                    assert(v[j] == p[j]);
                }
            }
            assert(t[7] == v[7]);
            assert(v.last() == v[7]);
            assert forall|j: int| 0 <= j < rest.len() implies #[trigger] rest[j] == t[j + 9] by {}
        } else if t.len() >= 12 && t.take(7) == lit && digit(t[7]) && t[8] == 32 {
            assert(v.len() == 8);
            assert forall|j: int| 0 <= j < 7 implies p[j] == v[j] by {
                assert(v[j] == t.take(7)[j]);
            }
            assert(p.is_prefix_of(v));
            assert(v.last() == t[7]);
        }
        if code.len() == 3 && text::all_digits(code) {
            reveal_with_fuel(text::decimal, 4);
            assert(code.drop_last().drop_last().drop_last().len() == 0);
            assert(text::is_digit(code[0]) && text::is_digit(code[1]) && text::is_digit(code[2]));
            assert(code[0] == rest[0] && code[1] == rest[1] && code[2] == rest[2]);
            if n < rest.len() {
                assert(rest[3] == 32);
            }
        } else if i == 8 && t.len() >= 12 && digit(t[9]) && digit(t[10]) && digit(t[11]) && (
        t.len() > 12 ==> t[12] == 32) {
            assert(rest[0] == t[9] && rest[1] == t[10] && rest[2] == t[11]);
            if t.len() > 12 {
                assert(rest[3] == 32);
            }
            text::lemma_run_len_is(rest, 32, 3);
            assert(code.len() == 3);
            assert forall|j: int| 0 <= j < code.len() implies text::is_digit(
                #[trigger] code[j],
            ) by {
                assert(code[j] == rest[j]);
            }
        }
    }
}

/// A range as a server writes it: `bytes FIRST-LAST/TOTAL`, with `*` for a total
/// that it declines to say.
pub open spec fn range_text(r: ContentRange) -> Seq<u8> {
    "bytes ".spec_bytes() + print::decimal_text(r.first as nat) + seq![45u8] + print::decimal_text(
        r.last as nat,
    ) + seq![47u8] + (match r.total {
        Some(t) => print::decimal_text(t as nat),
        None => seq![42u8],
    })
}

/// A range is read as it was written, whatever its figures and the whitespace
/// around it.
pub proof fn law_range_reads_back(a: Seq<u8>, r: ContentRange, b: Seq<u8>)
    requires
        text_laws::blank(a),
        text_laws::blank(b),
    ensures
        http::range_of(a + range_text(r) + b) == Some(r),
{
    let v = range_text(r);
    let unit = "bytes ".spec_bytes();
    reveal_strlit("bytes ");
    text_laws::lemma_literal("bytes ");
    let f = print::decimal_text(r.first as nat);
    let l = print::decimal_text(r.last as nat);
    let t = match r.total {
        Some(t) => print::decimal_text(t as nat),
        None => seq![42u8],
    };
    let none = Seq::<u8>::empty();
    text_laws::lemma_decimal_text(r.first as nat);
    text_laws::lemma_decimal_text(r.last as nat);
    text_laws::law_trimmed_ignores_blanks(a, v, b);
    assert(t.len() > 0 && !text::is_space(t.last())) by {
        if let Some(n) = r.total {
            text_laws::lemma_decimal_text(n as nat);
            assert(48 <= t[t.len() - 1] <= 57);
        }
    }
    assert(v.last() == t.last());
    assert(v.first() == 98) by {
        assert(v[0] == unit[0]);
    }
    text_laws::lemma_trimmed_stays(v);
    let rest = f + seq![45u8] + l + seq![47u8] + t;
    assert(v == unit + rest);
    assert(v.skip(unit.len() as int) == rest);
    let range = f.push(45) + l;
    assert(rest == range.push(47) + t);
    assert forall|i: int| 0 <= i < range.len() implies #[trigger] range[i] != 47 by {
        if i < f.len() {
            assert(range[i] == f[i]);
        } else if i > f.len() {
            assert(range[i] == l[i - f.len() - 1]);
        }
    }
    text_laws::law_cut_comes_apart(range, 47, t);
    text_laws::law_cut_comes_apart(f, 45, l);
    assert(none + f + none == f && none + l + none == l && none + t + none == t);
    text_laws::law_number_reads_back(none, r.first as nat, none);
    text_laws::law_number_reads_back(none, r.last as nat, none);
    match r.total {
        Some(n) => {
            text_laws::law_number_reads_back(none, n as nat, none);
            text_laws::lemma_decimal_text(n as nat);
            text_laws::lemma_trimmed_stays(t);
            assert(t[0] != 42);
        },
        None => {
            text_laws::lemma_trimmed_stays(t);
        },
    }
}

/// What is read as a range is `bytes`, a number, a dash, a number, a slash, and a
/// number or a star: the parts that come back make it up.
pub proof fn law_range_is_made_up(v: Seq<u8>) -> (r: (Seq<u8>, Seq<u8>, Seq<u8>))
    requires
        http::range_of(v) is Some,
    ensures
        text::trimmed(v) == "bytes ".spec_bytes() + r.0 + seq![45u8] + r.1 + seq![47u8] + r.2,
        text::number(r.0) == Some(http::range_of(v)->0.first),
        text::number(r.1) == Some(http::range_of(v)->0.last),
        match http::range_of(v)->0.total {
            Some(t) => text::number(r.2) == Some(t),
            None => text::trimmed(r.2) == seq![42u8],
        },
{
    let t = text::trimmed(v);
    let unit = "bytes ".spec_bytes();
    let rest = t.skip(unit.len() as int);
    text::lemma_run_len(rest, 47);
    let (range, total) = text::cut(rest, 47)->0;
    text::lemma_run_len(range, 45);
    let (first, last) = text::cut(range, 45)->0;
    assert(range == first + seq![45u8] + last);
    assert(rest == range + seq![47u8] + total);
    assert(t == unit + rest) by {
        assert forall|i: int| 0 <= i < unit.len() implies t[i] == unit[i] by {}
    }
    assert(t == unit + first + seq![45u8] + last + seq![47u8] + total);
    (first, last, total)
}

/// The same letters, but for their case.
pub open spec fn same_letters(a: Seq<u8>, b: Seq<u8>) -> bool {
    a.len() == b.len() && forall|i: int|
        0 <= i < a.len() ==> text_laws::same_letter(#[trigger] a[i], b[i])
}

/// The line is a field of this name: the name, whatever its case and the whitespace
/// around it, then a colon.
pub open spec fn is_field(line: Seq<u8>, name: &str) -> bool {
    exists|n: Seq<u8>, v: Seq<u8>| #[trigger] is_field_of(line, name, n, v)
}

/// The line is a field of this name, written `n`, with the value `v`.
pub open spec fn is_field_of(line: Seq<u8>, name: &str, n: Seq<u8>, v: Seq<u8>) -> bool {
    &&& line == n.push(58) + v
    &&& forall|i: int| 0 <= i < n.len() ==> #[trigger] n[i] != 58
    &&& same_letters(text::trimmed(n), name.spec_bytes())
}

/// The line is a field that nothing reads, or none at all.
pub open spec fn is_other(line: Seq<u8>) -> bool {
    &&& !is_field(line, "content-length")
    &&& !is_field(line, "content-range")
    &&& !is_field(line, "etag")
    &&& !is_field(line, "last-modified")
    &&& !is_field(line, "transfer-encoding")
}

/// A field comes apart at its first colon, wherever whitespace stands.
proof fn lemma_parts(n: Seq<u8>, v: Seq<u8>)
    requires
        forall|i: int| 0 <= i < n.len() ==> #[trigger] n[i] != 58,
    ensures
        text::header_parts(text::trimmed(n.push(58) + v)) == Some(
            (text::trimmed(n), text::trimmed(v)),
        ),
{
    let s = n.push(58) + v;
    let (a, b) = text_laws::law_trimmed(s);
    let t = text::trimmed(s);
    let k = n.len() as int;
    let none = Seq::<u8>::empty();
    assert(s[k] == 58);
    if a.len() > k {
        assert(a[k] == s[k]);
    }
    if b.len() > v.len() {
        assert(b[k - (a.len() + t.len())] == s[k]);
    }
    let n2 = n.skip(a.len() as int);
    let v2 = v.take(v.len() - b.len());
    assert(t == s.subrange(a.len() as int, (a.len() + t.len()) as int));
    assert(t == n2.push(58) + v2);
    assert forall|i: int| 0 <= i < n2.len() implies #[trigger] n2[i] != 58 by {
        assert(n2[i] == n[i + a.len()]);
    }
    text_laws::law_cut_comes_apart(n2, 58, v2);
    assert(n == a + n2 + none) by {
        assert forall|i: int| 0 <= i < a.len() implies a[i] == n[i] by {
            assert(a[i] == s[i]);
        }
    }
    assert(v == none + v2 + b) by {
        assert forall|i: int| 0 <= i < b.len() implies b[i] == v[v.len() - b.len() + i] by {
            assert(b[i] == s[s.len() - b.len() + i]);
        }
    }
    text_laws::law_trimmed_ignores_blanks(a, n2, none);
    text_laws::law_trimmed_ignores_blanks(none, v2, b);
}

/// A line without a colon has no parts, and one with a colon has those around the
/// first.
proof fn lemma_line(line: Seq<u8>) -> (r: Option<(Seq<u8>, Seq<u8>)>)
    ensures
        match r {
            Some((n, v)) => {
                &&& line == n.push(58) + v
                &&& forall|i: int| 0 <= i < n.len() ==> #[trigger] n[i] != 58
                &&& text::header_parts(text::trimmed(line)) == Some(
                    (text::trimmed(n), text::trimmed(v)),
                )
            },
            None => text::header_parts(text::trimmed(line)) is None,
        },
{
    text::lemma_run_len(line, 58);
    let k = text::run_len(line, 58) as int;
    if k < line.len() {
        let n = line.take(k);
        let v = line.skip(k + 1);
        assert(line == n.push(58) + v);
        assert forall|i: int| 0 <= i < n.len() implies #[trigger] n[i] != 58 by {
            assert(n[i] == line[i]);
        }
        lemma_parts(n, v);
        Some((n, v))
    } else {
        let (a, b) = text_laws::law_trimmed(line);
        let t = text::trimmed(line);
        assert forall|i: int| 0 <= i < t.len() implies #[trigger] t[i] != 58 by {
            assert(t[i] == line[i + a.len()]);
        }
        text::lemma_run_len_is(t, 58, t.len() as int);
        None
    }
}

/// The five names that are read are five different names.
proof fn lemma_names(n: Seq<u8>)
    ensures
        http::names(n, "content-length") <==> same_letters(n, "content-length".spec_bytes()),
        http::names(n, "content-range") <==> same_letters(n, "content-range".spec_bytes()),
        http::names(n, "etag") <==> same_letters(n, "etag".spec_bytes()),
        http::names(n, "last-modified") <==> same_letters(n, "last-modified".spec_bytes()),
        http::names(n, "transfer-encoding") <==> same_letters(n, "transfer-encoding".spec_bytes()),
        "content-length".spec_bytes().len() == 14,
        "content-range".spec_bytes().len() == 13,
        "etag".spec_bytes().len() == 4,
        "last-modified".spec_bytes().len() == 13,
        "transfer-encoding".spec_bytes().len() == 17,
        http::names(n, "content-range") ==> !http::names(n, "last-modified"),
{
    text_laws::law_case_is_all_that_is_ignored(n, "content-length".spec_bytes());
    text_laws::law_case_is_all_that_is_ignored(n, "content-range".spec_bytes());
    text_laws::law_case_is_all_that_is_ignored(n, "etag".spec_bytes());
    text_laws::law_case_is_all_that_is_ignored(n, "last-modified".spec_bytes());
    text_laws::law_case_is_all_that_is_ignored(n, "transfer-encoding".spec_bytes());
    reveal_strlit("content-length");
    reveal_strlit("content-range");
    reveal_strlit("etag");
    reveal_strlit("last-modified");
    reveal_strlit("transfer-encoding");
    text_laws::lemma_literal("content-length");
    text_laws::lemma_literal("content-range");
    text_laws::lemma_literal("etag");
    text_laws::lemma_literal("last-modified");
    text_laws::lemma_literal("transfer-encoding");
    if http::names(n, "content-range") {
        assert(text::lower(n[0]) == text::lower("content-range".spec_bytes()[0]));
        assert("content-range".spec_bytes()[0] == 99 && "last-modified".spec_bytes()[0] == 108);
        assert(!http::names(n, "last-modified")) by {
            if http::names(n, "last-modified") {
                assert(text::lower(n[0]) == text::lower("last-modified".spec_bytes()[0]));
            }
        }
    }
}

/// A `Content-Length` field gives the head its length, as it is written, and
/// changes nothing else.
pub proof fn law_content_length_field(h: HeadView, n: Seq<u8>, a: Seq<u8>, len: u64, b: Seq<u8>)
    requires
        is_field_of(
            n.push(58) + (a + print::decimal_text(len as nat) + b),
            "content-length",
            n,
            a + print::decimal_text(len as nat) + b,
        ),
        text_laws::blank(a),
        text_laws::blank(b),
    ensures
        http::with_line(h, n.push(58) + (a + print::decimal_text(len as nat) + b)) == Ok::<
            HeadView,
            ParseError,
        >(HeadView { content_length: Some(len), ..h }),
{
    let d = print::decimal_text(len as nat);
    let v = a + d + b;
    let none = Seq::<u8>::empty();
    lemma_parts(n, v);
    lemma_names(text::trimmed(n));
    text_laws::law_trimmed_ignores_blanks(a, d, b);
    text_laws::lemma_decimal_text(len as nat);
    text_laws::lemma_trimmed_stays(d);
    text_laws::law_number_reads_back(none, len as nat, none);
    assert(none + d + none == d);
}

/// A `Content-Range` field gives the head its range, as it is written, and changes
/// nothing else.
pub proof fn law_content_range_field(
    h: HeadView,
    n: Seq<u8>,
    a: Seq<u8>,
    r: ContentRange,
    b: Seq<u8>,
)
    requires
        is_field_of(
            n.push(58) + (a + range_text(r) + b),
            "content-range",
            n,
            a + range_text(r) + b,
        ),
        text_laws::blank(a),
        text_laws::blank(b),
    ensures
        http::with_line(h, n.push(58) + (a + range_text(r) + b)) == Ok::<HeadView, ParseError>(
            HeadView { content_range: Some(r), ..h },
        ),
{
    let t = range_text(r);
    let v = a + t + b;
    let none = Seq::<u8>::empty();
    lemma_parts(n, v);
    lemma_names(text::trimmed(n));
    law_range_reads_back(a, r, b);
    let (x, y) = text_laws::law_trimmed(v);
    text_laws::law_trimmed_ignores_blanks(x, text::trimmed(v), y);
}

/// An `ETag` or `Last-Modified` field gives the head that text, if it is ASCII, and
/// changes nothing else.
pub proof fn law_text_field(h: HeadView, n: Seq<u8>, v: Seq<u8>)
    requires
        forall|i: int| 0 <= i < n.len() ==> #[trigger] n[i] != 58,
    ensures
        ({
            let t = text::trimmed(v);
            let line = n.push(58) + v;
            let chars = if forall|i: int| 0 <= i < t.len() ==> #[trigger] t[i] < 128 {
                Some(Seq::new(t.len(), |i: int| t[i] as char))
            } else {
                None
            };
            &&& is_field_of(line, "etag", n, v) ==> http::with_line(h, line) == Ok::<
                HeadView,
                ParseError,
            >(HeadView { etag: chars, ..h })
            &&& is_field_of(line, "last-modified", n, v) ==> http::with_line(h, line) == Ok::<
                HeadView,
                ParseError,
            >(HeadView { last_modified: chars, ..h })
        }),
{
    lemma_parts(n, v);
    lemma_names(text::trimmed(n));
}

/// A `Transfer-Encoding` field that names `chunked`, in any case and among whatever
/// else, is refused; one that does not changes nothing.
pub proof fn law_chunked_is_refused(h: HeadView, n: Seq<u8>, v: Seq<u8>)
    requires
        is_field_of(n.push(58) + v, "transfer-encoding", n, v),
    ensures
        ({
            let t = text::trimmed(v);
            let chunked = exists|i: int|
                0 <= i <= t.len() - 7 && #[trigger] same_letters(
                    t.subrange(i, i + 7),
                    "chunked".spec_bytes(),
                );
            http::with_line(h, n.push(58) + v) == (if chunked {
                Err::<HeadView, ParseError>(ParseError::Chunked)
            } else {
                Ok(h)
            })
        }),
{
    lemma_parts(n, v);
    lemma_names(text::trimmed(n));
    let t = text::trimmed(v);
    let word = "chunked".spec_bytes();
    reveal_strlit("chunked");
    text_laws::lemma_literal("chunked");
    assert forall|i: int| 0 <= i <= t.len() - 7 implies text::same_ignoring_case(
        #[trigger] t.subrange(i, i + 7),
        word,
    ) == same_letters(t.subrange(i, i + 7), word) by {
        text_laws::law_case_is_all_that_is_ignored(t.subrange(i, i + 7), word);
    }
    if text::occurs_ignoring_case(t, word) {
        let i = choose|i: int|
            0 <= i <= t.len() - word.len() && #[trigger] text::same_ignoring_case(
                t.subrange(i, i + word.len()),
                word,
            );
        assert(same_letters(t.subrange(i, i + 7), word));
    }
    if exists|i: int|
        0 <= i <= t.len() - 7 && #[trigger] same_letters(t.subrange(i, i + 7), word) {
        let i = choose|i: int|
            0 <= i <= t.len() - 7 && #[trigger] same_letters(t.subrange(i, i + 7), word);
        assert(text::same_ignoring_case(t.subrange(i, i + word.len()), word));
    }
}

/// A line changes only what its name says: one that is no `Content-Length` field
/// leaves the length, and so on; and any other line, with a colon or without,
/// changes nothing.
pub proof fn law_line_changes_what_it_names(h: HeadView, line: Seq<u8>)
    ensures
        is_other(line) ==> http::with_line(h, line) == Ok::<HeadView, ParseError>(h),
        http::with_line(h, line) matches Ok(g) ==> {
            &&& g.status == h.status
            &&& !is_field(line, "content-length") ==> g.content_length == h.content_length
            &&& !is_field(line, "content-range") ==> g.content_range == h.content_range
            &&& !is_field(line, "etag") ==> g.etag == h.etag
            &&& !is_field(line, "last-modified") ==> g.last_modified == h.last_modified
        },
        http::with_line(h, line) is Err ==> is_field(line, "transfer-encoding"),
{
    match lemma_line(line) {
        Some((n, v)) => {
            let t = text::trimmed(n);
            lemma_names(t);
            if same_letters(t, "content-length".spec_bytes()) {
                assert(is_field_of(line, "content-length", n, v));
            }
            if same_letters(t, "content-range".spec_bytes()) {
                assert(is_field_of(line, "content-range", n, v));
            }
            if same_letters(t, "etag".spec_bytes()) {
                assert(is_field_of(line, "etag", n, v));
            }
            if same_letters(t, "last-modified".spec_bytes()) {
                assert(is_field_of(line, "last-modified", n, v));
            }
            if same_letters(t, "transfer-encoding".spec_bytes()) {
                assert(is_field_of(line, "transfer-encoding", n, v));
            }
        },
        None => {},
    }
}

/// Lines as they go over the wire: each ended by CR LF, and a blank line behind
/// them.
pub open spec fn message(lines: Seq<Seq<u8>>) -> Seq<u8>
    decreases lines.len(),
{
    if lines.len() == 0 {
        seq![13u8, 10]
    } else {
        lines[0] + seq![13u8, 10] + message(lines.drop_first())
    }
}

/// Lines that can go over the wire: none is empty, and none is broken.
pub open spec fn sendable(lines: Seq<Seq<u8>>) -> bool {
    forall|k: int| 0 <= k < lines.len() ==> is_line(#[trigger] lines[k])
}

/// Something, on one line.
pub open spec fn is_line(line: Seq<u8>) -> bool {
    line.len() > 0 && forall|i: int| 0 <= i < line.len() ==> #[trigger] line[i] != 13 && line[i] != 10
}

proof fn lemma_sendable_rest(lines: Seq<Seq<u8>>)
    requires
        sendable(lines),
        lines.len() > 0,
    ensures
        sendable(lines.drop_first()),
{
    assert forall|k: int| 0 <= k < lines.drop_first().len() implies is_line(
        #[trigger] lines.drop_first()[k],
    ) by {
        assert(lines.drop_first()[k] == lines[k + 1]);
    }
}

/// The blank line behind the lines is the first, whatever follows it.
pub proof fn law_message_ends_at_its_blank_line(lines: Seq<Seq<u8>>, body: Seq<u8>)
    requires
        sendable(lines),
        lines.len() > 0,
    ensures
        http_laws::blank_line_at(message(lines) + body, message(lines).len() as int),
        forall|k: int|
            0 <= k < message(lines).len() ==> !http_laws::blank_line_at(message(lines) + body, k),
    decreases lines.len(),
{
    lemma_sendable_rest(lines);
    let l = lines[0];
    let rest = lines.drop_first();
    let m = message(rest) + body;
    let s = message(lines) + body;
    let d = l.len() + 2int;
    assert(is_line(l));
    assert(s == l + seq![13u8, 10] + m);
    assert forall|i: int| 0 <= i < l.len() implies #[trigger] s[i] == l[i] by {}
    assert(s[l.len() as int] == 13 && s[l.len() + 1int] == 10);
    assert forall|i: int| 0 <= i < m.len() implies #[trigger] m[i] == s[i + d] by {}
    if rest.len() == 0 {
        assert(message(rest) == seq![13u8, 10]);
        assert(m[0] == 13 && m[1] == 10);
        assert(s[d] == 13 && s[d + 1] == 10);
        assert forall|k: int| 0 <= k < message(lines).len() implies !http_laws::blank_line_at(
            s,
            k,
        ) by {
            if http_laws::blank_line_at(s, k) {
                assert(k - 4 < l.len());
                assert(s[k - 4] == l[k - 4]);
            }
        }
    } else {
        law_message_ends_at_its_blank_line(rest, body);
        let n = message(rest).len() as int;
        assert(is_line(rest[0])) by {
            assert(rest[0] == lines[1]);
        }
        assert(m[0] == rest[0][0]);
        assert(m[n - 4] == s[n - 4 + d] && m[n - 3] == s[n - 3 + d] && m[n - 2] == s[n - 2 + d]
            && m[n - 1] == s[n - 1 + d]);
        assert forall|k: int| 0 <= k < message(lines).len() implies !http_laws::blank_line_at(
            s,
            k,
        ) by {
            if http_laws::blank_line_at(s, k) {
                if k - 4 < l.len() {
                    assert(s[k - 4] == l[k - 4]);
                } else if k - 4 == l.len() {
                    assert(s[k - 2] == m[0]);
                } else if k - 4 == l.len() + 1 {
                    assert(s[k - 4] == 10);
                } else {
                    assert(m[k - 4 - d] == s[k - 4] && m[k - 3 - d] == s[k - 3] && m[k - 2 - d]
                        == s[k - 2] && m[k - 1 - d] == s[k - 1]);
                    assert(http_laws::blank_line_at(m, k - d));
                }
            }
        }
    }
}

/// A line end in front of the line break makes no difference.
proof fn lemma_line_end(h: HeadView, line: Seq<u8>)
    ensures
        http::with_line(h, line.push(13)) == http::with_line(h, line),
        http::status_of(line.push(13)) == http::status_of(line),
        http::with_line(h, seq![13u8]) == Ok::<HeadView, ParseError>(h),
        http::with_line(h, Seq::empty()) == Ok::<HeadView, ParseError>(h),
{
    let none = Seq::<u8>::empty();
    let cr = seq![13u8];
    assert(none + line + cr == line.push(13));
    text_laws::law_trimmed_ignores_blanks(none, line, cr);
    assert(none + none + cr == cr);
    text_laws::law_trimmed_ignores_blanks(none, none, cr);
    text::lemma_run_len(none, 58);
}

/// Header lines off the wire are the header lines.
proof fn lemma_lines_off_the_wire(h: HeadView, lines: Seq<Seq<u8>>)
    requires
        sendable(lines),
    ensures
        http::with_lines(h, text::fields(message(lines), 10)) == http::with_lines(h, lines),
    decreases lines.len(),
{
    let f = text::fields(message(lines), 10);
    let none = Seq::<u8>::empty();
    if lines.len() == 0 {
        let cr = seq![13u8];
        assert(message(lines) == cr.push(10) + none);
        text_laws::law_cut_comes_apart(cr, 10, none);
        text_laws::law_cut_comes_apart(none, 10, none);
        assert(f == seq![cr] + seq![none]);
        lemma_line_end(h, none);
        assert(f[0] == cr);
        assert(f.drop_first() == seq![none]);
        assert(seq![none][0] == none);
        assert(seq![none].drop_first().len() == 0);
        reveal_with_fuel(http::with_lines, 3);
    } else {
        let l = lines[0].push(13);
        let rest = message(lines.drop_first());
        assert(is_line(lines[0]));
        assert(message(lines) == l.push(10) + rest);
        assert forall|i: int| 0 <= i < l.len() implies #[trigger] l[i] != 10 by {
            if i < lines[0].len() {
                assert(l[i] == lines[0][i]);
            }
        }
        text_laws::law_cut_comes_apart(l, 10, rest);
        assert(f.drop_first() == text::fields(rest, 10));
        assert(f[0] == l);
        lemma_line_end(h, lines[0]);
        lemma_sendable_rest(lines);
        match http::with_line(h, lines[0]) {
            Ok(next) => lemma_lines_off_the_wire(next, lines.drop_first()),
            Err(_) => {},
        }
    }
}

/// A head off the wire is read as its lines: the first for the status, the others
/// one after the other.
pub proof fn law_message_is_its_lines(lines: Seq<Seq<u8>>)
    requires
        sendable(lines),
        lines.len() > 0,
    ensures
        http::head_of(http::blank_head(), message(lines)) == (match http::status_of(lines[0]) {
            Some(status) => http::with_lines(
                HeadView { status, ..http::blank_head() },
                lines.drop_first(),
            ),
            None => (http::blank_head(), Some(ParseError::BadStatusLine)),
        }),
{
    let l = lines[0].push(13);
    let rest = message(lines.drop_first());
    assert(is_line(lines[0]));
    assert(message(lines) == l.push(10) + rest);
    assert forall|i: int| 0 <= i < l.len() implies #[trigger] l[i] != 10 by {
        if i < lines[0].len() {
            assert(l[i] == lines[0][i]);
        }
    }
    text_laws::law_cut_comes_apart(l, 10, rest);
    let f = text::fields(message(lines), 10);
    assert(f[0] == l);
    assert(f.drop_first() == text::fields(rest, 10));
    lemma_line_end(http::blank_head(), lines[0]);
    lemma_sendable_rest(lines);
    match http::status_of(lines[0]) {
        Some(status) => lemma_lines_off_the_wire(
            HeadView { status, ..http::blank_head() },
            lines.drop_first(),
        ),
        None => {},
    }
}

/// What is said of a header, over some lines: the last that names it counts, and
/// without one it stays as it was.
proof fn lemma_lines_keep(h: HeadView, lines: Seq<Seq<u8>>)
    requires
        http::with_lines(h, lines).1 is None,
    ensures
        ({
            let g = http::with_lines(h, lines).0;
            &&& g.status == h.status
            &&& no_field(lines, "content-length") ==> g.content_length == h.content_length
            &&& no_field(lines, "content-range") ==> g.content_range == h.content_range
            &&& no_field(lines, "etag") ==> g.etag == h.etag
            &&& no_field(lines, "last-modified") ==> g.last_modified == h.last_modified
        }),
    decreases lines.len(),
{
    if lines.len() > 0 {
        law_line_changes_what_it_names(h, lines[0]);
        lemma_lines_keep(http::with_line(h, lines[0])->Ok_0, lines.drop_first());
        lemma_no_field_rest(lines, "content-length");
        lemma_no_field_rest(lines, "content-range");
        lemma_no_field_rest(lines, "etag");
        lemma_no_field_rest(lines, "last-modified");
    }
}

/// None of the lines is a field of this name.
pub open spec fn no_field(lines: Seq<Seq<u8>>, name: &str) -> bool {
    forall|k: int| 0 <= k < lines.len() ==> !is_field(#[trigger] lines[k], name)
}

proof fn lemma_no_field_rest(lines: Seq<Seq<u8>>, name: &str)
    requires
        lines.len() > 0,
    ensures
        no_field(lines, name) ==> no_field(lines.drop_first(), name) && !is_field(lines[0], name),
{
    if no_field(lines, name) {
        assert forall|k: int| 0 <= k < lines.drop_first().len() implies !is_field(
            #[trigger] lines.drop_first()[k],
            name,
        ) by {
            assert(lines.drop_first()[k] == lines[k + 1]);
        }
        assert(!is_field(lines[0], name));
    }
}

/// Lines up to the `k`-th, the `k`-th, and the lines behind it.
proof fn lemma_lines_around(h: HeadView, lines: Seq<Seq<u8>>, k: int)
    requires
        http::with_lines(h, lines).1 is None,
        0 <= k < lines.len(),
    ensures
        http::with_lines(h, lines.take(k)).1 is None,
        http::with_line(http::with_lines(h, lines.take(k)).0, lines[k]) is Ok,
        http::with_lines(h, lines) == http::with_lines(
            http::with_line(http::with_lines(h, lines.take(k)).0, lines[k])->Ok_0,
            lines.skip(k + 1),
        ),
    decreases k,
{
    if k == 0 {
        assert(lines.take(0).len() == 0);
        assert(lines.skip(1) == lines.drop_first());
    } else {
        let rest = lines.drop_first();
        lemma_lines_around(http::with_line(h, lines[0])->Ok_0, rest, k - 1);
        assert(lines.take(k).drop_first() == rest.take(k - 1));
        assert(lines.take(k)[0] == lines[0]);
        assert(rest[k - 1] == lines[k]);
        assert(rest.skip(k) == lines.skip(k + 1));
    }
}

/// What a whole head says of its length: what its only `Content-Length` field says,
/// and nothing without one. `lines[0]` is the status line.
pub proof fn law_head_reports_its_length(
    lines: Seq<Seq<u8>>,
    k: int,
    n: Seq<u8>,
    a: Seq<u8>,
    len: u64,
    b: Seq<u8>,
)
    requires
        sendable(lines),
        0 < k < lines.len(),
        http::head_of(http::blank_head(), message(lines)).1 is None,
        text_laws::blank(a),
        text_laws::blank(b),
    ensures
        no_field(lines.skip(1), "content-length") ==> http::head_of(
            http::blank_head(),
            message(lines),
        ).0.content_length is None,
        no_field(lines.skip(k + 1), "content-length") && is_field_of(
            lines[k],
            "content-length",
            n,
            a + print::decimal_text(len as nat) + b,
        ) ==> http::head_of(http::blank_head(), message(lines)).0.content_length == Some(len),
{
    law_message_is_its_lines(lines);
    let h = HeadView { status: http::status_of(lines[0])->0, ..http::blank_head() };
    let rest = lines.drop_first();
    assert(rest == lines.skip(1));
    lemma_lines_keep(h, rest);
    lemma_lines_around(h, rest, k - 1);
    assert(rest[k - 1] == lines[k]);
    assert(rest.skip(k) == lines.skip(k + 1));
    if is_field_of(lines[k], "content-length", n, a + print::decimal_text(len as nat) + b) {
        let before = http::with_lines(h, rest.take(k - 1)).0;
        law_content_length_field(before, n, a, len, b);
        lemma_lines_keep(http::with_line(before, lines[k])->Ok_0, rest.skip(k));
    }
}

/// What a whole head says of its range: what its last `Content-Range` field says,
/// and nothing without one.
pub proof fn law_head_reports_its_range(
    lines: Seq<Seq<u8>>,
    k: int,
    n: Seq<u8>,
    a: Seq<u8>,
    r: ContentRange,
    b: Seq<u8>,
)
    requires
        sendable(lines),
        0 < k < lines.len(),
        http::head_of(http::blank_head(), message(lines)).1 is None,
        text_laws::blank(a),
        text_laws::blank(b),
    ensures
        no_field(lines.skip(1), "content-range") ==> http::head_of(
            http::blank_head(),
            message(lines),
        ).0.content_range is None,
        no_field(lines.skip(k + 1), "content-range") && is_field_of(
            lines[k],
            "content-range",
            n,
            a + range_text(r) + b,
        ) ==> http::head_of(http::blank_head(), message(lines)).0.content_range == Some(r),
{
    law_message_is_its_lines(lines);
    let h = HeadView { status: http::status_of(lines[0])->0, ..http::blank_head() };
    let rest = lines.drop_first();
    assert(rest == lines.skip(1));
    lemma_lines_keep(h, rest);
    lemma_lines_around(h, rest, k - 1);
    assert(rest[k - 1] == lines[k]);
    assert(rest.skip(k) == lines.skip(k + 1));
    if is_field_of(lines[k], "content-range", n, a + range_text(r) + b) {
        let before = http::with_lines(h, rest.take(k - 1)).0;
        law_content_range_field(before, n, a, r, b);
        lemma_lines_keep(http::with_line(before, lines[k])->Ok_0, rest.skip(k));
    }
}

/// What a whole head says of its texts: what its last `ETag` and `Last-Modified`
/// fields say, and nothing without one.
pub proof fn law_head_reports_its_texts(lines: Seq<Seq<u8>>, k: int, n: Seq<u8>, v: Seq<u8>)
    requires
        sendable(lines),
        0 < k < lines.len(),
        http::head_of(http::blank_head(), message(lines)).1 is None,
        forall|i: int| 0 <= i < text::trimmed(v).len() ==> #[trigger] text::trimmed(v)[i] < 128,
    ensures
        ({
            let head = http::head_of(http::blank_head(), message(lines)).0;
            let t = text::trimmed(v);
            let chars = Some(Seq::new(t.len(), |i: int| t[i] as char));
            let after = lines.skip(k + 1);
            &&& no_field(lines.skip(1), "etag") ==> head.etag is None
            &&& no_field(lines.skip(1), "last-modified") ==> head.last_modified is None
            &&& no_field(after, "etag") && is_field_of(lines[k], "etag", n, v) ==> head.etag
                == chars
            &&& no_field(after, "last-modified") && is_field_of(lines[k], "last-modified", n, v)
                ==> head.last_modified == chars
        }),
{
    law_message_is_its_lines(lines);
    let h = HeadView { status: http::status_of(lines[0])->0, ..http::blank_head() };
    let rest = lines.drop_first();
    assert(rest == lines.skip(1));
    lemma_lines_keep(h, rest);
    lemma_lines_around(h, rest, k - 1);
    assert(rest[k - 1] == lines[k]);
    assert(rest.skip(k) == lines.skip(k + 1));
    let before = http::with_lines(h, rest.take(k - 1)).0;
    if is_field_of(lines[k], "etag", n, v) || is_field_of(lines[k], "last-modified", n, v) {
        law_text_field(before, n, v);
        lemma_lines_keep(http::with_line(before, lines[k])->Ok_0, rest.skip(k));
    }
}

/// A whole head has the status of its status line; without a status line it is
/// refused for that, and without a chunked body for nothing else.
pub proof fn law_head_reports_its_status(lines: Seq<Seq<u8>>)
    requires
        sendable(lines),
        lines.len() > 0,
    ensures
        ({
            let (head, error) = http::head_of(http::blank_head(), message(lines));
            &&& error == Some(ParseError::BadStatusLine) <==> http::status_of(lines[0]) is None
            &&& error is None ==> Some(head.status) == http::status_of(lines[0])
            &&& no_field(lines.skip(1), "transfer-encoding") && http::status_of(lines[0]) is Some
                ==> error is None
        }),
{
    law_message_is_its_lines(lines);
    assert(lines.drop_first() == lines.skip(1));
    match http::status_of(lines[0]) {
        Some(status) => {
            let h = HeadView { status, ..http::blank_head() };
            lemma_lines_refused(h, lines.drop_first());
            if http::with_lines(h, lines.drop_first()).1 is None {
                lemma_lines_keep(h, lines.drop_first());
            }
        },
        None => {},
    }
}

/// Lines are refused for nothing but a `Transfer-Encoding` field.
proof fn lemma_lines_refused(h: HeadView, lines: Seq<Seq<u8>>)
    ensures
        http::with_lines(h, lines).1 is Some ==> http::with_lines(h, lines).1 == Some(
            ParseError::Chunked,
        ),
        no_field(lines, "transfer-encoding") ==> http::with_lines(h, lines).1 is None,
    decreases lines.len(),
{
    if lines.len() > 0 {
        law_line_changes_what_it_names(h, lines[0]);
        lemma_no_field_rest(lines, "transfer-encoding");
        match http::with_line(h, lines[0]) {
            Ok(next) => lemma_lines_refused(next, lines.drop_first()),
            Err(_) => {},
        }
    }
}

/// A head that does not end is refused as soon as more than 64 KiB of it have come,
/// and not before.
pub proof fn law_head_is_bounded(p: http::ParserView, data: Seq<u8>)
    requires
        http_laws::intact(p),
        !p.done,
        forall|n: int| !http_laws::blank_line_at(p.pending + data, n),
    ensures
        http::fed(p, data).error == (if p.pending.len() + data.len() > 65536 {
            Some(ParseError::HeadTooLong)
        } else {
            None
        }),
        http::fed(p, data).body.len() == 0,
{
    if exists|n: int| http::ends_at(p.mark, data, n) {
        let n = choose|n: int| http::ends_at(p.mark, data, n);
        http_laws::law_end_is_a_blank_line(p, data, n);
    }
}

} // verus!
