//! What holds of the response parser as a whole: it does not matter how the
//! bytes are cut up, the head ends at the first blank line, and what is kept of
//! an unfinished head is bounded.

use vstd::prelude::*;

use crate::http;
use crate::http::{Fed, ParseError, ParserView, MAX_HEAD};

verus! {

proof fn lemma_mark_concat(mark: u8, a: Seq<u8>, b: Seq<u8>)
    ensures
        http::mark_after(mark, a + b) == http::mark_after(http::mark_after(mark, a), b),
    decreases b.len(),
{
    if b.len() == 0 {
        assert(a + b == a);
    } else {
        assert((a + b).drop_last() == a + b.drop_last());
        lemma_mark_concat(mark, a, b.drop_last());
    }
}

/// Where the head ends in the first of two pieces, it ends there in the whole.
proof fn lemma_end_in_first(mark: u8, a: Seq<u8>, b: Seq<u8>, n: int)
    requires
        http::ends_at(mark, a, n),
    ensures
        http::ends_at(mark, a + b, n),
{
    assert forall|k: int| 0 < k <= n implies #[trigger] (a + b).take(k) == a.take(k) by {}
}

/// Where the head ends in the second of two pieces, it ends there in the whole.
proof fn lemma_end_in_second(mark: u8, a: Seq<u8>, b: Seq<u8>, n: int)
    requires
        forall|m: int| !http::ends_at(mark, a, m),
        http::ends_at(http::mark_after(mark, a), b, n),
    ensures
        http::ends_at(mark, a + b, a.len() + n),
{
    lemma_no_early_mark(mark, a);
    assert((a + b).take(a.len() + n) == a + b.take(n));
    lemma_mark_concat(mark, a, b.take(n));
    assert forall|k: int| 0 < k < a.len() + n implies http::mark_after(
        mark,
        #[trigger] (a + b).take(k),
    ) != 4 by {
        if k <= a.len() {
            assert((a + b).take(k) == a.take(k));
        } else {
            assert((a + b).take(k) == a + b.take(k - a.len()));
            lemma_mark_concat(mark, a, b.take(k - a.len()));
        }
    }
}

/// Bytes in which the head does not end never complete the mark.
proof fn lemma_no_early_mark(mark: u8, a: Seq<u8>)
    requires
        forall|m: int| !http::ends_at(mark, a, m),
    ensures
        forall|k: int| 0 < k <= a.len() ==> http::mark_after(mark, #[trigger] a.take(k)) != 4,
{
    assert forall|k: int| 0 < k <= a.len() implies http::mark_after(mark, #[trigger] a.take(k))
        != 4 by {
        lemma_no_early_mark_at(mark, a, k);
    }
}

proof fn lemma_no_early_mark_at(mark: u8, a: Seq<u8>, k: int)
    requires
        forall|m: int| !http::ends_at(mark, a, m),
        0 < k <= a.len(),
    ensures
        http::mark_after(mark, a.take(k)) != 4,
    decreases k,
{
    assert forall|j: int| 0 < j < k implies http::mark_after(mark, #[trigger] a.take(j)) != 4 by {
        lemma_no_early_mark_at(mark, a, j);
    }
    assert(!http::ends_at(mark, a, k));
}

/// Where the head ends in neither piece, it does not end in the whole.
proof fn lemma_end_in_neither(mark: u8, a: Seq<u8>, b: Seq<u8>)
    requires
        forall|m: int| !http::ends_at(mark, a, m),
        forall|m: int| !http::ends_at(http::mark_after(mark, a), b, m),
    ensures
        forall|m: int| !http::ends_at(mark, a + b, m),
{
    lemma_no_early_mark(mark, a);
    lemma_no_early_mark(http::mark_after(mark, a), b);
    assert forall|m: int| !http::ends_at(mark, a + b, m) by {
        if 0 < m <= (a + b).len() {
            if m <= a.len() {
                assert((a + b).take(m) == a.take(m));
            } else {
                assert((a + b).take(m) == a + b.take(m - a.len()));
                lemma_mark_concat(mark, a, b.take(m - a.len()));
            }
        }
    }
}

/// Two pieces give what their concatenation gives: the same result, the same
/// body, and, where there is no error, the same parser. The one thing that a cut
/// can change is whether a head that is too long is noticed before it ends.
pub proof fn law_two_pieces(p: ParserView, a: Seq<u8>, b: Seq<u8>)
    requires
        http::fed(p, a).error != Some(ParseError::HeadTooLong),
    ensures
        http::fed(p, a).error is Some ==> http::fed(p, a + b) == http::fed(p, a),
        http::fed(p, a).error is None ==> {
            let first = http::fed(p, a);
            let second = http::fed(first.parser, b);
            let whole = http::fed(p, a + b);
            &&& whole.error == second.error
            &&& whole.body == first.body + second.body
            &&& whole.parser.head == second.parser.head
            &&& whole.parser.body == second.parser.body
            &&& second.error is None ==> whole.parser == second.parser
        },
{
    let first = http::fed(p, a);
    let whole = http::fed(p, a + b);
    if p.done {
        assert(whole.body == first.body + http::fed(first.parser, b).body);
    } else if exists|n: int| http::ends_at(p.mark, a, n) {
        let n = choose|n: int| http::ends_at(p.mark, a, n);
        http::lemma_fed_head_end(p, a, n);
        lemma_end_in_first(p.mark, a, b, n);
        http::lemma_fed_head_end(p, a + b, n);
        assert((a + b).take(n) == a.take(n));
        assert((a + b).skip(n) == a.skip(n) + b);
    } else {
        let q = first.parser;
        assert(q.mark == http::mark_after(p.mark, a));
        if exists|n: int| http::ends_at(q.mark, b, n) {
            let n = choose|n: int| http::ends_at(q.mark, b, n);
            http::lemma_fed_head_end(q, b, n);
            lemma_end_in_second(p.mark, a, b, n);
            http::lemma_fed_head_end(p, a + b, a.len() + n);
            assert((a + b).take(a.len() + n) == a + b.take(n));
            assert(p.pending + (a + b.take(n)) == (p.pending + a) + b.take(n));
            assert((a + b).skip(a.len() + n) == b.skip(n));
            assert(Seq::<u8>::empty() + b.skip(n) == b.skip(n));
        } else {
            lemma_end_in_neither(p.mark, a, b);
            lemma_mark_concat(p.mark, a, b);
            assert(p.pending + (a + b) == (p.pending + a) + b);
            assert(Seq::<u8>::empty() + Seq::<u8>::empty() == Seq::<u8>::empty());
        }
    }
}

/// Feeds the pieces one after the other, and stops at the first error.
pub open spec fn fed_all(p: ParserView, pieces: Seq<Seq<u8>>) -> Fed
    decreases pieces.len(),
{
    if pieces.len() == 0 {
        Fed { parser: p, body: Seq::empty(), error: None }
    } else {
        let before = fed_all(p, pieces.drop_last());
        if before.error is Some {
            before
        } else {
            let last = http::fed(before.parser, pieces.last());
            Fed { body: before.body + last.body, ..last }
        }
    }
}

/// Feeding some pieces and then others is feeding them all.
pub proof fn law_pieces_compose(p: ParserView, a: Seq<Seq<u8>>, b: Seq<Seq<u8>>)
    ensures
        ({
            let first = fed_all(p, a);
            let second = fed_all(first.parser, b);
            fed_all(p, a + b) == (if first.error is Some {
                first
            } else {
                Fed { body: first.body + second.body, ..second }
            })
        }),
    decreases b.len(),
{
    let first = fed_all(p, a);
    if b.len() == 0 {
        assert(a + b == a);
        assert(first.body + Seq::<u8>::empty() == first.body);
    } else {
        let before = b.drop_last();
        law_pieces_compose(p, a, before);
        assert((a + b).drop_last() == a + before);
        assert((a + b).last() == b.last());
        if first.error is None {
            let mid = fed_all(first.parser, before);
            let last = http::fed(mid.parser, b.last());
            assert(first.body + mid.body + last.body == first.body + (mid.body + last.body));
        }
    }
}

/// The pieces, one after the other.
pub open spec fn joined(pieces: Seq<Seq<u8>>) -> Seq<u8>
    decreases pieces.len(),
{
    if pieces.len() == 0 {
        Seq::empty()
    } else {
        joined(pieces.drop_last()) + pieces.last()
    }
}

/// However a response is cut into pieces, feeding them without an error leaves
/// what feeding it whole leaves.
pub proof fn law_any_pieces(p: ParserView, pieces: Seq<Seq<u8>>)
    requires
        fed_all(p, pieces).error is None,
        pieces.len() > 0,
    ensures
        http::fed(p, joined(pieces)) == fed_all(p, pieces),
    decreases pieces.len(),
{
    let before = pieces.drop_last();
    if before.len() == 0 {
        assert(joined(before) == Seq::<u8>::empty());
        assert(joined(pieces) == pieces.last());
        assert(fed_all(p, pieces).body == http::fed(p, pieces.last()).body);
    } else {
        law_any_pieces(p, before);
        law_two_pieces(p, joined(before), pieces.last());
        assert(http::fed(p, joined(pieces)).body == fed_all(p, pieces).body);
    }
}

/// A blank line, CR LF CR LF, ends after the first `n` bytes of `s`.
pub open spec fn blank_line_at(s: Seq<u8>, n: int) -> bool {
    &&& 4 <= n <= s.len()
    &&& s[n - 4] == 13
    &&& s[n - 3] == 10
    &&& s[n - 2] == 13
    &&& s[n - 1] == 10
}

/// How much of a blank line `s` ends with, short of all of it.
spec fn partial_blank(s: Seq<u8>) -> u8 {
    let n = s.len() as int;
    if n >= 3 && s[n - 3] == 13 && s[n - 2] == 10 && s[n - 1] == 13 {
        3
    } else if n >= 2 && s[n - 2] == 13 && s[n - 1] == 10 {
        2
    } else if n >= 1 && s[n - 1] == 13 {
        1
    } else {
        0
    }
}

proof fn lemma_mark_is_partial(s: Seq<u8>)
    requires
        forall|k: int| 0 <= k < s.len() ==> !blank_line_at(s, k),
    ensures
        blank_line_at(s, s.len() as int) ==> http::mark_after(0, s) == 4,
        !blank_line_at(s, s.len() as int) ==> http::mark_after(0, s) == partial_blank(s),
    decreases s.len(),
{
    if s.len() > 0 {
        let t = s.drop_last();
        assert forall|k: int| 0 <= k <= t.len() implies !blank_line_at(t, k) by {
            assert(!blank_line_at(s, k));
        }
        lemma_mark_is_partial(t);
    }
}

/// From a fresh start the head ends at the first blank line.
pub proof fn law_first_blank_line(s: Seq<u8>, n: int)
    ensures
        http::ends_at(0, s, n) <==> blank_line_at(s, n) && forall|k: int|
            0 <= k < n ==> !blank_line_at(s, k),
{
    if http::ends_at(0, s, n) {
        if exists|k: int| 0 <= k <= n && blank_line_at(s, k) {
            let k = choose|k: int| 0 <= k <= n && blank_line_at(s, k);
            let k = lemma_first_blank(s, k);
            lemma_blank_in_prefix(s, k);
            lemma_mark_is_partial(s.take(k));
            if k < n {
                assert(http::mark_after(0, s.take(k)) != 4);
            }
        } else {
            assert forall|k: int| 0 <= k <= n implies !blank_line_at(s.take(n), k) by {
                assert(!blank_line_at(s, k));
            }
            lemma_mark_is_partial(s.take(n));
        }
    }
    if blank_line_at(s, n) && forall|k: int| 0 <= k < n ==> !blank_line_at(s, k) {
        lemma_blank_in_prefix(s, n);
        lemma_mark_is_partial(s.take(n));
        assert forall|k: int| 0 < k < n implies http::mark_after(0, #[trigger] s.take(k)) != 4 by {
            assert forall|j: int| 0 <= j <= k implies !blank_line_at(s.take(k), j) by {
                assert(!blank_line_at(s, j));
            }
            lemma_mark_is_partial(s.take(k));
        }
    }
}

/// The least prefix that ends in a blank line.
proof fn lemma_first_blank(s: Seq<u8>, n: int) -> (k: int)
    requires
        blank_line_at(s, n),
    ensures
        0 <= k <= n,
        blank_line_at(s, k),
        forall|j: int| 0 <= j < k ==> !blank_line_at(s, j),
    decreases n,
{
    if exists|j: int| 0 <= j < n && blank_line_at(s, j) {
        lemma_first_blank(s, choose|j: int| 0 <= j < n && blank_line_at(s, j))
    } else {
        n
    }
}

proof fn lemma_blank_in_prefix(s: Seq<u8>, n: int)
    requires
        blank_line_at(s, n),
        forall|k: int| 0 <= k < n ==> !blank_line_at(s, k),
    ensures
        blank_line_at(s.take(n), n),
        forall|k: int| 0 <= k < n ==> !blank_line_at(s.take(n), k),
{
    assert forall|k: int| 0 <= k < n implies !blank_line_at(s.take(n), k) by {
        assert(!blank_line_at(s, k));
    }
}

/// A parser that has met no error: until its head is whole it knows nothing,
/// has counted no body, and keeps at most `MAX_HEAD` bytes, with no blank line
/// among them.
pub open spec fn intact(p: ParserView) -> bool {
    !p.done ==> {
        &&& p.head == http::blank_head()
        &&& p.body == 0
        &&& p.pending.len() <= MAX_HEAD
        &&& p.mark == http::mark_after(0, p.pending)
        &&& forall|n: int| !blank_line_at(p.pending, n)
    }
}

/// A new parser is intact, and stays so as long as feeding it succeeds. Without
/// a whole head there is no status and no body, and an endless head is bounded.
pub proof fn law_intact(p: ParserView, data: Seq<u8>)
    ensures
        intact(http::blank_parser()),
        intact(p) && http::fed(p, data).error is None ==> intact(http::fed(p, data).parser),
        intact(p) && !p.done ==> p.head.status == 0 && p.body == 0,
{
    if intact(p) && !p.done && http::fed(p, data).error is None {
        let s = p.pending + data;
        lemma_mark_concat(0, p.pending, data);
        if exists|n: int| http::ends_at(p.mark, data, n) {
        } else {
            assert forall|n: int| !blank_line_at(s, n) by {
                if blank_line_at(s, n) {
                    let k = lemma_first_blank(s, n);
                    lemma_blank_in_prefix(s, k);
                    lemma_mark_is_partial(s.take(k));
                    if k <= p.pending.len() {
                        assert(blank_line_at(p.pending, k));
                    } else {
                        let m = k - p.pending.len();
                        assert(s.take(k) == p.pending + data.take(m));
                        lemma_mark_concat(0, p.pending, data.take(m));
                        lemma_no_early_mark(p.mark, data);
                    }
                }
            }
        }
    }
}

/// The body is counted byte for byte, as far as a `u64` goes.
pub proof fn law_body_is_counted(p: ParserView, pieces: Seq<Seq<u8>>)
    requires
        fed_all(p, pieces).error is None,
    ensures
        ({
            let f = fed_all(p, pieces);
            f.parser.body == (if p.body + f.body.len() <= u64::MAX {
                p.body + f.body.len()
            } else {
                u64::MAX as int
            })
        }),
    decreases pieces.len(),
{
    if pieces.len() > 0 {
        law_body_is_counted(p, pieces.drop_last());
        let mid = fed_all(p, pieces.drop_last()).parser;
        let data = pieces.last();
        if !mid.done && exists|n: int| http::ends_at(mid.mark, data, n) {
            let n = choose|n: int| http::ends_at(mid.mark, data, n);
            http::lemma_fed_head_end(mid, data, n);
        }
    }
}

/// A parser stays intact as long as feeding it pieces succeeds.
pub proof fn law_intact_after_pieces(p: ParserView, pieces: Seq<Seq<u8>>)
    requires
        intact(p),
        fed_all(p, pieces).error is None,
    ensures
        intact(fed_all(p, pieces).parser),
    decreases pieces.len(),
{
    if pieces.len() > 0 {
        law_intact_after_pieces(p, pieces.drop_last());
        law_intact(fed_all(p, pieces.drop_last()).parser, pieces.last());
    }
}

/// Where an intact parser without a head finds its end, there is a blank line.
pub proof fn law_end_is_a_blank_line(p: ParserView, data: Seq<u8>, n: int)
    requires
        intact(p),
        !p.done,
        http::ends_at(p.mark, data, n),
    ensures
        blank_line_at(p.pending + data, p.pending.len() + n),
{
    let all = p.pending + data;
    let m = p.pending.len() + n;
    lemma_mark_concat(0, p.pending, data.take(n));
    assert(all.take(m) == p.pending + data.take(n));
    assert forall|k: int| 0 < k < m implies http::mark_after(0, #[trigger] all.take(k)) != 4 by {
        if k <= p.pending.len() {
            assert(all.take(k) == p.pending.take(k));
            lemma_no_blank_no_mark(p.pending, k);
        } else {
            assert(all.take(k) == p.pending + data.take(k - p.pending.len()));
            lemma_mark_concat(0, p.pending, data.take(k - p.pending.len()));
        }
    }
    assert(http::ends_at(0, all, m));
    law_first_blank_line(all, m);
}

proof fn lemma_no_blank_no_mark(s: Seq<u8>, k: int)
    requires
        forall|n: int| !blank_line_at(s, n),
        0 < k <= s.len(),
    ensures
        http::mark_after(0, s.take(k)) != 4,
{
    assert forall|j: int| 0 <= j <= k implies !blank_line_at(s.take(k), j) by {
        assert(!blank_line_at(s, j));
    }
    lemma_mark_is_partial(s.take(k));
}

/// For an intact parser without a head, the head is everything up to the first
/// blank line of all that was fed, and the body is everything after it.
pub proof fn law_head_and_body(p: ParserView, data: Seq<u8>, n: int)
    requires
        intact(p),
        !p.done,
        blank_line_at(p.pending + data, n),
        forall|k: int| 0 <= k < n ==> !blank_line_at(p.pending + data, k),
    ensures
        ({
            let all = p.pending + data;
            let (head, error) = http::head_of(http::blank_head(), all.take(n));
            let after = http::fed(p, data);
            &&& after.error == error
            &&& after.parser.head == head
            &&& error is None ==> after.parser.done && after.body == all.skip(n)
                && after.parser.body == http::counted(0, all.skip(n).len())
            &&& error is Some ==> after.body.len() == 0
        }),
{
    let all = p.pending + data;
    let m = n - p.pending.len();
    if n <= p.pending.len() {
        assert(blank_line_at(p.pending, n));
    }
    law_first_blank_line(all, n);
    assert(all.take(n) == p.pending + data.take(m));
    lemma_mark_concat(0, p.pending, data.take(m));
    assert forall|k: int| 0 < k < m implies http::mark_after(p.mark, #[trigger] data.take(k))
        != 4 by {
        assert(all.take(p.pending.len() + k) == p.pending + data.take(k));
        lemma_mark_concat(0, p.pending, data.take(k));
    }
    assert(http::ends_at(p.mark, data, m));
    http::lemma_fed_head_end(p, data, m);
    assert(all.skip(n) == data.skip(m));
}

} // verus!
