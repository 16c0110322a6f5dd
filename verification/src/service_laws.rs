//! What a caller is told: the answer to a request is what the response said, byte
//! for byte off the wire, and the time that it took adds up.

use vstd::prelude::*;
use vstd::arithmetic::div_mod::*;

use crate::conn::{ConnView, Step};
use crate::conn_laws;
use crate::conn_laws::Visit;
use crate::error::Error;
use crate::head_laws;
use crate::http;
use crate::http::{ContentRange, SinkView};
use crate::http_laws;
use crate::net::TcpState;
use crate::print;
use crate::service;
use crate::service::{Completion, GetResult, Job, PendingView, ServerView};
use crate::stats::CountersView;
use crate::text;
use crate::text_laws;
use crate::worker::WorkerView;

verus! {

/// One look at a busy slot: what it found, and what came of it.
pub struct Look {
    pub before: ServerView,
    pub stats: CountersView,
    pub slot: int,
    pub stored: u64,
    pub dropped: bool,
    pub addresses: nat,
    pub done: Option<Completion>,
    pub after: ServerView,
    pub stats_after: CountersView,
    pub now_ns: u64,
    pub made: spec_fn(SinkView) -> bool,
    pub read: spec_fn(u64) -> bool,
}

/// The look is one that a server takes.
pub open spec fn taken(l: Look) -> bool {
    service::settle_outcome(
        l.before,
        l.stats,
        l.slot,
        l.stored,
        l.dropped,
        l.addresses,
        l.done,
        l.after,
        l.stats_after,
        l.now_ns,
        l.made,
        l.read,
    )
}

/// A look at a slot whose response is complete, and fitted into its sink.
pub open spec fn finds_complete(l: Look, c: ConnView) -> bool {
    &&& taken(l)
    &&& 0 <= l.slot < l.before.pending.len()
    &&& l.before.pending[l.slot] is Some
    &&& l.before.worker.conns[l.slot] == Some(c)
    &&& c.outcome == Some(Step::Complete)
    &&& !l.dropped
}

/// The lines and the body of a response, as they came in over some visits to a
/// connection that began with nothing.
pub open spec fn came_as(
    c: ConnView,
    visits: Seq<Visit>,
    lines: Seq<Seq<u8>>,
    body: Seq<u8>,
) -> bool {
    &&& c.plain() ==> c.incoming.len() == 0
    &&& c.outcome is None
    &&& c.exchange.parser == http::blank_parser()
    &&& conn_laws::all_genuine(c, visits)
    &&& conn_laws::sound(conn_laws::visited_all(c, visits))
    &&& head_laws::sendable(lines)
    &&& lines.len() > 0
    &&& http_laws::joined(conn_laws::pieces_of(c, visits)) == head_laws::message(lines) + body
}

proof fn lemma_came_as(c: ConnView, visits: Seq<Visit>, lines: Seq<Seq<u8>>, body: Seq<u8>)
    requires
        came_as(c, visits, lines, body),
    ensures
        ({
            let end = conn_laws::visited_all(c, visits);
            let (head, error) = http::head_of(http::blank_head(), head_laws::message(lines));
            &&& error is None
            &&& end.exchange.parser.head == head
            &&& end.exchange.sink == c.exchange.sink.with(body)
        }),
{
    let m = head_laws::message(lines);
    let n = m.len() as int;
    head_laws::law_message_ends_at_its_blank_line(lines, body);
    conn_laws::law_response_reaches_sink(c, visits, n);
    assert((m + body).take(n) == m);
    assert((m + body).skip(n) == body);
}

/// What a caller is told of a response: its status, and whatever its head says of
/// length, range, entity tag and date, as the server wrote them, whether or not
/// there was a body; and how much was written, which is what the sink stored of it.
/// `lines[0]` is the status line.
pub proof fn law_answer_is_what_the_head_said(
    c: ConnView,
    visits: Seq<Visit>,
    lines: Seq<Seq<u8>>,
    body: Seq<u8>,
    l: Look,
)
    requires
        came_as(c, visits, lines, body),
        finds_complete(l, conn_laws::visited_all(c, visits)),
    ensures
        l.done is Some,
        l.done->0.id == l.before.pending[l.slot]->0.id,
        l.done->0.result is Ok,
        ({
            let g = l.done->0.result->Ok_0;
            &&& g.written == l.stored
            &&& Some(g.status) == http::status_of(lines[0])
            &&& head_laws::no_field(lines.skip(1), "content-length") ==> g.content_length is None
            &&& head_laws::no_field(lines.skip(1), "content-range") ==> g.content_range is None
            &&& head_laws::no_field(lines.skip(1), "etag") ==> g.etag is None
            &&& head_laws::no_field(lines.skip(1), "last-modified") ==> g.last_modified is None
            &&& conn_laws::visited_all(c, visits).exchange.sink.received
                == c.exchange.sink.received + body
        }),
{
    lemma_came_as(c, visits, lines, body);
    head_laws::law_head_reports_its_status(lines);
    let none = Seq::<u8>::empty();
    if lines.len() > 1 {
        head_laws::law_head_reports_its_length(lines, 1, none, none, 0, none);
        head_laws::law_head_reports_its_range(
            lines,
            1,
            none,
            none,
            ContentRange { first: 0, last: 0, total: None },
            none,
        );
        assert(text::trimmed(none) == none);
        head_laws::law_head_reports_its_texts(lines, 1, none, none);
    } else {
        head_laws::law_message_is_its_lines(lines);
        assert(lines.drop_first().len() == 0);
    }
}

/// The length that a caller is told of is the one that the head announced, for a
/// response without a body as well.
pub proof fn law_answer_reports_the_announced_length(
    c: ConnView,
    visits: Seq<Visit>,
    lines: Seq<Seq<u8>>,
    body: Seq<u8>,
    l: Look,
    k: int,
    n: Seq<u8>,
    a: Seq<u8>,
    len: u64,
    b: Seq<u8>,
)
    requires
        came_as(c, visits, lines, body),
        finds_complete(l, conn_laws::visited_all(c, visits)),
        0 < k < lines.len(),
        head_laws::is_field_of(
            lines[k],
            "content-length",
            n,
            a + print::decimal_text(len as nat) + b,
        ),
        head_laws::no_field(lines.skip(k + 1), "content-length"),
        text_laws::blank(a),
        text_laws::blank(b),
    ensures
        l.done matches Some(d) && d.result matches Ok(g) && g.content_length == Some(len),
{
    lemma_came_as(c, visits, lines, body);
    head_laws::law_head_reports_its_length(lines, k, n, a, len, b);
}

/// The range that a caller is told of is the one that the head gave.
pub proof fn law_answer_reports_the_range(
    c: ConnView,
    visits: Seq<Visit>,
    lines: Seq<Seq<u8>>,
    body: Seq<u8>,
    l: Look,
    k: int,
    n: Seq<u8>,
    a: Seq<u8>,
    r: ContentRange,
    b: Seq<u8>,
)
    requires
        came_as(c, visits, lines, body),
        finds_complete(l, conn_laws::visited_all(c, visits)),
        0 < k < lines.len(),
        head_laws::is_field_of(lines[k], "content-range", n, a + head_laws::range_text(r) + b),
        head_laws::no_field(lines.skip(k + 1), "content-range"),
        text_laws::blank(a),
        text_laws::blank(b),
    ensures
        l.done matches Some(d) && d.result matches Ok(g) && g.content_range == Some(r),
{
    lemma_came_as(c, visits, lines, body);
    head_laws::law_head_reports_its_range(lines, k, n, a, r, b);
}

/// The entity tag and the date that a caller is told of are those that the head
/// gave.
pub proof fn law_answer_reports_the_texts(
    c: ConnView,
    visits: Seq<Visit>,
    lines: Seq<Seq<u8>>,
    body: Seq<u8>,
    l: Look,
    k: int,
    n: Seq<u8>,
    v: Seq<u8>,
)
    requires
        came_as(c, visits, lines, body),
        finds_complete(l, conn_laws::visited_all(c, visits)),
        0 < k < lines.len(),
        forall|i: int| 0 <= i < text::trimmed(v).len() ==> #[trigger] text::trimmed(v)[i] < 128,
    ensures
        ({
            let t = text::trimmed(v);
            let chars = Seq::new(t.len(), |i: int| t[i] as char);
            let after = lines.skip(k + 1);
            &&& head_laws::is_field_of(lines[k], "etag", n, v) && head_laws::no_field(after, "etag")
                ==> (l.done matches Some(d) && d.result matches Ok(g) && g.etag matches Some(e)
                && e@ == chars)
            &&& head_laws::is_field_of(lines[k], "last-modified", n, v) && head_laws::no_field(
                after,
                "last-modified",
            ) ==> (l.done matches Some(d) && d.result matches Ok(g) && g.last_modified matches Some(
                e,
            ) && e@ == chars)
        }),
{
    lemma_came_as(c, visits, lines, body);
    head_laws::law_head_reports_its_texts(lines, k, n, v);
}

/// A body that did not fit is reported as that, and as nothing else; what the
/// connection failed with is what the caller is told.
pub proof fn law_failure_is_reported(l: Look, c: ConnView)
    requires
        taken(l),
        0 <= l.slot < l.before.pending.len(),
        l.before.pending[l.slot] is Some,
        l.before.worker.conns[l.slot] == Some(c),
    ensures
        c.outcome == Some(Step::Complete) && l.dropped ==> (l.done matches Some(d) && d.result
            == Err::<GetResult, Error>(Error::BufferTooSmall)),
        forall|e: Error|
            c.outcome == Some(Step::Failed(e)) && l.done is Some ==> #[trigger] is_err(
                l.done->0.result,
                e,
            ),
        c.outcome is None ==> l.done is None,
{
}

/// The result is this error.
pub open spec fn is_err(r: Result<GetResult, Error>, e: Error) -> bool {
    r matches Err(f) && f == e
}

/// The time of a request adds up: what it waited before it was picked up, and what
/// it was on the wire, which the first byte of the head divides in two.
pub proof fn law_times_add_up(l: Look, c: ConnView, head_ns: u64)
    requires
        taken(l),
        0 <= l.slot < l.before.pending.len(),
        l.before.pending[l.slot] is Some,
        l.before.worker.conns[l.slot] == Some(c),
        c.outcome == Some(Step::Complete),
        c.head_ns == Some(head_ns),
        0 <= l.slot < l.before.worker.conns.len(),
        ({
            let pd = l.before.pending[l.slot]->0;
            pd.submitted_ns <= pd.picked_ns <= head_ns + l.before.epoch_ns <= l.now_ns
        }),
    ensures
        ({
            let pd = l.before.pending[l.slot]->0;
            let queued = (pd.picked_ns - pd.submitted_ns) as u64;
            let wire = (l.now_ns - pd.picked_ns) as u64;
            let first = (head_ns + l.before.epoch_ns - pd.picked_ns) as u64;
            let rest = (l.now_ns - (head_ns + l.before.epoch_ns)) as u64;
            let s = l.stats;
            let t = l.stats_after;
            &&& first + rest == wire
            &&& t.requests_done == s.requests_done.wrapping_add(1)
            &&& t.queue_ns_total == s.queue_ns_total.wrapping_add(queued)
            &&& t.wire_ns_total == s.wire_ns_total.wrapping_add(wire)
            &&& t.ttfb_ns_total == s.ttfb_ns_total.wrapping_add(first)
            &&& t.xfer_ns_total == s.xfer_ns_total.wrapping_add(rest)
            &&& t.ttfb_n == s.ttfb_n.wrapping_add(1)
            &&& t.xfer_n == s.xfer_n.wrapping_add(1)
            &&& t.body_bytes == s.body_bytes.wrapping_add(
                if l.dropped {
                    0
                } else {
                    l.stored
                },
            )
        }),
{
}

/// When a request is over, its connection is kept exactly if the response was
/// complete and the socket is still open both ways; else the slot is empty.
pub proof fn law_kept_if_it_can_be(l: Look, c: ConnView)
    requires
        taken(l),
        0 <= l.slot < l.before.pending.len(),
        l.before.pending[l.slot] is Some,
        l.before.worker.conns[l.slot] == Some(c),
        l.done is Some,
        l.before.worker.slots() == l.before.worker.conns.len(),
        l.slot < l.before.worker.slots(),
    ensures
        ({
            let open = l.before.worker.socket(l.slot).state == TcpState::Established;
            &&& l.after.worker.conns[l.slot] is Some <==> c.outcome == Some(Step::Complete) && open
            &&& l.after.pending[l.slot] is None
            &&& l.after.worker.conns[l.slot] is None ==> l.after.worker.socket(l.slot).state
                == TcpState::Closed
        }),
{
}

/// A request is picked up on the connection that its slot has kept, if that can take
/// it, and else on a new one; either way it goes out as it was submitted.
pub proof fn law_picked_up_as_submitted(
    before: ServerView,
    stats: CountersView,
    slot: int,
    pd: PendingView,
    addresses: nat,
    after: ServerView,
    stats_after: CountersView,
    made: spec_fn(SinkView) -> bool,
    read: spec_fn(u64) -> bool,
)
    requires
        service::pick_outcome(
            before,
            stats,
            slot,
            pd,
            addresses,
            None,
            after,
            stats_after,
            made,
            read,
        ),
        0 <= slot < before.pending.len(),
        slot < before.worker.slots(),
        before.worker.slots() == before.worker.conns.len(),
    ensures
        ({
            let kept = before.worker.conns[slot] is Some
                && before.worker.conns[slot]->0.outcome == Some(Step::Complete)
                && before.worker.socket(slot).state == TcpState::Established;
            &&& after.worker.conns[slot] matches Some(c) && c.exchange.request == pd.request && made(
                c.exchange.sink,
            ) && (kept ==> c.src_port == before.worker.conns[slot]->0.src_port)
            &&& after.pending[slot] matches Some(p) && p.id == pd.id && p.request == pd.request
                && p.submitted_ns == pd.submitted_ns && p.picked_ns == pd.picked_ns && p.reused
                == kept && !p.retried
            &&& stats_after.requests_served == stats.requests_served.wrapping_add(1)
            &&& stats_after.requests_reused == (if kept {
                stats.requests_reused.wrapping_add(1)
            } else {
                stats.requests_reused
            })
        }),
{
}

/// A request that is dialled again is the same request, on a new connection with a
/// sink of its own, and is counted as retried.
pub proof fn law_retry_repeats_the_request(l: Look)
    requires
        taken(l),
        0 <= l.slot < l.before.pending.len(),
        l.before.pending[l.slot] is Some,
        l.slot < l.before.worker.slots(),
        l.before.worker.slots() == l.before.worker.conns.len(),
        l.after.pending[l.slot] is Some,
        l.after.pending[l.slot] != l.before.pending[l.slot],
    ensures
        ({
            let p = l.before.pending[l.slot]->0;
            let q = l.after.pending[l.slot]->0;
            &&& q.id == p.id && q.request == p.request && q.submitted_ns == p.submitted_ns
                && q.picked_ns == p.picked_ns
            &&& !p.retried && q.retried && p.reused && !q.reused
            &&& l.after.worker.conns[l.slot] matches Some(c) && c.exchange.request == p.request
                && (l.made)(c.exchange.sink) && c.outcome is None && !c.exchange.queued
            &&& l.after.worker.socket(l.slot).state == TcpState::SynSent
            &&& l.stats_after.requests_retried == l.stats.requests_retried.wrapping_add(1)
            &&& l.stats_after.requests_done == l.stats.requests_done
        }),
{
}

/// A peer that can be dialled on plain HTTP: it has an address and a port, and so
/// has every port that it is dialled from.
pub open spec fn within_reach(w: WorkerView, addresses: nat) -> bool {
    &&& !w.peer.tls
    &&& w.peer.port != 0
    &&& w.peer.ip@.len() == 4
    &&& exists|i: int| 0 <= i < 4 && #[trigger] w.peer.ip@[i] != 0
    &&& w.rotation.len() > 0
    &&& forall|i: int| 0 <= i < w.rotation.len() ==> #[trigger] w.rotation[i] != 0
    &&& addresses > 0
}

proof fn lemma_within_reach(s: ServerView, slot: int, addresses: nat)
    requires
        within_reach(s.worker, addresses),
        0 <= slot < s.worker.slots(),
    ensures
        s.cleared(slot).connectable(slot, s.worker.port_due(), addresses),
        s.cleared(slot).slots() == s.worker.slots(),
        s.cleared(slot).peer == s.worker.peer,
{
    let w = s.worker;
    let i = choose|i: int| 0 <= i < 4 && #[trigger] w.peer.ip@[i] != 0;
    assert(seq![0u8, 0, 0, 0][i] == 0);
    let n = w.rotation.len() as int;
    let k = w.next_port as int % n;
    assert(0 <= k < n);
    assert(w.rotation[k] != 0);
}

/// A request that fails on a kept connection is not answered with that failure: it
/// is dialled again, whatever went wrong, if the peer is within reach.
pub proof fn law_kept_connection_may_fail_once(l: Look, c: ConnView, e: Error)
    requires
        taken(l),
        0 <= l.slot < l.before.pending.len(),
        l.before.pending[l.slot] is Some,
        l.before.worker.conns[l.slot] == Some(c),
        c.outcome == Some(Step::Failed(e)),
        l.before.pending[l.slot]->0.reused,
        !l.before.pending[l.slot]->0.retried,
        l.slot < l.before.worker.slots(),
        within_reach(l.before.worker, l.addresses),
    ensures
        l.done is None,
        l.after.pending[l.slot] is Some,
        l.after.pending[l.slot]->0.retried,
{
    lemma_within_reach(l.before, l.slot, l.addresses);
}

/// A request is never refused while the peer is within reach.
pub proof fn law_picked_up_within_reach(
    before: ServerView,
    stats: CountersView,
    slot: int,
    pd: PendingView,
    addresses: nat,
    refused: Option<Error>,
    after: ServerView,
    stats_after: CountersView,
    made: spec_fn(SinkView) -> bool,
    read: spec_fn(u64) -> bool,
)
    requires
        service::pick_outcome(
            before,
            stats,
            slot,
            pd,
            addresses,
            refused,
            after,
            stats_after,
            made,
            read,
        ),
        0 <= slot < before.worker.slots(),
        within_reach(before.worker, addresses),
    ensures
        refused is None,
{
    lemma_within_reach(before, slot, addresses);
}

/// Where the head never came, a request counts for no time to its first byte, nor
/// for a transfer, but its waiting and its time on the wire count all the same.
pub proof fn law_headless_request_is_timed(l: Look, c: ConnView, e: Error)
    requires
        taken(l),
        0 <= l.slot < l.before.pending.len(),
        l.before.pending[l.slot] is Some,
        l.before.worker.conns[l.slot] == Some(c),
        c.outcome == Some(Step::Failed(e)),
        c.head_ns is None,
        !l.before.pending[l.slot]->0.reused,
        l.before.pending[l.slot]->0.submitted_ns <= l.before.pending[l.slot]->0.picked_ns
            <= l.now_ns,
    ensures
        ({
            let pd = l.before.pending[l.slot]->0;
            let s = l.stats;
            let t = l.stats_after;
            &&& t.requests_done == s.requests_done.wrapping_add(1)
            &&& t.queue_ns_total == s.queue_ns_total.wrapping_add(
                (pd.picked_ns - pd.submitted_ns) as u64,
            )
            &&& t.wire_ns_total == s.wire_ns_total.wrapping_add((l.now_ns - pd.picked_ns) as u64)
            &&& t.ttfb_n == s.ttfb_n && t.ttfb_ns_total == s.ttfb_ns_total
            &&& t.xfer_n == s.xfer_n && t.xfer_ns_total == s.xfer_ns_total
            &&& t.body_bytes == s.body_bytes.wrapping_add(0)
        }),
{
}

/// One request after another goes to one queue after another, and after the last to
/// the first. Without queues none goes anywhere.
pub proof fn law_requests_go_round(
    ticket: usize,
    queues: usize,
    q: Result<usize, Error>,
    next: Result<usize, Error>,
)
    requires
        ticket < usize::MAX,
        call_ensures(service::queue_for, (ticket, queues), q),
        call_ensures(service::queue_for, ((ticket + 1) as usize, queues), next),
    ensures
        queues == 0 ==> q == Err::<usize, Error>(Error::NoDevice),
        queues > 0 ==> q is Ok && next is Ok && q->Ok_0 < queues && next->Ok_0 == (if q->Ok_0 + 1
            == queues {
            0
        } else {
            q->Ok_0 + 1
        }),
        queues > 0 && ticket == 0 ==> q->Ok_0 == 0,
{
    if queues > 0 {
        let t = ticket as int;
        let n = queues as int;
        lemma_fundamental_div_mod(t, n);
        lemma_mod_bound(t, n);
        let m = t % n;
        if m + 1 < n {
            lemma_fundamental_div_mod_converse(t + 1, n, t / n, m + 1);
        } else {
            assert(t + 1 == n * (t / n + 1)) by (nonlinear_arith)
                requires
                    t == n * (t / n) + m,
                    m + 1 == n,
            ;
            lemma_fundamental_div_mod_converse(t + 1, n, t / n + 1, 0);
        }
    }
}

/// Workers take cpus from the top down, each its own, and leave the first to the
/// application while there are more cpus than workers.
pub proof fn law_workers_have_their_own_cpus(p: u16, q: u16, cpus: usize, a: usize, b: usize)
    requires
        call_ensures(service::worker_cpu, (p, cpus), a),
        call_ensures(service::worker_cpu, (q, cpus), b),
        p < q,
        q + 1 < cpus,
    ensures
        p == 0 ==> a == cpus - 1,
        a - b == q - p,
        b >= 1,
{
}

/// A request that was picked up is answered, whatever it comes to, to whoever
/// submitted it, and counts as having waited from when it was submitted to when it
/// was picked up.
pub proof fn law_waiting_is_timed(
    before: ServerView,
    stats: CountersView,
    job: Job,
    picked_ns: u64,
    addresses: nat,
    after: ServerView,
    stats_after: CountersView,
    made: spec_fn(SinkView) -> bool,
    read: spec_fn(u64) -> bool,
    l: Look,
)
    requires
        service::pick_outcome(
            before,
            stats,
            l.slot,
            service::picked(job, picked_ns),
            addresses,
            None,
            after,
            stats_after,
            made,
            read,
        ),
        0 <= l.slot < before.pending.len(),
        taken(l),
        l.before.pending.len() == after.pending.len(),
        l.before.pending[l.slot] == after.pending[l.slot],
        l.done is Some,
        job.submitted_ns <= picked_ns,
    ensures
        after.pending[l.slot] is Some,
        after.pending[l.slot]->0.request == job.head@,
        l.done->0.id == job.id,
        l.stats_after.queue_ns_total == l.stats.queue_ns_total.wrapping_add(
            (picked_ns - job.submitted_ns) as u64,
        ),
        picked_ns <= l.now_ns ==> l.stats_after.wire_ns_total == l.stats.wire_ns_total.wrapping_add(
            (l.now_ns - picked_ns) as u64,
        ),
{
}

/// A request that comes back with an error as it is picked up is refused for that
/// error; one that does not come back is not refused.
pub proof fn law_refused_for_its_error(id: usize, e: Error)
    ensures
        service::refusal(Some(Completion { id, result: Err(e) })) == Some(e),
        service::refusal(None) is None,
{
}

} // verus!
