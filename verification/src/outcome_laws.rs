//! When a response is over, in terms of what was asked for and what has come; and
//! what a connection keeps of time.

use vstd::prelude::*;
use vstd::string::*;

use crate::conn;
use crate::conn::{ConnView, Round, Step};
use crate::conn_laws;
use crate::conn_laws::Visit;
use crate::error::Error;
use crate::exchange;
use crate::http;
use crate::http::SinkView;
use crate::http_laws;
use crate::net::{TcpState, TcpView};
use crate::stats;
use crate::stats::CountersView;
use crate::text_laws;

verus! {

/// The request begins with `HEAD` and a space.
pub open spec fn begins_with_head(request: Seq<u8>) -> bool {
    request.len() >= 5 && request.take(5) == seq![72u8, 69, 65, 68, 32]
}

/// A HEAD request is one that begins with `HEAD` and a space, and no other.
pub proof fn law_head_request(request: Seq<u8>)
    ensures
        exchange::asks_for_head(request) <==> begins_with_head(request),
{
    let w = "HEAD ".spec_bytes();
    reveal_strlit("HEAD ");
    text_laws::lemma_literal("HEAD ");
    assert(w == seq![72u8, 69, 65, 68, 32]);
    if w.is_prefix_of(request) {
        assert(request.take(5) == w);
    }
    if begins_with_head(request) {
        assert forall|i: int| 0 <= i < 5 implies w[i] == request[i] by {
            assert(request[i] == request.take(5)[i]);
        }
        assert(w.is_prefix_of(request));
    }
}

/// The statuses that come without a body: the informational ones, No Content and
/// Not Modified.
pub open spec fn bodyless(status: u16) -> bool {
    status as int / 100 == 1 || status == 204 || status == 304
}

/// Every response has a body but those to HEAD, and those whose status says that
/// there is none.
pub proof fn law_who_has_a_body(status: u16, request: Seq<u8>)
    ensures
        exchange::carries_body(status, exchange::asks_for_head(request)) <==> !bodyless(status)
            && !begins_with_head(request),
{
    law_head_request(request);
}

/// The peer has closed its half, or all is gone.
pub open spec fn is_gone(s: TcpState) -> bool {
    match s {
        TcpState::Closed => true,
        TcpState::CloseWait => true,
        TcpState::TimeWait => true,
        TcpState::Listen => false,
        TcpState::SynSent => false,
        TcpState::SynReceived => false,
        TcpState::Established => false,
        TcpState::FinWait1 => false,
        TcpState::FinWait2 => false,
        TcpState::Closing => false,
        TcpState::LastAck => false,
    }
}

/// What a step comes to once all was sent and all was read, in terms of the head.
pub proof fn law_verdict(c: ConnView, t: TcpView)
    requires
        c.exchange.ready,
        c.exchange.queued,
        c.exchange.outgoing.len() == 0,
        t.rx.len() == 0,
    ensures
        ({
            let p = c.exchange.parser;
            let empty = bodyless(p.head.status) || begins_with_head(c.exchange.request);
            let v = c.verdict(t);
            &&& !p.done && is_gone(t.state) ==> v == Step::Failed(Error::BadResponse)
            &&& !p.done && !is_gone(t.state) ==> v == Step::Pending
            &&& p.done && empty ==> v == Step::Complete
            &&& p.done && !empty ==> match p.head.content_length {
                Some(want) => {
                    &&& v == Step::Complete <==> p.body >= want
                    &&& v == Step::Pending <==> p.body < want && !is_gone(t.state)
                },
                None => {
                    &&& v == Step::Complete <==> is_gone(t.state)
                    &&& v == Step::Pending <==> !is_gone(t.state)
                },
            }
        }),
{
    law_who_has_a_body(c.exchange.parser.head.status, c.exchange.request);
}

/// Nothing is over while any of the request is still to be sent.
pub proof fn law_not_over_before_sent(c: ConnView, t: TcpView)
    requires
        c.exchange.outgoing.len() > 0,
    ensures
        c.verdict(t) == Step::Pending,
{
}

/// A connection that is complete had a whole response.
proof fn lemma_complete_is_whole(c: ConnView, visits: Seq<Visit>)
    requires
        c.outcome is None,
        conn_laws::visited_all(c, visits).outcome == Some(Step::Complete),
    ensures
        ({
            let x = conn_laws::visited_all(c, visits).exchange;
            &&& x.parser.done
            &&& !bodyless(x.parser.head.status) && !begins_with_head(x.request) ==> match x.parser.head.content_length {
                Some(want) => x.parser.body >= want,
                None => true,
            }
        }),
    decreases visits.len(),
{
    if visits.len() > 0 {
        let before = visits.drop_last();
        let mid = conn_laws::visited_all(c, before);
        if mid.outcome is Some {
            lemma_complete_is_whole(c, before);
        } else {
            let v = visits.last();
            let served = mid.served(v.tcp, v.stats, v.now_ns);
            let p = served.conn.pumped(v.rounds);
            conn::lemma_pumped_keeps(served.conn, v.rounds);
            law_who_has_a_body(p.conn.exchange.parser.head.status, p.conn.exchange.request);
        }
    }
}

/// A response that announces a body is complete only when that much of it was
/// handed to the sink: over however many steps, on plain HTTP and over TLS, unless
/// the request was HEAD or the status says that there is no body.
pub proof fn law_announced_body_is_delivered(c: ConnView, visits: Seq<Visit>)
    requires
        c.plain() ==> c.incoming.len() == 0,
        c.outcome is None,
        c.exchange.parser == http::blank_parser(),
        conn_laws::visited_all(c, visits).outcome == Some(Step::Complete),
        !begins_with_head(c.exchange.request),
        !bodyless(conn_laws::visited_all(c, visits).exchange.parser.head.status),
        conn_laws::visited_all(c, visits).exchange.parser.head.content_length is Some,
    ensures
        ({
            let end = conn_laws::visited_all(c, visits).exchange;
            end.sink.received.len() >= c.exchange.sink.received.len()
                + end.parser.head.content_length->0
        }),
{
    http_laws::law_intact(http::blank_parser(), Seq::empty());
    conn_laws::lemma_visits_feed(c, visits);
    lemma_complete_is_whole(c, visits);
    let pieces = conn_laws::pieces_of(c, visits);
    http_laws::law_body_is_counted(c.exchange.parser, pieces);
}

/// The setup of a connection is timed from when its SYN was first seen to when it
/// was first seen established: that time, and no other, enters the distribution,
/// once.
pub proof fn law_setup_is_measured(
    c: ConnView,
    t: TcpView,
    u: TcpView,
    stats: CountersView,
    now: u64,
    later: u64,
)
    requires
        c.outcome is None,
        c.syn_ns is None,
        !c.settled,
        !c.established,
        c.connect_start_ns <= now <= later,
        t.state == TcpState::SynSent,
        now - c.connect_start_ns <= 5_000_000_000,
        u.state == TcpState::Established,
        stats.setup.buckets.len() == stats::BUCKETS,
        stats.setup.count() < u64::MAX,
    ensures
        ({
            let first = c.served(t, stats, now);
            let mid = ConnView { outcome: None, ..first.conn };
            let second = mid.served(u, first.stats, later);
            let third = ConnView { outcome: None, ..second.conn }.served(u, second.stats, later);
            &&& first.stats == stats
            &&& !first.conn.established
            &&& second.conn.established
            &&& second.stats.conns_established == stats.conns_established.wrapping_add(1)
            &&& second.stats.setup.total_ns == stats.setup.total_ns.wrapping_add(
                (later - now) as u64,
            )
            &&& second.stats.setup.count() == stats.setup.count() + 1
            &&& third.stats == second.stats
        }),
{
    stats::law_record_counts(stats.setup, (later - now) as u64);
}

/// A SYN that goes unanswered for more than five seconds ends the connection, and
/// is counted as failed, once; up to then nothing happens.
pub proof fn law_unanswered_syn(c: ConnView, t: TcpView, stats: CountersView, now: u64)
    requires
        c.outcome is None,
        !c.settled,
        c.connect_start_ns <= now,
        t.state == TcpState::SynSent,
        t.rx.len() == 0,
        c.incoming.len() == 0,
    ensures
        ({
            let served = c.served(t, stats, now);
            if now - c.connect_start_ns > 5_000_000_000 {
                &&& served.conn.outcome == Some(Step::Failed(Error::SynTimeout))
                &&& served.tcp.state == TcpState::Closed
                &&& served.stats.conns_failed == stats.conns_failed.wrapping_add(1)
                &&& served.stats.setup == stats.setup
                &&& served.stats.conns_established == stats.conns_established
            } else {
                &&& served.conn.outcome is None
                &&& served.tcp == t
                &&& served.stats == stats
                &&& served.conn.exchange == c.exchange
            }
        }),
{
    let out = c.exchange.outgoing;
    assert(out.skip(0) == out);
    assert(t.tx + out.take(0) == t.tx);
    assert(t.rx == Seq::<u8>::empty());
    assert(c.incoming + t.rx == c.incoming);
}

/// The first byte of a response head is timed, at the step that sees it; before it
/// there is no time, and later bytes do not move it.
pub proof fn law_first_byte_is_timed(c: ConnView, v: Visit)
    requires
        c.plain(),
        c.incoming.len() == 0,
        c.outcome is None,
        http_laws::intact(c.exchange.parser),
        conn_laws::sound(conn_laws::visited(c, v)),
        c.head_ns is None ==> c.exchange.parser == http::blank_parser(),
    ensures
        ({
            let end = conn_laws::visited(c, v);
            &&& c.head_ns is Some ==> end.head_ns == c.head_ns
            &&& c.head_ns is None && v.tcp.rx.len() == 0 ==> end.head_ns is None
            &&& c.head_ns is None && v.tcp.rx.len() > 0 ==> end.head_ns == Some(v.now_ns)
        }),
{
    let served = c.served(v.tcp, v.stats, v.now_ns);
    conn_laws::lemma_plain_pumped(served.conn, v.rounds);
    assert(c.incoming + v.tcp.rx == v.tcp.rx);
    if v.tcp.rx.len() > 0 && c.head_ns is None {
        let p = http::blank_parser();
        let data = v.tcp.rx;
        if exists|n: int| http::ends_at(p.mark, data, n) {
            let n = choose|n: int| http::ends_at(p.mark, data, n);
            http::lemma_fed_head_end(p, data, n);
        } else {
            assert(p.pending + data == data);
        }
    }
}

/// A new connection has its request, its socket and its session, and nothing else.
pub proof fn law_fresh_connection(
    c: ConnView,
    request: Seq<u8>,
    sink: SinkView,
    now: u64,
)
    ensures
        ({
            let n = ConnView::fresh(
                c.handle,
                c.queue_id,
                c.src_port,
                c.session,
                request,
                sink,
                now,
            );
            &&& n.handle == c.handle && n.queue_id == c.queue_id && n.src_port == c.src_port
            &&& n.session == c.session
            &&& n.exchange.request == request
            &&& n.exchange.sink == sink
            &&& n.connect_start_ns == now
            &&& n.incoming.len() == 0 && n.exchange.outgoing.len() == 0
            &&& !n.exchange.queued && !n.exchange.ready && !n.settled && !n.established
            &&& n.outcome is None && n.syn_ns is None && n.head_ns is None
            &&& !n.exchange.parser.done && n.exchange.parser.pending.len() == 0
            &&& n.exchange.parser.head.status == 0 && n.exchange.parser.body == 0
            &&& n.exchange.parser.head.content_length is None
            &&& n.exchange.parser.head.content_range is None
            &&& n.exchange.parser.head.etag is None
            &&& n.exchange.parser.head.last_modified is None
        }),
{
}

/// A kept connection given another request keeps its socket, its session and what
/// may be a partial record; of the last response it keeps nothing.
pub proof fn law_reused_connection(c: ConnView, request: Seq<u8>, sink: SinkView, now: u64)
    ensures
        ({
            let n = c.reset(request, sink, now);
            &&& n.handle == c.handle && n.queue_id == c.queue_id && n.src_port == c.src_port
            &&& n.session == c.session
            &&& n.incoming == c.incoming
            &&& n.exchange.outgoing == c.exchange.outgoing
            &&& n.exchange.ready == c.exchange.ready
            &&& n.settled == c.settled && n.established == c.established && n.syn_ns == c.syn_ns
            &&& n.exchange.request == request
            &&& n.exchange.sink == sink
            &&& n.connect_start_ns == now
            &&& !n.exchange.queued
            &&& n.outcome is None && n.head_ns is None
            &&& !n.exchange.parser.done && n.exchange.parser.pending.len() == 0
            &&& n.exchange.parser.head.status == 0 && n.exchange.parser.body == 0
            &&& n.exchange.parser.head.content_length is None
            &&& n.exchange.parser.head.content_range is None
            &&& n.exchange.parser.head.etag is None
            &&& n.exchange.parser.head.last_modified is None
        }),
{
}

/// Only a connection whose response is complete, on a socket that is still open
/// both ways, is kept for another request.
pub proof fn law_only_open_and_complete_is_reused(c: ConnView, t: TcpView)
    ensures
        c.reusable(t) <==> c.outcome == Some(Step::Complete) && t.state == TcpState::Established,
        c.reusable(t) ==> !is_gone(t.state),
{
}

/// The session is asked again as long as it gives anything to do: it is left alone
/// when it waits, when it would take a request that it already has, and when it, or
/// what it decrypted, has failed. Once it takes application data the channel is
/// ready, and stays so; the request is with it from when it was encrypted on.
pub proof fn law_session_is_asked_again(c: ConnView, rounds: Seq<Round>, r: Round)
    requires
        c.pumped(rounds).more,
    ensures
        ({
            let x = c.pumped(rounds).conn.exchange;
            let p = c.pumped(rounds.push(r));
            let y = p.conn.exchange;
            &&& p.more <==> p.failed is None && !(r.answer is Wait) && !(r.answer is Write
                && x.queued)
            &&& y.ready == (x.ready || r.answer is Write)
            &&& y.queued == (x.queued || (r.answer is Write && p.failed is None))
            &&& r.answer is Broken ==> p.failed == Some(Error::Tls)
            &&& r.answer is Wait || r.answer is Transmit ==> p.failed is None && y == x
            &&& p.failed is None ==> p.conn.incoming == r.worked.skip(r.discard as int)
        }),
{
    assert(rounds.push(r).drop_last() == rounds);
}

/// On plain HTTP the channel is ready, and the request with it, as soon as the
/// socket takes data, and not before.
pub proof fn law_plain_request_goes_out(c: ConnView, t: TcpView, stats: CountersView, now: u64)
    requires
        c.plain(),
        c.outcome is None,
        !c.exchange.queued,
        !c.timed_out(t.state, now),
    ensures
        ({
            let takes = t.state == TcpState::Established || t.state == TcpState::CloseWait;
            let y = c.served(t, stats, now).conn.exchange;
            &&& y.queued == takes
            &&& takes ==> y.ready
            &&& y.request == c.exchange.request
        }),
{
}

} // verus!
