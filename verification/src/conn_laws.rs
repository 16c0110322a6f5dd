//! What holds of a connection over its steps.

use vstd::prelude::*;

use crate::conn;
use crate::conn::{ConnView, Round, Step};
use crate::error::Error;
use crate::exchange;
use crate::exchange::Answer;
use crate::http;
use crate::http::{ParserView, SinkView};
use crate::http_laws;
use crate::stats::CountersView;
use crate::net::{TcpState, TcpView};
use crate::tls;
use crate::tls::{TLS_BUF_CAP, TLS_OVERHEAD};

verus! {

pub(crate) proof fn lemma_plain_pumped(c: ConnView, rounds: Seq<Round>)
    requires
        c.plain(),
    ensures
        c.pumped(rounds).conn == c,
        c.pumped(rounds).failed is None,
        !c.pumped(rounds).more,
    decreases rounds.len(),
{
    if rounds.len() > 0 {
        lemma_plain_pumped(c, rounds.drop_last());
    }
}

/// On plain HTTP nothing outside decides: where a step leads follows from the
/// connection, the socket and the time alone.
pub proof fn law_plain_step(c: ConnView, end: ConnView, t: TcpView, now_ns: u64)
    requires
        c.plain(),
        c.leads_to(end, t, now_ns),
    ensures
        end == (if c.outcome is Some {
            c
        } else {
            c.concluded(t, now_ns)
        }),
{
    if c.outcome is None {
        let rounds = choose|rounds: Seq<Round>| end == #[trigger] c.after(rounds, t, now_ns);
        lemma_plain_pumped(c, rounds);
    }
}

/// Bytes go to the socket in order, none lost and none twice: what the socket
/// holds for sending and what is still to be handed over come to the same before
/// and after, but for the request that a plain connection adds once.
pub proof fn law_sent_in_order(c: ConnView, t: TcpView, stats: CountersView, now_ns: u64)
    requires
        c.outcome is None,
        !c.timed_out(t.state, now_ns),
    ensures
        ({
            let served = c.served(t, stats, now_ns);
            let request = if c.plain() && !c.exchange.queued && t.may_send() {
                c.exchange.request
            } else {
                Seq::empty()
            };
            &&& served.tcp.tx + served.conn.exchange.outgoing == t.tx + c.exchange.outgoing
                + request
            &&& served.tcp.tx.len() <= t.tx.len() + t.room()
            &&& served.conn.exchange.outgoing.len() > 0 ==> !t.may_send() || served.tcp.tx.len()
                == t.tx.len() + t.room()
        }),
{
    let noted = c.noted(t.state, now_ns);
    let queued = noted.queueing(t);
    let n = queued.sendable(t);
    let out = queued.exchange.outgoing;
    assert(t.tx + out.take(n) + out.skip(n) == t.tx + out);
    assert(t.tx + (c.exchange.outgoing + c.exchange.request) == t.tx + c.exchange.outgoing
        + c.exchange.request);
    assert(t.tx + c.exchange.outgoing + Seq::<u8>::empty() == t.tx + c.exchange.outgoing);
}

/// A setup is counted once, when it is settled: as established or as failed.
/// Whether the connection is established is told apart from that, so that a SYN
/// which was never answered reads false, also after it has timed out.
pub proof fn law_settled_once(c: ConnView, t: TcpView, stats: CountersView, now_ns: u64)
    ensures
        ({
            let served = c.served(t, stats, now_ns);
            let arrived = !c.settled && t.state == TcpState::Established;
            let lost = !c.settled && c.timed_out(t.state, now_ns);
            &&& served.conn.settled == (c.settled || arrived || lost)
            &&& served.conn.established == (c.established || arrived)
            &&& !(arrived && lost)
            &&& served.stats == (if arrived {
                stats.with_established(c.since_syn(t.state, now_ns))
            } else if lost {
                stats.with_failed()
            } else {
                stats
            })
        }),
{
}

/// A step changes whether a connection is settled or established only where it
/// serves the socket; the rest of the step leaves both alone, and the socket and
/// the session it runs on, too.
pub proof fn law_rest_of_step_keeps(c: ConnView, end: ConnView, t: TcpView, now_ns: u64)
    requires
        c.leads_to(end, t, now_ns),
    ensures
        end.settled == c.settled,
        end.established == c.established,
        end.syn_ns == c.syn_ns,
        end.handle == c.handle,
        end.session == c.session,
        end.connect_start_ns == c.connect_start_ns,
{
    if c.outcome is None {
        let rounds = choose|rounds: Seq<Round>| end == #[trigger] c.after(rounds, t, now_ns);
        conn::lemma_pumped_keeps(c, rounds);
    }
}

/// A SYN that is not answered in time ends the connection, and the socket is
/// closed; before that time it does not.
pub proof fn law_syn_timeout(c: ConnView, t: TcpView, stats: CountersView, now_ns: u64)
    requires
        c.outcome is None,
        t.state == TcpState::SynSent,
        c.connect_start_ns <= now_ns,
    ensures
        ({
            let served = c.served(t, stats, now_ns);
            if now_ns - c.connect_start_ns > conn::SYN_TIMEOUT_NS {
                &&& served.conn.outcome == Some(Step::Failed(Error::SynTimeout))
                &&& served.tcp.state == TcpState::Closed
                &&& !c.established ==> !served.conn.established
            } else {
                served.conn.outcome != Some(Step::Failed(Error::SynTimeout))
            }
        }),
{
}

/// When a response is over. With a length, when that much body has come, and not
/// before; without a body, with its head; without a length, when the peer closes. A
/// peer that closes before any head, or before all of a body whose length it
/// announced, has failed. Nothing is over while bytes are left to send.
pub proof fn law_completion(c: ConnView, t: TcpView)
    requires
        t.rx.len() == 0,
        c.exchange.ready,
        c.exchange.queued,
    ensures
        ({
            let x = c.exchange;
            let body = exchange::carries_body(
                x.parser.head.status,
                exchange::asks_for_head(x.request),
            );
            let closed = conn::ended(t.state);
            let v = c.verdict(t);
            &&& x.outgoing.len() > 0 ==> v == Step::Pending
            &&& x.outgoing.len() == 0 && !x.parser.done ==> v == (if closed {
                Step::Failed(Error::BadResponse)
            } else {
                Step::Pending
            })
            &&& x.outgoing.len() == 0 && x.parser.done && !body ==> v == Step::Complete
            &&& x.outgoing.len() == 0 && x.parser.done && body ==> match x.parser.head.content_length {
                Some(want) => v == (if x.parser.body >= want {
                    Step::Complete
                } else if closed {
                    Step::Failed(Error::BadResponse)
                } else {
                    Step::Pending
                }),
                None => v == (if closed {
                    Step::Complete
                } else {
                    Step::Pending
                }),
            }
        }),
{
}

/// On plain HTTP a step takes in all that the socket received, and the parser
/// and the sink get exactly that, whatever comes of the step.
pub proof fn law_plain_reads_all(
    c: ConnView,
    end: ConnView,
    t: TcpView,
    stats: CountersView,
    now_ns: u64,
)
    requires
        c.plain(),
        c.incoming.len() == 0,
        c.outcome is None,
        !c.timed_out(t.state, now_ns),
        c.served(t, stats, now_ns).conn.leads_to(end, c.served(t, stats, now_ns).tcp, now_ns),
    ensures
        end.incoming.len() == 0,
        c.served(t, stats, now_ns).tcp.rx.len() == 0,
        t.rx.len() > 0 ==> {
            let f = http::fed(c.exchange.parser, t.rx);
            &&& end.exchange.parser == f.parser
            &&& end.exchange.sink == c.exchange.sink.with(f.body)
            &&& f.error is Some ==> end.outcome == Some(Step::Failed(Error::BadResponse))
        },
        t.rx.len() == 0 ==> {
            &&& end.exchange.parser == c.exchange.parser
            &&& end.exchange.sink == c.exchange.sink
        },
{
    let served = c.served(t, stats, now_ns);
    assert(c.incoming + t.rx == t.rx);
    law_plain_step(served.conn, end, served.tcp, now_ns);
}

proof fn lemma_pumped_queued(c: ConnView, rounds: Seq<Round>)
    requires
        c.exchange.queued,
    ensures
        c.pumped(rounds).conn.exchange.queued,
    decreases rounds.len(),
{
    if rounds.len() > 0 {
        lemma_pumped_queued(c, rounds.drop_last());
    }
}

/// A request goes out once: having been queued, it stays so until the connection
/// is given another, and the request itself does not change.
pub proof fn law_request_once(
    c: ConnView,
    end: ConnView,
    t: TcpView,
    stats: CountersView,
    now_ns: u64,
)
    requires
        c.exchange.queued,
        c.served(t, stats, now_ns).conn.leads_to(end, c.served(t, stats, now_ns).tcp, now_ns),
    ensures
        end.exchange.queued,
        c.noted(t.state, now_ns).queueing(t) == c.noted(t.state, now_ns),
{
    let served = c.served(t, stats, now_ns);
    if served.conn.outcome is None {
        let rounds = choose|rounds: Seq<Round>|
            end == #[trigger] served.conn.after(rounds, served.tcp, now_ns);
        lemma_pumped_queued(served.conn, rounds);
    }
}

/// A kept connection answers its next request as a new one would: nothing of the
/// last response is left in the parser, its time stamps or its outcome.
pub proof fn law_reset_forgets(c: ConnView, request: Seq<u8>, sink: SinkView, now_ns: u64)
    requires
        c.exchange.outgoing.len() == 0,
    ensures
        ({
            let again = c.reset(request, sink, now_ns);
            let new = ConnView::fresh(
                c.handle,
                c.queue_id,
                c.src_port,
                c.session,
                request,
                sink,
                now_ns,
            );
            again == (ConnView {
                incoming: c.incoming,
                settled: c.settled,
                established: c.established,
                syn_ns: c.syn_ns,
                exchange: exchange::ExchangeView { ready: c.exchange.ready, ..new.exchange },
                ..new
            })
        }),
{
    assert(c.exchange.outgoing == Seq::<u8>::empty());
}

/// One visit to a connection: its socket, the counters, the time, and what its
/// session answers.
pub struct Visit {
    pub tcp: TcpView,
    pub stats: CountersView,
    pub now_ns: u64,
    pub rounds: Seq<Round>,
}

/// Where one visit leaves a connection.
pub open spec fn visited(c: ConnView, v: Visit) -> ConnView {
    let served = c.served(v.tcp, v.stats, v.now_ns);
    if c.outcome is Some {
        c
    } else if served.conn.outcome is Some {
        served.conn
    } else {
        served.conn.after(v.rounds, served.tcp, v.now_ns)
    }
}

/// The rounds of a visit are rounds with the session of the connection.
pub open spec fn genuine(c: ConnView, v: Visit) -> bool {
    let served = c.served(v.tcp, v.stats, v.now_ns);
    c.outcome is None && served.conn.outcome is None ==> served.conn.answered(v.rounds)
}

/// A step is a visit.
pub proof fn law_step_is_visit(
    c: ConnView,
    end: ConnView,
    t: TcpView,
    stats: CountersView,
    now_ns: u64,
)
    requires
        c.outcome is None,
        c.served(t, stats, now_ns).conn.leads_to(end, c.served(t, stats, now_ns).tcp, now_ns),
    ensures
        exists|rounds: Seq<Round>|
            {
                &&& end == #[trigger] visited(c, Visit { tcp: t, stats, now_ns, rounds })
                &&& genuine(c, Visit { tcp: t, stats, now_ns, rounds })
            },
{
    let served = c.served(t, stats, now_ns);
    if served.conn.outcome is Some {
        assert(end == visited(c, Visit { tcp: t, stats, now_ns, rounds: Seq::empty() }));
    } else {
        let rounds = choose|rounds: Seq<Round>|
            end == #[trigger] served.conn.after(rounds, served.tcp, now_ns)
                && served.conn.answered(rounds);
        assert(end == visited(c, Visit { tcp: t, stats, now_ns, rounds }));
    }
}

/// Where some visits, one after the other, leave a connection.
pub open spec fn visited_all(c: ConnView, visits: Seq<Visit>) -> ConnView
    decreases visits.len(),
{
    if visits.len() == 0 {
        c
    } else {
        visited(visited_all(c, visits.drop_last()), visits.last())
    }
}

/// What the parser is handed at one visit: on plain HTTP what the socket had
/// received, else the records that the session decrypted.
pub open spec fn handed(c: ConnView, v: Visit) -> Seq<Seq<u8>> {
    if c.plain() {
        seq![v.tcp.rx]
    } else {
        c.served(v.tcp, v.stats, v.now_ns).conn.records_in(v.rounds)
    }
}

/// What the parser is handed at those visits that find the connection still going.
pub open spec fn pieces_of(c: ConnView, visits: Seq<Visit>) -> Seq<Seq<u8>>
    decreases visits.len(),
{
    if visits.len() == 0 {
        Seq::empty()
    } else {
        let before = pieces_of(c, visits.drop_last());
        let mid = visited_all(c, visits.drop_last());
        if mid.outcome is Some {
            before
        } else {
            before + handed(mid, visits.last())
        }
    }
}

/// The connection has not failed.
pub open spec fn sound(c: ConnView) -> bool {
    c.outcome is None || c.outcome == Some(Step::Complete)
}

/// Over rounds with the session the parser is handed the records that the session
/// decrypted from what it was given, and the sink the body bytes among them, and
/// neither anything else. What the session is given is what the socket received,
/// less what it needs no more. The rounds fail with a bad response exactly where the
/// parser rejects one of the records, and else, if they fail, for TLS.
pub proof fn law_rounds_feed_records(c: ConnView, rounds: Seq<Round>)
    requires
        c.answered(rounds),
    ensures
        ({
            let f = http_laws::fed_all(c.exchange.parser, c.records_in(rounds));
            let p = c.pumped(rounds);
            &&& p.conn.exchange.parser == f.parser
            &&& p.conn.exchange.sink == c.exchange.sink.with(f.body)
            &&& p.conn.exchange.request == c.exchange.request
            &&& p.failed == Some(Error::BadResponse) <==> c.rejects(c.records_in(rounds))
            &&& p.failed is Some ==> p.failed == Some(Error::Tls) || p.failed == Some(
                Error::BadResponse,
            )
        }),
        forall|i: int|
            0 <= i < rounds.len() ==> (#[trigger] rounds[i]).given == (if i == 0 {
                c.incoming
            } else {
                rounds[i - 1].worked.skip(rounds[i - 1].discard as int)
            }),
        forall|i: int|
            0 <= i < rounds.len() ==> ((#[trigger] rounds[i]).answer matches Answer::Read(records)
                ==> tls::opened(rounds[i].given, records)),
{
    conn::lemma_rejected(c, rounds);
    assert forall|i: int| 0 <= i < rounds.len() implies {
        &&& (#[trigger] rounds[i]).given == (if i == 0 {
            c.incoming
        } else {
            rounds[i - 1].worked.skip(rounds[i - 1].discard as int)
        })
        &&& rounds[i].answer matches Answer::Read(records) ==> tls::opened(
            rounds[i].given,
            records,
        )
    } by {
        assert(c.answered_at(rounds, i));
    }
}

/// What some rounds with the session put among the outgoing bytes, up to where
/// those got no further.
pub open spec fn written_in(c: ConnView, rounds: Seq<Round>) -> Seq<Seq<u8>>
    decreases rounds.len(),
{
    if rounds.len() == 0 {
        Seq::empty()
    } else {
        let before = written_in(c, rounds.drop_last());
        let mid = c.pumped(rounds.drop_last());
        let x = mid.conn.exchange;
        match rounds.last().answer {
            Answer::Encode(Some(record)) if mid.more && x.outgoing.len() + record.len()
                <= TLS_BUF_CAP => before.push(record),
            Answer::Write(Some(bytes)) if mid.more && !x.queued => before.push(bytes),
            _ => before,
        }
    }
}

/// The bytes are the request, as some session encrypts it.
pub open spec fn is_sealed_request(request: Seq<u8>, bytes: Seq<u8>) -> bool {
    tls::sealed(request, (request.len() + TLS_OVERHEAD) as nat, Some(bytes))
}

/// The bytes are a handshake record that the session gave in one of the rounds.
pub open spec fn is_handshake_record(rounds: Seq<Round>, bytes: Seq<u8>) -> bool {
    exists|k: int|
        0 <= k < rounds.len() && (#[trigger] rounds[k]).answer == Answer::Encode(Some(bytes))
}

/// Over TLS nothing goes out in the clear: what is put among the outgoing bytes
/// is handshake records, each as the session gave it, and the request as the
/// session encrypted it. A round that fails can leave zeros behind them, and that
/// ends the connection.
pub proof fn law_nothing_in_the_clear(c: ConnView, rounds: Seq<Round>)
    requires
        !c.plain(),
        c.answered(rounds),
    ensures
        ({
            let p = c.pumped(rounds);
            let written = c.exchange.outgoing + http_laws::joined(written_in(c, rounds));
            &&& p.failed is None ==> p.conn.exchange.outgoing == written
            &&& p.failed is Some ==> exists|n: int|
                p.conn.exchange.outgoing == written + #[trigger] exchange::zeros(n)
        }),
        c.pumped(rounds).conn.exchange.request == c.exchange.request,
        forall|i: int|
            0 <= i < written_in(c, rounds).len() ==> {
                let piece = #[trigger] written_in(c, rounds)[i];
                is_sealed_request(c.exchange.request, piece) || is_handshake_record(rounds, piece)
            },
    decreases rounds.len(),
{
    let all = written_in(c, rounds);
    if rounds.len() == 0 {
        assert(c.exchange.outgoing + Seq::<u8>::empty() == c.exchange.outgoing);
    } else {
        let before = rounds.drop_last();
        assert forall|i: int| 0 <= i < before.len() implies #[trigger] c.answered_at(before, i) by {
            assert(c.answered_at(rounds, i));
            assert(before.take(i) == rounds.take(i));
        }
        law_nothing_in_the_clear(c, before);
        let n = rounds.len() - 1;
        let sofar = written_in(c, before);
        assert(c.answered_at(rounds, n));
        assert(rounds.take(n) == before);
        assert(rounds[n] == rounds.last());
        assert forall|i: int| 0 <= i < all.len() implies {
            let piece = #[trigger] all[i];
            is_sealed_request(c.exchange.request, piece) || is_handshake_record(rounds, piece)
        } by {
            let piece = all[i];
            if i < sofar.len() {
                assert(sofar[i] == piece);
                if !is_sealed_request(c.exchange.request, piece) {
                    let k = choose|k: int|
                        0 <= k < before.len() && (#[trigger] before[k]).answer == Answer::Encode(
                            Some(piece),
                        );
                    assert(rounds[k] == before[k]);
                }
            }
        }
        if all.len() > sofar.len() {
            assert(all.drop_last() == sofar);
            assert(c.exchange.outgoing + http_laws::joined(sofar) + all.last()
                == c.exchange.outgoing + (http_laws::joined(sofar) + all.last()));
        }
        let mid = c.pumped(before);
        conn::lemma_rejected(c, before);
        if mid.more && c.pumped(rounds).failed is Some {
            let x = mid.conn.exchange;
            let pad = match rounds.last().answer {
                Answer::Encode(_) => TLS_BUF_CAP - x.outgoing.len(),
                Answer::Write(_) => x.sealing_room(),
                _ => 0,
            };
            assert(x.outgoing + exchange::zeros(0) == x.outgoing);
            assert(c.pumped(rounds).conn.exchange.outgoing == x.outgoing + exchange::zeros(pad));
        }
    }
}

proof fn lemma_empty_piece(p: ParserView)
    requires
        http_laws::intact(p),
    ensures
        http::fed(p, Seq::empty()).parser == p,
        http::fed(p, Seq::empty()).body == Seq::<u8>::empty(),
        http::fed(p, Seq::empty()).error is None,
{
    let nothing = Seq::<u8>::empty();
    if !p.done {
        assert forall|n: int| !http::ends_at(p.mark, nothing, n) by {}
        assert(p.pending + nothing == p.pending);
    }
}

/// One visit that does not fail feeds the parser what it is handed.
proof fn lemma_visit_feeds(c: ConnView, v: Visit)
    requires
        c.plain() ==> c.incoming.len() == 0,
        c.outcome is None,
        http_laws::intact(c.exchange.parser),
        sound(visited(c, v)),
    ensures
        ({
            let end = visited(c, v);
            let f = http_laws::fed_all(c.exchange.parser, handed(c, v));
            &&& end.plain() == c.plain()
            &&& c.plain() ==> end.incoming.len() == 0
            &&& f.error is None
            &&& end.exchange.parser == f.parser
            &&& end.exchange.sink == c.exchange.sink.with(f.body)
            &&& end.exchange.request == c.exchange.request
        }),
{
    let served = c.served(v.tcp, v.stats, v.now_ns);
    let end = visited(c, v);
    assert(!c.timed_out(v.tcp.state, v.now_ns));
    if c.plain() {
        assert(c.incoming + v.tcp.rx == v.tcp.rx);
        lemma_plain_pumped(served.conn, v.rounds);
        let pieces = handed(c, v);
        let last = http::fed(c.exchange.parser, v.tcp.rx);
        let none = Seq::<Seq<u8>>::empty();
        assert(pieces.drop_last() == none);
        assert(http_laws::fed_all(c.exchange.parser, none).body == Seq::<u8>::empty());
        assert(Seq::<u8>::empty() + last.body == last.body);
        if v.tcp.rx.len() == 0 {
            assert(v.tcp.rx == Seq::<u8>::empty());
            lemma_empty_piece(c.exchange.parser);
            assert(c.exchange.sink.with(last.body) == c.exchange.sink);
        }
    } else {
        conn::lemma_pumped_keeps(served.conn, v.rounds);
        conn::lemma_rejected(served.conn, v.rounds);
    }
}

pub(crate) proof fn lemma_visits_feed(c: ConnView, visits: Seq<Visit>)
    requires
        c.plain() ==> c.incoming.len() == 0,
        c.outcome is None,
        http_laws::intact(c.exchange.parser),
        sound(visited_all(c, visits)),
    ensures
        ({
            let end = visited_all(c, visits);
            let f = http_laws::fed_all(c.exchange.parser, pieces_of(c, visits));
            &&& end.plain() == c.plain()
            &&& c.plain() ==> end.incoming.len() == 0
            &&& http_laws::intact(end.exchange.parser)
            &&& f.error is None
            &&& end.exchange.parser == f.parser
            &&& end.exchange.sink == c.exchange.sink.with(f.body)
            &&& end.exchange.request == c.exchange.request
        }),
    decreases visits.len(),
{
    if visits.len() == 0 {
        assert(c.exchange.sink.with(Seq::empty()) == c.exchange.sink);
    } else {
        let before = visits.drop_last();
        let mid = visited_all(c, before);
        let v = visits.last();
        lemma_visits_feed(c, before);
        if mid.outcome is None {
            lemma_visit_feeds(mid, v);
            let f = http_laws::fed_all(c.exchange.parser, pieces_of(c, before));
            let g = http_laws::fed_all(f.parser, handed(mid, v));
            http_laws::law_pieces_compose(
                c.exchange.parser,
                pieces_of(c, before),
                handed(mid, v),
            );
            http_laws::law_intact_after_pieces(mid.exchange.parser, handed(mid, v));
            assert(c.exchange.sink.with(f.body).with(g.body) == c.exchange.sink.with(f.body + g.body));
        }
    }
}

/// The piece is what the socket received at one of the visits; over TLS, a record
/// that the session decrypted at one of them from what it was given.
pub open spec fn came_in(c: ConnView, visits: Seq<Visit>, piece: Seq<u8>) -> bool {
    if c.plain() {
        exists|i: int| 0 <= i < visits.len() && (#[trigger] visits[i]).tcp.rx == piece
    } else {
        exists|i: int, k: int|
            {
                &&& 0 <= i < visits.len()
                &&& 0 <= k < visits[i].rounds.len()
                &&& (#[trigger] visits[i].rounds[k]).answer matches Answer::Read(records)
                    && records.contains(piece) && tls::opened(visits[i].rounds[k].given, records)
            }
    }
}

/// The rounds of all the visits are rounds with the session of the connection.
pub open spec fn all_genuine(c: ConnView, visits: Seq<Visit>) -> bool {
    forall|i: int|
        0 <= i < visits.len() ==> genuine(visited_all(c, visits.take(i)), #[trigger] visits[i])
}

proof fn lemma_record_came_in(c: ConnView, rounds: Seq<Round>, j: int) -> (k: int)
    requires
        c.answered(rounds),
        0 <= j < c.records_in(rounds).len(),
    ensures
        0 <= k < rounds.len(),
        rounds[k].answer matches Answer::Read(records) && records.contains(c.records_in(rounds)[j])
            && tls::opened(rounds[k].given, records),
    decreases rounds.len(),
{
    let before = rounds.drop_last();
    let sofar = c.records_in(before);
    let n = rounds.len() - 1;
    if j < sofar.len() {
        assert forall|i: int| 0 <= i < before.len() implies #[trigger] c.answered_at(before, i) by {
            assert(c.answered_at(rounds, i));
            assert(before.take(i) == rounds.take(i));
        }
        lemma_record_came_in(c, before, j)
    } else {
        assert(c.answered_at(rounds, n));
        assert(rounds[n] == rounds.last());
        let records = rounds[n].answer->Read_0;
        assert(records[j - sofar.len()] == c.records_in(rounds)[j]);
        n
    }
}

proof fn lemma_piece_came_in(c: ConnView, visits: Seq<Visit>, j: int)
    requires
        all_genuine(c, visits),
        c.outcome is None,
        sound(visited_all(c, visits)),
        c.plain() ==> c.incoming.len() == 0,
        http_laws::intact(c.exchange.parser),
        0 <= j < pieces_of(c, visits).len(),
    ensures
        came_in(c, visits, pieces_of(c, visits)[j]),
    decreases visits.len(),
{
    let before = visits.drop_last();
    let n = visits.len() - 1;
    let mid = visited_all(c, before);
    let piece = pieces_of(c, visits)[j];
    let sofar = pieces_of(c, before);
    lemma_visits_feed(c, before);
    if j < sofar.len() {
        assert forall|i: int| 0 <= i < before.len() implies genuine(
            visited_all(c, before.take(i)),
            #[trigger] before[i],
        ) by {
            assert(before.take(i) == visits.take(i));
            assert(genuine(visited_all(c, visits.take(i)), visits[i]));
        }
        lemma_piece_came_in(c, before, j);
        assert(sofar[j] == piece);
        if c.plain() {
            let i = choose|i: int| 0 <= i < before.len() && (#[trigger] before[i]).tcp.rx == piece;
            assert(visits[i] == before[i]);
        } else {
            let (i, k) = choose|i: int, k: int|
                {
                    &&& 0 <= i < before.len()
                    &&& 0 <= k < before[i].rounds.len()
                    &&& (#[trigger] before[i].rounds[k]).answer matches Answer::Read(records)
                        && records.contains(piece) && tls::opened(
                        before[i].rounds[k].given,
                        records,
                    )
                };
            assert(visits[i] == before[i]);
            assert(visits[i].rounds[k] == before[i].rounds[k]);
        }
    } else {
        let v = visits[n];
        assert(visits.take(n) == before);
        assert(v == visits.last());
        assert(genuine(mid, v));
        assert(handed(mid, v)[j - sofar.len()] == piece);
        if !c.plain() {
            let served = mid.served(v.tcp, v.stats, v.now_ns);
            assert(!mid.timed_out(v.tcp.state, v.now_ns));
            let k = lemma_record_came_in(served.conn, v.rounds, j - sofar.len());
            assert(visits[n].rounds[k] == v.rounds[k]);
        }
    }
}

/// What a connection delivers. However the response came in over however many
/// steps, as long as nothing failed the sink was handed exactly the bytes behind
/// the first blank line of all that came in, and the parser read its head from
/// exactly the bytes before. What comes in is, on plain HTTP, what the socket
/// receives, and else the records that the session decrypts.
pub proof fn law_response_reaches_sink(c: ConnView, visits: Seq<Visit>, n: int)
    requires
        c.plain() ==> c.incoming.len() == 0,
        c.outcome is None,
        c.exchange.parser == http::blank_parser(),
        all_genuine(c, visits),
        sound(visited_all(c, visits)),
        http_laws::blank_line_at(http_laws::joined(pieces_of(c, visits)), n),
        forall|k: int|
            0 <= k < n ==> !http_laws::blank_line_at(
                http_laws::joined(pieces_of(c, visits)),
                k,
            ),
    ensures
        ({
            let all = http_laws::joined(pieces_of(c, visits));
            let end = visited_all(c, visits);
            &&& end.exchange.parser.done
            &&& end.exchange.parser.head == http::head_of(http::blank_head(), all.take(n)).0
            &&& http::head_of(http::blank_head(), all.take(n)).1 is None
            &&& end.exchange.sink == c.exchange.sink.with(all.skip(n))
            &&& end.exchange.parser.body == http::counted(0, all.skip(n).len())
        }),
        forall|j: int|
            0 <= j < pieces_of(c, visits).len() ==> came_in(
                c,
                visits,
                #[trigger] pieces_of(c, visits)[j],
            ),
{
    let pieces = pieces_of(c, visits);
    let all = http_laws::joined(pieces);
    http_laws::law_intact(http::blank_parser(), Seq::empty());
    lemma_visits_feed(c, visits);
    if pieces.len() == 0 {
        assert(all.len() == 0);
    }
    http_laws::law_any_pieces(http::blank_parser(), pieces);
    assert(http::blank_parser().pending + all == all);
    http_laws::law_head_and_body(http::blank_parser(), all, n);
    assert forall|j: int| 0 <= j < pieces.len() implies came_in(c, visits, #[trigger] pieces[j]) by {
        lemma_piece_came_in(c, visits, j);
    }
}

/// A response that has a body and says how long it is completes with all of it;
/// one that does not say completes when the peer has closed.
pub proof fn law_complete_has_all_of_body(c: ConnView, t: TcpView)
    requires
        c.verdict(t) == Step::Complete,
        exchange::carries_body(
            c.exchange.parser.head.status,
            exchange::asks_for_head(c.exchange.request),
        ),
    ensures
        c.exchange.parser.done,
        match c.exchange.parser.head.content_length {
            Some(want) => c.exchange.parser.body >= want,
            None => conn::ended(t.state),
        },
{
}

} // verus!
