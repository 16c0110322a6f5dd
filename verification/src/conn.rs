//! One connection: a TCP socket, optionally a TLS session, one request, and
//! wherever its response body goes. Driven by [`Conn::step`], which never blocks.

use std::sync::Arc;

use vstd::prelude::*;

use rustls::client::{ClientConfig, UnbufferedClientConnection};
use rustls::pki_types::ServerName;
use smoltcp::iface::{SocketHandle, SocketSet};

use crate::endpoint::Endpoint;
use crate::error::Error;
use crate::exchange;
use crate::exchange::{Answer, Exchange, ExchangeView, Rounded};
use crate::http;
use crate::http::{BodySink, HeadView, ParserView, ResponseHead, SinkView};
use crate::http_laws;
use crate::stats::{Counters, CountersView};
use crate::net;
use crate::net::{TcpState, TcpView};
use crate::tls;
use crate::tls::{TlsState, TLS_BUF_CAP};

verus! {

/// How long a SYN may stay unanswered.
pub const SYN_TIMEOUT_NS: u64 = 5_000_000_000;

/// The record buffers and the request buffer, owned by the slot rather than
/// allocated per dial.
pub struct ConnBufs {
    incoming: Vec<u8>,
    outgoing: Vec<u8>,
    head: Vec<u8>,
}

impl ConnBufs {
    /// The buffers hold nothing.
    pub closed spec fn blank(&self) -> bool {
        self.incoming@.len() == 0 && self.outgoing@.len() == 0 && self.head@.len() == 0
    }

    pub fn new() -> (b: Self)
        ensures
            b.blank(),
    {
        ConnBufs {
            incoming: Vec::with_capacity(TLS_BUF_CAP),
            outgoing: Vec::with_capacity(TLS_BUF_CAP),
            head: Vec::with_capacity(512),
        }
    }
}

/// What one [`Conn::step`] concluded.
#[derive(Debug, Clone, Copy, PartialEq, Eq, Structural)]
pub enum Step {
    Pending,
    Complete,
    Failed(Error),
}

pub struct Conn<S> {
    handle: SocketHandle,
    /// `None` on a plain-HTTP connection: no session to drive.
    tls: Option<UnbufferedClientConnection>,
    incoming: Vec<u8>,
    exchange: Exchange<S>,
    outcome: Option<Step>,
    connect_start_ns: u64,
    queue_id: u16,
    src_port: u16,
    /// Its setup was counted, whichever way it went.
    settled: bool,
    established: bool,
    syn_ns: Option<u64>,
    head_ns: Option<u64>,
    is_head: bool,
}

/// The value of a [`Conn`].
#[verifier::ext_equal]
pub struct ConnView {
    pub handle: SocketHandle,
    /// What its TLS session was begun with; `None` on plain HTTP.
    pub session: Option<(ClientConfig, ServerName<'static>)>,
    /// Bytes off the socket that were not worked through yet.
    pub incoming: Seq<u8>,
    pub exchange: ExchangeView,
    pub outcome: Option<Step>,
    pub connect_start_ns: u64,
    pub queue_id: u16,
    pub src_port: u16,
    pub settled: bool,
    pub established: bool,
    /// When its SYN was first seen gone.
    pub syn_ns: Option<u64>,
    /// When the first byte of its response head was seen.
    pub head_ns: Option<u64>,
}

/// What a session was begun with, where there is one.
pub open spec fn session_view(tls: Option<UnbufferedClientConnection>) -> Option<
    (ClientConfig, ServerName<'static>),
> {
    match tls {
        Some(t) => Some(tls::begun_with(&t)),
        None => None,
    }
}

impl<S: BodySink> View for Conn<S> {
    type V = ConnView;

    closed spec fn view(&self) -> ConnView {
        ConnView {
            handle: self.handle,
            session: session_view(self.tls),
            incoming: self.incoming@,
            exchange: self.exchange@,
            outcome: self.outcome,
            connect_start_ns: self.connect_start_ns,
            queue_id: self.queue_id,
            src_port: self.src_port,
            settled: self.settled,
            established: self.established,
            syn_ns: self.syn_ns,
            head_ns: self.head_ns,
        }
    }
}

/// Where a step stands once the socket is served and before any TLS.
pub struct Served {
    pub conn: ConnView,
    pub tcp: TcpView,
    pub stats: CountersView,
}

/// One round with the session: what was in `incoming` when it was handed over,
/// what it was worked into in place, how much of that the session needs no more,
/// and what the session answered.
pub struct Round {
    pub given: Seq<u8>,
    pub worked: Seq<u8>,
    pub discard: nat,
    pub answer: Answer,
}

impl Round {
    /// What is then left in `incoming`, unless the round fails: then all of it stays.
    pub open spec fn left(self) -> Seq<u8> {
        self.worked.skip(self.discard as int)
    }
}

/// Where some rounds with the session lead.
pub struct Pumped {
    pub conn: ConnView,
    pub failed: Option<Error>,
    /// Another round may get further.
    pub more: bool,
}

/// The peer has closed, or the connection is gone.
pub open spec fn ended(state: TcpState) -> bool {
    state == TcpState::Closed || state == TcpState::CloseWait || state == TcpState::TimeWait
}

impl ConnView {
    /// A connection on plain HTTP.
    pub open spec fn plain(self) -> bool {
        self.session is None
    }

    /// A connection whose SYN is due, with nothing sent or received.
    pub open spec fn fresh(
        handle: SocketHandle,
        queue_id: u16,
        src_port: u16,
        session: Option<(ClientConfig, ServerName<'static>)>,
        request: Seq<u8>,
        sink: SinkView,
        now_ns: u64,
    ) -> ConnView {
        ConnView {
            handle,
            session,
            incoming: Seq::empty(),
            exchange: ExchangeView::fresh(request, Seq::empty(), sink),
            outcome: None,
            connect_start_ns: now_ns,
            queue_id,
            src_port,
            settled: false,
            established: false,
            syn_ns: None,
            head_ns: None,
        }
    }

    /// Finished successfully and still Established, so reusable.
    pub open spec fn reusable(self, t: TcpView) -> bool {
        self.outcome == Some(Step::Complete) && t.state == TcpState::Established
    }

    /// The same connection with a new request; what may be a partial record of
    /// its TLS stream is kept.
    pub open spec fn reset(self, request: Seq<u8>, sink: SinkView, now_ns: u64) -> ConnView {
        ConnView {
            exchange: ExchangeView {
                ready: self.exchange.ready,
                ..ExchangeView::fresh(request, self.exchange.outgoing, sink)
            },
            outcome: None,
            connect_start_ns: now_ns,
            head_ns: None,
            ..self
        }
    }

    /// The connection has come to its end.
    pub open spec fn finished(self, step: Step) -> ConnView {
        ConnView { outcome: Some(step), ..self }
    }

    /// When the SYN went out, as far as that is known at `now_ns`.
    pub open spec fn syn_seen(self, state: TcpState, now_ns: u64) -> Option<u64> {
        if self.syn_ns is None && (state == TcpState::SynSent || state == TcpState::Established) {
            Some(now_ns)
        } else {
            self.syn_ns
        }
    }

    /// How long ago the SYN went out.
    pub open spec fn since_syn(self, state: TcpState, now_ns: u64) -> u64 {
        match self.syn_seen(state, now_ns) {
            Some(t) => now_ns.saturating_sub(t),
            None => 0,
        }
    }

    /// This step sees the handshake done for the first time.
    pub open spec fn arrives(self, state: TcpState) -> bool {
        !self.settled && state == TcpState::Established
    }

    /// The socket's state taken note of.
    pub open spec fn noted(self, state: TcpState, now_ns: u64) -> ConnView {
        ConnView {
            syn_ns: self.syn_seen(state, now_ns),
            settled: self.settled || state == TcpState::Established,
            established: self.established || self.arrives(state),
            ..self
        }
    }

    /// The SYN has gone unanswered for too long.
    pub open spec fn timed_out(self, state: TcpState, now_ns: u64) -> bool {
        state == TcpState::SynSent && now_ns.saturating_sub(self.connect_start_ns) > SYN_TIMEOUT_NS
    }

    /// On plain HTTP the request goes among the outgoing bytes as soon as the
    /// socket can take it.
    pub open spec fn queueing(self, t: TcpView) -> ConnView {
        if self.plain() && !self.exchange.queued && t.may_send() {
            ConnView { exchange: self.exchange.with_request(), ..self }
        } else {
            self
        }
    }

    /// How many of the outgoing bytes the socket takes now.
    pub open spec fn sendable(self, t: TcpView) -> int {
        if t.may_send() {
            net::taken(t, self.exchange.outgoing.len())
        } else {
            0
        }
    }

    /// The socket is served: its state noted, the request queued, outgoing bytes
    /// handed over, and everything it received taken in.
    pub open spec fn served(self, t: TcpView, stats: CountersView, now_ns: u64) -> Served {
        let noted = self.noted(t.state, now_ns);
        let counted = if self.arrives(t.state) {
            stats.with_established(self.since_syn(t.state, now_ns))
        } else {
            stats
        };
        if self.timed_out(t.state, now_ns) {
            Served {
                conn: ConnView { settled: true, ..noted }.finished(Step::Failed(Error::SynTimeout)),
                tcp: t.aborted(),
                stats: if noted.settled {
                    counted
                } else {
                    counted.with_failed()
                },
            }
        } else {
            let queued = noted.queueing(t);
            let n = queued.sendable(t);
            let filled = ConnView {
                exchange: queued.exchange.with_sent(n),
                incoming: queued.incoming + t.rx,
                ..queued
            };
            Served {
                conn: filled.fed_plain(),
                tcp: TcpView {
                    tx: t.tx + queued.exchange.outgoing.take(n),
                    rx: Seq::empty(),
                    ..t
                },
                stats: counted,
            }
        }
    }

    /// On plain HTTP all that came in goes to the parser; what is no response
    /// ends the connection.
    pub open spec fn fed_plain(self) -> ConnView {
        if self.plain() && self.incoming.len() > 0 {
            let (exchange, error) = self.exchange.with_response(self.incoming);
            ConnView {
                exchange,
                incoming: Seq::empty(),
                outcome: match error {
                    Some(e) => Some(Step::Failed(e)),
                    None => self.outcome,
                },
                ..self
            }
        } else {
            self
        }
    }

    /// Some rounds with the session, up to one that fails or gets no further.
    pub open spec fn pumped(self, rounds: Seq<Round>) -> Pumped
        decreases rounds.len(),
    {
        if rounds.len() == 0 {
            Pumped { conn: self, failed: None, more: !self.plain() }
        } else {
            let before = self.pumped(rounds.drop_last());
            if before.more {
                let r = before.conn.exchange.round(rounds.last().answer);
                Pumped {
                    conn: ConnView {
                        exchange: r.exchange,
                        incoming: if r.failed is None {
                            rounds.last().left()
                        } else {
                            rounds.last().worked
                        },
                        ..before.conn
                    },
                    failed: r.failed,
                    more: r.more,
                }
            } else {
                before
            }
        }
    }

    /// The `i`-th of some rounds is one with the session: it was handed what was in
    /// `incoming`, the answer is one that a session gives to that, and what was
    /// encrypted, if anything was to be, is the request.
    pub open spec fn answered_at(self, rounds: Seq<Round>, i: int) -> bool {
        let before = self.pumped(rounds.take(i)).conn;
        let round = rounds[i];
        &&& round.given == (if i == 0 {
            self.incoming
        } else {
            rounds[i - 1].left()
        })
        &&& tls::answers(round.given, round.worked, round.discard, round.answer.wants())
        &&& round.discard <= round.worked.len() == round.given.len()
        &&& before.exchange.encrypts(round.answer)
    }

    /// All of some rounds are rounds with the session, each where the last left off.
    pub open spec fn answered(self, rounds: Seq<Round>) -> bool {
        forall|i: int| 0 <= i < rounds.len() ==> #[trigger] self.answered_at(rounds, i)
    }

    /// The records that came in over some rounds with the session, up to where
    /// those got no further.
    pub open spec fn records_in(self, rounds: Seq<Round>) -> Seq<Seq<u8>>
        decreases rounds.len(),
    {
        if rounds.len() == 0 {
            Seq::empty()
        } else {
            let before = self.records_in(rounds.drop_last());
            match rounds.last().answer {
                Answer::Read(records) if self.pumped(rounds.drop_last()).more => before + records,
                _ => before,
            }
        }
    }

    /// The parser rejects one of these records.
    pub open spec fn rejects(self, records: Seq<Seq<u8>>) -> bool {
        http_laws::fed_all(self.exchange.parser, records).error is Some
    }

    /// What the step comes to, with the socket as it was left.
    pub open spec fn verdict(self, t: TcpView) -> Step {
        if self.exchange.framed() {
            Step::Complete
        } else if self.exchange.ready && self.exchange.queued && ended(t.state)
            && self.exchange.outgoing.len() == 0 && t.rx.len() == 0 {
            if self.exchange.parser.done && self.exchange.parser.head.content_length is None {
                Step::Complete
            } else {
                Step::Failed(Error::BadResponse)
            }
        } else {
            Step::Pending
        }
    }

    /// The end of a step.
    pub open spec fn concluded(self, t: TcpView, now_ns: u64) -> ConnView {
        let stamped = ConnView {
            head_ns: if self.head_ns is None && self.exchange.parser.begun() {
                Some(now_ns)
            } else {
                self.head_ns
            },
            ..self
        };
        match self.verdict(t) {
            Step::Pending => stamped,
            step => stamped.finished(step),
        }
    }

    /// The rest of a step: the session's rounds, then the end.
    pub open spec fn after(self, rounds: Seq<Round>, t: TcpView, now_ns: u64) -> ConnView {
        let p = self.pumped(rounds);
        match p.failed {
            Some(e) => p.conn.finished(Step::Failed(e)),
            None => p.conn.concluded(t, now_ns),
        }
    }

    /// The rest of a step leads from here to `end`, with whatever the session
    /// answers. A connection at its end stays there.
    pub open spec fn leads_to(self, end: ConnView, t: TcpView, now_ns: u64) -> bool {
        if self.outcome is Some {
            end == self
        } else {
            exists|rounds: Seq<Round>|
                {
                    &&& end == #[trigger] self.after(rounds, t, now_ns)
                    &&& self.answered(rounds)
                    &&& self.pumped(rounds).more ==> rounds.len() == usize::MAX
                }
        }
    }

    /// What a step reports.
    pub open spec fn report(self) -> Step {
        match self.outcome {
            Some(step) => step,
            None => Step::Pending,
        }
    }
}

impl<S: BodySink> Conn<S> {
    /// What holds of a connection between steps.
    pub closed spec fn wf(&self) -> bool {
        &&& self.exchange.wf()
        &&& self.is_head == exchange::asks_for_head(self.exchange@.request)
        &&& self.outcome == Some(Step::Complete) ==> self.exchange@.outgoing.len() == 0
        &&& self.outcome != Some(Step::Pending)
        &&& self.tls matches Some(t) ==> tls::held(&t) <= self.incoming@.len()
    }

    /// Where the body goes.
    pub closed spec fn target(&self) -> S {
        self.exchange.target()
    }

    /// Body bytes the sink stored.
    pub open spec fn stored(&self) -> u64 {
        self.target().stored()
    }

    /// The sink was handed more than it could store.
    pub open spec fn dropped(&self) -> bool {
        self.target().dropped()
    }

    /// The sink has been handed the body, as far as it has come.
    pub proof fn law_target_has_body(&self)
        requires
            self.wf(),
        ensures
            self.target().inv(),
            http::sink_view(&self.target()) == self@.exchange.sink,
    {
    }

    /// A fresh session with the peer; `None` on a plain-HTTP peer.
    pub fn session(peer: &Endpoint, tls_config: &Arc<ClientConfig>) -> (r: Result<
        Option<UnbufferedClientConnection>,
        Error,
    >)
        ensures
            !peer.tls ==> r is Ok,
            peer.tls && tls::server_name_of(peer.host@) is None ==> r is Err,
            r matches Err(e) ==> e == Error::Tls,
            r matches Ok(s) ==> session_view(s) == (if peer.tls {
                Some((**tls_config, tls::server_name_of(peer.host@)->0))
            } else {
                None
            }),
            r matches Ok(Some(s)) ==> tls::held(&s) == 0,
            peer.tls && tls::server_name_of(peer.host@) is Some ==> tls::begins(
                **tls_config,
                tls::server_name_of(peer.host@)->0,
                r is Ok,
            ),
    {
        if !peer.tls {
            return Ok(None);
        }
        let name = match tls::server_name(peer.host.as_str()) {
            Some(name) => name,
            None => return Err(Error::Tls),
        };
        match tls::client(tls_config, name) {
            Some(c) => Ok(Some(c)),
            None => Err(Error::Tls),
        }
    }

    pub fn new(
        handle: SocketHandle,
        queue_id: u16,
        src_port: u16,
        tls: Option<UnbufferedClientConnection>,
        head: &[u8],
        sink: S,
        bufs: ConnBufs,
        now_ns: u64,
    ) -> (c: Self)
        requires
            sink.inv(),
            bufs.blank(),
            tls matches Some(t) ==> tls::held(&t) == 0,
        ensures
            c.wf(),
            c@ == ConnView::fresh(
                handle,
                queue_id,
                src_port,
                session_view(tls),
                head@,
                http::sink_view(&sink),
                now_ns,
            ),
            c.target() == sink,
    {
        let ConnBufs { incoming, outgoing, head: mut request } = bufs;
        request.clear();
        request.extend_from_slice(head);
        proof {
            assert(request@ == head@);
            assert(incoming@ == Seq::<u8>::empty());
            assert(outgoing@ == Seq::<u8>::empty());
        }
        Conn {
            handle,
            tls,
            incoming,
            exchange: Exchange::new(request, outgoing, sink),
            outcome: None,
            connect_start_ns: now_ns,
            queue_id,
            src_port,
            settled: false,
            established: false,
            syn_ns: None,
            head_ns: None,
            is_head: exchange::is_head_request(head),
        }
    }

    /// When the first byte of the response head was seen.
    pub fn head_ns(&self) -> (r: Option<u64>)
        ensures
            r == self@.head_ns,
    {
        self.head_ns
    }

    /// The local port it was dialled from.
    pub fn src_port(&self) -> (r: u16)
        ensures
            r == self@.src_port,
    {
        self.src_port
    }

    /// The queue its packets come in on.
    pub fn queue_id(&self) -> (r: u16)
        ensures
            r == self@.queue_id,
    {
        self.queue_id
    }

    /// The buffers back, emptied.
    pub fn into_bufs(self) -> (b: ConnBufs)
        ensures
            b.blank(),
    {
        let mut incoming = self.incoming;
        let (mut head, mut outgoing) = self.exchange.into_parts();
        incoming.clear();
        outgoing.clear();
        head.clear();
        ConnBufs { incoming, outgoing, head }
    }

    /// Finished successfully and still Established, so reusable.
    pub fn idle_reusable(&self, sockets: &SocketSet<'_>) -> (r: bool)
        requires
            net::tcp_sockets(sockets).contains_key(self@.handle),
        ensures
            r == self@.reusable(net::tcp_sockets(sockets)[self@.handle]),
    {
        self.complete() && net::state(sockets, self.handle) == TcpState::Established
    }

    fn complete(&self) -> (r: bool)
        ensures
            r == (self@.outcome == Some(Step::Complete)),
    {
        match self.outcome {
            Some(step) => step == Step::Complete,
            None => false,
        }
    }

    /// Reuse the socket and TLS session for a new request. `incoming` is kept:
    /// it may hold a partial record of the same TLS stream.
    pub fn reset_for(&mut self, head: &[u8], sink: S, now_ns: u64)
        requires
            old(self).wf(),
            sink.inv(),
            old(self)@.exchange.outgoing.len() == 0,
        ensures
            final(self).wf(),
            final(self)@ == old(self)@.reset(head@, http::sink_view(&sink), now_ns),
            final(self).target() == sink,
    {
        self.exchange.restart(head, sink);
        self.outcome = None;
        self.connect_start_ns = now_ns;
        self.head_ns = None;
        self.is_head = exchange::is_head_request(head);
    }

    /// Takes the sink out of a connection that has come to its end, and leaves
    /// another in its place until the next request.
    pub fn swap_sink(&mut self, sink: S) -> (r: S)
        requires
            old(self).wf(),
            sink.inv(),
        ensures
            final(self).wf(),
            r == old(self).target(),
            final(self).target() == sink,
            final(self)@ == (ConnView {
                exchange: ExchangeView { sink: http::sink_view(&sink), ..old(self)@.exchange },
                ..old(self)@
            }),
    {
        self.exchange.swap_sink(sink)
    }

    /// Body bytes the sink stored.
    pub fn sink_written(&self) -> (r: u64)
        requires
            self.wf(),
        ensures
            r == self.stored(),
    {
        self.exchange.sink_written()
    }

    /// The sink was handed more than it could store.
    pub fn sink_overflowed(&self) -> (r: bool)
        requires
            self.wf(),
        ensures
            r == self.dropped(),
    {
        self.exchange.sink_overflowed()
    }

    /// The HTTP status, or 0 until the head has been parsed.
    pub fn status(&self) -> (r: u16)
        ensures
            r == self@.exchange.parser.head.status,
    {
        self.exchange.parser.status()
    }

    pub fn head(&self) -> (r: &ResponseHead)
        ensures
            r@ == self@.exchange.parser.head,
    {
        self.exchange.parser.head()
    }

    pub fn head_mut(&mut self) -> (r: &mut ResponseHead)
        ensures
            r@ == old(self)@.exchange.parser.head,
            final(self)@ == old(self)@.with_head(final(r)@),
            old(self).wf() ==> final(self).wf(),
            final(self).target() == old(self).target(),
    {
        self.exchange.parser.head_mut()
    }

    /// How it ended, once it has: never with more to come.
    pub fn outcome(&self) -> (r: Option<Step>)
        ensures
            r == self@.outcome,
            self.wf() ==> r != Some(Step::Pending),
    {
        self.outcome
    }

    /// The handshake has completed: a SYN still unanswered reads false.
    pub fn established(&self) -> (r: bool)
        ensures
            r == self@.established,
    {
        self.established
    }

    /// A response is complete only when nothing is left to send, so the
    /// connection can take another request.
    pub proof fn law_complete_has_sent_all(&self)
        requires
            self.wf(),
            self@.outcome == Some(Step::Complete),
        ensures
            self@.exchange.outgoing.len() == 0,
    {
    }

    /// An outcome is an end: there is none while there is more to come.
    pub proof fn law_outcome_is_an_end(&self)
        requires
            self.wf(),
        ensures
            self@.outcome != Some(Step::Pending),
    {
    }

    fn finish(&mut self, step: Step) -> (r: Step)
        requires
            old(self).wf(),
            step != Step::Pending,
            step == Step::Complete ==> old(self)@.exchange.outgoing.len() == 0,
        ensures
            final(self).wf(),
            final(self)@ == old(self)@.finished(step),
            r == step,
    {
        self.outcome = Some(step);
        step
    }

    /// Takes note of the socket's state, and of the time.
    fn note(&mut self, state: TcpState, stats: &mut Counters, now_ns: u64) -> (since_syn: u64)
        requires
            old(self).wf(),
        ensures
            final(self).wf(),
            final(self)@ == old(self)@.noted(state, now_ns),
            final(stats)@ == (if old(self)@.arrives(state) {
                old(stats)@.with_established(since_syn)
            } else {
                old(stats)@
            }),
            since_syn == old(self)@.since_syn(state, now_ns),
    {
        if self.syn_ns.is_none() && (state == TcpState::SynSent || state == TcpState::Established) {
            self.syn_ns = Some(now_ns);
        }
        let since_syn: u64 = match self.syn_ns {
            Some(t) => now_ns.saturating_sub(t),
            None => 0,
        };
        if !self.settled && state == TcpState::Established {
            self.settled = true;
            self.established = true;
            stats.conn_established(since_syn);
        }
        since_syn
    }

    /// Hands outgoing bytes to the socket, and takes in all it received.
    fn transfer(&mut self, sockets: &mut SocketSet<'_>)
        requires
            old(self).wf(),
            old(self)@.outcome is None,
            net::tcp_sockets(old(sockets)).contains_key(old(self)@.handle),
        ensures
            final(self).wf(),
            ({
                let c = old(self)@;
                let t = net::tcp_sockets(old(sockets))[c.handle];
                let n = c.sendable(t);
                &&& final(self)@ == (ConnView {
                    exchange: c.exchange.with_sent(n),
                    incoming: c.incoming + t.rx,
                    ..c
                })
                &&& net::tcp_sockets(final(sockets)) == net::tcp_sockets(old(sockets)).insert(
                    c.handle,
                    TcpView { tx: t.tx + c.exchange.outgoing.take(n), rx: Seq::empty(), ..t },
                )
            }),
    {
        let handle = self.handle;
        let ghost all = net::tcp_sockets(sockets);
        let ghost c = self@;
        let ghost t = all[c.handle];
        let ghost n = c.sendable(t);
        if self.exchange.outgoing.len() > 0 && net::can_send(sockets, handle) {
            match net::send(sockets, handle, self.exchange.outgoing.as_slice()) {
                Some(n) => self.exchange.sent(n),
                None => {},
            }
        }
        let ghost sent = TcpView { tx: t.tx + c.exchange.outgoing.take(n), ..t };
        proof {
            assert(c.exchange.outgoing.skip(0) == c.exchange.outgoing);
            assert(t.tx + c.exchange.outgoing.take(0) == t.tx);
            assert(self@.exchange == c.exchange.with_sent(n));
            assert(net::tcp_sockets(sockets) == all.insert(handle, sent));
            assert(self@.incoming == c.incoming + t.rx.take(0));
            assert(t.rx.skip(0) == t.rx);
        }
        // One piece at a time: what is received is kept in a ring.
        let ghost mut k: int = 0;
        while net::can_recv(sockets, handle)
            invariant
                self.wf(),
                0 <= k <= t.rx.len(),
                handle == c.handle,
                self@ == (ConnView {
                    exchange: c.exchange.with_sent(n),
                    incoming: c.incoming + t.rx.take(k),
                    ..c
                }),
                net::tcp_sockets(sockets) == all.insert(
                    handle,
                    TcpView { rx: t.rx.skip(k), ..sent },
                ),
            ensures
                k == t.rx.len(),
            decreases t.rx.len() - k,
        {
            match net::recv(sockets, handle, &mut self.incoming) {
                Some(m) => {
                    proof {
                        assert(c.incoming + t.rx.take(k) + t.rx.skip(k).take(m as int) == c.incoming
                            + t.rx.take(k + m));
                        assert(t.rx.skip(k).skip(m as int) == t.rx.skip(k + m));
                        assert(net::tcp_sockets(sockets) == all.insert(
                            handle,
                            TcpView { rx: t.rx.skip(k + m), ..sent },
                        ));
                        k = k + m;
                    }
                },
                None => break,
            }
        }
        proof {
            assert(t.rx.skip(k) == Seq::<u8>::empty());
            assert(t.rx.take(k) == t.rx);
        }
    }

    /// Advances the record layer until it stops making progress; `Some` is failure:
    /// of the session, or of the parser on a record that it decrypted.
    fn pump_tls(&mut self) -> (r: Option<Error>)
        requires
            old(self).wf(),
            old(self)@.outcome is None,
        ensures
            final(self).wf(),
            old(self)@.plain() ==> r is None && final(self)@ == old(self)@,
            r matches Some(e) ==> e == Error::Tls || e == Error::BadResponse,
            exists|rounds: Seq<Round>|
                {
                    let p = #[trigger] old(self)@.pumped(rounds);
                    &&& final(self)@ == p.conn
                    &&& r == p.failed
                    &&& old(self)@.answered(rounds)
                    &&& p.more ==> rounds.len() == usize::MAX
                    &&& r == Some(Error::BadResponse) <==> old(self)@.rejects(
                        old(self)@.records_in(rounds),
                    )
                },
    {
        let ghost c = self@;
        let ghost mut rounds: Seq<Round> = Seq::empty();
        let mut more: bool = self.tls.is_some();
        let mut budget: usize = usize::MAX;
        while more && budget > 0
            invariant
                self.wf(),
                c == old(self)@,
                c.outcome is None,
                self@.outcome is None,
                rounds.len() == usize::MAX - budget,
                c.pumped(rounds) == (Pumped { conn: self@, failed: None, more }),
                c.answered(rounds),
                self@.incoming == (if rounds.len() == 0 {
                    c.incoming
                } else {
                    rounds.last().left()
                }),
                more ==> self.tls is Some,
                c.plain() ==> rounds.len() == 0 && !more,
            decreases budget,
        {
            let ghost before = self@;
            let tls = match self.tls.as_mut() {
                Some(tls) => tls,
                None => return None,
            };
            budget = budget - 1;
            let (discard, state) = tls::process(tls, &mut self.incoming);
            let mut failed: Option<Error> = None;
            let ghost mut answer: Answer = Answer::Broken;
            match state {
                Some(TlsState::Read(mut rt)) => {
                    proof {
                        answer = Answer::Read(tls::records(&rt));
                    }
                    failed = self.exchange.read_records(&mut rt);
                    more = failed.is_none();
                },
                Some(TlsState::Encode(mut et)) => {
                    proof {
                        answer = Answer::Encode(tls::record_to_send(&et));
                    }
                    failed = self.exchange.encode_record(&mut et);
                    more = failed.is_none();
                },
                Some(TlsState::Transmit(tt)) => {
                    tls::transmitted(tt);
                    more = true;
                    proof {
                        answer = Answer::Transmit;
                    }
                },
                Some(TlsState::Write(mut wt)) => {
                    let ghost x = self.exchange@;
                    let (e, queued) = self.exchange.write_request(&mut wt);
                    failed = e;
                    more = queued;
                    proof {
                        let request = choose|request: Option<Seq<u8>>|
                            {
                                &&& x.encrypts(Answer::Write(request))
                                &&& #[trigger] x.round(Answer::Write(request)) == (Rounded {
                                    exchange: self.exchange@,
                                    failed,
                                    more,
                                })
                            };
                        answer = Answer::Write(request);
                    }
                },
                Some(TlsState::Wait) => {
                    more = false;
                    proof {
                        answer = Answer::Wait;
                    }
                },
                None => {
                    failed = Some(Error::Tls);
                    more = false;
                },
            }
            let ghost worked = self.incoming@;
            if failed.is_none() {
                exchange::drop_front(&mut self.incoming, discard);
            }
            proof {
                let round = Round {
                    given: before.incoming,
                    worked,
                    discard: discard as nat,
                    answer,
                };
                let after = rounds.push(round);
                assert(after.drop_last() == rounds);
                assert(before.exchange.round(answer) == (Rounded {
                    exchange: self.exchange@,
                    failed,
                    more,
                }));
                assert(c.pumped(after) == (Pumped { conn: self@, failed, more }));
                lemma_answered_push(c, rounds, round);
                rounds = after;
            }
            if failed.is_some() {
                proof {
                    lemma_rejected(c, rounds);
                }
                return failed;
            }
        }
        proof {
            lemma_rejected(c, rounds);
        }
        None
    }

    /// Ends a step: the response is complete, or the peer has ended it, or there
    /// is more to come.
    fn conclude(&mut self, sockets: &SocketSet<'_>, now_ns: u64) -> (r: Step)
        requires
            old(self).wf(),
            old(self)@.outcome is None,
            net::tcp_sockets(sockets).contains_key(old(self)@.handle),
        ensures
            final(self).wf(),
            final(self)@ == old(self)@.concluded(
                net::tcp_sockets(sockets)[old(self)@.handle],
                now_ns,
            ),
            r == final(self)@.report(),
    {
        let done = self.exchange.parser.headers_done();
        if self.head_ns.is_none() && self.exchange.parser.begun() {
            self.head_ns = Some(now_ns);
        }
        // Keep-alive: completion comes from the framing, not a FIN.
        if done && self.exchange.outgoing.len() == 0 {
            let whole = if exchange::has_body(self.exchange.parser.status(), self.is_head) {
                match self.exchange.parser.head().content_length {
                    Some(want) => self.exchange.parser.body_bytes() >= want,
                    None => false,
                }
            } else {
                true
            };
            if whole {
                return self.finish(Step::Complete);
            }
        }
        // FIN fallback for responses the length check could not decide.
        let state = net::state(sockets, self.handle);
        let ended = state == TcpState::Closed || state == TcpState::CloseWait || state
            == TcpState::TimeWait;
        if self.exchange.handshake_done && self.exchange.request_queued && ended
            && self.exchange.outgoing.len() == 0 && !net::can_recv(sockets, self.handle) {
            // Closed before any head arrived is a failure, not an empty body, and
            // closed before all of an announced body is no end of it.
            if !done || self.exchange.parser.head().content_length.is_some() {
                return self.finish(Step::Failed(Error::BadResponse));
            }
            return self.finish(Step::Complete);
        }
        Step::Pending
    }

    /// Serves the socket; on plain HTTP also the parser. A connection that comes
    /// to its end here is finished.
    fn serve(&mut self, sockets: &mut SocketSet<'_>, stats: &mut Counters, now_ns: u64)
        requires
            old(self).wf(),
            old(self)@.outcome is None,
            net::tcp_sockets(old(sockets)).contains_key(old(self)@.handle),
        ensures
            final(self).wf(),
            ({
                let c = old(self)@;
                let all = net::tcp_sockets(old(sockets));
                let served = c.served(all[c.handle], old(stats)@, now_ns);
                &&& final(self)@ == served.conn
                &&& net::tcp_sockets(final(sockets)) == all.insert(c.handle, served.tcp)
                &&& final(stats)@ == served.stats
            }),
    {
        let ghost c = self@;
        let ghost t = net::tcp_sockets(sockets)[c.handle];
        let ghost served = c.served(t, stats@, now_ns);
        let state = net::state(sockets, self.handle);
        let since_syn: u64 = self.note(state, stats, now_ns);
        if state == TcpState::SynSent && now_ns.saturating_sub(self.connect_start_ns)
            > SYN_TIMEOUT_NS {
            net::abort(sockets, self.handle);
            if !self.settled {
                self.settled = true;
                stats.conn_failed(since_syn);
            }
            let _ = self.finish(Step::Failed(Error::SynTimeout));
            assert(self@ == served.conn);
            return;
        }
        if self.tls.is_none() && !self.exchange.request_queued && net::may_send(
            sockets,
            self.handle,
        ) {
            self.exchange.queue_plain();
        }
        let ghost queued = self@;
        assert(queued == c.noted(t.state, now_ns).queueing(t));
        self.transfer(sockets);
        assert(net::tcp_sockets(sockets)[c.handle] == served.tcp);
        let ghost filled = self@;
        assert(served.conn == filled.fed_plain());
        if self.tls.is_none() && self.incoming.len() > 0 {
            let failed = self.exchange.feed(self.incoming.as_slice());
            self.incoming.clear();
            assert(self.incoming@ == Seq::<u8>::empty());
            if let Some(e) = failed {
                let _ = self.finish(Step::Failed(e));
            }
            assert(self@ == filled.fed_plain());
        }
    }

    /// One non-blocking step: drain RX, push TX, advance TLS. A connection that
    /// has come to its end stays as it is.
    pub fn step(&mut self, sockets: &mut SocketSet<'_>, stats: &mut Counters, now_ns: u64) -> (r:
        Step)
        requires
            old(self).wf(),
            net::tcp_sockets(old(sockets)).contains_key(old(self)@.handle),
        ensures
            final(self).wf(),
            r == final(self)@.report(),
            ({
                let c = old(self)@;
                let all = net::tcp_sockets(old(sockets));
                let served = c.served(all[c.handle], old(stats)@, now_ns);
                if c.outcome is Some {
                    &&& final(self)@ == c
                    &&& final(self).target() == old(self).target()
                    &&& net::tcp_sockets(final(sockets)) == all
                    &&& final(stats)@ == old(stats)@
                } else {
                    &&& net::tcp_sockets(final(sockets)) == all.insert(c.handle, served.tcp)
                    &&& final(stats)@ == served.stats
                    &&& served.conn.leads_to(final(self)@, served.tcp, now_ns)
                }
            }),
    {
        if let Some(done) = self.outcome {
            return done;
        }
        self.serve(sockets, stats, now_ns);
        if let Some(done) = self.outcome {
            return done;
        }
        let ghost served = self@;
        let ghost t = net::tcp_sockets(sockets)[served.handle];
        let failed = self.pump_tls();
        let ghost rounds = choose|rounds: Seq<Round>|
            {
                let p = #[trigger] served.pumped(rounds);
                &&& self@ == p.conn
                &&& failed == p.failed
                &&& served.answered(rounds)
                &&& p.more ==> rounds.len() == usize::MAX
            };
        proof {
            lemma_pumped_keeps(served, rounds);
        }
        if let Some(e) = failed {
            let r = self.finish(Step::Failed(e));
            assert(self@ == served.after(rounds, t, now_ns));
            return r;
        }
        let r = self.conclude(sockets, now_ns);
        assert(self@ == served.after(rounds, t, now_ns));
        r
    }
}

/// One more round.
proof fn lemma_answered_push(c: ConnView, rounds: Seq<Round>, round: Round)
    requires
        c.answered(rounds),
        round.given == (if rounds.len() == 0 {
            c.incoming
        } else {
            rounds.last().left()
        }),
        tls::answers(round.given, round.worked, round.discard, round.answer.wants()),
        round.discard <= round.worked.len() == round.given.len(),
        c.pumped(rounds).conn.exchange.encrypts(round.answer),
    ensures
        c.answered(rounds.push(round)),
{
    let after = rounds.push(round);
    assert forall|i: int| 0 <= i < after.len() implies #[trigger] c.answered_at(after, i) by {
        if i < rounds.len() {
            assert(c.answered_at(rounds, i));
            assert(after.take(i) == rounds.take(i));
        } else {
            assert(after.take(i) == rounds);
        }
    }
}

/// Over rounds with the session the parser is handed the records that came in, and
/// the sink the body bytes among them, and neither anything else. The rounds fail
/// for what came in exactly where the parser rejects one of those records.
pub proof fn lemma_rejected(c: ConnView, rounds: Seq<Round>)
    ensures
        ({
            let p = c.pumped(rounds);
            let f = http_laws::fed_all(c.exchange.parser, c.records_in(rounds));
            &&& p.conn.exchange.parser == f.parser
            &&& p.conn.exchange.sink == c.exchange.sink.with(f.body)
            &&& p.conn.exchange.request == c.exchange.request
            &&& p.failed == Some(Error::BadResponse) <==> f.error is Some
            &&& p.failed is Some ==> !p.more
            &&& p.failed matches Some(e) ==> e == Error::Tls || e == Error::BadResponse
        }),
    decreases rounds.len(),
{
    if rounds.len() == 0 {
        assert(c.exchange.sink.with(Seq::empty()) == c.exchange.sink);
    } else {
        let before = rounds.drop_last();
        let mid = c.pumped(before);
        lemma_rejected(c, before);
        if mid.more {
            let records = c.records_in(before);
            match rounds.last().answer {
                Answer::Read(new) => {
                    http_laws::law_pieces_compose(c.exchange.parser, records, new);
                    let f = http_laws::fed_all(c.exchange.parser, records);
                    let g = http_laws::fed_all(f.parser, new);
                    assert(c.exchange.sink.with(f.body).with(g.body) == c.exchange.sink.with(
                        f.body + g.body,
                    ));
                },
                _ => {},
            }
        }
    }
}

/// Rounds with the session touch nothing but the exchange and what is in `incoming`.
pub proof fn lemma_pumped_keeps(c: ConnView, rounds: Seq<Round>)
    ensures
        c.pumped(rounds).conn == (ConnView {
            exchange: c.pumped(rounds).conn.exchange,
            incoming: c.pumped(rounds).conn.incoming,
            ..c
        }),
    decreases rounds.len(),
{
    if rounds.len() > 0 {
        lemma_pumped_keeps(c, rounds.drop_last());
    }
}

impl ConnView {
    /// Another response head in place of the one that was parsed.
    pub open spec fn with_head(self, head: HeadView) -> ConnView {
        ConnView {
            exchange: ExchangeView {
                parser: ParserView { head, ..self.exchange.parser },
                ..self.exchange
            },
            ..self
        }
    }
}

} // verus!
