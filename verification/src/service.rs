//! Requests submitted from other threads, answered by the workers: one polling
//! thread per worker, and a blocking get for everyone else. The ceiling is
//! `workers * conns_per_worker` requests in flight.

use vstd::prelude::*;

use smoltcp::iface::Context;

use crate::conn::{Conn, Step};
use crate::endpoint::Endpoint;
use crate::error::Error;
use crate::http;
use crate::http::{BodySink, BufferSink, ContentRange, HeadView, SinkView};
use crate::stats;
use crate::stats::{Counters, CountersView, Poll, PollAcc};
use crate::net;
use crate::worker;
use crate::worker::{LastPoll, Worker, WorkerView};

verus! {

/// What a completed request delivered.
#[derive(Debug, Clone, PartialEq, Eq)]
pub struct GetResult {
    pub status: u16,
    /// Bytes written into the caller's buffer.
    pub written: u64,
    /// What the head claimed the body was, when it said.
    pub content_length: Option<u64>,
    pub content_range: Option<ContentRange>,
    pub etag: Option<String>,
    pub last_modified: Option<String>,
}

/// `g` is what a response with this head delivered, with so many bytes written.
pub open spec fn delivers(g: GetResult, head: HeadView, written: u64) -> bool {
    &&& g.status == head.status
    &&& g.written == written
    &&& g.content_length == head.content_length
    &&& g.content_range == head.content_range
    &&& http::text_of(g.etag) == head.etag
    &&& http::text_of(g.last_modified) == head.last_modified
}

/// A head with its strings given away.
pub open spec fn stripped(head: HeadView) -> HeadView {
    HeadView { etag: None, last_modified: None, ..head }
}

/// What a complete response delivered; a body that did not fit is an error.
pub fn result_of<S: BodySink>(c: &mut Conn<S>) -> (r: Result<GetResult, Error>)
    requires
        old(c).wf(),
    ensures
        final(c).wf(),
        final(c).target() == old(c).target(),
        if old(c).dropped() {
            r == Err::<GetResult, Error>(Error::BufferTooSmall) && final(c)@ == old(c)@
        } else {
            &&& r matches Ok(g) && delivers(g, old(c)@.exchange.parser.head, old(c).stored())
            &&& final(c)@ == old(c)@.with_head(stripped(old(c)@.exchange.parser.head))
        },
{
    if c.sink_overflowed() {
        return Err(Error::BufferTooSmall);
    }
    let status: u16 = c.status();
    let written: u64 = c.sink_written();
    let content_length = c.head().content_length;
    let content_range = c.head().content_range;
    let head = c.head_mut();
    let etag = head.etag.take();
    let last_modified = head.last_modified.take();
    Ok(GetResult { status, written, content_length, content_range, etag, last_modified })
}

pub struct ServiceConfig {
    pub peer: Endpoint,
    pub conns_per_worker: usize,
    pub rx_buffer: usize,
    pub tx_buffer: usize,
}

impl ServiceConfig {
    pub fn new(peer: Endpoint) -> (c: Self)
        ensures
            c.peer == peer,
            c.conns_per_worker == 8,
            c.rx_buffer == 4 * 1024 * 1024,
            c.tx_buffer == 32 * 1024,
    {
        ServiceConfig {
            peer,
            conns_per_worker: 8,
            rx_buffer: 4 * 1024 * 1024,
            tx_buffer: 32 * 1024,
        }
    }
}

/// Workers take cpus from the top; cpu 0 is where the application starts.
pub fn worker_cpu(q: u16, cpus: usize) -> (r: usize)
    ensures
        r == (if cpus > q + 1 {
            cpus - 1 - q
        } else {
            0
        }),
{
    cpus.saturating_sub(1 + q as usize)
}

/// The queue that the request with this ticket goes to: each in turn. Without
/// queues there is no device.
pub fn queue_for(ticket: usize, queues: usize) -> (r: Result<usize, Error>)
    ensures
        r == (if queues == 0 {
            Err::<usize, Error>(Error::NoDevice)
        } else {
            Ok((ticket as int % queues as int) as usize)
        }),
{
    if queues == 0 {
        return Err(Error::NoDevice);
    }
    Ok(ticket % queues)
}

/// A request submitted at the clock reading `t0` is over at `t1`, its outcome
/// having been published at `published`: counts it, and gives the outcome. That
/// there is none cannot be anything but a bad response.
pub fn finish_get(
    stats: &mut Counters,
    t0: u64,
    published: u64,
    t1: u64,
    outcome: Option<Result<GetResult, Error>>,
) -> (r: Result<GetResult, Error>)
    ensures
        final(stats)@ == old(stats)@.with_get_finished(
            t1.saturating_sub(t0),
            t1.saturating_sub(published),
            t1,
        ),
        r == (match outcome {
            Some(r) => r,
            None => Err(Error::BadResponse),
        }),
{
    stats.get_finished(t1.saturating_sub(t0), t1.saturating_sub(published), t1);
    match outcome {
        Some(r) => r,
        None => Err(Error::BadResponse),
    }
}

/// A request, as a worker picks it up.
pub struct Job {
    /// By which whoever submitted it is known.
    pub id: usize,
    pub head: Vec<u8>,
    pub submitted_ns: u64,
}

/// A request that a slot is busy with.
struct Pending {
    job: Job,
    reused: bool,
    retried: bool,
    picked_ns: u64,
}

/// The value of a request that a slot is busy with.
#[verifier::ext_equal]
pub struct PendingView {
    pub id: usize,
    pub request: Seq<u8>,
    pub submitted_ns: u64,
    /// It went out on a kept connection.
    pub reused: bool,
    /// It was dialled again.
    pub retried: bool,
    pub picked_ns: u64,
}

impl View for Pending {
    type V = PendingView;

    closed spec fn view(&self) -> PendingView {
        PendingView {
            id: self.job.id,
            request: self.job.head@,
            submitted_ns: self.job.submitted_ns,
            reused: self.reused,
            retried: self.retried,
            picked_ns: self.picked_ns,
        }
    }
}

/// A request that is over: who submitted it, and what it came to.
pub struct Completion {
    pub id: usize,
    pub result: Result<GetResult, Error>,
}

/// A worker, and the requests it is busy with.
pub struct Server<S> {
    worker: Worker<S>,
    pending: Vec<Option<Pending>>,
    epoch_ns: u64,
    prev_poll_ns: u64,
    prev_busy_ns: u64,
    acc: PollAcc,
}

/// The value of a [`Server`].
#[verifier::ext_equal]
pub struct ServerView {
    pub worker: WorkerView,
    pub pending: Seq<Option<PendingView>>,
    pub epoch_ns: u64,
    pub prev_poll_ns: u64,
    pub prev_busy_ns: u64,
    pub acc: Seq<u64>,
}

spec fn pending_view(p: Option<Pending>) -> Option<PendingView> {
    match p {
        Some(p) => Some(p@),
        None => None,
    }
}

impl<S: BodySink> View for Server<S> {
    type V = ServerView;

    closed spec fn view(&self) -> ServerView {
        ServerView {
            worker: self.worker@,
            pending: self.pending@.map_values(|p: Option<Pending>| pending_view(p)),
            epoch_ns: self.epoch_ns,
            prev_poll_ns: self.prev_poll_ns,
            prev_busy_ns: self.prev_busy_ns,
            acc: self.acc@,
        }
    }
}

impl ServerView {
    /// Another worker value, and another request in a slot.
    pub open spec fn with(
        self,
        worker: WorkerView,
        slot: int,
        pending: Option<PendingView>,
    ) -> ServerView {
        ServerView { worker, pending: self.pending.update(slot, pending), ..self }
    }

    /// The worker that a new connection in the slot is dialled on: the slot torn
    /// down, since a kept socket that the peer has since closed cannot be
    /// connected, and a port taken.
    pub open spec fn cleared(self, slot: int) -> WorkerView {
        self.worker.released(slot).port_taken()
    }

    /// The slot is done with its request.
    pub open spec fn vacated(self, worker: WorkerView, slot: int) -> ServerView {
        self.with(
            if worker.reusable(slot) {
                worker
            } else {
                worker.released(slot)
            },
            slot,
            None,
        )
    }
}

/// When the first byte of the response head in a slot was seen, as a reading of the clock.
pub open spec fn head_reading(worker: WorkerView, slot: int, epoch_ns: u64) -> Option<u64> {
    match worker.conns[slot] {
        Some(c) => match c.head_ns {
            Some(h) => Some(h.saturating_add(epoch_ns)),
            None => None,
        },
        None => None,
    }
}

/// The counters after a request is over at `now_ns`.
pub open spec fn counted_done(
    stats: CountersView,
    pd: PendingView,
    head_ns: Option<u64>,
    written: u64,
    now_ns: u64,
) -> CountersView {
    stats.with_request_finished(
        pd.picked_ns.saturating_sub(pd.submitted_ns),
        now_ns.saturating_sub(pd.picked_ns),
        written,
        match head_ns {
            Some(h) => Some(h.saturating_sub(pd.picked_ns)),
            None => None,
        },
        match head_ns {
            Some(h) => Some(now_ns.saturating_sub(h)),
            None => None,
        },
    )
}

/// What picking a request up comes to: a kept connection takes it, or the slot is
/// dialled anew for it; `refused` is why neither was possible. `made` holds of the
/// sinks that are made for it, and `read` of the clock's readings.
pub open spec fn pick_outcome(
    before: ServerView,
    stats: CountersView,
    slot: int,
    pd: PendingView,
    addresses: nat,
    refused: Option<Error>,
    after: ServerView,
    stats_after: CountersView,
    made: spec_fn(SinkView) -> bool,
    read: spec_fn(u64) -> bool,
) -> bool {
    exists|sink: SinkView| #[trigger]
        made(sink) && if before.worker.reusable(slot) {
            &&& refused is None
            &&& stats_after == stats.with_request_started(true)
            &&& exists|t: u64| #[trigger]
                read(t) && after == before.with(
                    before.worker.reused(slot, pd.request, sink, t),
                    slot,
                    Some(PendingView { reused: true, retried: false, ..pd }),
                )
        } else {
            &&& worker::dial_outcome(
                before.cleared(slot),
                stats,
                slot,
                before.worker.port_due(),
                pd.request,
                sink,
                addresses,
                match refused {
                    None => Ok(()),
                    Some(e) => Err(e),
                },
                after.worker,
                stats_after,
                read,
            )
            &&& after == before.with(
                after.worker,
                slot,
                if refused is None {
                    Some(PendingView { reused: false, retried: false, ..pd })
                } else {
                    None
                },
            )
        }
}

/// A request on a kept connection that failed, and was not dialled again yet.
pub open spec fn worth_a_retry(pd: PendingView, step: Step) -> bool {
    pd.reused && !pd.retried && step is Failed
}

/// What looking after a busy slot comes to. Without an outcome, nothing. A
/// request that failed on a kept connection is dialled again, once: the peer had
/// closed it, and GET and HEAD are safe to repeat. Else, and where that cannot be
/// done, the request is over, and a connection that cannot be kept is torn down.
pub open spec fn settle_outcome(
    before: ServerView,
    stats: CountersView,
    slot: int,
    stored: u64,
    dropped: bool,
    addresses: nat,
    done: Option<Completion>,
    after: ServerView,
    stats_after: CountersView,
    now_ns: u64,
    made: spec_fn(SinkView) -> bool,
    read: spec_fn(u64) -> bool,
) -> bool {
    let pd = before.pending[slot]->0;
    match before.worker.conns[slot] {
        Some(c) if c.outcome is Some => {
            let step = c.outcome->0;
            if worth_a_retry(pd, step) && done is None {
                exists|sink: SinkView, dialled: CountersView|
                    {
                        &&& made(sink)
                        &&& #[trigger] worker::dial_outcome(
                            before.cleared(slot),
                            stats,
                            slot,
                            before.worker.port_due(),
                            pd.request,
                            sink,
                            addresses,
                            Ok(()),
                            after.worker,
                            dialled,
                            read,
                        )
                        &&& stats_after == dialled.with_retried()
                        &&& after == before.with(
                            after.worker,
                            slot,
                            Some(PendingView { reused: false, retried: true, ..pd }),
                        )
                    }
            } else {
                let head = c.exchange.parser.head;
                let w = if worth_a_retry(pd, step) {
                    before.cleared(slot)
                } else if !(step is Failed) && !dropped {
                    WorkerView {
                        conns: before.worker.conns.update(
                            slot,
                            Some(c.with_head(stripped(head))),
                        ),
                        ..before.worker
                    }
                } else {
                    before.worker
                };
                &&& worth_a_retry(pd, step) ==> exists|sink: SinkView, e: Error|
                    made(sink) && #[trigger] worker::dial_outcome(
                        before.cleared(slot),
                        stats,
                        slot,
                        before.worker.port_due(),
                        pd.request,
                        sink,
                        addresses,
                        Err(e),
                        before.cleared(slot),
                        stats,
                        read,
                    )
                &&& done matches Some(d) && d.id == pd.id && match step {
                    Step::Failed(e) => d.result == Err::<GetResult, Error>(e),
                    _ => if dropped {
                        d.result == Err::<GetResult, Error>(Error::BufferTooSmall)
                    } else {
                        d.result matches Ok(g) && delivers(g, head, stored)
                    },
                }
                &&& stats_after == counted_done(
                    stats,
                    pd,
                    head_reading(w, slot, before.epoch_ns),
                    if done->0.result is Ok {
                        stored
                    } else {
                        0
                    },
                    now_ns,
                )
                &&& after == before.vacated(w, slot)
            }
        },
        _ => done is None && after == before && stats_after == stats,
    }
}

impl<S: BodySink> Server<S> {
    /// What holds of every server: a place for a request in each slot.
    pub closed spec fn wf(&self) -> bool {
        &&& self.worker.wf()
        &&& self.pending@.len() == self.worker@.slots()
    }

    /// Body bytes that the sink of a slot stored.
    pub closed spec fn stored(&self, slot: int) -> u64 {
        self.worker.stored(slot)
    }

    /// The sink of a slot was handed more than it could store.
    pub closed spec fn dropped(&self, slot: int) -> bool {
        self.worker.dropped(slot)
    }

    /// A server around a worker whose clock starts at the reading `epoch_ns`.
    pub fn new(worker: Worker<S>, epoch_ns: u64) -> (s: Self)
        requires
            worker.wf(),
        ensures
            s.wf(),
            s@.worker == worker@,
            s@.epoch_ns == epoch_ns,
            s@.pending.len() == worker@.slots(),
            forall|i: int| 0 <= i < s@.pending.len() ==> #[trigger] s@.pending[i] is None,
            s@.prev_poll_ns == 0,
            s@.prev_busy_ns == 0,
            s@.acc == stats::blank_poll(),
    {
        let n: usize = worker.slots();
        let mut pending: Vec<Option<Pending>> = Vec::new();
        let mut i: usize = 0;
        while i < n
            invariant
                i <= n,
                pending@.len() == i,
                forall|k: int| 0 <= k < i ==> #[trigger] pending@[k] is None,
            decreases n - i,
        {
            pending.push(None);
            i += 1;
        }
        Server {
            worker,
            pending,
            epoch_ns,
            prev_poll_ns: 0,
            prev_busy_ns: 0,
            acc: PollAcc::default(),
        }
    }

    /// At most one request per slot is in flight, and at most one connection open.
    pub proof fn law_ceiling(&self)
        requires
            self.wf(),
        ensures
            self@.pending.len() == self@.worker.slots(),
            self@.worker.conns.len() == self@.worker.slots(),
    {
        self.worker.lemma_shape();
    }

    pub fn slots(&self) -> (n: usize)
        ensures
            n == self@.worker.slots(),
    {
        self.worker.slots()
    }

    /// The worker, to be polled.
    pub fn worker_mut(&mut self) -> (w: &mut Worker<S>)
        requires
            old(self).wf(),
        ensures
            w.wf(),
            w@ == old(self)@.worker,
            final(self)@ == (ServerView { worker: final(w)@, ..old(self)@ }),
            final(w).wf() && final(w)@.slots() == w@.slots() ==> final(self).wf(),
    {
        &mut self.worker
    }

    /// Whether `slot` is free to take a request.
    pub fn wants(&self, slot: usize) -> (r: bool)
        requires
            self.wf(),
            slot < self@.worker.slots(),
        ensures
            r == (self@.pending[slot as int] is None),
    {
        self.pending[slot].is_none()
    }

    /// Takes a request into a free slot; says why where that is not possible.
    fn pick<M: Fn(usize) -> S, F: Fn() -> u64>(
        &mut self,
        slot: usize,
        job: Job,
        cx: &mut Context,
        stats: &mut Counters,
        sinks: &M,
        clock: &F,
        now_ns: u64,
    ) -> (refused: Option<Error>)
        requires
            old(self).wf(),
            slot < old(self)@.worker.slots(),
            old(self)@.pending[slot as int] is None,
            makes_sinks(sinks),
            clock.requires(()),
        ensures
            final(self).wf(),
            pick_outcome(
                old(self)@,
                old(stats)@,
                slot as int,
                picked(job, now_ns),
                net::interface_addresses(old(cx)).len(),
                refused,
                final(self)@,
                final(stats)@,
                made_by(sinks, job.id),
                |t: u64| clock.ensures((), t),
            ),
            net::interface_addresses(final(cx)) == net::interface_addresses(old(cx)),
    {
        let ghost before = self@;
        let ghost pd = picked(job, now_ns);
        let ghost read = |t: u64| clock.ensures((), t);
        let reused = self.worker.idle_reusable(slot);
        let sink = sinks(job.id);
        assert(made_by(sinks, job.id)(http::sink_view(&sink)));
        let opened = if reused {
            proof {
                self.worker.law_reusable_has_sent_all(slot as int);
            }
            let t: u64 = clock();
            assert(read(t));
            self.worker.reuse(slot, job.head.as_slice(), sink, stats, t)
        } else {
            // A kept socket the peer since closed sits in CloseWait; connecting
            // needs Closed.
            self.worker.release(slot);
            self.worker.connect_next(slot, job.head.as_slice(), sink, cx, stats, clock)
        };
        match opened {
            Ok(()) => {
                self.pending[slot] = Some(
                    Pending { job, reused, retried: false, picked_ns: now_ns },
                );
                assert(self@ == before.with(
                    self.worker@,
                    slot as int,
                    Some(PendingView { reused, retried: false, ..pd }),
                ));
                None
            },
            Err(e) => {
                assert(self@ == before.with(self.worker@, slot as int, None));
                Some(e)
            },
        }
    }

    /// Takes the request out of a busy slot.
    fn take_pending(&mut self, slot: usize) -> (p: Option<Pending>)
        requires
            slot < old(self).pending@.len(),
        ensures
            p == old(self).pending@[slot as int],
            *final(self) == (Server { pending: final(self).pending, ..*old(self) }),
            final(self).pending@ == old(self).pending@.update(slot as int, None),
    {
        let mut p: Option<Pending> = None;
        std::mem::swap(&mut self.pending[slot], &mut p);
        p
    }

    /// What the response in `slot` came to, given how its connection ended.
    fn conclude(&mut self, slot: usize, step: Step) -> (r: Result<GetResult, Error>)
        requires
            old(self).wf(),
            slot < old(self)@.worker.slots(),
            old(self)@.worker.conns[slot as int] is Some,
        ensures
            final(self).wf(),
            ({
                let w = old(self)@.worker;
                let c = w.conns[slot as int]->0;
                let head = c.exchange.parser.head;
                let dropped = old(self).dropped(slot as int);
                &&& final(self)@.worker == (if step is Failed || dropped {
                    w
                } else {
                    WorkerView {
                        conns: w.conns.update(slot as int, Some(c.with_head(stripped(head)))),
                        ..w
                    }
                })
                &&& match step {
                    Step::Failed(e) => r == Err::<GetResult, Error>(e),
                    _ => if dropped {
                        r == Err::<GetResult, Error>(Error::BufferTooSmall)
                    } else {
                        r matches Ok(g) && delivers(g, head, old(self).stored(slot as int))
                    },
                }
            }),
            final(self)@ == (ServerView { worker: final(self)@.worker, ..old(self)@ }),
    {
        let ghost before = self@;
        proof {
            self.worker.lemma_shape();
        }
        let r = match step {
            Step::Failed(e) => Err(e),
            _ => match self.worker.conn_mut(slot) {
                Some(c) => result_of(c),
                None => Err(Error::BadResponse),
            },
        };
        proof {
            let w = before.worker;
            let c = w.conns[slot as int]->0;
            assert(w.conns.update(slot as int, Some(c)) == w.conns);
        }
        r
    }

    /// Looks after a busy slot.
    fn settle<M: Fn(usize) -> S, F: Fn() -> u64>(
        &mut self,
        slot: usize,
        cx: &mut Context,
        stats: &mut Counters,
        sinks: &M,
        clock: &F,
        now_ns: u64,
    ) -> (done: Option<Completion>)
        requires
            old(self).wf(),
            slot < old(self)@.worker.slots(),
            old(self)@.pending[slot as int] is Some,
            makes_sinks(sinks),
            clock.requires(()),
        ensures
            final(self).wf(),
            settle_outcome(
                old(self)@,
                old(stats)@,
                slot as int,
                old(self).stored(slot as int),
                old(self).dropped(slot as int),
                net::interface_addresses(old(cx)).len(),
                done,
                final(self)@,
                final(stats)@,
                now_ns,
                made_by(sinks, old(self)@.pending[slot as int]->0.id),
                |t: u64| clock.ensures((), t),
            ),
            net::interface_addresses(final(cx)) == net::interface_addresses(old(cx)),
    {
        let ghost before = self@;
        let ghost pd = before.pending[slot as int]->0;
        let ghost read = |t: u64| clock.ensures((), t);
        let ghost addresses = net::interface_addresses(cx).len();
        let step = match self.worker.conn(slot) {
            Some(c) => match c.outcome() {
                Some(step) => step,
                None => return None,
            },
            None => return None,
        };
        let result = self.conclude(slot, step);
        let mut p = match self.take_pending(slot) {
            Some(p) => p,
            None => return None,
        };
        let failed = match step {
            Step::Failed(_) => true,
            _ => false,
        };
        if p.reused && !p.retried && failed {
            self.worker.release(slot);
            let sink = sinks(p.job.id);
            let ghost made_sink = http::sink_view(&sink);
            assert(made_by(sinks, pd.id)(made_sink));
            let again = self.worker.connect_next(
                slot,
                p.job.head.as_slice(),
                sink,
                cx,
                stats,
                clock,
            );
            match again {
                Ok(()) => {
                    let ghost dialled = stats@;
                    stats.request_retried();
                    p.reused = false;
                    p.retried = true;
                    self.pending[slot] = Some(p);
                    assert(self@ == before.with(
                        self.worker@,
                        slot as int,
                        Some(PendingView { reused: false, retried: true, ..pd }),
                    ));
                    assert(worker::dial_outcome(
                        before.cleared(slot as int),
                        old(stats)@,
                        slot as int,
                        before.worker.port_due(),
                        pd.request,
                        made_sink,
                        addresses,
                        Ok(()),
                        self@.worker,
                        dialled,
                        read,
                    ));
                    return None;
                },
                Err(e) => {
                    assert(worker::dial_outcome(
                        before.cleared(slot as int),
                        old(stats)@,
                        slot as int,
                        before.worker.port_due(),
                        pd.request,
                        made_sink,
                        addresses,
                        Err(e),
                        before.cleared(slot as int),
                        old(stats)@,
                        read,
                    ));
                },
            }
        }
        let ghost w = self.worker@;
        let head_ns: Option<u64> = match self.worker.conn(slot) {
            Some(c) => match c.head_ns() {
                Some(h) => Some(h.saturating_add(self.epoch_ns)),
                None => None,
            },
            None => None,
        };
        let written: u64 = match &result {
            Ok(g) => g.written,
            Err(_) => 0,
        };
        let (ttfb_ns, xfer_ns): (Option<u64>, Option<u64>) = match head_ns {
            Some(h) => (Some(h.saturating_sub(p.picked_ns)), Some(now_ns.saturating_sub(h))),
            None => (None, None),
        };
        stats.request_finished(
            p.picked_ns.saturating_sub(p.job.submitted_ns),
            now_ns.saturating_sub(p.picked_ns),
            written,
            ttfb_ns,
            xfer_ns,
        );
        if !self.worker.idle_reusable(slot) {
            self.worker.release(slot);
        }
        assert(self@ == before.vacated(w, slot as int));
        Some(Completion { id: p.job.id, result })
    }

    /// One look at a slot after a poll that began at the clock reading `now_ns`: a
    /// free slot takes the request, if there is one, and a busy slot is looked
    /// after. What comes back is a request that is over.
    pub fn serve_slot<M: Fn(usize) -> S, F: Fn() -> u64>(
        &mut self,
        slot: usize,
        job: Option<Job>,
        cx: &mut Context,
        stats: &mut Counters,
        sinks: &M,
        clock: &F,
        now_ns: u64,
    ) -> (done: Option<Completion>)
        requires
            old(self).wf(),
            slot < old(self)@.worker.slots(),
            old(self)@.pending[slot as int] is Some ==> job is None,
            makes_sinks(sinks),
            clock.requires(()),
        ensures
            final(self).wf(),
            match (old(self)@.pending[slot as int], job) {
                (Some(_), _) => settle_outcome(
                    old(self)@,
                    old(stats)@,
                    slot as int,
                    old(self).stored(slot as int),
                    old(self).dropped(slot as int),
                    net::interface_addresses(old(cx)).len(),
                    done,
                    final(self)@,
                    final(stats)@,
                    now_ns,
                    made_by(sinks, old(self)@.pending[slot as int]->0.id),
                    |t: u64| clock.ensures((), t),
                ),
                (None, Some(job)) => {
                    &&& pick_outcome(
                        old(self)@,
                        old(stats)@,
                        slot as int,
                        picked(job, now_ns),
                        net::interface_addresses(old(cx)).len(),
                        refusal(done),
                        final(self)@,
                        final(stats)@,
                        made_by(sinks, job.id),
                        |t: u64| clock.ensures((), t),
                    )
                    &&& done matches Some(d) ==> d.id == job.id && d.result is Err
                },
                (None, None) => {
                    &&& done is None
                    &&& final(self)@ == old(self)@
                    &&& final(stats)@ == old(stats)@
                },
            },
            net::interface_addresses(final(cx)) == net::interface_addresses(old(cx)),
    {
        if self.pending[slot].is_some() {
            return self.settle(slot, cx, stats, sinks, clock, now_ns);
        }
        match job {
            Some(job) => {
                let id: usize = job.id;
                match self.pick(slot, job, cx, stats, sinks, clock, now_ns) {
                    Some(e) => Some(Completion { id, result: Err(e) }),
                    None => None,
                }
            },
            None => None,
        }
    }

    /// Takes account of the poll that was just made.
    pub fn account(&mut self, stats: &mut Counters)
        requires
            old(self).wf(),
        ensures
            final(self).wf(),
            ({
                let s = old(self)@;
                let last = s.worker.last;
                let ticked = stats::poll_tick(
                    s.acc,
                    last.poll_ns.saturating_sub(s.prev_poll_ns),
                    s.prev_busy_ns,
                    last.active,
                );
                let flush = ticked[Poll::Iters.at()] >= stats::POLL_BATCH;
                &&& final(self)@ == (ServerView {
                    prev_poll_ns: last.poll_ns,
                    prev_busy_ns: last.busy_ns,
                    acc: if s.prev_poll_ns == 0 {
                        s.acc
                    } else if flush {
                        with_maxima(stats::blank_poll(), last)
                    } else {
                        with_maxima(ticked, last)
                    },
                    ..s
                })
                &&& final(stats)@ == (if s.prev_poll_ns != 0 && flush {
                    CountersView {
                        poll: stats::poll_merged(old(stats)@.poll, ticked),
                        ..old(stats)@
                    }
                } else {
                    old(stats)@
                })
            }),
    {
        let now_ns: u64 = self.worker.last_poll_ns();
        if self.prev_poll_ns != 0 {
            self.acc.tick(
                stats,
                now_ns.saturating_sub(self.prev_poll_ns),
                self.prev_busy_ns,
                self.worker.last_active(),
            );
            let iface_ns: u64 = self.worker.last_iface_ns();
            self.acc.max(Poll::IfaceNsMax, iface_ns);
            self.acc.max(
                Poll::StepsNsMax,
                self.worker.last_busy_ns().saturating_sub(iface_ns),
            );
            let (rx, tx): (u64, u64) = self.worker.last_dev();
            self.acc.max(Poll::RxPktsMax, rx);
            self.acc.max(Poll::TxPktsMax, tx);
        }
        self.prev_poll_ns = now_ns;
        self.prev_busy_ns = self.worker.last_busy_ns();
    }
}

/// The counts with the maxima of one poll.
pub open spec fn with_maxima(acc: Seq<u64>, last: LastPoll) -> Seq<u64> {
    let a = stats::poll_max(acc, Poll::IfaceNsMax, last.iface_ns);
    let a = stats::poll_max(a, Poll::StepsNsMax, last.busy_ns.saturating_sub(last.iface_ns));
    let a = stats::poll_max(a, Poll::RxPktsMax, last.dev.0);
    stats::poll_max(a, Poll::TxPktsMax, last.dev.1)
}

/// Why a request was refused, if it was.
pub open spec fn refusal(done: Option<Completion>) -> Option<Error> {
    match done {
        Some(d) => match d.result {
            Err(e) => Some(e),
            Ok(_) => None,
        },
        None => None,
    }
}

/// The request as it is picked up at `now_ns`.
pub open spec fn picked(job: Job, now_ns: u64) -> PendingView {
    PendingView {
        id: job.id,
        request: job.head@,
        submitted_ns: job.submitted_ns,
        reused: false,
        retried: false,
        picked_ns: now_ns,
    }
}

/// `sinks` gives an empty sink for any request.
pub open spec fn makes_sinks<S: BodySink, M: Fn(usize) -> S>(sinks: &M) -> bool {
    &&& forall|id: usize| #[trigger] sinks.requires((id,))
    &&& forall|id: usize, sink: S| #[trigger]
        sinks.ensures((id,), sink) ==> sink.inv() && sink.received() == Seq::<u8>::empty()
}

/// What holds of the sinks that `sinks` gives for a request.
pub open spec fn made_by<S: BodySink, M: Fn(usize) -> S>(sinks: &M, id: usize) -> spec_fn(
    SinkView,
) -> bool {
    |v: SinkView| exists|s: S| #[trigger] sinks.ensures((id,), s) && v == http::sink_view(&s)
}

/// A request is answered exactly once. Picked up, it is answered at once or the
/// slot is busy with it; a busy slot gives its answer exactly when it becomes
/// free; and no other slot's request is touched.
pub proof fn law_answered_once(
    before: ServerView,
    stats: CountersView,
    slot: int,
    pd: PendingView,
    stored: u64,
    dropped: bool,
    addresses: nat,
    refused: Option<Error>,
    done: Option<Completion>,
    after: ServerView,
    stats_after: CountersView,
    now_ns: u64,
    made: spec_fn(SinkView) -> bool,
    read: spec_fn(u64) -> bool,
)
    requires
        0 <= slot < before.pending.len(),
    ensures
        pick_outcome(before, stats, slot, pd, addresses, refused, after, stats_after, made, read) ==> {
            &&& refused is None <==> after.pending[slot] is Some
            &&& refused is None ==> after.pending[slot]->0.id == pd.id
            &&& after.pending == before.pending.update(slot, after.pending[slot])
        },
        before.pending[slot] is Some && settle_outcome(
            before,
            stats,
            slot,
            stored,
            dropped,
            addresses,
            done,
            after,
            stats_after,
            now_ns,
            made,
            read,
        ) ==> {
            &&& done is None <==> after.pending[slot] is Some
            &&& done is Some ==> done->0.id == before.pending[slot]->0.id
            &&& done is None ==> after.pending[slot]->0.id == before.pending[slot]->0.id
            &&& after.pending == before.pending.update(slot, after.pending[slot])
        },
{
    if before.pending[slot] is Some && settle_outcome(
        before,
        stats,
        slot,
        stored,
        dropped,
        addresses,
        done,
        after,
        stats_after,
        now_ns,
        made,
        read,
    ) {
        assert(before.pending.update(slot, before.pending[slot]) == before.pending);
    }
}

/// A request is dialled again at most once, and only after it failed on a kept
/// connection: one that was dialled for, or dialled again, is answered with its
/// failure.
pub proof fn law_retried_once(
    before: ServerView,
    stats: CountersView,
    slot: int,
    stored: u64,
    dropped: bool,
    addresses: nat,
    done: Option<Completion>,
    after: ServerView,
    stats_after: CountersView,
    now_ns: u64,
    made: spec_fn(SinkView) -> bool,
    read: spec_fn(u64) -> bool,
)
    requires
        0 <= slot < before.pending.len(),
        before.pending[slot] is Some,
        settle_outcome(
            before,
            stats,
            slot,
            stored,
            dropped,
            addresses,
            done,
            after,
            stats_after,
            now_ns,
            made,
            read,
        ),
    ensures
        ({
            let pd = before.pending[slot]->0;
            let failed = before.worker.conns[slot] is Some
                && before.worker.conns[slot]->0.outcome is Some
                && before.worker.conns[slot]->0.outcome->0 is Failed;
            &&& after.pending[slot] is Some && after.pending[slot]->0 != pd ==> {
                &&& failed
                &&& pd.reused && !pd.retried
                &&& after.pending[slot]->0.retried && !after.pending[slot]->0.reused
                &&& stats_after.requests_retried == stats.requests_retried.wrapping_add(1)
            }
            &&& failed && (!pd.reused || pd.retried) ==> {
                &&& done is Some
                &&& done->0.result == Err::<GetResult, Error>(
                    before.worker.conns[slot]->0.outcome->0->Failed_0,
                )
                &&& stats_after.requests_retried == stats.requests_retried
            }
        }),
{
}

/// What a request for a caller's buffer delivers: all of the body, at the front of
/// the buffer and nowhere else, where it fits; and where it does not, no result.
pub proof fn law_body_in_buffer(c: &Conn<BufferSink<'_>>)
    requires
        c.wf(),
    ensures
        ({
            let body = c@.exchange.sink.received;
            let given = c@.exchange.sink.origin;
            let buf = c.target().buffer();
            let n = body.len() as int;
            &&& c.dropped() <==> n > given.len()
            &&& !c.dropped() ==> {
                &&& c.stored() == n
                &&& buf == body + given.skip(n)
            }
        }),
{
    c.law_target_has_body();
    let sink = c.target();
    sink.lemma_contents();
    let body = c@.exchange.sink.received;
    let n = body.len() as int;
    if !c.dropped() {
        assert(body.take(n) == body);
        assert(sink.buffer() == sink.buffer().take(n) + sink.buffer().skip(n));
    }
}

/// Requests go round the queues: as many in a row as there are queues go to as
/// many different ones.
pub proof fn law_queues_in_turn(ticket: usize, k: usize, queues: usize)
    requires
        0 < k < queues,
        ticket + k <= usize::MAX,
    ensures
        ticket as int % queues as int != (ticket + k) % queues as int,
{
    let n = queues as int;
    let a = ticket as int;
    let b = ticket + k;
    if a % n == b % n {
        vstd::arithmetic::div_mod::lemma_fundamental_div_mod(a, n);
        vstd::arithmetic::div_mod::lemma_fundamental_div_mod(b, n);
        let q = b / n - a / n;
        assert(k == n * q) by (nonlinear_arith)
            requires
                a == n * (a / n) + a % n,
                b == n * (b / n) + b % n,
                a % n == b % n,
                b == a + k,
                q == b / n - a / n,
        ;
        assert(false) by (nonlinear_arith)
            requires
                k == n * q,
                0 < k < n,
        ;
    }
}

} // verus!
