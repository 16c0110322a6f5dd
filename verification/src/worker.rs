//! One worker: one RSS queue, one set of connections, and the source ports whose
//! return traffic steers to that queue. Shared-nothing.

use std::sync::Arc;

use vstd::prelude::*;

use rustls::client::ClientConfig;
use smoltcp::iface::{Context, SocketHandle, SocketSet};

use crate::arp;
use crate::conn_laws;
use crate::conn::{Conn, ConnBufs, ConnView};
use crate::device::{DeviceView, DpdkDevice};
use crate::endpoint::Endpoint;
use crate::error::Error;
use crate::http;
use crate::http::{BodySink, SinkView};
use crate::rss;
use crate::rss::{Rss, RssView};
use crate::stats::{Counters, CountersView};
use crate::net;
use crate::net::TcpView;
use crate::tls;
use crate::Netif;

verus! {

/// Ports a worker goes through before it uses one again, per connection.
pub const PORT_ROTATION: usize = 8;

pub struct WorkerConfig {
    pub peer: Endpoint,
    pub conns: usize,
    pub rx_buffer: usize,
    pub tx_buffer: usize,
}

impl WorkerConfig {
    pub fn new(peer: Endpoint) -> (c: Self)
        ensures
            c.peer == peer,
            c.conns == 1,
            c.rx_buffer == 4 * 1024 * 1024,
            c.tx_buffer == 32 * 1024,
    {
        WorkerConfig { peer, conns: 1, rx_buffer: 4 * 1024 * 1024, tx_buffer: 32 * 1024 }
    }
}

/// A ticket for one queue; the worker itself is built on its own thread. The
/// pool is known by its address.
#[derive(Clone, Copy)]
pub struct WorkerHandle {
    pub(crate) queue_id: u16,
    pub(crate) pool: usize,
    pub(crate) netif: Netif,
    pub(crate) rss: Rss,
}

impl WorkerHandle {
    /// The queue that this is a ticket for.
    pub open(crate) spec fn queue(&self) -> u16 {
        self.queue_id
    }

    /// The address of its pool.
    pub open(crate) spec fn pool_addr(&self) -> usize {
        self.pool
    }

    pub open(crate) spec fn net(&self) -> Netif {
        self.netif
    }

    pub open(crate) spec fn steering(&self) -> RssView {
        self.rss@
    }

    /// What holds of every ticket.
    pub open(crate) spec fn wf(&self) -> bool {
        self.rss.wf()
    }

    pub fn queue_id(&self) -> (q: u16)
        ensures
            q == self.queue(),
    {
        self.queue_id
    }

    pub fn pool(&self) -> (p: usize)
        ensures
            p == self.pool_addr(),
    {
        self.pool
    }

    pub fn netif(&self) -> (n: Netif)
        ensures
            n == self.net(),
    {
        self.netif
    }
}

/// What the last poll came to.
#[derive(Debug, Clone, Copy)]
pub struct LastPoll {
    /// When it began, as a reading of the clock.
    pub poll_ns: u64,
    pub busy_ns: u64,
    pub iface_ns: u64,
    pub active: bool,
    /// Packets received and transmitted.
    pub dev: (u64, u64),
}

pub struct Worker<S> {
    queue_id: u16,
    dev: DpdkDevice,
    sockets: SocketSet<'static>,
    handles: Vec<SocketHandle>,
    conns: Vec<Option<Conn<S>>>,
    bufs: Vec<Option<ConnBufs>>,
    rotation: Vec<u16>,
    next_port: usize,
    peer: Endpoint,
    tls_config: Arc<ClientConfig>,
    last: LastPoll,
}

/// The value of a [`Worker`].
#[verifier::ext_equal]
pub struct WorkerView {
    pub queue_id: u16,
    pub device: DeviceView,
    /// The socket of each slot.
    pub handles: Seq<SocketHandle>,
    pub sockets: Map<SocketHandle, TcpView>,
    /// The connection in each slot.
    pub conns: Seq<Option<ConnView>>,
    /// The source ports, in the order in which they are used.
    pub rotation: Seq<u16>,
    pub next_port: usize,
    pub peer: Endpoint,
    pub config: ClientConfig,
    pub last: LastPoll,
}

/// The value of what a slot holds.
pub open spec fn conn_view<S: BodySink>(c: Option<Conn<S>>) -> Option<ConnView> {
    match c {
        Some(c) => Some(c@),
        None => None,
    }
}

impl<S: BodySink> View for Worker<S> {
    type V = WorkerView;

    closed spec fn view(&self) -> WorkerView {
        WorkerView {
            queue_id: self.queue_id,
            device: self.dev@,
            handles: self.handles@,
            sockets: net::tcp_sockets(&self.sockets),
            conns: self.conns@.map_values(|c: Option<Conn<S>>| conn_view(c)),
            rotation: self.rotation@,
            next_port: self.next_port,
            peer: self.peer,
            config: *self.tls_config,
            last: self.last,
        }
    }
}

impl WorkerView {
    pub open spec fn slots(self) -> nat {
        self.handles.len()
    }

    /// The socket of a slot.
    pub open spec fn socket(self, slot: int) -> TcpView {
        self.sockets[self.handles[slot]]
    }

    /// Another connection in a slot, and its socket as it then is.
    pub open spec fn with_slot(self, slot: int, c: Option<ConnView>, t: TcpView) -> WorkerView {
        WorkerView {
            conns: self.conns.update(slot, c),
            sockets: self.sockets.insert(self.handles[slot], t),
            ..self
        }
    }

    /// A slot torn down.
    pub open spec fn released(self, slot: int) -> WorkerView {
        if 0 <= slot < self.slots() {
            self.with_slot(slot, None, self.socket(slot).aborted())
        } else {
            self
        }
    }

    /// The slot holds a connection that has come to its end.
    pub open spec fn has_ended(self, slot: int) -> bool {
        self.conns[slot] matches Some(c) && c.outcome is Some
    }

    /// The slot holds a connection that can take another request.
    pub open spec fn reusable(self, slot: int) -> bool {
        &&& 0 <= slot < self.slots()
        &&& self.conns[slot] matches Some(c) && c.reusable(self.socket(slot))
    }

    /// The port that the next connection is dialled from.
    pub open spec fn port_due(self) -> u16 {
        self.rotation[self.next_port as int % self.rotation.len() as int]
    }

    /// The next port is used up.
    pub open spec fn port_taken(self) -> WorkerView {
        WorkerView { next_port: self.next_port.wrapping_add(1), ..self }
    }

    /// What a session with the peer is begun with: nothing on plain HTTP.
    pub open spec fn session_due(self) -> Option<(ClientConfig, rustls::pki_types::ServerName<'static>)> {
        if self.peer.tls {
            Some((self.config, tls::server_name_of(self.peer.host@)->0))
        } else {
            None
        }
    }

    /// A connection can be opened in the slot, as far as the socket and the
    /// interface go.
    pub open spec fn connectable(self, slot: int, src_port: u16, addresses: nat) -> bool {
        &&& !self.socket(slot).is_open()
        &&& net::addressable(self.peer.ip@, self.peer.port, src_port)
        &&& addresses > 0
    }

    /// The slot dialled anew at `now_ns`.
    pub open spec fn dialled(
        self,
        slot: int,
        src_port: u16,
        request: Seq<u8>,
        sink: SinkView,
        now_ns: u64,
    ) -> WorkerView {
        self.with_slot(
            slot,
            Some(
                ConnView::fresh(
                    self.handles[slot],
                    self.queue_id,
                    src_port,
                    self.session_due(),
                    request,
                    sink,
                    now_ns,
                ),
            ),
            self.socket(slot).dialling(self.peer.ip@, self.peer.port, src_port),
        )
    }

    /// The kept connection in a slot given another request.
    pub open spec fn reused(
        self,
        slot: int,
        request: Seq<u8>,
        sink: SinkView,
        now_ns: u64,
    ) -> WorkerView {
        WorkerView {
            conns: self.conns.update(
                slot,
                Some(self.conns[slot]->0.reset(request, sink, now_ns)),
            ),
            ..self
        }
    }

    /// A new worker.
    pub open spec fn fresh(
        self,
        h: WorkerHandle,
        cfg: WorkerConfig,
        config: ClientConfig,
    ) -> bool {
        let owned = h.steering().ports_of(
            cfg.peer.ip@,
            cfg.peer.port,
            h.net().ip@,
            h.queue(),
        );
        let idle = net::idle_socket(cfg.rx_buffer, cfg.tx_buffer, None);
        &&& self.queue_id == h.queue()
        &&& self.handles.len() == rss::spread_of(owned, cfg.conns as nat).len()
        &&& self.rotation == rss::spread_of(owned, rotation_len(cfg.conns))
        &&& forall|i: int| 0 <= i < self.slots() ==> #[trigger] self.conns[i] is None
        &&& forall|i: int| 0 <= i < self.slots() ==> self.sockets[#[trigger] self.handles[i]] == idle
        &&& self.next_port == 0
        &&& self.peer == cfg.peer
        &&& self.config == config
        &&& self.last == no_poll()
        &&& self.device == (DeviceView {
            queue_id: h.queue(),
            synth: Some(
                arp::frame_of(
                    h.net().mac@,
                    h.net().gateway_mac@,
                    2,
                    h.net().gateway_ip@,
                    h.net().mac@,
                    h.net().ip@,
                ),
            ),
            owned: Some(owned),
            rx: Seq::empty(),
            rx_pkts: 0,
            tx_pkts: 0,
            tx: Seq::empty(),
        })
    }
}

/// How many ports a worker with `conns` connections goes through.
pub open spec fn rotation_len(conns: usize) -> nat {
    if conns * PORT_ROTATION <= usize::MAX {
        (conns * PORT_ROTATION) as nat
    } else {
        usize::MAX as nat
    }
}

/// Before the first poll.
pub open spec fn no_poll() -> LastPoll {
    LastPoll { poll_ns: 0, busy_ns: 0, iface_ns: 0, active: false, dev: (0, 0) }
}

impl<S: BodySink> Worker<S> {
    /// What holds of every worker: as many connections as sockets, each
    /// connection on the socket of its slot, no socket in two slots, and spare
    /// buffers empty.
    pub closed spec fn wf(&self) -> bool {
        &&& self.handles@.len() == self.conns@.len()
        &&& self.handles@.len() == self.bufs@.len()
        &&& self.rotation@.len() > 0
        &&& self.dev.wf()
        &&& forall|i: int, j: int|
            0 <= i < j < self.handles@.len() ==> self.handles@[i] != self.handles@[j]
        &&& forall|i: int|
            0 <= i < self.handles@.len() ==> net::tcp_sockets(&self.sockets).contains_key(
                #[trigger] self.handles@[i],
            )
        &&& forall|i: int|
            0 <= i < self.conns@.len() ==> (#[trigger] self.conns@[i] matches Some(c) ==> c.wf()
                && c@.handle == self.handles@[i])
        &&& forall|i: int|
            0 <= i < self.bufs@.len() ==> (#[trigger] self.bufs@[i] matches Some(b) ==> b.blank())
    }

    /// Body bytes that the sink of a slot stored.
    pub closed spec fn stored(&self, slot: int) -> u64 {
        self.conns@[slot]->0.stored()
    }

    /// The sink of a slot was handed more than it could store.
    pub closed spec fn dropped(&self, slot: int) -> bool {
        self.conns@[slot]->0.dropped()
    }

    /// The sink of a slot stored and dropped what it had before.
    pub open spec fn same_sink(&self, before: Self, slot: int) -> bool {
        self.stored(slot) == before.stored(slot) && self.dropped(slot) == before.dropped(slot)
    }

    /// The sinks of connections that had come to their end are as they were.
    pub open spec fn keeps_ended(&self, before: Self) -> bool {
        forall|k: int|
            0 <= k < before@.slots() && before@.has_ended(k) ==> #[trigger] self.same_sink(
                before,
                k,
            )
    }

    /// A connection or none in each slot, a socket in each, and a port to dial from.
    pub proof fn lemma_shape(&self)
        requires
            self.wf(),
        ensures
            self@.conns.len() == self@.slots(),
            self@.rotation.len() > 0,
            forall|i: int|
                0 <= i < self@.slots() ==> self@.sockets.contains_key(#[trigger] self@.handles[i]),
    {
    }

    /// A worker for the queue of `h`. With no port that steers to that queue, or
    /// no connection wanted, there is none.
    pub fn new(h: &WorkerHandle, cfg: &WorkerConfig, tls_config: Arc<ClientConfig>) -> (r: Result<
        Worker<S>,
        Error,
    >)
        requires
            h.wf(),
            cfg.rx_buffer <= net::MAX_RX_BUFFER,
            cfg.tx_buffer <= net::MAX_TX_BUFFER,
        ensures
            ({
                let owned = h.steering().ports_of(
                    cfg.peer.ip@,
                    cfg.peer.port,
                    h.net().ip@,
                    h.queue(),
                );
                r is Ok <==> owned.len() > 0 && cfg.conns > 0
            }),
            match r {
                Ok(w) => w.wf() && w@.fresh(*h, *cfg, *tls_config),
                Err(e) => e == Error::NoPorts,
            },
    {
        let netif = h.netif;
        let owned = h.rss.owned_ports(cfg.peer.ip, cfg.peer.port, netif.ip, h.queue_id);
        let slots: usize = owned.spread(cfg.conns).len();
        let ports: usize = if cfg.conns <= usize::MAX / PORT_ROTATION {
            cfg.conns * PORT_ROTATION
        } else {
            usize::MAX
        };
        let rotation = owned.spread(ports);
        proof {
            rss::law_spread_takes_enough(owned@, cfg.conns as nat);
            rss::law_spread_takes_enough(owned@, rotation_len(cfg.conns));
        }
        if slots == 0 {
            return Err(Error::NoPorts);
        }
        // ARP replies would not steer to this queue; seed the cache instead.
        let synth = arp::synthetic_reply(netif.gateway_mac, netif.gateway_ip, netif.mac, netif.ip);
        let dev = DpdkDevice::new(h.queue_id, Some(owned), Some(synth));
        let mut sockets = net::no_sockets();
        let mut handles: Vec<SocketHandle> = Vec::new();
        let mut conns: Vec<Option<Conn<S>>> = Vec::new();
        let mut bufs: Vec<Option<ConnBufs>> = Vec::new();
        let ghost idle = net::idle_socket(cfg.rx_buffer, cfg.tx_buffer, None);
        let mut i: usize = 0;
        while i < slots
            invariant
                i <= slots,
                cfg.rx_buffer <= net::MAX_RX_BUFFER,
                cfg.tx_buffer <= net::MAX_TX_BUFFER,
                idle == net::idle_socket(cfg.rx_buffer, cfg.tx_buffer, None),
                net::may_grow(&sockets),
                handles@.len() == i,
                conns@.len() == i,
                bufs@.len() == i,
                forall|a: int, b: int| 0 <= a < b < handles@.len() ==> handles@[a] != handles@[b],
                forall|a: int|
                    0 <= a < handles@.len() ==> net::tcp_sockets(&sockets).contains_key(
                        #[trigger] handles@[a],
                    ) && net::tcp_sockets(&sockets)[handles@[a]] == idle,
                forall|a: int| 0 <= a < conns@.len() ==> #[trigger] conns@[a] is None,
                forall|a: int|
                    0 <= a < bufs@.len() ==> (#[trigger] bufs@[a] matches Some(b) ==> b.blank()),
            decreases slots - i,
        {
            let mut socket = net::new_socket(cfg.rx_buffer, cfg.tx_buffer);
            net::set_ack_delay(&mut socket, None);
            let handle = net::add_socket(&mut sockets, socket);
            handles.push(handle);
            conns.push(None);
            bufs.push(Some(ConnBufs::new()));
            i += 1;
        }
        let w = Worker {
            queue_id: h.queue_id,
            dev,
            sockets,
            handles,
            conns,
            bufs,
            rotation,
            next_port: 0,
            peer: cfg.peer.clone(),
            tls_config,
            last: LastPoll { poll_ns: 0, busy_ns: 0, iface_ns: 0, active: false, dev: (0, 0) },
        };
        Ok(w)
    }

    pub fn slots(&self) -> (n: usize)
        ensures
            n == self@.slots(),
    {
        self.handles.len()
    }

    /// Tear down `slot`. Aborts rather than closes, so no TIME_WAIT holds the port.
    pub fn release(&mut self, slot: usize)
        requires
            old(self).wf(),
        ensures
            final(self).wf(),
            final(self)@ == old(self)@.released(slot as int),
    {
        if slot < self.handles.len() {
            let handle = self.handles[slot];
            net::abort(&mut self.sockets, handle);
            if let Some(c) = self.take_conn(slot) {
                self.bufs[slot] = Some(c.into_bufs());
            }
            assert(self@ == old(self)@.released(slot as int));
        }
    }

    /// Takes the connection out of a slot.
    fn take_conn(&mut self, slot: usize) -> (c: Option<Conn<S>>)
        requires
            slot < old(self).conns@.len(),
        ensures
            c == old(self).conns@[slot as int],
            *final(self) == (Worker { conns: final(self).conns, ..*old(self) }),
            final(self).conns@ == old(self).conns@.update(slot as int, None),
    {
        let mut c: Option<Conn<S>> = None;
        std::mem::swap(&mut self.conns[slot], &mut c);
        c
    }

    /// Whether the connection in `slot` can take another request.
    pub fn idle_reusable(&self, slot: usize) -> (r: bool)
        requires
            self.wf(),
        ensures
            r == self@.reusable(slot as int),
    {
        if slot >= self.conns.len() {
            return false;
        }
        match &self.conns[slot] {
            Some(c) => c.idle_reusable(&self.sockets),
            None => false,
        }
    }

    /// A connection that can take another request has nothing left to send.
    pub proof fn law_reusable_has_sent_all(&self, slot: int)
        requires
            self.wf(),
            self@.reusable(slot),
        ensures
            self@.conns[slot]->0.exchange.outgoing.len() == 0,
    {
        self.conns@[slot]->0.law_complete_has_sent_all();
    }

    /// Gives the kept connection in `slot` another request. Only after
    /// [`Worker::idle_reusable`] was just true; without a connection it is
    /// rejected.
    pub fn reuse(&mut self, slot: usize, head: &[u8], sink: S, stats: &mut Counters, now_ns: u64) -> (r:
        Result<(), Error>)
        requires
            old(self).wf(),
            sink.inv(),
            slot < old(self)@.slots() ==> (old(self)@.conns[slot as int] matches Some(c)
                ==> c.exchange.outgoing.len() == 0),
        ensures
            final(self).wf(),
            if slot < old(self)@.slots() && old(self)@.conns[slot as int] is Some {
                &&& r == Ok::<(), Error>(())
                &&& final(self)@ == old(self)@.reused(slot as int, head@, http::sink_view(&sink), now_ns)
                &&& final(stats)@ == old(stats)@.with_request_started(true)
            } else {
                &&& r == Err::<(), Error>(Error::ConnectRejected)
                &&& final(self)@ == old(self)@
                &&& final(stats)@ == old(stats)@
            },
    {
        if slot >= self.conns.len() {
            return Err(Error::ConnectRejected);
        }
        match self.take_conn(slot) {
            Some(mut c) => {
                c.reset_for(head, sink, now_ns);
                self.conns[slot] = Some(c);
                stats.request_started(true);
                assert(self@ == old(self)@.reused(slot as int, head@, http::sink_view(&sink), now_ns));
                Ok(())
            },
            None => {
                assert(self@ == old(self)@);
                Err(Error::ConnectRejected)
            },
        }
    }

    /// Open `slot` on the next port in the rotation. Of the clock two readings
    /// are taken: before any work, and when the connection stands.
    pub fn connect_next<F: Fn() -> u64>(
        &mut self,
        slot: usize,
        head: &[u8],
        sink: S,
        cx: &mut Context,
        stats: &mut Counters,
        clock: &F,
    ) -> (r: Result<(), Error>)
        requires
            old(self).wf(),
            sink.inv(),
            clock.requires(()),
        ensures
            final(self).wf(),
            dial_outcome(
                old(self)@.port_taken(),
                old(stats)@,
                slot as int,
                old(self)@.port_due(),
                head@,
                http::sink_view(&sink),
                net::interface_addresses(old(cx)).len(),
                r,
                final(self)@,
                final(stats)@,
                |t: u64| clock.ensures((), t),
            ),
            net::interface_addresses(final(cx)) == net::interface_addresses(old(cx)),
            final(self)@.rotation == old(self)@.rotation,
            final(self)@.next_port == old(self)@.next_port.wrapping_add(1),
            r is Ok ==> final(self)@.conns[slot as int]->0.src_port == old(self)@.rotation[
                old(self)@.next_port as int % old(self)@.rotation.len() as int
            ],
    {
        let src_port: u16 = self.rotation[self.next_port % self.rotation.len()];
        self.next_port = self.next_port.wrapping_add(1);
        assert(self@ == old(self)@.port_taken());
        self.connect_on(slot, src_port, head, sink, cx, stats, clock)
    }

    fn connect_on<F: Fn() -> u64>(
        &mut self,
        slot: usize,
        src_port: u16,
        head: &[u8],
        sink: S,
        cx: &mut Context,
        stats: &mut Counters,
        clock: &F,
    ) -> (r: Result<(), Error>)
        requires
            old(self).wf(),
            sink.inv(),
            clock.requires(()),
        ensures
            final(self).wf(),
            dial_outcome(
                old(self)@,
                old(stats)@,
                slot as int,
                src_port,
                head@,
                http::sink_view(&sink),
                net::interface_addresses(old(cx)).len(),
                r,
                final(self)@,
                final(stats)@,
                |t: u64| clock.ensures((), t),
            ),
            net::interface_addresses(final(cx)) == net::interface_addresses(old(cx)),
    {
        let ghost before = self@;
        if slot >= self.handles.len() {
            return Err(Error::ConnectRejected);
        }
        let handle = self.handles[slot];
        let dial_start_ns: u64 = clock();
        let session = match Conn::<S>::session(&self.peer, &self.tls_config) {
            Ok(session) => session,
            Err(e) => return Err(e),
        };
        if !net::connect(
            &mut self.sockets,
            handle,
            cx,
            self.peer.ip,
            self.peer.port,
            src_port,
        ) {
            return Err(Error::ConnectRejected);
        }
        stats.request_started(false);
        let bufs = match self.take_conn(slot) {
            Some(c) => c.into_bufs(),
            None => self.take_bufs(slot),
        };
        let now_ns: u64 = clock();
        self.conns[slot] = Some(
            Conn::new(handle, self.queue_id, src_port, session, head, sink, bufs, now_ns),
        );
        stats.conn_dialled(now_ns.saturating_sub(dial_start_ns));
        proof {
            let read = |t: u64| clock.ensures((), t);
            assert(read(dial_start_ns) && read(now_ns));
            assert(self@ == before.dialled(slot as int, src_port, head@, http::sink_view(&sink), now_ns));
        }
        Ok(())
    }

    /// The spare buffers of a slot, or new ones.
    fn take_bufs(&mut self, slot: usize) -> (b: ConnBufs)
        requires
            slot < old(self).bufs@.len(),
            old(self).bufs@[slot as int] matches Some(b) ==> b.blank(),
        ensures
            b.blank(),
            *final(self) == (Worker { bufs: final(self).bufs, ..*old(self) }),
            final(self).bufs@ == old(self).bufs@.update(slot as int, None),
    {
        let mut b: Option<ConnBufs> = None;
        std::mem::swap(&mut self.bufs[slot], &mut b);
        match b {
            Some(b) => b,
            None => ConnBufs::new(),
        }
    }

    /// The device and the sockets, for the interface to be advanced on. No socket
    /// may be removed there.
    pub fn poll_parts(&mut self) -> (r: (&mut DpdkDevice, &mut SocketSet<'static>))
        requires
            old(self).wf(),
        ensures
            r.0@ == old(self)@.device,
            r.0.wf(),
            net::tcp_sockets(r.1) == old(self)@.sockets,
            final(self)@ == (WorkerView {
                device: final(r.0)@,
                sockets: net::tcp_sockets(final(r.1)),
                ..old(self)@
            }),
            final(r.0).wf() && old(self)@.sockets.dom().subset_of(
                net::tcp_sockets(final(r.1)).dom(),
            ) ==> final(self).wf(),
    {
        (&mut self.dev, &mut self.sockets)
    }

    /// A poll begins at the clock reading `reading_ns`.
    pub fn begin_poll(&mut self, reading_ns: u64)
        requires
            old(self).wf(),
        ensures
            final(self).wf(),
            final(self)@ == (WorkerView {
                last: LastPoll { poll_ns: reading_ns, ..old(self)@.last },
                ..old(self)@
            }),
    {
        self.last.poll_ns = reading_ns;
    }

    /// The interface is advanced and the batch flushed: advances every open
    /// connection, and notes what the poll came to. `start_ns` is when it began,
    /// `now_ns` when the interface was done, `active` whether a socket changed.
    pub fn finish_poll<F: Fn() -> u64>(
        &mut self,
        stats: &mut Counters,
        start_ns: u64,
        now_ns: u64,
        active: bool,
        clock: &F,
    )
        requires
            old(self).wf(),
            clock.requires(()),
        ensures
            final(self).wf(),
            steps_outcome(old(self)@, old(stats)@, final(self)@, final(stats)@, now_ns),
            final(self)@.last.poll_ns == old(self)@.last.poll_ns,
            final(self)@.last.iface_ns == now_ns.saturating_sub(start_ns),
            final(self)@.last.active == active,
            final(self)@.last.dev == (old(self)@.device.rx_pkts, old(self)@.device.tx_pkts),
            exists|end_ns: u64|
                #[trigger] clock.ensures((), end_ns) && final(self)@.last.busy_ns
                    == end_ns.saturating_sub(start_ns),
            final(self)@.device == (DeviceView { rx_pkts: 0, tx_pkts: 0, ..old(self)@.device }),
            final(self)@ == (WorkerView {
                device: final(self)@.device,
                conns: final(self)@.conns,
                sockets: final(self)@.sockets,
                last: final(self)@.last,
                ..old(self)@
            }),
            final(self).keeps_ended(*old(self)),
    {
        self.last.active = active;
        self.last.iface_ns = now_ns.saturating_sub(start_ns);
        self.last.dev = self.dev.take_counts();
        let ghost before = self@;
        let ghost started = *self;
        self.step_all(stats, now_ns);
        let ghost after = self@;
        let ghost stepped = *self;
        let end_ns: u64 = clock();
        self.last.busy_ns = end_ns.saturating_sub(start_ns);
        proof {
            lemma_steps_are_local(
                before,
                after,
                old(self)@,
                self@,
                old(stats)@,
                stats@,
                now_ns,
            );
            assert forall|k: int| 0 <= k < old(self)@.slots() && old(self)@.has_ended(k) implies
                #[trigger] self.same_sink(*old(self), k) by {
                assert(started@.has_ended(k));
                assert(stepped.same_sink(started, k));
            }
        }
    }

    /// Advances the connection in a slot, if there is one, by one step.
    fn step_slot(&mut self, slot: usize, stats: &mut Counters, now_ns: u64)
        requires
            old(self).wf(),
            slot < old(self)@.slots(),
        ensures
            final(self).wf(),
            slot_stepped(old(self)@, final(self)@, slot as int, old(stats)@, final(stats)@, now_ns),
            final(self)@ == old(self)@.with_slot(
                slot as int,
                final(self)@.conns[slot as int],
                final(self)@.socket(slot as int),
            ),
            old(self)@.has_ended(slot as int) ==> final(self).same_sink(*old(self), slot as int),
            forall|k: int|
                0 <= k < old(self)@.slots() && k != slot ==> #[trigger] final(self).same_sink(
                    *old(self),
                    k,
                ),
    {
        let ghost w = self@;
        let ghost s = stats@;
        match self.take_conn(slot) {
            Some(mut c) => {
                let ghost before = c@;
                let _ = c.step(&mut self.sockets, stats, now_ns);
                proof {
                    if before.outcome is None {
                        let served = before.served(w.socket(slot as int), s, now_ns);
                        conn_laws::law_rest_of_step_keeps(
                            served.conn,
                            c@,
                            served.tcp,
                            now_ns,
                        );
                    }
                }
                self.conns[slot] = Some(c);
            },
            None => {},
        }
        proof {
            let h = w.handles[slot as int];
            assert(self@.conns == w.conns.update(slot as int, self@.conns[slot as int]));
            assert(self@.sockets == w.sockets.insert(h, self@.sockets[h]));
        }
    }

    /// Advances every open connection by one step.
    fn step_all(&mut self, stats: &mut Counters, now_ns: u64)
        requires
            old(self).wf(),
        ensures
            final(self).wf(),
            steps_outcome(old(self)@, old(stats)@, final(self)@, final(stats)@, now_ns),
            final(self)@ == (WorkerView {
                conns: final(self)@.conns,
                sockets: final(self)@.sockets,
                ..old(self)@
            }),
            final(self).keeps_ended(*old(self)),
    {
        let ghost before = self@;
        let ghost mut counts: Seq<CountersView> = seq![stats@];
        let n: usize = self.conns.len();
        let mut i: usize = 0;
        while i < n
            invariant
                i <= n == before.slots(),
                self.wf(),
                before == old(self)@,
                before.conns.len() == n,
                forall|k: int, m: int|
                    0 <= k < m < n ==> before.handles[k] != before.handles[m],
                self@ == (WorkerView { conns: self@.conns, sockets: self@.sockets, ..before }),
                self@.conns.len() == n,
                self@.sockets.dom() == before.sockets.dom(),
                forall|k: int|
                    0 <= k < n ==> before.sockets.contains_key(#[trigger] before.handles[k]),
                counts.len() == i + 1,
                counts[0] == old(stats)@,
                counts[i as int] == stats@,
                forall|k: int|
                    0 <= k < i ==> #[trigger] slot_stepped(
                        before,
                        self@,
                        k,
                        counts[k],
                        counts[k + 1],
                        now_ns,
                    ),
                forall|k: int| i <= k < n ==> #[trigger] same_slot(before, self@, k),
                forall|k: int|
                    0 <= k < n && (i <= k || before.has_ended(k)) ==> #[trigger] self.same_sink(
                        *old(self),
                        k,
                    ),
                forall|h: SocketHandle|
                    !before.handles.contains(h) ==> self@.sockets[h] == before.sockets[h],
            decreases n - i,
        {
            let ghost w = self@;
            let ghost mid = *self;
            assert(same_slot(before, w, i as int));
            self.step_slot(i, stats, now_ns);
            proof {
                assert forall|k: int| 0 <= k < n && (i < k || before.has_ended(k)) implies
                    #[trigger] self.same_sink(*old(self), k) by {
                    assert(mid.same_sink(*old(self), k));
                    if k != i {
                        assert(self.same_sink(mid, k));
                    }
                }
                let after = self@;
                let h = before.handles[i as int];
                let counted = counts.push(stats@);
                assert(before.handles.contains(h));
                assert(after.sockets.dom() =~= before.sockets.dom());
                assert forall|k: int| 0 <= k < n && k != i implies #[trigger] same_slot(
                    w,
                    after,
                    k,
                ) by {
                    assert(before.handles[k] != h);
                }
                assert forall|k: int| 0 <= k < i + 1 implies #[trigger] slot_stepped(
                    before,
                    after,
                    k,
                    counted[k],
                    counted[k + 1],
                    now_ns,
                ) by {
                    if k < i {
                        assert(slot_stepped(before, w, k, counts[k], counts[k + 1], now_ns));
                        assert(same_slot(w, after, k));
                    } else {
                        assert(slot_stepped(w, after, k, counts[k], stats@, now_ns));
                    }
                }
                assert forall|k: int| i < k < n implies #[trigger] same_slot(before, after, k) by {
                    assert(same_slot(before, w, k) && same_slot(w, after, k));
                }
                counts = counted;
            }
            i += 1;
        }
        assert(counts.last() == stats@);
        assert(steps_outcome(before, old(stats)@, self@, stats@, now_ns));
    }

    pub fn last_poll_ns(&self) -> (r: u64)
        ensures
            r == self@.last.poll_ns,
    {
        self.last.poll_ns
    }

    pub fn last_busy_ns(&self) -> (r: u64)
        ensures
            r == self@.last.busy_ns,
    {
        self.last.busy_ns
    }

    pub fn last_iface_ns(&self) -> (r: u64)
        ensures
            r == self@.last.iface_ns,
    {
        self.last.iface_ns
    }

    pub fn last_dev(&self) -> (r: (u64, u64))
        ensures
            r == self@.last.dev,
    {
        self.last.dev
    }

    pub fn last_active(&self) -> (r: bool)
        ensures
            r == self@.last.active,
    {
        self.last.active
    }

    /// The connection in `slot`.
    pub fn conn(&self, slot: usize) -> (r: Option<&Conn<S>>)
        requires
            self.wf(),
        ensures
            r is Some <==> slot < self@.slots() && self@.conns[slot as int] is Some,
            r matches Some(c) ==> c.wf() && self@.conns[slot as int] == Some(c@) && c.stored()
                == self.stored(slot as int) && c.dropped() == self.dropped(slot as int),
    {
        if slot >= self.conns.len() {
            return None;
        }
        match &self.conns[slot] {
            Some(c) => Some(c),
            None => None,
        }
    }

    /// The connection in `slot`, to be changed; it stays on its socket.
    pub fn conn_mut(&mut self, slot: usize) -> (r: Option<&mut Conn<S>>)
        requires
            old(self).wf(),
        ensures
            r is Some <==> slot < old(self)@.slots() && old(self)@.conns[slot as int] is Some,
            match r {
                Some(c) => {
                    &&& c.wf()
                    &&& old(self)@.conns[slot as int] == Some(c@)
                    &&& c.stored() == old(self).stored(slot as int)
                    &&& c.dropped() == old(self).dropped(slot as int)
                    &&& final(self)@ == (WorkerView {
                        conns: old(self)@.conns.update(slot as int, Some(final(c)@)),
                        ..old(self)@
                    })
                    &&& final(c).wf() && final(c)@.handle == c@.handle ==> final(self).wf()
                },
                None => final(self)@ == old(self)@ && final(self).wf(),
            },
    {
        if slot >= self.conns.len() {
            return None;
        }
        self.conns[slot].as_mut()
    }
}

/// A slot is as it was.
pub open spec fn same_slot(before: WorkerView, after: WorkerView, slot: int) -> bool {
    after.conns[slot] == before.conns[slot] && after.socket(slot) == before.socket(slot)
}

/// Steps look at nothing but the connections and their sockets.
proof fn lemma_steps_are_local(
    before: WorkerView,
    after: WorkerView,
    before2: WorkerView,
    after2: WorkerView,
    stats: CountersView,
    stats_after: CountersView,
    now_ns: u64,
)
    requires
        steps_outcome(before, stats, after, stats_after, now_ns),
        before2.handles == before.handles,
        before2.conns == before.conns,
        before2.sockets == before.sockets,
        after2.handles == after.handles,
        after2.conns == after.conns,
        after2.sockets == after.sockets,
    ensures
        steps_outcome(before2, stats, after2, stats_after, now_ns),
{
    let counts = choose|counts: Seq<CountersView>|
        {
            &&& counts.len() == before.slots() + 1
            &&& counts[0] == stats
            &&& counts.last() == stats_after
            &&& forall|k: int|
                0 <= k < before.slots() ==> #[trigger] slot_stepped(
                    before,
                    after,
                    k,
                    counts[k],
                    counts[k + 1],
                    now_ns,
                )
        };
    assert forall|k: int| 0 <= k < before2.slots() implies #[trigger] slot_stepped(
        before2,
        after2,
        k,
        counts[k],
        counts[k + 1],
        now_ns,
    ) by {
        assert(slot_stepped(before, after, k, counts[k], counts[k + 1], now_ns));
    }
}

/// What one step makes of a slot, with the counters before and after it.
pub open spec fn slot_stepped(
    before: WorkerView,
    after: WorkerView,
    slot: int,
    stats: CountersView,
    stats_after: CountersView,
    now_ns: u64,
) -> bool {
    match before.conns[slot] {
        Some(c) if c.outcome is None => {
            let served = c.served(before.socket(slot), stats, now_ns);
            &&& after.socket(slot) == served.tcp
            &&& stats_after == served.stats
            &&& after.conns[slot] matches Some(end) && served.conn.leads_to(
                end,
                served.tcp,
                now_ns,
            )
        },
        c => {
            &&& after.conns[slot] == c
            &&& after.socket(slot) == before.socket(slot)
            &&& stats_after == stats
        },
    }
}

/// Every slot took one step, in order, each on its own socket; nothing else of
/// the sockets changed.
pub open spec fn steps_outcome(
    before: WorkerView,
    stats: CountersView,
    after: WorkerView,
    stats_after: CountersView,
    now_ns: u64,
) -> bool {
    &&& after.handles == before.handles
    &&& after.conns.len() == before.conns.len()
    &&& after.sockets.dom() == before.sockets.dom()
    &&& forall|h: SocketHandle|
        !before.handles.contains(h) ==> after.sockets[h] == before.sockets[h]
    &&& exists|counts: Seq<CountersView>|
        {
            &&& counts.len() == before.slots() + 1
            &&& counts[0] == stats
            &&& counts.last() == stats_after
            &&& forall|k: int|
                0 <= k < before.slots() ==> #[trigger] slot_stepped(
                    before,
                    after,
                    k,
                    counts[k],
                    counts[k + 1],
                    now_ns,
                )
        }
}

/// What dialling a slot from `src_port` comes to. Without a socket or where it
/// cannot be connected, or the session cannot be begun, nothing changes; else the
/// slot holds a fresh connection, and the request and the time it took to build
/// are counted. `read` holds of the clock's readings.
pub open spec fn dial_outcome(
    w: WorkerView,
    stats: CountersView,
    slot: int,
    src_port: u16,
    request: Seq<u8>,
    sink: SinkView,
    addresses: nat,
    r: Result<(), Error>,
    after: WorkerView,
    stats_after: CountersView,
    read: spec_fn(u64) -> bool,
) -> bool {
    let named = w.peer.tls ==> tls::server_name_of(w.peer.host@) is Some;
    let possible = slot < w.slots() && named && w.connectable(slot, src_port, addresses);
    match r {
        Ok(()) => {
            &&& possible
            &&& exists|start_ns: u64, now_ns: u64|
                {
                    &&& #[trigger] read(start_ns)
                    &&& #[trigger] read(now_ns)
                    &&& after == w.dialled(slot, src_port, request, sink, now_ns)
                    &&& stats_after == stats.with_request_started(false).with_dialled(
                        now_ns.saturating_sub(start_ns),
                    )
                }
        },
        Err(e) => {
            &&& after == w
            &&& stats_after == stats
            &&& possible ==> {
                &&& w.peer.tls
                &&& e == Error::Tls
                &&& tls::begins(w.config, tls::server_name_of(w.peer.host@)->0, false)
            }
            &&& slot < w.slots() && named && w.peer.tls && e == Error::Tls ==> tls::begins(
                w.config,
                tls::server_name_of(w.peer.host@)->0,
                false,
            )
            &&& slot >= w.slots() ==> e == Error::ConnectRejected
            &&& slot < w.slots() && !named ==> e == Error::Tls
            &&& slot < w.slots() && !w.peer.tls ==> e == Error::ConnectRejected
            &&& e == Error::Tls || e == Error::ConnectRejected
        },
    }
}

/// Every port that a worker dials from is one whose return traffic from the peer
/// lands on the worker's own queue, and would be passed up there.
pub proof fn law_ports_steer_here(
    w: WorkerView,
    h: WorkerHandle,
    cfg: WorkerConfig,
    config: ClientConfig,
    i: int,
)
    requires
        w.fresh(h, cfg, config),
        0 <= i < w.rotation.len(),
    ensures
        w.rotation[i] >= rss::EPH_BASE,
        h.steering().queue_for(cfg.peer.ip@, cfg.peer.port, h.net().ip@, w.rotation[i])
            == h.queue(),
        w.device.owned->0.contains(w.rotation[i]),
{
    let owned = h.steering().ports_of(cfg.peer.ip@, cfg.peer.port, h.net().ip@, h.queue());
    rss::law_ports_partition(
        h.steering(),
        cfg.peer.ip@,
        cfg.peer.port,
        h.net().ip@,
        h.queue(),
        w.rotation[i],
    );
    rss::law_spread_is_ascending(owned, rotation_len(cfg.conns));
    assert(owned.contains(w.rotation[i]));
}

/// A worker has at least as many ports as slots, goes through all of them before
/// it uses one again, and has as many slots as it was asked for, ports allowing.
pub proof fn law_rotation(w: WorkerView, h: WorkerHandle, cfg: WorkerConfig, config: ClientConfig)
    requires
        w.fresh(h, cfg, config),
    ensures
        w.slots() <= cfg.conns,
        w.slots() <= w.rotation.len(),
        w.slots() < cfg.conns ==> w.slots() == w.device.owned->0.len(),
        forall|i: int, j: int|
            0 <= i < j < w.rotation.len() ==> w.rotation[i] != w.rotation[j],
{
    let owned = h.steering().ports_of(cfg.peer.ip@, cfg.peer.port, h.net().ip@, h.queue());
    rss::law_ports_partition(
        h.steering(),
        cfg.peer.ip@,
        cfg.peer.port,
        h.net().ip@,
        h.queue(),
        0,
    );
    rss::law_spread_takes_enough(owned, cfg.conns as nat);
    rss::law_spread_takes_enough(owned, rotation_len(cfg.conns));
    rss::law_spread_is_ascending(owned, rotation_len(cfg.conns));
}

/// A slot that was released can be dialled: its socket is closed, whatever state
/// it was in, and its connection is gone.
pub proof fn law_released_is_free(w: WorkerView, slot: int, src_port: u16, addresses: nat)
    requires
        0 <= slot < w.slots(),
        w.slots() == w.conns.len(),
    ensures
        w.released(slot).conns[slot] is None,
        !w.released(slot).reusable(slot),
        w.released(slot).connectable(slot, src_port, addresses) <==> net::addressable(
            w.peer.ip@,
            w.peer.port,
            src_port,
        ) && addresses > 0,
{
}

} // verus!
