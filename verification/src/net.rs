//! The TCP sockets a worker drives, as smoltcp keeps them.

use vstd::prelude::*;

use smoltcp::iface::{Context, SocketHandle, SocketSet};
use smoltcp::socket::tcp;
use smoltcp::time::Duration;
use smoltcp::wire::Ipv4Address;

verus! {

/// smoltcp's collection of sockets.
#[verifier::external_type_specification]
#[verifier::external_body]
pub struct ExSocketSet<'a>(SocketSet<'a>);

/// smoltcp's TCP socket: a state and two byte queues.
#[verifier::external_type_specification]
#[verifier::external_body]
pub struct ExSocket<'a>(smoltcp::socket::tcp::Socket<'a>);

/// What smoltcp hands out for a socket in a collection.
#[verifier::external_type_specification]
#[verifier::external_body]
pub struct ExSocketHandle(SocketHandle);

/// What smoltcp's interface lends a socket: its addresses and its randomness.
#[verifier::external_type_specification]
#[verifier::external_body]
pub struct ExContext(Context);

/// The states of a TCP connection.
#[derive(Debug, Clone, Copy, PartialEq, Eq, Structural)]
pub enum TcpState {
    Closed,
    Listen,
    SynSent,
    SynReceived,
    Established,
    FinWait1,
    FinWait2,
    CloseWait,
    Closing,
    LastAck,
    TimeWait,
}

/// The value of one TCP socket, as far as anything here depends on it.
#[verifier::ext_equal]
pub struct TcpView {
    pub state: TcpState,
    /// Received, in order, and not read yet.
    pub rx: Seq<u8>,
    /// Handed over for sending, and not acknowledged yet.
    pub tx: Seq<u8>,
    pub rx_capacity: usize,
    pub tx_capacity: usize,
    /// How long an acknowledgement may wait, in microseconds; none means not at all.
    pub ack_delay_us: Option<u64>,
    /// The IPv4 address and port of the peer.
    pub remote: Option<(Seq<u8>, u16)>,
    pub local_port: Option<u16>,
}

/// What a TCP socket holds.
pub uninterp spec fn tcp_socket(s: &tcp::Socket<'_>) -> TcpView;

/// The TCP sockets in a collection, by handle.
pub uninterp spec fn tcp_sockets(s: &SocketSet<'_>) -> Map<SocketHandle, TcpView>;

/// The collection has room for any number of sockets.
pub uninterp spec fn may_grow(s: &SocketSet<'_>) -> bool;

/// The IPv4 addresses of the interface behind a context, in order.
pub uninterp spec fn interface_addresses(cx: &Context) -> Seq<Seq<u8>>;

impl TcpView {
    /// The transmit half is open.
    pub open spec fn may_send(self) -> bool {
        self.state == TcpState::Established || self.state == TcpState::CloseWait
    }

    /// How many more bytes can be handed over for sending.
    pub open spec fn room(self) -> nat {
        if self.tx.len() < self.tx_capacity {
            (self.tx_capacity - self.tx.len()) as nat
        } else {
            0
        }
    }

    /// The receive half is open, or there is something left to read.
    pub open spec fn may_recv(self) -> bool {
        ||| self.state == TcpState::Established
        ||| self.state == TcpState::FinWait1
        ||| self.state == TcpState::FinWait2
        ||| self.rx.len() > 0
    }

    /// The socket is in use: it takes no new connection.
    pub open spec fn is_open(self) -> bool {
        self.state != TcpState::Closed && self.state != TcpState::TimeWait
    }

    /// As much of `data` as fits handed over for sending.
    pub open spec fn sending(self, data: Seq<u8>) -> TcpView {
        TcpView { tx: self.tx + data.take(taken(self, data.len())), ..self }
    }

    /// Torn down.
    pub open spec fn aborted(self) -> TcpView {
        TcpView { state: TcpState::Closed, ..self }
    }

    /// A SYN is due to `ip`:`port`, from `local_port`.
    pub open spec fn dialling(self, ip: Seq<u8>, port: u16, local_port: u16) -> TcpView {
        TcpView {
            state: TcpState::SynSent,
            rx: Seq::empty(),
            tx: Seq::empty(),
            remote: Some((ip, port)),
            local_port: Some(local_port),
            ..self
        }
    }
}

/// How many of `n` bytes a socket takes for sending.
pub open spec fn taken(t: TcpView, n: nat) -> int {
    if n < t.room() {
        n as int
    } else {
        t.room() as int
    }
}

/// A socket that has never been used.
pub open spec fn idle_socket(rx: usize, tx: usize, ack_delay_us: Option<u64>) -> TcpView {
    TcpView {
        state: TcpState::Closed,
        rx: Seq::empty(),
        tx: Seq::empty(),
        rx_capacity: rx,
        tx_capacity: tx,
        ack_delay_us,
        remote: None,
        local_port: None,
    }
}

/// A peer and a local port that a connection can be opened between.
pub open spec fn addressable(ip: Seq<u8>, port: u16, local_port: u16) -> bool {
    port != 0 && local_port != 0 && ip != seq![0u8, 0, 0, 0]
}

/// The largest receive buffer a socket can have: 1 GiB.
pub const MAX_RX_BUFFER: usize = 1_073_741_824;

/// The acknowledgement delay of a new socket, in microseconds.
pub const ACK_DELAY_US: u64 = 10_000;

/// The largest transmit buffer: what one allocation can hold.
pub const MAX_TX_BUFFER: usize = isize::MAX as usize;

/// `SocketSet::new` over growing storage: a collection without sockets.
#[verifier::external_body]
pub(crate) fn no_sockets() -> (s: SocketSet<'static>)
    ensures
        forall|h: SocketHandle| !tcp_sockets(&s).contains_key(h),
        may_grow(&s),
{
    SocketSet::new(Vec::new())
}

/// `tcp::Socket::new` over zeroed buffers of the given sizes: closed, empty, and
/// with the usual acknowledgement delay.
#[verifier::external_body]
pub(crate) fn new_socket(rx: usize, tx: usize) -> (s: tcp::Socket<'static>)
    requires
        rx <= MAX_RX_BUFFER,
        tx <= MAX_TX_BUFFER,
    ensures
        tcp_socket(&s) == idle_socket(rx, tx, Some(ACK_DELAY_US)),
{
    let rx = tcp::SocketBuffer::new(vec![0u8; rx]);
    let tx = tcp::SocketBuffer::new(vec![0u8; tx]);
    tcp::Socket::new(rx, tx)
}

/// `tcp::Socket::set_ack_delay`: sets that, and nothing else.
#[verifier::external_body]
pub(crate) fn set_ack_delay(s: &mut tcp::Socket<'static>, ack_delay_us: Option<u64>)
    ensures
        tcp_socket(final(s)) == (TcpView { ack_delay_us, ..tcp_socket(old(s)) }),
{
    s.set_ack_delay(ack_delay_us.map(Duration::from_micros));
}

/// `SocketSet::add`: the socket is there under a new handle, and the others stay
/// as they were. A collection over fixed storage could be full, so it has to be one
/// that grows.
#[verifier::external_body]
pub(crate) fn add_socket(s: &mut SocketSet<'static>, socket: tcp::Socket<'static>) -> (h:
    SocketHandle)
    requires
        may_grow(old(s)),
    ensures
        may_grow(final(s)),
        !tcp_sockets(old(s)).contains_key(h),
        tcp_sockets(final(s)) == tcp_sockets(old(s)).insert(h, tcp_socket(&socket)),
{
    s.add(socket)
}

/// `tcp::Socket::state`.
#[verifier::external_body]
pub(crate) fn state(s: &SocketSet<'_>, h: SocketHandle) -> (r: TcpState)
    requires
        tcp_sockets(s).contains_key(h),
    ensures
        r == tcp_sockets(s)[h].state,
{
    match s.get::<tcp::Socket>(h).state() {
        tcp::State::Closed => TcpState::Closed,
        tcp::State::Listen => TcpState::Listen,
        tcp::State::SynSent => TcpState::SynSent,
        tcp::State::SynReceived => TcpState::SynReceived,
        tcp::State::Established => TcpState::Established,
        tcp::State::FinWait1 => TcpState::FinWait1,
        tcp::State::FinWait2 => TcpState::FinWait2,
        tcp::State::CloseWait => TcpState::CloseWait,
        tcp::State::Closing => TcpState::Closing,
        tcp::State::LastAck => TcpState::LastAck,
        tcp::State::TimeWait => TcpState::TimeWait,
    }
}

/// `tcp::Socket::may_send`: true in exactly two states.
#[verifier::external_body]
pub(crate) fn may_send(s: &SocketSet<'_>, h: SocketHandle) -> (r: bool)
    requires
        tcp_sockets(s).contains_key(h),
    ensures
        r == tcp_sockets(s)[h].may_send(),
{
    s.get::<tcp::Socket>(h).may_send()
}

/// `tcp::Socket::can_send`: the transmit half is open and its buffer not full.
#[verifier::external_body]
pub(crate) fn can_send(s: &SocketSet<'_>, h: SocketHandle) -> (r: bool)
    requires
        tcp_sockets(s).contains_key(h),
    ensures
        r == (tcp_sockets(s)[h].may_send() && tcp_sockets(s)[h].room() > 0),
{
    s.get::<tcp::Socket>(h).can_send()
}

/// `tcp::Socket::send_slice`: takes as many bytes as there is room for, and says
/// how many; refuses, and changes nothing, where the transmit half is not open.
#[verifier::external_body]
pub(crate) fn send(s: &mut SocketSet<'_>, h: SocketHandle, data: &[u8]) -> (r: Option<usize>)
    requires
        tcp_sockets(old(s)).contains_key(h),
    ensures
        ({
            let t = tcp_sockets(old(s))[h];
            if t.may_send() {
                &&& r == Some(taken(t, data@.len()) as usize)
                &&& tcp_sockets(final(s)) == tcp_sockets(old(s)).insert(h, t.sending(data@))
            } else {
                r is None && tcp_sockets(final(s)) == tcp_sockets(old(s))
            }
        }),
{
    s.get_mut::<tcp::Socket>(h).send_slice(data).ok()
}

/// `tcp::Socket::can_recv`: there is something to read.
#[verifier::external_body]
pub(crate) fn can_recv(s: &SocketSet<'_>, h: SocketHandle) -> (r: bool)
    requires
        tcp_sockets(s).contains_key(h),
    ensures
        r == (tcp_sockets(s)[h].rx.len() > 0),
{
    s.get::<tcp::Socket>(h).can_recv()
}

/// Appends all of `data`, and says twice how much that was: how much is taken
/// from where it came, and how much arrived.
fn take_all(data: &[u8], into: &mut Vec<u8>) -> (r: (usize, usize))
    ensures
        final(into)@ == old(into)@ + data@,
        r == (data@.len() as usize, data@.len() as usize),
{
    into.extend_from_slice(data);
    assert(into@ == old(into)@ + data@);
    (data.len(), data.len())
}

/// `tcp::Socket::recv`, reading all it hands out: one contiguous piece from the
/// front of what there is to read, and something wherever there is something.
/// Refuses, and changes nothing, where the receive half is closed and all is read.
#[verifier::external_body]
pub(crate) fn recv(s: &mut SocketSet<'_>, h: SocketHandle, into: &mut Vec<u8>) -> (r: Option<usize>)
    requires
        tcp_sockets(old(s)).contains_key(h),
    ensures
        ({
            let t = tcp_sockets(old(s))[h];
            match r {
                Some(n) => {
                    &&& t.may_recv()
                    &&& n <= t.rx.len()
                    &&& t.rx.len() > 0 ==> n > 0
                    &&& final(into)@ == old(into)@ + t.rx.take(n as int)
                    &&& tcp_sockets(final(s)) == tcp_sockets(old(s)).insert(
                        h,
                        TcpView { rx: t.rx.skip(n as int), ..t },
                    )
                },
                None => {
                    &&& !t.may_recv()
                    &&& final(into)@ == old(into)@
                    &&& tcp_sockets(final(s)) == tcp_sockets(old(s))
                },
            }
        }),
{
    s.get_mut::<tcp::Socket>(h).recv(|buf| take_all(buf, into)).ok()
}

/// `tcp::Socket::abort`: closed at once; what is buffered stays where it is.
#[verifier::external_body]
pub(crate) fn abort(s: &mut SocketSet<'_>, h: SocketHandle)
    requires
        tcp_sockets(old(s)).contains_key(h),
    ensures
        tcp_sockets(final(s)) == tcp_sockets(old(s)).insert(h, tcp_sockets(old(s))[h].aborted()),
{
    s.get_mut::<tcp::Socket>(h).abort();
}

/// `tcp::Socket::connect` to an IPv4 peer, from a local port at the interface's
/// first address. Refuses, and changes nothing, where the socket is in use, an
/// end is unspecified, or the interface has no address. The addresses of the
/// interface stay as they are.
#[verifier::external_body]
pub(crate) fn connect(
    s: &mut SocketSet<'_>,
    h: SocketHandle,
    cx: &mut Context,
    ip: [u8; 4],
    port: u16,
    local_port: u16,
) -> (r: bool)
    requires
        tcp_sockets(old(s)).contains_key(h),
    ensures
        r == (!tcp_sockets(old(s))[h].is_open() && addressable(ip@, port, local_port)
            && interface_addresses(old(cx)).len() > 0),
        interface_addresses(final(cx)) == interface_addresses(old(cx)),
        tcp_sockets(final(s)) == (if r {
            tcp_sockets(old(s)).insert(
                h,
                tcp_sockets(old(s))[h].dialling(ip@, port, local_port),
            )
        } else {
            tcp_sockets(old(s))
        }),
{
    let peer = (Ipv4Address::from(ip), port);
    s.get_mut::<tcp::Socket>(h).connect(cx, peer, local_port).is_ok()
}

} // verus!
