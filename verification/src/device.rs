//! What one NIC queue has in hand: frames received and not yet passed up, and
//! frames written and not yet handed over. Buffers are known by their addresses;
//! nothing is copied on either path.

use vstd::prelude::*;

use crate::rss;
use crate::rss::{OwnedPorts, RssView};
use crate::stats::{Counters, CountersView};

verus! {

/// The longest frame.
pub const MTU: usize = 1514;

/// RX drains up to this many buffers per burst.
pub const RX_BURST: usize = 32;

pub const TX_BATCH: usize = 32;

/// Flush attempts before a frame is dropped because the ring never took the
/// batch: each is a doorbell plus a completion sweep, so this is milliseconds.
pub const TX_FULL_SPINS: u32 = 10_000;

/// A received frame: its buffer, where its bytes are, and how many.
#[derive(Debug, Clone, Copy, PartialEq, Eq, Structural)]
pub struct RxFrame {
    pub handle: usize,
    pub data: usize,
    pub len: u16,
}

/// A frame to transmit: its buffer, and how many bytes of it.
#[derive(Debug, Clone, Copy, PartialEq, Eq, Structural)]
pub struct TxFrame {
    pub handle: usize,
    pub len: u16,
}

pub struct DpdkDevice {
    queue_id: u16,
    /// One fabricated frame, seeding the neighbour cache with the gateway's MAC.
    pending_synth: Option<Vec<u8>>,
    /// Ports this queue owns; `None` accepts everything (the DHCP/ARP phase on
    /// queue 0). A TCP frame for a port not owned is a prediction failure and is
    /// counted.
    owned_ports: Option<OwnedPorts>,
    rx: [RxFrame; RX_BURST],
    rx_pos: usize,
    rx_len: usize,
    rx_pkts: u64,
    tx_pkts: u64,
    /// Frames written but not yet handed to the NIC: one doorbell per flush, not
    /// per frame.
    tx: [TxFrame; TX_BATCH],
    tx_len: usize,
}

/// The value of a [`DpdkDevice`].
#[verifier::ext_equal]
pub struct DeviceView {
    pub queue_id: u16,
    pub synth: Option<Seq<u8>>,
    pub owned: Option<Seq<u16>>,
    /// Received and not passed up.
    pub rx: Seq<RxFrame>,
    pub rx_pkts: u64,
    pub tx_pkts: u64,
    /// Written and not handed over.
    pub tx: Seq<TxFrame>,
}

impl View for DpdkDevice {
    type V = DeviceView;

    closed spec fn view(&self) -> DeviceView {
        DeviceView {
            queue_id: self.queue_id,
            synth: match self.pending_synth {
                Some(f) => Some(f@),
                None => None,
            },
            owned: match self.owned_ports {
                Some(o) => Some(o@),
                None => None,
            },
            rx: self.rx@.subrange(self.rx_pos as int, self.rx_len as int),
            rx_pkts: self.rx_pkts,
            tx_pkts: self.tx_pkts,
            tx: self.tx@.take(self.tx_len as int),
        }
    }
}

/// The destination port of a frame that carries TCP over IPv4.
pub open spec fn tcp_port_of(bytes: Seq<u8>) -> Option<u16> {
    // Ethernet, then an IPv4 header of as many 4-byte words as it says, then TCP.
    let at = 14 + (bytes[14] % 16) * 4;
    if bytes.len() >= 54 && bytes[12] == 0x08 && bytes[13] == 0x00 && bytes[23] == 6 && at + 4
        <= bytes.len() {
        Some((bytes[at + 2] * 256 + bytes[at + 3]) as u16)
    } else {
        None
    }
}

/// The frame is for a queue with these ports: it is no TCP over IPv4, or not for
/// an ephemeral port, or for a port that the queue owns.
pub open spec fn belongs(owned: Option<Seq<u16>>, bytes: Seq<u8>) -> bool {
    match (owned, tcp_port_of(bytes)) {
        (Some(ports), Some(port)) => port < rss::EPH_BASE || ports.contains(port),
        _ => true,
    }
}

/// What comes next on the receive side.
pub enum RxStep {
    /// The fabricated frame.
    Synth(Vec<u8>),
    /// A frame that was received before.
    Frame(RxFrame),
    /// Nothing is left: ask the NIC.
    Burst,
}

/// What is to be done about a frame to transmit.
#[derive(Debug, Clone, Copy, PartialEq, Eq, Structural)]
pub enum TxStep {
    /// The batch is full: hand it over, then ask again.
    Flush,
    /// There is a place for it.
    Write,
    /// The NIC is not taking anything: write it nowhere.
    Drop,
}

impl DpdkDevice {
    /// What holds of every device.
    pub closed spec fn wf(&self) -> bool {
        &&& self.rx_pos <= self.rx_len <= RX_BURST
        &&& self.tx_len <= TX_BATCH
        &&& self.owned_ports matches Some(o) ==> o.wf()
    }

    pub fn new(
        queue_id: u16,
        owned_ports: Option<OwnedPorts>,
        pending_synth: Option<Vec<u8>>,
    ) -> (d: Self)
        requires
            owned_ports matches Some(o) ==> o.wf(),
        ensures
            d.wf(),
            d@ == (DeviceView {
                queue_id,
                synth: match pending_synth {
                    Some(f) => Some(f@),
                    None => None,
                },
                owned: match owned_ports {
                    Some(o) => Some(o@),
                    None => None,
                },
                rx: Seq::empty(),
                rx_pkts: 0,
                tx_pkts: 0,
                tx: Seq::empty(),
            }),
    {
        let d = DpdkDevice {
            queue_id,
            pending_synth,
            owned_ports,
            rx: [RxFrame { handle: 0, data: 0, len: 0 };RX_BURST],
            rx_pos: 0,
            rx_len: 0,
            rx_pkts: 0,
            tx_pkts: 0,
            tx: [TxFrame { handle: 0, len: 0 };TX_BATCH],
            tx_len: 0,
        };
        assert(d@.rx == Seq::<RxFrame>::empty());
        assert(d@.tx == Seq::<TxFrame>::empty());
        d
    }

    pub fn queue_id(&self) -> (q: u16)
        ensures
            q == self@.queue_id,
    {
        self.queue_id
    }

    /// The frames that are to be handed to the NIC, in order.
    pub fn batch(&self) -> (b: &[TxFrame])
        requires
            self.wf(),
        ensures
            b@ == self@.tx,
            b@.len() <= TX_BATCH,
    {
        let all: &[TxFrame] = &self.tx;
        &all[0..self.tx_len]
    }

    /// The NIC took the first `sent` frames of the batch. What the ring will not
    /// take stays at the front of the batch for the next flush: a poll that ACKs a
    /// few thousand segments at once outruns a 1024-entry ring, and dropping the
    /// rest cost the sender its ACKs.
    pub fn flushed(&mut self, stats: &mut Counters, sent: usize)
        requires
            old(self).wf(),
            sent <= old(self)@.tx.len(),
        ensures
            final(self).wf(),
            final(self)@ == (DeviceView {
                tx: old(self)@.tx.skip(sent as int),
                tx_pkts: old(self)@.tx_pkts.wrapping_add(sent as u64),
                ..old(self)@
            }),
            final(stats)@ == (CountersView {
                tx_burst_fail: old(stats)@.tx_burst_fail.wrapping_add(
                    (old(self)@.tx.len() - sent) as u64,
                ),
                ..old(stats)@
            }),
    {
        let ghost before = self@;
        let ghost all = self.tx@;
        let n: usize = self.tx_len;
        assert(before.tx.len() == n);
        self.tx_pkts = self.tx_pkts.wrapping_add(sent as u64);
        let held: usize = n - sent;
        if held > 0 {
            stats.tx_held(held as u64);
            let mut i: usize = 0;
            while i < held
                invariant
                    i <= held,
                    sent + held == n <= TX_BATCH,
                    self.rx_pos <= self.rx_len <= RX_BURST,
                    self.owned_ports matches Some(o) ==> o.wf(),
                    self@.rx == before.rx,
                    self@.queue_id == before.queue_id,
                    self@.synth == before.synth,
                    self@.owned == before.owned,
                    self@.rx_pkts == before.rx_pkts,
                    self.tx_pkts == before.tx_pkts.wrapping_add(sent as u64),
                    forall|k: int| 0 <= k < i ==> #[trigger] self.tx@[k] == all[k + sent],
                    forall|k: int| i <= k < TX_BATCH ==> #[trigger] self.tx@[k] == all[k],
                decreases held - i,
            {
                self.tx[i] = self.tx[sent + i];
                i += 1;
            }
        }
        self.tx_len = held;
        assert(self@.tx == before.tx.skip(sent as int));
    }

    /// Packets received and transmitted since the last call.
    pub fn take_counts(&mut self) -> (r: (u64, u64))
        requires
            old(self).wf(),
        ensures
            final(self).wf(),
            r == (old(self)@.rx_pkts, old(self)@.tx_pkts),
            final(self)@ == (DeviceView { rx_pkts: 0, tx_pkts: 0, ..old(self)@ }),
    {
        let r = (self.rx_pkts, self.tx_pkts);
        self.rx_pkts = 0;
        self.tx_pkts = 0;
        r
    }

    /// True if the frame should be passed up; one that should not is counted.
    pub fn accepts(&self, stats: &mut Counters, bytes: &[u8]) -> (r: bool)
        requires
            self.wf(),
        ensures
            r == belongs(self@.owned, bytes@),
            final(stats)@ == (if r {
                old(stats)@
            } else {
                CountersView {
                    misrouted_drops: old(stats)@.misrouted_drops.wrapping_add(1),
                    ..old(stats)@
                }
            }),
    {
        let owned = match &self.owned_ports {
            Some(o) => o,
            None => return true,
        };
        // Ethernet(14) + IPv4(20) + TCP(20) = 54.
        if bytes.len() < 54 {
            return true;
        }
        if bytes[12] != 0x08 || bytes[13] != 0x00 {
            return true;  // not IPv4
        }
        let l4: usize = 14 + (bytes[14] % 16) as usize * 4;
        if bytes[23] != 6 || l4 + 4 > bytes.len() {
            return true;
        }
        let dst_port: u16 = bytes[l4 + 2] as u16 * 256 + bytes[l4 + 3] as u16;
        if owned.contains(dst_port) {
            true
        } else {
            stats.misrouted_drop();
            false
        }
    }

    /// What comes next on the receive side: the fabricated frame, then what was
    /// received before, then a burst.
    pub fn receive(&mut self) -> (r: RxStep)
        requires
            old(self).wf(),
        ensures
            final(self).wf(),
            match r {
                RxStep::Synth(f) => {
                    &&& old(self)@.synth == Some(f@)
                    &&& final(self)@ == (DeviceView { synth: None, ..old(self)@ })
                },
                RxStep::Frame(f) => {
                    &&& old(self)@.synth is None
                    &&& old(self)@.rx.len() > 0
                    &&& f == old(self)@.rx[0]
                    &&& final(self)@ == (DeviceView {
                        rx: old(self)@.rx.drop_first(),
                        ..old(self)@
                    })
                },
                RxStep::Burst => {
                    &&& old(self)@.synth is None
                    &&& old(self)@.rx.len() == 0
                    &&& final(self)@ == old(self)@
                },
            },
    {
        if let Some(buf) = self.pending_synth.take() {
            return RxStep::Synth(buf);
        }
        if self.rx_pos == self.rx_len {
            return RxStep::Burst;
        }
        let f = self.rx[self.rx_pos];
        self.rx_pos = self.rx_pos + 1;
        assert(self@.rx == old(self)@.rx.drop_first());
        RxStep::Frame(f)
    }

    /// A burst brought `frames`; `false` if that is none.
    pub fn received(&mut self, frames: &[RxFrame]) -> (r: bool)
        requires
            old(self).wf(),
            old(self)@.rx.len() == 0,
            frames@.len() <= RX_BURST,
        ensures
            final(self).wf(),
            r == (frames@.len() > 0),
            final(self)@ == (DeviceView {
                rx: frames@,
                rx_pkts: old(self)@.rx_pkts.wrapping_add(frames@.len() as u64),
                ..old(self)@
            }),
    {
        let ghost before = self@;
        let got: usize = frames.len();
        self.rx_pkts = self.rx_pkts.wrapping_add(got as u64);
        if got == 0 {
            assert(self@.rx == frames@);
            return false;
        }
        let mut i: usize = 0;
        while i < got
            invariant
                i <= got == frames@.len(),
                got <= RX_BURST,
                self.tx_len <= TX_BATCH,
                self.owned_ports matches Some(o) ==> o.wf(),
                self@.tx == before.tx,
                self@.queue_id == before.queue_id,
                self@.synth == before.synth,
                self@.owned == before.owned,
                self@.tx_pkts == before.tx_pkts,
                self.rx_pkts == before.rx_pkts.wrapping_add(got as u64),
                forall|k: int| 0 <= k < i ==> #[trigger] self.rx@[k] == frames@[k],
            decreases got - i,
        {
            self.rx[i] = frames[i];
            i += 1;
        }
        self.rx_pos = 0;
        self.rx_len = got;
        assert(self@.rx == frames@);
        true
    }

    /// What is to be done about a frame to transmit, after `spins` flushes for its
    /// sake. One that came up with a received frame cannot be refused, so a full
    /// batch has to be pushed into the ring; the ring drains by DMA at its own
    /// pace, and is waited on briefly rather than the frame lost.
    pub fn next_tx(&self, spins: u32) -> (r: TxStep)
        requires
            self.wf(),
        ensures
            r == (if self@.tx.len() < TX_BATCH {
                TxStep::Write
            } else if spins < TX_FULL_SPINS {
                TxStep::Flush
            } else {
                TxStep::Drop
            }),
    {
        if self.tx_len < TX_BATCH {
            TxStep::Write
        } else if spins < TX_FULL_SPINS {
            TxStep::Flush
        } else {
            TxStep::Drop
        }
    }

    /// Whether the batch is full.
    pub fn tx_full(&self) -> (r: bool)
        requires
            self.wf(),
        ensures
            r == (self@.tx.len() == TX_BATCH),
    {
        self.tx_len == TX_BATCH
    }

    /// A frame was written to the first `len` bytes of `handle`. Says whether the
    /// batch is now full, and so due to be handed over.
    pub fn push_tx(&mut self, handle: usize, len: u16) -> (r: bool)
        requires
            old(self).wf(),
            old(self)@.tx.len() < TX_BATCH,
        ensures
            final(self).wf(),
            final(self)@ == (DeviceView {
                tx: old(self)@.tx.push(TxFrame { handle, len }),
                ..old(self)@
            }),
            r == (final(self)@.tx.len() == TX_BATCH),
    {
        let n: usize = self.tx_len;
        self.tx[n] = TxFrame { handle, len };
        self.tx_len = n + 1;
        assert(self@.tx == old(self)@.tx.push(TxFrame { handle, len }));
        self.tx_len == TX_BATCH
    }
}

/// How much of a frame of `len` bytes is written where there is room for `cap`.
pub fn frame_len(len: usize, cap: usize) -> (n: usize)
    ensures
        n == (if len < cap {
            len
        } else {
            cap
        }),
{
    if len < cap {
        len
    } else {
        cap
    }
}

/// Frames leave in the order in which they were written, whatever part of the
/// batch a flush gets rid of: what was handed over, followed by what is still in
/// hand, is what was written.
pub proof fn law_tx_in_order(
    before: DeviceView,
    flushed: DeviceView,
    after: DeviceView,
    sent: int,
    frame: TxFrame,
)
    requires
        0 <= sent <= before.tx.len(),
        flushed.tx == before.tx.skip(sent),
        after.tx == flushed.tx.push(frame),
    ensures
        before.tx.take(sent) + after.tx == before.tx.push(frame),
{
    assert(before.tx.take(sent) + after.tx == before.tx.push(frame));
}

/// A TCP frame for an ephemeral port belongs to exactly one queue: the one that
/// the peer's traffic to that port is steered to.
pub proof fn law_one_queue_accepts(
    steering: RssView,
    peer_ip: Seq<u8>,
    peer_port: u16,
    our_ip: Seq<u8>,
    queue: u16,
    bytes: Seq<u8>,
)
    requires
        tcp_port_of(bytes) is Some,
        tcp_port_of(bytes)->0 >= rss::EPH_BASE,
    ensures
        belongs(Some(steering.ports_of(peer_ip, peer_port, our_ip, queue)), bytes) <==> queue
            == steering.queue_for(peer_ip, peer_port, our_ip, tcp_port_of(bytes)->0),
{
    rss::law_ports_partition(
        steering,
        peer_ip,
        peer_port,
        our_ip,
        queue,
        tcp_port_of(bytes)->0,
    );
}

} // verus!
