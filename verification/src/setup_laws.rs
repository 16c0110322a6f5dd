//! What goes out and comes in while the network is brought up, byte for byte, and
//! what is asked of the device.

use vstd::prelude::*;

use crate::arp;
use crate::clock::MonoClock;
use crate::dhcp::{DhcpEvent, Learn, LearnStep};
use crate::error::Error;
use crate::nic;
use crate::nic::NicStep;
use crate::print;
use crate::service;
use crate::stats::Poll;
use crate::stats_laws::is_larger;
use crate::worker::LastPoll;
use crate::{Config, Stack};

verus! {

/// Where an ARP frame has what: the Ethernet header, the kinds and sizes of the
/// addresses, the operation, and the two ends, the sender's first.
pub proof fn law_arp_layout(
    dst_mac: Seq<u8>,
    src_mac: Seq<u8>,
    op: u16,
    sender_ip: Seq<u8>,
    target_mac: Seq<u8>,
    target_ip: Seq<u8>,
)
    requires
        dst_mac.len() == 6,
        src_mac.len() == 6,
        sender_ip.len() == 4,
        target_mac.len() == 6,
        target_ip.len() == 4,
    ensures
        ({
            let f = arp::frame_of(dst_mac, src_mac, op, sender_ip, target_mac, target_ip);
            &&& f.len() == 42
            &&& f.subrange(0, 6) == dst_mac
            &&& f.subrange(6, 12) == src_mac
            &&& f.subrange(12, 20) == seq![8u8, 6, 0, 1, 8, 0, 6, 4]
            &&& f[20] * 256 + f[21] == op
            &&& f.subrange(22, 28) == src_mac
            &&& f.subrange(28, 32) == sender_ip
            &&& f.subrange(32, 38) == target_mac
            &&& f.subrange(38, 42) == target_ip
        }),
{
    let f = arp::frame_of(dst_mac, src_mac, op, sender_ip, target_mac, target_ip);
    assert(f.subrange(0, 6) == dst_mac);
    assert(f.subrange(6, 12) == src_mac);
    assert(f.subrange(12, 20) == seq![8u8, 6, 0, 1, 8, 0, 6, 4]);
    assert(f.subrange(22, 28) == src_mac);
    assert(f.subrange(28, 32) == sender_ip);
    assert(f.subrange(32, 38) == target_mac);
    assert(f.subrange(38, 42) == target_ip);
}

/// A request goes to everybody, and asks who has the target's address, on behalf
/// of ours.
pub proof fn law_request_asks_everybody(
    our_mac: [u8; 6],
    our_ip: [u8; 4],
    target_ip: [u8; 4],
    f: [u8; 42],
)
    requires
        call_ensures(arp::request, (our_mac, our_ip, target_ip), f),
    ensures
        forall|i: int| 0 <= i < 6 ==> #[trigger] f@[i] == 255,
        f@[20] == 0 && f@[21] == 1,
        f@.subrange(22, 28) == our_mac@,
        f@.subrange(28, 32) == our_ip@,
        forall|i: int| 32 <= i < 38 ==> #[trigger] f@[i] == 0,
        f@.subrange(38, 42) == target_ip@,
{
    let nobody = seq![0u8, 0, 0, 0, 0, 0];
    law_arp_layout(arp::broadcast(), our_mac@, 1, our_ip@, nobody, target_ip@);
    assert forall|i: int| 0 <= i < 6 implies #[trigger] f@[i] == 255 by {
        assert(f@.subrange(0, 6)[i] == arp::broadcast()[i]);
    }
    assert forall|i: int| 32 <= i < 38 implies #[trigger] f@[i] == 0 by {
        assert(f@.subrange(32, 38)[i - 32] == nobody[i - 32]);
    }
}

/// A reply that is made up for a worker goes to that worker, and says that the
/// sender's address is at the sender's MAC.
pub proof fn law_made_up_reply_is_for_the_worker(
    sender_mac: [u8; 6],
    sender_ip: [u8; 4],
    target_mac: [u8; 6],
    target_ip: [u8; 4],
    f: Vec<u8>,
)
    requires
        call_ensures(arp::synthetic_reply, (sender_mac, sender_ip, target_mac, target_ip), f),
    ensures
        f@.len() == 42,
        f@.subrange(0, 6) == target_mac@,
        f@[20] == 0 && f@[21] == 2,
        f@.subrange(22, 28) == sender_mac@,
        f@.subrange(28, 32) == sender_ip@,
        f@.subrange(32, 38) == target_mac@,
        f@.subrange(38, 42) == target_ip@,
{
    law_arp_layout(target_mac@, sender_mac@, 2, sender_ip@, target_mac@, target_ip@);
}

/// What a frame has to hold to be taken for a reply from an address: the kind of
/// frame, the operation and the sender, each in its place, and nothing else.
pub proof fn law_reply_is_told_by_its_bytes(f: Seq<u8>, ip: Seq<u8>)
    requires
        ip.len() == 4,
    ensures
        arp::is_reply_from(f, ip) <==> f.len() >= 42 && f[12] == 8 && f[13] == 6 && f[20] == 0
            && f[21] == 2 && f[28] == ip[0] && f[29] == ip[1] && f[30] == ip[2] && f[31] == ip[3],
{
    if f.len() >= 42 {
        let kind = f.subrange(12, 14);
        let op = f.subrange(20, 22);
        let sender = f.subrange(28, 32);
        assert(kind[0] == f[12] && kind[1] == f[13]);
        assert(op[0] == f[20] && op[1] == f[21]);
        assert(sender[0] == f[28] && sender[1] == f[29] && sender[2] == f[30] && sender[3]
            == f[31]);
        if f[12] == 8 && f[13] == 6 {
            assert(kind == seq![0x08u8, 0x06]);
        }
        if f[20] == 0 && f[21] == 2 {
            assert(op == crate::rss::big_endian(2));
        }
        if f[28] == ip[0] && f[29] == ip[1] && f[30] == ip[2] && f[31] == ip[3] {
            assert(sender == ip);
        }
    }
}

/// A lease is what the server gave, and the gateway is asked for right after it.
pub proof fn law_lease_is_what_was_given(
    l: Learn,
    our_mac: [u8; 6],
    ip: [u8; 4],
    prefix_len: u8,
    router: Option<[u8; 4]>,
    r: (Learn, LearnStep),
)
    requires
        call_ensures(
            Learn::on_dhcp,
            (l, our_mac, DhcpEvent::Configured { ip, prefix_len, router }),
            r,
        ),
        l.wf(),
        l is Leasing,
    ensures
        ({
            &&& r.0 matches Learn::Asking(lease) && lease.ip == ip && lease.prefix_len
                == prefix_len && (router matches Some(gw) ==> lease.gateway_ip == gw) && (
            router is None ==> forall|i: int| 0 <= i < 4 ==> #[trigger] lease.gateway_ip@[i] == 0)
            &&& r.1 matches LearnStep::Send(f) && f@.subrange(28, 32) == ip@ && f@.subrange(38, 42)
                == r.0->Asking_0.gateway_ip@ && f@.subrange(6, 12) == our_mac@
        }),
{
    law_arp_layout(
        arp::broadcast(),
        our_mac@,
        1,
        ip@,
        seq![0u8, 0, 0, 0, 0, 0],
        r.0->Asking_0.gateway_ip@,
    );
}

/// How long a lease is waited for: two thousand million polls that bring none, and
/// then one.
pub proof fn law_lease_is_waited_for(
    l: Learn,
    our_mac: [u8; 6],
    event: DhcpEvent,
    r: (Learn, LearnStep),
)
    requires
        call_ensures(Learn::on_dhcp, (l, our_mac, event), r),
        l.wf(),
        l is Leasing,
        !(event is Configured),
    ensures
        l->Leasing_0.polls() < 2_000_000_000 ==> r.1 == LearnStep::PollDhcp
            && r.0->Leasing_0.polls() == l->Leasing_0.polls() + 1,
        l->Leasing_0.polls() >= 2_000_000_000 ==> r.1 == LearnStep::Failed(Error::DhcpTimeout),
{
}

/// How long a reply is waited for: a thousand million polls that bring none, and
/// then one. A reply is from the gateway of the lease, and gives its MAC.
pub proof fn law_reply_is_waited_for(l: Learn, frame: Option<&[u8]>, r: (Learn, LearnStep))
    requires
        call_ensures(Learn::on_frame, (l, frame), r),
        l.wf(),
        l is Resolving,
    ensures
        ({
            let gw = l->Resolving_0.gateway_ip@;
            let polls = l->Resolving_1.polls();
            let f = frame->0@;
            let answered = frame is Some && f.len() >= 42 && f[12] == 8 && f[13] == 6 && f[20] == 0
                && f[21] == 2 && f[28] == gw[0] && f[29] == gw[1] && f[30] == gw[2] && f[31]
                == gw[3];
            &&& answered ==> (r.1 matches LearnStep::Learned(n) && n.lease == l->Resolving_0
                && forall|i: int| 0 <= i < 6 ==> #[trigger] n.gateway_mac@[i] == f[22 + i])
            &&& !answered && polls < 1_000_000_000 ==> r.1 == LearnStep::PollArp
                && r.0->Resolving_1.polls() == polls + 1
            &&& !answered && polls >= 1_000_000_000 ==> r.1 == LearnStep::Failed(Error::ArpTimeout)
        }),
{
    let gw = l->Resolving_0.gateway_ip@;
    if frame is Some {
        let f = frame->0@;
        law_reply_is_told_by_its_bytes(f, gw);
        if arp::is_reply_from(f, gw) {
            let n = r.1->Learned_0;
            assert forall|i: int| 0 <= i < 6 implies #[trigger] n.gateway_mac@[i] == f[22 + i] by {
                assert(f.subrange(22, 28)[i] == f[22 + i]);
            }
        }
    }
}

/// The queues that a device grants: never more than were asked for, nor more than
/// it has of either kind, and no fewer than that forces; at least one. A device that
/// gives no number for a kind is not held to one.
pub proof fn law_queues_are_granted(cfg: Config, max_rx: u16, max_tx: u16, r: u16)
    requires
        call_ensures(Stack::plan, (&cfg, max_rx, max_tx), r),
    ensures
        ({
            let asked = if cfg.queues == 0 {
                1
            } else {
                cfg.queues as int
            };
            &&& 1 <= r <= asked
            &&& max_rx == 0 || max_tx == 0 ==> r == asked
            &&& max_rx > 0 && max_tx > 0 ==> r <= max_rx && r <= max_tx && (r == asked || r
                == max_rx || r == max_tx)
        }),
{
}

/// A pool has a buffer for every descriptor of both rings, and for everybody else
/// who may hold one, with five hundred and twelve to spare.
pub proof fn law_pool_has_enough(rx_desc: u16, rx_want: u16, r: u32)
    requires
        call_ensures(nic::rx_descriptors, (rx_desc,), rx_want),
        call_ensures(nic::pool_size, (rx_want,), r),
    ensures
        rx_want > 0,
        rx_desc > 0 ==> rx_want == rx_desc,
        rx_desc == 0 ==> rx_want == 4096,
        r - 512 == rx_want + 4096 + 64 + 32,
{
}

/// A step that goes wrong ends bringing a port up, but for asking what the device
/// grants and for reading its address.
pub proof fn law_wrong_step_ends_it(
    step: NicStep,
    queues: u16,
    went_well: bool,
    r: Result<NicStep, Error>,
)
    requires
        call_ensures(NicStep::next, (step, queues, went_well), r),
    ensures
        went_well ==> r is Ok,
        !went_well && step is CreatePool ==> r == Err::<NicStep, Error>(Error::NoMemory),
        !went_well && (step is Configure || step is SetupRx || step is SetupTx || step is Start)
            ==> r == Err::<NicStep, Error>(Error::NoDevice),
        step is AdjustDescriptors || step is ReadMac || step is Done ==> r is Ok,
{
}

/// The longest times and the largest bursts of a poll are kept, each where its name
/// says, and nothing else changes.
pub proof fn law_longest_poll_is_kept(acc: Seq<u64>, last: LastPoll)
    requires
        acc.len() == 13,
        last.iface_ns <= last.busy_ns,
    ensures
        ({
            let a = service::with_maxima(acc, last);
            &&& a.len() == 13
            &&& is_larger(a[Poll::IfaceNsMax.at()], acc[Poll::IfaceNsMax.at()], last.iface_ns)
            &&& is_larger(
                a[Poll::StepsNsMax.at()],
                acc[Poll::StepsNsMax.at()],
                (last.busy_ns - last.iface_ns) as u64,
            )
            &&& is_larger(a[Poll::RxPktsMax.at()], acc[Poll::RxPktsMax.at()], last.dev.0)
            &&& is_larger(a[Poll::TxPktsMax.at()], acc[Poll::TxPktsMax.at()], last.dev.1)
            &&& forall|i: int|
                0 <= i < 13 && i != Poll::IfaceNsMax.at() && i != Poll::StepsNsMax.at() && i
                    != Poll::RxPktsMax.at() && i != Poll::TxPktsMax.at() ==> #[trigger] a[i]
                    == acc[i]
        }),
{
}

/// Time that passes between two readings shows as that between what has elapsed at
/// them, and nothing has elapsed at the start; a millisecond is a million
/// nanoseconds.
pub proof fn law_clock_counts_from_its_start(
    start: u64,
    a: u64,
    b: u64,
    c: MonoClock,
    since_a: u64,
    since_b: u64,
    ms: i64,
    back: u64,
)
    requires
        call_ensures(MonoClock::new, (start,), c),
        call_ensures(MonoClock::elapsed_ns, (&c, a), since_a),
        call_ensures(MonoClock::elapsed_ns, (&c, b), since_b),
        call_ensures(MonoClock::elapsed_ms, (&c, a), ms),
        call_ensures(MonoClock::reading, (&c, since_a), back),
        start <= a <= b,
    ensures
        since_b - since_a == b - a,
        a == start ==> since_a == 0,
        1_000_000 * ms <= since_a < 1_000_000 * (ms + 1),
        back == a,
{
}

/// What the device counts is read in the order in which it gives it, and only where
/// it says that it did.
pub proof fn law_device_counts_are_read(rc: i32, st: &[u64; 8], r: Option<nic::NicStats>)
    requires
        call_ensures(nic::eth_stats, (rc, st), r),
    ensures
        r is Some <==> rc == 0,
        r matches Some(s) ==> seq![
            s.ipackets,
            s.opackets,
            s.ibytes,
            s.obytes,
            s.imissed,
            s.ierrors,
            s.oerrors,
            s.rx_nombuf,
        ] == st@,
{
}

/// Writing goes on behind what was written, up to the end, and stops where nothing
/// was written.
pub proof fn law_writing_goes_on(off: usize, used: usize, n: isize, r: Option<usize>)
    requires
        off <= used,
        n <= used - off,
        call_ensures(print::next_offset, (off, used, n), r),
    ensures
        r matches Some(next) ==> off < next < used && next - off == n,
        r is None <==> n <= 0 || off + n >= used,
{
}

} // verus!
