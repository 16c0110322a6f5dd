//! What holds of a worker over its dials: which ports they are from, where they go,
//! and what they leave alone.

use vstd::prelude::*;
use vstd::arithmetic::div_mod::*;

use rustls::client::ClientConfig;

use crate::device::{DpdkDevice, TxStep};
use crate::error::Error;
use crate::http::SinkView;
use crate::net::TcpState;
use crate::rss;
use crate::rss_laws;
use crate::setup_laws;
use crate::stats::CountersView;
use crate::tls;
use crate::worker;
use crate::worker::{WorkerConfig, WorkerHandle, WorkerView};

verus! {

/// One dial of a slot from the next port: what it was given, and what came of it.
pub struct Dial {
    pub slot: int,
    pub request: Seq<u8>,
    pub sink: SinkView,
    pub addresses: nat,
    pub stats: CountersView,
    pub result: Result<(), Error>,
    pub after: WorkerView,
    pub stats_after: CountersView,
    pub read: spec_fn(u64) -> bool,
}

/// The dial is one that a worker in this state makes.
pub open spec fn made_by(d: Dial, w: WorkerView) -> bool {
    worker::dial_outcome(
        w.port_taken(),
        d.stats,
        d.slot,
        w.port_due(),
        d.request,
        d.sink,
        d.addresses,
        d.result,
        d.after,
        d.stats_after,
        d.read,
    )
}

/// Dials in a row, `before[i]` being the worker at the `i`-th: in between, anything
/// that takes no port.
pub open spec fn in_a_row(before: Seq<WorkerView>, dials: Seq<Dial>) -> bool {
    &&& before.len() == dials.len()
    &&& dials.len() > 0 ==> before[0].next_port == 0
    &&& forall|i: int| 0 <= i < dials.len() ==> made_by(#[trigger] dials[i], before[i])
    &&& forall|i: int|
        0 <= i < dials.len() - 1 ==> {
            &&& (#[trigger] before[i + 1]).next_port == dials[i].after.next_port
            &&& before[i + 1].rotation == dials[i].after.rotation
        }
}

proof fn lemma_ports_so_far(before: Seq<WorkerView>, dials: Seq<Dial>, i: int)
    requires
        in_a_row(before, dials),
        0 <= i < dials.len(),
        i <= usize::MAX,
    ensures
        before[i].next_port == i,
        before[i].rotation == before[0].rotation,
    decreases i,
{
    if i > 0 {
        lemma_ports_so_far(before, dials, i - 1);
        assert(made_by(dials[i - 1], before[i - 1]));
        assert(before[i - 1 + 1].next_port == dials[i - 1].after.next_port);
    }
}

/// From a new worker on, the `i`-th dial is from the `i`-th port of the rotation,
/// and round again: that is the port of the connection, and of its socket.
pub proof fn law_dials_take_ports_in_turn(before: Seq<WorkerView>, dials: Seq<Dial>, i: int)
    requires
        in_a_row(before, dials),
        0 <= i < dials.len(),
        i <= usize::MAX,
        before[0].rotation.len() > 0,
        dials[i].result is Ok,
        before[i].slots() == before[i].conns.len(),
        0 <= dials[i].slot,
    ensures
        ({
            let port = before[0].rotation[i % before[0].rotation.len() as int];
            let d = dials[i];
            &&& d.after.conns[d.slot] matches Some(c) && c.src_port == port
            &&& d.after.socket(d.slot).local_port == Some(port)
        }),
{
    lemma_ports_so_far(before, dials, i);
    assert(made_by(dials[i], before[i]));
}

/// A worker goes through all its ports before it uses one again: any two dials that
/// are fewer apart than there are ports are from different ports, so that dialling
/// each slot once gives every slot a port of its own.
pub proof fn law_ports_are_not_used_twice_in_a_round(
    before: Seq<WorkerView>,
    dials: Seq<Dial>,
    i: int,
    j: int,
    h: WorkerHandle,
    cfg: WorkerConfig,
    config: ClientConfig,
)
    requires
        in_a_row(before, dials),
        0 <= i < j < dials.len(),
        j <= usize::MAX,
        j - i < before[0].rotation.len(),
        before[0].fresh(h, cfg, config),
        dials[i].result is Ok,
        dials[j].result is Ok,
        0 <= dials[i].slot,
        0 <= dials[j].slot,
        before[i].slots() == before[i].conns.len(),
        before[j].slots() == before[j].conns.len(),
    ensures
        dials[i].after.conns[dials[i].slot]->0.src_port != dials[j].after.conns[dials[j].slot]->0.src_port,
        before[0].slots() <= before[0].rotation.len(),
{
    law_dials_take_ports_in_turn(before, dials, i);
    law_dials_take_ports_in_turn(before, dials, j);
    worker::law_rotation(before[0], h, cfg, config);
    let n = before[0].rotation.len() as int;
    if i % n == j % n {
        lemma_fundamental_div_mod(i, n);
        lemma_fundamental_div_mod(j, n);
        let q = j / n - i / n;
        assert(j - i == n * q) by (nonlinear_arith)
            requires
                i == n * (i / n) + i % n,
                j == n * (j / n) + j % n,
                i % n == j % n,
                q == j / n - i / n,
        ;
        assert(false) by (nonlinear_arith)
            requires
                j - i == n * q,
                0 < j - i < n,
        ;
    }
    lemma_mod_bound(i, n);
    lemma_mod_bound(j, n);
}

/// Nothing but a dial takes a port.
pub proof fn law_only_dials_take_ports(
    w: WorkerView,
    slot: int,
    request: Seq<u8>,
    sink: SinkView,
    now: u64,
)
    ensures
        w.released(slot).next_port == w.next_port,
        w.released(slot).rotation == w.rotation,
        w.reused(slot, request, sink, now).next_port == w.next_port,
        w.reused(slot, request, sink, now).rotation == w.rotation,
{
}

/// A dial that succeeds leaves the socket of its slot on its way to the peer, with
/// nothing left in it from before, and in the slot a connection with the request;
/// no other slot is touched. One that does not leaves every slot as it was.
pub proof fn law_dial_goes_to_the_peer(w: WorkerView, d: Dial, k: int)
    requires
        made_by(d, w),
        0 <= d.slot < w.slots(),
        w.slots() == w.conns.len(),
        0 <= k < w.slots(),
        forall|i: int, j: int| 0 <= i < j < w.slots() ==> w.handles[i] != w.handles[j],
    ensures
        d.result is Ok ==> {
            let t = d.after.socket(d.slot);
            &&& t.state == TcpState::SynSent
            &&& t.remote == Some((w.peer.ip@, w.peer.port))
            &&& t.rx.len() == 0 && t.tx.len() == 0
            &&& t.rx_capacity == w.socket(d.slot).rx_capacity
            &&& t.tx_capacity == w.socket(d.slot).tx_capacity
            &&& d.after.conns[d.slot] matches Some(c) && c.exchange.request == d.request
                && c.exchange.sink == d.sink && c.handle == w.handles[d.slot] && c.queue_id
                == w.queue_id && (c.session is Some <==> w.peer.tls) && c.outcome is None
        },
        k != d.slot || d.result is Err ==> d.after.conns[k] == w.conns[k] && d.after.socket(k)
            == w.socket(k),
        d.after.handles == w.handles,
        d.after.peer == w.peer,
        d.result is Ok ==> w.socket(d.slot).state == TcpState::Closed || w.socket(d.slot).state
            == TcpState::TimeWait,
        d.result is Err ==> d.stats_after == d.stats,
        d.result is Ok ==> d.stats_after.requests_served == d.stats.requests_served.wrapping_add(1)
            && d.stats_after.requests_reused == d.stats.requests_reused,
{
}

/// A worker has eight ports per connection to go through, as far as its queue has
/// them, and as many slots as connections, as far as it has ports.
pub proof fn law_how_many_ports(
    w: WorkerView,
    h: WorkerHandle,
    cfg: WorkerConfig,
    config: ClientConfig,
)
    requires
        w.fresh(h, cfg, config),
        8 * cfg.conns <= usize::MAX,
    ensures
        ({
            let owned = w.device.owned->0.len();
            &&& w.rotation.len() == (if owned < 8 * cfg.conns {
                owned as int
            } else {
                8 * cfg.conns
            })
            &&& w.slots() == (if owned < cfg.conns {
                owned as int
            } else {
                cfg.conns as int
            })
        }),
{
    let owned = h.steering().ports_of(cfg.peer.ip@, cfg.peer.port, h.net().ip@, h.queue());
    rss::law_spread_takes_enough(owned, cfg.conns as nat);
    rss::law_spread_takes_enough(owned, worker::rotation_len(cfg.conns));
}

/// Tearing a slot down closes its socket and empties it, and leaves the others as
/// they were.
pub proof fn law_release_is_local(w: WorkerView, slot: int, k: int)
    requires
        w.slots() == w.conns.len(),
        0 <= k < w.slots(),
        forall|i: int, j: int| 0 <= i < j < w.slots() ==> w.handles[i] != w.handles[j],
    ensures
        k == slot ==> w.released(slot).conns[k] is None && w.released(slot).socket(k).state
            == TcpState::Closed,
        k != slot ==> w.released(slot).conns[k] == w.conns[k] && w.released(slot).socket(k)
            == w.socket(k),
{
}

/// A kept connection goes on, on its own socket and from its own port, with the new
/// request; no socket and no other slot is touched.
pub proof fn law_reuse_is_local(
    w: WorkerView,
    slot: int,
    request: Seq<u8>,
    sink: SinkView,
    now: u64,
    k: int,
)
    requires
        w.slots() == w.conns.len(),
        0 <= slot < w.slots(),
        w.conns[slot] is Some,
        0 <= k < w.slots(),
    ensures
        ({
            let after = w.reused(slot, request, sink, now);
            let c = w.conns[slot]->0;
            &&& after.sockets == w.sockets
            &&& k != slot ==> after.conns[k] == w.conns[k]
            &&& after.conns[slot] matches Some(n) && n.exchange.request == request
                && n.exchange.sink == sink && n.handle == c.handle && n.src_port == c.src_port
                && n.session == c.session && n.outcome is None
        }),
{
}

/// A new worker: every socket closed and empty, with the buffers that were asked for
/// and no wait before it acknowledges, no connection, and nothing sent or received.
/// Its ports are the ephemeral ones that the peer's answers are steered to its queue
/// for.
pub proof fn law_new_worker(
    w: WorkerView,
    h: WorkerHandle,
    cfg: WorkerConfig,
    config: ClientConfig,
    k: int,
    port: u16,
)
    requires
        w.fresh(h, cfg, config),
        0 <= k < w.slots(),
    ensures
        ({
            let t = w.socket(k);
            let ports = w.device.owned->0;
            &&& t.state == TcpState::Closed && t.rx.len() == 0 && t.tx.len() == 0
            &&& t.rx_capacity == cfg.rx_buffer && t.tx_capacity == cfg.tx_buffer
            &&& t.ack_delay_us is None && t.remote is None && t.local_port is None
            &&& w.conns[k] is None
            &&& w.peer == cfg.peer && w.config == config && w.queue_id == h.queue()
            &&& w.device.queue_id == h.queue() && w.device.rx.len() == 0 && w.device.tx.len() == 0
            &&& ports.contains(port) <==> port >= 49152 && h.steering().queue_for(
                cfg.peer.ip@,
                cfg.peer.port,
                h.net().ip@,
                port,
            ) == h.queue()
            &&& w.rotation.contains(port) ==> ports.contains(port)
        }),
{
    let owned = h.steering().ports_of(cfg.peer.ip@, cfg.peer.port, h.net().ip@, h.queue());
    rss_laws::law_owned_ports(
        h.steering(),
        cfg.peer.ip@,
        cfg.peer.port,
        h.net().ip@,
        h.queue(),
        port,
    );
    assert(w.handles[k] == w.handles[k]);
    let want = worker::rotation_len(cfg.conns);
    if w.rotation.contains(port) {
        let j = choose|j: int| 0 <= j < w.rotation.len() && w.rotation[j] == port;
        rss::law_spread_takes_enough(owned, want);
        lemma_spread_is_of(owned, want, j);
    }
}

proof fn lemma_spread_is_of(s: Seq<u16>, want: nat, j: int)
    requires
        0 < want,
        0 <= j < rss::spread_of(s, want).len(),
    ensures
        s.contains(rss::spread_of(s, want)[j]),
{
    let n = s.len() as int;
    let m = want as int;
    rss::law_spread_takes_enough(s, want);
    rss_laws::law_spread_is_even(s, want, j);
    if want <= s.len() {
        assert(0 <= j * (n / m) < n) by (nonlinear_arith)
            requires
                0 <= j < m,
                0 < m <= n,
        ;
    }
}

/// The first thing that a new worker receives tells it where the gateway is: a reply
/// to it, from the gateway's address, with the gateway's MAC.
pub proof fn law_new_worker_knows_the_gateway(
    w: WorkerView,
    h: WorkerHandle,
    cfg: WorkerConfig,
    config: ClientConfig,
)
    requires
        w.fresh(h, cfg, config),
    ensures
        ({
            let f = w.device.synth->0;
            &&& w.device.synth is Some
            &&& f.len() == 42
            &&& f.subrange(0, 6) == h.net().mac@
            &&& f[12] == 8 && f[13] == 6
            &&& f[20] == 0 && f[21] == 2
            &&& f.subrange(22, 28) == h.net().gateway_mac@
            &&& f.subrange(28, 32) == h.net().gateway_ip@
            &&& f.subrange(32, 38) == h.net().mac@
            &&& f.subrange(38, 42) == h.net().ip@
        }),
{
    let n = h.net();
    let f = w.device.synth->0;
    setup_laws::law_arp_layout(n.mac@, n.gateway_mac@, 2, n.gateway_ip@, n.mac@, n.ip@);
    assert(f.subrange(12, 20)[0] == f[12]);
    assert(f.subrange(12, 20)[1] == f[13]);
}

/// A session is begun with the worker's configuration and for the peer's host, and
/// only with a peer that speaks TLS.
pub proof fn law_session_is_with_the_host(w: WorkerView, d: Dial)
    requires
        made_by(d, w),
        d.result is Ok,
        0 <= d.slot < w.slots(),
        w.slots() == w.conns.len(),
    ensures
        d.after.conns[d.slot] is Some,
        ({
            let c = d.after.conns[d.slot]->0;
            &&& !w.peer.tls ==> c.session is None
            &&& w.peer.tls ==> (tls::server_name_of(w.peer.host@) matches Some(name) && c.session
                == Some((w.config, name)))
        }),
{
}

/// A poll leaves alone every slot that is empty, or whose connection has come to its
/// end, and its socket too.
pub proof fn law_poll_leaves_the_idle_alone(
    before: WorkerView,
    stats: CountersView,
    after: WorkerView,
    stats_after: CountersView,
    now_ns: u64,
    k: int,
)
    requires
        worker::steps_outcome(before, stats, after, stats_after, now_ns),
        0 <= k < before.slots(),
        before.conns[k] is None || before.conns[k]->0.outcome is Some,
    ensures
        after.conns[k] == before.conns[k],
        after.socket(k) == before.socket(k),
{
    let counts = choose|counts: Seq<CountersView>|
        {
            &&& counts.len() == before.slots() + 1
            &&& counts[0] == stats
            &&& counts.last() == stats_after
            &&& forall|k: int|
                0 <= k < before.slots() ==> #[trigger] worker::slot_stepped(
                    before,
                    after,
                    k,
                    counts[k],
                    counts[k + 1],
                    now_ns,
                )
        };
    assert(worker::slot_stepped(before, after, k, counts[k], counts[k + 1], now_ns));
}

/// A poll takes from the socket of every open connection all that it received,
/// unless it gives that connection up.
pub proof fn law_poll_reads_everything(
    before: WorkerView,
    stats: CountersView,
    after: WorkerView,
    stats_after: CountersView,
    now_ns: u64,
    k: int,
)
    requires
        worker::steps_outcome(before, stats, after, stats_after, now_ns),
        0 <= k < before.slots(),
        before.conns[k] is Some,
        before.conns[k]->0.outcome is None,
    ensures
        after.conns[k] is Some,
        after.socket(k).rx.len() == 0 || (after.socket(k).state == TcpState::Closed
            && before.socket(k).state == TcpState::SynSent),
        before.socket(k).tx.is_prefix_of(after.socket(k).tx),
{
    let counts = choose|counts: Seq<CountersView>|
        {
            &&& counts.len() == before.slots() + 1
            &&& counts[0] == stats
            &&& counts.last() == stats_after
            &&& forall|k: int|
                0 <= k < before.slots() ==> #[trigger] worker::slot_stepped(
                    before,
                    after,
                    k,
                    counts[k],
                    counts[k + 1],
                    now_ns,
                )
        };
    assert(worker::slot_stepped(before, after, k, counts[k], counts[k + 1], now_ns));
}

/// A frame is written while fewer than 32 wait; then the 32 are pushed out, ten
/// thousand times before the frame is given up.
pub proof fn law_full_batch_is_waited_on(d: DpdkDevice, spins: u32, r: TxStep)
    requires
        d.wf(),
        call_ensures(DpdkDevice::next_tx, (&d, spins), r),
    ensures
        d@.tx.len() < 32 ==> r == TxStep::Write,
        d@.tx.len() >= 32 && spins < 10_000 ==> r == TxStep::Flush,
        d@.tx.len() >= 32 && spins >= 10_000 ==> r == TxStep::Drop,
{
}

} // verus!
