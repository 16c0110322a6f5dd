//! How the reported counters relate to each other.

use vstd::prelude::*;
use vstd::arithmetic::power2::*;

use crate::nic::NicStats;
use crate::stats;
use crate::stats::{CountersView, Poll, Stats};

verus! {

/// Anything that is counted.
pub enum Event {
    Misrouted,
    TxAllocFail,
    TxHeld(u64),
    Established(u64),
    Failed,
    Dialled(u64),
    Started(bool),
    Retried,
    Finished { queue: u64, wire: u64, bytes: u64, ttfb: Option<u64>, xfer: Option<u64> },
    GetStarted(u64),
    GetFinished { total: u64, wake: u64, now: u64 },
    /// A worker's counts of its turns moved to the stack's.
    Flushed(Seq<u64>),
    /// What was counted elsewhere taken in.
    Absorbed(CountersView),
}

/// The counters after an event.
pub open spec fn after(c: CountersView, e: Event) -> CountersView {
    match e {
        Event::Misrouted => CountersView {
            misrouted_drops: c.misrouted_drops.wrapping_add(1),
            ..c
        },
        Event::TxAllocFail => CountersView { tx_alloc_fail: c.tx_alloc_fail.wrapping_add(1), ..c },
        Event::TxHeld(n) => CountersView { tx_burst_fail: c.tx_burst_fail.wrapping_add(n), ..c },
        Event::Established(ns) => c.with_established(ns),
        Event::Failed => c.with_failed(),
        Event::Dialled(ns) => c.with_dialled(ns),
        Event::Started(reused) => c.with_request_started(reused),
        Event::Retried => c.with_retried(),
        Event::Finished { queue, wire, bytes, ttfb, xfer } => c.with_request_finished(
            queue,
            wire,
            bytes,
            ttfb,
            xfer,
        ),
        Event::GetStarted(now) => c.with_get_started(now),
        Event::GetFinished { total, wake, now } => c.with_get_finished(total, wake, now),
        Event::Flushed(a) => CountersView { poll: stats::poll_merged(c.poll, a), ..c },
        Event::Absorbed(o) => c.absorbed(o),
    }
}

/// The counters after some events, from the start.
pub open spec fn counted(events: Seq<Event>) -> CountersView
    decreases events.len(),
{
    if events.len() == 0 {
        stats::blank_counters()
    } else {
        after(counted(events.drop_last()), events.last())
    }
}

/// How a worker's counts of its turns relate: no more of them were active, or
/// late, than there were, and no more time was spent on active ones than on all.
pub open spec fn poll_related(a: Seq<u64>) -> bool {
    &&& a.len() == stats::POLL_N
    &&& a[Poll::ActiveIters.at()] <= a[Poll::Iters.at()]
    &&& a[Poll::GapsOver1ms.at()] <= a[Poll::Iters.at()]
    &&& a[Poll::WorkNs.at()] <= a[Poll::BusyNs.at()]
}

/// How the counters relate: requests on kept connections are requests, a request
/// is timed at most once, every answered call was woken once, and the longest
/// wake is one of them all.
pub open spec fn related(c: CountersView) -> bool {
    &&& c.requests_reused <= c.requests_served
    &&& c.ttfb_n <= c.requests_done
    &&& c.xfer_n <= c.requests_done
    &&& c.wake_n == c.get_calls
    &&& c.wake_ns_max <= c.wake_ns_total
    &&& poll_related(c.poll)
}

/// No count went down, as one that wraps would.
pub open spec fn unwrapped(c: CountersView, d: CountersView) -> bool {
    &&& c.requests_served <= d.requests_served
    &&& c.requests_done <= d.requests_done
    &&& c.wake_ns_total <= d.wake_ns_total
    &&& poll_unwrapped(c.poll, d.poll)
}

/// No sum among a worker's counts went down, as one that wraps would.
pub open spec fn poll_unwrapped(a: Seq<u64>, b: Seq<u64>) -> bool {
    a[Poll::Iters.at()] <= b[Poll::Iters.at()] && a[Poll::BusyNs.at()] <= b[Poll::BusyNs.at()]
}

/// What an event brings along from elsewhere relates, too.
pub open spec fn fair(e: Event) -> bool {
    match e {
        Event::Flushed(a) => poll_related(a),
        Event::Absorbed(o) => related(o),
        _ => true,
    }
}

/// A worker's counts relate from the start, and go on to do so over every turn and
/// every maximum, as long as none wraps.
pub proof fn law_turns_keep_related(
    a: Seq<u64>,
    gap_ns: u64,
    busy_ns: u64,
    active: bool,
    k: Poll,
    n: u64,
)
    requires
        poll_related(a),
    ensures
        poll_related(stats::blank_poll()),
        poll_unwrapped(a, stats::poll_tick(a, gap_ns, busy_ns, active)) ==> poll_related(
            stats::poll_tick(a, gap_ns, busy_ns, active),
        ),
        k.at() > stats::POLL_LAST_SUM ==> poll_related(stats::poll_max(a, k, n)),
{
}

/// The counters relate after every event, as long as none wraps.
pub proof fn law_event_keeps_related(c: CountersView, e: Event)
    requires
        related(c),
        fair(e),
        unwrapped(c, after(c, e)),
    ensures
        related(after(c, e)),
{
}

/// What is reported relates, whatever was counted, as long as no counter wrapped:
/// requests on kept connections are requests, a request is timed at most once,
/// every answered call was woken once, and of the turns of the worker loop no more
/// were active, or late, than there were.
pub proof fn law_reported_counters_relate(events: Seq<Event>, nic: NicStats)
    requires
        forall|i: int| 0 <= i < events.len() ==> fair(#[trigger] events[i]),
        forall|i: int|
            0 <= i < events.len() ==> unwrapped(
                counted(events.take(i)),
                after(counted(events.take(i)), #[trigger] events[i]),
            ),
    ensures
        related(counted(events)),
        ({
            let s = stats::reported(counted(events), nic);
            &&& s.requests_reused <= s.requests_served
            &&& s.ttfb_n <= s.requests_done
            &&& s.xfer_n <= s.requests_done
            &&& s.wake_n == s.get_calls
            &&& s.wake_ns_max <= s.wake_ns_total
            &&& s.poll_active_iters <= s.poll_iters
            &&& s.poll_gaps_over_1ms <= s.poll_iters
            &&& s.poll_work_ns <= s.poll_busy_ns
        }),
    decreases events.len(),
{
    if events.len() > 0 {
        let before = events.drop_last();
        let n = events.len() - 1;
        assert forall|i: int| 0 <= i < before.len() implies fair(#[trigger] before[i]) by {
            assert(fair(events[i]));
        }
        assert forall|i: int| 0 <= i < before.len() implies unwrapped(
            counted(before.take(i)),
            after(counted(before.take(i)), #[trigger] before[i]),
        ) by {
            assert(before.take(i) == events.take(i));
            assert(events[i] == before[i]);
        }
        law_reported_counters_relate(before, nic);
        assert(events.take(n) == before);
        assert(events[n] == events.last());
        law_event_keeps_related(counted(before), events.last());
    }
}

/// Each thing that is counted shows in the report where its name says, and nowhere
/// else: what is reported before and after differs by it alone.
pub proof fn law_each_event_shows(c: CountersView, nic: NicStats, n: u64, reused: bool)
    ensures
        ({
            let s = stats::reported(c, nic);
            &&& stats::reported(after(c, Event::Misrouted), nic) == (Stats {
                misrouted_drops: s.misrouted_drops.wrapping_add(1),
                ..s
            })
            &&& stats::reported(after(c, Event::TxAllocFail), nic) == (Stats {
                tx_alloc_fail: s.tx_alloc_fail.wrapping_add(1),
                ..s
            })
            &&& stats::reported(after(c, Event::TxHeld(n)), nic) == (Stats {
                tx_burst_fail: s.tx_burst_fail.wrapping_add(n),
                ..s
            })
            &&& stats::reported(after(c, Event::Failed), nic) == (Stats {
                conns_failed: s.conns_failed.wrapping_add(1),
                ..s
            })
            &&& stats::reported(after(c, Event::Retried), nic) == (Stats {
                requests_retried: s.requests_retried.wrapping_add(1),
                ..s
            })
            &&& stats::reported(after(c, Event::Started(reused)), nic) == (Stats {
                requests_served: s.requests_served.wrapping_add(1),
                requests_reused: if reused {
                    s.requests_reused.wrapping_add(1)
                } else {
                    s.requests_reused
                },
                ..s
            })
            &&& stats::reported(after(c, Event::GetStarted(n)), nic) == s
            &&& stats::reported(after(c, Event::Established(n)), nic) == (Stats {
                conns_established: s.conns_established.wrapping_add(1),
                setup: stats::distribution(c.setup.recorded(n)),
                ..s
            })
            &&& stats::reported(after(c, Event::Dialled(n)), nic) == (Stats {
                dial: stats::distribution(c.dial.recorded(n)),
                ..s
            })
        }),
{
}

/// A request that is over shows with its times and its bytes, and nowhere else.
pub proof fn law_finished_request_shows(
    c: CountersView,
    nic: NicStats,
    queue: u64,
    wire: u64,
    bytes: u64,
    ttfb: u64,
    xfer: u64,
)
    ensures
        ({
            let s = stats::reported(c, nic);
            let timed = Event::Finished { queue, wire, bytes, ttfb: Some(ttfb), xfer: Some(xfer) };
            let untimed = Event::Finished { queue, wire, bytes, ttfb: None, xfer: None };
            let over = Stats {
                requests_done: s.requests_done.wrapping_add(1),
                queue_ns_total: s.queue_ns_total.wrapping_add(queue),
                wire_ns_total: s.wire_ns_total.wrapping_add(wire),
                body_bytes: s.body_bytes.wrapping_add(bytes),
                ..s
            };
            &&& stats::reported(after(c, untimed), nic) == over
            &&& stats::reported(after(c, timed), nic) == (Stats {
                ttfb_ns_total: s.ttfb_ns_total.wrapping_add(ttfb),
                ttfb_n: s.ttfb_n.wrapping_add(1),
                xfer_ns_total: s.xfer_ns_total.wrapping_add(xfer),
                xfer_n: s.xfer_n.wrapping_add(1),
                ..over
            })
        }),
{
}

/// An answered call shows with its time and its wake, and the last of several that
/// wait together with the time since the first began to wait.
pub proof fn law_answered_call_shows(
    c: CountersView,
    nic: NicStats,
    total: u64,
    wake: u64,
    now: u64,
)
    requires
        c.active_since_ns <= now,
    ensures
        ({
            let s = stats::reported(c, nic);
            stats::reported(after(c, Event::GetFinished { total, wake, now }), nic) == (Stats {
                get_calls: s.get_calls.wrapping_add(1),
                get_ns_total: s.get_ns_total.wrapping_add(total),
                wake_n: s.wake_n.wrapping_add(1),
                wake_ns_total: s.wake_ns_total.wrapping_add(wake),
                wake_ns_max: if s.wake_ns_max < wake {
                    wake
                } else {
                    s.wake_ns_max
                },
                active_ns_total: if c.in_flight == 1 {
                    s.active_ns_total.wrapping_add((now - c.active_since_ns) as u64)
                } else {
                    s.active_ns_total
                },
                ..s
            })
        }),
{
}

/// The turns of a worker show once they are flushed: sums add up, maxima are kept,
/// each where its name says.
pub proof fn law_flushed_turns_show(c: CountersView, nic: NicStats, a: Seq<u64>)
    requires
        c.poll.len() == 13,
        a.len() == 13,
    ensures
        ({
            let s = stats::reported(c, nic);
            let t = stats::reported(after(c, Event::Flushed(a)), nic);
            &&& t.poll_iters == s.poll_iters.wrapping_add(a[Poll::Iters.at()])
            &&& t.poll_gap_ns_total == s.poll_gap_ns_total.wrapping_add(a[Poll::GapNsTotal.at()])
            &&& t.poll_gaps_over_1ms == s.poll_gaps_over_1ms.wrapping_add(a[Poll::GapsOver1ms.at()])
            &&& t.poll_busy_ns == s.poll_busy_ns.wrapping_add(a[Poll::BusyNs.at()])
            &&& t.poll_active_iters == s.poll_active_iters.wrapping_add(a[Poll::ActiveIters.at()])
            &&& t.poll_work_ns == s.poll_work_ns.wrapping_add(a[Poll::WorkNs.at()])
            &&& is_larger(t.poll_gap_ns_max, s.poll_gap_ns_max, a[Poll::GapNsMax.at()])
            &&& is_larger(t.poll_busy_ns_max, s.poll_busy_ns_max, a[Poll::BusyNsMax.at()])
            &&& is_larger(t.poll_loop_ns_max, s.poll_loop_ns_max, a[Poll::LoopNsMax.at()])
            &&& is_larger(t.iface_ns_max, s.iface_ns_max, a[Poll::IfaceNsMax.at()])
            &&& is_larger(t.steps_ns_max, s.steps_ns_max, a[Poll::StepsNsMax.at()])
            &&& is_larger(t.rx_pkts_max, s.rx_pkts_max, a[Poll::RxPktsMax.at()])
            &&& is_larger(t.tx_pkts_max, s.tx_pkts_max, a[Poll::TxPktsMax.at()])
            &&& t.requests_served == s.requests_served && t.requests_done == s.requests_done
        }),
{
}

/// The first is the larger of the others.
pub open spec fn is_larger(m: u64, a: u64, b: u64) -> bool {
    m >= a && m >= b && (m == a || m == b)
}

/// One turn of a worker: it is counted, its gap and its work are added, and the
/// longest of each is kept.
pub proof fn law_one_turn(a: Seq<u64>, gap: u64, busy: u64, active: bool)
    requires
        a.len() == 13,
    ensures
        ({
            let b = stats::poll_tick(a, gap, busy, active);
            &&& b.len() == 13
            &&& b[Poll::Iters.at()] == a[Poll::Iters.at()].wrapping_add(1)
            &&& b[Poll::GapNsTotal.at()] == a[Poll::GapNsTotal.at()].wrapping_add(gap)
            &&& is_larger(b[Poll::GapNsMax.at()], a[Poll::GapNsMax.at()], gap)
            &&& b[Poll::GapsOver1ms.at()] == (if gap > 1_000_000 {
                a[Poll::GapsOver1ms.at()].wrapping_add(1)
            } else {
                a[Poll::GapsOver1ms.at()]
            })
            &&& b[Poll::BusyNs.at()] == a[Poll::BusyNs.at()].wrapping_add(busy)
            &&& b[Poll::ActiveIters.at()] == (if active {
                a[Poll::ActiveIters.at()].wrapping_add(1)
            } else {
                a[Poll::ActiveIters.at()]
            })
            &&& b[Poll::WorkNs.at()] == (if active {
                a[Poll::WorkNs.at()].wrapping_add(busy)
            } else {
                a[Poll::WorkNs.at()]
            })
            &&& is_larger(b[Poll::BusyNsMax.at()], a[Poll::BusyNsMax.at()], busy)
            &&& gap >= busy ==> is_larger(
                b[Poll::LoopNsMax.at()],
                a[Poll::LoopNsMax.at()],
                (gap - busy) as u64,
            )
            &&& b[Poll::IfaceNsMax.at()] == a[Poll::IfaceNsMax.at()]
            &&& b[Poll::StepsNsMax.at()] == a[Poll::StepsNsMax.at()]
            &&& b[Poll::RxPktsMax.at()] == a[Poll::RxPktsMax.at()]
            &&& b[Poll::TxPktsMax.at()] == a[Poll::TxPktsMax.at()]
        }),
{
}

/// What the device counts shows as it is.
pub proof fn law_device_counters_show(c: CountersView, nic: NicStats)
    ensures
        ({
            let s = stats::reported(c, nic);
            &&& s.nic_ipackets == nic.ipackets
            &&& s.nic_ibytes == nic.ibytes
            &&& s.nic_imissed == nic.imissed
            &&& s.nic_ierrors == nic.ierrors
            &&& s.nic_rx_nombuf == nic.rx_nombuf
        }),
{
}

/// How many of the samples are below so many microseconds.
pub open spec fn faster_than(samples_ns: Seq<u64>, us: nat) -> nat
    decreases samples_ns.len(),
{
    if samples_ns.len() == 0 {
        0
    } else {
        faster_than(samples_ns.drop_last(), us) + (if samples_ns.last() as int / 1000 < us {
            1nat
        } else {
            0
        })
    }
}

/// The histogram tells how many samples took less than each power of two of
/// microseconds: those in the buckets up to that one.
pub proof fn law_buckets_count_samples(samples_ns: Seq<u64>, k: int)
    requires
        samples_ns.len() <= u64::MAX,
        0 <= k < 31,
    ensures
        stats::below(stats::histogram_of(samples_ns).buckets, k + 1) == faster_than(
            samples_ns,
            pow2(k as nat),
        ),
    decreases samples_ns.len(),
{
    if samples_ns.len() == 0 {
        stats::lemma_below_blank(k + 1);
    } else {
        let before = samples_ns.drop_last();
        let ns = samples_ns.last();
        law_buckets_count_samples(before, k);
        let h = stats::histogram_of(before);
        stats::law_histogram_counts(before);
        let b = stats::bucket_of(ns / 1_000) as int;
        stats::law_bucket_bounds(ns / 1_000);
        stats::lemma_bucket_fits(h, b);
        stats::lemma_below_update(h.buckets, b, h.buckets[b].wrapping_add(1), k + 1);
        if b <= k {
            if b < k {
                lemma_pow2_strictly_increases(b as nat, k as nat);
            }
        } else {
            if b - 1 > k {
                lemma_pow2_strictly_increases(k as nat, (b - 1) as nat);
            }
        }
    }
}

/// A percentile stands for the sample of its rank: that many of the samples, and
/// no fewer, are in the buckets up to its own, and it lies in that bucket, as far
/// into it as the sample is among those in the bucket.
pub proof fn law_percentile_is_of_its_rank(h: Seq<u64>, p: u64) -> (r: (nat, int))
    requires
        stats::below(h, 32) > 0,
        1 <= p <= 100,
    ensures
        ({
            let count = stats::below(h, 32);
            let (t, k) = r;
            let v = stats::percentile_of(h, p);
            &&& 1 <= t <= count
            &&& 100 * (t - 1) < count * p <= 100 * t
            &&& 0 <= k < 32
            &&& stats::below(h, k) < t <= stats::below(h, k + 1)
            &&& k == 0 ==> v == 0
            &&& k > 0 ==> {
                let lo = pow2((k - 1) as nat);
                &&& lo <= v < 2 * lo
                &&& (v - lo) * h[k] <= lo * (t - stats::below(h, k) - 1) < (v - lo + 1) * h[k]
            }
        }),
{
    let count = stats::below(h, 32);
    let t = stats::rank(count, p);
    assert(count * p >= 1 && count * p <= 100 * count) by (nonlinear_arith)
        requires
            count >= 1,
            1 <= p <= 100,
    ;
    assert(1 <= t <= count);
    stats::lemma_rank_bucket(h, t, 32);
    let k = choose|k: int| stats::holds_rank(h, t, k);
    stats::lemma_interpolated(h, t, k);
    if k > 0 {
        let lo = pow2((k - 1) as nat) as int;
        let d = t - stats::below(h, k) - 1;
        let n = h[k] as int;
        let q = lo * d / n;
        assert(q * n <= lo * d < (q + 1) * n) by (nonlinear_arith)
            requires
                n > 0,
                q == lo * d / n,
        ;
        assert(stats::percentile_of(h, p) == lo + q);
    }
    (t, k)
}

/// All of the samples together.
pub open spec fn sum(samples_ns: Seq<u64>) -> nat
    decreases samples_ns.len(),
{
    if samples_ns.len() == 0 {
        0
    } else {
        sum(samples_ns.drop_last()) + samples_ns.last() as nat
    }
}

proof fn lemma_total(samples_ns: Seq<u64>)
    requires
        sum(samples_ns) <= u64::MAX,
    ensures
        stats::histogram_of(samples_ns).total_ns == sum(samples_ns),
    decreases samples_ns.len(),
{
    if samples_ns.len() > 0 {
        lemma_total(samples_ns.drop_last());
    }
}

/// What is reported of samples: how many there are, the largest, and their average,
/// to the microsecond below; and of the percentiles, that the largest bounds them.
pub proof fn law_distribution_of_samples(samples_ns: Seq<u64>)
    requires
        0 < samples_ns.len() <= u64::MAX,
        sum(samples_ns) <= u64::MAX,
    ensures
        ({
            let d = stats::distribution(stats::histogram_of(samples_ns));
            let n = samples_ns.len() as int;
            &&& d.n == n
            &&& d.us_avg * 1000 * n <= sum(samples_ns) < (d.us_avg + 1) * 1000 * n
            &&& forall|i: int| 0 <= i < n ==> #[trigger] samples_ns[i] as int / 1000 <= d.us_max
            &&& exists|i: int| 0 <= i < n && #[trigger] samples_ns[i] as int / 1000 == d.us_max
            &&& d.us_p50 <= d.us_p90 <= d.us_max
        }),
{
    let h = stats::histogram_of(samples_ns);
    let d = stats::distribution(h);
    stats::law_histogram_counts(samples_ns);
    stats::law_dist_ordered(h);
    lemma_total(samples_ns);
    let n = samples_ns.len() as int;
    let s = sum(samples_ns) as int;
    let q = s / n;
    let a = q / 1000;
    assert(q * n <= s < (q + 1) * n && 0 <= q <= s) by (nonlinear_arith)
        requires
            n > 0,
            s >= 0,
            q == s / n,
    ;
    assert(a * 1000 <= q < (a + 1) * 1000);
    assert(a * 1000 * n <= q * n) by (nonlinear_arith)
        requires
            a * 1000 <= q,
            n > 0,
    ;
    assert((q + 1) * n <= (a + 1) * 1000 * n) by (nonlinear_arith)
        requires
            q + 1 <= (a + 1) * 1000,
            n > 0,
    ;
    assert(d.us_avg == a);
    let i = samples_ns.index_of(h.max_ns);
    assert(samples_ns[i] as int / 1000 == d.us_max);
    assert forall|i: int| 0 <= i < n implies #[trigger] samples_ns[i] as int / 1000 <= d.us_max by {
        assert(samples_ns[i] <= h.max_ns);
    }
}

/// The median and the 90th percentile are reported as they are, or as the largest
/// sample where that is less.
pub proof fn law_percentiles_are_reported(h: stats::HistView)
    requires
        h.buckets.len() == 32,
    ensures
        ({
            let d = stats::distribution(h);
            let top = (h.max_ns / 1000) as int;
            &&& is_smaller(d.us_p50 as int, stats::percentile_of(h.buckets, 50) as int, top)
            &&& is_smaller(d.us_p90 as int, stats::percentile_of(h.buckets, 90) as int, top)
        }),
{
}

/// The first is the smaller of the others.
pub open spec fn is_smaller(m: int, a: int, b: int) -> bool {
    m <= a && m <= b && (m == a || m == b)
}

/// The shape of counters: as many buckets and as many poll counts as there are.
pub open spec fn shaped(c: CountersView) -> bool {
    c.setup.buckets.len() == 32 && c.dial.buckets.len() == 32 && c.poll.len() == 13
}

/// Before anything happens everything that is reported is zero.
pub proof fn law_new_counters_are_zero()
    ensures
        ({
            let s = stats::reported(
                stats::blank_counters(),
                NicStats {
                    ipackets: 0,
                    opackets: 0,
                    ibytes: 0,
                    obytes: 0,
                    imissed: 0,
                    ierrors: 0,
                    oerrors: 0,
                    rx_nombuf: 0,
                },
            );
            &&& s.misrouted_drops == 0 && s.tx_alloc_fail == 0 && s.tx_burst_fail == 0
            &&& s.conns_established == 0 && s.conns_failed == 0
            &&& s.setup.n == 0 && s.setup.us_avg == 0 && s.setup.us_p50 == 0 && s.setup.us_p90 == 0
                && s.setup.us_max == 0
            &&& s.dial == s.setup
            &&& s.requests_served == 0 && s.requests_reused == 0 && s.requests_retried == 0
            &&& s.requests_done == 0 && s.queue_ns_total == 0 && s.wire_ns_total == 0
            &&& s.body_bytes == 0 && s.ttfb_ns_total == 0 && s.ttfb_n == 0
            &&& s.xfer_ns_total == 0 && s.xfer_n == 0
            &&& s.poll_iters == 0 && s.poll_gap_ns_total == 0 && s.poll_gap_ns_max == 0
            &&& s.poll_gaps_over_1ms == 0 && s.poll_busy_ns == 0 && s.poll_active_iters == 0
            &&& s.poll_work_ns == 0 && s.poll_busy_ns_max == 0 && s.poll_loop_ns_max == 0
            &&& s.iface_ns_max == 0 && s.steps_ns_max == 0 && s.rx_pkts_max == 0
            &&& s.tx_pkts_max == 0 && s.wake_n == 0 && s.wake_ns_total == 0 && s.wake_ns_max == 0
            &&& s.get_calls == 0 && s.get_ns_total == 0 && s.active_ns_total == 0
        }),
{
    stats::lemma_below_blank(32);
}

/// Taking in counters that nothing happened to changes nothing.
pub proof fn law_absorbing_nothing(c: CountersView)
    requires
        shaped(c),
    ensures
        c.absorbed(stats::blank_counters()) == c,
{
    let d = c.absorbed(stats::blank_counters());
    assert(d.setup.buckets == c.setup.buckets);
    assert(d.dial.buckets == c.dial.buckets);
    assert(d.poll == c.poll);
}

/// It makes no difference where a thing is counted: what happens elsewhere and is
/// then taken in counts as if it had happened here.
pub proof fn law_absorbing_is_counting(c: CountersView, o: CountersView, e: Event)
    requires
        shaped(c),
        shaped(o),
        !(e is GetStarted || e is GetFinished || e is Absorbed),
        e matches Event::Flushed(a) ==> a.len() == 13,
    ensures
        c.absorbed(after(o, e)) == after(c.absorbed(o), e),
{
    match e {
        Event::Established(ns) => {
            lemma_merged_recorded(c.setup, o.setup, ns);
            lemma_wraps(c.conns_established, o.conns_established, 1);
        },
        Event::Dialled(ns) => {
            lemma_merged_recorded(c.dial, o.dial, ns);
        },
        Event::Flushed(a) => {
            lemma_merged_flush(c.poll, o.poll, a);
        },
        Event::Misrouted => lemma_wraps(c.misrouted_drops, o.misrouted_drops, 1),
        Event::TxAllocFail => lemma_wraps(c.tx_alloc_fail, o.tx_alloc_fail, 1),
        Event::TxHeld(n) => lemma_wraps(c.tx_burst_fail, o.tx_burst_fail, n),
        Event::Failed => lemma_wraps(c.conns_failed, o.conns_failed, 1),
        Event::Retried => lemma_wraps(c.requests_retried, o.requests_retried, 1),
        Event::Started(_) => {
            lemma_wraps(c.requests_served, o.requests_served, 1);
            lemma_wraps(c.requests_reused, o.requests_reused, 1);
        },
        Event::Finished { queue, wire, bytes, ttfb, xfer } => {
            lemma_wraps(c.requests_done, o.requests_done, 1);
            lemma_wraps(c.queue_ns_total, o.queue_ns_total, queue);
            lemma_wraps(c.wire_ns_total, o.wire_ns_total, wire);
            lemma_wraps(c.body_bytes, o.body_bytes, bytes);
            if let Some(t) = ttfb {
                lemma_wraps(c.ttfb_ns_total, o.ttfb_ns_total, t);
                lemma_wraps(c.ttfb_n, o.ttfb_n, 1);
            }
            if let Some(t) = xfer {
                lemma_wraps(c.xfer_ns_total, o.xfer_ns_total, t);
                lemma_wraps(c.xfer_n, o.xfer_n, 1);
            }
        },
        _ => {},
    }
}

proof fn lemma_wraps(a: u64, b: u64, n: u64)
    ensures
        a.wrapping_add(b.wrapping_add(n)) == a.wrapping_add(b).wrapping_add(n),
{
}

proof fn lemma_merged_flush(p: Seq<u64>, q: Seq<u64>, a: Seq<u64>)
    requires
        p.len() == 13,
        q.len() == 13,
        a.len() == 13,
    ensures
        stats::poll_merged(p, stats::poll_merged(q, a)) == stats::poll_merged(
            stats::poll_merged(p, q),
            a,
        ),
{
    let x = stats::poll_merged(p, stats::poll_merged(q, a));
    let y = stats::poll_merged(stats::poll_merged(p, q), a);
    assert forall|i: int| 0 <= i < 13 implies #[trigger] x[i] == y[i] by {
        lemma_wraps(p[i], q[i], a[i]);
    }
    assert(x == y);
}

proof fn lemma_merged_recorded(h: stats::HistView, o: stats::HistView, ns: u64)
    requires
        h.buckets.len() == 32,
        o.buckets.len() == 32,
    ensures
        h.merged(o.recorded(ns)) == h.merged(o).recorded(ns),
{
    stats::law_bucket_bounds(ns / 1_000);
    let k = stats::bucket_of(ns / 1_000) as int;
    lemma_wraps(h.buckets[k], o.buckets[k], 1);
    lemma_wraps(h.total_ns, o.total_ns, ns);
    assert(h.merged(o.recorded(ns)).buckets == h.merged(o).recorded(ns).buckets);
}

/// The calls that were answered elsewhere are taken in too, with their times; who
/// waits here, and since when, stays as it is.
pub proof fn law_absorbing_answered_calls(
    c: CountersView,
    o: CountersView,
    total: u64,
    wake: u64,
    now: u64,
)
    ensures
        ({
            let x = c.absorbed(o);
            let y = c.absorbed(after(o, Event::GetFinished { total, wake, now }));
            &&& y.get_calls == x.get_calls.wrapping_add(1)
            &&& y.get_ns_total == x.get_ns_total.wrapping_add(total)
            &&& y.wake_n == x.wake_n.wrapping_add(1)
            &&& y.wake_ns_total == x.wake_ns_total.wrapping_add(wake)
            &&& is_larger(y.wake_ns_max, x.wake_ns_max, wake)
            &&& x.active_ns_total == c.active_ns_total.wrapping_add(o.active_ns_total)
            &&& x.in_flight == c.in_flight && x.active_since_ns == c.active_since_ns
        }),
{
}

} // verus!
