//! Counters, the latency histogram and the clock.

use mininet::nic::NicStats;
use mininet::stats::{bucket, dist_of, snapshot, Counters, Poll, PollAcc};
use mininet::MonoClock;

#[test]
fn histogram() {
    let d = dist_of(&[]);
    assert!(d.n == 0 && d.us_avg == 0 && d.us_p50 == 0 && d.us_max == 0);

    let d = dist_of(&[1_000_000; 10]);
    assert_eq!(d.n, 10);
    assert_eq!(d.us_avg, 1000);
    assert_eq!(d.us_max, 1000);
    assert!(d.us_p50 >= 512 && d.us_p50 <= 1000);

    let ms: Vec<u64> = (1..=100u64).map(|i| i * 1_000_000).collect();
    let d = dist_of(&ms);
    assert_eq!(d.us_max, 100_000);
    assert!(d.us_p50 <= d.us_p90 && d.us_p90 <= d.us_max);
    assert!(d.us_p50 >= 32_000 && d.us_p50 <= 64_000);
    assert!(d.us_p90 >= 64_000);
}

#[test]
fn buckets() {
    assert_eq!(bucket(0), 0);
    assert_eq!(bucket(1), bucket(1));
    assert!(bucket(1023) < bucket(1024));
    assert_eq!(bucket(1024), bucket(2047));
    assert!(bucket(u64::MAX) < 32);
}

#[test]
fn connections_and_requests() {
    let mut c = Counters::default();
    c.conn_established(1_000_000);
    c.conn_established(3_000_000);
    c.conn_failed(5_000_000);
    c.conn_dialled(2_000);
    c.request_started(false);
    c.request_started(true);
    c.request_retried();
    c.request_finished(1, 20, 300, Some(5), Some(15));
    c.request_finished(2, 30, 0, None, None);
    c.misrouted_drop();
    c.tx_alloc_fail();
    c.tx_held(7);
    let nic = NicStats { ipackets: 1, ibytes: 2, imissed: 3, ierrors: 4, rx_nombuf: 5, ..NicStats::default() };
    let s = snapshot(&c, Some(nic));
    assert_eq!((s.conns_established, s.conns_failed), (2, 1));
    // A connection that failed has no setup time.
    assert_eq!((s.setup.n, s.setup.us_avg, s.setup.us_max), (2, 2000, 3000));
    assert_eq!((s.dial.n, s.dial.us_max), (1, 2));
    assert_eq!((s.requests_served, s.requests_reused, s.requests_retried), (2, 1, 1));
    assert_eq!((s.requests_done, s.queue_ns_total, s.wire_ns_total, s.body_bytes), (2, 3, 50, 300));
    assert_eq!((s.ttfb_ns_total, s.ttfb_n, s.xfer_ns_total, s.xfer_n), (5, 1, 15, 1));
    assert_eq!((s.misrouted_drops, s.tx_alloc_fail, s.tx_burst_fail), (1, 1, 7));
    assert_eq!(
        (s.nic_ipackets, s.nic_ibytes, s.nic_imissed, s.nic_ierrors, s.nic_rx_nombuf),
        (1, 2, 3, 4, 5)
    );
    assert_eq!(snapshot(&c, None).nic_ipackets, 0);
}

#[test]
fn active_time_is_the_union() {
    let mut c = Counters::default();
    c.get_started(100);
    c.get_started(150);
    c.get_finished(80, 3, 180);
    assert_eq!(snapshot(&c, None).active_ns_total, 0);
    c.get_finished(100, 9, 200);
    assert_eq!(snapshot(&c, None).active_ns_total, 100);
    c.get_started(1000);
    c.get_finished(50, 1, 1050);
    let s = snapshot(&c, None);
    assert_eq!(s.active_ns_total, 150);
    assert_eq!((s.get_calls, s.get_ns_total), (3, 230));
    assert_eq!((s.wake_n, s.wake_ns_total, s.wake_ns_max), (3, 13, 9));
}

#[test]
fn polls_are_flushed_in_batches() {
    let mut c = Counters::default();
    let mut a = PollAcc::default();
    a.max(Poll::RxPktsMax, 17);
    for i in 0..1023u64 {
        a.tick(&mut c, 2_000_000, 500_000 + i, i % 2 == 0);
    }
    assert_eq!(snapshot(&c, None).poll_iters, 0);
    a.tick(&mut c, 1_000_000, 1, true);
    let s = snapshot(&c, None);
    assert_eq!(s.poll_iters, 1024);
    assert_eq!(s.poll_gap_ns_total, 1023 * 2_000_000 + 1_000_000);
    assert_eq!(s.poll_gap_ns_max, 2_000_000);
    assert_eq!(s.poll_gaps_over_1ms, 1023);
    assert_eq!(s.poll_active_iters, 513);
    assert_eq!(s.poll_busy_ns_max, 501_022);
    assert_eq!(s.poll_loop_ns_max, 1_500_000);
    assert_eq!(s.rx_pkts_max, 17);
    // A flush adds to the sums and keeps the maxima.
    a.add(Poll::Iters, 5);
    a.max(Poll::RxPktsMax, 4);
    a.flush(&mut c);
    let s = snapshot(&c, None);
    assert_eq!(s.poll_iters, 1029);
    assert_eq!(s.rx_pkts_max, 17);
}

#[test]
fn clock_readings() {
    let c = MonoClock::new(5_000_000);
    assert_eq!(c.epoch_ns(), 5_000_000);
    assert_eq!(c.elapsed_ns(7_500_000), 2_500_000);
    assert_eq!(c.elapsed_ms(7_500_000), 2);
    assert_eq!(c.elapsed_ns(1), 0);
    assert_eq!(c.reading(c.elapsed_ns(7_500_000)), 7_500_000);
}

#[test]
fn what_is_counted_elsewhere_adds_up() {
    let mut all = Counters::default();
    all.get_started(5);
    all.conn_established(1_000_000);
    let mut own = Counters::default();
    own.conn_established(3_000_000);
    own.conn_failed(9_000_000);
    own.request_started(true);
    own.request_finished(1, 2, 3, Some(4), None);
    own.tx_held(2);
    let mut acc = PollAcc::default();
    acc.tick(&mut own, 10, 4, true);
    acc.max(Poll::TxPktsMax, 6);
    acc.flush(&mut own);
    all.absorb(&own);
    all.get_finished(10, 1, 15);
    let s = snapshot(&all, None);
    assert_eq!((s.conns_established, s.conns_failed), (2, 1));
    assert_eq!((s.setup.n, s.setup.us_avg, s.setup.us_max), (2, 2000, 3000));
    assert_eq!((s.requests_served, s.requests_reused, s.requests_done), (1, 1, 1));
    assert_eq!((s.ttfb_n, s.xfer_n, s.body_bytes, s.tx_burst_fail), (1, 0, 3, 2));
    assert_eq!((s.poll_iters, s.poll_active_iters, s.poll_work_ns, s.tx_pkts_max), (1, 1, 4, 6));
    assert_eq!((s.get_calls, s.wake_n, s.active_ns_total), (1, 1, 10));
}

#[test]
fn reported_counters_relate() {
    let mut c = Counters::default();
    let mut acc = PollAcc::default();
    for i in 0..3000u64 {
        c.request_started(i % 3 == 0);
        c.request_finished(i, i, i, if i % 2 == 0 { Some(i) } else { None }, None);
        c.get_started(i);
        c.get_finished(i, i * 7 % 11, i);
        acc.tick(&mut c, i * 1000, i, i % 5 == 0);
    }
    let s = snapshot(&c, None);
    assert!(s.requests_reused <= s.requests_served);
    assert!(s.ttfb_n <= s.requests_done && s.xfer_n <= s.requests_done);
    assert_eq!(s.wake_n, s.get_calls);
    assert!(s.wake_ns_max <= s.wake_ns_total);
    assert_eq!(s.poll_iters, 2048);
    assert!(s.poll_active_iters <= s.poll_iters && s.poll_gaps_over_1ms <= s.poll_iters);
    assert!(s.poll_work_ns <= s.poll_busy_ns);
}
