//! Bringing the port up, learning the network, and printing about it.

use mininet::arp;
use mininet::clock::ITER_BUDGET;
use mininet::dhcp::{Acquire, ArpStep, DhcpEvent, DhcpStep, Learn, LearnStep, Resolve};
use mininet::nic::{clamp_queues, eth_stats, pool_name, pool_size, rx_descriptors, NicStep};
use mininet::print::{decimal, end_line, next_offset, BufWriter, LINE_MAX};
use mininet::rss::Rss;
use mininet::service::{finish_get, queue_for, worker_cpu};
use mininet::stats::Counters;
use mininet::{Config, Endpoint, Error, Netif, ServiceConfig, Stack, WorkerConfig};

#[test]
fn a_lease() {
    let mut a = Acquire::new();
    assert!(matches!(a.on_event(DhcpEvent::Nothing), DhcpStep::Again));
    assert!(matches!(a.on_event(DhcpEvent::Deconfigured), DhcpStep::Again));
    let ev = DhcpEvent::Configured { ip: [10, 0, 0, 5], prefix_len: 24, router: Some([10, 0, 0, 1]) };
    match a.on_event(ev) {
        DhcpStep::Leased(l) => {
            assert_eq!((l.ip, l.prefix_len, l.gateway_ip), ([10, 0, 0, 5], 24, [10, 0, 0, 1]));
        }
        _ => panic!("no lease"),
    }
    let ev = DhcpEvent::Configured { ip: [10, 0, 0, 5], prefix_len: 24, router: None };
    match a.on_event(ev) {
        DhcpStep::Leased(l) => assert_eq!(l.gateway_ip, [0; 4]),
        _ => panic!("no lease"),
    }
}

#[test]
fn no_lease_in_time() {
    let mut a = Acquire::new();
    let mut polls = 0u64;
    let e = loop {
        polls += 1;
        match a.on_event(DhcpEvent::Nothing) {
            DhcpStep::Again => {}
            DhcpStep::Failed(e) => break e,
            DhcpStep::Leased(_) => panic!("a lease from nowhere"),
        }
    };
    assert_eq!(e, Error::DhcpTimeout);
    assert_eq!(polls, ITER_BUDGET / 10 + 1);
}

#[test]
fn the_gateway() {
    let gw = [10, 0, 0, 1];
    let mut r = Resolve::new(gw);
    assert!(matches!(r.on_frame(None), ArpStep::Again));
    let other = arp::synthetic_reply([1; 6], [10, 0, 0, 2], [2; 6], [10, 0, 0, 5]);
    assert!(matches!(r.on_frame(Some(&other)), ArpStep::Again));
    let reply = arp::synthetic_reply([7; 6], gw, [2; 6], [10, 0, 0, 5]);
    assert!(matches!(r.on_frame(Some(&reply)), ArpStep::Found(mac) if mac == [7; 6]));
}

#[test]
fn the_network_is_learned() {
    let (mac, ip, gw) = ([2; 6], [10, 0, 0, 5], [10, 0, 0, 1]);
    let (learn, step) = Learn::new().on_dhcp(mac, DhcpEvent::Nothing);
    assert!(matches!(step, LearnStep::PollDhcp));
    let (learn, step) =
        learn.on_dhcp(mac, DhcpEvent::Configured { ip, prefix_len: 24, router: Some(gw) });
    match step {
        LearnStep::Send(frame) => assert_eq!(frame, arp::request(mac, ip, gw)),
        _ => panic!("no request"),
    }
    let (learn, step) = learn.on_sent(true);
    assert!(matches!(step, LearnStep::PollArp));
    let (learn, step) = learn.on_frame(None);
    assert!(matches!(step, LearnStep::PollArp));
    let reply = arp::synthetic_reply([7; 6], gw, mac, ip);
    match learn.on_frame(Some(&reply)).1 {
        LearnStep::Learned(n) => {
            assert_eq!((n.lease.ip, n.lease.prefix_len, n.lease.gateway_ip), (ip, 24, gw));
            assert_eq!(n.gateway_mac, [7; 6]);
        }
        _ => panic!("not learned"),
    }
    let (learn, _) = Learn::new().on_dhcp(mac, DhcpEvent::Configured { ip, prefix_len: 24, router: None });
    assert!(matches!(learn.on_sent(false).1, LearnStep::Failed(Error::NoMemory)));
}

#[test]
fn no_gateway_in_time() {
    let mut r = Resolve::new([10, 0, 0, 1]);
    let mut polls = 0u64;
    let e = loop {
        polls += 1;
        match r.on_frame(None) {
            ArpStep::Again => {}
            ArpStep::Failed(e) => break e,
            ArpStep::Found(_) => panic!("a reply from nowhere"),
        }
    };
    assert_eq!(e, Error::ArpTimeout);
    assert_eq!(polls, ITER_BUDGET / 20 + 1);
}

#[test]
fn how_many_queues() {
    assert_eq!(clamp_queues(8, 4, 6), 4);
    assert_eq!(clamp_queues(8, 6, 4), 4);
    assert_eq!(clamp_queues(3, 4, 6), 3);
    assert_eq!(clamp_queues(8, 0, 6), 8);
    assert_eq!(Stack::plan(&Config { queues: 0, rx_desc: 0 }, 4, 4), 1);
    assert_eq!(Stack::plan(&Config { queues: 9, rx_desc: 0 }, 4, 4), 4);
}

#[test]
fn pools() {
    assert_eq!(rx_descriptors(0), 4096);
    assert_eq!(rx_descriptors(1024), 1024);
    assert_eq!(pool_size(4096), 8800);
    assert_eq!(&pool_name(0)[..11], b"mininet-q0\0");
    assert_eq!(&pool_name(65535)[..15], b"mininet-q65535\0");
    assert_eq!(pool_name(12)[11..], [0; 21]);
}

#[test]
fn bring_up_in_order() {
    let mut seen = Vec::new();
    let mut step = NicStep::first(2);
    while step != NicStep::Done {
        seen.push(step);
        step = step.next(2, true).unwrap();
    }
    assert_eq!(
        seen,
        [
            NicStep::CreatePool(0),
            NicStep::CreatePool(1),
            NicStep::Configure,
            NicStep::AdjustDescriptors,
            NicStep::SetupRx(0),
            NicStep::SetupTx(0),
            NicStep::SetupRx(1),
            NicStep::SetupTx(1),
            NicStep::Start,
            NicStep::ReadMac,
        ]
    );
    assert_eq!(NicStep::CreatePool(1).next(2, false), Err(Error::NoMemory));
    for step in [NicStep::Configure, NicStep::SetupRx(0), NicStep::SetupTx(1), NicStep::Start] {
        assert_eq!(step.next(2, false), Err(Error::NoDevice));
    }
    assert_eq!(NicStep::first(0), NicStep::Configure);
    assert_eq!(NicStep::SetupRx(1).descriptors(512, 256), Some(512));
    assert_eq!(NicStep::SetupTx(1).descriptors(512, 256), Some(256));
    assert_eq!(NicStep::Start.descriptors(512, 256), None);
}

#[test]
fn device_counters() {
    assert!(eth_stats(-1, &[0; 8]).is_none());
    let s = eth_stats(0, &[1, 2, 3, 4, 5, 6, 7, 8]).unwrap();
    assert_eq!(
        (s.ipackets, s.opackets, s.ibytes, s.obytes, s.imissed, s.ierrors, s.oerrors, s.rx_nombuf),
        (1, 2, 3, 4, 5, 6, 7, 8)
    );
}

#[test]
fn tickets() {
    let netif = Netif {
        mac: [1; 6],
        ip: [10, 0, 0, 5],
        prefix_len: 24,
        gateway_ip: [10, 0, 0, 1],
        gateway_mac: [2; 6],
    };
    let stack = Stack::new(vec![111, 222], Rss::single(), netif, 2);
    assert_eq!(stack.queues(), 2);
    let h = stack.handle(1).unwrap();
    assert_eq!(h.queue_id(), 1);
    assert_eq!(h.pool(), 222);
    assert_eq!(h.netif().ip, [10, 0, 0, 5]);
    assert!(stack.handle(2).is_none());
}

#[test]
fn defaults() {
    let peer = Endpoint::new([1, 2, 3, 4], "h", true);
    assert_eq!((peer.ip, peer.port, peer.host.as_str(), peer.tls), ([1, 2, 3, 4], 443, "h", true));
    assert_eq!(Endpoint::new([1, 2, 3, 4], "h", false).port, 80);
    let w = WorkerConfig::new(peer.clone());
    assert_eq!((w.conns, w.rx_buffer, w.tx_buffer), (1, 4194304, 32768));
    let s = ServiceConfig::new(peer);
    assert_eq!((s.conns_per_worker, s.rx_buffer, s.tx_buffer), (8, 4194304, 32768));
    assert_eq!(s.peer.host, "h");
}

#[test]
fn cpus_and_queues() {
    assert_eq!(worker_cpu(0, 8), 7);
    assert_eq!(worker_cpu(3, 8), 4);
    assert_eq!(worker_cpu(9, 8), 0);
    assert_eq!(queue_for(7, 3), Ok(1));
    assert_eq!(queue_for(7, 0), Err(Error::NoDevice));
    let turns: Vec<usize> = (5..8).map(|t| queue_for(t, 3).unwrap()).collect();
    assert_eq!(turns, [2, 0, 1]);
}

#[test]
fn a_get_is_over() {
    let mut c = Counters::default();
    c.get_started(100);
    let r = finish_get(&mut c, 100, 170, 200, Some(Err(Error::SynTimeout)));
    assert_eq!(r, Err(Error::SynTimeout));
    assert_eq!((c.get_ns_total, c.wake_ns_total, c.active_ns_total), (100, 30, 100));
    c.get_started(300);
    assert_eq!(finish_get(&mut c, 300, 310, 320, None), Err(Error::BadResponse));
}

#[test]
fn lines() {
    let mut buf = [0u8; LINE_MAX];
    let used = {
        let mut w = BufWriter::new(&mut buf);
        w.write_str("q2: ");
        w.write_bytes(&decimal(2048));
        w.write_str(" ports");
        w.used()
    };
    assert_eq!(&buf[..used], b"q2: 2048 ports");
    let n = end_line(&mut buf, used);
    assert_eq!(&buf[..n], b"q2: 2048 ports\n");

    let mut buf = [0u8; LINE_MAX];
    let long = "x".repeat(300);
    let used = {
        let mut w = BufWriter::new(&mut buf);
        w.write_str(&long);
        w.write_str("more");
        w.used()
    };
    assert_eq!(used, LINE_MAX);
    let n = end_line(&mut buf, used);
    assert_eq!(n, LINE_MAX);
    assert_eq!((buf[LINE_MAX - 2], buf[LINE_MAX - 1]), (b'x', b'\n'));

    assert_eq!(next_offset(0, 10, 4), Some(4));
    assert_eq!(next_offset(4, 10, 6), None);
    assert_eq!(next_offset(4, 10, 0), None);
    assert_eq!(next_offset(4, 10, -1), None);
    assert_eq!(decimal(0), b"0");
    assert_eq!(decimal(u64::MAX), b"18446744073709551615");
}
