//! Steering: the hash, the ports of a queue, ARP frames and the inbound filter.

use mininet::arp::{parse_reply_from, request, synthetic_reply};
use mininet::device::{frame_len, DpdkDevice, RxFrame, RxStep, TxFrame, TxStep, MTU, TX_BATCH, TX_FULL_SPINS};
use mininet::rss::{toeplitz, OwnedPorts, Rss, EPH_BASE, EPH_LEN};
use mininet::stats::Counters;
use mininet::Error;

/// Microsoft's RSS verification key.
const RSS_KEY: [u8; 40] = [
    0x6d, 0x5a, 0x56, 0xda, 0x25, 0x5b, 0x0e, 0xc2, 0x41, 0x67, 0x25, 0x3d, 0x43, 0xa3, 0x8f, 0xb0,
    0xd0, 0xca, 0x2b, 0xcb, 0xae, 0x7b, 0x30, 0xb4, 0x77, 0xcb, 0x2d, 0xa3, 0x80, 0x30, 0xf2, 0x0c,
    0x6a, 0x42, 0xb7, 0x3b, 0xbe, 0xac, 0x01, 0xfa,
];
const PEER: [u8; 4] = [52, 95, 154, 1];
const US: [u8; 4] = [10, 0, 1, 7];

fn rss_over(reta: &[u16]) -> Rss {
    match Rss::load(4, RSS_KEY.len() as i32, &RSS_KEY, reta.len() as i32, reta) {
        Ok(rss) => rss,
        Err(e) => panic!("{:?}", e),
    }
}

fn tuple(src: [u8; 4], dst: [u8; 4], sport: u16, dport: u16) -> [u8; 12] {
    let mut t = [0u8; 12];
    t[0..4].copy_from_slice(&src);
    t[4..8].copy_from_slice(&dst);
    t[8..10].copy_from_slice(&sport.to_be_bytes());
    t[10..12].copy_from_slice(&dport.to_be_bytes());
    t
}

#[test]
fn toeplitz_matches_the_verification_vectors() {
    assert_eq!(
        toeplitz(&RSS_KEY, &tuple([66, 9, 149, 187], [161, 142, 100, 80], 2794, 1766)),
        0x51cc_c178
    );
    assert_eq!(
        toeplitz(&RSS_KEY, &tuple([199, 92, 111, 2], [65, 69, 140, 83], 14230, 4739)),
        0xc626_b0ea
    );
    assert_eq!(
        toeplitz(&RSS_KEY, &tuple([24, 19, 198, 95], [12, 22, 207, 184], 12898, 38024)),
        0x5c2b_394a
    );
    // Without ports.
    assert_eq!(toeplitz(&RSS_KEY, &[66, 9, 149, 187, 161, 142, 100, 80]), 0x323e_8fc2);
    assert_eq!(toeplitz(&[1, 2, 3], &[0xff; 12]), 0);
    assert_eq!(toeplitz(&[0x80, 0, 0, 1], &[0x80]), 0x8000_0001);
    // A key that ends is zeros from there on.
    assert_eq!(toeplitz(&[0x80, 0, 0, 1], &[0x40]), 0x0000_0002);
}

#[test]
fn queues_partition_the_ephemeral_ports() {
    let rss = rss_over(&[0, 1, 2, 3, 0, 1, 2, 3]);
    let owned: Vec<OwnedPorts> = (0..4).map(|q| rss.owned_ports(PEER, 443, US, q)).collect();
    let total: u32 = owned.iter().map(|o| o.count()).sum();
    assert_eq!(total as usize, EPH_LEN);
    for i in 0..EPH_LEN {
        let port = EPH_BASE + i as u16;
        assert_eq!(owned.iter().filter(|o| o.contains(port)).count(), 1);
        let q = rss.queue_for_local_port(PEER, 443, US, port);
        assert!(owned[q as usize].contains(port));
    }
    assert!(owned.iter().all(|o| o.count() > EPH_LEN as u32 / 8));
    assert!(owned[0].contains(68));
}

#[test]
fn spread_takes_what_was_asked() {
    let rss = rss_over(&[0, 1, 2, 3, 0, 1, 2, 3]);
    let owned = rss.owned_ports(PEER, 443, US, 1);
    let picked = owned.spread(64);
    assert_eq!(picked.len(), 64);
    assert!(picked.windows(2).all(|w| w[0] < w[1]));
    assert!(picked.iter().all(|&p| owned.contains(p)));
    assert!(owned.spread(0).is_empty());
    assert_eq!(owned.spread(1 << 20).len(), owned.count() as usize);
    // Every so many-th of them.
    let all = owned.spread(usize::MAX);
    let stride = all.len() / 64;
    assert!((0..64).all(|j| picked[j] == all[j * stride]));
}

#[test]
fn one_queue_owns_everything() {
    let one = match Rss::load(1, 0, &[], 0, &[]) {
        Ok(rss) => rss,
        Err(e) => panic!("{:?}", e),
    };
    assert_eq!(one.owned_ports(PEER, 443, US, 0).count() as usize, EPH_LEN);
    assert_eq!(one.owned_ports(PEER, 443, US, 1).count(), 0);
}

#[test]
fn unreadable_steering_is_refused() {
    let reta = [0u16; 8];
    for (klen, n) in [(0, 8), (-1, 8), (40, 0), (40, -5), (40, 3), (40, 6)] {
        match Rss::load(2, klen, &RSS_KEY, n, &reta) {
            Ok(_) => panic!("{} {}", klen, n),
            Err(e) => assert_eq!(e, Error::RssUnavailable),
        }
    }
    assert!(Rss::load(2, 40, &RSS_KEY, 8, &reta).is_ok());
    assert!(Rss::load(2, 40, &RSS_KEY, 1, &reta).is_ok());
}

#[test]
fn arp_frames() {
    let (gw_mac, gw_ip, our_mac) = ([2, 0, 0, 0, 0, 1], [10, 0, 1, 1], [2, 0, 0, 0, 0, 2]);
    let reply = synthetic_reply(gw_mac, gw_ip, our_mac, US);
    assert_eq!(reply.len(), 42);
    assert_eq!(parse_reply_from(&reply, gw_ip), Some(gw_mac));
    assert_eq!(reply[0..6], our_mac);
    assert_eq!(parse_reply_from(&reply, [10, 0, 1, 2]), None);
    let req = request(our_mac, US, gw_ip);
    assert!(req[0..6] == [0xff; 6] && req[20..22] == [0, 1]);
    assert_eq!(parse_reply_from(&req, gw_ip), None);
    assert_eq!(parse_reply_from(&reply[..41], gw_ip), None);
    assert_eq!(
        req,
        [
            0xff, 0xff, 0xff, 0xff, 0xff, 0xff, 2, 0, 0, 0, 0, 2, 8, 6, 0, 1, 8, 0, 6, 4, 0, 1, 2, 0, 0,
            0, 0, 2, 10, 0, 1, 7, 0, 0, 0, 0, 0, 0, 10, 0, 1, 1
        ]
    );
}

fn frame(proto: u8, dst_port: u16) -> [u8; 54] {
    let mut f = [0u8; 54];
    f[12..14].copy_from_slice(&[0x08, 0x00]);
    f[14] = 0x45;
    f[23] = proto;
    f[26..30].copy_from_slice(&PEER);
    f[30..34].copy_from_slice(&US);
    f[34..36].copy_from_slice(&443u16.to_be_bytes());
    f[36..38].copy_from_slice(&dst_port.to_be_bytes());
    f
}

#[test]
fn port_filter() {
    let rss = rss_over(&[0, 1, 0, 1]);
    let owned = rss.owned_ports(PEER, 443, US, 1);
    let mine = owned.spread(1)[0];
    let other = (EPH_BASE..u16::MAX).find(|&p| !owned.contains(p)).unwrap_or(EPH_BASE);
    let dev = DpdkDevice::new(1, Some(owned), None);
    let mut stats = Counters::default();
    assert!(dev.accepts(&mut stats, &frame(6, mine)));
    assert_eq!(stats.misrouted_drops, 0);
    assert!(!dev.accepts(&mut stats, &frame(6, other)));
    assert_eq!(stats.misrouted_drops, 1);
    assert!(dev.accepts(&mut stats, &frame(17, other)));
    assert!(dev.accepts(&mut stats, &frame(6, 67)));
    let mut arp = frame(6, other);
    arp[12..14].copy_from_slice(&[0x08, 0x06]);
    assert!(dev.accepts(&mut stats, &arp));
    assert!(dev.accepts(&mut stats, &frame(6, other)[..40]));
    // Options push the ports behind the end of the frame.
    let mut long = frame(6, other);
    long[14] = 0x4f;
    assert!(dev.accepts(&mut stats, &long));
    let setup = DpdkDevice::new(0, None, None);
    assert!(setup.accepts(&mut stats, &frame(6, other)));
    assert_eq!(stats.misrouted_drops, 1);
}

#[test]
fn receive_order() {
    let mut dev = DpdkDevice::new(3, None, Some(vec![1, 2, 3]));
    assert_eq!(dev.queue_id(), 3);
    match dev.receive() {
        RxStep::Synth(f) => assert_eq!(f, [1, 2, 3]),
        _ => panic!("no fabricated frame"),
    }
    assert!(matches!(dev.receive(), RxStep::Burst));
    assert!(!dev.received(&[]));
    let a = RxFrame { handle: 1, data: 10, len: 60 };
    let b = RxFrame { handle: 2, data: 20, len: 61 };
    assert!(dev.received(&[a, b]));
    assert!(matches!(dev.receive(), RxStep::Frame(f) if f == a));
    assert!(matches!(dev.receive(), RxStep::Frame(f) if f == b));
    assert!(matches!(dev.receive(), RxStep::Burst));
    assert_eq!(dev.take_counts(), (2, 0));
    assert_eq!(dev.take_counts(), (0, 0));
}

#[test]
fn transmit_batch() {
    let mut dev = DpdkDevice::new(0, None, None);
    let mut stats = Counters::default();
    for i in 0..TX_BATCH {
        assert_eq!(dev.next_tx(0), TxStep::Write);
        assert!(!dev.tx_full());
        assert_eq!(dev.push_tx(100 + i, i as u16), i + 1 == TX_BATCH);
    }
    assert!(dev.tx_full());
    assert_eq!(dev.next_tx(0), TxStep::Flush);
    assert_eq!(dev.next_tx(TX_FULL_SPINS - 1), TxStep::Flush);
    assert_eq!(dev.next_tx(TX_FULL_SPINS), TxStep::Drop);
    dev.flushed(&mut stats, 30);
    assert_eq!(stats.tx_burst_fail, 2);
    assert_eq!(
        dev.batch(),
        [TxFrame { handle: 130, len: 30 }, TxFrame { handle: 131, len: 31 }]
    );
    dev.push_tx(7, 7);
    assert_eq!(dev.batch()[2], TxFrame { handle: 7, len: 7 });
    dev.flushed(&mut stats, 3);
    assert!(dev.batch().is_empty());
    assert_eq!(stats.tx_burst_fail, 2);
    assert_eq!(dev.take_counts(), (0, 33));
    assert_eq!(frame_len(2000, MTU), MTU);
    assert_eq!(frame_len(42, MTU), 42);
}
