//! ARP, done by hand rather than through smoltcp.
//!
//! The gateway is resolved once, on queue 0. Per-worker interfaces on other
//! queues cannot do it for themselves: an ARP reply is not hashed onto a queue
//! by the 4-tuple, so it would arrive somewhere arbitrary. Instead every worker
//! is handed the answer and seeds its neighbour cache with a fabricated reply.

use vstd::prelude::*;

use crate::rss;

verus! {

/// An ARP frame on Ethernet, for IPv4.
pub open spec fn frame_of(
    dst_mac: Seq<u8>,
    src_mac: Seq<u8>,
    op: u16,
    sender_ip: Seq<u8>,
    target_mac: Seq<u8>,
    target_ip: Seq<u8>,
) -> Seq<u8> {
    dst_mac + src_mac + seq![0x08u8, 0x06]  // ethertype
     + seq![0x00u8, 0x01, 0x08, 0x00, 6, 4]  // hardware and protocol: type and size
     + rss::big_endian(op) + src_mac + sender_ip + target_mac + target_ip
}

/// Six times 0xff: everybody.
pub open spec fn broadcast() -> Seq<u8> {
    seq![0xffu8, 0xff, 0xff, 0xff, 0xff, 0xff]
}

fn arp_frame(
    dst_mac: [u8; 6],
    src_mac: [u8; 6],
    op: u16,
    sender_ip: [u8; 4],
    target_mac: [u8; 6],
    target_ip: [u8; 4],
) -> (f: [u8; 42])
    ensures
        f@ == frame_of(dst_mac@, src_mac@, op, sender_ip@, target_mac@, target_ip@),
{
    let f: [u8; 42] = [
        dst_mac[0], dst_mac[1], dst_mac[2], dst_mac[3], dst_mac[4], dst_mac[5],
        src_mac[0], src_mac[1], src_mac[2], src_mac[3], src_mac[4], src_mac[5],
        0x08, 0x06,
        0x00, 0x01, 0x08, 0x00, 6, 4,
        (op / 256) as u8, (op % 256) as u8,
        src_mac[0], src_mac[1], src_mac[2], src_mac[3], src_mac[4], src_mac[5],
        sender_ip[0], sender_ip[1], sender_ip[2], sender_ip[3],
        target_mac[0], target_mac[1], target_mac[2], target_mac[3], target_mac[4], target_mac[5],
        target_ip[0], target_ip[1], target_ip[2], target_ip[3],
    ];
    assert(f@ == frame_of(dst_mac@, src_mac@, op, sender_ip@, target_mac@, target_ip@));
    f
}

/// Asks everybody who has `target_ip`.
pub fn request(our_mac: [u8; 6], our_ip: [u8; 4], target_ip: [u8; 4]) -> (f: [u8; 42])
    ensures
        f@ == frame_of(
            broadcast(),
            our_mac@,
            1,
            our_ip@,
            seq![0u8, 0, 0, 0, 0, 0],
            target_ip@,
        ),
{
    let everybody: [u8; 6] = [0xff, 0xff, 0xff, 0xff, 0xff, 0xff];
    let nobody: [u8; 6] = [0, 0, 0, 0, 0, 0];
    assert(everybody@ == broadcast());
    assert(nobody@ == seq![0u8, 0, 0, 0, 0, 0]);
    arp_frame(everybody, our_mac, 1, our_ip, nobody, target_ip)
}

/// A reply the gateway never sent, synthesised so a worker's interface learns
/// the MAC on its first poll.
pub fn synthetic_reply(
    sender_mac: [u8; 6],
    sender_ip: [u8; 4],
    target_mac: [u8; 6],
    target_ip: [u8; 4],
) -> (f: Vec<u8>)
    ensures
        f@ == frame_of(target_mac@, sender_mac@, 2, sender_ip@, target_mac@, target_ip@),
{
    let frame = arp_frame(target_mac, sender_mac, 2, sender_ip, target_mac, target_ip);
    let bytes: &[u8] = &frame;
    let mut f: Vec<u8> = Vec::new();
    f.extend_from_slice(bytes);
    assert(f@ == frame@);
    f
}

/// The frame is an ARP reply from `ip`.
pub open spec fn is_reply_from(frame: Seq<u8>, ip: Seq<u8>) -> bool {
    &&& frame.len() >= 42
    &&& frame.subrange(12, 14) == seq![0x08u8, 0x06]
    &&& frame.subrange(20, 22) == rss::big_endian(2)
    &&& frame.subrange(28, 32) == ip
}

/// The MAC address that an ARP reply from `expected_ip` gives.
pub fn parse_reply_from(frame: &[u8], expected_ip: [u8; 4]) -> (r: Option<[u8; 6]>)
    ensures
        r is Some <==> is_reply_from(frame@, expected_ip@),
        r matches Some(mac) ==> mac@ == frame@.subrange(22, 28),
{
    if frame.len() < 42 {
        return None;
    }
    proof {
        let f = frame@;
        let ip = expected_ip@;
        if f.subrange(12, 14) == seq![0x08u8, 0x06] {
            assert(f.subrange(12, 14)[0] == f[12] && f.subrange(12, 14)[1] == f[13]);
        }
        if f.subrange(20, 22) == rss::big_endian(2) {
            assert(f.subrange(20, 22)[0] == f[20] && f.subrange(20, 22)[1] == f[21]);
        }
        if f.subrange(28, 32) == ip {
            assert(f.subrange(28, 32)[0] == f[28] && f.subrange(28, 32)[1] == f[29] && f.subrange(
                28,
                32,
            )[2] == f[30] && f.subrange(28, 32)[3] == f[31]);
        }
    }
    if frame[12] != 0x08 || frame[13] != 0x06 || frame[20] != 0x00 || frame[21] != 0x02 {
        return None;
    }
    if frame[28] != expected_ip[0] || frame[29] != expected_ip[1] || frame[30] != expected_ip[2]
        || frame[31] != expected_ip[3] {
        return None;
    }
    let mac: [u8; 6] = [frame[22], frame[23], frame[24], frame[25], frame[26], frame[27]];
    proof {
        assert(frame@.subrange(12, 14) == seq![0x08u8, 0x06]);
        assert(frame@.subrange(20, 22) == rss::big_endian(2));
        assert(frame@.subrange(28, 32) == expected_ip@);
        assert(mac@ == frame@.subrange(22, 28));
    }
    Some(mac)
}

/// A reply reads back as what it says: whoever expects `sender_ip` learns
/// `sender_mac`, and whoever expects another address learns nothing.
pub proof fn law_reply_reads_back(
    sender_mac: Seq<u8>,
    sender_ip: Seq<u8>,
    target_mac: Seq<u8>,
    target_ip: Seq<u8>,
    expected_ip: Seq<u8>,
)
    requires
        sender_mac.len() == 6,
        sender_ip.len() == 4,
        target_mac.len() == 6,
        target_ip.len() == 4,
    ensures
        ({
            let f = frame_of(target_mac, sender_mac, 2, sender_ip, target_mac, target_ip);
            &&& is_reply_from(f, expected_ip) <==> expected_ip == sender_ip
            &&& f.subrange(22, 28) == sender_mac
        }),
{
    let f = frame_of(target_mac, sender_mac, 2, sender_ip, target_mac, target_ip);
    assert(f.subrange(12, 14) == seq![0x08u8, 0x06]);
    assert(f.subrange(20, 22) == rss::big_endian(2));
    assert(f.subrange(28, 32) == sender_ip);
    assert(f.subrange(22, 28) == sender_mac);
}

/// A request is never taken for a reply.
pub proof fn law_request_is_no_reply(
    our_mac: Seq<u8>,
    our_ip: Seq<u8>,
    target_ip: Seq<u8>,
    expected_ip: Seq<u8>,
)
    requires
        our_mac.len() == 6,
    ensures
        !is_reply_from(
            frame_of(broadcast(), our_mac, 1, our_ip, seq![0u8, 0, 0, 0, 0, 0], target_ip),
            expected_ip,
        ),
{
    let f = frame_of(broadcast(), our_mac, 1, our_ip, seq![0u8, 0, 0, 0, 0, 0], target_ip);
    if f.len() >= 42 {
        assert(f.subrange(20, 22)[1] == 1);
    }
}

} // verus!
