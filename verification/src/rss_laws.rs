//! What steering is for: the queue that is predicted is the one that the NIC picks
//! for the packet when it comes in, and the hash is what the NIC computes.

use vstd::prelude::*;
use vstd::arithmetic::div_mod::*;

use crate::device;
use crate::error::Error;
use crate::rss;
use crate::rss::{Rss, RssView};

verus! {

/// Two bytes off the wire, as a number.
pub open spec fn wire_port(frame: Seq<u8>, at: int) -> u16 {
    (frame[at] * 256 + frame[at + 1]) as u16
}

/// An Ethernet frame with IPv4, a header of 20 bytes, and TCP.
pub open spec fn is_tcp_frame(frame: Seq<u8>) -> bool {
    &&& frame.len() >= 54
    &&& frame[12] == 8 && frame[13] == 0
    &&& frame[14] == 0x45
    &&& frame[23] == 6
}

/// The queue that a NIC with this key and table steers an inbound frame to: it
/// hashes the addresses and the ports as they stand in the frame.
pub open spec fn steered_to(key: Seq<u8>, reta: Seq<u16>, frame: Seq<u8>) -> u16 {
    reta[rss::toeplitz_of(key, frame.subrange(26, 38)) as int % reta.len() as int]
}

/// The queue that is predicted for a peer and a port of ours is the one that the
/// NIC steers what comes in from that peer to that port to: in an inbound frame the
/// peer is the source, and we are the destination.
pub proof fn law_prediction_is_of_the_inbound_frame(r: RssView, frame: Seq<u8>)
    requires
        !r.single_queue,
        r.key.len() > 0,
        r.reta.len() > 0,
        frame.len() >= 38,
    ensures
        r.queue_for(
            frame.subrange(26, 30),
            wire_port(frame, 34),
            frame.subrange(30, 34),
            wire_port(frame, 36),
        ) == steered_to(r.key, r.reta, frame),
{
    let a = frame[34];
    let b = frame[35];
    let c = frame[36];
    let d = frame[37];
    assert((a * 256 + b) / 256 == a && (a * 256 + b) % 256 == b);
    assert((c * 256 + d) / 256 == c && (c * 256 + d) % 256 == d);
    assert(rss::tuple_of(
        frame.subrange(26, 30),
        frame.subrange(30, 34),
        wire_port(frame, 34),
        wire_port(frame, 36),
    ) == frame.subrange(26, 38));
}

/// With one queue every prediction is that queue; without a key or a table there is
/// none.
pub proof fn law_prediction_without_a_hash(
    r: RssView,
    peer_ip: Seq<u8>,
    peer_port: u16,
    our_ip: Seq<u8>,
    local_port: u16,
)
    ensures
        r.single_queue ==> r.queue_for(peer_ip, peer_port, our_ip, local_port) == 0,
        !r.single_queue && (r.key.len() == 0 || r.reta.len() == 0) ==> r.queue_for(
            peer_ip,
            peer_port,
            our_ip,
            local_port,
        ) == 0xffff,
{
}

/// A TCP frame that the NIC steers to a queue is passed up there and nowhere else,
/// where each queue filters by the ports that it owns for the frame's peer. Ports
/// below 49152 are nobody's, and pass everywhere.
pub proof fn law_filter_agrees_with_the_nic(r: RssView, queue: u16, frame: Seq<u8>)
    requires
        !r.single_queue,
        r.key.len() > 0,
        r.reta.len() > 0,
        is_tcp_frame(frame),
    ensures
        device::belongs(
            Some(
                r.ports_of(
                    frame.subrange(26, 30),
                    wire_port(frame, 34),
                    frame.subrange(30, 34),
                    queue,
                ),
            ),
            frame,
        ) <==> wire_port(frame, 36) < 49152 || steered_to(r.key, r.reta, frame) == queue,
{
    law_prediction_is_of_the_inbound_frame(r, frame);
    assert(frame[14] % 16 == 5);
    assert(device::tcp_port_of(frame) == Some(wire_port(frame, 36)));
    rss::law_ports_partition(
        r,
        frame.subrange(26, 30),
        wire_port(frame, 34),
        frame.subrange(30, 34),
        queue,
        wire_port(frame, 36),
    );
}

/// Anything but TCP over IPv4 passes, and so does everything where no ports are
/// owned.
pub proof fn law_only_tcp_is_filtered(owned: Seq<u16>, frame: Seq<u8>)
    ensures
        device::belongs(None, frame),
        frame.len() < 54 || frame[12] != 8 || frame[13] != 0 || frame[23] != 6 ==> device::belongs(
            Some(owned),
            frame,
        ),
{
}

/// The port that the filter goes by is the destination port, behind an IPv4 header
/// of however many words the frame says.
pub proof fn law_filter_reads_the_destination_port(frame: Seq<u8>, words: int)
    requires
        frame.len() >= 54,
        frame[12] == 8 && frame[13] == 0 && frame[23] == 6,
        0 <= words < 16,
        frame[14] as int % 16 == words,
    ensures
        device::tcp_port_of(frame) == (if 14 + 4 * words + 4 <= frame.len() {
            Some(wire_port(frame, 14 + 4 * words + 2))
        } else {
            None
        }),
{
}

/// The ephemeral ports are those from 49152 on, and a queue owns those of them whose
/// return traffic it gets.
pub proof fn law_owned_ports(
    r: RssView,
    peer_ip: Seq<u8>,
    peer_port: u16,
    our_ip: Seq<u8>,
    queue: u16,
    port: u16,
)
    ensures
        r.ports_of(peer_ip, peer_port, our_ip, queue).contains(port) <==> port >= 49152
            && r.queue_for(peer_ip, peer_port, our_ip, port) == queue,
        r.single_queue ==> r.ports_of(peer_ip, peer_port, our_ip, 0).len() == 16384,
{
    rss::law_ports_partition(r, peer_ip, peer_port, our_ip, queue, port);
    if r.single_queue {
        rss::law_single_queue_owns_all(r, peer_ip, peer_port, our_ip);
    }
}

/// Ports are spread evenly: between one that is taken and the next lie always as
/// many, and as many as fit that many times.
pub proof fn law_spread_is_even(s: Seq<u16>, want: nat, j: int)
    requires
        0 < want,
        0 <= j < rss::spread_of(s, want).len(),
    ensures
        want <= s.len() ==> rss::spread_of(s, want)[j] == s[j * (s.len() as int / want as int)],
        want > s.len() ==> rss::spread_of(s, want)[j] == s[j],
{
    if want > s.len() {
        assert(s.len() as int / want as int == 0) by (nonlinear_arith)
            requires
                0 <= s.len() < want,
        ;
    } else {
        assert(s.len() as int / want as int > 0) by (nonlinear_arith)
            requires
                0 < want <= s.len(),
        ;
    }
}

/// A bit of a byte string, the first byte first and its highest bit first.
pub open spec fn wire_bit(s: Seq<u8>, k: int) -> bool {
    0 <= k < 8 * s.len() && (s[k / 8] >> ((7 - k % 8) as u8)) & 1 == 1
}

/// Data that differs from other data by bits that are set in a third: bit for bit
/// the exclusive or.
pub open spec fn is_xor(a: Seq<u8>, b: Seq<u8>, c: Seq<u8>) -> bool {
    &&& a.len() == b.len() == c.len()
    &&& forall|k: int| 0 <= k < 8 * a.len() ==> (#[trigger] wire_bit(c, k)) == (wire_bit(a, k)
        != wire_bit(b, k))
}

proof fn lemma_bit(s: Seq<u8>, k: int)
    ensures
        wire_bit(s, k) <==> rss::bit_at(s, k) == 1,
{
}

proof fn lemma_windows_linear(key: Seq<u8>, a: Seq<u8>, b: Seq<u8>, c: Seq<u8>, n: nat)
    requires
        is_xor(a, b, c),
        n <= 8 * a.len(),
    ensures
        rss::windows_of(key, c, n) == rss::windows_of(key, a, n) ^ rss::windows_of(key, b, n),
    decreases n,
{
    if n == 0 {
        assert(0u32 ^ 0u32 == 0u32) by (bit_vector);
    } else {
        lemma_windows_linear(key, a, b, c, (n - 1) as nat);
        lemma_bit(a, n - 1);
        lemma_bit(b, n - 1);
        lemma_bit(c, n - 1);
        assert(wire_bit(c, n - 1) == (wire_bit(a, n - 1) != wire_bit(b, n - 1)));
        let x = rss::windows_of(key, a, (n - 1) as nat);
        let y = rss::windows_of(key, b, (n - 1) as nat);
        let w = rss::window(key, n - 1);
        assert((x ^ y) ^ w == (x ^ w) ^ y) by (bit_vector);
        assert((x ^ y) ^ w == x ^ (y ^ w)) by (bit_vector);
        assert((x ^ w) ^ (y ^ w) == x ^ y) by (bit_vector);
    }
}

/// The hash is linear: the hash of two pieces of data combined is their hashes
/// combined.
pub proof fn law_hash_is_linear(key: Seq<u8>, a: Seq<u8>, b: Seq<u8>, c: Seq<u8>)
    requires
        is_xor(a, b, c),
        key.len() >= 4,
    ensures
        rss::toeplitz_of(key, c) == rss::toeplitz_of(key, a) ^ rss::toeplitz_of(key, b),
{
    lemma_windows_linear(key, a, b, c, 8 * a.len());
}

proof fn lemma_no_bits(key: Seq<u8>, data: Seq<u8>, n: nat)
    requires
        forall|k: int| 0 <= k < n ==> !#[trigger] wire_bit(data, k),
    ensures
        rss::windows_of(key, data, n) == 0,
    decreases n,
{
    if n > 0 {
        lemma_no_bits(key, data, (n - 1) as nat);
        lemma_bit(data, n - 1);
        assert(!wire_bit(data, n - 1));
    }
}

proof fn lemma_one_bit(key: Seq<u8>, data: Seq<u8>, i: int, n: nat)
    requires
        wire_bit(data, i),
        forall|k: int| 0 <= k < n && k != i ==> !#[trigger] wire_bit(data, k),
        0 <= i < n,
    ensures
        rss::windows_of(key, data, n) == rss::window(key, i),
    decreases n,
{
    lemma_bit(data, n - 1);
    if i == n - 1 {
        lemma_no_bits(key, data, (n - 1) as nat);
        let w = rss::window(key, i);
        assert(0u32 ^ w == w) by (bit_vector);
    } else {
        assert(!wire_bit(data, n - 1));
        lemma_one_bit(key, data, i, (n - 1) as nat);
    }
}

/// Data with one bit set hashes to the 32 key bits from that bit on; data without
/// any to 0.
pub proof fn law_hash_of_one_bit(key: Seq<u8>, data: Seq<u8>, i: int)
    requires
        key.len() >= 4,
        forall|k: int| 0 <= k < 8 * data.len() && k != i ==> !#[trigger] wire_bit(data, k),
    ensures
        !wire_bit(data, i) ==> rss::toeplitz_of(key, data) == 0,
        wire_bit(data, i) ==> rss::toeplitz_of(key, data) == rss::window(key, i),
{
    if wire_bit(data, i) {
        lemma_one_bit(key, data, i, 8 * data.len());
    } else {
        assert forall|k: int| 0 <= k < 8 * data.len() implies !#[trigger] wire_bit(data, k) by {}
        lemma_no_bits(key, data, 8 * data.len());
    }
}

/// The 32 key bits from a bit on, the first of them highest, with zeros behind the
/// end of the key: each window is the last one moved on by a bit.
pub proof fn law_windows_slide(key: Seq<u8>, i: int)
    requires
        i >= 0,
    ensures
        (2 * rss::window(key, i) + (if wire_bit(key, i + 32) {
            1int
        } else {
            0
        })) % 0x1_0000_0000 == rss::window(key, i + 1),
        8 * key.len() <= i ==> rss::window(key, i) == 0,
        rss::window(key, i) >= 0x8000_0000 <==> wire_bit(key, i),
{
    rss::lemma_window_facts(key, i);
    lemma_bit(key, i);
    lemma_bit(key, i + 32);
}

/// Under a key too short for one window everything hashes to 0.
pub proof fn law_hash_under_a_short_key(key: Seq<u8>, data: Seq<u8>)
    requires
        key.len() < 4,
    ensures
        rss::toeplitz_of(key, data) == 0,
{
}

/// A flow is steered by its whole table entry: the same hash, counted modulo the
/// length of the table, gives the same queue.
pub proof fn law_table_is_indexed_by_the_hash(r: RssView, a: Seq<u8>, b: Seq<u8>)
    requires
        !r.single_queue,
        r.key.len() > 0,
        r.reta.len() > 0,
        rss::toeplitz_of(r.key, a) as int % r.reta.len() as int == rss::toeplitz_of(r.key, b) as int
            % r.reta.len() as int,
    ensures
        r.queue_of(a) == r.queue_of(b),
        r.reta.contains(r.queue_of(a)),
{
    let i = rss::toeplitz_of(r.key, a) as int % r.reta.len() as int;
    lemma_mod_bound(rss::toeplitz_of(r.key, a) as int, r.reta.len() as int);
    assert(r.reta[i] == r.queue_of(a));
}

/// What a device has to answer for its steering to be known: with one queue anything,
/// and with more a key, and a table of one, two, four and so on up to 512 entries.
/// What is then known is what it answered.
pub proof fn law_what_is_loaded(
    n_queues: u16,
    klen: i32,
    key: &[u8],
    n: i32,
    reta: &[u16],
    r: Result<Rss, Error>,
)
    requires
        call_ensures(Rss::load, (n_queues, klen, key, n, reta), r),
        klen <= key@.len() && klen <= 64,
        n <= reta@.len() && n <= 512,
    ensures
        ({
            let table = n == 1 || n == 2 || n == 4 || n == 8 || n == 16 || n == 32 || n == 64 || n
                == 128 || n == 256 || n == 512;
            &&& r is Ok <==> n_queues == 1 || (klen > 0 && table)
            &&& r is Err ==> r->Err_0 == Error::RssUnavailable
            &&& r is Ok ==> (r->Ok_0@.single_queue <==> n_queues == 1)
            &&& r is Ok && n_queues != 1 ==> {
                &&& r->Ok_0@.key.len() == klen && r->Ok_0@.reta.len() == n
                &&& forall|i: int| 0 <= i < klen ==> #[trigger] r->Ok_0@.key[i] == key@[i]
                &&& forall|i: int| 0 <= i < n ==> #[trigger] r->Ok_0@.reta[i] == reta@[i]
            }
        }),
{
    if 0 < n {
        let m = n as u64;
        rss::lemma_power_of_two(m);
        assert((m & ((m - 1) as u64) == 0) <==> (m == 1 || m == 2 || m == 4 || m == 8 || m == 16
            || m == 32 || m == 64 || m == 128 || m == 256 || m == 512)) by (bit_vector)
            requires
                0 < m <= 512,
        ;
    }
}

} // verus!
