//! The RSS steering model.
//!
//! The RX queue a flow lands on is a pure function of its 4-tuple:
//!
//! ```text
//! queue = reta[ toeplitz(key, src_ip || dst_ip || sport || dport) & (len - 1) ]
//! ```
//!
//! The key and table are read from the device at startup rather than assumed.
//! Because we choose our own source port, the function can be inverted: pick
//! ports whose return traffic provably lands on the queue we are polling. That
//! is what lets a worker own a queue outright, with no shared state and no
//! cross-queue delivery.

use vstd::prelude::*;
use vstd::arithmetic::power2::*;
use vstd::bits::*;

use crate::error::Error;

verus! {

/// The first ephemeral port, and how many there are.
pub const EPH_BASE: u16 = 49152;

pub const EPH_LEN: usize = 16384;

pub const OWNED_BITMAP_BYTES: usize = 2048;

pub const MAX_KEY: usize = 64;

pub const MAX_RETA: usize = 512;

/// Bit `k` of `s`, the first byte first and its highest bit first; zero past the end.
pub open spec fn bit_at(s: Seq<u8>, k: int) -> nat {
    if 0 <= k < 8 * s.len() {
        ((s[k / 8] >> ((7 - k % 8) as u8)) & 1) as nat
    } else {
        0
    }
}

/// The `n` bits of `s` from bit `k` on, as a number.
pub open spec fn bits_from(s: Seq<u8>, k: int, n: nat) -> nat
    decreases n,
{
    if n == 0 {
        0
    } else {
        2 * bits_from(s, k, (n - 1) as nat) + bit_at(s, k + n - 1)
    }
}

/// The 32 key bits that go with data bit `k`.
pub open spec fn window(key: Seq<u8>, k: int) -> u32 {
    bits_from(key, k, 32) as u32
}

/// The windows of the first `n` data bits that are set, combined.
pub open spec fn windows_of(key: Seq<u8>, data: Seq<u8>, n: nat) -> u32
    decreases n,
{
    if n == 0 {
        0
    } else {
        let before = windows_of(key, data, (n - 1) as nat);
        if bit_at(data, n - 1) == 1 {
            before ^ window(key, n - 1)
        } else {
            before
        }
    }
}

/// The Toeplitz hash of `data`; 0 under a key too short for one window.
pub open spec fn toeplitz_of(key: Seq<u8>, data: Seq<u8>) -> u32 {
    if key.len() < 4 {
        0
    } else {
        windows_of(key, data, 8 * data.len())
    }
}

proof fn lemma_bits_bound(s: Seq<u8>, k: int, n: nat)
    ensures
        bit_at(s, k) <= 1,
        bits_from(s, k, n) < pow2(n),
    decreases n,
{
    if 0 <= k < 8 * s.len() {
        let b = s[k / 8];
        let r = (7 - k % 8) as u8;
        assert((b >> r) & 1 <= 1) by (bit_vector)
            requires
                r < 8,
        ;
    }
    if n == 0 {
        lemma2_to64();
    } else {
        lemma_bits_bound(s, k, (n - 1) as nat);
        lemma_bits_bound(s, k + n - 1, 0);
        lemma_pow2_unfold(n);
    }
}

/// The first of `n + 1` bits is the highest.
proof fn lemma_bits_first(s: Seq<u8>, k: int, n: nat)
    ensures
        bits_from(s, k, n + 1) == bit_at(s, k) * pow2(n) + bits_from(s, k + 1, n),
    decreases n,
{
    if n == 0 {
        lemma2_to64();
        assert(bits_from(s, k, 1) == 2 * bits_from(s, k, 0) + bit_at(s, k));
    } else {
        lemma_bits_first(s, k, (n - 1) as nat);
        lemma_pow2_unfold(n);
        let b = bit_at(s, k);
        let p = pow2((n - 1) as nat);
        assert(2 * (b * p) == b * (2 * p)) by (nonlinear_arith);
    }
}

/// The next window is the last one shifted by a bit.
proof fn lemma_next_window(key: Seq<u8>, k: int, w: u32, bit: u32)
    requires
        w == window(key, k),
        bit == bit_at(key, k + 32),
    ensures
        ((w << 1) | bit) == window(key, k + 1),
{
    lemma_bits_bound(key, k, 32);
    lemma_bits_bound(key, k + 1, 32);
    lemma_bits_bound(key, k + 32, 0);
    lemma2_to64();
    lemma_bits_first(key, k, 32);
    let a = bit_at(key, k);
    let next = bits_from(key, k + 1, 32);
    lemma_bits_bound(key, k, 0);
    assert(2 * bits_from(key, k, 32) + bit_at(key, k + 32) == a * 0x1_0000_0000 + next);
    assert(((w << 1) | bit) as u64 == ((2 * (w as u64) + bit as u64) as u64) % 0x1_0000_0000u64)
        by (bit_vector)
        requires
            bit <= 1,
    ;
}

/// What a window is made of.
pub(crate) proof fn lemma_window_facts(key: Seq<u8>, k: int)
    requires
        k >= 0,
    ensures
        (2 * window(key, k) + bit_at(key, k + 32)) % 0x1_0000_0000 == window(key, k + 1),
        8 * key.len() <= k ==> window(key, k) == 0,
        window(key, k) >= 0x8000_0000 <==> bit_at(key, k) == 1,
        bit_at(key, k) <= 1,
        bit_at(key, k + 32) <= 1,
{
    lemma_bits_bound(key, k, 32);
    lemma_bits_bound(key, k + 1, 32);
    lemma_bits_bound(key, k + 1, 31);
    lemma_bits_bound(key, k + 32, 0);
    lemma2_to64();
    lemma_bits_first(key, k, 32);
    lemma_bits_first(key, k, 31);
    lemma_bits_past_end(key, k, 32);
    let a = bit_at(key, k);
    let next = bits_from(key, k + 1, 32);
    assert(2 * bits_from(key, k, 32) + bit_at(key, k + 32) == a * 0x1_0000_0000 + next);
    assert((a * 0x1_0000_0000 + next) % 0x1_0000_0000 == next) by (nonlinear_arith)
        requires
            0 <= next < 0x1_0000_0000,
            0 <= a <= 1,
    ;
    assert(bits_from(key, k, 32) == a * 0x8000_0000 + bits_from(key, k + 1, 31));
}

proof fn lemma_bits_past_end(s: Seq<u8>, k: int, n: nat)
    ensures
        8 * s.len() <= k ==> bits_from(s, k, n) == 0,
    decreases n,
{
    if n > 0 {
        lemma_bits_past_end(s, k, (n - 1) as nat);
    }
}

pub fn toeplitz(key: &[u8], data: &[u8]) -> (h: u32)
    ensures
        h == toeplitz_of(key@, data@),
{
    if key.len() < 4 {
        return 0;
    }
    let mut result: u32 = 0;
    let mut w: u32 = ((key[0] as u32) << 24) | ((key[1] as u32) << 16) | ((key[2] as u32) << 8) | (
    key[3] as u32);
    proof {
        lemma_first_window(key@);
    }
    let rest: usize = key.len() - 4;
    let mut i: usize = 0;
    while i < data.len()
        invariant
            i <= data@.len(),
            rest + 4 == key@.len() <= usize::MAX,
            w == window(key@, 8 * i),
            result == windows_of(key@, data@, (8 * i) as nat),
        decreases data@.len() - i,
    {
        let byte: u8 = data[i];
        let mut b: usize = 0;
        while b < 8
            invariant
                b <= 8,
                i < data@.len(),
                rest + 4 == key@.len() <= usize::MAX,
                byte == data@[i as int],
                w == window(key@, 8 * i + b),
                result == windows_of(key@, data@, (8 * i + b) as nat),
            decreases 8 - b,
        {
            let shift: u8 = 7 - b as u8;
            let ghost n = (8 * i + b) as int;
            proof {
                assert(n / 8 == i && n % 8 == b);
                assert(bit_at(data@, n) == ((byte >> shift) & 1) as nat);
            }
            if (byte >> shift) & 1 == 1 {
                result = result ^ w;
            }
            // The key bit 32 after the data bit enters the window.
            let kb: u8 = if i < rest {
                (key[i + 4] >> shift) & 1
            } else {
                0
            };
            proof {
                assert((n + 32) / 8 == i + 4 && (n + 32) % 8 == b);
                assert(kb as nat == bit_at(key@, n + 32));
                lemma_next_window(key@, n, w, kb as u32);
                assert(windows_of(key@, data@, (n + 1) as nat) == result);
            }
            w = (w << 1) | (kb as u32);
            b += 1;
        }
        i += 1;
    }
    result
}

proof fn lemma_byte_bits(s: Seq<u8>, i: int)
    requires
        0 <= i < s.len(),
    ensures
        bits_from(s, 8 * i, 8) == s[i],
{
    let b = s[i];
    reveal_with_fuel(bits_from, 9);
    assert forall|j: int| 0 <= j < 8 implies #[trigger] bit_at(s, 8 * i + j) == ((b >> ((7
        - j) as u8)) & 1) as nat by {
        assert((8 * i + j) / 8 == i && (8 * i + j) % 8 == j);
    }
    assert(bit_at(s, 8 * i + 0) == ((b >> 7u8) & 1) as nat);
    assert(bit_at(s, 8 * i + 1) == ((b >> 6u8) & 1) as nat);
    assert(bit_at(s, 8 * i + 2) == ((b >> 5u8) & 1) as nat);
    assert(bit_at(s, 8 * i + 3) == ((b >> 4u8) & 1) as nat);
    assert(bit_at(s, 8 * i + 4) == ((b >> 3u8) & 1) as nat);
    assert(bit_at(s, 8 * i + 5) == ((b >> 2u8) & 1) as nat);
    assert(bit_at(s, 8 * i + 6) == ((b >> 1u8) & 1) as nat);
    assert(bit_at(s, 8 * i + 7) == ((b >> 0u8) & 1) as nat);
    assert(b == 128 * ((b >> 7u8) & 1) + 64 * ((b >> 6u8) & 1) + 32 * ((b >> 5u8) & 1) + 16 * ((b
        >> 4u8) & 1) + 8 * ((b >> 3u8) & 1) + 4 * ((b >> 2u8) & 1) + 2 * ((b >> 1u8) & 1) + ((b
        >> 0u8) & 1)) by (bit_vector);
}

/// Bits from two stretches that follow each other.
proof fn lemma_bits_join(s: Seq<u8>, k: int, m: nat, n: nat)
    ensures
        bits_from(s, k, m + n) == bits_from(s, k, m) * pow2(n) + bits_from(s, k + m, n),
    decreases n,
{
    if n == 0 {
        lemma2_to64();
    } else {
        lemma_bits_join(s, k, m, (n - 1) as nat);
        lemma_pow2_unfold(n);
        let a = bits_from(s, k, m);
        let p = pow2((n - 1) as nat);
        assert(2 * (a * p) == a * (2 * p)) by (nonlinear_arith);
    }
}

proof fn lemma_first_window(key: Seq<u8>)
    requires
        key.len() >= 4,
    ensures
        (((key[0] as u32) << 24) | ((key[1] as u32) << 16) | ((key[2] as u32) << 8) | (
        key[3] as u32)) == window(key, 0),
{
    let (a, b, c, d) = (key[0], key[1], key[2], key[3]);
    lemma_byte_bits(key, 0);
    lemma_byte_bits(key, 1);
    lemma_byte_bits(key, 2);
    lemma_byte_bits(key, 3);
    lemma_bits_join(key, 0, 8, 8);
    lemma_bits_join(key, 0, 16, 8);
    lemma_bits_join(key, 0, 24, 8);
    lemma2_to64();
    assert((((a as u32) << 24) | ((b as u32) << 16) | ((c as u32) << 8) | (d as u32)) == 16777216
        * (a as u32) + 65536 * (b as u32) + 256 * (c as u32) + (d as u32)) by (bit_vector);
}

/// The device's steering configuration, copied out once at startup.
///
/// A value rather than a global: it is read on every inbound packet by every
/// worker, and a `Copy` of ~1 KiB per worker buys freedom from shared mutable
/// state that the hot path would otherwise have to reason about.
#[derive(Clone, Copy)]
pub struct Rss {
    key: [u8; MAX_KEY],
    key_len: usize,
    reta: [u16; MAX_RETA],
    reta_len: usize,
    /// One queue receives everything, so there is nothing to predict. The PMD
    /// does not configure RSS for a single queue, so the key and table would
    /// be unreadable anyway.
    single_queue: bool,
}

/// The value of an [`Rss`].
pub struct RssView {
    pub single_queue: bool,
    pub key: Seq<u8>,
    pub reta: Seq<u16>,
}

impl View for Rss {
    type V = RssView;

    closed spec fn view(&self) -> RssView {
        RssView {
            single_queue: self.single_queue,
            key: self.key@.take(self.key_len as int),
            reta: self.reta@.take(self.reta_len as int),
        }
    }
}

/// `n` is a power of two.
pub open spec fn power_of_two(n: int) -> bool {
    exists|e: nat| n == #[trigger] pow2(e)
}

/// A flow in wire order: source and destination address, then the ports.
pub open spec fn tuple_of(
    src_ip: Seq<u8>,
    dst_ip: Seq<u8>,
    src_port: u16,
    dst_port: u16,
) -> Seq<u8> {
    src_ip + dst_ip + big_endian(src_port) + big_endian(dst_port)
}

/// The two bytes of `x`, the higher first.
pub open spec fn big_endian(x: u16) -> Seq<u8> {
    seq![(x / 256) as u8, (x % 256) as u8]
}

impl RssView {
    /// The queue a flow lands on; `u16::MAX` if the configuration could not be read.
    pub open spec fn queue_of(self, tuple: Seq<u8>) -> u16 {
        if self.single_queue {
            0
        } else if self.key.len() == 0 || self.reta.len() == 0 {
            u16::MAX
        } else {
            self.reta[toeplitz_of(self.key, tuple) as int % self.reta.len() as int]
        }
    }

    /// The queue that what `peer` sends to our port `local_port` lands on.
    pub open spec fn queue_for(
        self,
        peer_ip: Seq<u8>,
        peer_port: u16,
        our_ip: Seq<u8>,
        local_port: u16,
    ) -> u16 {
        self.queue_of(tuple_of(peer_ip, our_ip, peer_port, local_port))
    }

    /// What holds of every configuration: a table has a power of two entries.
    pub open spec fn valid(self) -> bool {
        self.reta.len() > 0 ==> power_of_two(self.reta.len() as int)
    }
}

pub(crate) proof fn lemma_power_of_two(n: u64)
    requires
        0 < n <= 512,
    ensures
        (n & ((n - 1) as u64) == 0) <==> power_of_two(n as int),
{
    lemma2_to64();
    assert((n & ((n - 1) as u64) == 0) <==> (n == 1 || n == 2 || n == 4 || n == 8 || n == 16 || n
        == 32 || n == 64 || n == 128 || n == 256 || n == 512)) by (bit_vector)
        requires
            0 < n <= 512,
    ;
    if power_of_two(n as int) {
        let e = choose|e: nat| n == #[trigger] pow2(e);
        if e > 9 {
            lemma_pow2_strictly_increases(9, e);
        }
        assert(e == 0 || e == 1 || e == 2 || e == 3 || e == 4 || e == 5 || e == 6 || e == 7 || e
            == 8 || e == 9);
    }
    assert(pow2(0) == 1 && pow2(1) == 2 && pow2(2) == 4 && pow2(3) == 8 && pow2(4) == 16 && pow2(5)
        == 32 && pow2(6) == 64 && pow2(7) == 128 && pow2(8) == 256 && pow2(9) == 512);
}

proof fn lemma_mask_is_mod(h: u64, n: u64)
    requires
        0 < n <= 512,
        power_of_two(n as int),
    ensures
        (h & ((n - 1) as u64)) == h % n,
{
    let e = choose|e: nat| n == #[trigger] pow2(e);
    lemma2_to64();
    if e > 9 {
        lemma_pow2_strictly_increases(9, e);
    }
    lemma_u64_low_bits_mask_is_mod(h, e);
}

impl Rss {
    /// What holds of every configuration.
    pub closed spec fn wf(&self) -> bool {
        self.key_len <= MAX_KEY && self.reta_len <= MAX_RETA && self@.valid()
    }

    /// One queue, and nothing to steer.
    pub fn single() -> (r: Rss)
        ensures
            r.wf(),
            r@.single_queue,
    {
        Rss {
            key: [0; MAX_KEY],
            key_len: 0,
            reta: [0; MAX_RETA],
            reta_len: 0,
            single_queue: true,
        }
    }

    /// The configuration of `n_queues` queues: `klen` is what the device answered
    /// when asked for its hash key, which is then at the front of `key`, and `n`
    /// for its indirection table. With one queue neither is looked at.
    pub fn load(n_queues: u16, klen: i32, key: &[u8], n: i32, reta: &[u16]) -> (r: Result<Rss, Error>)
        requires
            n_queues != 1 ==> klen <= key@.len() && klen <= MAX_KEY,
            n_queues != 1 ==> n <= reta@.len() && n <= MAX_RETA,
        ensures
            n_queues == 1 ==> r is Ok,
            n_queues != 1 ==> (r is Ok <==> klen > 0 && n > 0 && power_of_two(n as int)),
            match r {
                Ok(rss) => {
                    &&& rss.wf()
                    &&& rss@.single_queue == (n_queues == 1)
                    &&& n_queues != 1 ==> rss@.key == key@.take(klen as int) && rss@.reta
                        == reta@.take(n as int)
                },
                Err(e) => e == Error::RssUnavailable,
            },
    {
        if n_queues == 1 {
            return Ok(Rss::single());
        }
        if klen <= 0 || n <= 0 {
            return Err(Error::RssUnavailable);
        }
        let klen: usize = klen as usize;
        let n: usize = n as usize;
        proof {
            lemma_power_of_two(n as u64);
        }
        if (n as u64) & (n as u64 - 1) != 0 {
            return Err(Error::RssUnavailable);
        }
        let mut rss = Rss {
            key: [0; MAX_KEY],
            key_len: klen,
            reta: [0; MAX_RETA],
            reta_len: n,
            single_queue: false,
        };
        let mut i: usize = 0;
        while i < klen
            invariant
                i <= klen <= key@.len(),
                klen <= MAX_KEY,
                rss.key@.take(i as int) == key@.take(i as int),
                !rss.single_queue,
                rss.key_len == klen,
                rss.reta_len == n,
            decreases klen - i,
        {
            rss.key[i] = key[i];
            i += 1;
            assert(rss.key@.take(i as int) == key@.take(i as int)) by {
                assert(rss.key@.take(i - 1) == key@.take(i - 1));
            }
        }
        let mut j: usize = 0;
        while j < n
            invariant
                j <= n <= reta@.len(),
                n <= MAX_RETA,
                rss.key@.take(klen as int) == key@.take(klen as int),
                rss.reta@.take(j as int) == reta@.take(j as int),
                !rss.single_queue,
                rss.key_len == klen,
                rss.reta_len == n,
            decreases n - j,
        {
            rss.reta[j] = reta[j];
            j += 1;
            assert(rss.reta@.take(j as int) == reta@.take(j as int)) by {
                assert(rss.reta@.take(j - 1) == reta@.take(j - 1));
            }
        }
        Ok(rss)
    }

    /// Predicted RX queue for a 12-byte tuple in wire order. `u16::MAX` if the
    /// configuration could not be read.
    pub fn predict(&self, tuple: &[u8; 12]) -> (q: u16)
        requires
            self.wf(),
        ensures
            q == self@.queue_of(tuple@),
    {
        if self.single_queue {
            return 0;
        }
        if self.key_len == 0 || self.reta_len == 0 {
            return u16::MAX;
        }
        let key: &[u8] = &self.key;
        let key = &key[0..self.key_len];
        let data: &[u8] = tuple;
        let h: u32 = toeplitz(key, data);
        proof {
            assert(key@ == self@.key);
            lemma_mask_is_mod(h as u64, self.reta_len as u64);
        }
        let at: u64 = (h as u64) & (self.reta_len as u64 - 1);
        self.reta[at as usize]
    }

    /// Which RX queue an inbound packet for `local_port` would be steered to.
    /// The peer is the source and we are the destination: the direction the
    /// NIC hashes.
    pub fn queue_for_local_port(
        &self,
        peer_ip: [u8; 4],
        peer_port: u16,
        our_ip: [u8; 4],
        local_port: u16,
    ) -> (q: u16)
        requires
            self.wf(),
        ensures
            q == self@.queue_for(peer_ip@, peer_port, our_ip@, local_port),
    {
        let tuple: [u8; 12] = [
            peer_ip[0],
            peer_ip[1],
            peer_ip[2],
            peer_ip[3],
            our_ip[0],
            our_ip[1],
            our_ip[2],
            our_ip[3],
            (peer_port / 256) as u8,
            (peer_port % 256) as u8,
            (local_port / 256) as u8,
            (local_port % 256) as u8,
        ];
        assert(tuple@ == tuple_of(peer_ip@, our_ip@, peer_port, local_port));
        self.predict(&tuple)
    }
}

/// The `i`-th ephemeral port.
pub open spec fn port_at(i: int) -> u16 {
    (EPH_BASE + i) as u16
}

/// Among the first `n` ephemeral ports those that `f` holds of, in ascending order.
pub open spec fn selected(f: spec_fn(u16) -> bool, n: int) -> Seq<u16>
    decreases n,
{
    if n <= 0 {
        Seq::empty()
    } else if f(port_at(n - 1)) {
        selected(f, n - 1).push(port_at(n - 1))
    } else {
        selected(f, n - 1)
    }
}

/// The list of selected ports ascends, and holds exactly the selected ports.
proof fn lemma_selected(f: spec_fn(u16) -> bool, n: int)
    requires
        0 <= n <= EPH_LEN,
    ensures
        selected(f, n).len() <= n,
        forall|p: u16|
            selected(f, n).contains(p) <==> EPH_BASE <= p && p < EPH_BASE + n && f(p),
        forall|i: int, j: int|
            0 <= i < j < selected(f, n).len() ==> selected(f, n)[i] < selected(f, n)[j],
    decreases n,
{
    if n > 0 {
        lemma_selected(f, n - 1);
        let before = selected(f, n - 1);
        let after = selected(f, n);
        let last = port_at(n - 1);
        assert forall|p: u16|
            after.contains(p) <==> EPH_BASE <= p && p < EPH_BASE + n && f(p) by {
            if after.contains(p) {
                let i = after.index_of(p);
                if i < before.len() {
                    assert(before[i] == p);
                }
                assert(before.contains(p) || p == last);
            }
            if EPH_BASE <= p && p < EPH_BASE + n && f(p) {
                if p == last {
                    assert(after[before.len() as int] == p);
                } else {
                    assert(before.contains(p));
                    let i = before.index_of(p);
                    assert(after[i] == p);
                }
            }
        }
        assert forall|i: int, j: int| 0 <= i < j < after.len() implies after[i] < after[j] by {
            assert(before.contains(after[i]));
        }
    }
}

proof fn lemma_selected_same(f: spec_fn(u16) -> bool, g: spec_fn(u16) -> bool, n: int)
    requires
        0 <= n <= EPH_LEN,
        forall|i: int| 0 <= i < n ==> f(#[trigger] port_at(i)) == g(port_at(i)),
    ensures
        selected(f, n) == selected(g, n),
    decreases n,
{
    if n > 0 {
        lemma_selected_same(f, g, n - 1);
        assert(f(port_at(n - 1)) == g(port_at(n - 1)));
    }
}

/// Bit `i` of a bitmap, each byte's lowest bit first.
spec fn bit_set(bitmap: Seq<u8>, i: int) -> bool {
    bitmap[i / 8] & (1u8 << ((i % 8) as u8)) != 0
}

/// The bitmap holds the ephemeral port `p`.
spec fn marked(bitmap: Seq<u8>, p: u16) -> bool {
    bit_set(bitmap, p - EPH_BASE)
}

/// The ephemeral ports one worker may use, as a bitmap the RX filter can test
/// in constant time.
pub struct OwnedPorts {
    bitmap: Vec<u8>,
    count: u32,
}

impl View for OwnedPorts {
    type V = Seq<u16>;

    /// The ports, in ascending order.
    closed spec fn view(&self) -> Seq<u16> {
        selected(|p: u16| marked(self.bitmap@, p), EPH_LEN as int)
    }
}

impl RssView {
    /// Every ephemeral port whose return traffic from `peer` lands on `queue`, in
    /// ascending order.
    pub open spec fn ports_of(
        self,
        peer_ip: Seq<u8>,
        peer_port: u16,
        our_ip: Seq<u8>,
        queue: u16,
    ) -> Seq<u16> {
        selected(
            |p: u16| self.queue_for(peer_ip, peer_port, our_ip, p) == queue,
            EPH_LEN as int,
        )
    }
}

proof fn lemma_mark(bitmap: Seq<u8>, i: int, k: int)
    requires
        bitmap.len() == OWNED_BITMAP_BYTES,
        0 <= i < EPH_LEN,
        0 <= k < EPH_LEN,
    ensures
        ({
            let after = bitmap.update(i / 8, bitmap[i / 8] | (1u8 << ((i % 8) as u8)));
            bit_set(after, k) == (k == i || bit_set(bitmap, k))
        }),
{
    let b = bitmap[i / 8];
    let x = (i % 8) as u8;
    let y = (k % 8) as u8;
    assert((b | (1u8 << x)) & (1u8 << y) != 0 <==> (x == y || b & (1u8 << y) != 0)) by (bit_vector)
        requires
            x < 8,
            y < 8,
    ;
}

impl Rss {
    /// Every ephemeral source port whose return traffic from `peer` lands on
    /// `queue_id`, as a bitmap over the ephemeral range.
    ///
    /// The set depends on the peer's address, so it is per-endpoint, not
    /// per-worker: two buckets in different regions do not share a partition.
    pub fn owned_ports(
        &self,
        peer_ip: [u8; 4],
        peer_port: u16,
        our_ip: [u8; 4],
        queue_id: u16,
    ) -> (o: OwnedPorts)
        requires
            self.wf(),
        ensures
            o.wf(),
            o@ == self@.ports_of(peer_ip@, peer_port, our_ip@, queue_id),
    {
        let ghost f = |p: u16|
            self@.queue_for(peer_ip@, peer_port, our_ip@, p) == queue_id;
        let mut bitmap: Vec<u8> = Vec::new();
        bitmap.resize(OWNED_BITMAP_BYTES, 0);
        let mut count: u32 = 0;
        proof {
            assert forall|k: int| 0 <= k < EPH_LEN implies !#[trigger] bit_set(bitmap@, k) by {
                let y = (k % 8) as u8;
                assert(0u8 & (1u8 << y) == 0) by (bit_vector);
            }
        }
        let mut i: usize = 0;
        while i < EPH_LEN
            invariant
                i <= EPH_LEN,
                self.wf(),
                bitmap@.len() == OWNED_BITMAP_BYTES,
                f == (|p: u16| self@.queue_for(peer_ip@, peer_port, our_ip@, p) == queue_id),
                count == selected(f, i as int).len(),
                count <= i,
                forall|k: int|
                    0 <= k < i ==> #[trigger] bit_set(bitmap@, k) == f(port_at(k)),
                forall|k: int| i <= k < EPH_LEN ==> !#[trigger] bit_set(bitmap@, k),
            decreases EPH_LEN - i,
        {
            let port: u16 = EPH_BASE + i as u16;
            let ghost before = bitmap@;
            if self.queue_for_local_port(peer_ip, peer_port, our_ip, port) == queue_id {
                bitmap[i / 8] = bitmap[i / 8] | (1u8 << ((i % 8) as u8));
                count += 1;
                proof {
                    assert forall|k: int| 0 <= k < EPH_LEN implies #[trigger] bit_set(bitmap@, k)
                        == (k == i || bit_set(before, k)) by {
                        lemma_mark(before, i as int, k);
                    }
                }
            }
            assert(port == port_at(i as int));
            i += 1;
        }
        let o = OwnedPorts { bitmap, count };
        proof {
            let g = |p: u16| marked(o.bitmap@, p);
            assert forall|k: int| 0 <= k < EPH_LEN implies g(#[trigger] port_at(k)) == f(
                port_at(k),
            ) by {
                assert(bit_set(bitmap@, k) == f(port_at(k)));
            }
            lemma_selected_same(g, f, EPH_LEN as int);
        }
        o
    }
}

/// The distance between ports taken out of `count`, where `want` are wanted.
pub open spec fn stride_of(count: nat, want: nat) -> nat {
    if count / want == 0 {
        1
    } else {
        count / want
    }
}

/// How many entries there are at every `stride`-th place of `n`.
pub open spec fn strides(n: nat, stride: nat) -> nat {
    ((n + stride - 1) / stride as int) as nat
}

/// Every `stride`-th entry of `s`, and no more than `want`.
pub open spec fn every(s: Seq<u16>, stride: nat, want: nat) -> Seq<u16> {
    Seq::new(
        if strides(s.len(), stride) < want {
            strides(s.len(), stride)
        } else {
            want
        },
        |j: int| s[j * stride],
    )
}

/// Up to `want` of the ports in `s`, spread over it.
pub open spec fn spread_of(s: Seq<u16>, want: nat) -> Seq<u16> {
    if want == 0 {
        Seq::empty()
    } else {
        every(s, stride_of(s.len(), want), want)
    }
}

impl OwnedPorts {
    /// What holds of every set of ports.
    pub closed spec fn wf(&self) -> bool {
        self.bitmap@.len() == OWNED_BITMAP_BYTES && self.count == self@.len()
    }

    pub fn count(&self) -> (n: u32)
        requires
            self.wf(),
        ensures
            n == self@.len(),
    {
        self.count
    }

    /// The port is one of these, or no ephemeral port at all: those are never
    /// ours to filter.
    pub fn contains(&self, port: u16) -> (r: bool)
        requires
            self.wf(),
        ensures
            r == (port < EPH_BASE || self@.contains(port)),
    {
        if port < EPH_BASE {
            return true;
        }
        let i: usize = (port - EPH_BASE) as usize;
        proof {
            lemma_selected(|p: u16| marked(self.bitmap@, p), EPH_LEN as int);
        }
        self.bitmap[i / 8] & (1u8 << ((i % 8) as u8)) != 0
    }

    /// Up to `want` ports, spread across the range rather than taken
    /// consecutively. Adjacent ports are no more likely to collide, but
    /// spreading keeps the choice independent of any local structure in the
    /// hash.
    pub fn spread(&self, want: usize) -> (out: Vec<u16>)
        requires
            self.wf(),
        ensures
            out@ == spread_of(self@, want as nat),
    {
        let mut out: Vec<u16> = Vec::new();
        if want == 0 {
            assert(out@ == spread_of(self@, 0));
            return out;
        }
        let share: usize = self.count as usize / want;
        let stride: usize = if share == 0 {
            1
        } else {
            share
        };
        let mut seen: usize = 0;
        let ghost f = |p: u16| marked(self.bitmap@, p);
        let mut i: usize = 0;
        assert(out@ == every(selected(f, 0), stride as nat, want as nat)) by {
            assert((0 + stride - 1) / stride as int == 0) by (nonlinear_arith)
                requires
                    stride > 0,
            ;
        }
        while i < EPH_LEN && out.len() < want
            invariant
                self.wf(),
                i <= EPH_LEN,
                stride > 0,
                want > 0,
                f == (|p: u16| marked(self.bitmap@, p)),
                seen == selected(f, i as int).len(),
                seen <= i,
                out@ == every(selected(f, i as int), stride as nat, want as nat),
            decreases EPH_LEN - i,
        {
            let port: u16 = EPH_BASE + i as u16;
            assert(port == port_at(i as int));
            assert(self@.contains(port) == f(port)) by {
                lemma_selected(f, EPH_LEN as int);
            }
            let ghost before = selected(f, i as int);
            if self.contains(port) {
                if seen % stride == 0 {
                    out.push(port);
                }
                proof {
                    lemma_every_push(before, port, stride as nat, want as nat);
                }
                seen += 1;
            }
            i += 1;
        }
        proof {
            if i < EPH_LEN {
                lemma_every_full(f, i as int, EPH_LEN as int, stride as nat, want as nat);
            }
        }
        out
    }
}

/// The entries at every `stride`-th place, after one more entry.
proof fn lemma_strides_next(n: nat, stride: nat)
    requires
        stride > 0,
    ensures
        strides(n + 1, stride) == strides(n, stride) + (if n % stride == 0 {
            1int
        } else {
            0
        }),
        n % stride == 0 ==> strides(n, stride) * stride == n,
        strides(n, stride) >= 0,
        n > 0 ==> (strides(n, stride) - 1) * stride < n,
{
    let d = stride as int;
    let q = n as int / d;
    let r = n as int % d;
    assert(n == d * q + r && 0 <= r < d) by (nonlinear_arith)
        requires
            d > 0,
            q == n as int / d,
            r == n as int % d,
    ;
    assert((n + d - 1) / d == (if r == 0 {
        q
    } else {
        q + 1
    })) by (nonlinear_arith)
        requires
            d > 0,
            n == d * q + r,
            0 <= r < d,
    ;
    assert((n + 1 + d - 1) / d == q + 1) by (nonlinear_arith)
        requires
            d > 0,
            n == d * q + r,
            0 <= r < d,
    ;
    assert(q >= 0) by (nonlinear_arith)
        requires
            d > 0,
            n == d * q + r,
            0 <= r < d,
            n >= 0,
    ;
    assert(q * d == d * q) by (nonlinear_arith);
    assert((q - 1) * d == d * q - d) by (nonlinear_arith);
}

proof fn lemma_every_push(s: Seq<u16>, p: u16, stride: nat, want: nat)
    requires
        stride > 0,
        strides(s.len(), stride) < want,
    ensures
        every(s.push(p), stride, want) == (if s.len() % stride == 0 {
            every(s, stride, want).push(p)
        } else {
            every(s, stride, want)
        }),
{
    let n = s.len();
    lemma_strides_next(n, stride);
    let k = strides(n, stride);
    assert forall|j: int| 0 <= j < k implies #[trigger] (j * stride) < n by {
        assert(j * stride <= (k - 1) * stride) by (nonlinear_arith)
            requires
                j <= k - 1,
                stride > 0,
        ;
        if n == 0 {
            assert((0 + stride - 1) / stride as int == 0) by (nonlinear_arith)
                requires
                    stride > 0,
            ;
        }
    }
    assert forall|j: int| 0 <= j < k implies #[trigger] s.push(p)[j * stride] == s[j * stride] by {
        assert(0 <= j * stride) by (nonlinear_arith)
            requires
                j >= 0,
                stride > 0,
        ;
    }
    if n % stride == 0 {
        assert(every(s.push(p), stride, want) =~= every(s, stride, want).push(p));
    } else {
        assert(every(s.push(p), stride, want) =~= every(s, stride, want));
    }
}

/// Enough entries stay enough, whatever follows them.
proof fn lemma_every_full(f: spec_fn(u16) -> bool, i: int, n: int, stride: nat, want: nat)
    requires
        0 <= i <= n <= EPH_LEN,
        stride > 0,
        strides(selected(f, i).len(), stride) >= want,
    ensures
        every(selected(f, n), stride, want) == every(selected(f, i), stride, want),
        strides(selected(f, n).len(), stride) >= want,
    decreases n,
{
    if i < n {
        lemma_every_full(f, i, n - 1, stride, want);
        let s = selected(f, n - 1);
        if f(port_at(n - 1)) {
            let t = s.push(port_at(n - 1));
            lemma_strides_next(s.len(), stride);
            let k = strides(s.len(), stride);
            assert forall|j: int| 0 <= j < want implies #[trigger] t[j * stride] == s[j
                * stride] by {
                assert(0 <= j * stride <= (k - 1) * stride) by (nonlinear_arith)
                    requires
                        0 <= j <= k - 1,
                        stride > 0,
                ;
                if s.len() == 0 {
                    assert((0 + stride - 1) / stride as int == 0) by (nonlinear_arith)
                        requires
                            stride > 0,
                    ;
                }
            }
            assert(every(t, stride, want) =~= every(s, stride, want));
        }
    }
}

/// Spreading takes as many ports as are wanted, or all there are.
pub proof fn law_spread_takes_enough(s: Seq<u16>, want: nat)
    ensures
        spread_of(s, want).len() == (if s.len() < want {
            s.len()
        } else {
            want
        }),
{
    if want > 0 {
        let n = s.len() as int;
        let w = want as int;
        let share = n / w;
        let d = stride_of(s.len(), want) as int;
        if share == 0 {
            assert(n < w) by (nonlinear_arith)
                requires
                    n / w == 0,
                    w > 0,
                    n >= 0,
            ;
        } else {
            assert(share > 0 && n >= w && share * w <= n) by (nonlinear_arith)
                requires
                    share == n / w,
                    share != 0,
                    w > 0,
                    n >= 0,
            ;
            assert((n + d - 1) / d >= w) by (nonlinear_arith)
                requires
                    d > 0,
                    d * w <= n,
            ;
        }
    }
}

/// Spreading takes ports in ascending order, each of them one of those given.
pub proof fn law_spread_is_ascending(s: Seq<u16>, want: nat)
    requires
        forall|i: int, j: int| 0 <= i < j < s.len() ==> s[i] < s[j],
    ensures
        forall|i: int| 0 <= i < spread_of(s, want).len() ==> s.contains(spread_of(s, want)[i]),
        forall|i: int, j: int|
            0 <= i < j < spread_of(s, want).len() ==> spread_of(s, want)[i] < spread_of(s, want)[j],
{
    if want > 0 {
        let out = spread_of(s, want);
        let d = stride_of(s.len(), want);
        let k = strides(s.len(), d);
        lemma_strides_next(s.len(), d);
        assert forall|i: int| 0 <= i < out.len() implies 0 <= #[trigger] (i * d) < s.len() by {
            assert(0 <= i * d <= (k - 1) * d) by (nonlinear_arith)
                requires
                    0 <= i <= k - 1,
                    d > 0,
            ;
            if s.len() == 0 {
                assert((0 + d - 1) / d as int == 0) by (nonlinear_arith)
                    requires
                        d > 0,
                ;
            }
        }
        assert forall|i: int| 0 <= i < out.len() implies s.contains(out[i]) by {
            assert(out[i] == s[i * d]);
        }
        assert forall|i: int, j: int| 0 <= i < j < out.len() implies out[i] < out[j] by {
            assert(i * d < j * d) by (nonlinear_arith)
                requires
                    i < j,
                    d > 0,
            ;
        }
    }
}

/// The ports of a queue ascend, and an ephemeral port is one of them exactly
/// where its return traffic lands on that queue. So no port belongs to two
/// queues, and each belongs to the queue it is steered to.
pub proof fn law_ports_partition(
    rss: RssView,
    peer_ip: Seq<u8>,
    peer_port: u16,
    our_ip: Seq<u8>,
    queue: u16,
    port: u16,
)
    ensures
        ({
            let ports = rss.ports_of(peer_ip, peer_port, our_ip, queue);
            &&& ports.contains(port) <==> port >= EPH_BASE && rss.queue_for(
                peer_ip,
                peer_port,
                our_ip,
                port,
            ) == queue
            &&& forall|i: int, j: int| 0 <= i < j < ports.len() ==> ports[i] < ports[j]
            &&& ports.len() <= EPH_LEN
        }),
{
    lemma_selected(
        |p: u16| rss.queue_for(peer_ip, peer_port, our_ip, p) == queue,
        EPH_LEN as int,
    );
}

proof fn lemma_selected_all(f: spec_fn(u16) -> bool, n: int)
    requires
        0 <= n <= EPH_LEN,
        forall|p: u16| #[trigger] f(p),
    ensures
        selected(f, n).len() == n,
    decreases n,
{
    if n > 0 {
        lemma_selected_all(f, n - 1);
    }
}

/// With a single queue, that queue has every ephemeral port.
pub proof fn law_single_queue_owns_all(
    rss: RssView,
    peer_ip: Seq<u8>,
    peer_port: u16,
    our_ip: Seq<u8>,
)
    requires
        rss.single_queue,
    ensures
        rss.ports_of(peer_ip, peer_port, our_ip, 0).len() == EPH_LEN,
{
    lemma_selected_all(
        |p: u16| rss.queue_for(peer_ip, peer_port, our_ip, p) == 0,
        EPH_LEN as int,
    );
}

} // verus!
