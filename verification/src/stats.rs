//! Stack-wide counters and latency histograms. Cheap, and always in the build.
//! Counters wrap; they are read as differences.

use vstd::prelude::*;
use vstd::arithmetic::power2::*;

use crate::nic;
use crate::nic::NicStats;

verus! {

/// Log2 histogram over microseconds: bucket `k > 0` holds `[2^(k-1), 2^k)`, and
/// the last one everything above.
pub const BUCKETS: usize = 32;

/// The bits needed to write `us` down.
pub open spec fn bits_of(us: u64) -> nat
    decreases us,
{
    if us == 0 {
        0
    } else {
        1 + bits_of(us / 2)
    }
}

/// The bucket of a duration in microseconds.
pub open spec fn bucket_of(us: u64) -> nat {
    if bits_of(us) < BUCKETS - 1 {
        bits_of(us)
    } else {
        (BUCKETS - 1) as nat
    }
}

proof fn lemma_bits_of(us: u64)
    ensures
        us < pow2(bits_of(us)),
        us > 0 ==> bits_of(us) > 0 && pow2((bits_of(us) - 1) as nat) <= us,
        bits_of(us) <= 64,
        vstd::std_specs::bits::u64_leading_zeros(us) == 64 - bits_of(us),
    decreases us,
{
    reveal(vstd::std_specs::bits::u64_leading_zeros);
    lemma2_to64();
    if us > 0 {
        lemma_bits_of(us / 2);
        lemma_pow2_unfold(bits_of(us));
        if us / 2 > 0 {
            lemma_pow2_unfold((bits_of(us) - 1) as nat);
        }
        vstd::std_specs::bits::axiom_u64_leading_zeros(us);
    }
}

/// The buckets are what the histogram promises: 0 us is alone in the first, and
/// every other bucket but the last holds `[2^(k-1), 2^k)`.
pub proof fn law_bucket_bounds(us: u64)
    ensures
        bucket_of(us) < BUCKETS,
        bucket_of(us) == 0 <==> us == 0,
        us > 0 ==> pow2((bucket_of(us) - 1) as nat) <= us,
        bucket_of(us) < BUCKETS - 1 ==> us < pow2(bucket_of(us)),
{
    lemma_bits_of(us);
    if us > 0 && bucket_of(us) < bits_of(us) {
        lemma_pow2_increases((bucket_of(us) - 1) as nat, (bits_of(us) - 1) as nat);
    }
}

proof fn lemma_pow2_increases(a: nat, b: nat)
    requires
        a <= b,
    ensures
        pow2(a) <= pow2(b),
{
    if a < b {
        lemma_pow2_strictly_increases(a, b);
    }
}

/// The bucket that a duration of `us` microseconds falls in.
pub fn bucket(us: u64) -> (k: usize)
    ensures
        k == bucket_of(us),
        k < BUCKETS,
{
    if us == 0 {
        return 0;
    }
    proof {
        lemma_bits_of(us);
    }
    let bits: usize = 64 - us.leading_zeros() as usize;
    if bits < BUCKETS - 1 {
        bits
    } else {
        BUCKETS - 1
    }
}

/// Durations as they were recorded, by bucket, with their sum and their maximum
/// in nanoseconds.
#[derive(Debug, Clone, Copy)]
pub struct Histogram {
    pub buckets: [u64; BUCKETS],
    pub total_ns: u64,
    pub max_ns: u64,
}

/// The value of a [`Histogram`].
#[verifier::ext_equal]
pub struct HistView {
    pub buckets: Seq<u64>,
    pub total_ns: u64,
    pub max_ns: u64,
}

impl View for Histogram {
    type V = HistView;

    open spec fn view(&self) -> HistView {
        HistView { buckets: self.buckets@, total_ns: self.total_ns, max_ns: self.max_ns }
    }
}

/// The samples in the first `k` buckets.
pub open spec fn below(h: Seq<u64>, k: int) -> nat
    decreases k,
{
    if k <= 0 {
        0
    } else {
        below(h, k - 1) + h[k - 1] as nat
    }
}

impl HistView {
    /// All the samples recorded.
    pub open spec fn count(self) -> nat {
        below(self.buckets, BUCKETS as int)
    }

    /// One more sample, of `ns` nanoseconds.
    pub open spec fn recorded(self, ns: u64) -> HistView {
        let k = bucket_of(ns / 1_000) as int;
        HistView {
            buckets: self.buckets.update(k, self.buckets[k].wrapping_add(1)),
            total_ns: self.total_ns.wrapping_add(ns),
            max_ns: larger(self.max_ns, ns),
        }
    }
}

/// The larger of two counts.
pub open spec fn larger(a: u64, b: u64) -> u64 {
    if a < b {
        b
    } else {
        a
    }
}

/// A histogram without samples.
pub open spec fn blank_histogram() -> HistView {
    HistView { buckets: Seq::new(BUCKETS as nat, |i: int| 0u64), total_ns: 0, max_ns: 0 }
}

/// The histogram of the given samples.
pub open spec fn histogram_of(samples_ns: Seq<u64>) -> HistView
    decreases samples_ns.len(),
{
    if samples_ns.len() == 0 {
        blank_histogram()
    } else {
        histogram_of(samples_ns.drop_last()).recorded(samples_ns.last())
    }
}

impl Default for Histogram {
    fn default() -> (h: Self)
        ensures
            h@ == blank_histogram(),
    {
        let h = Histogram { buckets: [0; BUCKETS], total_ns: 0, max_ns: 0 };
        assert(h@ == blank_histogram());
        h
    }
}

/// Records one sample of `ns` nanoseconds.
pub fn record(h: &mut Histogram, ns: u64)
    ensures
        final(h)@ == old(h)@.recorded(ns),
{
    h.total_ns = h.total_ns.wrapping_add(ns);
    if h.max_ns < ns {
        h.max_ns = ns;
    }
    let k: usize = bucket(ns / 1_000);
    h.buckets[k] = h.buckets[k].wrapping_add(1);
}

pub(crate) proof fn lemma_below_update(h: Seq<u64>, i: int, v: u64, k: int)
    requires
        0 <= i < h.len(),
        0 <= k <= h.len(),
    ensures
        below(h.update(i, v), k) == below(h, k) + (if i < k {
            v - h[i]
        } else {
            0
        }),
    decreases k,
{
    if k > 0 {
        lemma_below_update(h, i, v, k - 1);
    }
}

proof fn lemma_below_grows(h: Seq<u64>, j: int, k: int)
    requires
        0 <= j <= k,
    ensures
        below(h, j) <= below(h, k),
    decreases k - j,
{
    if j < k {
        lemma_below_grows(h, j, k - 1);
    }
}

impl HistView {
    /// The samples of two histograms in one.
    pub open spec fn merged(self, o: HistView) -> HistView {
        HistView {
            buckets: Seq::new(
                BUCKETS as nat,
                |i: int| self.buckets[i].wrapping_add(o.buckets[i]),
            ),
            total_ns: self.total_ns.wrapping_add(o.total_ns),
            max_ns: larger(self.max_ns, o.max_ns),
        }
    }
}

/// Takes the samples of another histogram in.
fn merge(h: &mut Histogram, o: &Histogram)
    ensures
        final(h)@ == old(h)@.merged(o@),
{
    let ghost before = h@;
    h.total_ns = h.total_ns.wrapping_add(o.total_ns);
    if h.max_ns < o.max_ns {
        h.max_ns = o.max_ns;
    }
    let mut i: usize = 0;
    while i < BUCKETS
        invariant
            i <= BUCKETS,
            h.total_ns == before.total_ns.wrapping_add(o.total_ns),
            h.max_ns == larger(before.max_ns, o.max_ns),
            forall|k: int|
                0 <= k < i ==> #[trigger] h.buckets@[k] == before.buckets[k].wrapping_add(
                    o.buckets@[k],
                ),
            forall|k: int| i <= k < BUCKETS ==> #[trigger] h.buckets@[k] == before.buckets[k],
        decreases BUCKETS - i,
    {
        h.buckets[i] = h.buckets[i].wrapping_add(o.buckets[i]);
        i += 1;
    }
    assert(h@ == before.merged(o@));
}

/// Each recording adds one sample, as long as the counters do not wrap, and the
/// maximum is exact.
pub proof fn law_record_counts(h: HistView, ns: u64)
    requires
        h.buckets.len() == BUCKETS,
        h.count() < u64::MAX,
    ensures
        h.recorded(ns).count() == h.count() + 1,
        h.recorded(ns).max_ns == larger(h.max_ns, ns),
{
    let k = bucket_of(ns / 1_000) as int;
    law_bucket_bounds(ns / 1_000);
    lemma_below_grows(h.buckets, k + 1, BUCKETS as int);
    lemma_below_update(h.buckets, k, h.buckets[k].wrapping_add(1), BUCKETS as int);
}

pub(crate) proof fn lemma_below_blank(k: int)
    requires
        k <= BUCKETS,
    ensures
        below(blank_histogram().buckets, k) == 0,
    decreases k,
{
    if k > 0 {
        lemma_below_blank(k - 1);
    }
}

/// A bucket never holds more than there are samples.
pub(crate) proof fn lemma_bucket_fits(h: HistView, k: int)
    requires
        h.buckets.len() == BUCKETS,
        0 <= k < BUCKETS,
    ensures
        h.buckets[k] <= h.count(),
{
    lemma_below_grows(h.buckets, k + 1, BUCKETS as int);
}

/// A histogram of samples counts every one of them, and its maximum is the
/// largest of them.
pub proof fn law_histogram_counts(samples_ns: Seq<u64>)
    requires
        samples_ns.len() <= u64::MAX,
    ensures
        histogram_of(samples_ns).buckets.len() == BUCKETS,
        histogram_of(samples_ns).count() == samples_ns.len(),
        forall|i: int|
            0 <= i < samples_ns.len() ==> #[trigger] samples_ns[i] <= histogram_of(
                samples_ns,
            ).max_ns,
        samples_ns.len() > 0 ==> samples_ns.contains(histogram_of(samples_ns).max_ns),
    decreases samples_ns.len(),
{
    if samples_ns.len() == 0 {
        lemma_below_blank(BUCKETS as int);
    } else {
        let before = samples_ns.drop_last();
        law_histogram_counts(before);
        law_record_counts(histogram_of(before), samples_ns.last());
        assert forall|i: int| 0 <= i < samples_ns.len() implies #[trigger] samples_ns[i]
            <= histogram_of(samples_ns).max_ns by {
            if i < before.len() {
                assert(before[i] <= histogram_of(before).max_ns);
            }
        }
        if histogram_of(samples_ns).max_ns == samples_ns.last() {
            assert(samples_ns[samples_ns.len() - 1] == samples_ns.last());
        } else {
            let i = before.index_of(histogram_of(before).max_ns);
            assert(samples_ns[i] == before[i]);
        }
    }
}

/// The rank of the `p`-th percentile among `count` samples, from 1 up.
pub open spec fn rank(count: nat, p: u64) -> nat {
    let r = (count * p + 99) / 100;
    if r < 1 {
        1
    } else {
        r as nat
    }
}

/// Bucket `k` holds the sample of rank `t`.
pub open spec fn holds_rank(h: Seq<u64>, t: nat, k: int) -> bool {
    0 <= k < BUCKETS && below(h, k) < t <= below(h, k + 1)
}

/// The sample of rank `t` in bucket `k`, interpolated inside the bucket.
pub open spec fn interpolated(h: Seq<u64>, t: nat, k: int) -> nat {
    if k == 0 {
        0
    } else {
        let lo = pow2((k - 1) as nat);
        lo + lo * ((t - below(h, k) - 1) as nat) / (h[k] as nat)
    }
}

/// The `p`-th percentile in microseconds; 0 of no samples, or past the last one.
pub open spec fn percentile_of(h: Seq<u64>, p: u64) -> nat {
    let count = below(h, BUCKETS as int);
    let t = rank(count, p);
    if count == 0 || t > count {
        0
    } else {
        interpolated(h, t, choose|k: int| holds_rank(h, t, k))
    }
}

pub(crate) proof fn lemma_rank_bucket(h: Seq<u64>, t: nat, k: int)
    requires
        0 < t <= below(h, k),
        0 <= k <= BUCKETS,
    ensures
        exists|j: int| 0 <= j < k && holds_rank(h, t, j),
    decreases k,
{
    if k > 0 {
        if t <= below(h, k - 1) {
            lemma_rank_bucket(h, t, k - 1);
            let j = choose|j: int| 0 <= j < k - 1 && holds_rank(h, t, j);
            assert(0 <= j < k && holds_rank(h, t, j));
        } else {
            assert(holds_rank(h, t, k - 1));
        }
    }
}

proof fn lemma_rank_bucket_order(h: Seq<u64>, s: nat, j: int, t: nat, k: int)
    requires
        holds_rank(h, s, j),
        holds_rank(h, t, k),
        s <= t,
    ensures
        j <= k,
{
    if k < j {
        lemma_below_grows(h, k + 1, j);
    }
}

/// Inside a bucket `[lo, 2 lo)` an interpolated value stays inside it, and grows
/// with the rank.
pub(crate) proof fn lemma_interpolated(h: Seq<u64>, t: nat, k: int)
    requires
        holds_rank(h, t, k),
    ensures
        h[k] > 0,
        k == 0 ==> interpolated(h, t, k) == 0,
        k > 0 ==> pow2((k - 1) as nat) <= interpolated(h, t, k) < 2 * pow2((k - 1) as nat),
        interpolated(h, t, k) <= 0x7fff_ffff,
{
    if k > 0 {
        let lo = pow2((k - 1) as nat) as int;
        let d = t - below(h, k) - 1;
        let n = h[k] as int;
        lemma_pow2_pos((k - 1) as nat);
        lemma2_to64();
        lemma_pow2_increases((k - 1) as nat, 30);
        assert(0 <= d < n);
        assert(0 <= lo * d / n < lo) by (nonlinear_arith)
            requires
                0 <= d < n,
                0 < lo,
        ;
    }
}

/// The `p`-th percentile, interpolated inside its bucket; [`dist`] clamps it to
/// the exact maximum.
pub fn percentile(hist: &[u64; BUCKETS], p: u64) -> (r: u64)
    requires
        below(hist@, BUCKETS as int) <= u64::MAX,
    ensures
        r == percentile_of(hist@, p),
{
    let count: u64 = total_count(hist);
    if count == 0 {
        return 0;
    }
    assert(count * p <= 0xffff_ffff_ffff_fffe_0000_0000_0000_0001) by (nonlinear_arith)
        requires
            0 <= count <= 0xffff_ffff_ffff_ffff,
            0 <= p <= 0xffff_ffff_ffff_ffff,
    ;
    let product: u128 = count as u128 * p as u128;
    let ceil: u128 = (product + 99) / 100;
    let target: u128 = if ceil < 1 {
        1
    } else {
        ceil
    };
    assert(target == rank(count as nat, p)) by {
        assert(product == count * p);
    }
    let mut seen: u128 = 0;
    let mut k: usize = 0;
    while k < BUCKETS
        invariant
            k <= BUCKETS,
            0 < count == below(hist@, BUCKETS as int),
            target == rank(count as nat, p),
            seen == below(hist@, k as int) <= count,
            seen < target,
        decreases BUCKETS - k,
    {
        let n: u64 = hist[k];
        proof {
            lemma_below_grows(hist@, k + 1, BUCKETS as int);
        }
        if seen + n as u128 >= target {
            proof {
                assert(holds_rank(hist@, target as nat, k as int));
                let j = choose|j: int| holds_rank(hist@, target as nat, j);
                lemma_rank_bucket_order(hist@, target as nat, j, target as nat, k as int);
                lemma_rank_bucket_order(hist@, target as nat, k as int, target as nat, j);
                lemma_interpolated(hist@, target as nat, k as int);
            }
            if k == 0 {
                return 0;
            }
            let lo: u64 = 1u64 << (k - 1);
            proof {
                lemma_shifted_one(k - 1);
                lemma2_to64();
                lemma_pow2_increases((k - 1) as nat, 30);
            }
            let d: u128 = target - seen - 1;
            assert(lo * d <= 0x4000_0000 * 0xffff_ffff_ffff_ffff) by (nonlinear_arith)
                requires
                    0 <= lo <= 0x4000_0000,
                    0 <= d <= 0xffff_ffff_ffff_ffff,
            ;
            let scaled: u128 = lo as u128 * d;
            return lo + (scaled / n as u128) as u64;
        }
        seen = seen + n as u128;
        k += 1;
    }
    0
}

proof fn lemma_shifted_one(e: int)
    requires
        0 <= e <= 30,
    ensures
        1u64 << (e as usize) == pow2(e as nat),
{
    lemma2_to64();
    lemma_pow2_increases(e as nat, 30);
    vstd::bits::lemma_u64_shl_is_mul(1, e as u64);
    let u = e as usize;
    let v = e as u64;
    assert(u as u64 == v);
    assert(1u64 << u == 1u64 << (u as u64)) by (bit_vector)
        requires
            u <= 30,
    ;
}

/// The samples in all buckets.
fn total_count(hist: &[u64; BUCKETS]) -> (n: u64)
    requires
        below(hist@, BUCKETS as int) <= u64::MAX,
    ensures
        n == below(hist@, BUCKETS as int),
{
    let mut n: u64 = 0;
    let mut i: usize = 0;
    while i < BUCKETS
        invariant
            i <= BUCKETS,
            n == below(hist@, i as int),
            below(hist@, BUCKETS as int) <= u64::MAX,
        decreases BUCKETS - i,
    {
        proof {
            lemma_below_grows(hist@, i + 1, BUCKETS as int);
        }
        n = n + hist[i];
        i += 1;
    }
    n
}

/// Percentiles are ordered: a higher one is never smaller.
pub proof fn law_percentiles_ordered(h: Seq<u64>, p: u64, q: u64)
    requires
        p <= q <= 100,
    ensures
        percentile_of(h, p) <= percentile_of(h, q),
{
    let count = below(h, BUCKETS as int);
    if count > 0 {
        let s = rank(count, p);
        let t = rank(count, q);
        assert(count * p <= count * q <= count * 100) by (nonlinear_arith)
            requires
                p <= q <= 100,
                count >= 0,
        ;
        assert(s <= t <= count);
        lemma_rank_bucket(h, s, BUCKETS as int);
        lemma_rank_bucket(h, t, BUCKETS as int);
        let j = choose|k: int| holds_rank(h, s, k);
        let k = choose|k: int| holds_rank(h, t, k);
        lemma_rank_bucket_order(h, s, j, t, k);
        lemma_interpolated(h, s, j);
        lemma_interpolated(h, t, k);
        if j < k {
            if j > 0 {
                lemma_pow2_unfold(j as nat);
                lemma_pow2_increases(j as nat, (k - 1) as nat);
            }
        } else if k > 0 {
            let lo = pow2((k - 1) as nat) as int;
            let a = s - below(h, k) - 1;
            let b = t - below(h, k) - 1;
            let n = h[k] as int;
            assert(lo * a / n <= lo * b / n) by {
                assert(lo * a <= lo * b) by (nonlinear_arith)
                    requires
                        0 <= lo,
                        a <= b,
                ;
                vstd::arithmetic::div_mod::lemma_div_is_ordered(lo * a, lo * b, n);
            }
        }
    }
}

/// One measured duration, in microseconds.
#[derive(Debug, Clone, Copy, Default, PartialEq, Eq, Structural)]
pub struct Dist {
    pub n: u64,
    pub us_avg: u64,
    pub us_p50: u64,
    pub us_p90: u64,
    pub us_max: u64,
}

/// `p` of the histogram, but not past its exact maximum.
pub open spec fn clamped(h: HistView, p: u64) -> nat {
    if percentile_of(h.buckets, p) < h.max_ns / 1_000 {
        percentile_of(h.buckets, p)
    } else {
        (h.max_ns / 1_000) as nat
    }
}

/// The distribution of the samples in a histogram.
pub open spec fn distribution(h: HistView) -> Dist {
    Dist {
        n: h.count() as u64,
        us_avg: if h.count() == 0 {
            0
        } else {
            (h.total_ns as int / h.count() as int / 1_000) as u64
        },
        us_p50: clamped(h, 50) as u64,
        us_p90: clamped(h, 90) as u64,
        us_max: h.max_ns / 1_000,
    }
}

/// The distribution of the samples in a histogram.
pub fn dist(h: &Histogram) -> (d: Dist)
    requires
        h@.count() <= u64::MAX,
    ensures
        d == distribution(h@),
{
    let n: u64 = total_count(&h.buckets);
    let us_max: u64 = h.max_ns / 1_000;
    let p50: u64 = percentile(&h.buckets, 50);
    let p90: u64 = percentile(&h.buckets, 90);
    Dist {
        n,
        us_avg: if n == 0 {
            0
        } else {
            h.total_ns / n / 1_000
        },
        us_p50: if p50 < us_max {
            p50
        } else {
            us_max
        },
        us_p90: if p90 < us_max {
            p90
        } else {
            us_max
        },
        us_max,
    }
}

/// The distribution of the given samples, through the same histogram.
pub fn dist_of(samples_ns: &[u64]) -> (d: Dist)
    ensures
        d == distribution(histogram_of(samples_ns@)),
{
    let mut h = Histogram::default();
    let mut i: usize = 0;
    while i < samples_ns.len()
        invariant
            i <= samples_ns@.len(),
            h@ == histogram_of(samples_ns@.take(i as int)),
        decreases samples_ns@.len() - i,
    {
        record(&mut h, samples_ns[i]);
        assert(samples_ns@.take(i + 1).drop_last() == samples_ns@.take(i as int));
        i += 1;
    }
    assert(samples_ns@.take(i as int) == samples_ns@);
    proof {
        law_histogram_counts(samples_ns@);
    }
    dist(&h)
}

/// The median is at most the 90th percentile, and that at most the maximum.
pub proof fn law_dist_ordered(h: HistView)
    ensures
        distribution(h).us_p50 <= distribution(h).us_p90 <= distribution(h).us_max,
{
    law_percentiles_ordered(h.buckets, 50, 90);
}

/// Worker-loop counters: sums up to `WorkNs`, maxima after.
#[derive(Debug, Clone, Copy, PartialEq, Eq, Structural)]
pub enum Poll {
    Iters,
    GapNsTotal,
    GapsOver1ms,
    BusyNs,
    ActiveIters,
    WorkNs,
    GapNsMax,
    BusyNsMax,
    LoopNsMax,
    IfaceNsMax,
    StepsNsMax,
    RxPktsMax,
    TxPktsMax,
}

/// How many worker-loop counters there are.
pub const POLL_N: usize = 13;

/// The last of the worker-loop counters that are sums.
pub const POLL_LAST_SUM: usize = 5;

impl Poll {
    /// Where the counter stands.
    pub open spec fn at(self) -> int {
        match self {
            Poll::Iters => 0,
            Poll::GapNsTotal => 1,
            Poll::GapsOver1ms => 2,
            Poll::BusyNs => 3,
            Poll::ActiveIters => 4,
            Poll::WorkNs => 5,
            Poll::GapNsMax => 6,
            Poll::BusyNsMax => 7,
            Poll::LoopNsMax => 8,
            Poll::IfaceNsMax => 9,
            Poll::StepsNsMax => 10,
            Poll::RxPktsMax => 11,
            Poll::TxPktsMax => 12,
        }
    }

    pub fn index(self) -> (i: usize)
        ensures
            i == self.at(),
            i < POLL_N,
    {
        match self {
            Poll::Iters => 0,
            Poll::GapNsTotal => 1,
            Poll::GapsOver1ms => 2,
            Poll::BusyNs => 3,
            Poll::ActiveIters => 4,
            Poll::WorkNs => 5,
            Poll::GapNsMax => 6,
            Poll::BusyNsMax => 7,
            Poll::LoopNsMax => 8,
            Poll::IfaceNsMax => 9,
            Poll::StepsNsMax => 10,
            Poll::RxPktsMax => 11,
            Poll::TxPktsMax => 12,
        }
    }
}

/// Every counter of the stack.
#[derive(Debug, Clone, Copy)]
pub struct Counters {
    pub misrouted_drops: u64,
    pub tx_alloc_fail: u64,
    pub tx_burst_fail: u64,
    pub conns_established: u64,
    pub conns_failed: u64,
    pub setup: Histogram,
    pub dial: Histogram,
    pub requests_served: u64,
    pub requests_reused: u64,
    pub requests_retried: u64,
    pub requests_done: u64,
    pub queue_ns_total: u64,
    pub wire_ns_total: u64,
    pub body_bytes: u64,
    pub ttfb_ns_total: u64,
    pub ttfb_n: u64,
    pub xfer_ns_total: u64,
    pub xfer_n: u64,
    pub poll: [u64; POLL_N],
    pub wake_n: u64,
    pub wake_ns_total: u64,
    pub wake_ns_max: u64,
    pub get_calls: u64,
    pub get_ns_total: u64,
    pub in_flight: u64,
    pub active_since_ns: u64,
    pub active_ns_total: u64,
}

/// The value of [`Counters`].
#[verifier::ext_equal]
pub struct CountersView {
    pub misrouted_drops: u64,
    pub tx_alloc_fail: u64,
    pub tx_burst_fail: u64,
    pub conns_established: u64,
    pub conns_failed: u64,
    pub setup: HistView,
    pub dial: HistView,
    pub requests_served: u64,
    pub requests_reused: u64,
    pub requests_retried: u64,
    pub requests_done: u64,
    pub queue_ns_total: u64,
    pub wire_ns_total: u64,
    pub body_bytes: u64,
    pub ttfb_ns_total: u64,
    pub ttfb_n: u64,
    pub xfer_ns_total: u64,
    pub xfer_n: u64,
    pub poll: Seq<u64>,
    pub wake_n: u64,
    pub wake_ns_total: u64,
    pub wake_ns_max: u64,
    pub get_calls: u64,
    pub get_ns_total: u64,
    pub in_flight: u64,
    pub active_since_ns: u64,
    pub active_ns_total: u64,
}

impl View for Counters {
    type V = CountersView;

    open spec fn view(&self) -> CountersView {
        CountersView {
            misrouted_drops: self.misrouted_drops,
            tx_alloc_fail: self.tx_alloc_fail,
            tx_burst_fail: self.tx_burst_fail,
            conns_established: self.conns_established,
            conns_failed: self.conns_failed,
            setup: self.setup@,
            dial: self.dial@,
            requests_served: self.requests_served,
            requests_reused: self.requests_reused,
            requests_retried: self.requests_retried,
            requests_done: self.requests_done,
            queue_ns_total: self.queue_ns_total,
            wire_ns_total: self.wire_ns_total,
            body_bytes: self.body_bytes,
            ttfb_ns_total: self.ttfb_ns_total,
            ttfb_n: self.ttfb_n,
            xfer_ns_total: self.xfer_ns_total,
            xfer_n: self.xfer_n,
            poll: self.poll@,
            wake_n: self.wake_n,
            wake_ns_total: self.wake_ns_total,
            wake_ns_max: self.wake_ns_max,
            get_calls: self.get_calls,
            get_ns_total: self.get_ns_total,
            in_flight: self.in_flight,
            active_since_ns: self.active_since_ns,
            active_ns_total: self.active_ns_total,
        }
    }
}

/// Every counter at zero.
pub open spec fn blank_counters() -> CountersView {
    CountersView {
        misrouted_drops: 0,
        tx_alloc_fail: 0,
        tx_burst_fail: 0,
        conns_established: 0,
        conns_failed: 0,
        setup: blank_histogram(),
        dial: blank_histogram(),
        requests_served: 0,
        requests_reused: 0,
        requests_retried: 0,
        requests_done: 0,
        queue_ns_total: 0,
        wire_ns_total: 0,
        body_bytes: 0,
        ttfb_ns_total: 0,
        ttfb_n: 0,
        xfer_ns_total: 0,
        xfer_n: 0,
        poll: blank_poll(),
        wake_n: 0,
        wake_ns_total: 0,
        wake_ns_max: 0,
        get_calls: 0,
        get_ns_total: 0,
        in_flight: 0,
        active_since_ns: 0,
        active_ns_total: 0,
    }
}

/// Worker-loop counters at zero.
pub open spec fn blank_poll() -> Seq<u64> {
    Seq::new(POLL_N as nat, |i: int| 0u64)
}

impl Default for Counters {
    fn default() -> (c: Self)
        ensures
            c@ == blank_counters(),
    {
        let c = Counters {
            misrouted_drops: 0,
            tx_alloc_fail: 0,
            tx_burst_fail: 0,
            conns_established: 0,
            conns_failed: 0,
            setup: Histogram::default(),
            dial: Histogram::default(),
            requests_served: 0,
            requests_reused: 0,
            requests_retried: 0,
            requests_done: 0,
            queue_ns_total: 0,
            wire_ns_total: 0,
            body_bytes: 0,
            ttfb_ns_total: 0,
            ttfb_n: 0,
            xfer_ns_total: 0,
            xfer_n: 0,
            poll: [0; POLL_N],
            wake_n: 0,
            wake_ns_total: 0,
            wake_ns_max: 0,
            get_calls: 0,
            get_ns_total: 0,
            in_flight: 0,
            active_since_ns: 0,
            active_ns_total: 0,
        };
        assert(c.poll@ == blank_poll());
        assert(c@ == blank_counters());
        c
    }
}

impl CountersView {
    /// A connection finished its handshake `setup_ns` after its SYN.
    pub open spec fn with_established(self, setup_ns: u64) -> CountersView {
        CountersView {
            conns_established: self.conns_established.wrapping_add(1),
            setup: self.setup.recorded(setup_ns),
            ..self
        }
    }

    /// A connection gave up before it was established: there is no setup to measure.
    pub open spec fn with_failed(self) -> CountersView {
        CountersView { conns_failed: self.conns_failed.wrapping_add(1), ..self }
    }

    /// Building a connection took `dial_ns`.
    pub open spec fn with_dialled(self, dial_ns: u64) -> CountersView {
        CountersView { dial: self.dial.recorded(dial_ns), ..self }
    }

    /// A request went out, on a kept connection or on a new one.
    pub open spec fn with_request_started(self, reused: bool) -> CountersView {
        CountersView {
            requests_served: self.requests_served.wrapping_add(1),
            requests_reused: if reused {
                self.requests_reused.wrapping_add(1)
            } else {
                self.requests_reused
            },
            ..self
        }
    }

    /// A request was dialled again.
    pub open spec fn with_retried(self) -> CountersView {
        CountersView { requests_retried: self.requests_retried.wrapping_add(1), ..self }
    }

    /// A request is over.
    pub open spec fn with_request_finished(
        self,
        queue_ns: u64,
        wire_ns: u64,
        bytes: u64,
        ttfb_ns: Option<u64>,
        xfer_ns: Option<u64>,
    ) -> CountersView {
        CountersView {
            requests_done: self.requests_done.wrapping_add(1),
            queue_ns_total: self.queue_ns_total.wrapping_add(queue_ns),
            wire_ns_total: self.wire_ns_total.wrapping_add(wire_ns),
            body_bytes: self.body_bytes.wrapping_add(bytes),
            ttfb_ns_total: match ttfb_ns {
                Some(t) => self.ttfb_ns_total.wrapping_add(t),
                None => self.ttfb_ns_total,
            },
            ttfb_n: match ttfb_ns {
                Some(t) => self.ttfb_n.wrapping_add(1),
                None => self.ttfb_n,
            },
            xfer_ns_total: match xfer_ns {
                Some(x) => self.xfer_ns_total.wrapping_add(x),
                None => self.xfer_ns_total,
            },
            xfer_n: match xfer_ns {
                Some(x) => self.xfer_n.wrapping_add(1),
                None => self.xfer_n,
            },
            ..self
        }
    }

    /// What was counted elsewhere taken in: counts add up, maxima are kept. Who is
    /// waiting, and since when, is not counted elsewhere.
    pub open spec fn absorbed(self, o: CountersView) -> CountersView {
        CountersView {
            misrouted_drops: self.misrouted_drops.wrapping_add(o.misrouted_drops),
            tx_alloc_fail: self.tx_alloc_fail.wrapping_add(o.tx_alloc_fail),
            tx_burst_fail: self.tx_burst_fail.wrapping_add(o.tx_burst_fail),
            conns_established: self.conns_established.wrapping_add(o.conns_established),
            conns_failed: self.conns_failed.wrapping_add(o.conns_failed),
            setup: self.setup.merged(o.setup),
            dial: self.dial.merged(o.dial),
            requests_served: self.requests_served.wrapping_add(o.requests_served),
            requests_reused: self.requests_reused.wrapping_add(o.requests_reused),
            requests_retried: self.requests_retried.wrapping_add(o.requests_retried),
            requests_done: self.requests_done.wrapping_add(o.requests_done),
            queue_ns_total: self.queue_ns_total.wrapping_add(o.queue_ns_total),
            wire_ns_total: self.wire_ns_total.wrapping_add(o.wire_ns_total),
            body_bytes: self.body_bytes.wrapping_add(o.body_bytes),
            ttfb_ns_total: self.ttfb_ns_total.wrapping_add(o.ttfb_ns_total),
            ttfb_n: self.ttfb_n.wrapping_add(o.ttfb_n),
            xfer_ns_total: self.xfer_ns_total.wrapping_add(o.xfer_ns_total),
            xfer_n: self.xfer_n.wrapping_add(o.xfer_n),
            poll: poll_merged(self.poll, o.poll),
            wake_n: self.wake_n.wrapping_add(o.wake_n),
            wake_ns_total: self.wake_ns_total.wrapping_add(o.wake_ns_total),
            wake_ns_max: larger(self.wake_ns_max, o.wake_ns_max),
            get_calls: self.get_calls.wrapping_add(o.get_calls),
            get_ns_total: self.get_ns_total.wrapping_add(o.get_ns_total),
            active_ns_total: self.active_ns_total.wrapping_add(o.active_ns_total),
            in_flight: self.in_flight,
            active_since_ns: self.active_since_ns,
        }
    }

    /// A caller began to wait at `now_ns`.
    pub open spec fn with_get_started(self, now_ns: u64) -> CountersView {
        CountersView {
            in_flight: self.in_flight.wrapping_add(1),
            active_since_ns: if self.in_flight == 0 {
                now_ns
            } else {
                self.active_since_ns
            },
            ..self
        }
    }

    /// A caller got its answer at `now_ns`.
    pub open spec fn with_get_finished(
        self,
        total_ns: u64,
        wake_ns: u64,
        now_ns: u64,
    ) -> CountersView {
        CountersView {
            in_flight: self.in_flight.wrapping_sub(1),
            active_ns_total: if self.in_flight == 1 {
                self.active_ns_total.wrapping_add(now_ns.saturating_sub(self.active_since_ns))
            } else {
                self.active_ns_total
            },
            get_calls: self.get_calls.wrapping_add(1),
            get_ns_total: self.get_ns_total.wrapping_add(total_ns),
            wake_n: self.wake_n.wrapping_add(1),
            wake_ns_total: self.wake_ns_total.wrapping_add(wake_ns),
            wake_ns_max: larger(self.wake_ns_max, wake_ns),
            ..self
        }
    }
}

impl Counters {
    /// Takes in what was counted elsewhere, by a worker for itself.
    pub fn absorb(&mut self, o: &Counters)
        ensures
            final(self)@ == old(self)@.absorbed(o@),
    {
        self.misrouted_drops = self.misrouted_drops.wrapping_add(o.misrouted_drops);
        self.tx_alloc_fail = self.tx_alloc_fail.wrapping_add(o.tx_alloc_fail);
        self.tx_burst_fail = self.tx_burst_fail.wrapping_add(o.tx_burst_fail);
        self.conns_established = self.conns_established.wrapping_add(o.conns_established);
        self.conns_failed = self.conns_failed.wrapping_add(o.conns_failed);
        merge(&mut self.setup, &o.setup);
        merge(&mut self.dial, &o.dial);
        self.requests_served = self.requests_served.wrapping_add(o.requests_served);
        self.requests_reused = self.requests_reused.wrapping_add(o.requests_reused);
        self.requests_retried = self.requests_retried.wrapping_add(o.requests_retried);
        self.requests_done = self.requests_done.wrapping_add(o.requests_done);
        self.queue_ns_total = self.queue_ns_total.wrapping_add(o.queue_ns_total);
        self.wire_ns_total = self.wire_ns_total.wrapping_add(o.wire_ns_total);
        self.body_bytes = self.body_bytes.wrapping_add(o.body_bytes);
        self.ttfb_ns_total = self.ttfb_ns_total.wrapping_add(o.ttfb_ns_total);
        self.ttfb_n = self.ttfb_n.wrapping_add(o.ttfb_n);
        self.xfer_ns_total = self.xfer_ns_total.wrapping_add(o.xfer_ns_total);
        self.xfer_n = self.xfer_n.wrapping_add(o.xfer_n);
        let mut polled = PollAcc { counts: o.poll };
        polled.flush(self);
        self.wake_n = self.wake_n.wrapping_add(o.wake_n);
        self.wake_ns_total = self.wake_ns_total.wrapping_add(o.wake_ns_total);
        if self.wake_ns_max < o.wake_ns_max {
            self.wake_ns_max = o.wake_ns_max;
        }
        self.get_calls = self.get_calls.wrapping_add(o.get_calls);
        self.get_ns_total = self.get_ns_total.wrapping_add(o.get_ns_total);
        self.active_ns_total = self.active_ns_total.wrapping_add(o.active_ns_total);
    }

    pub fn request_retried(&mut self)
        ensures
            final(self)@ == old(self)@.with_retried(),
    {
        self.requests_retried = self.requests_retried.wrapping_add(1);
    }

    /// Per request: submit -> pick-up (queue), pick-up -> complete (wire), and
    /// the wire split at the first head byte (ttfb / xfer).
    pub fn request_finished(
        &mut self,
        queue_ns: u64,
        wire_ns: u64,
        bytes: u64,
        ttfb_ns: Option<u64>,
        xfer_ns: Option<u64>,
    )
        ensures
            final(self)@ == old(self)@.with_request_finished(
                queue_ns,
                wire_ns,
                bytes,
                ttfb_ns,
                xfer_ns,
            ),
    {
        self.requests_done = self.requests_done.wrapping_add(1);
        self.queue_ns_total = self.queue_ns_total.wrapping_add(queue_ns);
        self.wire_ns_total = self.wire_ns_total.wrapping_add(wire_ns);
        self.body_bytes = self.body_bytes.wrapping_add(bytes);
        if let Some(t) = ttfb_ns {
            self.ttfb_ns_total = self.ttfb_ns_total.wrapping_add(t);
            self.ttfb_n = self.ttfb_n.wrapping_add(1);
        }
        if let Some(x) = xfer_ns {
            self.xfer_ns_total = self.xfer_ns_total.wrapping_add(x);
            self.xfer_n = self.xfer_n.wrapping_add(1);
        }
    }

    pub fn get_started(&mut self, now_ns: u64)
        ensures
            final(self)@ == old(self)@.with_get_started(now_ns),
    {
        if self.in_flight == 0 {
            self.active_since_ns = now_ns;
        }
        self.in_flight = self.in_flight.wrapping_add(1);
    }

    pub fn get_finished(&mut self, total_ns: u64, wake_ns: u64, now_ns: u64)
        ensures
            final(self)@ == old(self)@.with_get_finished(total_ns, wake_ns, now_ns),
    {
        if self.in_flight == 1 {
            self.active_ns_total = self.active_ns_total.wrapping_add(
                now_ns.saturating_sub(self.active_since_ns),
            );
        }
        self.in_flight = self.in_flight.wrapping_sub(1);
        self.get_calls = self.get_calls.wrapping_add(1);
        self.get_ns_total = self.get_ns_total.wrapping_add(total_ns);
        self.wake_n = self.wake_n.wrapping_add(1);
        self.wake_ns_total = self.wake_ns_total.wrapping_add(wake_ns);
        if self.wake_ns_max < wake_ns {
            self.wake_ns_max = wake_ns;
        }
    }

    pub fn misrouted_drop(&mut self)
        ensures
            final(self)@ == (CountersView {
                misrouted_drops: old(self)@.misrouted_drops.wrapping_add(1),
                ..old(self)@
            }),
    {
        self.misrouted_drops = self.misrouted_drops.wrapping_add(1);
    }

    pub fn tx_alloc_fail(&mut self)
        ensures
            final(self)@ == (CountersView {
                tx_alloc_fail: old(self)@.tx_alloc_fail.wrapping_add(1),
                ..old(self)@
            }),
    {
        self.tx_alloc_fail = self.tx_alloc_fail.wrapping_add(1);
    }

    /// Frames the TX ring would not take in the poll that made them; they are
    /// retried next poll, so this counts delay, not loss.
    pub fn tx_held(&mut self, n: u64)
        ensures
            final(self)@ == (CountersView {
                tx_burst_fail: old(self)@.tx_burst_fail.wrapping_add(n),
                ..old(self)@
            }),
    {
        self.tx_burst_fail = self.tx_burst_fail.wrapping_add(n);
    }

    pub fn conn_established(&mut self, setup_ns: u64)
        ensures
            final(self)@ == old(self)@.with_established(setup_ns),
    {
        self.conns_established = self.conns_established.wrapping_add(1);
        record(&mut self.setup, setup_ns);
    }

    /// A connection gave up. How long that took is no setup time: those run from the
    /// SYN to Established, which it never reached.
    pub fn conn_failed(&mut self, _setup_ns: u64)
        ensures
            final(self)@ == old(self)@.with_failed(),
    {
        self.conns_failed = self.conns_failed.wrapping_add(1);
    }

    pub fn conn_dialled(&mut self, dial_ns: u64)
        ensures
            final(self)@ == old(self)@.with_dialled(dial_ns),
    {
        record(&mut self.dial, dial_ns);
    }

    pub fn request_started(&mut self, reused: bool)
        ensures
            final(self)@ == old(self)@.with_request_started(reused),
    {
        self.requests_served = self.requests_served.wrapping_add(1);
        if reused {
            self.requests_reused = self.requests_reused.wrapping_add(1);
        }
    }
}

/// The time during which at least one caller was waiting, up to `now_ns`.
pub open spec fn active_until(c: CountersView, now_ns: u64) -> int {
    c.active_ns_total + if c.in_flight > 0 {
        now_ns - c.active_since_ns
    } else {
        0
    }
}

/// The active time is the wall time with at least one request outstanding: it
/// does not jump when a caller starts or finishes, it runs while one waits, and
/// it stands still while none does.
pub proof fn law_active_time(c: CountersView, total_ns: u64, wake_ns: u64, now: u64, later: u64)
    requires
        c.in_flight > 0 ==> c.active_since_ns <= now,
        now <= later,
        c.in_flight < u64::MAX,
        active_until(c, now) <= u64::MAX,
    ensures
        active_until(c.with_get_started(now), now) == active_until(c, now),
        c.in_flight > 0 ==> active_until(c.with_get_finished(total_ns, wake_ns, now), now)
            == active_until(c, now),
        active_until(c, later) - active_until(c, now) == (if c.in_flight > 0 {
            later - now
        } else {
            0
        }),
{
}

/// Per-worker, flushed in batches so workers do not share cache lines per iteration.
#[derive(Debug, Clone, Copy)]
pub struct PollAcc {
    pub counts: [u64; POLL_N],
}

impl View for PollAcc {
    type V = Seq<u64>;

    open spec fn view(&self) -> Seq<u64> {
        self.counts@
    }
}

impl Default for PollAcc {
    fn default() -> (a: Self)
        ensures
            a@ == blank_poll(),
    {
        let a = PollAcc { counts: [0; POLL_N] };
        assert(a@ == blank_poll());
        a
    }
}

/// `n` added to counter `k`.
pub open spec fn poll_add(a: Seq<u64>, k: Poll, n: u64) -> Seq<u64> {
    a.update(k.at(), a[k.at()].wrapping_add(n))
}

/// Counter `k` raised to `n`.
pub open spec fn poll_max(a: Seq<u64>, k: Poll, n: u64) -> Seq<u64> {
    a.update(k.at(), larger(a[k.at()], n))
}

/// The counters after one turn of the worker loop, before any flush.
pub open spec fn poll_tick(a: Seq<u64>, gap_ns: u64, busy_ns: u64, active: bool) -> Seq<u64> {
    let a = poll_add(a, Poll::Iters, 1);
    let a = poll_add(a, Poll::GapNsTotal, gap_ns);
    let a = poll_max(a, Poll::GapNsMax, gap_ns);
    let a = poll_add(
        a,
        Poll::GapsOver1ms,
        if gap_ns > 1_000_000 {
            1
        } else {
            0
        },
    );
    let a = poll_add(a, Poll::BusyNs, busy_ns);
    let a = poll_add(
        a,
        Poll::ActiveIters,
        if active {
            1
        } else {
            0
        },
    );
    let a = poll_add(
        a,
        Poll::WorkNs,
        if active {
            busy_ns
        } else {
            0
        },
    );
    let a = poll_max(a, Poll::BusyNsMax, busy_ns);
    poll_max(a, Poll::LoopNsMax, gap_ns.saturating_sub(busy_ns))
}

/// A worker's counts taken into the stack's: sums add up, maxima are kept.
pub open spec fn poll_merged(all: Seq<u64>, a: Seq<u64>) -> Seq<u64> {
    Seq::new(
        POLL_N as nat,
        |i: int|
            if i <= POLL_LAST_SUM {
                all[i].wrapping_add(a[i])
            } else {
                larger(all[i], a[i])
            },
    )
}

/// How many turns of the worker loop are gathered before a flush.
pub const POLL_BATCH: u64 = 1024;

impl PollAcc {
    pub fn add(&mut self, k: Poll, n: u64)
        ensures
            final(self)@ == poll_add(old(self)@, k, n),
    {
        let i: usize = k.index();
        self.counts[i] = self.counts[i].wrapping_add(n);
    }

    pub fn max(&mut self, k: Poll, n: u64)
        ensures
            final(self)@ == poll_max(old(self)@, k, n),
    {
        let i: usize = k.index();
        if self.counts[i] < n {
            self.counts[i] = n;
        }
        assert(self@ == poll_max(old(self)@, k, n));
    }

    /// One turn of the worker loop; every `POLL_BATCH` turns the counts move to `all`.
    pub fn tick(&mut self, all: &mut Counters, gap_ns: u64, busy_ns: u64, active: bool)
        ensures
            ({
                let t = poll_tick(old(self)@, gap_ns, busy_ns, active);
                if t[Poll::Iters.at()] >= POLL_BATCH {
                    &&& final(self)@ == blank_poll()
                    &&& final(all)@ == (CountersView {
                        poll: poll_merged(old(all)@.poll, t),
                        ..old(all)@
                    })
                } else {
                    final(self)@ == t && final(all)@ == old(all)@
                }
            }),
    {
        self.add(Poll::Iters, 1);
        self.add(Poll::GapNsTotal, gap_ns);
        self.max(Poll::GapNsMax, gap_ns);
        self.add(
            Poll::GapsOver1ms,
            if gap_ns > 1_000_000 {
                1
            } else {
                0
            },
        );
        self.add(Poll::BusyNs, busy_ns);
        self.add(
            Poll::ActiveIters,
            if active {
                1
            } else {
                0
            },
        );
        self.add(
            Poll::WorkNs,
            if active {
                busy_ns
            } else {
                0
            },
        );
        self.max(Poll::BusyNsMax, busy_ns);
        self.max(Poll::LoopNsMax, gap_ns.saturating_sub(busy_ns));
        if self.counts[0] >= POLL_BATCH {
            self.flush(all);
        }
    }

    /// Moves the counts to `all` and starts over.
    pub fn flush(&mut self, all: &mut Counters)
        ensures
            final(self)@ == blank_poll(),
            final(all)@ == (CountersView {
                poll: poll_merged(old(all)@.poll, old(self)@),
                ..old(all)@
            }),
    {
        let ghost before = all@;
        let ghost merged = poll_merged(before.poll, self@);
        let mut i: usize = 0;
        while i < POLL_N
            invariant
                i <= POLL_N,
                merged == poll_merged(before.poll, self@),
                self@ == old(self)@,
                all@ == (CountersView { poll: all.poll@, ..before }),
                forall|k: int| 0 <= k < i ==> #[trigger] all.poll@[k] == merged[k],
                forall|k: int| i <= k < POLL_N ==> #[trigger] all.poll@[k] == before.poll[k],
            decreases POLL_N - i,
        {
            let v: u64 = self.counts[i];
            if i <= POLL_LAST_SUM {
                all.poll[i] = all.poll[i].wrapping_add(v);
            } else if all.poll[i] < v {
                all.poll[i] = v;
            }
            i += 1;
        }
        assert(all.poll@ == merged);
        *self = PollAcc::default();
    }
}

/// A flush loses nothing: what the stack has counted and what the worker still
/// holds come to the same before and after it.
pub proof fn law_flush_loses_nothing(all: Seq<u64>, a: Seq<u64>)
    requires
        all.len() == POLL_N,
        a.len() == POLL_N,
    ensures
        poll_merged(poll_merged(all, a), blank_poll()) == poll_merged(all, a),
{
    assert forall|i: int| 0 <= i < POLL_N implies #[trigger] poll_merged(
        poll_merged(all, a),
        blank_poll(),
    )[i] == poll_merged(all, a)[i] by {}
}

/// Every counter as it is reported.
#[derive(Debug, Clone, Copy, Default, PartialEq, Eq, Structural)]
pub struct Stats {
    /// Nonzero means the RSS model no longer matches the hardware.
    pub misrouted_drops: u64,
    /// Frames smoltcp believes it sent and the NIC never got (no mbuf).
    pub tx_alloc_fail: u64,
    /// Frames the TX ring would not take at once; held and sent next poll.
    pub tx_burst_fail: u64,
    pub conns_established: u64,
    pub conns_failed: u64,
    /// SYN on the wire to Established: the measured RTT.
    pub setup: Dist,
    /// CPU spent building a connection before its SYN could go out.
    pub dial: Dist,
    pub requests_served: u64,
    pub requests_reused: u64,
    pub requests_retried: u64,
    /// Per request: submit -> pick-up (queue), pick-up -> complete (wire),
    /// and the wire split at the first head byte (ttfb / xfer).
    pub requests_done: u64,
    pub queue_ns_total: u64,
    pub wire_ns_total: u64,
    pub body_bytes: u64,
    pub ttfb_ns_total: u64,
    pub ttfb_n: u64,
    pub xfer_ns_total: u64,
    pub xfer_n: u64,
    pub poll_iters: u64,
    pub poll_gap_ns_total: u64,
    pub poll_gap_ns_max: u64,
    pub poll_gaps_over_1ms: u64,
    pub poll_busy_ns: u64,
    pub poll_active_iters: u64,
    pub poll_work_ns: u64,
    /// Longest single poll, and longest stretch outside poll between two polls.
    pub poll_busy_ns_max: u64,
    pub poll_loop_ns_max: u64,
    /// Longest device poll and longest pass over the connections.
    pub iface_ns_max: u64,
    pub steps_ns_max: u64,
    /// Most packets one poll received and transmitted.
    pub rx_pkts_max: u64,
    pub tx_pkts_max: u64,
    /// Publish -> submitter running again.
    pub wake_n: u64,
    pub wake_ns_total: u64,
    pub wake_ns_max: u64,
    pub get_calls: u64,
    pub get_ns_total: u64,
    /// Wall time during which at least one request was outstanding.
    pub active_ns_total: u64,
    /// Off the device; a frame it dropped never reached any queue.
    pub nic_ipackets: u64,
    pub nic_ibytes: u64,
    pub nic_imissed: u64,
    pub nic_ierrors: u64,
    pub nic_rx_nombuf: u64,
}

/// What is reported of the counters `c` and of the device's own.
pub open spec fn reported(c: CountersView, nic: NicStats) -> Stats {
    Stats {
        misrouted_drops: c.misrouted_drops,
        tx_alloc_fail: c.tx_alloc_fail,
        tx_burst_fail: c.tx_burst_fail,
        conns_established: c.conns_established,
        conns_failed: c.conns_failed,
        setup: distribution(c.setup),
        dial: distribution(c.dial),
        requests_served: c.requests_served,
        requests_reused: c.requests_reused,
        requests_retried: c.requests_retried,
        requests_done: c.requests_done,
        queue_ns_total: c.queue_ns_total,
        wire_ns_total: c.wire_ns_total,
        body_bytes: c.body_bytes,
        ttfb_ns_total: c.ttfb_ns_total,
        ttfb_n: c.ttfb_n,
        xfer_ns_total: c.xfer_ns_total,
        xfer_n: c.xfer_n,
        poll_iters: c.poll[Poll::Iters.at()],
        poll_gap_ns_total: c.poll[Poll::GapNsTotal.at()],
        poll_gap_ns_max: c.poll[Poll::GapNsMax.at()],
        poll_gaps_over_1ms: c.poll[Poll::GapsOver1ms.at()],
        poll_busy_ns: c.poll[Poll::BusyNs.at()],
        poll_active_iters: c.poll[Poll::ActiveIters.at()],
        poll_work_ns: c.poll[Poll::WorkNs.at()],
        poll_busy_ns_max: c.poll[Poll::BusyNsMax.at()],
        poll_loop_ns_max: c.poll[Poll::LoopNsMax.at()],
        iface_ns_max: c.poll[Poll::IfaceNsMax.at()],
        steps_ns_max: c.poll[Poll::StepsNsMax.at()],
        rx_pkts_max: c.poll[Poll::RxPktsMax.at()],
        tx_pkts_max: c.poll[Poll::TxPktsMax.at()],
        wake_n: c.wake_n,
        wake_ns_total: c.wake_ns_total,
        wake_ns_max: c.wake_ns_max,
        get_calls: c.get_calls,
        get_ns_total: c.get_ns_total,
        active_ns_total: c.active_ns_total,
        nic_ipackets: nic.ipackets,
        nic_ibytes: nic.ibytes,
        nic_imissed: nic.imissed,
        nic_ierrors: nic.ierrors,
        nic_rx_nombuf: nic.rx_nombuf,
    }
}

/// One worker-loop counter.
fn poll(c: &Counters, k: Poll) -> (r: u64)
    ensures
        r == c@.poll[k.at()],
{
    c.poll[k.index()]
}

/// Everything as of now; without device counters those are reported as zero.
pub fn snapshot(c: &Counters, nic: Option<NicStats>) -> (s: Stats)
    requires
        c@.setup.count() <= u64::MAX,
        c@.dial.count() <= u64::MAX,
    ensures
        s == reported(
            c@,
            match nic {
                Some(n) => n,
                None => nic::no_nic_stats(),
            },
        ),
{
    let nic = match nic {
        Some(n) => n,
        None => NicStats::default(),
    };
    Stats {
        misrouted_drops: c.misrouted_drops,
        tx_alloc_fail: c.tx_alloc_fail,
        tx_burst_fail: c.tx_burst_fail,
        conns_established: c.conns_established,
        conns_failed: c.conns_failed,
        setup: dist(&c.setup),
        dial: dist(&c.dial),
        requests_served: c.requests_served,
        requests_reused: c.requests_reused,
        requests_retried: c.requests_retried,
        requests_done: c.requests_done,
        queue_ns_total: c.queue_ns_total,
        wire_ns_total: c.wire_ns_total,
        body_bytes: c.body_bytes,
        ttfb_ns_total: c.ttfb_ns_total,
        ttfb_n: c.ttfb_n,
        xfer_ns_total: c.xfer_ns_total,
        xfer_n: c.xfer_n,
        poll_iters: poll(c, Poll::Iters),
        poll_gap_ns_total: poll(c, Poll::GapNsTotal),
        poll_gap_ns_max: poll(c, Poll::GapNsMax),
        poll_gaps_over_1ms: poll(c, Poll::GapsOver1ms),
        poll_busy_ns: poll(c, Poll::BusyNs),
        poll_active_iters: poll(c, Poll::ActiveIters),
        poll_work_ns: poll(c, Poll::WorkNs),
        poll_busy_ns_max: poll(c, Poll::BusyNsMax),
        poll_loop_ns_max: poll(c, Poll::LoopNsMax),
        iface_ns_max: poll(c, Poll::IfaceNsMax),
        steps_ns_max: poll(c, Poll::StepsNsMax),
        rx_pkts_max: poll(c, Poll::RxPktsMax),
        tx_pkts_max: poll(c, Poll::TxPktsMax),
        wake_n: c.wake_n,
        wake_ns_total: c.wake_ns_total,
        wake_ns_max: c.wake_ns_max,
        get_calls: c.get_calls,
        get_ns_total: c.get_ns_total,
        active_ns_total: c.active_ns_total,
        nic_ipackets: nic.ipackets,
        nic_ibytes: nic.ibytes,
        nic_imissed: nic.imissed,
        nic_ierrors: nic.ierrors,
        nic_rx_nombuf: nic.rx_nombuf,
    }
}

} // verus!
