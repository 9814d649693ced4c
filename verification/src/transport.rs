//! Peer links and honest accounting of what crosses them.
//!
//! How many bytes go over the wire, and how long that takes on a residential uplink. The payload of
//! a hop is small and does not grow with the context; the caches that are not shipped do.
//!
//! Times and rates are double-precision numbers, held as bit patterns.

use vstd::arithmetic::power2::{lemma_pow2_pos, pow2};
use vstd::prelude::*;

use crate::accuracy::{
    adding_zero_changes_nothing, arithmetic_keeps_the_order, halves_are_exact,
    lemma_magnitudes_ordered, lemma_rounded_ordered,
};
use crate::double::{
    larger_patterns_are_larger_doubles, lemma_vanishes, magnitude, product, product_of, quotient, quotient_of, round_away, rounded_away, sum, sum_of, whole,
    whole_of,
};
use crate::numbers::DOUBLE_INFINITY;

verus! {

/// Two.
pub const TWO: u64 = 0x4000_0000_0000_0000;

/// Eight.
pub const EIGHT: u64 = 0x4020_0000_0000_0000;

/// A thousand.
pub const THOUSAND: u64 = 0x408f_4000_0000_0000;

/// A million.
pub const MILLION: u64 = 0x412e_8480_0000_0000;

/// Ten.
pub const TEN: u64 = 0x4024_0000_0000_0000;

/// A hundred.
pub const HUNDRED: u64 = 0x4059_0000_0000_0000;

/// Ten thousand.
pub const TEN_THOUSAND: u64 = 0x40c3_8800_0000_0000;

/// A peer's link.
#[derive(Debug, Clone, Copy)]
pub struct LinkProfile {
    /// Round-trip latency in milliseconds.
    pub rtt_ms: u64,
    /// Uplink in megabits per second.
    pub up_mbps: u64,
}

impl LinkProfile {
    /// A link with this latency and uplink.
    pub fn new(rtt_ms: u64, up_mbps: u64) -> (link: Self)
        ensures
            link.rtt_ms == rtt_ms,
            link.up_mbps == up_mbps,
    {
        LinkProfile { rtt_ms, up_mbps }
    }
}

impl Default for LinkProfile {
    /// 18 milliseconds and 30 megabits per second.
    fn default() -> (link: Self)
        ensures
            link.rtt_ms == 0x4032_0000_0000_0000,
            link.up_mbps == 0x403e_0000_0000_0000,
    {
        LinkProfile { rtt_ms: 0x4032_0000_0000_0000, up_mbps: 0x403e_0000_0000_0000 }
    }
}

/// The one-way time of `n_bytes` over `link` in milliseconds: half of the round trip, and the time
/// that the bits take on the uplink.
pub open spec fn one_way_ms(n_bytes: nat, link: LinkProfile) -> u64 {
    sum_of(
        quotient_of(link.rtt_ms, TWO),
        product_of(
            quotient_of(
                product_of(whole_of(n_bytes), EIGHT),
                product_of(link.up_mbps, MILLION),
            ),
            THOUSAND,
        ),
    )
}

/// `x` rounded to as many decimal places as `power` has zeros.
pub open spec fn rounded_to(x: u64, power: u64) -> u64 {
    quotient_of(rounded_away(product_of(x, power)), power)
}

/// A number of bytes in megabytes.
pub open spec fn megabytes(n: u64) -> u64 {
    quotient_of(whole_of(n as nat), MILLION)
}

fn round_to(x: u64, power: u64) -> (out: u64)
    ensures
        out == rounded_to(x, power),
{
    quotient(round_away(product(x, power)), power)
}

/// What crossed the wire, and what did not have to.
#[derive(Debug, Clone, Copy)]
pub struct NetworkReport {
    pub hops: u64,
    pub activation_mb: u64,
    pub network_ms: u64,
    pub kv_ship_mb_avoided: u64,
}

/// Counts hops, bytes and simulated time, and the cache bytes that were not shipped.
#[derive(Debug)]
pub struct NetworkMonitor {
    pub total_bytes: u64,
    pub total_ms: u64,
    pub hops: u64,
    pub kv_ship_bytes_avoided: u64,
    /// The payload of every hop, in order.
    pub hop_bytes: Vec<usize>,
}

/// The contents of a monitor.
#[verifier::ext_equal]
pub struct MonitorView {
    pub total_bytes: u64,
    pub total_ms: u64,
    pub hops: u64,
    pub kv_ship_bytes_avoided: u64,
    pub hop_bytes: Seq<usize>,
}

impl View for NetworkMonitor {
    type V = MonitorView;

    open spec fn view(&self) -> MonitorView {
        MonitorView {
            total_bytes: self.total_bytes,
            total_ms: self.total_ms,
            hops: self.hops,
            kv_ship_bytes_avoided: self.kv_ship_bytes_avoided,
            hop_bytes: self.hop_bytes@,
        }
    }
}

impl MonitorView {
    /// Nothing counted yet.
    pub open spec fn blank() -> MonitorView {
        MonitorView {
            total_bytes: 0,
            total_ms: 0,
            hops: 0,
            kv_ship_bytes_avoided: 0,
            hop_bytes: Seq::empty(),
        }
    }

    /// Whether the counters have room for another hop.
    pub open spec fn has_room(self, n_bytes: nat) -> bool {
        self.total_bytes + n_bytes <= u64::MAX && self.hops < u64::MAX
    }

    /// The counters after one more hop.
    pub open spec fn after_transfer(self, n_bytes: usize, link: LinkProfile) -> MonitorView {
        MonitorView {
            total_bytes: (self.total_bytes + n_bytes) as u64,
            total_ms: sum_of(self.total_ms, one_way_ms(n_bytes as nat, link)),
            hops: (self.hops + 1) as u64,
            hop_bytes: self.hop_bytes.push(n_bytes),
            ..self
        }
    }

    /// The counters after `n_bytes` of caches stayed where they are.
    pub open spec fn after_kv_avoided(self, n_bytes: usize) -> MonitorView {
        MonitorView {
            kv_ship_bytes_avoided: (self.kv_ship_bytes_avoided + n_bytes) as u64,
            ..self
        }
    }

    /// The report of these counters.
    pub open spec fn summary(self) -> NetworkReport {
        NetworkReport {
            hops: self.hops,
            activation_mb: rounded_to(megabytes(self.total_bytes), TEN_THOUSAND),
            network_ms: rounded_to(self.total_ms, TEN),
            kv_ship_mb_avoided: rounded_to(megabytes(self.kv_ship_bytes_avoided), HUNDRED),
        }
    }
}

impl NetworkMonitor {
    /// A monitor that has counted nothing.
    pub fn new() -> (monitor: Self)
        ensures
            monitor@ == MonitorView::blank(),
    {
        NetworkMonitor {
            total_bytes: 0,
            total_ms: 0,
            hops: 0,
            kv_ship_bytes_avoided: 0,
            hop_bytes: Vec::new(),
        }
    }

    /// Counts a transfer of `n_bytes` over `link` and gives its simulated one-way time in
    /// milliseconds.
    pub fn transfer(&mut self, n_bytes: usize, link: &LinkProfile) -> (ms: u64)
        requires
            old(self)@.has_room(n_bytes as nat),
        ensures
            ms == one_way_ms(n_bytes as nat, *link),
            final(self)@ == old(self)@.after_transfer(n_bytes, *link),
    {
        let serialize_ms: u64 = product(
            quotient(product(whole(n_bytes as u64), EIGHT), product(link.up_mbps, MILLION)),
            THOUSAND,
        );
        let ms: u64 = sum(quotient(link.rtt_ms, TWO), serialize_ms);
        self.total_bytes = self.total_bytes + n_bytes as u64;
        self.total_ms = sum(self.total_ms, ms);
        self.hops = self.hops + 1;
        self.hop_bytes.push(n_bytes);
        ms
    }

    /// Counts `n_bytes` of caches that did not have to be shipped.
    pub fn note_kv_avoided(&mut self, n_bytes: usize)
        requires
            old(self)@.kv_ship_bytes_avoided + n_bytes <= u64::MAX,
        ensures
            final(self)@ == old(self)@.after_kv_avoided(n_bytes),
    {
        self.kv_ship_bytes_avoided = self.kv_ship_bytes_avoided + n_bytes as u64;
    }

    /// The totals, rounded for people.
    pub fn report(&self) -> (report: NetworkReport)
        ensures
            report == self@.summary(),
    {
        NetworkReport {
            hops: self.hops,
            activation_mb: round_to(quotient(whole(self.total_bytes), MILLION), TEN_THOUSAND),
            network_ms: round_to(self.total_ms, TEN),
            kv_ship_mb_avoided: round_to(
                quotient(whole(self.kv_ship_bytes_avoided), MILLION),
                HUNDRED,
            ),
        }
    }
}

impl Default for NetworkMonitor {
    fn default() -> (monitor: Self)
        ensures
            monitor@ == MonitorView::blank(),
    {
        NetworkMonitor::new()
    }
}

/// What a monitor counts over several hops: one for each, and all of their bytes. Shipped bytes and caches that
/// were not shipped are counted apart.
pub proof fn hops_and_bytes_add_up(
    monitor: MonitorView,
    a: usize,
    b: usize,
    link: LinkProfile,
    other: LinkProfile,
    kept: usize,
)
    requires
        monitor.total_bytes + a + b <= u64::MAX,
        monitor.hops + 2 <= u64::MAX,
        monitor.kv_ship_bytes_avoided + kept <= u64::MAX,
    ensures
        ({
            let after = monitor.after_transfer(a, link).after_transfer(b, other);
            let kept_back = monitor.after_kv_avoided(kept);
            &&& after.hops == monitor.hops + 2
            &&& after.total_bytes == monitor.total_bytes + a + b
            &&& after.hop_bytes == monitor.hop_bytes + seq![a, b]
            &&& after.kv_ship_bytes_avoided == monitor.kv_ship_bytes_avoided
            &&& kept_back.kv_ship_bytes_avoided == monitor.kv_ship_bytes_avoided + kept
            &&& kept_back.total_bytes == monitor.total_bytes
            &&& kept_back.hops == monitor.hops
            &&& kept_back.total_ms == monitor.total_ms
            &&& kept_back.hop_bytes == monitor.hop_bytes
            &&& after.summary().hops == monitor.hops + 2
        }),
{
    assert(monitor.after_transfer(a, link).after_transfer(b, other).hop_bytes
        =~= monitor.hop_bytes + seq![a, b]);
}

/// How a transfer takes its time: more bytes never take less, a longer round trip never takes less, and a faster
/// uplink never takes more.
pub proof fn transfers_take_longer_with_more_to_send(
    few: nat,
    many: nat,
    link: LinkProfile,
    far: LinkProfile,
    fast: LinkProfile,
)
    requires
        few <= many <= u64::MAX,
        0 < link.rtt_ms <= far.rtt_ms < DOUBLE_INFINITY,
        0 < product_of(link.up_mbps, MILLION) < DOUBLE_INFINITY,
        0 < link.up_mbps <= fast.up_mbps < DOUBLE_INFINITY,
        0 < product_of(fast.up_mbps, MILLION) < DOUBLE_INFINITY,
        far.up_mbps == link.up_mbps,
        fast.rtt_ms == link.rtt_ms,
        0 < quotient_of(link.rtt_ms, TWO) < DOUBLE_INFINITY,
        0 < few,
    ensures
        one_way_ms(few, link) <= one_way_ms(many, link) <= DOUBLE_INFINITY,
        one_way_ms(few, link) <= one_way_ms(few, far) <= DOUBLE_INFINITY,
        one_way_ms(few, fast) <= one_way_ms(few, link),
{
    lemma_pow2_pos(1074);
    let p = pow2(1074);
    assert(few * p <= many * p) by (nonlinear_arith)
        requires
            few <= many,
    ;
    lemma_rounded_ordered(few * p, 1, many * p, 1, 0);
    let (a, b) = (whole_of(few), whole_of(many));
    let half = quotient_of(link.rtt_ms, TWO);
    let rate = product_of(link.up_mbps, MILLION);
    arithmetic_keeps_the_order(a, b, EIGHT);
    let (c, d) = (product_of(a, EIGHT), product_of(b, EIGHT));
    arithmetic_keeps_the_order(c, d, rate);
    let (e, f) = (quotient_of(c, rate), quotient_of(d, rate));
    arithmetic_keeps_the_order(e, f, THOUSAND);
    let (g, h) = (product_of(e, THOUSAND), product_of(f, THOUSAND));
    arithmetic_keeps_the_order(g, h, half);
    // A longer round trip.
    arithmetic_keeps_the_order(link.rtt_ms, far.rtt_ms, TWO);
    let more = quotient_of(far.rtt_ms, TWO);
    lemma_sums_ordered(half, more, g);
    // A faster uplink.
    arithmetic_keeps_the_order(link.up_mbps, fast.up_mbps, MILLION);
    let faster = product_of(fast.up_mbps, MILLION);
    lemma_quotients_ordered(c, rate, faster);
    let sooner = quotient_of(c, faster);
    arithmetic_keeps_the_order(sooner, e, THOUSAND);
    arithmetic_keeps_the_order(product_of(sooner, THOUSAND), g, half);
}

/// A sum of doubles that are not negative keeps the order, whatever is added.
proof fn lemma_sums_ordered(x: u64, y: u64, c: u64)
    requires
        x <= y <= DOUBLE_INFINITY,
        c <= DOUBLE_INFINITY,
        0 < x,
    ensures
        sum_of(x, c) <= sum_of(y, c) <= DOUBLE_INFINITY,
{
    if 0 < c < DOUBLE_INFINITY {
        arithmetic_keeps_the_order(x, y, c);
    } else if c == 0 && y < DOUBLE_INFINITY {
        lemma_magnitudes_ordered(x, y);
        lemma_rounded_ordered(magnitude(x), 1, magnitude(y), 1, 0);
    }
}

/// A larger divisor gives no larger quotient, whatever is divided.
proof fn lemma_quotients_ordered(c: u64, x: u64, y: u64)
    requires
        c <= DOUBLE_INFINITY,
        0 < x <= y < DOUBLE_INFINITY,
    ensures
        quotient_of(c, y) <= quotient_of(c, x) <= DOUBLE_INFINITY,
{
    if 0 < c < DOUBLE_INFINITY {
        arithmetic_keeps_the_order(x, y, c);
    } else if c == 0 {
        lemma_magnitudes_ordered(1, x);
        lemma_magnitudes_ordered(1, y);
        vstd::arithmetic::power2::lemma2_to64();
        assert(magnitude(1) == 1);
        assert(0 * pow2(1074) == 0);
        lemma_vanishes(0, magnitude(x));
        lemma_vanishes(0, magnitude(y));
    }
}

/// What has no bytes takes half of the round trip.
pub proof fn an_empty_transfer_takes_half_the_round_trip(link: LinkProfile)
    requires
        0x20_0000_0000_0000 <= link.rtt_ms < 0x6000_0000_0000_0000,
        0 < product_of(link.up_mbps, MILLION) < DOUBLE_INFINITY,
    ensures
        2 * magnitude(one_way_ms(0, link)) == magnitude(link.rtt_ms),
        one_way_ms(0, link) < DOUBLE_INFINITY,
{
    lemma_pow2_pos(1074);
    assert(0 * pow2(1074) == 0);
    lemma_vanishes(0, 1);
    assert(whole_of(0) == 0);
    assert(magnitude(0) == 0);
    assert(0 * magnitude(EIGHT) == 0 && 0 * magnitude(THOUSAND) == 0);
    lemma_vanishes(0, pow2(1074));
    assert(product_of(0, EIGHT) == 0);
    let rate = product_of(link.up_mbps, MILLION);
    lemma_magnitudes_ordered(1, rate);
    vstd::arithmetic::power2::lemma2_to64();
    assert(magnitude(1) == 1);
    lemma_vanishes(0, magnitude(rate));
    assert(quotient_of(0, rate) == 0);
    assert(product_of(0, THOUSAND) == 0);
    halves_are_exact(link.rtt_ms, TWO);
    let half = quotient_of(link.rtt_ms, TWO);
    if half >= 0x7000_0000_0000_0000 {
        larger_patterns_are_larger_doubles(link.rtt_ms, half);
        assert(false);
    }
    adding_zero_changes_nothing(half);
}

} // verus!
