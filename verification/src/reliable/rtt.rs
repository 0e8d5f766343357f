//! Round-trip estimation and the retransmission timeout.
//!
//! Jacobson and Karels, with the timeout kept between its limits:
//!
//! ```text
//! srtt   = 7/8 srtt + 1/8 rtt          (first sample: rtt)
//! rttvar = 3/4 rttvar + 1/4 |srtt - rtt|   (first sample: rtt / 2)
//! rto    = srtt + 4 rttvar
//! ```
//!
//! The two averages are kept in fixed point: nanoseconds with 32 binary places.

use vstd::prelude::*;

use crate::protocol::types::{Nanos, MILLISECOND, RTO_MAX, RTO_MIN};

verus! {

/// The timeout before the first sample.
pub const INITIAL_RTO: Nanos = 200_000_000;

/// One nanosecond in fixed point.
pub const UNIT: u128 = 0x1_0000_0000;

/// One millisecond in fixed point.
pub const UNIT_MS: u128 = 4_294_967_296_000_000;

/// The estimator of one session.
#[derive(Debug, Clone, Copy, PartialEq, Eq, Structural)]
pub struct RttEstimator {
    srtt: u128,
    rttvar: u128,
    sample_count: u32,
}

/// What an estimator knows: both averages in fixed point, and how many samples it took.
#[verifier::ext_equal]
pub struct RttState {
    pub srtt: nat,
    pub rttvar: nat,
    pub samples: nat,
}

impl View for RttEstimator {
    type V = RttState;

    closed spec fn view(&self) -> RttState {
        RttState {
            srtt: self.srtt as nat,
            rttvar: self.rttvar as nat,
            samples: self.sample_count as nat,
        }
    }
}

/// The distance between two numbers.
pub open spec fn distance(a: nat, b: nat) -> nat {
    if a >= b {
        (a - b) as nat
    } else {
        (b - a) as nat
    }
}

/// The estimator before any sample.
pub open spec fn no_samples() -> RttState {
    RttState { srtt: 0, rttvar: 0, samples: 0 }
}

/// The estimator after a sample; one of zero length is ignored.
pub open spec fn sampled(s: RttState, rtt: Nanos) -> RttState {
    let x = rtt as nat * UNIT as nat;
    let samples = if s.samples < u32::MAX {
        s.samples + 1
    } else {
        s.samples
    };
    if rtt == 0 {
        s
    } else if s.samples == 0 {
        RttState { srtt: x, rttvar: x / 2, samples }
    } else {
        let srtt = (7 * s.srtt + x) / 8;
        RttState { srtt, rttvar: (3 * s.rttvar + distance(srtt, x)) / 4, samples }
    }
}

/// The timeout that follows from an estimate, in whole milliseconds.
pub open spec fn rto_of(s: RttState) -> Nanos {
    let raw = (s.srtt + 4 * s.rttvar) / UNIT_MS as nat;
    if s.samples == 0 {
        INITIAL_RTO
    } else if raw < 50 {
        RTO_MIN
    } else if raw > 1000 {
        RTO_MAX
    } else {
        (raw * MILLISECOND) as Nanos
    }
}

/// The smoothed round-trip time in whole milliseconds, at most what 16 bits hold.
pub open spec fn srtt_ms_of(s: RttState) -> u16 {
    let ms = s.srtt / UNIT_MS as nat;
    if ms > u16::MAX {
        u16::MAX
    } else {
        ms as u16
    }
}

/// The averages never leave the range of the samples.
pub open spec fn rtt_wf(s: RttState) -> bool {
    &&& s.srtt <= u64::MAX * UNIT
    &&& s.rttvar <= u64::MAX * UNIT
    &&& s.samples <= u32::MAX
}

impl Default for RttEstimator {
    fn default() -> (r: Self)
        ensures
            r@ == no_samples(),
            rtt_wf(r@),
    {
        Self { srtt: 0, rttvar: 0, sample_count: 0 }
    }
}

impl RttEstimator {
    /// An estimator without samples.
    pub fn new() -> (r: Self)
        ensures
            r@ == no_samples(),
            rtt_wf(r@),
    {
        Self::default()
    }

    /// Takes in a sample and returns the timeout that follows.
    pub fn update(&mut self, rtt: Nanos) -> (rto: Nanos)
        requires
            rtt_wf(old(self)@),
        ensures
            final(self)@ == sampled(old(self)@, rtt),
            rtt_wf(final(self)@),
            rto == rto_of(final(self)@),
    {
        if rtt == 0 {
            return self.rto();
        }
        let first: bool = self.sample_count == 0;
        if self.sample_count < u32::MAX {
            self.sample_count = self.sample_count + 1;
        }
        let x: u128 = rtt as u128 * UNIT;
        if first {
            self.srtt = x;
            self.rttvar = x / 2;
        } else {
            self.srtt = (7 * self.srtt + x) / 8;
            let off: u128 = if self.srtt >= x {
                self.srtt - x
            } else {
                x - self.srtt
            };
            self.rttvar = (3 * self.rttvar + off) / 4;
        }
        self.rto()
    }

    /// The current timeout.
    pub fn rto(&self) -> (rto: Nanos)
        requires
            rtt_wf(self@),
        ensures
            rto == rto_of(self@),
    {
        if self.sample_count == 0 {
            return INITIAL_RTO;
        }
        let raw: u128 = (self.srtt + 4 * self.rttvar) / UNIT_MS;
        if raw < 50 {
            RTO_MIN
        } else if raw > 1000 {
            RTO_MAX
        } else {
            raw as u64 * MILLISECOND
        }
    }

    /// The smoothed round-trip time in milliseconds.
    pub fn srtt_ms(&self) -> (ms: u16)
        ensures
            ms == srtt_ms_of(self@),
    {
        let ms: u128 = self.srtt / UNIT_MS;
        if ms > u16::MAX as u128 {
            u16::MAX
        } else {
            ms as u16
        }
    }

    /// How many samples were taken in.
    pub fn sample_count(&self) -> (n: u32)
        ensures
            n == self@.samples,
    {
        self.sample_count
    }
}

/// The timeout stays between its limits, whatever was sampled.
pub proof fn rto_stays_in_limits(s: RttState)
    ensures
        RTO_MIN <= rto_of(s) <= RTO_MAX,
{
    let raw = (s.srtt + 4 * s.rttvar) / UNIT_MS as nat;
    if 50 <= raw <= 1000 {
        assert(50_000_000 <= raw * MILLISECOND <= 1_000_000_000);
    }
}

/// A sample of zero length changes nothing.
pub proof fn zero_samples_are_ignored(s: RttState)
    ensures
        sampled(s, 0) == s,
{
}

/// Samples that agree with the average leave it as it is, and a quarter of the deviation goes
/// with each of them: the estimate settles on a steady round-trip time.
pub proof fn steady_samples_settle(s: RttState, rtt: Nanos)
    requires
        s.samples > 0,
        rtt > 0,
        s.srtt == rtt as nat * UNIT as nat,
    ensures
        sampled(s, rtt).srtt == s.srtt,
        sampled(s, rtt).rttvar == 3 * s.rttvar / 4,
{
}

/// Every sample that counts moves the average an eighth of the way towards itself and the deviation
/// a quarter of the way towards how far off the average still is, rounded down. This holds of
/// samples above and below the average alike.
pub proof fn samples_are_weighed(s: RttState, rtt: Nanos)
    requires
        s.samples > 0,
        rtt > 0,
    ensures
        ({
            let x = rtt * 0x1_0000_0000;
            let t = sampled(s, rtt);
            let off = if t.srtt >= x {
                t.srtt - x
            } else {
                x - t.srtt
            };
            &&& 8 * t.srtt <= 7 * s.srtt + x < 8 * t.srtt + 8
            &&& 4 * t.rttvar <= 3 * s.rttvar + off < 4 * t.rttvar + 4
            &&& s.samples < 0xFFFF_FFFF ==> t.samples == s.samples + 1
            &&& s.samples >= 0xFFFF_FFFF ==> t.samples == s.samples
        }),
{
}

/// The first sample that counts is the average, and half of it the deviation.
pub proof fn the_first_sample_is_taken_over(s: RttState, rtt: Nanos)
    requires
        s.samples == 0,
        rtt > 0,
    ensures
        sampled(s, rtt).srtt == rtt * 0x1_0000_0000,
        2 * sampled(s, rtt).rttvar == rtt * 0x1_0000_0000,
        sampled(s, rtt).samples == 1,
{
}

/// The average lies between what it was and the sample; a sample that is off by more than a
/// rounding error makes it strictly lower or strictly higher.
pub proof fn the_average_follows_the_samples(s: RttState, rtt: Nanos)
    requires
        s.samples > 0,
        rtt > 0,
    ensures
        ({
            let x = rtt * 0x1_0000_0000;
            let t = sampled(s, rtt);
            &&& x < s.srtt ==> x <= t.srtt < s.srtt
            &&& x > s.srtt ==> s.srtt <= t.srtt <= x
            &&& x >= s.srtt + 8 ==> s.srtt < t.srtt
            &&& x == s.srtt ==> t.srtt == s.srtt
        }),
{
}

/// The estimator after the same sample came `n` times.
pub open spec fn sampled_often(s: RttState, rtt: Nanos, n: nat) -> RttState
    decreases n,
{
    if n == 0 {
        s
    } else {
        sampled(sampled_often(s, rtt, (n - 1) as nat), rtt)
    }
}

/// A steady round-trip time becomes the average in the end, whether the connection got better or
/// worse: with every sample the average comes closer, until it is off by no more than seven
/// two-to-the-thirty-seconds of a nanosecond.
pub proof fn steady_samples_become_the_average(s: RttState, rtt: Nanos, n: nat)
    requires
        s.samples > 0,
        rtt > 0,
    ensures
        ({
            let x = rtt * 0x1_0000_0000;
            let t = sampled_often(s, rtt, n);
            let was = if s.srtt >= x {
                s.srtt - x
            } else {
                x - s.srtt
            };
            let is = if t.srtt >= x {
                t.srtt - x
            } else {
                x - t.srtt
            };
            &&& t.samples > 0
            &&& is <= 7 || is + n <= was
            &&& n >= was ==> is <= 7
        }),
    decreases n,
{
    if n > 0 {
        steady_samples_become_the_average(s, rtt, (n - 1) as nat);
    }
}

/// Before the first sample the timeout is 200 ms. After it, it is the average and four deviations,
/// cut to whole milliseconds, but at least 50 ms and at most one second.
pub proof fn the_timeout_follows_the_estimate(s: RttState)
    ensures
        s.samples == 0 ==> rto_of(s) == 200_000_000,
        s.samples > 0 ==> ({
            let rto = rto_of(s) * 0x1_0000_0000;
            let want = s.srtt + 4 * s.rttvar;
            let ms = 1_000_000 * 0x1_0000_0000;
            &&& want < 50 * ms ==> rto == 50 * ms
            &&& want > 1000 * ms ==> rto == 1000 * ms
            &&& 50 * ms <= want <= 1000 * ms ==> rto <= want < rto + ms && rto_of(s) % 1_000_000
                == 0
        }),
{
    let raw = (s.srtt + 4 * s.rttvar) / UNIT_MS as nat;
    if s.samples > 0 && 50 <= raw <= 1000 {
        assert((raw * MILLISECOND) as Nanos == raw * 1_000_000);
    }
}

/// The reported round-trip time is the average in whole milliseconds, as far as 16 bits hold it.
pub proof fn the_report_is_the_average(s: RttState)
    ensures
        ({
            let ms = 1_000_000 * 0x1_0000_0000;
            &&& s.srtt < 65_536 * ms ==> srtt_ms_of(s) * ms <= s.srtt < (srtt_ms_of(s) + 1) * ms
            &&& s.srtt >= 65_536 * ms ==> srtt_ms_of(s) == 65_535
        }),
{
}

} // verus!
