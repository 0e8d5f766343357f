//! A simulated network, for tests and tools: delay, jitter, blackouts.

use vstd::prelude::*;

use crate::outside::random_in_range;
use crate::protocol::types::{Nanos, MILLISECOND};

verus! {

/// A time in which everything is lost.
#[derive(Debug, Clone, Copy, PartialEq, Eq, Structural)]
pub struct Blackout {
    pub from: Nanos,
    pub len: Nanos,
}

/// A simulated network.
#[derive(Debug, Clone, Copy, PartialEq, Eq, Structural)]
pub struct Netem {
    /// The delay of every packet.
    pub delay: Nanos,
    /// How far the delay varies, up and down together.
    pub jitter: Nanos,
    pub blackout: Option<Blackout>,
}

/// Half of the jitter, in whole milliseconds.
pub open spec fn half_jitter_ms(jitter: Nanos) -> int {
    (jitter / MILLISECOND) as int / 2
}

/// The delay of a packet that is off by `spread` milliseconds.
pub open spec fn latency_of(n: Netem, spread: int) -> int {
    let ms = n.delay / MILLISECOND + spread;
    if n.jitter == 0 {
        n.delay as int
    } else if ms < 0 {
        0
    } else {
        ms * MILLISECOND
    }
}

impl Default for Netem {
    fn default() -> (n: Self)
        ensures
            n == (Netem { delay: 0, jitter: 0, blackout: None }),
    {
        Netem { delay: 0, jitter: 0, blackout: None }
    }
}

impl Netem {
    /// A perfect network.
    pub fn new() -> (n: Self)
        ensures
            n == (Netem { delay: 0, jitter: 0, blackout: None }),
    {
        Self::default()
    }

    /// Loses everything for `len`, starting `from` from now.
    pub fn set_blackout(&mut self, from: Nanos, len: Nanos, now: Nanos)
        requires
            now + from <= u64::MAX,
        ensures
            *final(self) == (Netem {
                blackout: Some(Blackout { from: (now + from) as Nanos, len }),
                ..*old(self)
            }),
    {
        self.blackout = Some(Blackout { from: now + from, len });
    }

    /// Whether everything is lost right now; both ends of the time count.
    pub fn is_blackout(&self, now: Nanos) -> (r: bool)
        ensures
            r == (self.blackout matches Some(b) && b.from <= now <= b.from + b.len),
    {
        match self.blackout {
            Some(b) => now >= b.from && now - b.from <= b.len,
            None => false,
        }
    }

    /// The delay of a packet that is off by `spread` milliseconds.
    pub fn latency_with(&self, spread: i64) -> (d: Nanos)
        requires
            self.delay + self.jitter <= u64::MAX,
            -half_jitter_ms(self.jitter) <= spread <= half_jitter_ms(self.jitter),
        ensures
            d == latency_of(*self, spread as int),
    {
        if self.jitter == 0 {
            return self.delay;
        }
        let base: i64 = (self.delay / MILLISECOND) as i64;
        let ms: i64 = base + spread;
        if ms < 0 {
            0
        } else {
            ms as u64 * MILLISECOND
        }
    }

    /// The delay of a packet: off by at most half the jitter, at random.
    pub fn latency(&self) -> (d: Nanos)
        requires
            self.delay + self.jitter <= u64::MAX,
        ensures
            exists|spread: int|
                -half_jitter_ms(self.jitter) <= spread <= half_jitter_ms(self.jitter) && d
                    == #[trigger] latency_of(*self, spread),
    {
        let half: i64 = ((self.jitter / MILLISECOND) / 2) as i64;
        let spread: i64 = random_in_range(-half, half);
        let d: Nanos = self.latency_with(spread);
        assert(d == latency_of(*self, spread as int));
        d
    }
}

/// The delay stays within half the jitter of the fixed delay, to the millisecond.
pub proof fn latency_stays_in_bounds(n: Netem, spread: int)
    requires
        -half_jitter_ms(n.jitter) <= spread <= half_jitter_ms(n.jitter),
    ensures
        latency_of(n, spread) <= n.delay + half_jitter_ms(n.jitter) * MILLISECOND,
        latency_of(n, spread) + MILLISECOND > n.delay - half_jitter_ms(n.jitter) * MILLISECOND,
        latency_of(n, spread) >= 0,
{
}

/// Without jitter every packet takes the fixed delay. With it, the delay is counted in whole
/// milliseconds, off by the spread, and never below zero; so a larger spread never arrives earlier.
pub proof fn delays_are_off_by_the_spread(n: Netem, spread: int, more: int)
    requires
        spread <= more,
    ensures
        n.jitter == 0 ==> latency_of(n, spread) == n.delay,
        n.jitter > 0 && n.delay as int / 1_000_000 + spread >= 0 ==> latency_of(n, spread) == (
        n.delay as int / 1_000_000 + spread) * 1_000_000,
        n.jitter > 0 && n.delay as int / 1_000_000 + spread < 0 ==> latency_of(n, spread) == 0,
        latency_of(n, spread) <= latency_of(n, more),
{
}

} // verus!
