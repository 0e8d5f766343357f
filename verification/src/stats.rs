//! Metrics: counters and snapshots of them.

use vstd::prelude::*;

verus! {

/// A counter of 64 bits that wraps around.
#[derive(Debug)]
pub struct Counter {
    count: u64,
}

impl View for Counter {
    type V = u64;

    closed spec fn view(&self) -> u64 {
        self.count
    }
}

impl Default for Counter {
    fn default() -> (c: Self)
        ensures
            c@ == 0,
    {
        Self { count: 0 }
    }
}

/// The sum of two counts.
pub open spec fn count_sum(a: u64, b: u64) -> u64 {
    ((a + b) % 0x1_0000_0000_0000_0000) as u64
}

/// The count before `a`.
pub open spec fn count_less_one(a: u64) -> u64 {
    if a == 0 {
        u64::MAX
    } else {
        (a - 1) as u64
    }
}

impl Counter {
    /// Counts one more.
    pub fn incr(&mut self)
        ensures
            final(self)@ == count_sum(old(self)@, 1),
    {
        self.incr_by(1);
    }

    /// Counts `n` more.
    pub fn incr_by(&mut self, n: u64)
        ensures
            final(self)@ == count_sum(old(self)@, n),
    {
        self.count = self.count.wrapping_add(n);
    }

    /// Counts one less.
    pub fn decr(&mut self)
        ensures
            final(self)@ == count_less_one(old(self)@),
    {
        self.count = self.count.wrapping_sub(1);
    }

    /// The count.
    pub fn get(&self) -> (n: u64)
        ensures
            n == self@,
    {
        self.count
    }
}

/// All metrics.
#[derive(Debug)]
pub struct Stats {
    /// Sessions that are open.
    pub sessions_active: Counter,
    /// Handshakes that were begun.
    pub sessions_handshaking: Counter,
    /// Times a session entered the grace period.
    pub sessions_grace: Counter,
    /// Datagrams that could be read.
    pub pkt_in: Counter,
    /// Datagrams sent.
    pub pkt_out: Counter,
    /// Datagrams that could not be used.
    pub pkt_bad: Counter,
    /// Bytes of message bodies received.
    pub pkt_bytes_in: Counter,
    /// Bytes sent.
    pub pkt_bytes_out: Counter,
    /// Frames to the logic server that were dropped.
    pub dropped_up: Counter,
    /// What was dropped on its way to clients: messages, and the bytes of those over a budget.
    pub dropped_down: Counter,
    /// Times a session moved to another address.
    pub nat_rebind: Counter,
    /// Times the logic server came back.
    pub logic_reconnects: Counter,
    /// Sessions that were kicked.
    pub kicks: Counter,
    /// Datagrams sent again.
    pub retransmits: Counter,
    /// Acknowledgements seen.
    pub acks_seen: Counter,
}

/// The metrics at one moment.
#[derive(Debug, Clone, Copy, PartialEq, Eq, Structural)]
pub struct StatsSnapshot {
    /// Sessions that are open.
    pub sessions_active: u64,
    /// Handshakes that were begun.
    pub sessions_handshaking: u64,
    /// Times a session entered the grace period.
    pub sessions_grace: u64,
    /// Datagrams that could be read.
    pub pkt_in: u64,
    /// Datagrams sent.
    pub pkt_out: u64,
    /// Datagrams that could not be used.
    pub pkt_bad: u64,
    /// Bytes of message bodies received.
    pub pkt_bytes_in: u64,
    /// Bytes sent.
    pub pkt_bytes_out: u64,
    /// Frames to the logic server that were dropped.
    pub dropped_up: u64,
    /// What was dropped on its way to clients: messages, and the bytes of those over a budget.
    pub dropped_down: u64,
    /// Times a session moved to another address.
    pub nat_rebind: u64,
    /// Times the logic server came back.
    pub logic_reconnects: u64,
    /// Sessions that were kicked.
    pub kicks: u64,
    /// Datagrams sent again.
    pub retransmits: u64,
    /// Acknowledgements seen.
    pub acks_seen: u64,
}

impl View for Stats {
    type V = StatsSnapshot;

    open spec fn view(&self) -> StatsSnapshot {
        StatsSnapshot {
            sessions_active: self.sessions_active@,
            sessions_handshaking: self.sessions_handshaking@,
            sessions_grace: self.sessions_grace@,
            pkt_in: self.pkt_in@,
            pkt_out: self.pkt_out@,
            pkt_bad: self.pkt_bad@,
            pkt_bytes_in: self.pkt_bytes_in@,
            pkt_bytes_out: self.pkt_bytes_out@,
            dropped_up: self.dropped_up@,
            dropped_down: self.dropped_down@,
            nat_rebind: self.nat_rebind@,
            logic_reconnects: self.logic_reconnects@,
            kicks: self.kicks@,
            retransmits: self.retransmits@,
            acks_seen: self.acks_seen@,
        }
    }
}

/// Metrics that have counted nothing.
pub open spec fn no_counts() -> StatsSnapshot {
    StatsSnapshot {
        sessions_active: 0,
        sessions_handshaking: 0,
        sessions_grace: 0,
        pkt_in: 0,
        pkt_out: 0,
        pkt_bad: 0,
        pkt_bytes_in: 0,
        pkt_bytes_out: 0,
        dropped_up: 0,
        dropped_down: 0,
        nat_rebind: 0,
        logic_reconnects: 0,
        kicks: 0,
        retransmits: 0,
        acks_seen: 0,
    }
}

impl Default for Stats {
    fn default() -> (s: Self)
        ensures
            s@ == no_counts(),
    {
        Self {
            sessions_active: Counter::default(),
            sessions_handshaking: Counter::default(),
            sessions_grace: Counter::default(),
            pkt_in: Counter::default(),
            pkt_out: Counter::default(),
            pkt_bad: Counter::default(),
            pkt_bytes_in: Counter::default(),
            pkt_bytes_out: Counter::default(),
            dropped_up: Counter::default(),
            dropped_down: Counter::default(),
            nat_rebind: Counter::default(),
            logic_reconnects: Counter::default(),
            kicks: Counter::default(),
            retransmits: Counter::default(),
            acks_seen: Counter::default(),
        }
    }
}

impl Stats {
    /// Metrics that have counted nothing.
    pub fn new() -> (s: Self)
        ensures
            s@ == no_counts(),
    {
        Self::default()
    }

    /// The metrics as they stand.
    pub fn snapshot(&self) -> (s: StatsSnapshot)
        ensures
            s == self@,
    {
        StatsSnapshot {
            sessions_active: self.sessions_active.get(),
            sessions_handshaking: self.sessions_handshaking.get(),
            sessions_grace: self.sessions_grace.get(),
            pkt_in: self.pkt_in.get(),
            pkt_out: self.pkt_out.get(),
            pkt_bad: self.pkt_bad.get(),
            pkt_bytes_in: self.pkt_bytes_in.get(),
            pkt_bytes_out: self.pkt_bytes_out.get(),
            dropped_up: self.dropped_up.get(),
            dropped_down: self.dropped_down.get(),
            nat_rebind: self.nat_rebind.get(),
            logic_reconnects: self.logic_reconnects.get(),
            kicks: self.kicks.get(),
            retransmits: self.retransmits.get(),
            acks_seen: self.acks_seen.get(),
        }
    }
}

/// Counting goes up by what is counted and comes round after 64 bits; taking one away undoes
/// counting one.
pub proof fn counts_add_up(a: u64, b: u64)
    ensures
        a + b <= u64::MAX ==> count_sum(a, b) == a + b,
        a + b > u64::MAX ==> count_sum(a, b) == a + b - 0x1_0000_0000_0000_0000,
        count_less_one(count_sum(a, 1)) == a,
{
}

} // verus!
