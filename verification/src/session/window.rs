//! What the receive window promises: it tells which packets came, whatever the network loses,
//! repeats or reorders.
//!
//! Packets are named by their position in what the peer sent; the sequence number of a position is
//! its low 16 bits.

use vstd::prelude::*;

use crate::reliable::retransmit;
use crate::reliable::serial;
use crate::session::inbound;
use crate::session::peer::{self, SessionData};

verus! {

/// The window after packets came, if it starts with the packet at `first`, which came.
pub open spec fn window_over(first: int, came: Seq<int>) -> (u16, u32)
    decreases came.len(),
{
    if came.len() == 0 {
        (serial::seq_plus(0, first), 0)
    } else {
        let (seq, bits) = window_over(first, came.drop_last());
        peer::window_after(seq, bits, serial::seq_plus(0, came.last()))
    }
}

/// The newest position among `first` and those in `came`.
pub open spec fn newest(first: int, came: Seq<int>) -> int
    decreases came.len(),
{
    if came.len() == 0 {
        first
    } else if came.last() > newest(first, came.drop_last()) {
        came.last()
    } else {
        newest(first, came.drop_last())
    }
}

/// Whether no packet is so late or so early that 16 bits cannot tell.
pub open spec fn stay_in_reach(first: int, came: Seq<int>) -> bool {
    forall|k: int|
        0 <= k < came.len() ==> newest(first, came.take(k)) - 0x8000 <= #[trigger] came[k] < newest(
            first,
            came.take(k),
        ) + 0x8000
}

/// Whether the packet at `p` came.
pub open spec fn has_come(first: int, came: Seq<int>, p: int) -> bool {
    p == first || came.contains(p)
}

/// The distance between the numbers of two positions is that of the positions.
proof fn distance_of(p: int, q: int)
    ensures
        serial::seq_distance(serial::seq_plus(0, p), serial::seq_plus(0, q)) == (p - q) % 0x1_0000,
{
    let a = p % 0x1_0000;
    let b = q % 0x1_0000;
    assert(p == 0x1_0000 * (p / 0x1_0000) + a);
    assert(q == 0x1_0000 * (q / 0x1_0000) + b);
    let d = p / 0x1_0000 - q / 0x1_0000;
    assert(p - q == 0x1_0000 * d + (a - b));
    assert((a - b) % 0x1_0000 == (p - q) % 0x1_0000) by (nonlinear_arith)
        requires
            p - q == 0x1_0000 * d + (a - b),
    ;
}

/// The bits of a window that moves `ahead` numbers forward, by less than its width.
proof fn moved_bit(bits: u32, ahead: u32, i: u32)
    requires
        0 < ahead < 32,
        i < 32,
    ensures
        (((bits << ahead) | (1u32 << ((ahead - 1) as u32))) & (1u32 << i) != 0) == (i == ahead - 1
            || (i >= ahead && bits & (1u32 << ((i - ahead) as u32)) != 0)),
{
    let one = (ahead - 1) as u32;
    assert((((bits << ahead) | (1u32 << one)) & (1u32 << i) != 0) == (i == one || (bits << ahead) & (
    1u32 << i) != 0)) by (bit_vector)
        requires
            one < 32,
            i < 32,
            ahead < 32,
    ;
    if i >= ahead {
        let j = (i - ahead) as u32;
        assert(((bits << ahead) & (1u32 << i) != 0) == (bits & (1u32 << j) != 0)) by (bit_vector)
            requires
                i < 32,
                ahead <= i,
                j == i - ahead,
        ;
    } else {
        assert((bits << ahead) & (1u32 << i) == 0) by (bit_vector)
            requires
                i < ahead,
                ahead < 32,
        ;
    }
}

/// Setting a bit sets that bit and no other.
pub proof fn marked_bit(bits: u32, k: u32, i: u32)
    requires
        k < 32,
        i < 32,
    ensures
        ((bits | (1u32 << k)) & (1u32 << i) != 0) == (bits & (1u32 << i) != 0 || i == k),
        ((1u32 << k) & (1u32 << i) != 0) == (i == k),
        0u32 & (1u32 << i) == 0,
{
    assert(((bits | (1u32 << k)) & (1u32 << i) != 0) == (bits & (1u32 << i) != 0 || i == k))
        by (bit_vector)
        requires
            k < 32,
            i < 32,
    ;
    assert(((1u32 << k) & (1u32 << i) != 0) == (i == k)) by (bit_vector)
        requires
            k < 32,
            i < 32,
    ;
    assert(0u32 & (1u32 << i) == 0) by (bit_vector);
}

/// The newest position is at least as far as any that came.
proof fn newest_is_newest(first: int, came: Seq<int>)
    ensures
        has_come(first, came, newest(first, came)),
        first <= newest(first, came),
        forall|k: int| 0 <= k < came.len() ==> #[trigger] came[k] <= newest(first, came),
    decreases came.len(),
{
    if came.len() > 0 {
        let init = came.drop_last();
        newest_is_newest(first, init);
        assert(came[came.len() - 1] == came.last());
        assert forall|k: int| 0 <= k < came.len() implies #[trigger] came[k] <= newest(
            first,
            came,
        ) by {
            if k < init.len() {
                assert(came[k] == init[k]);
            }
        }
        if init.contains(newest(first, init)) {
            let k = choose|k: int| 0 <= k < init.len() && init[k] == newest(first, init);
            assert(came[k] == newest(first, init));
        }
    }
}

/// Which positions came after one more packet.
proof fn one_more_came(first: int, came: Seq<int>, p: int)
    requires
        came.len() > 0,
    ensures
        has_come(first, came, p) == (has_come(first, came.drop_last(), p) || p == came.last()),
{
    let init = came.drop_last();
    assert(came[came.len() - 1] == came.last());
    if init.contains(p) {
        let k = choose|k: int| 0 <= k < init.len() && init[k] == p;
        assert(came[k] == p);
    }
    if came.contains(p) && p != came.last() {
        let k = choose|k: int| 0 <= k < came.len() && came[k] == p;
        assert(init[k] == p);
    }
}

/// Whether bit `j` of `bits` tells whether the packet `j + 1` before position `n` came, for every
/// bit.
pub open spec fn tells(bits: u32, first: int, came: Seq<int>, n: int) -> bool {
    forall|j: int|
        0 <= j < 32 ==> #[trigger] retransmit::has_bit(bits, j) == has_come(
            first,
            came,
            n - 1 - j,
        )
}

/// The window after a packet that is newer than all before it.
proof fn newer_packet(first: int, came: Seq<int>, before: u32)
    requires
        came.len() > 0,
        tells(before, first, came.drop_last(), newest(first, came.drop_last())),
        newest(first, came.drop_last()) < came.last() < newest(first, came.drop_last()) + 0x8000,
    ensures
        ({
            let m = newest(first, came.drop_last());
            let (seq, bits) = peer::window_after(
                serial::seq_plus(0, m),
                before,
                serial::seq_plus(0, came.last()),
            );
            seq == serial::seq_plus(0, came.last()) && tells(bits, first, came, came.last())
        }),
{
    let init = came.drop_last();
    let m = newest(first, init);
    let p = came.last();
    let ahead = p - m;
    distance_of(p, m);
    newest_is_newest(first, init);
    let bits = peer::window_after(serial::seq_plus(0, m), before, serial::seq_plus(0, p)).1;
    assert forall|j: int| 0 <= j < 32 implies #[trigger] retransmit::has_bit(bits, j) == has_come(
        first,
        came,
        p - 1 - j,
    ) by {
        let q = p - 1 - j;
        one_more_came(first, came, q);
        if ahead < 32 {
            moved_bit(before, ahead as u32, j as u32);
            if j >= ahead {
                assert(retransmit::has_bit(before, j - ahead) == has_come(first, init, q));
            }
        } else {
            marked_bit(0, 31, j as u32);
        }
        if q > m {
            assert(!has_come(first, init, q));
        }
    }
}

/// The window after a packet that is not newer.
proof fn older_packet(first: int, came: Seq<int>, before: u32)
    requires
        came.len() > 0,
        tells(before, first, came.drop_last(), newest(first, came.drop_last())),
        newest(first, came.drop_last()) - 0x8000 <= came.last() <= newest(first, came.drop_last()),
    ensures
        ({
            let m = newest(first, came.drop_last());
            let (seq, bits) = peer::window_after(
                serial::seq_plus(0, m),
                before,
                serial::seq_plus(0, came.last()),
            );
            seq == serial::seq_plus(0, m) && tells(bits, first, came, m)
        }),
{
    let init = came.drop_last();
    let m = newest(first, init);
    let p = came.last();
    distance_of(p, m);
    distance_of(m, p);
    let bits = peer::window_after(serial::seq_plus(0, m), before, serial::seq_plus(0, p)).1;
    assert forall|j: int| 0 <= j < 32 implies #[trigger] retransmit::has_bit(bits, j) == has_come(
        first,
        came,
        m - 1 - j,
    ) by {
        one_more_came(first, came, m - 1 - j);
        assert(retransmit::has_bit(before, j) == has_come(first, init, m - 1 - j));
        if 1 <= m - p <= 32 {
            marked_bit(before, (m - p - 1) as u32, j as u32);
        }
    }
}

/// Bit `j` of the window is set if and only if the packet `j + 1` before the newest came, and the
/// newest number is that of the newest packet. The packet that the window starts with counts as
/// one that came.
pub proof fn window_tells_what_came(first: int, came: Seq<int>)
    requires
        stay_in_reach(first, came),
    ensures
        window_over(first, came).0 == serial::seq_plus(0, newest(first, came)),
        tells(window_over(first, came).1, first, came, newest(first, came)),
    decreases came.len(),
{
    if came.len() == 0 {
        assert forall|j: int| 0 <= j < 32 implies !(#[trigger] retransmit::has_bit(0, j)) by {
            marked_bit(0, 0, j as u32);
        }
    } else {
        let init = came.drop_last();
        assert(init =~= came.take(came.len() - 1));
        assert(came[came.len() - 1] == came.last());
        assert(stay_in_reach(first, init)) by {
            assert forall|k: int| 0 <= k < init.len() implies newest(first, init.take(k)) - 0x8000
                <= #[trigger] init[k] < newest(first, init.take(k)) + 0x8000 by {
                assert(init.take(k) =~= came.take(k));
                assert(init[k] == came[k]);
            }
        }
        window_tells_what_came(first, init);
        let before = window_over(first, init).1;
        if came.last() > newest(first, init) {
            newer_packet(first, came, before);
        } else {
            older_packet(first, came, before);
        }
    }
}

/// A session after packets were recorded.
pub open spec fn session_over(s: SessionData, came: Seq<int>) -> SessionData
    decreases came.len(),
{
    if came.len() == 0 {
        s
    } else {
        inbound::recorded(session_over(s, came.drop_last()), serial::seq_plus(0, came.last()))
    }
}

/// The window of a session that had received nothing tells which packets came since: bit `j` is
/// set if and only if the packet `j + 1` before the newest came.
pub proof fn sessions_know_what_came(s: SessionData, came: Seq<int>)
    requires
        !s.recv_any,
        came.len() > 0,
        stay_in_reach(came[0], came.skip(1)),
    ensures
        ({
            let t = session_over(s, came);
            let n = newest(came[0], came.skip(1));
            &&& t.recv_any
            &&& t.recv_seq == serial::seq_plus(0, n)
            &&& forall|j: int|
                0 <= j < 32 ==> #[trigger] retransmit::has_bit(t.recv_bits, j) == came.contains(
                    n - 1 - j,
                )
        }),
{
    let first = came[0];
    let rest = came.skip(1);
    window_tells_what_came(first, rest);
    session_window(s, came);
    let n = newest(first, rest);
    assert forall|p: int| came.contains(p) == #[trigger] has_come(first, rest, p) by {
        if came.contains(p) {
            let k = choose|k: int| 0 <= k < came.len() && came[k] == p;
            if k > 0 {
                assert(rest[k - 1] == p);
            }
        }
        if rest.contains(p) {
            let k = choose|k: int| 0 <= k < rest.len() && rest[k] == p;
            assert(came[k + 1] == p);
        }
    }
    assert forall|j: int| 0 <= j < 32 implies #[trigger] retransmit::has_bit(
        session_over(s, came).recv_bits,
        j,
    ) == came.contains(n - 1 - j) by {
        assert(has_come(first, rest, n - 1 - j) == came.contains(n - 1 - j));
    }
}

/// The window of a session is that of the packets that came after the first.
proof fn session_window(s: SessionData, came: Seq<int>)
    requires
        !s.recv_any,
        came.len() > 0,
    ensures
        session_over(s, came).recv_any,
        (session_over(s, came).recv_seq, session_over(s, came).recv_bits) == window_over(
            came[0],
            came.skip(1),
        ),
    decreases came.len(),
{
    reveal_with_fuel(session_over, 2);
    let init = came.drop_last();
    if init.len() > 0 {
        session_window(s, init);
        assert(came.skip(1).drop_last() =~= init.skip(1));
        assert(came.skip(1).last() == came.last());
    } else {
        assert(came.skip(1) =~= Seq::<int>::empty());
    }
}

} // verus!
