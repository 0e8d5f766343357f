//! Sequence numbers of 16 bits that wrap around.

use vstd::prelude::*;

verus! {

/// How far `a` is ahead of `b` on the circle of sequence numbers.
pub open spec fn seq_distance(a: u16, b: u16) -> int {
    (a - b) % 0x1_0000
}

/// Whether `a` comes after `b`: it is ahead by less than half the circle.
pub open spec fn is_newer(a: u16, b: u16) -> bool {
    0 < seq_distance(a, b) < 0x8000
}

/// The sequence number `n` steps after `a`.
pub open spec fn seq_plus(a: u16, n: int) -> u16 {
    ((a + n) % 0x1_0000) as u16
}

/// How far `a` is ahead of `b`.
pub fn seq_ahead(a: u16, b: u16) -> (d: u16)
    ensures
        d == seq_distance(a, b),
{
    a.wrapping_sub(b)
}

/// Whether `a` comes after `b`.
pub fn seq_newer(a: u16, b: u16) -> (r: bool)
    ensures
        r == is_newer(a, b),
{
    let d: u16 = a.wrapping_sub(b);
    0 < d && d < 0x8000
}

/// The next sequence number.
pub fn seq_next(a: u16) -> (b: u16)
    ensures
        b == seq_plus(a, 1),
{
    a.wrapping_add(1)
}

/// Of two different numbers that are not half the circle apart, exactly one is newer.
pub proof fn newer_is_asymmetric(a: u16, b: u16)
    requires
        a != b,
        seq_distance(a, b) != 0x8000,
    ensures
        is_newer(a, b) != is_newer(b, a),
{
}

/// Steps add up.
pub proof fn seq_plus_adds(a: u16, m: int, n: int)
    ensures
        seq_plus(seq_plus(a, m), n) == seq_plus(a, m + n),
{
    let b = (a + m) % 0x1_0000;
    assert(((b + n) - (a + m + n)) % 0x1_0000 == 0) by {
        assert(b + n - (a + m + n) == b - (a + m));
    }
    assert((b + n) % 0x1_0000 == (a + m + n) % 0x1_0000);
}

/// A full circle of steps leads back, and so do none.
pub proof fn seq_plus_circle(a: u16)
    ensures
        seq_plus(a, 0) == a,
        seq_plus(a, 0x1_0000) == a,
{
}

/// Every number is as many steps ahead as its distance.
pub proof fn plus_of_distance(a: u16, b: u16)
    ensures
        0 <= seq_distance(b, a) < 0x1_0000,
        seq_plus(a, seq_distance(b, a)) == b,
        seq_distance(b, a) == 0 <==> a == b,
{
}

/// Seen from the next number, every other number is one step nearer.
pub proof fn distance_from_next(a: u16, k: u16)
    requires
        k != a,
    ensures
        seq_distance(k, seq_plus(a, 1)) == seq_distance(k, a) - 1,
{
}

/// The way round the circle and the way back make a full circle.
pub proof fn distance_swapped(a: u16, b: u16)
    requires
        a != b,
    ensures
        seq_distance(b, a) == 0x1_0000 - seq_distance(a, b),
{
}

/// Counters that never wrap stand behind the sequence numbers: as long as two of them are less than
/// half the circle apart, the numbers compare as the counters do, and are as far apart.
pub proof fn numbers_compare_as_counters(x: int, y: int)
    requires
        -0x8000 < x - y < 0x8000,
    ensures
        is_newer((x % 0x1_0000) as u16, (y % 0x1_0000) as u16) <==> x > y,
        x >= y ==> seq_distance((x % 0x1_0000) as u16, (y % 0x1_0000) as u16) == x - y,
        seq_plus((y % 0x1_0000) as u16, x - y) == x % 0x1_0000,
{
}

} // verus!
