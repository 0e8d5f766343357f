//! Little-endian and big-endian integers as byte strings.

use vstd::prelude::*;

verus! {

/// The `n` low-order bytes of `x`, least significant first.
pub open spec fn le_bytes(x: nat, n: nat) -> Seq<u8>
    decreases n,
{
    if n == 0 {
        Seq::empty()
    } else {
        seq![(x % 256) as u8] + le_bytes(x / 256, (n - 1) as nat)
    }
}

/// The number that a little-endian byte string stands for.
pub open spec fn le_value(s: Seq<u8>) -> nat
    decreases s.len(),
{
    if s.len() == 0 {
        0
    } else {
        s[0] as nat + 256 * le_value(s.skip(1))
    }
}

/// 256 to the power of `n`.
pub open spec fn pow256(n: nat) -> nat
    decreases n,
{
    if n == 0 {
        1
    } else {
        256 * pow256((n - 1) as nat)
    }
}

/// The `n` low-order bytes of `x`, most significant first.
pub open spec fn be_bytes(x: nat, n: nat) -> Seq<u8> {
    le_bytes(x, n).reverse()
}

/// The number that a big-endian byte string stands for.
pub open spec fn be_value(s: Seq<u8>) -> nat {
    le_value(s.reverse())
}

/// `le_bytes` yields as many bytes as asked for.
pub proof fn le_bytes_len(x: nat, n: nat)
    ensures
        le_bytes(x, n).len() == n,
    decreases n,
{
    if n > 0 {
        le_bytes_len(x / 256, (n - 1) as nat);
    }
}

/// A byte string of length `n` stands for a number below 256 to the power of `n`.
pub proof fn le_value_bound(s: Seq<u8>)
    ensures
        le_value(s) < pow256(s.len()),
    decreases s.len(),
{
    if s.len() > 0 {
        le_value_bound(s.skip(1));
    }
}

/// Reading back what was written gives the number, as far as it fits in the bytes.
pub proof fn le_value_of_le_bytes(x: nat, n: nat)
    requires
        x < pow256(n),
    ensures
        le_value(le_bytes(x, n)) == x,
    decreases n,
{
    if n > 0 {
        le_bytes_len(x / 256, (n - 1) as nat);
        le_value_of_le_bytes(x / 256, (n - 1) as nat);
        assert(le_bytes(x, n).skip(1) =~= le_bytes(x / 256, (n - 1) as nat));
    }
}

/// Writing what was read gives the byte string back.
pub proof fn le_bytes_of_le_value(s: Seq<u8>)
    ensures
        le_bytes(le_value(s), s.len()) == s,
    decreases s.len(),
{
    if s.len() > 0 {
        let rest = s.skip(1);
        le_bytes_of_le_value(rest);
        let x = le_value(s);
        assert(x == s[0] as nat + 256 * le_value(rest));
        assert(x % 256 == s[0] as nat);
        assert(x / 256 == le_value(rest));
        assert(le_bytes(x, s.len()) =~= s);
    } else {
        assert(le_bytes(0, 0) =~= s);
    }
}

/// The powers of 256 that the integer types reach to.
pub proof fn pow256_values()
    ensures
        pow256(2) == 0x1_0000,
        pow256(4) == 0x1_0000_0000,
        pow256(8) == 0x1_0000_0000_0000_0000,
        pow256(16) == 0x1_0000_0000_0000_0000_0000_0000_0000_0000,
{
    reveal_with_fuel(pow256, 17);
}

/// Appends the `n` low-order bytes of `x`.
fn put_le(out: &mut Vec<u8>, x: u64, n: usize)
    ensures
        final(out)@ == old(out)@ + le_bytes(x as nat, n as nat),
{
    let mut rest: u64 = x;
    let mut left: usize = n;
    let ghost start = out@;
    while left > 0
        invariant
            left <= n,
            out@ + le_bytes(rest as nat, left as nat) =~= start + le_bytes(x as nat, n as nat),
        decreases left,
    {
        out.push((rest % 256) as u8);
        rest = rest / 256;
        left = left - 1;
    }
}

/// Reads `n` bytes from position `at`.
fn get_le(buf: &[u8], at: usize, n: usize) -> (x: u64)
    requires
        at + n <= buf@.len(),
        n <= 8,
    ensures
        x == le_value(buf@.subrange(at as int, at + n)),
{
    let mut x: u64 = 0;
    let mut i: usize = n;
    let end: usize = buf.len();
    proof {
        reveal_with_fuel(pow256, 9);
    }
    while i > 0
        invariant
            i <= n <= 8,
            at + n <= buf@.len() == end,
            x == le_value(buf@.subrange(at + i, at + n)),
        decreases i,
    {
        i = i - 1;
        proof {
            let s = buf@.subrange(at + i, at + n);
            assert(s.skip(1) =~= buf@.subrange(at + i + 1, at + n));
            le_value_bound(s);
            reveal_with_fuel(pow256, 9);
        }
        x = buf[at + i] as u64 + 256 * x;
    }
    x
}

/// The `n` low-order bytes of `x`, most significant first.
pub fn be_vec(x: u128, n: usize) -> (v: Vec<u8>)
    ensures
        v@ == be_bytes(x as nat, n as nat),
{
    let mut low: Vec<u8> = Vec::new();
    let mut rest: u128 = x;
    let mut left: usize = n;
    while left > 0
        invariant
            left <= n,
            low@ + le_bytes(rest as nat, left as nat) =~= le_bytes(x as nat, n as nat),
        decreases left,
    {
        low.push((rest % 256) as u8);
        rest = rest / 256;
        left = left - 1;
    }
    assert(low@ =~= le_bytes(x as nat, n as nat));
    let mut v: Vec<u8> = Vec::new();
    let mut i: usize = low.len();
    while i > 0
        invariant
            i <= low@.len(),
            v@ =~= low@.skip(i as int).reverse(),
        decreases i,
    {
        i = i - 1;
        v.push(low[i]);
    }
    assert(low@.skip(0) =~= low@);
    v
}

/// Reads `n` bytes from the start, most significant first.
pub fn get_be(buf: &[u8], n: usize) -> (x: u128)
    requires
        n <= buf@.len(),
        n <= 16,
    ensures
        x == be_value(buf@.take(n as int)),
{
    let mut x: u128 = 0;
    let mut i: usize = 0;
    assert(buf@.take(0).reverse() =~= Seq::<u8>::empty());
    while i < n
        invariant
            i <= n <= 16,
            n <= buf@.len(),
            x == be_value(buf@.take(i as int)),
        decreases n - i,
    {
        proof {
            let now = buf@.take(i as int).reverse();
            let next = buf@.take(i + 1).reverse();
            assert(next.skip(1) =~= now);
            le_value_bound(now);
            le_value_bound(next);
            reveal_with_fuel(pow256, 17);
        }
        x = 256 * x + buf[i] as u128;
        i = i + 1;
    }
    x
}

/// Appends `x` as two bytes.
pub fn put_u16(out: &mut Vec<u8>, x: u16)
    ensures
        final(out)@ == old(out)@ + le_bytes(x as nat, 2),
{
    put_le(out, x as u64, 2);
}

/// Appends `x` as four bytes.
pub fn put_u32(out: &mut Vec<u8>, x: u32)
    ensures
        final(out)@ == old(out)@ + le_bytes(x as nat, 4),
{
    put_le(out, x as u64, 4);
}

/// Appends `x` as eight bytes.
pub fn put_u64(out: &mut Vec<u8>, x: u64)
    ensures
        final(out)@ == old(out)@ + le_bytes(x as nat, 8),
{
    put_le(out, x, 8);
}

/// Appends a byte string.
pub fn put_bytes(out: &mut Vec<u8>, bytes: &[u8])
    ensures
        final(out)@ == old(out)@ + bytes@,
{
    let ghost start = out@;
    out.extend_from_slice(bytes);
    assert(out@ =~= start + bytes@);
}

/// A copy of a byte string.
pub fn to_vec(bytes: &[u8]) -> (v: Vec<u8>)
    ensures
        v@ == bytes@,
{
    let mut v: Vec<u8> = Vec::new();
    put_bytes(&mut v, bytes);
    assert(v@ =~= bytes@);
    v
}

/// Reads two bytes from position `at`.
pub fn get_u16(buf: &[u8], at: usize) -> (x: u16)
    requires
        at + 2 <= buf@.len(),
    ensures
        x == le_value(buf@.subrange(at as int, at + 2)),
{
    proof {
        le_value_bound(buf@.subrange(at as int, at + 2));
        pow256_values();
    }
    get_le(buf, at, 2) as u16
}

/// Reads four bytes from position `at`.
pub fn get_u32(buf: &[u8], at: usize) -> (x: u32)
    requires
        at + 4 <= buf@.len(),
    ensures
        x == le_value(buf@.subrange(at as int, at + 4)),
{
    proof {
        le_value_bound(buf@.subrange(at as int, at + 4));
        pow256_values();
    }
    get_le(buf, at, 4) as u32
}

/// Reads eight bytes from position `at`.
pub fn get_u64(buf: &[u8], at: usize) -> (x: u64)
    requires
        at + 8 <= buf@.len(),
    ensures
        x == le_value(buf@.subrange(at as int, at + 8)),
{
    get_le(buf, at, 8)
}

/// Whether two byte strings are equal.
pub fn same_bytes(a: &[u8], b: &[u8]) -> (r: bool)
    ensures
        r == (a@ == b@),
{
    if a.len() != b.len() {
        return false;
    }
    let mut i: usize = 0;
    while i < a.len()
        invariant
            i <= a@.len(),
            a@.len() == b@.len(),
            forall|k: int| 0 <= k < i ==> a@[k] == b@[k],
        decreases a@.len() - i,
    {
        if a[i] != b[i] {
            return false;
        }
        i = i + 1;
    }
    assert(a@ =~= b@);
    true
}

/// Byte `i` of a number stands for its `i`-th power of 256, counted from the low end; the big-endian
/// form is the same bytes from the other end.
pub proof fn bytes_stand_for_powers(x: nat, n: nat, i: int)
    requires
        0 <= i < n,
    ensures
        le_bytes(x, n).len() == n,
        le_bytes(x, n)[i] == x / pow256(i as nat) % 256,
        be_bytes(x, n)[n - 1 - i] == le_bytes(x, n)[i],
    decreases n,
{
    le_bytes_len(x, n);
    if i > 0 {
        bytes_stand_for_powers(x / 256, (n - 1) as nat, i - 1);
        let p = pow256((i - 1) as nat);
        pow256_positive((i - 1) as nat);
        vstd::arithmetic::div_mod::lemma_div_denominator(x as int, 256, p as int);
        assert(x / 256 / p == x / (256 * p));
        assert(le_bytes(x, n)[i] == le_bytes(x / 256, (n - 1) as nat)[i - 1]);
    } else {
        assert(pow256(0) == 1);
        assert(x / 1 == x);
    }
}

/// Powers of 256 are positive.
proof fn pow256_positive(n: nat)
    ensures
        pow256(n) > 0,
    decreases n,
{
    if n > 0 {
        pow256_positive((n - 1) as nat);
    }
}

} // verus!
