//! Small helpers on the standard collections.

use std::collections::{HashMap, VecDeque};
use std::hash::Hash;
use vstd::prelude::*;

verus! {

broadcast use vstd::std_specs::hash::group_hash_axioms;

/// The keys of a map, each once, in some order.
pub fn keys_of<K: Copy + Eq + Hash, V>(m: &HashMap<K, V>) -> (keys: Vec<K>)
    requires
        vstd::std_specs::hash::obeys_key_model::<K>(),
    ensures
        keys@.no_duplicates(),
        forall|k: K| #[trigger] keys@.contains(k) <==> m@.contains_key(k),
{
    let mut keys: Vec<K> = Vec::new();
    for k in iter: m.keys()
        invariant
            vstd::std_specs::hash::obeys_key_model::<K>(),
            iter.seq().no_duplicates(),
            iter.seq().unref().to_set() == m@.dom(),
            keys@.len() == iter.index(),
            forall|i: int| 0 <= i < keys@.len() ==> #[trigger] keys@[i] == *iter.seq()[i],
            iter.index() == iter.seq().len() ==> keys@ =~= iter.seq().unref(),
    {
        keys.push(*k);
    }
    assert(keys@.to_set() == m@.dom());
    assert forall|k: K| #[trigger] keys@.contains(k) == m@.contains_key(k) by {
        assert(keys@.contains(k) == keys@.to_set().contains(k));
    }
    keys
}

/// Whether a queue of numbers holds `x`.
pub fn deque_has(q: &VecDeque<u16>, x: u16) -> (r: bool)
    ensures
        r == q@.contains(x),
{
    let mut i: usize = 0;
    while i < q.len()
        invariant
            i <= q@.len(),
            forall|k: int| 0 <= k < i ==> q@[k] != x,
        decreases q@.len() - i,
    {
        if q[i] == x {
            return true;
        }
        i = i + 1;
    }
    false
}

/// A queue after one more number, with the oldest dropped beyond `cap`.
pub open spec fn push_capped(q: Seq<u16>, x: u16, cap: nat) -> Seq<u16> {
    let s = q.push(x);
    if s.len() > cap {
        s.skip(s.len() - cap)
    } else {
        s
    }
}

/// Appends a number and drops the oldest beyond `cap`.
pub fn deque_push_capped(q: &mut VecDeque<u16>, x: u16, cap: usize)
    ensures
        final(q)@ == push_capped(old(q)@, x, cap as nat),
{
    q.push_back(x);
    let ghost long = q@;
    while q.len() > cap
        invariant
            q@.len() <= long.len(),
            q@.len() >= cap || q@.len() == long.len(),
            q@ =~= long.skip(long.len() - q@.len()),
        decreases q@.len(),
    {
        q.pop_front();
    }
}

/// What was pushed last is there, unless nothing may be kept.
pub proof fn push_capped_has(q: Seq<u16>, x: u16, cap: nat)
    requires
        cap > 0,
    ensures
        push_capped(q, x, cap).contains(x),
        push_capped(q, x, cap).len() <= cap || push_capped(q, x, cap).len() == q.len() + 1,
{
    let s = push_capped(q, x, cap);
    assert(s[s.len() - 1] == x);
}

/// A bounded queue keeps the latest numbers in order: the new one is last, what was there comes
/// before it, and the oldest goes when there is no room.
pub proof fn the_oldest_goes_first(q: Seq<u16>, x: u16, cap: nat)
    requires
        cap > 0,
        q.len() <= cap,
    ensures
        push_capped(q, x, cap).last() == x,
        q.len() < cap ==> push_capped(q, x, cap).drop_last() == q,
        q.len() == cap ==> push_capped(q, x, cap).drop_last() == q.skip(1),
{
    let p = push_capped(q, x, cap);
    if q.len() < cap {
        assert(p.drop_last() =~= q);
    } else {
        assert(p.drop_last() =~= q.skip(1));
    }
}

} // verus!
