//! Splitting a payload into fragments and putting it together again.
//!
//! Only channel 2 carries fragments. Each one is a reliable frame of its own, with its own
//! sequence number, acknowledgement and retransmission:
//!
//! ```text
//! group      u16   which payload it belongs to
//! first_seq  u16   the sequence number of the group's first fragment
//! frag_no    u8    its place in the group
//! total      u8    how many fragments the group has
//! data       [u8]
//! ```
//!
//! A group that stays incomplete is given up after a while, so that it cannot hold memory for
//! good.

use std::collections::{HashMap, VecDeque};
use vstd::prelude::*;

use crate::collections::{self, deque_has, deque_push_capped, keys_of};
use crate::error::{Error, ProtocolError, Result};
use crate::protocol::types::Nanos;
use crate::reliable::retransmit;
use crate::wire::{self, get_u16, put_bytes, put_u16};

verus! {

broadcast use vstd::std_specs::hash::group_hash_axioms;

/// An incomplete group is given up after this long without a new fragment.
pub const FRAGMENT_TIMEOUT: Nanos = 10_000_000_000;

/// The most fragments that a group may have.
pub const MAX_FRAGMENTS: u8 = 64;

/// A payload longer than this is split, so that a frame and its headers fit in a datagram.
pub const FRAGMENT_THRESHOLD: usize = 1100;

/// The length of a fragment header.
pub const FRAG_HEADER_LEN: usize = 6;

/// How many completed groups are remembered.
pub const COMPLETED_CAP: usize = 128;

/// A payload cut into pieces of `max` bytes; the last one may be shorter.
pub open spec fn pieces(payload: Seq<u8>, max: nat) -> Seq<Seq<u8>>
    decreases payload.len(),
{
    if payload.len() == 0 || max == 0 {
        Seq::empty()
    } else if payload.len() <= max {
        seq![payload]
    } else {
        seq![payload.take(max as int)] + pieces(payload.skip(max as int), max)
    }
}

/// The bytes of a fragment.
pub open spec fn fragment_bytes(
    group: u16,
    first_seq: u16,
    frag_no: u8,
    total: u8,
    chunk: Seq<u8>,
) -> Seq<u8> {
    wire::le_bytes(group as nat, 2) + wire::le_bytes(first_seq as nat, 2) + seq![frag_no, total]
        + chunk
}

/// The number of fragments as the header carries it: at least one, cut to 8 bits.
pub open spec fn total_field(count: nat) -> u8 {
    if count == 0 {
        1
    } else {
        (count % 0x100) as u8
    }
}

/// The fragments of a payload.
pub open spec fn fragments(payload: Seq<u8>, group: u16, first_seq: u16, max: nat) -> Seq<Seq<u8>> {
    let p = pieces(payload, max);
    Seq::new(
        p.len(),
        |i: int|
            fragment_bytes(group, first_seq, (i % 0x100) as u8, total_field(p.len()), p[i]),
    )
}

/// The byte strings in a list.
pub open spec fn bodies(v: Seq<Vec<u8>>) -> Seq<Seq<u8>> {
    v.map_values(|b: Vec<u8>| b@)
}

/// Splits a payload into fragments of at most `max_chunk` data bytes. `first_seq` is the sequence
/// number that the first of them will take.
pub fn split(payload: &[u8], group_id: u16, first_seq: u16, max_chunk: usize) -> (parts: Vec<
    Vec<u8>,
>)
    requires
        max_chunk > 0,
    ensures
        bodies(parts@) == fragments(payload@, group_id, first_seq, max_chunk as nat),
{
    let len: usize = payload.len();
    let ghost all = pieces(payload@, max_chunk as nat);
    let mut count: usize = 0;
    let mut pos: usize = 0;
    assert(payload@.skip(0) =~= payload@);
    while pos < len
        invariant
            count <= pos <= len == payload@.len(),
            max_chunk > 0,
            count + pieces(payload@.skip(pos as int), max_chunk as nat).len() == all.len(),
        decreases len - pos,
    {
        let ghost rest = payload@.skip(pos as int);
        count = count + 1;
        if len - pos <= max_chunk {
            pos = len;
        } else {
            pos = pos + max_chunk;
            assert(rest.skip(max_chunk as int) =~= payload@.skip(pos as int));
        }
    }
    let total: u8 = if count == 0 {
        1
    } else {
        assert(count as u8 == count % 0x100) by (bit_vector);
        count as u8
    };
    let mut parts: Vec<Vec<u8>> = Vec::new();
    let mut at: usize = 0;
    let mut i: usize = 0;
    while at < len
        invariant
            i <= at <= len == payload@.len(),
            max_chunk > 0,
            all == pieces(payload@, max_chunk as nat),
            total == total_field(all.len()),
            i <= all.len(),
            all.skip(i as int) =~= pieces(payload@.skip(at as int), max_chunk as nat),
            parts@.len() == i,
            forall|k: int|
                0 <= k < i ==> (#[trigger] parts@[k])@ == fragment_bytes(
                    group_id,
                    first_seq,
                    (k % 0x100) as u8,
                    total,
                    all[k],
                ),
        decreases len - at,
    {
        let ghost rest = payload@.skip(at as int);
        let end: usize = if len - at <= max_chunk {
            len
        } else {
            at + max_chunk
        };
        let chunk = vstd::slice::slice_subrange(payload, at, end);
        proof {
            assert(i as u8 == i % 0x100) by (bit_vector);
            assert(pieces(rest, max_chunk as nat).len() > 0);
            assert(all.skip(i as int)[0] == all[i as int]);
            if len - at <= max_chunk {
                assert(chunk@ =~= rest);
            } else {
                assert(chunk@ =~= rest.take(max_chunk as int));
                assert(rest.skip(max_chunk as int) =~= payload@.skip(end as int));
            }
            assert(all.skip(i as int).skip(1) =~= all.skip(i + 1));
        }
        parts.push(encode_fragment(group_id, first_seq, i as u8, total, chunk));
        at = end;
        i = i + 1;
    }
    assert(bodies(parts@) =~= fragments(payload@, group_id, first_seq, max_chunk as nat));
    parts
}

/// The bytes of one fragment.
pub fn encode_fragment(group_id: u16, first_seq: u16, frag_no: u8, total: u8, chunk: &[u8]) -> (body:
    Vec<u8>)
    ensures
        body@ == fragment_bytes(group_id, first_seq, frag_no, total, chunk@),
{
    let mut body: Vec<u8> = Vec::new();
    put_u16(&mut body, group_id);
    put_u16(&mut body, first_seq);
    body.push(frag_no);
    body.push(total);
    put_bytes(&mut body, chunk);
    assert(body@ =~= fragment_bytes(group_id, first_seq, frag_no, total, chunk@));
    body
}

/// One fragment as it is read.
#[verifier::ext_equal]
pub struct Fragment {
    pub group: u16,
    pub first_seq: u16,
    pub frag_no: u8,
    pub total: u8,
    pub chunk: Seq<u8>,
}

/// Reads a fragment: its group must not be empty nor above the limit, and its place must lie in
/// the group.
pub open spec fn fragment_of(s: Seq<u8>) -> std::result::Result<Fragment, ProtocolError> {
    if s.len() < FRAG_HEADER_LEN {
        Err(ProtocolError::FragmentTooShort)
    } else if s[5] == 0 || s[5] > MAX_FRAGMENTS || s[4] >= s[5] {
        Err(ProtocolError::BadFragment { frag_no: s[4], total: s[5] })
    } else {
        Ok(
            Fragment {
                group: wire::le_value(s.subrange(0, 2)) as u16,
                first_seq: wire::le_value(s.subrange(2, 4)) as u16,
                frag_no: s[4],
                total: s[5],
                chunk: s.skip(6),
            },
        )
    }
}

/// Reads a fragment: group, first sequence number, place, group size, data.
pub fn decode_fragment(body: &[u8]) -> (r: Result<(u16, u16, u8, u8, &[u8])>)
    ensures
        match fragment_of(body@) {
            Ok(f) => r matches Ok(x) && x.0 == f.group && x.1 == f.first_seq && x.2 == f.frag_no
                && x.3 == f.total && x.4@ == f.chunk,
            Err(e) => r == Err::<(u16, u16, u8, u8, &[u8]), Error>(Error::Protocol(e)),
        },
{
    if body.len() < FRAG_HEADER_LEN {
        return Err(Error::Protocol(ProtocolError::FragmentTooShort));
    }
    let group_id: u16 = get_u16(body, 0);
    let first_seq: u16 = get_u16(body, 2);
    let frag_no: u8 = body[4];
    let total: u8 = body[5];
    if total == 0 || total > MAX_FRAGMENTS || frag_no >= total {
        return Err(Error::Protocol(ProtocolError::BadFragment { frag_no, total }));
    }
    let chunk = vstd::slice::slice_subrange(body, FRAG_HEADER_LEN, body.len());
    assert(chunk@ =~= body@.skip(6));
    Ok((group_id, first_seq, frag_no, total, chunk))
}

/// A fragment of a group that is not too large is read as it was built.
pub proof fn decode_inverts_encode(f: Fragment)
    requires
        f.frag_no < f.total <= MAX_FRAGMENTS,
    ensures
        fragment_of(fragment_bytes(f.group, f.first_seq, f.frag_no, f.total, f.chunk)) == Ok::<
            Fragment,
            ProtocolError,
        >(f),
{
    let s = fragment_bytes(f.group, f.first_seq, f.frag_no, f.total, f.chunk);
    wire::pow256_values();
    wire::le_bytes_len(f.group as nat, 2);
    wire::le_bytes_len(f.first_seq as nat, 2);
    wire::le_value_of_le_bytes(f.group as nat, 2);
    wire::le_value_of_le_bytes(f.first_seq as nat, 2);
    assert(s.subrange(0, 2) =~= wire::le_bytes(f.group as nat, 2));
    assert(s.subrange(2, 4) =~= wire::le_bytes(f.first_seq as nat, 2));
    assert(s.skip(6) =~= f.chunk);
}

// Putting it together again.

/// A group that is not complete.
#[derive(Debug, Clone)]
struct FragState {
    first_seq: u16,
    /// The data of each fragment, as far as it has come.
    parts: Vec<Option<Vec<u8>>>,
    last_update: Nanos,
}

/// What an incomplete group is.
#[verifier::ext_equal]
pub struct Group {
    pub first_seq: u16,
    pub parts: Seq<Option<Seq<u8>>>,
    pub last_update: Nanos,
}

/// The bytes in an optional buffer.
pub open spec fn part_view(p: Option<Vec<u8>>) -> Option<Seq<u8>> {
    match p {
        Some(v) => Some(v@),
        None => None,
    }
}

impl FragState {
    spec fn view(&self) -> Group {
        Group {
            first_seq: self.first_seq,
            parts: self.parts@.map_values(|p: Option<Vec<u8>>| part_view(p)),
            last_update: self.last_update,
        }
    }
}

/// Puts fragments together again, for one session.
#[derive(Debug, Clone)]
pub struct FragmentAssembler {
    pending: HashMap<u16, FragState>,
    /// The groups completed last: their fragments may be sent again and come once more.
    completed: VecDeque<u16>,
}

/// What an assembler holds: the incomplete groups, and the groups completed last, oldest first.
#[verifier::ext_equal]
pub struct Assembly {
    pub pending: Map<u16, Group>,
    pub completed: Seq<u16>,
}

impl View for FragmentAssembler {
    type V = Assembly;

    closed spec fn view(&self) -> Assembly {
        Assembly {
            pending: self.pending@.map_values(|s: FragState| s@),
            completed: self.completed@,
        }
    }
}

/// An assembler that has seen nothing.
pub open spec fn no_groups() -> Assembly {
    Assembly { pending: Map::empty(), completed: Seq::empty() }
}

/// What is there of a group before a fragment of it is taken in: nothing, if the group is new or
/// its size or first sequence number differs from what was said before.
pub open spec fn parts_before(a: Assembly, group: u16, first_seq: u16, total: u8) -> Seq<
    Option<Seq<u8>>,
> {
    if a.pending.contains_key(group) && a.pending[group].parts.len() == total
        && a.pending[group].first_seq == first_seq {
        a.pending[group].parts
    } else {
        Seq::new(total as nat, |i: int| None)
    }
}

/// What is there of a group after a fragment was taken in: the first copy of each counts.
pub open spec fn with_part(parts: Seq<Option<Seq<u8>>>, frag_no: u8, chunk: Seq<u8>) -> Seq<
    Option<Seq<u8>>,
> {
    if parts[frag_no as int] is None {
        parts.update(frag_no as int, Some(chunk))
    } else {
        parts
    }
}

/// Whether every fragment has come.
pub open spec fn all_here(parts: Seq<Option<Seq<u8>>>) -> bool {
    forall|i: int| 0 <= i < parts.len() ==> #[trigger] parts[i] is Some
}

/// The fragments one after the other.
pub open spec fn joined(parts: Seq<Option<Seq<u8>>>) -> Seq<u8>
    decreases parts.len(),
{
    if parts.len() == 0 {
        Seq::empty()
    } else {
        match parts.last() {
            Some(p) => joined(parts.drop_last()) + p,
            None => joined(parts.drop_last()),
        }
    }
}

/// What one fragment does: the assembler afterwards, and the payload that it completes, with the
/// first sequence number of its group.
pub open spec fn pushed(
    a: Assembly,
    group: u16,
    first_seq: u16,
    frag_no: u8,
    total: u8,
    chunk: Seq<u8>,
    now: Nanos,
) -> (Assembly, Option<(u16, Seq<u8>)>) {
    let parts = with_part(parts_before(a, group, first_seq, total), frag_no, chunk);
    if a.completed.contains(group) {
        (a, None)
    } else if all_here(parts) {
        (
            Assembly {
                pending: a.pending.remove(group),
                completed: collections::push_capped(a.completed, group, COMPLETED_CAP as nat),
            },
            Some((first_seq, joined(parts))),
        )
    } else {
        (
            Assembly {
                pending: a.pending.insert(group, Group { first_seq, parts, last_update: now }),
                completed: a.completed,
            },
            None,
        )
    }
}

/// Whether an incomplete group is given up.
pub open spec fn is_stale(g: Group, now: Nanos) -> bool {
    retransmit::elapsed(now, g.last_update) >= FRAGMENT_TIMEOUT
}

/// The assembler after stale groups were given up.
pub open spec fn cleaned(a: Assembly, now: Nanos) -> Assembly {
    Assembly {
        pending: Map::new(
            |k: u16| a.pending.contains_key(k) && !is_stale(a.pending[k], now),
            |k: u16| a.pending[k],
        ),
        completed: a.completed,
    }
}

/// What a completed payload is.
pub open spec fn delivery_view(d: Option<(u16, Vec<u8>)>) -> Option<(u16, Seq<u8>)> {
    match d {
        Some(x) => Some((x.0, x.1@)),
        None => None,
    }
}

impl Default for FragmentAssembler {
    fn default() -> (a: Self)
        ensures
            a@ == no_groups(),
    {
        let a = Self { pending: HashMap::new(), completed: VecDeque::new() };
        assert(a@ =~= no_groups());
        a
    }
}

/// A list of `n` fragments that have not come.
fn none_here(n: u8) -> (parts: Vec<Option<Vec<u8>>>)
    ensures
        parts@.len() == n,
        forall|i: int| 0 <= i < n ==> (#[trigger] parts@[i]) is None,
{
    let mut parts: Vec<Option<Vec<u8>>> = Vec::new();
    let mut i: u8 = 0;
    while i < n
        invariant
            i <= n,
            parts@.len() == i,
            forall|k: int| 0 <= k < i ==> (#[trigger] parts@[k]) is None,
        decreases n - i,
    {
        parts.push(None);
        i = i + 1;
    }
    parts
}

/// The fragments one after the other, if all have come.
fn join_parts(parts: &Vec<Option<Vec<u8>>>) -> (r: Option<Vec<u8>>)
    ensures
        ({
            let p = parts@.map_values(|p: Option<Vec<u8>>| part_view(p));
            match r {
                Some(v) => all_here(p) && v@ == joined(p),
                None => !all_here(p),
            }
        }),
{
    let ghost p = parts@.map_values(|p: Option<Vec<u8>>| part_view(p));
    let mut out: Vec<u8> = Vec::new();
    let mut i: usize = 0;
    while i < parts.len()
        invariant
            i <= parts@.len(),
            p == parts@.map_values(|p: Option<Vec<u8>>| part_view(p)),
            forall|k: int| 0 <= k < i ==> (#[trigger] p[k]) is Some,
            out@ == joined(p.take(i as int)),
        decreases parts@.len() - i,
    {
        assert(p[i as int] == part_view(parts@[i as int]));
        match &parts[i] {
            Some(v) => {
                put_bytes(&mut out, v.as_slice());
                assert(p.take(i + 1).drop_last() =~= p.take(i as int));
            },
            None => {
                return None;
            },
        }
        i = i + 1;
    }
    assert(p.take(i as int) =~= p);
    Some(out)
}

impl FragmentAssembler {
    /// An assembler that has seen nothing.
    pub fn new() -> (a: Self)
        ensures
            a@ == no_groups(),
    {
        Self::default()
    }

    /// Takes in a fragment; returns the first sequence number and the whole payload when it
    /// completes its group. Fragments of a group that was completed lately are ignored.
    pub fn push(
        &mut self,
        group_id: u16,
        first_seq: u16,
        frag_no: u8,
        total: u8,
        chunk: &[u8],
        now: Nanos,
    ) -> (r: Option<(u16, Vec<u8>)>)
        requires
            frag_no < total || old(self)@.completed.contains(group_id),
        ensures
            (final(self)@, delivery_view(r)) == pushed(
                old(self)@,
                group_id,
                first_seq,
                frag_no,
                total,
                chunk@,
                now,
            ),
    {
        let ghost a = self@;
        if deque_has(&self.completed, group_id) {
            return None;
        }
        let found = self.pending.remove(&group_id);
        let ghost before = parts_before(a, group_id, first_seq, total);
        let mut parts = match found {
            Some(st) => {
                assert(a.pending[group_id] == st@);
                if st.parts.len() == total as usize && st.first_seq == first_seq {
                    st.parts
                } else {
                    none_here(total)
                }
            },
            None => none_here(total),
        };
        assert(parts@.map_values(|p: Option<Vec<u8>>| part_view(p)) =~= before);
        assert(before[frag_no as int] == part_view(parts@[frag_no as int]));
        if parts[frag_no as usize].is_none() {
            parts.set(frag_no as usize, Some(wire::to_vec(chunk)));
        }
        let ghost after = with_part(before, frag_no, chunk@);
        assert(parts@.map_values(|p: Option<Vec<u8>>| part_view(p)) =~= after);
        match join_parts(&parts) {
            Some(out) => {
                deque_push_capped(&mut self.completed, group_id, COMPLETED_CAP);
                assert(self@.pending =~= a.pending.remove(group_id));
                Some((first_seq, out))
            },
            None => {
                let st = FragState { first_seq, parts, last_update: now };
                let ghost g = st@;
                assert(g =~= (Group { first_seq, parts: after, last_update: now }));
                self.pending.insert(group_id, st);
                assert(self@.pending =~= a.pending.insert(group_id, g));
                None
            },
        }
    }

    /// Gives up the groups that got no fragment for too long.
    pub fn cleanup(&mut self, now: Nanos)
        ensures
            final(self)@ == cleaned(old(self)@, now),
            old(self)@.pending.dom().finite(),
    {
        let ghost a = self@;
        assert(a.pending.dom() =~= self.pending@.dom());
        let keys = keys_of(&self.pending);
        let mut i: usize = 0;
        while i < keys.len()
            invariant
                i <= keys@.len(),
                keys@.no_duplicates(),
                forall|k: u16| #[trigger] keys@.contains(k) <==> a.pending.contains_key(k),
                self@.completed == a.completed,
                forall|k: u16|
                    #[trigger] self@.pending.contains_key(k) <==> a.pending.contains_key(k) && !(
                    keys@.take(i as int).contains(k) && is_stale(a.pending[k], now)),
                forall|k: u16|
                    #[trigger] self@.pending.contains_key(k) ==> self@.pending[k] == a.pending[k],
            decreases keys@.len() - i,
        {
            let key: u16 = keys[i];
            assert(keys@.contains(key));
            assert(!keys@.take(i as int).contains(key));
            assert(self@.pending.contains_key(key));
            assert(keys@.take(i + 1) =~= keys@.take(i as int).push(key));
            assert forall|k: u16|
                #[trigger] keys@.take(i + 1).contains(k) <==> keys@.take(i as int).contains(k) || k
                    == key by {
                let t = keys@.take(i as int);
                if t.contains(k) {
                    let j = choose|j: int| 0 <= j < t.len() && t[j] == k;
                    assert(t.push(key)[j] == k);
                }
                assert(t.push(key)[t.len() as int] == key);
            }
            let stale: bool = match self.pending.get(&key) {
                Some(st) => {
                    assert(st@ == a.pending[key]);
                    now.saturating_sub(st.last_update) >= FRAGMENT_TIMEOUT
                },
                None => false,
            };
            if stale {
                let ghost before = self@.pending;
                self.pending.remove(&key);
                assert(self@.pending =~= before.remove(key));
            }
            i = i + 1;
        }
        assert(keys@.take(i as int) =~= keys@);
        assert(self@ =~= cleaned(a, now));
    }

    /// The number of incomplete groups.
    pub fn pending_count(&self) -> (n: usize)
        ensures
            self@.pending.dom().finite(),
            n == self@.pending.dom().len(),
    {
        assert(self@.pending.dom() =~= self.pending@.dom());
        self.pending.len()
    }
}

// What assembly promises.

/// The incomplete groups that are given up at a time.
pub open spec fn stale_groups(a: Assembly, now: Nanos) -> Set<u16> {
    a.pending.dom().filter(|g: u16| is_stale(a.pending[g], now))
}

/// Giving up stale groups keeps a group, as it is, if and only if a fragment of it came less than
/// the timeout ago. The number of incomplete groups drops by the number of stale ones, and the
/// completed groups stay remembered.
pub proof fn only_stale_groups_are_given_up(a: Assembly, now: Nanos)
    requires
        a.pending.dom().finite(),
    ensures
        forall|g: u16| #[trigger]
            cleaned(a, now).pending.contains_key(g) <==> a.pending.contains_key(g)
                && retransmit::elapsed(now, a.pending[g].last_update) < FRAGMENT_TIMEOUT,
        forall|g: u16| #[trigger]
            cleaned(a, now).pending.contains_key(g) ==> cleaned(a, now).pending[g] == a.pending[g],
        cleaned(a, now).pending.dom().finite(),
        cleaned(a, now).pending.dom().len() + stale_groups(a, now).len() == a.pending.dom().len(),
        cleaned(a, now).completed == a.completed,
{
    let kept = cleaned(a, now).pending.dom();
    let gone = stale_groups(a, now);
    a.pending.dom().lemma_len_filter(|g: u16| is_stale(a.pending[g], now));
    assert(kept =~= a.pending.dom().difference(gone));
    vstd::set_lib::lemma_set_disjoint_lens(kept, gone);
    assert(kept + gone =~= a.pending.dom());
}

/// Of a group that was given up nothing is left: when a fragment of it comes again, it counts as
/// the first. A group that was completed lately is ignored as before.
pub proof fn given_up_groups_start_again(
    a: Assembly,
    group: u16,
    first_seq: u16,
    frag_no: u8,
    total: u8,
    chunk: Seq<u8>,
    now: Nanos,
    later: Nanos,
)
    requires
        frag_no < total,
    ensures
        stale_groups(a, now).contains(group) ==> parts_before(
            cleaned(a, now),
            group,
            first_seq,
            total,
        ) == Seq::<Option<Seq<u8>>>::new(total as nat, |i: int| None),
        stale_groups(a, now).contains(group) && !a.completed.contains(group) && total > 1 ==> ({
            let (b, out) = pushed(
                cleaned(a, now),
                group,
                first_seq,
                frag_no,
                total,
                chunk,
                later,
            );
            &&& out is None
            &&& b.pending.contains_key(group)
            &&& b.pending[group].parts == Seq::<Option<Seq<u8>>>::new(total as nat, |i: int| None).update(
                frag_no as int,
                Some(chunk),
            )
        }),
        a.completed.contains(group) ==> pushed(
            cleaned(a, now),
            group,
            first_seq,
            frag_no,
            total,
            chunk,
            later,
        ) == (cleaned(a, now), None::<(u16, Seq<u8>)>),
{
    let none = Seq::<Option<Seq<u8>>>::new(total as nat, |i: int| None);
    if total > 1 {
        let other: int = if frag_no == 0 {
            1
        } else {
            0
        };
        assert(none.update(frag_no as int, Some(chunk))[other] is None);
    }
}

/// The pieces of a payload, one after the other, are the payload.
pub proof fn pieces_join_to_the_payload(payload: Seq<u8>, max: nat)
    requires
        max > 0,
    ensures
        joined(pieces(payload, max).map_values(|p: Seq<u8>| Some(p))) == payload,
    decreases payload.len(),
{
    let p = pieces(payload, max);
    let parts = p.map_values(|p: Seq<u8>| Some(p));
    reveal_with_fuel(joined, 2);
    if payload.len() == 0 {
        assert(joined(parts) =~= payload);
    } else if payload.len() <= max {
        assert(parts.drop_last() =~= Seq::<Option<Seq<u8>>>::empty());
        assert(joined(parts) =~= payload);
    } else {
        let rest = payload.skip(max as int);
        pieces_join_to_the_payload(rest, max);
        let tail = pieces(rest, max).map_values(|p: Seq<u8>| Some(p));
        joined_of_front(payload.take(max as int), tail);
        assert(parts =~= seq![Some(payload.take(max as int))] + tail);
        assert(payload.take(max as int) + rest =~= payload);
    }
}

/// A part in front of others comes first in what they join to.
proof fn joined_of_front(front: Seq<u8>, tail: Seq<Option<Seq<u8>>>)
    ensures
        joined(seq![Some(front)] + tail) == front + joined(tail),
    decreases tail.len(),
{
    let all = seq![Some(front)] + tail;
    reveal_with_fuel(joined, 2);
    if tail.len() == 0 {
        assert(all.drop_last() =~= Seq::<Option<Seq<u8>>>::empty());
        assert(joined(all) =~= front + joined(tail));
    } else {
        joined_of_front(front, tail.drop_last());
        assert(all.drop_last() =~= seq![Some(front)] + tail.drop_last());
        assert(all.last() == tail.last());
        match tail.last() {
            Some(p) => {
                assert((front + joined(tail.drop_last())) + p =~= front + joined(tail));
            },
            None => {},
        }
    }
}

/// Fragments of one group that arrive one after the other: which piece, and when.
pub type Arrivals = Seq<(int, Nanos)>;

/// What an assembler holds, and what it has delivered, after some arrivals.
pub open spec fn after_arrivals(
    a: Assembly,
    group: u16,
    first_seq: u16,
    p: Seq<Seq<u8>>,
    arrivals: Arrivals,
) -> (Assembly, Seq<(u16, Seq<u8>)>)
    decreases arrivals.len(),
{
    if arrivals.len() == 0 {
        (a, Seq::empty())
    } else {
        let (b, out) = after_arrivals(a, group, first_seq, p, arrivals.drop_last());
        let (i, now) = arrivals.last();
        let (c, d) = pushed(b, group, first_seq, i as u8, p.len() as u8, p[i], now);
        (
            c,
            match d {
                Some(x) => out.push(x),
                None => out,
            },
        )
    }
}

/// Whether piece `i` is among the arrivals.
pub open spec fn has_arrived(arrivals: Arrivals, i: int) -> bool {
    exists|k: int| 0 <= k < arrivals.len() && (#[trigger] arrivals[k]).0 == i
}

/// Whether every piece is among the arrivals.
pub open spec fn have_all_arrived(arrivals: Arrivals, n: nat) -> bool {
    forall|i: int| 0 <= i < n ==> #[trigger] has_arrived(arrivals, i)
}

/// Fragments of a new group may arrive in any order and any number of times. The payload is
/// delivered exactly once as soon as every piece has come at least once, and not before.
pub proof fn any_order_delivers_once(
    a: Assembly,
    group: u16,
    first_seq: u16,
    payload: Seq<u8>,
    max: nat,
    arrivals: Arrivals,
)
    requires
        max > 0,
        0 < pieces(payload, max).len() <= MAX_FRAGMENTS,
        !a.completed.contains(group),
        !a.pending.contains_key(group),
        forall|k: int|
            0 <= k < arrivals.len() ==> 0 <= (#[trigger] arrivals[k]).0 < pieces(payload, max).len(),
    ensures
        after_arrivals(a, group, first_seq, pieces(payload, max), arrivals).1 == (
        if have_all_arrived(arrivals, pieces(payload, max).len()) {
            seq![(first_seq, payload)]
        } else {
            Seq::empty()
        }),
{
    arrivals_state(a, group, first_seq, payload, max, arrivals);
}

/// The state behind `any_order_delivers_once`.
proof fn arrivals_state(
    a: Assembly,
    group: u16,
    first_seq: u16,
    payload: Seq<u8>,
    max: nat,
    arrivals: Arrivals,
)
    requires
        max > 0,
        0 < pieces(payload, max).len() <= MAX_FRAGMENTS,
        !a.completed.contains(group),
        !a.pending.contains_key(group),
        forall|k: int|
            0 <= k < arrivals.len() ==> 0 <= (#[trigger] arrivals[k]).0 < pieces(payload, max).len(),
    ensures
        ({
            let p = pieces(payload, max);
            let (b, out) = after_arrivals(a, group, first_seq, p, arrivals);
            if have_all_arrived(arrivals, p.len()) {
                &&& b.completed.contains(group)
                &&& out == seq![(first_seq, payload)]
            } else {
                &&& b.completed == a.completed
                &&& out == Seq::<(u16, Seq<u8>)>::empty()
                &&& arrivals.len() == 0 ==> !b.pending.contains_key(group)
                &&& arrivals.len() > 0 ==> {
                    &&& b.pending.contains_key(group)
                    &&& b.pending[group].first_seq == first_seq
                    &&& b.pending[group].parts == Seq::new(
                        p.len(),
                        |i: int|
                            if has_arrived(arrivals, i) {
                                Some(p[i])
                            } else {
                                None
                            },
                    )
                }
            }
        }),
    decreases arrivals.len(),
{
    let p = pieces(payload, max);
    if arrivals.len() == 0 {
        assert(!has_arrived(arrivals, 0));
    } else {
        let init = arrivals.drop_last();
        assert forall|k: int| 0 <= k < init.len() implies 0 <= (#[trigger] init[k]).0 < p.len() by {
            assert(init[k] == arrivals[k]);
        }
        arrivals_state(a, group, first_seq, payload, max, init);
        let (b, out) = after_arrivals(a, group, first_seq, p, init);
        let (i, now) = arrivals.last();
        assert(arrivals[arrivals.len() - 1].0 == i);
        assert forall|j: int| #[trigger] has_arrived(arrivals, j) == (has_arrived(init, j) || j
            == i) by {
            if has_arrived(init, j) {
                let k = choose|k: int| 0 <= k < init.len() && (#[trigger] init[k]).0 == j;
                assert(arrivals[k].0 == j);
            }
            if has_arrived(arrivals, j) && j != i {
                let k = choose|k: int| 0 <= k < arrivals.len() && (#[trigger] arrivals[k]).0 == j;
                assert(init[k].0 == j);
            }
        }
        if have_all_arrived(init, p.len()) {
            assert(have_all_arrived(arrivals, p.len()));
        } else {
            let before = parts_before(b, group, first_seq, p.len() as u8);
            assert(before =~= Seq::new(
                p.len(),
                |j: int|
                    if has_arrived(init, j) {
                        Some(p[j])
                    } else {
                        None
                    },
            )) by {
                if init.len() == 0 {
                    assert forall|j: int| !has_arrived(init, j) by {}
                }
            }
            let after = with_part(before, i as u8, p[i]);
            assert(after =~= Seq::new(
                p.len(),
                |j: int|
                    if has_arrived(arrivals, j) {
                        Some(p[j])
                    } else {
                        None
                    },
            ));
            if have_all_arrived(arrivals, p.len()) {
                assert forall|j: int| 0 <= j < after.len() implies #[trigger] after[j] is Some by {
                    assert(has_arrived(arrivals, j));
                }
                assert(after =~= p.map_values(|q: Seq<u8>| Some(q)));
                pieces_join_to_the_payload(payload, max);
                collections::push_capped_has(b.completed, group, COMPLETED_CAP as nat);
                assert(out.push((first_seq, payload)) =~= seq![(first_seq, payload)]);
            } else {
                let j = choose|j: int| 0 <= j < p.len() && !(#[trigger] has_arrived(arrivals, j));
                assert(after[j] is None);
            }
        }
    }
}

/// A fragment leaves every other group as it is.
pub proof fn other_groups_are_untouched(
    a: Assembly,
    group: u16,
    first_seq: u16,
    frag_no: u8,
    total: u8,
    chunk: Seq<u8>,
    now: Nanos,
    other: u16,
)
    requires
        other != group,
    ensures
        ({
            let b = pushed(a, group, first_seq, frag_no, total, chunk, now).0;
            b.pending.contains_key(other) == a.pending.contains_key(other) && (
            a.pending.contains_key(other) ==> b.pending[other] == a.pending[other])
        }),
{
}

/// A group that was completed lately delivers nothing more.
pub proof fn completed_groups_stay_silent(
    a: Assembly,
    group: u16,
    first_seq: u16,
    frag_no: u8,
    total: u8,
    chunk: Seq<u8>,
    now: Nanos,
)
    requires
        a.completed.contains(group),
    ensures
        pushed(a, group, first_seq, frag_no, total, chunk, now) == (a, None::<(u16, Seq<u8>)>),
{
}

/// What is collected of a group: a fragment that was not there is put in its place, one that was
/// there stays as it came first, and the others are left alone. A fragment that disagrees about the
/// size of the group or its first number starts the group over. The group was last heard of now.
pub proof fn fragments_are_collected(
    a: Assembly,
    group: u16,
    first_seq: u16,
    frag_no: u8,
    total: u8,
    chunk: Seq<u8>,
    now: Nanos,
    j: int,
)
    requires
        frag_no < total,
        0 <= j < total,
        !a.completed.contains(group),
        pushed(a, group, first_seq, frag_no, total, chunk, now).1 is None,
    ensures
        ({
            let b = pushed(a, group, first_seq, frag_no, total, chunk, now).0;
            let g = a.pending[group];
            let goes_on = a.pending.contains_key(group) && g.parts.len() == total && g.first_seq
                == first_seq;
            let p = b.pending[group];
            &&& b.completed == a.completed
            &&& b.pending.contains_key(group)
            &&& b.pending == a.pending.insert(group, p)
            &&& p.first_seq == first_seq
            &&& p.last_update == now
            &&& p.parts.len() == total
            &&& goes_on && g.parts[j] is Some ==> p.parts[j] == g.parts[j]
            &&& goes_on && g.parts[j] is None && j != frag_no ==> p.parts[j] is None
            &&& goes_on && g.parts[j] is None && j == frag_no ==> p.parts[j] == Some(chunk)
            &&& !goes_on && j == frag_no ==> p.parts[j] == Some(chunk)
            &&& !goes_on && j != frag_no ==> p.parts[j] is None
        }),
{
}

/// A group is over when no fragment of it is missing and not before. The one that completes it
/// hands over the first number and everything that was collected, one after the other; the group
/// is remembered, as one of the last 128, and nothing of it is kept.
pub proof fn complete_groups_are_handed_over(
    a: Assembly,
    group: u16,
    first_seq: u16,
    frag_no: u8,
    total: u8,
    chunk: Seq<u8>,
    now: Nanos,
)
    requires
        frag_no < total,
        !a.completed.contains(group),
        a.completed.len() <= 128,
    ensures
        ({
            let (b, out) = pushed(a, group, first_seq, frag_no, total, chunk, now);
            let g = a.pending[group];
            let goes_on = a.pending.contains_key(group) && g.parts.len() == total && g.first_seq
                == first_seq;
            let rest_is_here = forall|j: int|
                0 <= j < total && j != frag_no ==> goes_on && #[trigger] g.parts[j] is Some;
            &&& out is Some <==> rest_is_here
            &&& out matches Some((first, _)) ==> first == first_seq && b.pending
                == a.pending.remove(group) && b.completed.contains(group) && (a.completed.len()
                < 128 ==> b.completed == a.completed.push(group))
        }),
{
    let g = a.pending[group];
    let goes_on = a.pending.contains_key(group) && g.parts.len() == total && g.first_seq
        == first_seq;
    let parts = with_part(parts_before(a, group, first_seq, total), frag_no, chunk);
    let rest_is_here = forall|j: int|
        0 <= j < total && j != frag_no ==> goes_on && #[trigger] g.parts[j] is Some;
    if rest_is_here {
        assert forall|j: int| 0 <= j < parts.len() implies #[trigger] parts[j] is Some by {
            if j != frag_no {
                assert(g.parts[j] is Some);
            }
        }
    } else {
        let j = choose|j: int|
            0 <= j < total && j != frag_no && !(goes_on && #[trigger] g.parts[j] is Some);
        assert(parts[j] is None);
    }
    let q = collections::push_capped(a.completed, group, 128);
    assert(q[q.len() - 1] == group);
}

/// A payload is cut into pieces of exactly `max` bytes, but for the last, which is not empty. An
/// empty payload has none.
pub proof fn pieces_are_full(payload: Seq<u8>, max: nat, i: int)
    requires
        max > 0,
    ensures
        pieces(payload, max).len() == 0 <==> payload.len() == 0,
        0 <= i < pieces(payload, max).len() - 1 ==> pieces(payload, max)[i].len() == max,
        payload.len() > 0 ==> 0 < pieces(payload, max).last().len() <= max,
    decreases payload.len(),
{
    if payload.len() > max {
        pieces_are_full(payload.skip(max as int), max, i - 1);
        let p = pieces(payload, max);
        let q = pieces(payload.skip(max as int), max);
        assert(p.last() == q.last());
        if 0 < i < p.len() - 1 {
            assert(p[i] == q[i - 1]);
        }
    }
}

/// Fragments carry the pieces in order, each with its place and the size of the group.
pub proof fn fragments_are_numbered(
    payload: Seq<u8>,
    group: u16,
    first_seq: u16,
    max: nat,
    i: int,
)
    requires
        max > 0,
        0 <= i < pieces(payload, max).len() <= 64,
    ensures
        fragments(payload, group, first_seq, max).len() == pieces(payload, max).len(),
        fragment_of(fragments(payload, group, first_seq, max)[i]) == Ok::<Fragment, ProtocolError>(
            Fragment {
                group,
                first_seq,
                frag_no: i as u8,
                total: pieces(payload, max).len() as u8,
                chunk: pieces(payload, max)[i],
            },
        ),
{
    let n = pieces(payload, max).len();
    decode_inverts_encode(
        Fragment {
            group,
            first_seq,
            frag_no: i as u8,
            total: n as u8,
            chunk: pieces(payload, max)[i],
        },
    );
}

} // verus!
