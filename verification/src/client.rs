//! The receiving side of a message stream: what was read, cut into messages.

use vstd::prelude::*;

use crate::protocol::datapack::{self, DataPack};
use crate::protocol::message::{Message, MessageData};
use crate::wire::put_bytes;

verus! {

/// Collects what was read, and gives out whole messages.
#[derive(Debug)]
pub struct Inbox {
    pending: Vec<u8>,
}

impl View for Inbox {
    type V = Seq<u8>;

    closed spec fn view(&self) -> Seq<u8> {
        self.pending@
    }
}

/// What comes off a stream when messages are taken until none is whole: the messages, and the
/// bytes that are left.
pub open spec fn taken(s: Seq<u8>) -> (Seq<MessageData>, Seq<u8>)
    decreases s.len(),
{
    match datapack::unpacked(s) {
        Some((m, n)) => {
            let (more, rest) = taken(s.skip(n as int));
            (seq![m] + more, rest)
        },
        None => (Seq::empty(), s),
    }
}

/// The bytes of messages written one after the other.
pub open spec fn all_packed(messages: Seq<MessageData>) -> Seq<u8>
    decreases messages.len(),
{
    if messages.len() == 0 {
        Seq::empty()
    } else {
        datapack::packed(messages[0]) + all_packed(messages.skip(1))
    }
}

/// What a list of messages is.
pub open spec fn messages_view(v: Seq<Message>) -> Seq<MessageData> {
    v.map_values(|m: Message| m@)
}

/// The bytes behind position `n`.
fn rest_of(v: &Vec<u8>, n: usize) -> (r: Vec<u8>)
    requires
        n <= v@.len(),
    ensures
        r@ == v@.skip(n as int),
{
    let tail = vstd::slice::slice_subrange(v.as_slice(), n, v.len());
    assert(tail@ =~= v@.skip(n as int));
    crate::wire::to_vec(tail)
}

impl Inbox {
    /// An inbox that has read nothing.
    pub fn new() -> (i: Self)
        ensures
            i@ == Seq::<u8>::empty(),
    {
        Inbox { pending: Vec::new() }
    }

    /// Takes in what was read.
    pub fn feed(&mut self, chunk: &[u8])
        ensures
            final(self)@ == old(self)@ + chunk@,
    {
        put_bytes(&mut self.pending, chunk);
    }

    /// The next message; `None` asks for more bytes.
    pub fn next_message(&mut self) -> (r: Option<Message>)
        ensures
            match datapack::unpacked(old(self)@) {
                Some((m, n)) => {
                    &&& r matches Some(x) && x@ == m
                    &&& final(self)@ == old(self)@.skip(n as int)
                },
                None => r is None && final(self)@ == old(self)@,
            },
    {
        match DataPack::new().unpack(self.pending.as_slice()) {
            Ok(Some((message, consumed))) => {
                self.pending = rest_of(&self.pending, consumed);
                Some(message)
            },
            _ => None,
        }
    }

    /// All messages that are there, without waiting for more.
    pub fn recv_available(&mut self) -> (items: Vec<Message>)
        ensures
            (messages_view(items@), final(self)@) == taken(old(self)@),
    {
        let ghost s = self@;
        let mut items: Vec<Message> = Vec::new();
        let mut going: bool = true;
        assert(messages_view(items@) + taken(s).0 =~= taken(s).0);
        while going
            invariant
                !going ==> datapack::unpacked(self@) is None,
                messages_view(items@) + taken(self@).0 =~= taken(s).0,
                taken(self@).1 == taken(s).1,
            decreases self@.len(), (if going { 1int } else { 0int }),
        {
            let ghost before = self@;
            let ghost was = items@;
            match self.next_message() {
                Some(m) => {
                    items.push(m);
                    assert(messages_view(items@) =~= messages_view(was).push(m@));
                },
                None => {
                    going = false;
                },
            }
        }
        assert(messages_view(items@) =~= taken(s).0);
        items
    }
}

/// Messages come off a stream as they were written, in order; what follows them is read as if
/// they had not been there. The length of each must fit its field.
pub proof fn messages_survive(messages: Seq<MessageData>, tail: Seq<u8>)
    requires
        forall|i: int|
            0 <= i < messages.len() ==> (#[trigger] messages[i]).data.len() < 0x1_0000_0000,
    ensures
        taken(all_packed(messages) + tail) == (messages + taken(tail).0, taken(tail).1),
    decreases messages.len(),
{
    if messages.len() == 0 {
        assert(all_packed(messages) + tail =~= tail);
        assert(messages + taken(tail).0 =~= taken(tail).0);
    } else {
        let more = messages.skip(1);
        assert forall|i: int| 0 <= i < more.len() implies (#[trigger] more[i]).data.len()
            < 0x1_0000_0000 by {
            assert(more[i] == messages[i + 1]);
        }
        messages_survive(more, tail);
        let rest = all_packed(more) + tail;
        datapack::unpack_inverts_pack(messages[0], rest);
        let s = all_packed(messages) + tail;
        assert(s =~= datapack::packed(messages[0]) + rest);
        assert(s.skip(datapack::packed(messages[0]).len() as int) =~= rest);
        assert(seq![messages[0]] + (more + taken(tail).0) =~= messages + taken(tail).0);
    }
}

/// How a stream is cut into pieces does not matter: taking what a first piece holds, keeping the
/// rest and going on with the next piece behind it gives what both at once give.
pub proof fn cuts_do_not_matter(a: Seq<u8>, b: Seq<u8>)
    ensures
        taken(a + b) == (taken(a).0 + taken(taken(a).1 + b).0, taken(taken(a).1 + b).1),
    decreases a.len(),
{
    match datapack::unpacked(a) {
        Some((m, n)) => {
            datapack::unpack_ignores_what_follows(a, b);
            let rest = a.skip(n as int);
            cuts_do_not_matter(rest, b);
            assert((a + b).skip(n as int) =~= rest + b);
            let d = taken(rest);
            assert(seq![m] + (d.0 + taken(d.1 + b).0) =~= (seq![m] + d.0) + taken(d.1 + b).0);
        },
        None => {
            assert(taken(a).0 + taken(a + b).0 =~= taken(a + b).0);
        },
    }
}

} // verus!
