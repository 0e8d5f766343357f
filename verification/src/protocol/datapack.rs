//! Packing messages onto a byte stream, which has no message boundaries of its own.
//!
//! ```text
//! len   u32   data bytes
//! id    u32   message id
//! data  [u8]
//! ```

use vstd::prelude::*;

use crate::error::{Error, Result};
use crate::protocol::message::{Message, MessageData};
use crate::wire::{self, get_u32, put_bytes, put_u32};

verus! {

/// The length of a packet header.
pub const HEADER_SIZE: usize = 8;

/// Packs and unpacks messages.
pub struct DataPack;

/// The bytes of a message; the length is cut to 32 bits.
pub open spec fn packed(m: MessageData) -> Seq<u8> {
    wire::le_bytes(m.data.len() % 0x1_0000_0000, 4) + wire::le_bytes(m.id as nat, 4) + m.data
}

/// The message at the front of a stream, and how many bytes it takes; `None` if it is not whole.
pub open spec fn unpacked(s: Seq<u8>) -> Option<(MessageData, nat)> {
    let len = wire::le_value(s.subrange(0, 4));
    if s.len() < 8 || s.len() < 8 + len {
        None
    } else {
        Some(
            (
                MessageData {
                    id: wire::le_value(s.subrange(4, 8)) as u32,
                    data: s.subrange(8, 8 + len as int),
                },
                8 + len,
            ),
        )
    }
}

impl DataPack {
    /// A packer.
    pub fn new() -> (p: Self)
        ensures
            p == DataPack,
    {
        Self
    }

    /// The bytes of a message.
    pub fn pack(&self, message: &Message) -> (out: Vec<u8>)
        ensures
            out@ == packed(message@),
    {
        let mut buffer: Vec<u8> = Vec::new();
        put_u32(&mut buffer, message.len());
        put_u32(&mut buffer, message.id());
        put_bytes(&mut buffer, message.data());
        assert(buffer@ =~= packed(message@));
        buffer
    }

    /// The message at the front of `data` and the bytes it takes; `Ok(None)` asks for more.
    pub fn unpack(&self, data: &[u8]) -> (r: Result<Option<(Message, usize)>>)
        ensures
            match unpacked(data@) {
                None => r == Ok::<Option<(Message, usize)>, Error>(None),
                Some(v) => r matches Ok(Some(x)) && x.0@ == v.0 && x.1 == v.1,
            },
    {
        if data.len() < HEADER_SIZE {
            return Ok(None);
        }
        let len: u32 = get_u32(data, 0);
        let id: u32 = get_u32(data, 4);
        if data.len() - HEADER_SIZE < len as usize {
            return Ok(None);
        }
        let total: usize = HEADER_SIZE + len as usize;
        let payload = wire::to_vec(vstd::slice::slice_subrange(data, HEADER_SIZE, total));
        Ok(Some((Message::new(id, payload), total)))
    }
}

/// A message that was packed is the message that is unpacked, whatever follows it, and it takes
/// exactly its own bytes. The length must fit its field.
pub proof fn unpack_inverts_pack(m: MessageData, rest: Seq<u8>)
    requires
        m.data.len() < 0x1_0000_0000,
    ensures
        unpacked(packed(m) + rest) == Some((m, packed(m).len())),
{
    let s = packed(m) + rest;
    wire::pow256_values();
    wire::le_bytes_len(m.data.len(), 4);
    wire::le_bytes_len(m.id as nat, 4);
    wire::le_value_of_le_bytes(m.data.len(), 4);
    wire::le_value_of_le_bytes(m.id as nat, 4);
    assert(s.subrange(0, 4) =~= wire::le_bytes(m.data.len(), 4));
    assert(s.subrange(4, 8) =~= wire::le_bytes(m.id as nat, 4));
    assert(s.subrange(8, 8 + m.data.len() as int) =~= m.data);
}

/// A message that is whole stays what it is when more bytes arrive.
pub proof fn unpack_ignores_what_follows(s: Seq<u8>, more: Seq<u8>)
    requires
        unpacked(s) is Some,
    ensures
        unpacked(s + more) == unpacked(s),
{
    let len = wire::le_value(s.subrange(0, 4));
    let t = s + more;
    assert(t.subrange(0, 4) =~= s.subrange(0, 4));
    assert(t.subrange(4, 8) =~= s.subrange(4, 8));
    assert(t.subrange(8, 8 + len as int) =~= s.subrange(8, 8 + len as int));
}

} // verus!
