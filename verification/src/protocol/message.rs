//! A message: its id and its data. Its length is that of the data.

use vstd::prelude::*;

verus! {

/// A message.
#[derive(Debug, Clone)]
pub struct Message {
    id: u32,
    data: Vec<u8>,
}

/// What a message is: its id and its data.
#[verifier::ext_equal]
pub struct MessageData {
    pub id: u32,
    pub data: Seq<u8>,
}

impl View for Message {
    type V = MessageData;

    closed spec fn view(&self) -> MessageData {
        MessageData { id: self.id, data: self.data@ }
    }
}

impl Message {
    /// A message.
    pub fn new(id: u32, data: Vec<u8>) -> (m: Self)
        ensures
            m@ == (MessageData { id, data: data@ }),
    {
        Self { id, data }
    }

    /// The message id.
    pub fn id(&self) -> (id: u32)
        ensures
            id == self@.id,
    {
        self.id
    }

    /// The number of data bytes, cut to 32 bits.
    pub fn len(&self) -> (n: u32)
        ensures
            n == self@.data.len() % 0x1_0000_0000,
    {
        let n: u64 = self.data.len() as u64;
        assert(n as u32 == n % 0x1_0000_0000) by (bit_vector);
        n as u32
    }

    /// The data.
    pub fn data(&self) -> (d: &[u8])
        ensures
            d@ == self@.data,
    {
        self.data.as_slice()
    }
}

} // verus!
