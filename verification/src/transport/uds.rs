//! The stream to the logic server, cut into frames.

use bytes::BytesMut;
use vstd::prelude::*;

use crate::error::{Error, ProtocolError, Result};
use crate::outside;
use crate::protocol::frame::{self, Frame, Front, FRAME_HEADER_LEN};
use crate::protocol::types::MAX_FRAME_BODY;

verus! {

/// Collects what was read, and gives out whole frames.
#[derive(Debug)]
pub struct FrameReader {
    read_buf: BytesMut,
}

impl View for FrameReader {
    type V = Seq<u8>;

    closed spec fn view(&self) -> Seq<u8> {
        outside::buffered(self.read_buf)
    }
}

impl FrameReader {
    /// A reader that has read nothing.
    pub fn new() -> (r: Self)
        ensures
            r@ == Seq::<u8>::empty(),
    {
        FrameReader { read_buf: BytesMut::with_capacity(1024) }
    }

    /// The next frame; `Ok(None)` asks for more bytes.
    pub fn next_frame(&mut self) -> (r: Result<Option<Frame>>)
        ensures
            match frame::front(old(self)@) {
                Front::Partial => r == Ok::<Option<Frame>, Error>(None) && final(self)@
                    == old(self)@,
                Front::TooLong { len } => r == Err::<Option<Frame>, Error>(
                    Error::Protocol(ProtocolError::FrameTooLong { len: len as usize }),
                ) && final(self)@ == old(self)@,
                Front::BadType { ty } => r == Err::<Option<Frame>, Error>(
                    Error::Protocol(ProtocolError::BadFrameType { ty }),
                ) && final(self)@ == old(self)@,
                Front::Whole { frame, rest } => r matches Ok(Some(f)) && f@ == frame
                    && final(self)@ == rest,
            },
    {
        match frame::try_decode(&mut self.read_buf) {
            Err(e) => Err(e),
            Ok(Some(f)) => Ok(Some(f)),
            Ok(None) => {
                if self.read_buf.len() > MAX_FRAME_BODY as usize + FRAME_HEADER_LEN {
                    return Err(Error::Protocol(ProtocolError::StreamOverflow));
                }
                Ok(None)
            },
        }
    }

    /// Takes in what was read.
    pub fn feed(&mut self, chunk: &[u8])
        requires
            old(self)@.len() + chunk@.len() <= isize::MAX,
        ensures
            final(self)@ == old(self)@ + chunk@,
    {
        self.read_buf.extend_from_slice(chunk);
    }
}

/// The bytes of a frame; a body above the limit is refused.
pub fn frame_bytes(f: &Frame) -> (r: Result<BytesMut>)
    requires
        f@.body.len() + FRAME_HEADER_LEN <= isize::MAX,
    ensures
        match r {
            Ok(b) => f@.body.len() <= MAX_FRAME_BODY && outside::buffered(b) == frame::link_bytes(
                f@,
            ),
            Err(e) => f@.body.len() > MAX_FRAME_BODY && e == Error::Protocol(
                ProtocolError::FrameTooLong { len: f@.body.len() as usize },
            ),
        },
{
    let mut out = BytesMut::new();
    let body: &[u8] = f.body.as_slice();
    match frame::encode(f.ty, body, &mut out) {
        Ok(()) => {
            assert(outside::buffered(out) =~= frame::link_bytes(f@));
            Ok(out)
        },
        Err(e) => Err(e),
    }
}

} // verus!
