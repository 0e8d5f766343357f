//! The outside functions that the library calls, and what it relies on of each.

use bytes::{Buf, BufMut, BytesMut};
use hmac::{Hmac, Mac};
use rand::{Rng, RngCore};
use sha2::Sha256;
use vstd::prelude::*;

verus! {

/// `bytes::BytesMut`, a growable byte buffer that is consumed from the front.
#[verifier::external_type_specification]
#[verifier::external_body]
pub struct ExBytesMut(BytesMut);

/// The bytes that a buffer holds.
pub uninterp spec fn buffered(b: BytesMut) -> Seq<u8>;

/// `BytesMut::new`: an empty buffer.
pub assume_specification[ BytesMut::new ]() -> (b: BytesMut)
    ensures
        buffered(b) == Seq::<u8>::empty(),
;

/// `BytesMut::with_capacity`: an empty buffer that can hold at least `capacity` bytes. How much
/// more it can hold depends on the allocator.
pub assume_specification[ BytesMut::with_capacity ](capacity: usize) -> (b: BytesMut)
    requires
        capacity <= isize::MAX,
    ensures
        buffered(b) == Seq::<u8>::empty(),
        forall|n: usize| call_ensures(BytesMut::capacity, (&b,), n) ==> n >= capacity,
;

/// `BytesMut::len`: the number of bytes held.
pub assume_specification[ BytesMut::len ](b: &BytesMut) -> (n: usize)
    ensures
        n == buffered(*b).len(),
;

/// `BytesMut::capacity`: at least as much as is held. The rest depends on the allocator.
pub assume_specification[ BytesMut::capacity ](b: &BytesMut) -> (n: usize)
    ensures
        n >= buffered(*b).len(),
;

/// `BytesMut::clear`: nothing is held afterwards.
pub assume_specification[ BytesMut::clear ](b: &mut BytesMut)
    ensures
        buffered(*final(b)) == Seq::<u8>::empty(),
;

/// `BytesMut::reserve`: what is held stays, and the buffer can hold at least `additional` bytes
/// behind it. How much more it can hold depends on the allocator.
pub assume_specification[ BytesMut::reserve ](b: &mut BytesMut, additional: usize)
    requires
        buffered(*old(b)).len() + additional <= isize::MAX,
    ensures
        buffered(*final(b)) == buffered(*old(b)),
        forall|n: usize|
            call_ensures(BytesMut::capacity, (&*final(b),), n) ==> n >= buffered(*old(b)).len()
                + additional,
;

/// `BytesMut::extend_from_slice`: the slice is appended.
pub assume_specification[ BytesMut::extend_from_slice ](b: &mut BytesMut, extend: &[u8])
    requires
        buffered(*old(b)).len() + extend@.len() <= isize::MAX,
    ensures
        buffered(*final(b)) == buffered(*old(b)) + extend@,
;

/// `BytesMut::as_ref`: the bytes held, as a slice.
#[verifier::external_body]
pub(crate) fn bytes_slice(b: &BytesMut) -> (s: &[u8])
    ensures
        s@ == buffered(*b),
{
    b.as_ref()
}

/// `Buf::advance` on a `BytesMut`: the first `n` bytes are dropped.
#[verifier::external_body]
pub(crate) fn bytes_advance(b: &mut BytesMut, n: usize)
    requires
        n <= buffered(*old(b)).len(),
    ensures
        buffered(*final(b)) == buffered(*old(b)).skip(n as int),
{
    b.advance(n);
}

/// `BufMut::put_u32_le` on a `BytesMut`: four little-endian bytes are appended.
#[verifier::external_body]
pub(crate) fn bytes_put_u32_le(b: &mut BytesMut, x: u32)
    requires
        buffered(*old(b)).len() + 4 <= isize::MAX,
    ensures
        buffered(*final(b)) == buffered(*old(b)) + crate::wire::le_bytes(x as nat, 4),
{
    b.put_u32_le(x);
}

/// `BufMut::put_u8` on a `BytesMut`: one byte is appended.
#[verifier::external_body]
pub(crate) fn bytes_put_u8(b: &mut BytesMut, x: u8)
    requires
        buffered(*old(b)).len() + 1 <= isize::MAX,
    ensures
        buffered(*final(b)) == buffered(*old(b)).push(x),
{
    b.put_u8(x);
}

/// `BufMut::put_slice` on a `BytesMut`: the slice is appended.
#[verifier::external_body]
pub(crate) fn bytes_put_slice(b: &mut BytesMut, s: &[u8])
    requires
        buffered(*old(b)).len() + s@.len() <= isize::MAX,
    ensures
        buffered(*final(b)) == buffered(*old(b)) + s@,
{
    b.put_slice(s);
}

/// The HMAC-SHA256 of `data` under `key`.
pub uninterp spec fn hmac_sha256_of(key: Seq<u8>, data: Seq<u8>) -> Seq<u8>;

/// `hmac::Hmac<sha2::Sha256>`, keyed with `new_from_slice`, which takes a key of any length,
/// fed `data` with `update` and read with `finalize`: a function of the key and the data.
#[verifier::external_body]
pub(crate) fn hmac_sha256(key: &[u8], data: &[u8]) -> (mac: [u8; 32])
    ensures
        mac@ == hmac_sha256_of(key@, data@),
{
    let mut mac = Hmac::<Sha256>::new_from_slice(key).expect("a key of any length");
    mac.update(data);
    mac.finalize().into_bytes().into()
}

/// `RngCore::fill_bytes` of `rand::thread_rng`: eight bytes of which nothing is known.
#[verifier::external_body]
pub(crate) fn random_bytes() -> (bytes: [u8; 8])
{
    let mut bytes = [0u8; 8];
    rand::thread_rng().fill_bytes(&mut bytes);
    bytes
}

/// `Rng::gen_range` of `rand::thread_rng` on an inclusive range: some number of the range.
#[verifier::external_body]
pub(crate) fn random_in_range(low: i64, high: i64) -> (x: i64)
    requires
        low <= high,
    ensures
        low <= x <= high,
{
    rand::thread_rng().gen_range(low..=high)
}

} // verus!
