//! The truncated HMAC at the end of a datagram.

use vstd::prelude::*;

use crate::outside::{self, hmac_sha256};
use crate::wire::{self, put_bytes, put_u64, same_bytes};

verus! {

/// The bytes of HMAC that a datagram carries.
pub const HMAC_LEN: usize = 4;

/// The first four bytes of an HMAC-SHA256.
pub open spec fn four_of(tag: Seq<u8>) -> Seq<u8> {
    Seq::new(4, |i: int| tag[i])
}

/// The truncated HMAC of `data` under `key`.
pub open spec fn hmac4_of(key: Seq<u8>, data: Seq<u8>) -> Seq<u8> {
    four_of(outside::hmac_sha256_of(key, data))
}

/// The key that a session secret stands for.
pub open spec fn key_of(secret: u64) -> Seq<u8> {
    wire::le_bytes(secret as nat, 8)
}

/// A datagram with its truncated HMAC behind it.
pub open spec fn sealed(secret: u64, data: Seq<u8>) -> Seq<u8> {
    data + hmac4_of(key_of(secret), data)
}

/// The data in a sealed datagram; `None` if the last four bytes are not those of `mac`.
pub open spec fn opened(buf: Seq<u8>, mac: Seq<u8>) -> Option<Seq<u8>> {
    if buf.skip(buf.len() - HMAC_LEN) == mac {
        Some(buf.take(buf.len() - HMAC_LEN))
    } else {
        None
    }
}

/// The first four bytes of an HMAC-SHA256.
pub fn first_four(tag: &[u8; 32]) -> (mac: [u8; 4])
    ensures
        mac@ == four_of(tag@),
{
    let mac: [u8; 4] = [tag[0], tag[1], tag[2], tag[3]];
    assert(mac@ =~= four_of(tag@));
    mac
}

/// The truncated HMAC of `data` under `key`.
pub fn hmac4(key: &[u8], data: &[u8]) -> (mac: [u8; HMAC_LEN])
    ensures
        mac@ == hmac4_of(key@, data@),
{
    first_four(&hmac_sha256(key, data))
}

/// The bytes of a session secret.
pub fn secret_key(secret: u64) -> (key: Vec<u8>)
    ensures
        key@ == key_of(secret),
{
    let mut key: Vec<u8> = Vec::new();
    put_u64(&mut key, secret);
    assert(key@ =~= key_of(secret));
    key
}

/// The data in a sealed datagram, if its last four bytes are those of `mac`.
pub fn open_with<'a>(buf: &'a [u8], mac: &[u8; 4]) -> (r: Option<&'a [u8]>)
    requires
        buf@.len() >= HMAC_LEN,
    ensures
        match r {
            Some(data) => opened(buf@, mac@) == Some(data@),
            None => opened(buf@, mac@) is None,
        },
{
    let at: usize = buf.len() - HMAC_LEN;
    let data = vstd::slice::slice_subrange(buf, 0, at);
    let tail = vstd::slice::slice_subrange(buf, at, buf.len());
    assert(tail@ =~= buf@.skip(at as int));
    assert(data@ =~= buf@.take(at as int));
    if same_bytes(tail, mac) {
        Some(data)
    } else {
        None
    }
}

/// Puts the truncated HMAC of a datagram behind it.
pub fn seal(secret: u64, bytes: &mut Vec<u8>)
    ensures
        final(bytes)@ == sealed(secret, old(bytes)@),
{
    let key = secret_key(secret);
    let mac = hmac4(key.as_slice(), bytes.as_slice());
    put_bytes(bytes, &mac);
}

/// What was sealed opens to what it was, under the same key.
pub proof fn open_inverts_seal(secret: u64, data: Seq<u8>)
    ensures
        opened(sealed(secret, data), hmac4_of(key_of(secret), data)) == Some(data),
        sealed(secret, data).len() == data.len() + HMAC_LEN,
{
    let s = sealed(secret, data);
    assert(s.skip(s.len() - HMAC_LEN) =~= hmac4_of(key_of(secret), data));
    assert(s.take(s.len() - HMAC_LEN) =~= data);
}

} // verus!
