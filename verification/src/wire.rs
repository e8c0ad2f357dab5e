//! Big-endian integers on the wire, and the byte-buffer operations of the
//! `bytes` crate that the codecs are built from.

use bytes::{Buf, BufMut, Bytes};
use vstd::prelude::*;

verus! {

/// The two bytes of `n`, most significant first.
pub open spec fn be16(n: u16) -> Seq<u8> {
    seq![(n / 256) as u8, (n % 256) as u8]
}

/// The number that two bytes spell, most significant first.
pub open spec fn be16_value(hi: u8, lo: u8) -> u16 {
    (hi * 256 + lo) as u16
}

/// The four bytes of `n`, most significant first.
pub open spec fn be32(n: u32) -> Seq<u8> {
    seq![
        (n / 0x100_0000) as u8,
        (n / 0x1_0000 % 256) as u8,
        (n / 0x100 % 256) as u8,
        (n % 256) as u8,
    ]
}

/// Reading back the two bytes of `n` gives `n`.
pub proof fn lemma_be16_round_trip(n: u16)
    ensures
        be16(n).len() == 2,
        be16_value(be16(n)[0], be16(n)[1]) == n,
{
}

/// `bytes::Bytes`, a shared and immutable run of bytes. Nothing is known of
/// what is inside but through `bytes_view`.
#[verifier::external_type_specification]
#[verifier::external_body]
pub struct ExBytes(bytes::Bytes);

/// The bytes that a `Bytes` value holds, in order.
pub uninterp spec fn bytes_view(b: Bytes) -> Seq<u8>;

/// `BufMut::put_u16` on a vector: the two big-endian bytes of `n` are appended
/// and nothing else changes.
#[verifier::external_body]
pub(crate) fn put_u16(buf: &mut Vec<u8>, n: u16)
    ensures
        final(buf)@ == old(buf)@ + be16(n),
{
    buf.put_u16(n);
}

/// `BufMut::put_u32` on a vector: the four big-endian bytes of `n` are appended
/// and nothing else changes.
#[verifier::external_body]
pub(crate) fn put_u32(buf: &mut Vec<u8>, n: u32)
    ensures
        final(buf)@ == old(buf)@ + be32(n),
{
    buf.put_u32(n);
}

/// `BufMut::put` on a vector, fed from a slice: every byte of `src` is
/// appended, in order.
#[verifier::external_body]
pub(crate) fn put(dst: &mut Vec<u8>, src: &[u8])
    ensures
        final(dst)@ == old(dst)@ + src@,
{
    dst.put(src);
}

/// `Buf::get_u16` on a slice: the big-endian number in its first two bytes.
/// The call panics on a shorter slice, which the precondition leaves out.
#[verifier::external_body]
pub(crate) fn get_u16(src: &[u8]) -> (n: u16)
    requires
        src@.len() >= 2,
    ensures
        n == be16_value(src@[0], src@[1]),
{
    let mut cursor = src;
    cursor.get_u16()
}

/// `Bytes::from` on a vector: the same bytes, frozen.
#[verifier::external_body]
pub(crate) fn bytes_from_vec(v: Vec<u8>) -> (b: Bytes)
    ensures
        bytes_view(b) == v@,
{
    Bytes::from(v)
}

/// `Vec::extend` fed by the by-value iterator of a `Bytes`: every byte that it
/// holds is appended, in order.
#[verifier::external_body]
pub(crate) fn extend_from_bytes(buf: &mut Vec<u8>, b: Bytes)
    ensures
        final(buf)@ == old(buf)@ + bytes_view(b),
{
    buf.extend(b);
}

} // verus!
