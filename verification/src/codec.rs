//! A byte codec that hands on whatever bytes have arrived, unframed.
use vstd::prelude::*;

use bytes::{Bytes, BytesMut};
use std::io::Error as IoError;

verus! {

#[verifier::external_type_specification]
#[verifier::external_body]
pub struct ExBytesMut(bytes::BytesMut);

#[verifier::external_type_specification]
#[verifier::external_body]
pub struct ExBytes(bytes::Bytes);

#[verifier::external_type_specification]
#[verifier::external_body]
pub struct ExIoError(std::io::Error);

/// The bytes that a `BytesMut` holds, first to last.
pub uninterp spec fn bytes_mut_contents(b: BytesMut) -> Seq<u8>;

/// The bytes that a `Bytes` holds, first to last.
pub uninterp spec fn bytes_contents(b: Bytes) -> Seq<u8>;

/// `BytesMut::len`: the number of bytes the buffer holds.
#[verifier::external_body]
fn bytes_mut_len(b: &BytesMut) -> (n: usize)
    ensures
        n == bytes_mut_contents(*b).len(),
{
    b.len()
}

/// `Bytes::len`: the number of bytes held.
#[verifier::external_body]
fn bytes_len(b: &Bytes) -> (n: usize)
    ensures
        n == bytes_contents(*b).len(),
{
    b.len()
}

/// `BytesMut::split_to`: the buffer keeps bytes `[at, len)` and the first
/// `at` bytes are handed back; it panics when `at > len`.
#[verifier::external_body]
fn bytes_mut_split_to(b: &mut BytesMut, at: usize) -> (front: BytesMut)
    requires
        at <= bytes_mut_contents(*old(b)).len(),
    ensures
        bytes_mut_contents(front) == bytes_mut_contents(*old(b)).take(at as int),
        bytes_mut_contents(*final(b)) == bytes_mut_contents(*old(b)).skip(at as int),
{
    b.split_to(at)
}

/// `BytesMut::reserve`: makes room for `additional` more bytes; what the
/// buffer holds is unchanged. It can ask for up to twice the needed
/// capacity, and `Vec` panics on a capacity above `isize::MAX`, so the
/// needed capacity is held under half of that. How much room it makes is
/// not stated.
#[verifier::external_body]
fn bytes_mut_reserve(b: &mut BytesMut, additional: usize)
    requires
        bytes_mut_contents(*old(b)).len() + additional <= isize::MAX / 2,
    ensures
        bytes_mut_contents(*final(b)) == bytes_mut_contents(*old(b)),
{
    b.reserve(additional)
}

/// `BytesMut::extend_from_slice`, given the slice that `data` derefs to:
/// the bytes of `data` are appended, the buffer growing first when it lacks
/// room (it reserves, then puts). The needed capacity is held under half of
/// `isize::MAX`, as for `reserve`.
#[verifier::external_body]
fn bytes_mut_extend_from_bytes(b: &mut BytesMut, data: &Bytes)
    requires
        bytes_mut_contents(*old(b)).len() + bytes_contents(*data).len() <= isize::MAX / 2,
    ensures
        bytes_mut_contents(*final(b)) == bytes_mut_contents(*old(b)) + bytes_contents(*data),
{
    b.extend_from_slice(&data[..])
}

/// What a decode does to buffered bytes: with something buffered, all of it
/// is one item and nothing stays; with nothing buffered there is no item.
pub open spec fn decode_step(buffered: Seq<u8>) -> (Option<Seq<u8>>, Seq<u8>) {
    if buffered.len() > 0 {
        (Some(buffered), Seq::empty())
    } else {
        (None, buffered)
    }
}

/// What an encode does to buffered bytes: `data` goes after them.
pub open spec fn encode_step(buffered: Seq<u8>, data: Seq<u8>) -> Seq<u8> {
    buffered + data
}

/// A codec with no framing: a decode takes every byte that is buffered, an
/// encode appends the bytes it is given.
#[derive(Default)]
pub struct SimpleCodec(());

impl SimpleCodec {
    /// Takes all buffered bytes as one item, leaving the buffer empty; with
    /// nothing buffered there is no item yet and the buffer is left alone.
    /// Never fails.
    pub fn decode(&mut self, buf: &mut BytesMut) -> (r: Result<Option<BytesMut>, IoError>)
        ensures
            r is Ok,
            r matches Ok(item) ==> (match item {
                Some(b) => Some(bytes_mut_contents(b)),
                None => None::<Seq<u8>>,
            }) == decode_step(bytes_mut_contents(*old(buf))).0,
            bytes_mut_contents(*final(buf)) == decode_step(bytes_mut_contents(*old(buf))).1,
    {
        if bytes_mut_len(buf) > 0 {
            let len = bytes_mut_len(buf);
            let item = bytes_mut_split_to(buf, len);
            proof {
                assert(bytes_mut_contents(*old(buf)).take(len as int) =~= bytes_mut_contents(*old(buf)));
                assert(bytes_mut_contents(*old(buf)).skip(len as int) =~= Seq::<u8>::empty());
            }
            Ok(Some(item))
        } else {
            Ok(None)
        }
    }

    /// Appends `data` to `buf` after reserving room for it. Never fails; the
    /// bytes must fit in memory with room to grow the buffer.
    pub fn encode(&mut self, data: Bytes, buf: &mut BytesMut) -> (r: Result<(), IoError>)
        requires
            bytes_mut_contents(*old(buf)).len() + bytes_contents(data).len() <= isize::MAX / 2,
        ensures
            r is Ok,
            bytes_mut_contents(*final(buf)) == encode_step(bytes_mut_contents(*old(buf)), bytes_contents(data)),
    {
        let n = bytes_len(&data);
        bytes_mut_reserve(buf, n);
        bytes_mut_extend_from_bytes(buf, &data);
        Ok(())
    }
}

/// What is encoded is what the next decode hands back: after an encode, a
/// decode yields everything buffered before it followed by the new bytes,
/// unless there is nothing at all, and leaves the buffer empty.
pub proof fn lemma_decode_after_encode(buffered: Seq<u8>, data: Seq<u8>)
    ensures
        decode_step(encode_step(buffered, data)) == (if buffered.len() + data.len() > 0 {
            (Some(buffered + data), Seq::<u8>::empty())
        } else {
            (None, Seq::<u8>::empty())
        }),
{
    assert(buffered.len() + data.len() == 0 ==> buffered + data =~= Seq::<u8>::empty());
}

/// A decode empties the buffer, so a second decode right after it yields
/// nothing.
pub proof fn lemma_decode_drains(buffered: Seq<u8>)
    ensures
        decode_step(decode_step(buffered).1) == (None::<Seq<u8>>, Seq::<u8>::empty()),
{
}

} // verus!
