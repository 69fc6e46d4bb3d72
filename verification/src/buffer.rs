//! The byte buffer that messages and frames are kept in: `bytes::BytesMut`.
//!
//! `BytesMut` is not verified here. This file declares the type, names what a
//! buffer holds, and says of each operation that the library uses what it does
//! to those contents. The room that a buffer has allocated is never spoken of, nor
//! is what happens when the machine runs out of memory.
use bytes::{Buf, BufMut, BytesMut};
use vstd::prelude::*;

verus! {

/// The longest contents that the library lets a buffer grow to.
///
/// A `BytesMut` that is asked for room grows the block that it lies in, together
/// with the bytes that were consumed in front of its contents, and panics where the
/// block would take more than `isize::MAX` bytes. It moves its contents instead
/// where at least as many bytes were consumed as it holds and the block suffices.
/// So the block stays below four times the length asked for (or some kilobytes,
/// where that is more), and up to this length no request for room panics.
pub const MAX_BUFFER_LEN: usize = usize::MAX / 8;

/// The outside type `bytes::BytesMut`.
#[verifier::external_type_specification]
#[verifier::external_body]
pub struct ExBytesMut(bytes::BytesMut);

/// The bytes that a buffer holds, first to last.
pub uninterp spec fn contents(buffer: BytesMut) -> Seq<u8>;

/// `BytesMut::with_capacity` gives an empty buffer. It panics where one block
/// cannot be that long.
pub assume_specification[ BytesMut::with_capacity ](capacity: usize) -> (buffer: BytesMut)
    requires
        capacity <= isize::MAX,
    ensures
        contents(buffer) == Seq::<u8>::empty(),
;

/// `BytesMut::len` is the number of bytes held.
pub assume_specification[ BytesMut::len ](buffer: &BytesMut) -> (len: usize)
    ensures
        len == contents(*buffer).len(),
;

/// `BytesMut::is_empty` tells whether no byte is held.
pub assume_specification[ BytesMut::is_empty ](buffer: &BytesMut) -> (empty: bool)
    ensures
        empty == (contents(*buffer).len() == 0),
;

/// `BytesMut::reserve` makes room for more bytes and leaves the contents as they
/// are. It panics where the room cannot be had in one block.
pub assume_specification[ BytesMut::reserve ](buffer: &mut BytesMut, additional: usize)
    requires
        contents(*old(buffer)).len() + additional <= MAX_BUFFER_LEN,
    ensures
        contents(*final(buffer)) == contents(*old(buffer)),
;

/// `BytesMut::split_to` takes the first `at` bytes out of the buffer and hands
/// them back. It panics where fewer are held.
pub assume_specification[ BytesMut::split_to ](buffer: &mut BytesMut, at: usize) -> (front: BytesMut)
    requires
        at <= contents(*old(buffer)).len(),
    ensures
        contents(front) == contents(*old(buffer)).take(at as int),
        contents(*final(buffer)) == contents(*old(buffer)).skip(at as int),
;

/// `BytesMut::clear` drops all bytes held.
pub assume_specification[ BytesMut::clear ](buffer: &mut BytesMut)
    ensures
        contents(*final(buffer)) == Seq::<u8>::empty(),
;

/// `BytesMut::as_ref` lends the bytes held as a slice.
#[verifier::external_body]
pub(crate) fn as_slice(buffer: &BytesMut) -> (bytes: &[u8])
    ensures
        bytes@ == contents(*buffer),
{
    buffer.as_ref()
}

/// `Buf::get_u8` takes the first byte out of the buffer. It panics where none is
/// held.
#[verifier::external_body]
pub(crate) fn get_u8(buffer: &mut BytesMut) -> (byte: u8)
    requires
        contents(*old(buffer)).len() > 0,
    ensures
        byte == contents(*old(buffer))[0],
        contents(*final(buffer)) == contents(*old(buffer)).skip(1),
{
    buffer.get_u8()
}

/// `BufMut::put_u8` appends one byte. It makes room as `reserve` does.
#[verifier::external_body]
pub(crate) fn put_u8(buffer: &mut BytesMut, byte: u8)
    requires
        contents(*old(buffer)).len() < MAX_BUFFER_LEN,
    ensures
        contents(*final(buffer)) == contents(*old(buffer)).push(byte),
{
    buffer.put_u8(byte)
}

/// `BufMut::put_slice` appends the bytes of a slice. It makes room as `reserve`
/// does.
#[verifier::external_body]
pub(crate) fn put_slice(buffer: &mut BytesMut, bytes: &[u8])
    requires
        contents(*old(buffer)).len() + bytes@.len() <= MAX_BUFFER_LEN,
    ensures
        contents(*final(buffer)) == contents(*old(buffer)) + bytes@,
{
    buffer.put_slice(bytes)
}

/// `BufMut::put` appends the bytes of another buffer, which it consumes. It makes
/// room as `reserve` does, or takes over the other's block.
#[verifier::external_body]
pub(crate) fn put(buffer: &mut BytesMut, bytes: BytesMut)
    requires
        contents(*old(buffer)).len() + contents(bytes).len() <= MAX_BUFFER_LEN,
    ensures
        contents(*final(buffer)) == contents(*old(buffer)) + contents(bytes),
{
    buffer.put(bytes)
}

} // verus!
