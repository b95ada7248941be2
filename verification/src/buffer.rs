//! The read buffer: a `bytes::BytesMut`, seen by the verifier as the sequence
//! of bytes it holds.
//!
//! Nothing in this file is proved. Each function states what the `bytes`
//! crate documents of the method it calls.

use bytes::{Buf, BytesMut};
use vstd::prelude::*;

verus! {

#[verifier::external_type_specification]
#[verifier::external_body]
pub struct ExBytesMut(bytes::BytesMut);

/// The bytes that a buffer holds, oldest first.
pub uninterp spec fn buffered(buffer: BytesMut) -> Seq<u8>;

/// `BytesMut::with_capacity`: a buffer that holds nothing, with room for
/// `capacity` bytes before it has to grow. It panics where `capacity` is
/// more than one allocation can hold, which the precondition leaves out.
#[verifier::external_body]
pub(crate) fn buffer_with_capacity(capacity: usize) -> (buffer: BytesMut)
    requires
        capacity <= isize::MAX,
    ensures
        buffered(buffer) == Seq::<u8>::empty(),
{
    BytesMut::with_capacity(capacity)
}

/// `BytesMut::len`: the number of bytes held.
#[verifier::external_body]
pub(crate) fn buffer_len(buffer: &BytesMut) -> (len: usize)
    ensures
        len == buffered(*buffer).len(),
{
    buffer.len()
}

/// `BytesMut::is_empty`: whether no byte is held.
#[verifier::external_body]
pub(crate) fn buffer_is_empty(buffer: &BytesMut) -> (empty: bool)
    ensures
        empty == (buffered(*buffer).len() == 0),
{
    buffer.is_empty()
}

/// The dereference of a `BytesMut` to a slice: the bytes held, in place.
#[verifier::external_body]
pub(crate) fn buffer_bytes(buffer: &BytesMut) -> (bytes: &[u8])
    ensures
        bytes@ == buffered(*buffer),
{
    &buffer[..]
}

/// `BytesMut::extend_from_slice`: appends `bytes` behind what is held,
/// growing the buffer first where it lacks the room. It panics where the
/// capacity it asks for overflows; the precondition keeps the new length
/// within what one allocation can hold. How much more than its length a
/// buffer asks for depends on what it has consumed before, which is not
/// stated here: as for `Vec::push` in vstd, running out of address space
/// is outside this contract.
#[verifier::external_body]
pub(crate) fn buffer_extend(buffer: &mut BytesMut, bytes: &[u8])
    requires
        buffered(*old(buffer)).len() + bytes@.len() <= isize::MAX,
    ensures
        buffered(*final(buffer)) == buffered(*old(buffer)) + bytes@,
{
    buffer.extend_from_slice(bytes)
}

/// `Buf::advance` on a `BytesMut`: drops the first `count` bytes and keeps
/// the rest. It panics where `count` is more than the bytes held, which the
/// precondition leaves out.
#[verifier::external_body]
pub(crate) fn buffer_advance(buffer: &mut BytesMut, count: usize)
    requires
        count <= buffered(*old(buffer)).len(),
    ensures
        buffered(*final(buffer)) == buffered(*old(buffer)).skip(count as int),
{
    buffer.advance(count)
}

} // verus!
