//! The read buffer that the services fill from their sockets: a
//! `bytes::BytesMut`, whose contents are named by `buffered`.

use bytes::Buf;
use bytes::BytesMut;
use vstd::prelude::*;

verus! {

#[verifier::external_type_specification]
#[verifier::external_body]
pub struct ExBytesMut(bytes::BytesMut);

/// The bytes that a `BytesMut` holds, front first.
pub uninterp spec fn buffered(buf: BytesMut) -> Seq<u8>;

/// `BytesMut::len`: the number of bytes the buffer holds.
#[verifier::external_body]
pub(crate) fn buffer_len(buf: &BytesMut) -> (n: usize)
    ensures
        n == buffered(*buf).len(),
{
    buf.len()
}

/// `<BytesMut as Buf>::remaining`: for a `BytesMut`, the number of bytes it
/// holds.
#[verifier::external_body]
pub(crate) fn buffer_remaining(buf: &BytesMut) -> (n: usize)
    ensures
        n == buffered(*buf).len(),
{
    buf.remaining()
}

/// `<BytesMut as Buf>::copy_to_bytes`: removes the first `len` bytes from the
/// buffer and hands them out (here copied into a `Vec`).  It panics when the
/// buffer holds fewer than `len` bytes, which `requires` leaves out.
#[verifier::external_body]
pub(crate) fn buffer_take_front(buf: &mut BytesMut, len: usize) -> (front: Vec<u8>)
    requires
        len <= buffered(*old(buf)).len(),
    ensures
        front@ == buffered(*old(buf)).take(len as int),
        buffered(*final(buf)) == buffered(*old(buf)).skip(len as int),
{
    buf.copy_to_bytes(len).to_vec()
}

/// `<BytesMut as Buf>::get_u8`: removes the first byte from the buffer and
/// returns it.  It panics on an empty buffer, which `requires` leaves out.
#[verifier::external_body]
pub(crate) fn buffer_pop_front(buf: &mut BytesMut) -> (byte: u8)
    requires
        buffered(*old(buf)).len() > 0,
    ensures
        byte == buffered(*old(buf))[0],
        buffered(*final(buf)) == buffered(*old(buf)).drop_first(),
{
    buf.get_u8()
}

} // verus!
