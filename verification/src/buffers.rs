//! What this library takes on trust of the byte buffers of the `bytes` crate.
//!
//! Verus does not look into a `BytesMut` or a `Bytes`. Their contents have a
//! name here, and each method that the library calls is given the contract
//! that the crate's source shows for it. None of these contracts is proved.

use vstd::prelude::*;

verus! {

/// `bytes::BytesMut`, a buffer of bytes that can grow at its end and be
/// split at its front.
#[verifier::external_type_specification]
#[verifier::external_body]
pub struct ExBytesMut(bytes::BytesMut);

/// `bytes::Bytes`, a buffer of bytes that stays as it is.
#[verifier::external_type_specification]
#[verifier::external_body]
pub struct ExBytes(bytes::Bytes);

/// The bytes that a growable buffer holds, first to last.
pub uninterp spec fn buffered(buffer: bytes::BytesMut) -> Seq<u8>;

/// The bytes of a buffer that can no longer change.
pub uninterp spec fn frozen(bytes: bytes::Bytes) -> Seq<u8>;

/// `BytesMut::with_capacity` makes a buffer that holds no byte, whatever
/// room it was asked to set aside. It panics where it is asked for more
/// room than `isize::MAX` bytes.
pub assume_specification[ bytes::BytesMut::with_capacity ](capacity: usize) -> (buffer:
    bytes::BytesMut)
    requires
        capacity <= isize::MAX,
    ensures
        buffered(buffer).len() == 0,
;

/// `BytesMut::len` counts the bytes held.
pub assume_specification[ bytes::BytesMut::len ](buffer: &bytes::BytesMut) -> (len: usize)
    ensures
        len == buffered(*buffer).len(),
;

/// `BytesMut::as_ref` lends the bytes held, as a slice.
pub assume_specification[ <bytes::BytesMut as core::convert::AsRef<[u8]>>::as_ref ](
    buffer: &bytes::BytesMut,
) -> (slice: &[u8])
    ensures
        slice@ == buffered(*buffer),
;

/// `BytesMut::extend_from_slice` appends the bytes of `extend`. It panics
/// where the new length is more than the `isize::MAX` bytes that one
/// allocation can have.
pub assume_specification[ bytes::BytesMut::extend_from_slice ](
    buffer: &mut bytes::BytesMut,
    extend: &[u8],
)
    requires
        buffered(*old(buffer)).len() + extend@.len() <= isize::MAX,
    ensures
        buffered(*final(buffer)) == buffered(*old(buffer)) + extend@,
;

/// `BytesMut::split_to` takes the first `at` bytes out as a buffer of their
/// own and leaves the rest. It panics where fewer than `at` bytes are held.
pub assume_specification[ bytes::BytesMut::split_to ](
    buffer: &mut bytes::BytesMut,
    at: usize,
) -> (head: bytes::BytesMut)
    requires
        at <= buffered(*old(buffer)).len(),
    ensures
        buffered(head) == buffered(*old(buffer)).take(at as int),
        buffered(*final(buffer)) == buffered(*old(buffer)).skip(at as int),
;

/// `BytesMut::clear` leaves the buffer without a byte.
pub assume_specification[ bytes::BytesMut::clear ](buffer: &mut bytes::BytesMut)
    ensures
        buffered(*final(buffer)).len() == 0,
;

/// `BytesMut::freeze` keeps the bytes as they are.
pub assume_specification[ bytes::BytesMut::freeze ](buffer: bytes::BytesMut) -> (bytes:
    bytes::Bytes)
    ensures
        frozen(bytes) == buffered(buffer),
;

} // verus!
