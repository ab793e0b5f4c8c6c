//! The byte buffers of the `bytes` crate, as the library sees them: a
//! `BytesMut` or a `Bytes` is a sequence of bytes.

use tokio_util::bytes::{Bytes, BytesMut};
use vstd::prelude::*;

verus! {

/// `BytesMut`, the growable byte buffer of the `bytes` crate.
#[verifier::external_type_specification]
#[verifier::external_body]
pub struct ExBytesMut(tokio_util::bytes::BytesMut);

/// `Bytes`, the immutable byte buffer of the `bytes` crate.
#[verifier::external_type_specification]
#[verifier::external_body]
pub struct ExBytes(tokio_util::bytes::Bytes);

/// The bytes that a `BytesMut` holds, first to last.
pub uninterp spec fn buffer_bytes(buffer: BytesMut) -> Seq<u8>;

/// The bytes that a `Bytes` holds, first to last.
pub uninterp spec fn frozen_bytes(buffer: Bytes) -> Seq<u8>;

/// `BytesMut::new` makes a buffer without bytes.
pub assume_specification[ BytesMut::new ]() -> (buffer: BytesMut)
    ensures
        buffer_bytes(buffer).len() == 0,
;

/// `<BytesMut as Deref>::deref` shows the bytes of the buffer as a slice.
pub assume_specification[ <BytesMut as core::ops::Deref>::deref ](buffer: &BytesMut) -> (bytes:
    &[u8])
    ensures
        bytes@ == buffer_bytes(*buffer),
;

/// `BytesMut::len` counts the bytes of the buffer.
pub assume_specification[ BytesMut::len ](buffer: &BytesMut) -> (len: usize)
    ensures
        len == buffer_bytes(*buffer).len(),
;

/// `BytesMut::is_empty` tells whether the buffer has no bytes.
pub assume_specification[ BytesMut::is_empty ](buffer: &BytesMut) -> (empty: bool)
    ensures
        empty == (buffer_bytes(*buffer).len() == 0),
;

/// `BytesMut::split_to` takes the first `at` bytes out of the buffer and leaves
/// the others in it. It panics where the buffer holds fewer.
pub assume_specification[ BytesMut::split_to ](buffer: &mut BytesMut, at: usize) -> (front:
    BytesMut)
    requires
        at <= buffer_bytes(*old(buffer)).len(),
    ensures
        buffer_bytes(front) == buffer_bytes(*old(buffer)).take(at as int),
        buffer_bytes(*final(buffer)) == buffer_bytes(*old(buffer)).skip(at as int),
;

/// `BytesMut::split` takes every byte out of the buffer.
pub assume_specification[ BytesMut::split ](buffer: &mut BytesMut) -> (front: BytesMut)
    ensures
        buffer_bytes(front) == buffer_bytes(*old(buffer)),
        buffer_bytes(*final(buffer)).len() == 0,
;

/// `BytesMut::reserve` makes room for more bytes and keeps those that are
/// there. It panics where the room asked for overflows what an allocation can
/// hold. Bytes that were split off the front can count toward that room, and the
/// allocation can be doubled to make it: how large the allocation is already is
/// not part of what the buffer holds, and no clause speaks of it.
pub assume_specification[ BytesMut::reserve ](buffer: &mut BytesMut, additional: usize)
    requires
        buffer_bytes(*old(buffer)).len() + additional <= isize::MAX,
    ensures
        buffer_bytes(*final(buffer)) == buffer_bytes(*old(buffer)),
;

/// `BytesMut::unsplit` appends the bytes of `other`. It reserves room for them
/// where it must, and panics where `reserve` does.
pub assume_specification[ BytesMut::unsplit ](buffer: &mut BytesMut, other: BytesMut)
    requires
        buffer_bytes(*old(buffer)).len() + buffer_bytes(other).len() <= isize::MAX,
    ensures
        buffer_bytes(*final(buffer)) == buffer_bytes(*old(buffer)) + buffer_bytes(other),
;

/// `BytesMut::freeze` keeps the bytes.
pub assume_specification[ BytesMut::freeze ](buffer: BytesMut) -> (frozen: Bytes)
    ensures
        frozen_bytes(frozen) == buffer_bytes(buffer),
;

/// `<Bytes as Deref>::deref` shows the bytes of the buffer as a slice.
pub assume_specification[ <Bytes as core::ops::Deref>::deref ](buffer: &Bytes) -> (bytes: &[u8])
    ensures
        bytes@ == frozen_bytes(*buffer),
;

} // verus!
