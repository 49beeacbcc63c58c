//! The chunk buffer: `bytes::BytesMut` while a chunk is written, `bytes::Bytes`
//! once it is handed out. Verus does not read the `bytes` crate; what this
//! module says of its types and methods is taken on trust.

use bytes::{Bytes, BytesMut};
use vstd::prelude::*;

verus! {

/// `bytes::BytesMut`: a buffer of bytes that grows as bytes are written to
/// it.
#[verifier::external_type_specification]
#[verifier::external_body]
pub struct ExBytesMut(bytes::BytesMut);

/// `bytes::Bytes`: a chunk of bytes that does not change any more.
#[verifier::external_type_specification]
#[verifier::external_body]
pub struct ExBytes(bytes::Bytes);

/// The bytes that a `BytesMut` holds, first to last.
pub uninterp spec fn written(buf: BytesMut) -> Seq<u8>;

/// The bytes that a `Bytes` holds, first to last.
pub uninterp spec fn frozen(chunk: Bytes) -> Seq<u8>;

/// The longest chunk that is ever put together: no allocation holds more
/// than `isize::MAX` bytes.
pub open spec fn max_chunk_len() -> nat {
    isize::MAX as nat
}

/// `BytesMut::with_capacity` returns a buffer that holds no bytes. It is
/// asked for no more than an allocation can hold.
pub assume_specification[ BytesMut::with_capacity ](capacity: usize) -> (buf: BytesMut)
    requires
        capacity <= isize::MAX,
    ensures
        written(buf) == Seq::<u8>::empty(),
;

/// `BytesMut::len` counts the bytes held.
pub assume_specification[ BytesMut::len ](buf: &BytesMut) -> (len: usize)
    ensures
        len == written(*buf).len(),
;

/// `BytesMut::extend_from_slice` appends the slice to the bytes held, growing
/// the buffer where it has to. The total is kept within what an allocation
/// can hold, so that growing cannot overflow.
pub assume_specification[ BytesMut::extend_from_slice ](buf: &mut BytesMut, extend: &[u8])
    requires
        written(*old(buf)).len() + extend@.len() <= isize::MAX,
    ensures
        written(*final(buf)) == written(*old(buf)) + extend@,
;

/// `BytesMut::freeze` turns the buffer into an immutable chunk of the same
/// bytes.
pub assume_specification[ BytesMut::freeze ](buf: BytesMut) -> (chunk: Bytes)
    ensures
        frozen(chunk) == written(buf),
;

} // verus!
