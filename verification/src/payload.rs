//! Shared byte buffers: what the library uses of `bytes::Bytes`.

use bytes::Bytes;
use vstd::prelude::*;

verus! {

/// `bytes::Bytes`: an immutable byte buffer whose clones and slices share storage.
#[verifier::external_type_specification]
#[verifier::external_body]
pub struct ExBytes(Bytes);

/// The bytes that a buffer holds.
pub uninterp spec fn contents(b: Bytes) -> Seq<u8>;

/// Calls `Bytes::len`: the number of bytes that the buffer holds.
#[verifier::external_body]
pub(crate) fn bytes_len(b: &Bytes) -> (n: usize)
    ensures
        n == contents(*b).len(),
{
    b.len()
}

/// Calls `Bytes::slice` with the range from `start` to `end`: a buffer that holds
/// just those bytes. `Bytes::slice` panics outside the buffer, so the range must
/// lie inside it.
#[verifier::external_body]
pub(crate) fn bytes_slice(b: &Bytes, start: usize, end: usize) -> (s: Bytes)
    requires
        start <= end <= contents(*b).len(),
    ensures
        contents(s) == contents(*b).subrange(start as int, end as int),
{
    b.slice(start..end)
}

/// Calls `Bytes::to_vec` (through its view as a slice): a copy of the bytes.
#[verifier::external_body]
pub(crate) fn bytes_to_vec(b: &Bytes) -> (v: Vec<u8>)
    ensures
        v@ == contents(*b),
{
    b.to_vec()
}

/// Calls `Bytes::from` on a vector: a buffer that holds the bytes of the vector.
#[verifier::external_body]
pub(crate) fn bytes_from_vec(v: Vec<u8>) -> (b: Bytes)
    ensures
        contents(b) == v@,
{
    Bytes::from(v)
}

} // verus!
