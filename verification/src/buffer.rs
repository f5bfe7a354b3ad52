//! The `bytes::Bytes` buffer that carries a record, as the library sees it.

use bytes::Bytes;
use vstd::prelude::*;

verus! {

#[verifier::external_type_specification]
#[verifier::external_body]
pub struct ExBytes(Bytes);

/// The bytes that a `Bytes` buffer holds.
pub uninterp spec fn bytes_contents(b: Bytes) -> Seq<u8>;

/// Borrows the contents of the buffer (`<Bytes as AsRef<[u8]>>::as_ref`).
/// Trusted: the slice returned is exactly the bytes the buffer holds.
#[verifier::external_body]
pub(crate) fn bytes_as_slice(b: &Bytes) -> (s: &[u8])
    ensures
        s@ == bytes_contents(*b),
{
    b.as_ref()
}

/// A shared sub-buffer of `b` (`Bytes::slice(begin..end)`), which panics
/// unless `begin <= end <= len`. Trusted: the result holds exactly the bytes
/// of `b` in `begin..end`.
#[verifier::external_body]
pub(crate) fn bytes_slice(b: &Bytes, begin: usize, end: usize) -> (r: Bytes)
    requires
        begin <= end <= bytes_contents(*b).len(),
    ensures
        bytes_contents(r) == bytes_contents(*b).subrange(begin as int, end as int),
{
    b.slice(begin..end)
}

/// An empty buffer (`Bytes::new`). Trusted: it holds no bytes.
#[verifier::external_body]
pub(crate) fn bytes_empty() -> (r: Bytes)
    ensures
        bytes_contents(r) == Seq::<u8>::empty(),
{
    Bytes::new()
}

} // verus!
