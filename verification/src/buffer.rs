//! The byte buffers that frames and stored values hold.
//!
//! A `Bytes` value is opaque to the verifier. Its meaning is the sequence of
//! bytes it holds, named by [`contents`]; the few operations the crate needs
//! are given contracts over that sequence.

use bytes::Bytes;
use vstd::prelude::*;

verus! {

/// `bytes::Bytes`: an immutable, reference-counted chunk of bytes.
#[verifier::external_type_specification]
#[verifier::external_body]
pub struct ExBytes(bytes::Bytes);

/// The bytes that a buffer holds, in order.
pub uninterp spec fn contents(b: Bytes) -> Seq<u8>;

/// What an optional buffer holds.
pub open spec fn opt_contents(b: Option<Bytes>) -> Option<Seq<u8>> {
    match b {
        Some(b) => Some(contents(b)),
        None => None,
    }
}

/// What each buffer of a run holds, in order.
pub open spec fn each_contents(bufs: Seq<Bytes>) -> Seq<Seq<u8>> {
    Seq::new(bufs.len(), |i: int| contents(bufs[i]))
}

/// `Bytes::from(Vec<u8>)`: the buffer takes over the vector's bytes, none
/// added, dropped or reordered.
#[verifier::external_body]
pub(crate) fn from_vec(v: Vec<u8>) -> (b: Bytes)
    ensures
        contents(b) == v@,
{
    Bytes::from(v)
}

/// `Bytes::as_ref`: the buffer's bytes as a slice.
#[verifier::external_body]
pub(crate) fn as_slice<'a>(b: &'a Bytes) -> (s: &'a [u8])
    ensures
        s@ == contents(*b),
{
    b.as_ref()
}

/// `Bytes::clone`: a second handle on the same bytes.
pub assume_specification[ <Bytes as Clone>::clone ](b: &Bytes) -> (c: Bytes)
    ensures
        contents(c) == contents(*b),
;

/// Whether two slices hold the same bytes.
pub fn slice_eq(a: &[u8], b: &[u8]) -> (r: bool)
    ensures
        r == (a@ == b@),
{
    if a.len() != b.len() {
        return false;
    }
    let mut i: usize = 0;
    while i < a.len()
        invariant
            a.len() == b.len(),
            i <= a.len(),
            forall|j: int| 0 <= j < i ==> a@[j] == b@[j],
        decreases a.len() - i,
    {
        if a[i] != b[i] {
            return false;
        }
        i += 1;
    }
    assert(a@ =~= b@);
    true
}

} // verus!
