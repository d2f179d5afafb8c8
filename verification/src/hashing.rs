use vstd::prelude::*;
use crate::types::{Digest, HashedFileView};

verus! {

/// The 256-bit digest that the BLAKE3 hash function assigns to a byte
/// sequence.
pub uninterp spec fn blake3_of(data: Seq<u8>) -> Seq<u8>;

/// Relies on `blake3::Hasher::new`, `blake3::Hasher::update` and
/// `blake3::Hasher::finalize`: the returned value is the BLAKE3 digest of
/// exactly the bytes fed in, a function of those bytes alone, 32 bytes wide.
#[verifier::external_body]
pub(crate) fn blake3_hash(data: &Vec<u8>) -> (r: Digest)
    ensures
        r@ == blake3_of(data@),
        r@.len() == 32,
{
    let mut hasher = blake3::Hasher::new();
    hasher.update(data.as_slice());
    Digest { bytes: *hasher.finalize().as_bytes() }
}

/// The canonical aggregation input for a record sequence: each record's
/// raw digest bytes followed by its path bytes, in record order. The
/// fixed digest width makes this layout unambiguous without separators.
pub open spec fn concat_records(s: Seq<HashedFileView>) -> Seq<u8>
    decreases s.len(),
{
    if s.len() == 0 {
        Seq::empty()
    } else {
        concat_records(s.drop_last()) + s.last().hash + s.last().path
    }
}

} // verus!
