//! SHA-256, computed by the `sha2` crate.

use vstd::prelude::*;

verus! {

/// The SHA-256 digest of `data`, as `sha2` computes it.
pub uninterp spec fn sha256_spec(data: Seq<u8>) -> Seq<u8>;

} // verus!

verus! {

/// `sha2::Sha256::digest` over `data[start..]`: its 32-byte SHA-256
/// digest. The contract only names the result (a function of those
/// bytes alone); what SHA-256 computes is not restated.
#[verifier::external_body]
pub(crate) fn sha256_from(data: &[u8], start: usize) -> (r: [u8; 32])
    requires
        start <= data@.len(),
    ensures
        r@ == sha256_spec(data@.skip(start as int)),
{
    <sha2::Sha256 as sha2::Digest>::digest(&data[start..]).into()
}

} // verus!
