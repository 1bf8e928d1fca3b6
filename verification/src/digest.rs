//! SHA-256, as computed by the `sha2` crate.
use sha2::Digest;
use sha2::Sha256;
use vstd::prelude::*;

verus! {

/// A SHA-256 computation in progress.
#[verifier::external_type_specification]
#[verifier::external_body]
pub struct ExSha256(Sha256);

/// The bytes that a hasher has been fed so far, in order.
pub uninterp spec fn absorbed(hasher: Sha256) -> Seq<u8>;

/// The SHA-256 digest of a byte string.
pub uninterp spec fn sha256(data: Seq<u8>) -> Seq<u8>;

/// `Sha256::new`: a hasher that has been fed nothing.
#[verifier::external_body]
pub(crate) fn hasher_new() -> (hasher: Sha256)
    ensures
        absorbed(hasher) == Seq::<u8>::empty(),
{
    Sha256::new()
}

/// `Sha256::update`: appends `data` to what the hasher has been fed.
#[verifier::external_body]
pub(crate) fn hasher_update(hasher: &mut Sha256, data: &[u8])
    ensures
        absorbed(*final(hasher)) == absorbed(*old(hasher)) + data@,
{
    hasher.update(data)
}

/// `Sha256::finalize`: the digest of everything that the hasher has been fed.
/// It is a function of those bytes alone, however they were split into updates.
#[verifier::external_body]
pub(crate) fn hasher_finalize(hasher: Sha256) -> (digest: [u8; 32])
    ensures
        digest@ == sha256(absorbed(hasher)),
{
    hasher.finalize().into()
}

/// The digest of one byte string.
pub fn digest_of(data: &[u8]) -> (digest: [u8; 32])
    ensures
        digest@ == sha256(data@),
{
    let mut hasher = hasher_new();
    hasher_update(&mut hasher, data);
    proof {
        assert(Seq::<u8>::empty() + data@ =~= data@);
    }
    hasher_finalize(hasher)
}

} // verus!
