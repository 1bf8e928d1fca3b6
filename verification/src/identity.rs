//! The validator's Ed25519 identity: signing, public key, and verification, as
//! computed by the `solana-keypair` and `solana-signature` crates.
use solana_keypair::Keypair;
use solana_signature::Signature;
use solana_signer::Signer;
use vstd::prelude::*;

verus! {

/// An Ed25519 key pair.
#[verifier::external_type_specification]
#[verifier::external_body]
pub struct ExKeypair(Keypair);

/// The secret key that a key pair holds. The public half is derived from it.
pub uninterp spec fn keypair_secret(keypair: Keypair) -> Seq<u8>;

/// The public key that belongs to a secret key.
pub uninterp spec fn ed25519_public_key(secret: Seq<u8>) -> Seq<u8>;

/// The signature over a message under a secret key.
pub uninterp spec fn ed25519_signature(secret: Seq<u8>, message: Seq<u8>) -> Seq<u8>;

/// Whether a signature over a message is accepted under a public key.
pub uninterp spec fn ed25519_accepts(
    public_key: Seq<u8>,
    message: Seq<u8>,
    signature: Seq<u8>,
) -> bool;

/// The first half of the signature encodes the neutral element of the curve.
/// Strict verification refuses such a signature, whoever made it.
pub open spec fn commits_to_neutral_element(signature: Seq<u8>) -> bool {
    signature.take(32) == seq![1u8] + Seq::new(31, |i: int| 0u8)
}

/// `Keypair::sign_message`: the Ed25519 signature over `message`, which is
/// determined by the secret key and the message. It is accepted for the same
/// message under the key pair's own public key, unless the nonce point that
/// was derived for the message is the neutral element.
#[verifier::external_body]
pub(crate) fn sign_message(keypair: &Keypair, message: &[u8]) -> (signature: [u8; 64])
    ensures
        signature@ == ed25519_signature(keypair_secret(*keypair), message@),
        !commits_to_neutral_element(signature@) ==> ed25519_accepts(
            ed25519_public_key(keypair_secret(*keypair)),
            message@,
            signature@,
        ),
{
    keypair.sign_message(message).into()
}

/// `Keypair::pubkey`: the bytes of the public key, which is determined by the
/// secret key.
#[verifier::external_body]
pub(crate) fn public_key(keypair: &Keypair) -> (public_key: [u8; 32])
    ensures
        public_key@ == ed25519_public_key(keypair_secret(*keypair)),
{
    keypair.pubkey().to_bytes()
}

/// `Signature::verify`: whether `signature` is accepted for `message` under
/// `public_key`, which is determined by these three.
#[verifier::external_body]
pub(crate) fn verify_signature(signature: &[u8; 64], public_key: &[u8; 32], message: &[u8]) -> (
    accepted: bool)
    ensures
        accepted == ed25519_accepts(public_key@, message@, signature@),
{
    Signature::from(*signature).verify(public_key, message)
}

} // verus!
