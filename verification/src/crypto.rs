//! The cryptographic primitives the log rests on: SHA-256 digests and
//! Ed25519 signatures. They are computed by the `sha2` and `ed25519-dalek`
//! crates; nothing here is proved of them, and verified code knows each
//! result only by name.

use crate::digest::MDigest;
use vstd::prelude::*;

verus! {

/// An Ed25519 signature, as its 64 bytes.
pub type Signature = [u8; 64];

/// The secret half of an Ed25519 key pair, as its 32 bytes.
#[derive(Clone, Copy, Debug)]
pub struct SecretKey {
    pub bytes: [u8; 32],
}

/// An Ed25519 verification key, as the 32 bytes of its compressed point.
#[derive(Clone, Copy, Debug)]
pub struct PublicKey {
    pub bytes: [u8; 32],
}

/// An Ed25519 key pair.
#[derive(Clone, Copy, Debug)]
pub struct Keypair {
    /// The secret half of this key pair.
    pub secret: SecretKey,
    /// The public half of this key pair.
    pub public: PublicKey,
}

/// The error type of the `signature` crate, which `ed25519-dalek` returns
/// when a key or a signature cannot be decoded or a signature does not verify.
#[verifier::external_type_specification]
#[verifier::external_body]
pub struct ExSignatureError(ed25519_dalek::SignatureError);

/// The SHA-256 hash of `data`.
pub uninterp spec fn sha256_spec(data: Seq<u8>) -> MDigest;

/// The Ed25519 signature that the key pair derived from the secret key bytes
/// `secret` makes over `data`.
pub uninterp spec fn ed25519_signature(secret: Seq<u8>, data: Seq<u8>) -> Signature;

/// Whether `ed25519-dalek` accepts `sig` as a signature over `data` under the
/// verification key encoded by `public`.
pub uninterp spec fn ed25519_verifies(public: Seq<u8>, data: Seq<u8>, sig: Seq<u8>) -> bool;

/// Calls `sha2::Sha256` on `data` (`Digest::update`, then `Digest::finalize`).
/// The contract only names the result: SHA-256 is a function of its input.
#[verifier::external_body]
pub(crate) fn sha256(data: &[u8]) -> (d: MDigest)
    ensures
        d == sha256_spec(data@),
{
    let mut hasher = sha2::Sha256::default();
    sha2::Digest::update(&mut hasher, data);
    sha2::Digest::finalize(hasher).into()
}

/// Calls `ed25519_dalek::Keypair::sign`, on the key pair that
/// `ed25519_dalek::PublicKey::from` derives from the secret key. Ed25519
/// signing draws no randomness, so the signature is a function of the secret
/// key and the data; the contract only names it.
#[verifier::external_body]
pub(crate) fn ed25519_sign(secret: &SecretKey, data: &[u8]) -> (sig: Signature)
    ensures
        sig == ed25519_signature(secret.bytes@, data@),
{
    let secret = ed25519_dalek::SecretKey::from_bytes(&secret.bytes).expect("a 32-byte key");
    let public = ed25519_dalek::PublicKey::from(&secret);
    let pair = ed25519_dalek::Keypair { secret, public };
    ed25519_dalek::Signer::sign(&pair, data).to_bytes()
}

/// Calls `ed25519_dalek::PublicKey::verify`, after decoding the key with
/// `PublicKey::from_bytes` and the signature with `Signature::from_bytes`.
/// It returns `Ok` when all three succeed, and the crate's error otherwise;
/// the contract only names which of the two it is.
#[verifier::external_body]
pub(crate) fn ed25519_verify(
    public: &PublicKey,
    data: &[u8],
    sig: &Signature,
) -> (outcome: Result<(), ed25519_dalek::SignatureError>)
    ensures
        outcome is Ok <==> ed25519_verifies(public.bytes@, data@, sig@),
{
    let key = ed25519_dalek::PublicKey::from_bytes(&public.bytes)?;
    let sig = ed25519_dalek::Signature::from_bytes(sig)?;
    ed25519_dalek::Verifier::verify(&key, data, &sig)
}

} // verus!
