//! Idealized model of the cryptographic facade used by consensus.
//!
//! The node's real signature scheme is an aggregatable (BLS-style) scheme
//! over a fixed-width digest.  This module models it with plain data: a
//! digest mixes the signed fields, a signature records which digest was
//! signed and by which key, and an aggregate signature records the digest
//! together with the ordered list of contributing keys.  Verification is
//! equality of the recorded data with the expected data, which gives the
//! scheme exactly the algebra consensus relies on: a signature verifies
//! under a public key iff it was produced with the matching secret key,
//! and an aggregate verifies iff it was built from precisely the selected
//! signers, in a way that does not depend on the order votes arrived.

use vstd::prelude::*;

verus! {

/// A fixed-width digest value (two 64-bit words).
#[derive(Clone, Copy, Debug, PartialEq, Eq, Structural)]
pub struct Digest {
    pub w0: u64,
    pub w1: u64,
}

/// A public key of the aggregatable signature scheme.
#[derive(Clone, Copy, Debug, PartialEq, Eq, Structural)]
pub struct PublicKey {
    pub id: u64,
}

/// The secret key matching the public key with the same `id`.
#[derive(Clone, Copy, Debug, PartialEq, Eq, Structural)]
pub struct SecretKey {
    pub id: u64,
}

/// A single signature: records the digest signed and the signing key.
#[derive(Clone, Copy, Debug, PartialEq, Eq, Structural)]
pub struct Signature {
    pub hash: Digest,
    pub signer: u64,
}

/// The public key that corresponds to a secret key.
pub open spec fn pkey_of(skey: SecretKey) -> PublicKey {
    PublicKey { id: skey.id }
}

/// What it means for `sig` to be a valid signature over `hash` under `pkey`.
pub open spec fn sig_valid(sig: Signature, hash: Digest, pkey: PublicKey) -> bool {
    sig.hash == hash && sig.signer == pkey.id
}

/// Signs a digest with a secret key.
pub fn sign_hash(hash: &Digest, skey: &SecretKey) -> (sig: Signature)
    ensures
        sig == (Signature { hash: *hash, signer: skey.id }),
        sig_valid(sig, *hash, pkey_of(*skey)),
{
    Signature { hash: *hash, signer: skey.id }
}

/// Checks a signature over a digest under a public key.
pub fn check_hash(hash: &Digest, sig: &Signature, pkey: &PublicKey) -> (r: bool)
    ensures
        r == sig_valid(*sig, *hash, *pkey),
{
    sig.hash.w0 == hash.w0 && sig.hash.w1 == hash.w1 && sig.signer == pkey.id
}

/// An aggregate signature: the digest signed and the contributing keys,
/// listed in the canonical order in which the aggregate was formed.
#[derive(Clone, Debug)]
pub struct AggregateSignature {
    pub hash: Digest,
    pub signers: Vec<u64>,
}

/// What it means for an aggregate signature to verify over `hash` against
/// the given key ids: it must have been formed over the same digest from
/// exactly those keys.
pub open spec fn multisig_valid(agg: AggregateSignature, hash: Digest, signers: Seq<u64>) -> bool {
    agg.hash == hash && agg.signers@ == signers
}

} // verus!
