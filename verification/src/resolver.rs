//! The derived-authority resolver.
//!
//! Offer records and their vaults are located and controlled through
//! deterministic, collision-resistant addresses computed from a maker
//! identity and an offer number.  The derivation is modeled as an injective
//! constructor: a derived address can never collide with a user identity nor
//! with the derived address of a different `(maker, id)` pair, which is what
//! makes offer records unforgeable and vaults controllable only by logic
//! that knows the pair they were derived from.

use vstd::prelude::*;

verus! {

/// An address in the system: either an externally authenticated user
/// identity, or the derived address of the offer record for a
/// `(maker, id)` pair.
#[derive(Clone, Copy, Debug, PartialEq, Eq, Structural)]
pub enum Address {
    /// An externally authenticated identity, such as a maker or a taker.
    User(u64),
    /// The derived address of the offer record created by maker (first
    /// field) under offer number (second field).  It doubles as the owning
    /// authority of that offer's vault.
    Derived(u64, u64),
}

/// The capability that substitutes for a signature when the authority behind
/// a transfer is an offer record rather than a key holder.  It proves
/// possession of the derivation data of the record's address.
#[derive(Clone, Copy, Debug, PartialEq, Eq, Structural)]
pub struct DerivationProof {
    /// The maker identity the address was derived from.
    pub maker: u64,
    /// The offer number the address was derived from.
    pub id: u64,
    /// The derivation nonce recorded on the offer.
    pub nonce: u8,
}

/// Holds exactly when `proof` reproduces the derived address `addr`: the
/// transfer engine accepts it in place of a signature only then.
pub open spec fn proof_signs_for(proof: DerivationProof, addr: Address) -> bool {
    addr == Address::Derived(proof.maker, proof.id) && proof.nonce == crate::DERIVATION_NONCE
}

/// Computes the derived address for the offer record of `(maker, id)`,
/// together with its derivation nonce.
pub fn derive_address(maker: u64, id: u64) -> (r: (Address, u8))
    ensures
        r.0 == Address::Derived(maker, id),
        r.1 == crate::DERIVATION_NONCE,
{
    (Address::Derived(maker, id), crate::DERIVATION_NONCE)
}

/// Law: derivation is deterministic and collision-resistant.  Two derived
/// addresses are equal exactly when they come from the same `(maker, id)`
/// pair, and a derived address is never a user identity.
pub proof fn lemma_derivation_collision_resistant(maker1: u64, id1: u64, maker2: u64, id2: u64)
    ensures
        (Address::Derived(maker1, id1) == Address::Derived(maker2, id2)) <==> (maker1 == maker2
            && id1 == id2),
        forall|u: u64| Address::Derived(maker1, id1) != Address::User(u),
{
}

} // verus!
