//! The canonical record of an escrow agreement.

use vstd::prelude::*;

verus! {

/// An open escrow offer: immutable trade terms, created exactly once by
/// `make_offer` and destroyed exactly once by `take_offer`,
/// `refund_offer` or `cancel_offer`.
#[derive(Clone, Copy, Debug, PartialEq, Eq, Structural)]
pub struct Offer {
    /// Caller-chosen offer number, unique per maker while the offer is open.
    pub id: u64,
    /// Identity of the maker who created this offer.
    pub maker: u64,
    /// Mint of the asset the maker is offering (asset A).
    pub token_mint_a: u64,
    /// Mint of the asset the maker wants in return (asset B).
    pub token_mint_b: u64,
    /// Amount of asset A locked in the vault.
    pub token_a_offered_amount: u64,
    /// Amount of asset B the maker wants in return.
    pub token_b_wanted_amount: u64,
    /// Derivation nonce of the offer record's address.
    pub bump: u8,
}

} // verus!
