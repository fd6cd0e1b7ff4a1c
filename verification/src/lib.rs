//! A trustless two-party token-swap escrow.
//!
//! A maker locks a quantity of one asset into a per-offer vault and names the
//! quantity of a second asset wanted in return.  A taker may complete the
//! trade atomically, or the maker may reclaim the locked asset first.  The
//! offer registry, the vault custody rules and the checked transfer engine
//! are all verified: every operation either performs its full effect or
//! reports an error and leaves the state exactly as it was.

use vstd::prelude::*;

pub mod error;
pub mod ledger;
pub mod offer;
pub mod registry;
pub mod resolver;

pub use error::ErrorCode;
pub use ledger::Ledger;
pub use ledger::Mint;
pub use ledger::TokenAccount;
pub use offer::Offer;
pub use registry::Escrow;
pub use resolver::Address;
pub use resolver::DerivationProof;

verus! {

/// Minimum amount for any token transfer (to prevent dust offers).
pub const MIN_TRANSFER_AMOUNT: u64 = 1;

/// Advisory cap on open offers per maker.  It bounds storage growth in the
/// deployed setting; it is declared but not enforced by a counter, so no
/// operation consults it.
pub const MAX_OFFERS_PER_MAKER: u64 = 100;

/// The nonce handed out by the resolver together with every derived address.
pub const DERIVATION_NONCE: u8 = 255;

} // verus!
