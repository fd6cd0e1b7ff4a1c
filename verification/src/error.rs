//! The error taxonomy of the escrow.
//!
//! Every operation aborts with one of these kinds and no partial effect; the
//! contracts in [`crate::registry`] and [`crate::ledger`] state exactly which
//! inputs produce which kind.

use vstd::prelude::*;

verus! {

/// Why an escrow operation was rejected.
#[derive(Clone, Copy, Debug, PartialEq, Eq, Structural)]
pub enum ErrorCode {
    /// The taker does not have enough balance to complete the trade.
    InsufficientTakerBalance,
    /// The maker does not have enough balance to create the offer.
    InsufficientMakerBalance,
    /// Cannot create an offer with identical token mints.
    InvalidTokenMint,
    /// An amount is below the minimum transfer amount.
    InvalidAmount,
    /// The offer has already been taken or cancelled: no record resolves at
    /// the derived address.
    OfferAlreadyTaken,
    /// An open offer already occupies the derived address.
    OfferAlreadyExists,
    /// Only the maker can refund this offer.
    UnauthorizedRefund,
    /// The vault account is empty.
    EmptyVault,
    /// Token decimals do not match the precision recorded on a holding.
    InvalidTokenDecimals,
}

} // verus!
