use escrow::Address;
use escrow::ErrorCode;
use escrow::Escrow;

const MINT_X: u64 = 10;
const MINT_Y: u64 = 20;
const MAKER: u64 = 1;
const TAKER: u64 = 2;
const OUTSIDER: u64 = 3;

/// An escrow with two registered mints, the maker funded with 100 of X and
/// the taker with 50 of Y.
fn setup() -> Escrow {
    let mut e = Escrow::new();
    e.register_mint(MINT_X, 6);
    e.register_mint(MINT_Y, 9);
    e.mint_to(MAKER, MINT_X, 100);
    e.mint_to(TAKER, MINT_Y, 50);
    e
}

#[test]
fn make_offer_funds_vault_and_debits_maker() {
    let mut e = setup();
    let r = e.make_offer(MAKER, 1, MINT_X, MINT_Y, 100, 50);
    assert_eq!(r, Ok(()));
    assert_eq!(e.balance(Address::Derived(MAKER, 1), MINT_X), 100);
    assert_eq!(e.balance(Address::User(MAKER), MINT_X), 0);
    let offer = e.get_offer(MAKER, 1).unwrap();
    assert_eq!(offer.id, 1);
    assert_eq!(offer.maker, MAKER);
    assert_eq!(offer.token_mint_a, MINT_X);
    assert_eq!(offer.token_mint_b, MINT_Y);
    assert_eq!(offer.token_a_offered_amount, 100);
    assert_eq!(offer.token_b_wanted_amount, 50);
}

#[test]
fn make_offer_partial_amount_leaves_remainder_with_maker() {
    let mut e = setup();
    let r = e.make_offer(MAKER, 1, MINT_X, MINT_Y, 30, 50);
    assert_eq!(r, Ok(()));
    assert_eq!(e.balance(Address::Derived(MAKER, 1), MINT_X), 30);
    assert_eq!(e.balance(Address::User(MAKER), MINT_X), 70);
}

#[test]
fn make_offer_identical_mints_rejected() {
    let mut e = setup();
    let r = e.make_offer(MAKER, 1, MINT_X, MINT_X, 100, 50);
    assert_eq!(r, Err(ErrorCode::InvalidTokenMint));
    assert_eq!(e.balance(Address::User(MAKER), MINT_X), 100);
    assert_eq!(e.get_offer(MAKER, 1), Err(ErrorCode::OfferAlreadyTaken));
}

#[test]
fn make_offer_zero_offered_amount_rejected() {
    let mut e = setup();
    let r = e.make_offer(MAKER, 1, MINT_X, MINT_Y, 0, 50);
    assert_eq!(r, Err(ErrorCode::InvalidAmount));
    assert_eq!(e.balance(Address::User(MAKER), MINT_X), 100);
}

#[test]
fn make_offer_zero_wanted_amount_rejected() {
    let mut e = setup();
    let r = e.make_offer(MAKER, 1, MINT_X, MINT_Y, 100, 0);
    assert_eq!(r, Err(ErrorCode::InvalidAmount));
    assert_eq!(e.balance(Address::User(MAKER), MINT_X), 100);
}

#[test]
fn make_offer_duplicate_pair_rejected() {
    let mut e = setup();
    assert_eq!(e.make_offer(MAKER, 1, MINT_X, MINT_Y, 40, 50), Ok(()));
    let r = e.make_offer(MAKER, 1, MINT_X, MINT_Y, 40, 50);
    assert_eq!(r, Err(ErrorCode::OfferAlreadyExists));
    assert_eq!(e.balance(Address::Derived(MAKER, 1), MINT_X), 40);
    assert_eq!(e.balance(Address::User(MAKER), MINT_X), 60);
}

#[test]
fn make_offer_insufficient_maker_balance_rejected() {
    let mut e = setup();
    let r = e.make_offer(MAKER, 1, MINT_X, MINT_Y, 101, 50);
    assert_eq!(r, Err(ErrorCode::InsufficientMakerBalance));
    assert_eq!(e.balance(Address::User(MAKER), MINT_X), 100);
    assert_eq!(e.get_offer(MAKER, 1), Err(ErrorCode::OfferAlreadyTaken));
}

#[test]
fn take_offer_swaps_and_destroys() {
    let mut e = setup();
    assert_eq!(e.make_offer(MAKER, 1, MINT_X, MINT_Y, 100, 50), Ok(()));
    let r = e.take_offer(TAKER, MAKER, 1);
    assert_eq!(r, Ok(()));
    assert_eq!(e.balance(Address::User(TAKER), MINT_X), 100);
    assert_eq!(e.balance(Address::User(TAKER), MINT_Y), 0);
    assert_eq!(e.balance(Address::User(MAKER), MINT_Y), 50);
    assert_eq!(e.balance(Address::User(MAKER), MINT_X), 0);
    assert_eq!(e.balance(Address::Derived(MAKER, 1), MINT_X), 0);
    assert_eq!(e.get_offer(MAKER, 1), Err(ErrorCode::OfferAlreadyTaken));
}

#[test]
fn take_offer_insufficient_taker_balance_rejected() {
    let mut e = setup();
    assert_eq!(e.make_offer(MAKER, 1, MINT_X, MINT_Y, 100, 51), Ok(()));
    let r = e.take_offer(TAKER, MAKER, 1);
    assert_eq!(r, Err(ErrorCode::InsufficientTakerBalance));
    assert_eq!(e.balance(Address::Derived(MAKER, 1), MINT_X), 100);
    assert_eq!(e.balance(Address::User(TAKER), MINT_Y), 50);
    assert!(e.get_offer(MAKER, 1).is_ok());
}

#[test]
fn take_offer_unknown_pair_rejected() {
    let mut e = setup();
    let r = e.take_offer(TAKER, MAKER, 9);
    assert_eq!(r, Err(ErrorCode::OfferAlreadyTaken));
}

#[test]
fn take_offer_by_maker_returns_own_funds() {
    let mut e = setup();
    e.mint_to(MAKER, MINT_Y, 50);
    assert_eq!(e.make_offer(MAKER, 1, MINT_X, MINT_Y, 100, 50), Ok(()));
    let r = e.take_offer(MAKER, MAKER, 1);
    assert_eq!(r, Ok(()));
    assert_eq!(e.balance(Address::User(MAKER), MINT_X), 100);
    assert_eq!(e.balance(Address::User(MAKER), MINT_Y), 50);
    assert_eq!(e.get_offer(MAKER, 1), Err(ErrorCode::OfferAlreadyTaken));
}

#[test]
fn refund_offer_returns_funds_and_destroys() {
    let mut e = setup();
    assert_eq!(e.make_offer(MAKER, 1, MINT_X, MINT_Y, 100, 50), Ok(()));
    let r = e.refund_offer(MAKER, MAKER, 1);
    assert_eq!(r, Ok(()));
    assert_eq!(e.balance(Address::User(MAKER), MINT_X), 100);
    assert_eq!(e.balance(Address::Derived(MAKER, 1), MINT_X), 0);
    assert_eq!(e.get_offer(MAKER, 1), Err(ErrorCode::OfferAlreadyTaken));
}

#[test]
fn refund_offer_by_non_maker_rejected() {
    let mut e = setup();
    assert_eq!(e.make_offer(MAKER, 1, MINT_X, MINT_Y, 100, 50), Ok(()));
    let r = e.refund_offer(OUTSIDER, MAKER, 1);
    assert_eq!(r, Err(ErrorCode::UnauthorizedRefund));
    assert_eq!(e.balance(Address::Derived(MAKER, 1), MINT_X), 100);
    assert!(e.get_offer(MAKER, 1).is_ok());
}

#[test]
fn cancel_offer_behaves_as_refund() {
    let mut e = setup();
    assert_eq!(e.make_offer(MAKER, 1, MINT_X, MINT_Y, 100, 50), Ok(()));
    let r = e.cancel_offer(MAKER, MAKER, 1);
    assert_eq!(r, Ok(()));
    assert_eq!(e.balance(Address::User(MAKER), MINT_X), 100);
    assert_eq!(e.get_offer(MAKER, 1), Err(ErrorCode::OfferAlreadyTaken));
}

#[test]
fn cancel_offer_by_non_maker_rejected() {
    let mut e = setup();
    assert_eq!(e.make_offer(MAKER, 1, MINT_X, MINT_Y, 100, 50), Ok(()));
    let r = e.cancel_offer(OUTSIDER, MAKER, 1);
    assert_eq!(r, Err(ErrorCode::UnauthorizedRefund));
    assert!(e.get_offer(MAKER, 1).is_ok());
}

#[test]
fn second_settlement_attempt_never_double_settles() {
    let mut e = setup();
    assert_eq!(e.make_offer(MAKER, 1, MINT_X, MINT_Y, 100, 50), Ok(()));
    assert_eq!(e.take_offer(TAKER, MAKER, 1), Ok(()));
    assert_eq!(e.take_offer(TAKER, MAKER, 1), Err(ErrorCode::OfferAlreadyTaken));
    assert_eq!(e.refund_offer(MAKER, MAKER, 1), Err(ErrorCode::OfferAlreadyTaken));
    assert_eq!(e.cancel_offer(MAKER, MAKER, 1), Err(ErrorCode::OfferAlreadyTaken));
    assert_eq!(e.balance(Address::User(TAKER), MINT_X), 100);
    assert_eq!(e.balance(Address::User(MAKER), MINT_Y), 50);
}

#[test]
fn refund_then_refund_rejected() {
    let mut e = setup();
    assert_eq!(e.make_offer(MAKER, 1, MINT_X, MINT_Y, 100, 50), Ok(()));
    assert_eq!(e.refund_offer(MAKER, MAKER, 1), Ok(()));
    assert_eq!(e.refund_offer(MAKER, MAKER, 1), Err(ErrorCode::OfferAlreadyTaken));
    assert_eq!(e.balance(Address::User(MAKER), MINT_X), 100);
}

#[test]
fn offers_are_independent_per_pair() {
    let mut e = setup();
    e.mint_to(MAKER, MINT_X, 20);
    assert_eq!(e.make_offer(MAKER, 1, MINT_X, MINT_Y, 70, 50), Ok(()));
    assert_eq!(e.make_offer(MAKER, 2, MINT_X, MINT_Y, 50, 10), Ok(()));
    assert_eq!(e.balance(Address::Derived(MAKER, 1), MINT_X), 70);
    assert_eq!(e.balance(Address::Derived(MAKER, 2), MINT_X), 50);
    assert_eq!(e.refund_offer(MAKER, MAKER, 1), Ok(()));
    assert_eq!(e.balance(Address::Derived(MAKER, 2), MINT_X), 50);
    assert!(e.get_offer(MAKER, 2).is_ok());
    assert_eq!(e.get_offer(MAKER, 1), Err(ErrorCode::OfferAlreadyTaken));
}

#[test]
fn full_scenario_maker_and_taker() {
    let mut e = Escrow::new();
    assert!(!e.mint_exists(MINT_X));
    e.register_mint(MINT_X, 0);
    e.register_mint(MINT_Y, 0);
    assert!(e.mint_exists(MINT_X) && e.mint_exists(MINT_Y));
    e.mint_to(MAKER, MINT_X, 100);
    e.mint_to(TAKER, MINT_Y, 50);
    assert_eq!(e.make_offer(MAKER, 1, MINT_X, MINT_Y, 100, 50), Ok(()));
    assert_eq!(e.balance(Address::User(MAKER), MINT_X), 0);
    assert_eq!(e.balance(Address::Derived(MAKER, 1), MINT_X), 100);
    assert_eq!(e.take_offer(TAKER, MAKER, 1), Ok(()));
    assert_eq!(e.balance(Address::User(TAKER), MINT_X), 100);
    assert_eq!(e.balance(Address::User(TAKER), MINT_Y), 0);
    assert_eq!(e.balance(Address::User(MAKER), MINT_Y), 50);
    assert_eq!(e.balance(Address::Derived(MAKER, 1), MINT_X), 0);
    assert_eq!(e.get_offer(MAKER, 1), Err(ErrorCode::OfferAlreadyTaken));
}
