use escrow::Address;
use escrow::DerivationProof;
use escrow::ErrorCode;
use escrow::Ledger;
use escrow::Mint;
use escrow::resolver::derive_address;

#[test]
fn transfer_moves_value_between_users() {
    let mut l = Ledger::new();
    assert!(!l.mint_exists(5));
    l.register_mint(5, 2);
    assert!(l.mint_exists(5));
    l.mint_to(Address::User(1), 5, 80);
    let r = l.transfer_tokens(
        Address::User(1),
        Address::User(2),
        30,
        Mint { id: 5, decimals: 2 },
        Address::User(1),
        None,
    );
    assert_eq!(r, Ok(()));
    assert_eq!(l.balance(Address::User(1), 5), 50);
    assert_eq!(l.balance(Address::User(2), 5), 30);
}

#[test]
fn transfer_with_wrong_declared_decimals_rejected() {
    let mut l = Ledger::new();
    l.register_mint(5, 2);
    l.mint_to(Address::User(1), 5, 80);
    let r = l.transfer_tokens(
        Address::User(1),
        Address::User(2),
        30,
        Mint { id: 5, decimals: 9 },
        Address::User(1),
        None,
    );
    assert_eq!(r, Err(ErrorCode::InvalidTokenDecimals));
    assert_eq!(l.balance(Address::User(1), 5), 80);
    assert_eq!(l.balance(Address::User(2), 5), 0);
}

#[test]
fn transfer_from_derived_owner_under_proof() {
    let mut l = Ledger::new();
    l.register_mint(5, 2);
    let (vault, nonce) = derive_address(7, 3);
    l.mint_to(Address::User(1), 5, 10);
    let funded = l.transfer_tokens(
        Address::User(1),
        vault,
        10,
        Mint { id: 5, decimals: 2 },
        Address::User(1),
        None,
    );
    assert_eq!(funded, Ok(()));
    let drained = l.transfer_tokens(
        vault,
        Address::User(2),
        10,
        Mint { id: 5, decimals: 2 },
        vault,
        Some(DerivationProof { maker: 7, id: 3, nonce }),
    );
    assert_eq!(drained, Ok(()));
    assert_eq!(l.balance(vault, 5), 0);
    assert_eq!(l.balance(Address::User(2), 5), 10);
}

#[test]
fn close_removes_drained_account() {
    let mut l = Ledger::new();
    l.register_mint(5, 2);
    l.mint_to(Address::User(1), 5, 10);
    let moved = l.transfer_tokens(
        Address::User(1),
        Address::User(2),
        10,
        Mint { id: 5, decimals: 2 },
        Address::User(1),
        None,
    );
    assert_eq!(moved, Ok(()));
    assert!(l.account_exists(Address::User(1), 5));
    let closed = l.close_token_account(Address::User(1), 5, Address::User(1), Address::User(1), None);
    assert_eq!(closed, Ok(()));
    assert!(!l.account_exists(Address::User(1), 5));
    assert_eq!(l.balance(Address::User(1), 5), 0);
}

#[test]
fn derive_address_is_deterministic_and_collision_free() {
    let a = derive_address(7, 3);
    let b = derive_address(7, 3);
    assert_eq!(a, b);
    assert_ne!(derive_address(7, 3).0, derive_address(7, 4).0);
    assert_ne!(derive_address(8, 3).0, derive_address(7, 3).0);
    assert_ne!(derive_address(7, 3).0, Address::User(7));
}
