//! The offer registry and lifecycle controller.
//!
//! An [`Escrow`] owns the canonical state of every offer and its paired
//! vault, validates all preconditions, and orchestrates the transfer engine
//! to realize each lifecycle transition.  An offer is created exactly once
//! by [`Escrow::make_offer`] and destroyed exactly once by
//! [`Escrow::take_offer`], [`Escrow::refund_offer`] or
//! [`Escrow::cancel_offer`]; a destroyed offer no longer resolves, so a
//! second settlement attempt fails and never settles twice.  Every
//! operation either performs its full effect or reports an error and leaves
//! the state unchanged.

use vstd::prelude::*;

use crate::error::ErrorCode;
use crate::ledger::Ledger;
use crate::ledger::Mint;
use crate::ledger::account_same_at;
use crate::ledger::accounts_unchanged_except;
use crate::ledger::accounts_unchanged_except4;
use crate::offer::Offer;
use crate::resolver::Address;
use crate::resolver::DerivationProof;
use crate::resolver::derive_address;

verus! {

/// Holds when `o` is the offer created by `maker` under number `id`.
pub open spec fn offer_matches(o: Offer, maker: u64, id: u64) -> bool {
    o.maker == maker && o.id == id
}

/// Holds when no two offers in `s` share a `(maker, id)` pair.
pub open spec fn offers_distinct(s: Seq<Offer>) -> bool {
    forall|i: int, j: int|
        #![trigger s[i], s[j]]
        0 <= i < s.len() && 0 <= j < s.len() && i != j ==> !(s[i].maker == s[j].maker && s[i].id
            == s[j].id)
}

/// Holds when `s` contains the offer of `(maker, id)`.
pub open spec fn offers_contain(s: Seq<Offer>, maker: u64, id: u64) -> bool {
    exists|i: int| 0 <= i < s.len() && offer_matches(#[trigger] s[i], maker, id)
}

/// The offer of `(maker, id)` in `s`.
pub open spec fn offer_lookup(s: Seq<Offer>, maker: u64, id: u64) -> Offer {
    s[choose|i: int| 0 <= i < s.len() && offer_matches(#[trigger] s[i], maker, id)]
}

/// A position holding the searched pair is the position every offer lookup
/// resolves to, as the pairs are distinct.
pub proof fn lemma_offer_at_index(s: Seq<Offer>, maker: u64, id: u64, i: int)
    requires
        offers_distinct(s),
        0 <= i < s.len(),
        offer_matches(s[i], maker, id),
    ensures
        offers_contain(s, maker, id),
        offer_lookup(s, maker, id) == s[i],
{
    assert(offers_contain(s, maker, id));
    let k = choose|k: int| 0 <= k < s.len() && offer_matches(#[trigger] s[k], maker, id);
    assert(0 <= k < s.len() && offer_matches(s[k], maker, id));
    assert(k == i);
}

/// Appending an offer for a pair not yet present leaves every other pair's
/// offer untouched.
pub proof fn lemma_offers_push(s: Seq<Offer>, o: Offer)
    requires
        offers_distinct(s),
        !offers_contain(s, o.maker, o.id),
    ensures
        offers_distinct(s.push(o)),
        offers_contain(s.push(o), o.maker, o.id),
        offer_lookup(s.push(o), o.maker, o.id) == o,
        forall|mk: u64, oid: u64|
            !(mk == o.maker && oid == o.id) ==> (#[trigger] offers_contain(s.push(o), mk, oid))
                == offers_contain(s, mk, oid) && (offers_contain(s, mk, oid) ==> offer_lookup(
                s.push(o),
                mk,
                oid,
            ) == offer_lookup(s, mk, oid)),
{
    let s2 = s.push(o);
    let n = s.len() as int;
    assert forall|p: int, q: int|
        #![trigger s2[p], s2[q]]
        0 <= p < s2.len() && 0 <= q < s2.len() && p != q implies !(s2[p].maker == s2[q].maker
        && s2[p].id == s2[q].id) by {
        if p < n && q < n {
            assert(s2[p] == s[p] && s2[q] == s[q]);
        } else if p < n {
            assert(s2[q] == o && s2[p] == s[p]);
            assert(offer_matches(s[p], s[p].maker, s[p].id));
        } else {
            assert(s2[p] == o && s2[q] == s[q]);
            assert(offer_matches(s[q], s[q].maker, s[q].id));
        }
    }
    assert(offer_matches(s2[n], o.maker, o.id));
    lemma_offer_at_index(s2, o.maker, o.id, n);
    assert forall|mk: u64, oid: u64| !(mk == o.maker && oid == o.id) implies (#[trigger]
    offers_contain(s2, mk, oid)) == offers_contain(s, mk, oid) && (offers_contain(s, mk, oid)
        ==> offer_lookup(s2, mk, oid) == offer_lookup(s, mk, oid)) by {
        if offers_contain(s, mk, oid) {
            let j = choose|j: int| 0 <= j < s.len() && offer_matches(#[trigger] s[j], mk, oid);
            assert(offer_matches(s2[j], mk, oid));
            lemma_offer_at_index(s, mk, oid, j);
            lemma_offer_at_index(s2, mk, oid, j);
        }
        if offers_contain(s2, mk, oid) {
            let j = choose|j: int| 0 <= j < s2.len() && offer_matches(#[trigger] s2[j], mk, oid);
            assert(j != n);
            assert(offer_matches(s[j], mk, oid));
            assert(offers_contain(s, mk, oid));
        }
    }
}

/// Removing one offer erases exactly its own pair and leaves every other
/// pair's offer untouched.
pub proof fn lemma_offers_remove(s: Seq<Offer>, i: int)
    requires
        offers_distinct(s),
        0 <= i < s.len(),
    ensures
        offers_distinct(s.remove(i)),
        !offers_contain(s.remove(i), s[i].maker, s[i].id),
        forall|mk: u64, oid: u64|
            !(mk == s[i].maker && oid == s[i].id) ==> (#[trigger] offers_contain(
                s.remove(i),
                mk,
                oid,
            )) == offers_contain(s, mk, oid) && (offers_contain(s, mk, oid) ==> offer_lookup(
                s.remove(i),
                mk,
                oid,
            ) == offer_lookup(s, mk, oid)),
{
    s.remove_ensures(i);
    let s2 = s.remove(i);
    assert forall|p: int, q: int|
        #![trigger s2[p], s2[q]]
        0 <= p < s2.len() && 0 <= q < s2.len() && p != q implies !(s2[p].maker == s2[q].maker
        && s2[p].id == s2[q].id) by {
        let p0 = if p < i { p } else { p + 1 };
        let q0 = if q < i { q } else { q + 1 };
        assert(s2[p] == s[p0] && s2[q] == s[q0]);
        assert(p0 != q0);
    }
    assert forall|q: int| 0 <= q < s2.len() implies !offer_matches(
        #[trigger] s2[q],
        s[i].maker,
        s[i].id,
    ) by {
        let q0 = if q < i { q } else { q + 1 };
        assert(s2[q] == s[q0]);
        assert(q0 != i);
    }
    assert forall|mk: u64, oid: u64| !(mk == s[i].maker && oid == s[i].id) implies (#[trigger]
    offers_contain(s2, mk, oid)) == offers_contain(s, mk, oid) && (offers_contain(s, mk, oid)
        ==> offer_lookup(s2, mk, oid) == offer_lookup(s, mk, oid)) by {
        if offers_contain(s, mk, oid) {
            let j = choose|j: int| 0 <= j < s.len() && offer_matches(#[trigger] s[j], mk, oid);
            assert(j != i);
            let j2 = if j < i { j } else { j - 1 };
            assert(s2[j2] == s[j]);
            assert(offer_matches(s2[j2], mk, oid));
            lemma_offer_at_index(s, mk, oid, j);
            lemma_offer_at_index(s2, mk, oid, j2);
        }
        if offers_contain(s2, mk, oid) {
            let q = choose|q: int| 0 <= q < s2.len() && offer_matches(#[trigger] s2[q], mk, oid);
            let q0 = if q < i { q } else { q + 1 };
            assert(s2[q] == s[q0]);
            assert(offer_matches(s[q0], mk, oid));
            lemma_offer_at_index(s, mk, oid, q0);
        }
    }
}

/// The whole escrow system: the ledger of holdings and the open offers.
pub struct Escrow {
    ledger: Ledger,
    offers: Vec<Offer>,
}

/// Holds when every offer outside the named `(maker, id)` pair is the same
/// in `post` as in `pre`.
pub open spec fn offers_unchanged_except(pre: Escrow, post: Escrow, maker: u64, id: u64) -> bool {
    forall|mk: u64, oid: u64|
        !(mk == maker && oid == id) ==> (#[trigger] post.has_offer(mk, oid)) == pre.has_offer(
            mk,
            oid,
        ) && (pre.has_offer(mk, oid) ==> post.offer_at(mk, oid) == pre.offer_at(mk, oid))
}

/// Holds when `post` carries exactly the offers, mints and holdings of
/// `pre`: the record set is left exactly as it was.
pub open spec fn same_state(pre: Escrow, post: Escrow) -> bool {
    &&& post.offers_seq() == pre.offers_seq()
    &&& post.ledger_state().mints_seq() == pre.ledger_state().mints_seq()
    &&& post.ledger_state().accounts_seq() == pre.ledger_state().accounts_seq()
}

impl Escrow {
    /// The ledger of holdings.
    pub closed spec fn ledger_state(self) -> Ledger {
        self.ledger
    }

    /// The open offers.
    pub closed spec fn offers_seq(self) -> Seq<Offer> {
        self.offers@
    }

    /// Whether the offer of `(maker, id)` is open.
    pub open spec fn has_offer(self, maker: u64, id: u64) -> bool {
        offers_contain(self.offers_seq(), maker, id)
    }

    /// The open offer of `(maker, id)`.
    pub open spec fn offer_at(self, maker: u64, id: u64) -> Offer {
        offer_lookup(self.offers_seq(), maker, id)
    }

    /// Whether a mint with identifier `id` is registered.
    pub open spec fn has_mint(self, id: u64) -> bool {
        self.ledger_state().has_mint(id)
    }

    /// The balance of the holding of `mint` owned by `owner`; zero when no
    /// such holding exists.
    pub open spec fn balance_of(self, owner: Address, mint: u64) -> u64 {
        self.ledger_state().balance_of(owner, mint)
    }

    /// The balance locked in the vault of the offer of `(maker, id)`.
    pub open spec fn vault_balance(self, maker: u64, id: u64) -> u64 {
        self.balance_of(Address::Derived(maker, id), self.offer_at(maker, id).token_mint_a)
    }

    /// Validity of one open offer: lawful trade terms, registered mints,
    /// and a vault at the derived address holding exactly the offered
    /// amount.
    pub open spec fn offer_valid(self, o: Offer) -> bool {
        &&& o.token_mint_a != o.token_mint_b
        &&& o.token_a_offered_amount >= crate::MIN_TRANSFER_AMOUNT
        &&& o.token_b_wanted_amount >= crate::MIN_TRANSFER_AMOUNT
        &&& o.bump == crate::DERIVATION_NONCE
        &&& self.ledger_state().has_mint(o.token_mint_a)
        &&& self.ledger_state().has_mint(o.token_mint_b)
        &&& self.ledger_state().has_account(Address::Derived(o.maker, o.id), o.token_mint_a)
        &&& self.ledger_state().balance_of(Address::Derived(o.maker, o.id), o.token_mint_a)
            == o.token_a_offered_amount
    }

    /// Well-formedness of the whole system: a well-formed ledger, at most
    /// one open offer per `(maker, id)` pair, every open offer valid, and
    /// no holding owned by a derived authority except the vault of an open
    /// offer — a vault never outlives its offer and never exists without
    /// one.
    pub open spec fn wf(self) -> bool {
        &&& self.ledger_state().wf()
        &&& offers_distinct(self.offers_seq())
        &&& forall|k: int|
            0 <= k < self.offers_seq().len() ==> self.offer_valid(#[trigger] self.offers_seq()[k])
        &&& forall|mk: u64, oid: u64, m: u64|
            #![trigger self.ledger_state().has_account(Address::Derived(mk, oid), m)]
            self.ledger_state().has_account(Address::Derived(mk, oid), m) ==> self.has_offer(
                mk,
                oid,
            ) && m == self.offer_at(mk, oid).token_mint_a
    }

    /// An empty escrow system.
    pub fn new() -> (r: Escrow)
        ensures
            r.wf(),
            r.offers_seq() == Seq::<Offer>::empty(),
            r.ledger_state().mints_seq().len() == 0,
            r.ledger_state().accounts_seq().len() == 0,
    {
        Escrow { ledger: Ledger::new(), offers: Vec::new() }
    }

    /// Position of the offer of `(maker, id)`, if any.
    fn find_offer(&self, maker: u64, id: u64) -> (r: Option<usize>)
        ensures
            match r {
                Some(i) => i < self.offers_seq().len() && offer_matches(
                    self.offers_seq()[i as int],
                    maker,
                    id,
                ),
                None => !self.has_offer(maker, id),
            },
    {
        let mut i: usize = 0;
        while i < self.offers.len()
            invariant
                i <= self.offers@.len(),
                forall|j: int| 0 <= j < i ==> !offer_matches(#[trigger] self.offers@[j], maker, id),
            decreases self.offers@.len() - i,
        {
            if self.offers[i].maker == maker && self.offers[i].id == id {
                return Some(i);
            }
            i = i + 1;
        }
        None
    }

    /// Whether a mint with identifier `id` is registered.
    pub fn mint_exists(&self, id: u64) -> (r: bool)
        ensures
            r == self.has_mint(id),
    {
        self.ledger.mint_exists(id)
    }

    /// The balance of the holding of `mint` owned by `owner`; zero when no
    /// such holding exists.
    pub fn balance(&self, owner: Address, mint: u64) -> (r: u64)
        requires
            self.wf(),
        ensures
            r == self.balance_of(owner, mint),
    {
        self.ledger.balance(owner, mint)
    }

    /// Registers a new asset type with the system's ledger.
    pub fn register_mint(&mut self, id: u64, decimals: u8)
        requires
            old(self).wf(),
            !old(self).has_mint(id),
        ensures
            final(self).wf(),
            final(self).has_mint(id),
            final(self).ledger_state().mint_decimals(id) == decimals,
            final(self).offers_seq() == old(self).offers_seq(),
            final(self).ledger_state().accounts_seq() == old(self).ledger_state().accounts_seq(),
            forall|m: u64| m != id ==> (#[trigger] final(self).has_mint(m)) == old(self).has_mint(m),
    {
        let ghost pre = *self;
        self.ledger.register_mint(id, decimals);
        proof {
            assert forall|k: int| 0 <= k < self.offers_seq().len() implies self.offer_valid(
                #[trigger] self.offers_seq()[k],
            ) by {
                let o = self.offers_seq()[k];
                assert(pre.offer_valid(o));
                assert(self.ledger_state().has_mint(o.token_mint_a));
                assert(self.ledger_state().has_mint(o.token_mint_b));
            }
            assert forall|mk: u64, oid: u64, m: u64|
                #![trigger self.ledger_state().has_account(Address::Derived(mk, oid), m)]
                self.ledger_state().has_account(Address::Derived(mk, oid), m) implies self
                .has_offer(mk, oid) && m == self.offer_at(mk, oid).token_mint_a by {
                assert(pre.ledger_state().has_account(Address::Derived(mk, oid), m));
            }
        }
    }

    /// Creates `amount` of the registered mint `mint` in the holding of the
    /// user `owner`, creating the holding when absent.  This models the
    /// supply side of the environment; only user holdings can be funded
    /// this way — vaults are funded exclusively through `make_offer`.
    pub fn mint_to(&mut self, owner: u64, mint: u64, amount: u64)
        requires
            old(self).wf(),
            old(self).has_mint(mint),
            old(self).balance_of(Address::User(owner), mint) + amount <= u64::MAX,
        ensures
            final(self).wf(),
            final(self).offers_seq() == old(self).offers_seq(),
            final(self).ledger_state().mints_seq() == old(self).ledger_state().mints_seq(),
            final(self).balance_of(Address::User(owner), mint) == old(self).balance_of(
                Address::User(owner),
                mint,
            ) + amount,
            accounts_unchanged_except(
                old(self).ledger_state(),
                final(self).ledger_state(),
                Address::User(owner),
                mint,
                Address::User(owner),
                mint,
            ),
    {
        let ghost pre = *self;
        self.ledger.mint_to(Address::User(owner), mint, amount);
        proof {
            self.lemma_wf_after_user_key_change(pre, Address::User(owner), mint);
            assert forall|o: Address, m: u64|
                !(o == Address::User(owner) && m == mint) && !(o == Address::User(owner) && m
                    == mint) implies #[trigger] account_same_at(
                pre.ledger_state(),
                self.ledger_state(),
                o,
                m,
            ) by {
                assert(self.ledger_state().has_account(o, m) == pre.ledger_state().has_account(
                    o,
                    m,
                ));
                if pre.ledger_state().has_account(o, m) {
                    assert(self.ledger_state().account_view(o, m) == pre.ledger_state()
                        .account_view(o, m));
                }
                assert(account_same_at(pre.ledger_state(), self.ledger_state(), o, m));
            }
        }
    }

    /// A ledger change confined to holdings of user addresses preserves the
    /// escrow invariant: no vault balance moved and no derived-owner
    /// holding appeared, while the offers stood still.
    proof fn lemma_wf_after_user_key_change(self, pre: Escrow, owner: Address, mint: u64)
        requires
            pre.wf(),
            owner is User,
            self.offers_seq() == pre.offers_seq(),
            self.ledger_state().wf(),
            self.ledger_state().mints_seq() == pre.ledger_state().mints_seq(),
            forall|o: Address, m: u64|
                !(o == owner && m == mint) ==> (#[trigger] self.ledger_state().has_account(o, m))
                    == pre.ledger_state().has_account(o, m) && (pre.ledger_state().has_account(
                    o,
                    m,
                ) ==> self.ledger_state().account_view(o, m) == pre.ledger_state().account_view(
                    o,
                    m,
                )),
        ensures
            self.wf(),
    {
        assert forall|k: int| 0 <= k < self.offers_seq().len() implies self.offer_valid(
            #[trigger] self.offers_seq()[k],
        ) by {
            let o = self.offers_seq()[k];
            assert(pre.offer_valid(o));
            let vault = Address::Derived(o.maker, o.id);
            assert(self.ledger_state().has_account(vault, o.token_mint_a) == pre.ledger_state()
                .has_account(vault, o.token_mint_a));
            assert(pre.ledger_state().account_view(vault, o.token_mint_a) == self.ledger_state()
                .account_view(vault, o.token_mint_a));
        }
        assert forall|mk: u64, oid: u64, m: u64|
            #![trigger self.ledger_state().has_account(Address::Derived(mk, oid), m)]
            self.ledger_state().has_account(Address::Derived(mk, oid), m) implies self.has_offer(
            mk,
            oid,
        ) && m == self.offer_at(mk, oid).token_mint_a by {
            assert(pre.ledger_state().has_account(Address::Derived(mk, oid), m));
        }
    }

    /// Reads the full record of the open offer of `(maker, id)`.  No side
    /// effects; a destroyed or never-created offer does not resolve.
    pub fn get_offer(&self, maker: u64, id: u64) -> (r: Result<Offer, ErrorCode>)
        requires
            self.wf(),
        ensures
            self.has_offer(maker, id) ==> r == Ok::<Offer, ErrorCode>(self.offer_at(maker, id)),
            !self.has_offer(maker, id) ==> r == Err::<Offer, ErrorCode>(
                ErrorCode::OfferAlreadyTaken,
            ),
    {
        match self.find_offer(maker, id) {
            Some(i) => {
                proof {
                    lemma_offer_at_index(self.offers_seq(), maker, id, i as int);
                }
                Ok(self.offers[i])
            },
            None => Err(ErrorCode::OfferAlreadyTaken),
        }
    }

    /// Creates a new escrow offer: after validating the trade terms,
    /// locks `token_a_offered_amount` of `token_mint_a` from the maker's
    /// holding into a fresh vault at the derived address and records the
    /// offer.  Rejections, in the order they are checked: identical mints,
    /// an amount below the minimum, an open offer already at `(maker, id)`,
    /// and a maker holding short of the offered amount.  Every rejection
    /// leaves the state exactly as it was.
    pub fn make_offer(
        &mut self,
        maker: u64,
        id: u64,
        token_mint_a: u64,
        token_mint_b: u64,
        token_a_offered_amount: u64,
        token_b_wanted_amount: u64,
    ) -> (r: Result<(), ErrorCode>)
        requires
            old(self).wf(),
            old(self).has_mint(token_mint_a),
            old(self).has_mint(token_mint_b),
        ensures
            final(self).wf(),
            token_mint_a == token_mint_b ==> r == Err::<(), ErrorCode>(ErrorCode::InvalidTokenMint)
                && same_state(*old(self), *final(self)),
            token_mint_a != token_mint_b && (token_a_offered_amount < crate::MIN_TRANSFER_AMOUNT
                || token_b_wanted_amount < crate::MIN_TRANSFER_AMOUNT) ==> r == Err::<
                (),
                ErrorCode,
            >(ErrorCode::InvalidAmount) && same_state(*old(self), *final(self)),
            token_mint_a != token_mint_b && token_a_offered_amount >= crate::MIN_TRANSFER_AMOUNT
                && token_b_wanted_amount >= crate::MIN_TRANSFER_AMOUNT && old(self).has_offer(
                maker,
                id,
            ) ==> r == Err::<(), ErrorCode>(ErrorCode::OfferAlreadyExists) && same_state(
                *old(self),
                *final(self),
            ),
            token_mint_a != token_mint_b && token_a_offered_amount >= crate::MIN_TRANSFER_AMOUNT
                && token_b_wanted_amount >= crate::MIN_TRANSFER_AMOUNT && !old(self).has_offer(
                maker,
                id,
            ) && old(self).balance_of(Address::User(maker), token_mint_a)
                < token_a_offered_amount ==> r == Err::<(), ErrorCode>(
                ErrorCode::InsufficientMakerBalance,
            ) && same_state(*old(self), *final(self)),
            token_mint_a != token_mint_b && token_a_offered_amount >= crate::MIN_TRANSFER_AMOUNT
                && token_b_wanted_amount >= crate::MIN_TRANSFER_AMOUNT && !old(self).has_offer(
                maker,
                id,
            ) && old(self).balance_of(Address::User(maker), token_mint_a)
                >= token_a_offered_amount ==> r == Ok::<(), ErrorCode>(())
                && final(self).has_offer(maker, id) && final(self).offer_at(maker, id) == (Offer {
                id,
                maker,
                token_mint_a,
                token_mint_b,
                token_a_offered_amount,
                token_b_wanted_amount,
                bump: crate::DERIVATION_NONCE,
            }) && final(self).balance_of(Address::User(maker), token_mint_a) == old(
                self,
            ).balance_of(Address::User(maker), token_mint_a) - token_a_offered_amount
                && final(self).balance_of(Address::Derived(maker, id), token_mint_a)
                == token_a_offered_amount
                && offers_unchanged_except(*old(self), *final(self), maker, id)
                && accounts_unchanged_except(
                old(self).ledger_state(),
                final(self).ledger_state(),
                Address::User(maker),
                token_mint_a,
                Address::Derived(maker, id),
                token_mint_a,
            ) && final(self).ledger_state().mints_seq() == old(self).ledger_state().mints_seq(),
    {
        let ghost pre = *self;
        if token_mint_a == token_mint_b {
            return Err(ErrorCode::InvalidTokenMint);
        }
        if token_a_offered_amount < crate::MIN_TRANSFER_AMOUNT {
            return Err(ErrorCode::InvalidAmount);
        }
        if token_b_wanted_amount < crate::MIN_TRANSFER_AMOUNT {
            return Err(ErrorCode::InvalidAmount);
        }
        match self.find_offer(maker, id) {
            Some(i) => {
                proof {
                    lemma_offer_at_index(self.offers_seq(), maker, id, i as int);
                }
                return Err(ErrorCode::OfferAlreadyExists);
            },
            None => {},
        }
        let maker_addr = Address::User(maker);
        if self.ledger.balance(maker_addr, token_mint_a) < token_a_offered_amount {
            return Err(ErrorCode::InsufficientMakerBalance);
        }
        let decs = self.ledger.decimals_of(token_mint_a);
        let mint_a = Mint { id: token_mint_a, decimals: decs };
        let (vault_authority, bump) = derive_address(maker, id);
        proof {
            assert(!pre.ledger_state().has_account(Address::Derived(maker, id), token_mint_a));
            pre.ledger_state().lemma_account_coherent(maker_addr, token_mint_a);
        }
        let moved = self.ledger.transfer_tokens(
            maker_addr,
            vault_authority,
            token_a_offered_amount,
            mint_a,
            maker_addr,
            None,
        );
        match moved {
            Ok(_) => {},
            Err(_) => {
                return vstd::pervasive::unreached();
            },
        }
        let created = Offer {
            id,
            maker,
            token_mint_a,
            token_mint_b,
            token_a_offered_amount,
            token_b_wanted_amount,
            bump,
        };
        self.offers.push(created);
        proof {
            lemma_offers_push(pre.offers_seq(), created);
            assert forall|k: int| 0 <= k < self.offers_seq().len() implies self.offer_valid(
                #[trigger] self.offers_seq()[k],
            ) by {
                let o = self.offers_seq()[k];
                if k < pre.offers_seq().len() {
                    assert(o == pre.offers_seq()[k]);
                    assert(pre.offer_valid(o));
                    if o.maker == maker && o.id == id {
                        assert(offer_matches(pre.offers_seq()[k], maker, id));
                        assert(false);
                    }
                    let vault = Address::Derived(o.maker, o.id);
                    assert(vault != Address::Derived(maker, id));
                    assert(account_same_at(
                        pre.ledger_state(),
                        self.ledger_state(),
                        vault,
                        o.token_mint_a,
                    ));
                } else {
                    assert(o == created);
                    assert(self.ledger_state().balance_of(
                        Address::Derived(maker, id),
                        token_mint_a,
                    ) == token_a_offered_amount);
                }
            }
            assert forall|mk: u64, oid: u64, m: u64|
                #![trigger self.ledger_state().has_account(Address::Derived(mk, oid), m)]
                self.ledger_state().has_account(Address::Derived(mk, oid), m) implies self
                .has_offer(mk, oid) && m == self.offer_at(mk, oid).token_mint_a by {
                if mk == maker && oid == id && m == token_mint_a {
                    assert(self.has_offer(maker, id));
                } else if mk == maker && oid == id {
                    assert(account_same_at(
                        pre.ledger_state(),
                        self.ledger_state(),
                        Address::Derived(mk, oid),
                        m,
                    ));
                    assert(pre.ledger_state().has_account(Address::Derived(mk, oid), m));
                    assert(false);
                } else {
                    assert(account_same_at(
                        pre.ledger_state(),
                        self.ledger_state(),
                        Address::Derived(mk, oid),
                        m,
                    ));
                    assert(pre.ledger_state().has_account(Address::Derived(mk, oid), m));
                }
            }
        }
        Ok(())
    }

    /// After a settlement that removed the offer of `(maker, id)` from the
    /// registry and its vault from the ledger while touching no other
    /// derived-owner holding, the escrow invariant holds again.
    proof fn lemma_wf_after_settlement(
        pre: Escrow,
        post: Escrow,
        maker: u64,
        id: u64,
        idx: int,
        mint_a: u64,
        o1: Address,
        m1: u64,
        o2: Address,
        m2: u64,
        o3: Address,
        m3: u64,
    )
        requires
            pre.wf(),
            0 <= idx < pre.offers_seq().len(),
            offer_matches(pre.offers_seq()[idx], maker, id),
            mint_a == pre.offers_seq()[idx].token_mint_a,
            post.offers_seq() == pre.offers_seq().remove(idx),
            post.ledger_state().wf(),
            post.ledger_state().mints_seq() == pre.ledger_state().mints_seq(),
            !post.ledger_state().has_account(Address::Derived(maker, id), mint_a),
            o1 is User,
            o2 is User,
            o3 is User,
            accounts_unchanged_except4(
                pre.ledger_state(),
                post.ledger_state(),
                o1,
                m1,
                o2,
                m2,
                o3,
                m3,
                Address::Derived(maker, id),
                mint_a,
            ),
        ensures
            post.wf(),
            !post.has_offer(maker, id),
            offers_unchanged_except(pre, post, maker, id),
    {
        lemma_offer_at_index(pre.offers_seq(), maker, id, idx);
        lemma_offers_remove(pre.offers_seq(), idx);
        assert forall|mk: u64, oid: u64, m: u64|
            #![trigger post.ledger_state().has_account(Address::Derived(mk, oid), m)]
            !(mk == maker && oid == id && m == mint_a) implies post.ledger_state().has_account(
            Address::Derived(mk, oid),
            m,
        ) == pre.ledger_state().has_account(Address::Derived(mk, oid), m) && (pre.ledger_state()
            .has_account(Address::Derived(mk, oid), m) ==> post.ledger_state().account_view(
            Address::Derived(mk, oid),
            m,
        ) == pre.ledger_state().account_view(Address::Derived(mk, oid), m)) by {
            let key = Address::Derived(mk, oid);
            assert(key != o1 && key != o2 && key != o3);
            assert(!(key == Address::Derived(maker, id) && m == mint_a));
            assert(account_same_at(pre.ledger_state(), post.ledger_state(), key, m));
        }
        assert forall|k: int| 0 <= k < post.offers_seq().len() implies post.offer_valid(
            #[trigger] post.offers_seq()[k],
        ) by {
            let o = post.offers_seq()[k];
            lemma_offer_at_index(post.offers_seq(), o.maker, o.id, k);
            assert(!(o.maker == maker && o.id == id));
            assert(pre.has_offer(o.maker, o.id));
            assert(pre.offer_at(o.maker, o.id) == o);
            let j = choose|j: int|
                0 <= j < pre.offers_seq().len() && offer_matches(
                    #[trigger] pre.offers_seq()[j],
                    o.maker,
                    o.id,
                );
            lemma_offer_at_index(pre.offers_seq(), o.maker, o.id, j);
            assert(pre.offer_valid(pre.offers_seq()[j]));
            assert(account_same_at(
                pre.ledger_state(),
                post.ledger_state(),
                Address::Derived(o.maker, o.id),
                o.token_mint_a,
            ));
        }
        assert forall|mk: u64, oid: u64, m: u64|
            #![trigger post.ledger_state().has_account(Address::Derived(mk, oid), m)]
            post.ledger_state().has_account(Address::Derived(mk, oid), m) implies post.has_offer(
            mk,
            oid,
        ) && m == post.offer_at(mk, oid).token_mint_a by {
            if mk == maker && oid == id && m == mint_a {
                assert(false);
            } else {
                assert(pre.ledger_state().has_account(Address::Derived(mk, oid), m));
                assert(pre.has_offer(mk, oid) && m == pre.offer_at(mk, oid).token_mint_a);
                if mk == maker && oid == id {
                    assert(pre.offer_at(maker, id) == pre.offers_seq()[idx]);
                    assert(false);
                }
                assert(post.has_offer(mk, oid) && post.offer_at(mk, oid) == pre.offer_at(mk, oid));
            }
        }
    }

    /// Completes the trade of the open offer of `(maker, id)`: the wanted
    /// amount of asset B moves from the taker to the maker, the full vault
    /// balance of asset A moves to the taker, and the offer and its vault
    /// are destroyed — all as one atomic unit.  A taker short of the wanted
    /// amount is rejected with `InsufficientTakerBalance`; an offer that no
    /// longer resolves reports `OfferAlreadyTaken`.  Every rejection leaves
    /// the state exactly as it was.
    #[verifier::rlimit(60)]
    #[verifier::spinoff_prover]
    pub fn take_offer(&mut self, taker: u64, maker: u64, id: u64) -> (r: Result<(), ErrorCode>)
        requires
            old(self).wf(),
            old(self).has_offer(maker, id) && taker != maker ==> old(self).balance_of(
                Address::User(maker),
                old(self).offer_at(maker, id).token_mint_b,
            ) + old(self).offer_at(maker, id).token_b_wanted_amount <= u64::MAX,
            old(self).has_offer(maker, id) ==> old(self).balance_of(
                Address::User(taker),
                old(self).offer_at(maker, id).token_mint_a,
            ) + old(self).offer_at(maker, id).token_a_offered_amount <= u64::MAX,
        ensures
            final(self).wf(),
            !old(self).has_offer(maker, id) ==> r == Err::<(), ErrorCode>(
                ErrorCode::OfferAlreadyTaken,
            ) && same_state(*old(self), *final(self)),
            old(self).has_offer(maker, id) && old(self).balance_of(
                Address::User(taker),
                old(self).offer_at(maker, id).token_mint_b,
            ) < old(self).offer_at(maker, id).token_b_wanted_amount ==> r == Err::<(), ErrorCode>(
                ErrorCode::InsufficientTakerBalance,
            ) && same_state(*old(self), *final(self)),
            old(self).has_offer(maker, id) && old(self).balance_of(
                Address::User(taker),
                old(self).offer_at(maker, id).token_mint_b,
            ) >= old(self).offer_at(maker, id).token_b_wanted_amount ==> r == Ok::<(), ErrorCode>(
                (),
            ) && !final(self).has_offer(maker, id) && !final(self).ledger_state().has_account(
                Address::Derived(maker, id),
                old(self).offer_at(maker, id).token_mint_a,
            ) && offers_unchanged_except(*old(self), *final(self), maker, id)
                && final(self).ledger_state().mints_seq() == old(self).ledger_state().mints_seq(),
            old(self).has_offer(maker, id) && old(self).balance_of(
                Address::User(taker),
                old(self).offer_at(maker, id).token_mint_b,
            ) >= old(self).offer_at(maker, id).token_b_wanted_amount ==> final(self).balance_of(
                Address::User(taker),
                old(self).offer_at(maker, id).token_mint_a,
            ) == old(self).balance_of(
                Address::User(taker),
                old(self).offer_at(maker, id).token_mint_a,
            ) + old(self).offer_at(maker, id).token_a_offered_amount,
            old(self).has_offer(maker, id) && old(self).balance_of(
                Address::User(taker),
                old(self).offer_at(maker, id).token_mint_b,
            ) >= old(self).offer_at(maker, id).token_b_wanted_amount && taker != maker ==> final(self).balance_of(Address::User(taker), old(self).offer_at(maker, id).token_mint_b) == old(
                self,
            ).balance_of(Address::User(taker), old(self).offer_at(maker, id).token_mint_b) - old(
                self,
            ).offer_at(maker, id).token_b_wanted_amount && final(self).balance_of(
                Address::User(maker),
                old(self).offer_at(maker, id).token_mint_b,
            ) == old(self).balance_of(
                Address::User(maker),
                old(self).offer_at(maker, id).token_mint_b,
            ) + old(self).offer_at(maker, id).token_b_wanted_amount,
            old(self).has_offer(maker, id) && old(self).balance_of(
                Address::User(taker),
                old(self).offer_at(maker, id).token_mint_b,
            ) >= old(self).offer_at(maker, id).token_b_wanted_amount && taker == maker ==> final(self).balance_of(Address::User(taker), old(self).offer_at(maker, id).token_mint_b) == old(
                self,
            ).balance_of(Address::User(taker), old(self).offer_at(maker, id).token_mint_b),
            old(self).has_offer(maker, id) && old(self).balance_of(
                Address::User(taker),
                old(self).offer_at(maker, id).token_mint_b,
            ) >= old(self).offer_at(maker, id).token_b_wanted_amount
                ==> accounts_unchanged_except4(
                old(self).ledger_state(),
                final(self).ledger_state(),
                Address::User(taker),
                old(self).offer_at(maker, id).token_mint_b,
                Address::User(maker),
                old(self).offer_at(maker, id).token_mint_b,
                Address::User(taker),
                old(self).offer_at(maker, id).token_mint_a,
                Address::Derived(maker, id),
                old(self).offer_at(maker, id).token_mint_a,
            ),
    {
        let ghost pre = *self;
        let idx = match self.find_offer(maker, id) {
            Some(i) => i,
            None => {
                return Err(ErrorCode::OfferAlreadyTaken);
            },
        };
        proof {
            lemma_offer_at_index(pre.offers_seq(), maker, id, idx as int);
            assert(pre.offer_valid(pre.offers_seq()[idx as int]));
        }
        let offer = self.offers[idx];
        let (vault_authority, _nonce) = derive_address(maker, id);
        let vault_bal = self.ledger.balance(vault_authority, offer.token_mint_a);
        if vault_bal == 0 {
            return Err(ErrorCode::EmptyVault);
        }
        let taker_b = self.ledger.balance(Address::User(taker), offer.token_mint_b);
        if taker_b < offer.token_b_wanted_amount {
            return Err(ErrorCode::InsufficientTakerBalance);
        }
        let decs_b = self.ledger.decimals_of(offer.token_mint_b);
        let mint_b = Mint { id: offer.token_mint_b, decimals: decs_b };
        let decs_a = self.ledger.decimals_of(offer.token_mint_a);
        let mint_a = Mint { id: offer.token_mint_a, decimals: decs_a };
        let signer = DerivationProof { maker, id, nonce: offer.bump };
        proof {
            pre.ledger_state().lemma_account_coherent(Address::User(taker), offer.token_mint_b);
            if pre.ledger_state().has_account(Address::User(maker), offer.token_mint_b) {
                pre.ledger_state().lemma_account_coherent(Address::User(maker), offer.token_mint_b);
            }
        }
        let moved_b = self.ledger.transfer_tokens(
            Address::User(taker),
            Address::User(maker),
            offer.token_b_wanted_amount,
            mint_b,
            Address::User(taker),
            None,
        );
        match moved_b {
            Ok(_) => {},
            Err(_) => {
                return vstd::pervasive::unreached();
            },
        }
        let ghost mid1 = *self;
        proof {
            let l0 = pre.ledger_state();
            let l1 = mid1.ledger_state();
            if taker != maker {
                assert(account_same_at(l0, l1, vault_authority, offer.token_mint_a));
                assert(account_same_at(l0, l1, Address::User(taker), offer.token_mint_a));
            }
            l1.lemma_account_coherent(vault_authority, offer.token_mint_a);
            if l1.has_account(Address::User(taker), offer.token_mint_a) {
                l1.lemma_account_coherent(Address::User(taker), offer.token_mint_a);
            }
        }
        let moved_a = self.ledger.transfer_tokens(
            vault_authority,
            Address::User(taker),
            vault_bal,
            mint_a,
            vault_authority,
            Some(signer),
        );
        match moved_a {
            Ok(_) => {},
            Err(_) => {
                return vstd::pervasive::unreached();
            },
        }
        let ghost mid2 = *self;
        let closed = self.ledger.close_token_account(
            vault_authority,
            offer.token_mint_a,
            Address::User(maker),
            vault_authority,
            Some(signer),
        );
        match closed {
            Ok(_) => {},
            Err(_) => {
                return vstd::pervasive::unreached();
            },
        }
        let _removed = self.offers.remove(idx);
        proof {
            let l0 = pre.ledger_state();
            let l1 = mid1.ledger_state();
            let l2 = mid2.ledger_state();
            let l3 = self.ledger_state();
            let ut = Address::User(taker);
            let um = Address::User(maker);
            let ma = offer.token_mint_a;
            let mb = offer.token_mint_b;
            if taker != maker {
                crate::ledger::lemma_frame_widen(
                    l0, l1, ut, mb, um, mb, ut, mb, um, mb, ut, ma, vault_authority, ma,
                );
            } else {
                crate::ledger::lemma_frame_refl(
                    l0, l1, ut, mb, um, mb, ut, ma, vault_authority, ma,
                );
            }
            crate::ledger::lemma_frame_widen(
                l1, l2, vault_authority, ma, ut, ma, ut, mb, um, mb, ut, ma, vault_authority, ma,
            );
            crate::ledger::lemma_frame_widen(
                l2,
                l3,
                vault_authority,
                ma,
                vault_authority,
                ma,
                ut,
                mb,
                um,
                mb,
                ut,
                ma,
                vault_authority,
                ma,
            );
            crate::ledger::lemma_frame_trans(
                l0, l1, l2, ut, mb, um, mb, ut, ma, vault_authority, ma,
            );
            crate::ledger::lemma_frame_trans(
                l0, l2, l3, ut, mb, um, mb, ut, ma, vault_authority, ma,
            );
            assert(account_same_at(l2, l3, ut, ma));
            assert(l3.balance_of(ut, ma) == l2.balance_of(ut, ma));
            if taker != maker {
                assert(l1.balance_of(ut, ma) == l0.balance_of(ut, ma));
            }
            assert(account_same_at(l1, l2, ut, mb));
            assert(account_same_at(l2, l3, ut, mb));
            assert(l3.balance_of(ut, mb) == l1.balance_of(ut, mb));
            assert(account_same_at(l1, l2, um, mb));
            assert(account_same_at(l2, l3, um, mb));
            assert(l3.balance_of(um, mb) == l1.balance_of(um, mb));
            Self::lemma_wf_after_settlement(
                pre,
                *self,
                maker,
                id,
                idx as int,
                offer.token_mint_a,
                ut,
                mb,
                um,
                mb,
                ut,
                ma,
            );
        }
        Ok(())
    }

    /// Returns the locked amount to the maker and destroys the offer and
    /// its vault.  Only the maker recorded on the offer may reclaim; an
    /// offer that no longer resolves reports `OfferAlreadyTaken`.  Every
    /// rejection leaves the state exactly as it was.
    pub fn refund_offer(&mut self, caller: u64, maker: u64, id: u64) -> (r: Result<(), ErrorCode>)
        requires
            old(self).wf(),
            old(self).has_offer(maker, id) && caller == maker ==> old(self).balance_of(
                Address::User(maker),
                old(self).offer_at(maker, id).token_mint_a,
            ) + old(self).offer_at(maker, id).token_a_offered_amount <= u64::MAX,
        ensures
            final(self).wf(),
            !old(self).has_offer(maker, id) ==> r == Err::<(), ErrorCode>(
                ErrorCode::OfferAlreadyTaken,
            ) && same_state(*old(self), *final(self)),
            old(self).has_offer(maker, id) && caller != maker ==> r == Err::<(), ErrorCode>(
                ErrorCode::UnauthorizedRefund,
            ) && same_state(*old(self), *final(self)),
            old(self).has_offer(maker, id) && caller == maker ==> r == Ok::<(), ErrorCode>(())
                && !final(self).has_offer(maker, id) && !final(self).ledger_state().has_account(
                Address::Derived(maker, id),
                old(self).offer_at(maker, id).token_mint_a,
            ) && offers_unchanged_except(*old(self), *final(self), maker, id)
                && final(self).ledger_state().mints_seq() == old(self).ledger_state().mints_seq(),
            old(self).has_offer(maker, id) && caller == maker ==> final(self).balance_of(
                Address::User(maker),
                old(self).offer_at(maker, id).token_mint_a,
            ) == old(self).balance_of(
                Address::User(maker),
                old(self).offer_at(maker, id).token_mint_a,
            ) + old(self).offer_at(maker, id).token_a_offered_amount,
            old(self).has_offer(maker, id) && caller == maker ==> accounts_unchanged_except(
                old(self).ledger_state(),
                final(self).ledger_state(),
                Address::Derived(maker, id),
                old(self).offer_at(maker, id).token_mint_a,
                Address::User(maker),
                old(self).offer_at(maker, id).token_mint_a,
            ),
    {
        let ghost pre = *self;
        let idx = match self.find_offer(maker, id) {
            Some(i) => i,
            None => {
                return Err(ErrorCode::OfferAlreadyTaken);
            },
        };
        proof {
            lemma_offer_at_index(pre.offers_seq(), maker, id, idx as int);
            assert(pre.offer_valid(pre.offers_seq()[idx as int]));
        }
        let offer = self.offers[idx];
        if caller != offer.maker {
            return Err(ErrorCode::UnauthorizedRefund);
        }
        let (vault_authority, _nonce) = derive_address(maker, id);
        let vault_bal = self.ledger.balance(vault_authority, offer.token_mint_a);
        if vault_bal == 0 {
            return Err(ErrorCode::EmptyVault);
        }
        let decs = self.ledger.decimals_of(offer.token_mint_a);
        let mint_a = Mint { id: offer.token_mint_a, decimals: decs };
        let signer = DerivationProof { maker, id, nonce: offer.bump };
        proof {
            pre.ledger_state().lemma_account_coherent(vault_authority, offer.token_mint_a);
            if pre.ledger_state().has_account(Address::User(maker), offer.token_mint_a) {
                pre.ledger_state().lemma_account_coherent(Address::User(maker), offer.token_mint_a);
            }
        }
        let moved = self.ledger.transfer_tokens(
            vault_authority,
            Address::User(maker),
            vault_bal,
            mint_a,
            vault_authority,
            Some(signer),
        );
        match moved {
            Ok(_) => {},
            Err(_) => {
                return vstd::pervasive::unreached();
            },
        }
        let ghost mid = *self;
        let closed = self.ledger.close_token_account(
            vault_authority,
            offer.token_mint_a,
            Address::User(maker),
            vault_authority,
            Some(signer),
        );
        match closed {
            Ok(_) => {},
            Err(_) => {
                return vstd::pervasive::unreached();
            },
        }
        let _removed = self.offers.remove(idx);
        proof {
            let l0 = pre.ledger_state();
            let l1 = mid.ledger_state();
            let l2 = self.ledger_state();
            let u = Address::User(maker);
            let ma = offer.token_mint_a;
            crate::ledger::lemma_frame_widen(
                l0, l1, vault_authority, ma, u, ma, u, ma, u, ma, u, ma, vault_authority, ma,
            );
            crate::ledger::lemma_frame_widen(
                l1,
                l2,
                vault_authority,
                ma,
                vault_authority,
                ma,
                u,
                ma,
                u,
                ma,
                u,
                ma,
                vault_authority,
                ma,
            );
            crate::ledger::lemma_frame_trans(
                l0, l1, l2, u, ma, u, ma, u, ma, vault_authority, ma,
            );
            crate::ledger::lemma_frame_narrow(
                l0, l2, u, ma, u, ma, u, ma, vault_authority, ma, vault_authority, ma, u, ma,
            );
            Self::lemma_wf_after_settlement(
                pre,
                *self,
                maker,
                id,
                idx as int,
                offer.token_mint_a,
                u,
                ma,
                u,
                ma,
                u,
                ma,
            );
            assert(account_same_at(l1, l2, u, ma));
            assert(l2.balance_of(u, ma) == l1.balance_of(u, ma));
        }
        Ok(())
    }

    /// Cancels an escrow offer: the same operation as
    /// [`Escrow::refund_offer`] under another name — the locked amount
    /// returns to the maker and the offer and its vault are destroyed.
    pub fn cancel_offer(&mut self, caller: u64, maker: u64, id: u64) -> (r: Result<(), ErrorCode>)
        requires
            old(self).wf(),
            old(self).has_offer(maker, id) && caller == maker ==> old(self).balance_of(
                Address::User(maker),
                old(self).offer_at(maker, id).token_mint_a,
            ) + old(self).offer_at(maker, id).token_a_offered_amount <= u64::MAX,
        ensures
            final(self).wf(),
            !old(self).has_offer(maker, id) ==> r == Err::<(), ErrorCode>(
                ErrorCode::OfferAlreadyTaken,
            ) && same_state(*old(self), *final(self)),
            old(self).has_offer(maker, id) && caller != maker ==> r == Err::<(), ErrorCode>(
                ErrorCode::UnauthorizedRefund,
            ) && same_state(*old(self), *final(self)),
            old(self).has_offer(maker, id) && caller == maker ==> r == Ok::<(), ErrorCode>(())
                && !final(self).has_offer(maker, id) && !final(self).ledger_state().has_account(
                Address::Derived(maker, id),
                old(self).offer_at(maker, id).token_mint_a,
            ) && offers_unchanged_except(*old(self), *final(self), maker, id)
                && final(self).ledger_state().mints_seq() == old(self).ledger_state().mints_seq(),
            old(self).has_offer(maker, id) && caller == maker ==> final(self).balance_of(
                Address::User(maker),
                old(self).offer_at(maker, id).token_mint_a,
            ) == old(self).balance_of(
                Address::User(maker),
                old(self).offer_at(maker, id).token_mint_a,
            ) + old(self).offer_at(maker, id).token_a_offered_amount,
            old(self).has_offer(maker, id) && caller == maker ==> accounts_unchanged_except(
                old(self).ledger_state(),
                final(self).ledger_state(),
                Address::Derived(maker, id),
                old(self).offer_at(maker, id).token_mint_a,
                Address::User(maker),
                old(self).offer_at(maker, id).token_mint_a,
            ),
    {
        self.refund_offer(caller, maker, id)
    }

    /// Law: while an offer is open, its vault holds exactly the offered
    /// amount, the amount is at least the minimum transfer amount, and the
    /// record carries the pair it resolves under along with lawful trade
    /// terms.
    pub proof fn lemma_open_offer_vault_funded(self, maker: u64, id: u64)
        requires
            self.wf(),
            self.has_offer(maker, id),
        ensures
            self.offer_at(maker, id).maker == maker,
            self.offer_at(maker, id).id == id,
            self.offer_valid(self.offer_at(maker, id)),
            self.ledger_state().has_account(
                Address::Derived(maker, id),
                self.offer_at(maker, id).token_mint_a,
            ),
            self.vault_balance(maker, id) == self.offer_at(maker, id).token_a_offered_amount,
            self.vault_balance(maker, id) >= crate::MIN_TRANSFER_AMOUNT,
    {
        let j = choose|j: int|
            0 <= j < self.offers_seq().len() && offer_matches(
                #[trigger] self.offers_seq()[j],
                maker,
                id,
            );
        lemma_offer_at_index(self.offers_seq(), maker, id, j);
        assert(self.offer_valid(self.offers_seq()[j]));
    }
}

} // verus!
