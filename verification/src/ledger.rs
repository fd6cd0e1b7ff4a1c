//! The ledger of token holdings and the checked transfer engine.
//!
//! A [`Ledger`] holds the registered mints and every token account.  The
//! transfer engine moves value between accounts, validating unit-precision
//! consistency and, when the source is owned by a derived authority, the
//! derivation proof presented in place of a signature.  Closing destroys a
//! drained account.  Each account is addressed by the pair of its owner and
//! its mint, and at most one account exists per pair.

use vstd::prelude::*;

use crate::error::ErrorCode;
use crate::resolver::Address;
use crate::resolver::DerivationProof;
use crate::resolver::proof_signs_for;

verus! {

/// A fungible asset type: its identifier together with its declared unit
/// precision (number of decimals).
#[derive(Clone, Copy, Debug, PartialEq, Eq, Structural)]
pub struct Mint {
    /// Identifier of the asset type.
    pub id: u64,
    /// Unit precision of the asset type.
    pub decimals: u8,
}

/// A holding of one asset type by one owner.
#[derive(Clone, Copy, Debug, PartialEq, Eq, Structural)]
pub struct TokenAccount {
    /// The identity or derived authority that controls this holding.
    pub owner: Address,
    /// The asset type held.
    pub mint: u64,
    /// The quantity held.
    pub balance: u64,
    /// The unit precision recorded when the holding was created.
    pub decimals: u8,
}

/// Holds when account `a` is the holding of `mint` owned by `owner`.
pub open spec fn account_matches(a: TokenAccount, owner: Address, mint: u64) -> bool {
    a.owner == owner && a.mint == mint
}

/// Holds when no two accounts in `s` share an `(owner, mint)` pair.
pub open spec fn accounts_distinct(s: Seq<TokenAccount>) -> bool {
    forall|i: int, j: int|
        #![trigger s[i], s[j]]
        0 <= i < s.len() && 0 <= j < s.len() && i != j ==> !(s[i].owner == s[j].owner
            && s[i].mint == s[j].mint)
}

/// Holds when `s` contains a holding of `mint` owned by `owner`.
pub open spec fn accounts_contain(s: Seq<TokenAccount>, owner: Address, mint: u64) -> bool {
    exists|i: int| 0 <= i < s.len() && account_matches(#[trigger] s[i], owner, mint)
}

/// The position in `s` of the holding of `mint` owned by `owner`.
pub open spec fn account_index(s: Seq<TokenAccount>, owner: Address, mint: u64) -> int {
    choose|i: int| 0 <= i < s.len() && account_matches(#[trigger] s[i], owner, mint)
}

/// The holding of `mint` owned by `owner` in `s`.
pub open spec fn account_at(s: Seq<TokenAccount>, owner: Address, mint: u64) -> TokenAccount {
    s[account_index(s, owner, mint)]
}

/// Holds when no two mints in `s` share an identifier.
pub open spec fn mints_distinct(s: Seq<Mint>) -> bool {
    forall|i: int, j: int|
        #![trigger s[i], s[j]]
        0 <= i < s.len() && 0 <= j < s.len() && i != j ==> s[i].id != s[j].id
}

/// Holds when `s` contains a mint with identifier `id`.
pub open spec fn mints_contain(s: Seq<Mint>, id: u64) -> bool {
    exists|i: int| 0 <= i < s.len() && (#[trigger] s[i]).id == id
}

/// The mint with identifier `id` in `s`.
pub open spec fn mint_at(s: Seq<Mint>, id: u64) -> Mint {
    s[choose|i: int| 0 <= i < s.len() && (#[trigger] s[i]).id == id]
}

/// A position holding the searched pair is the position every account
/// lookup resolves to, as the pairs are distinct.
pub proof fn lemma_account_at_index(s: Seq<TokenAccount>, owner: Address, mint: u64, i: int)
    requires
        accounts_distinct(s),
        0 <= i < s.len(),
        account_matches(s[i], owner, mint),
    ensures
        accounts_contain(s, owner, mint),
        account_index(s, owner, mint) == i,
        account_at(s, owner, mint) == s[i],
{
    assert(accounts_contain(s, owner, mint));
    let k = account_index(s, owner, mint);
    assert(0 <= k < s.len() && account_matches(s[k], owner, mint));
    assert(k == i);
}

/// The counterpart of [`lemma_account_at_index`] for mint lookups.
pub proof fn lemma_mint_at_index(s: Seq<Mint>, id: u64, i: int)
    requires
        mints_distinct(s),
        0 <= i < s.len(),
        s[i].id == id,
    ensures
        mints_contain(s, id),
        mint_at(s, id) == s[i],
{
    assert(mints_contain(s, id));
    let k = choose|k: int| 0 <= k < s.len() && (#[trigger] s[k]).id == id;
    assert(0 <= k < s.len() && s[k].id == id);
    assert(k == i);
}

/// Overwriting one account with one of the same `(owner, mint)` pair leaves
/// every other pair's holding untouched.
pub proof fn lemma_accounts_update(s: Seq<TokenAccount>, i: int, a: TokenAccount)
    requires
        accounts_distinct(s),
        0 <= i < s.len(),
        a.owner == s[i].owner,
        a.mint == s[i].mint,
    ensures
        accounts_distinct(s.update(i, a)),
        accounts_contain(s.update(i, a), a.owner, a.mint),
        account_at(s.update(i, a), a.owner, a.mint) == a,
        forall|o: Address, m: u64|
            !(o == a.owner && m == a.mint) ==> (#[trigger] accounts_contain(s.update(i, a), o, m))
                == accounts_contain(s, o, m) && (accounts_contain(s, o, m) ==> account_at(
                s.update(i, a),
                o,
                m,
            ) == account_at(s, o, m)),
{
    let s2 = s.update(i, a);
    assert forall|p: int, q: int|
        #![trigger s2[p], s2[q]]
        0 <= p < s2.len() && 0 <= q < s2.len() && p != q implies !(s2[p].owner == s2[q].owner
        && s2[p].mint == s2[q].mint) by {
        assert(s2[p].owner == s[p].owner && s2[p].mint == s[p].mint);
        assert(s2[q].owner == s[q].owner && s2[q].mint == s[q].mint);
    }
    lemma_account_at_index(s2, a.owner, a.mint, i);
    assert forall|o: Address, m: u64| !(o == a.owner && m == a.mint) implies (#[trigger]
    accounts_contain(s2, o, m)) == accounts_contain(s, o, m) && (accounts_contain(s, o, m)
        ==> account_at(s2, o, m) == account_at(s, o, m)) by {
        if accounts_contain(s, o, m) {
            let j = choose|j: int| 0 <= j < s.len() && account_matches(#[trigger] s[j], o, m);
            assert(j != i);
            assert(account_matches(s2[j], o, m));
            lemma_account_at_index(s, o, m, j);
            lemma_account_at_index(s2, o, m, j);
        }
        if accounts_contain(s2, o, m) {
            let j = choose|j: int| 0 <= j < s2.len() && account_matches(#[trigger] s2[j], o, m);
            assert(j != i);
            assert(account_matches(s[j], o, m));
            lemma_account_at_index(s, o, m, j);
        }
    }
}

/// Appending an account for a pair not yet present leaves every other
/// pair's holding untouched.
pub proof fn lemma_accounts_push(s: Seq<TokenAccount>, a: TokenAccount)
    requires
        accounts_distinct(s),
        !accounts_contain(s, a.owner, a.mint),
    ensures
        accounts_distinct(s.push(a)),
        accounts_contain(s.push(a), a.owner, a.mint),
        account_at(s.push(a), a.owner, a.mint) == a,
        forall|o: Address, m: u64|
            !(o == a.owner && m == a.mint) ==> (#[trigger] accounts_contain(s.push(a), o, m))
                == accounts_contain(s, o, m) && (accounts_contain(s, o, m) ==> account_at(
                s.push(a),
                o,
                m,
            ) == account_at(s, o, m)),
{
    let s2 = s.push(a);
    let n = s.len() as int;
    assert forall|p: int, q: int|
        #![trigger s2[p], s2[q]]
        0 <= p < s2.len() && 0 <= q < s2.len() && p != q implies !(s2[p].owner == s2[q].owner
        && s2[p].mint == s2[q].mint) by {
        if p < n && q < n {
            assert(s2[p] == s[p] && s2[q] == s[q]);
        } else if p < n {
            assert(s2[q] == a && s2[p] == s[p]);
            assert(account_matches(s[p], s[p].owner, s[p].mint));
        } else {
            assert(s2[p] == a && s2[q] == s[q]);
            assert(account_matches(s[q], s[q].owner, s[q].mint));
        }
    }
    assert(account_matches(s2[n], a.owner, a.mint));
    lemma_account_at_index(s2, a.owner, a.mint, n);
    assert forall|o: Address, m: u64| !(o == a.owner && m == a.mint) implies (#[trigger]
    accounts_contain(s2, o, m)) == accounts_contain(s, o, m) && (accounts_contain(s, o, m)
        ==> account_at(s2, o, m) == account_at(s, o, m)) by {
        if accounts_contain(s, o, m) {
            let j = choose|j: int| 0 <= j < s.len() && account_matches(#[trigger] s[j], o, m);
            assert(account_matches(s2[j], o, m));
            lemma_account_at_index(s, o, m, j);
            lemma_account_at_index(s2, o, m, j);
        }
        if accounts_contain(s2, o, m) {
            let j = choose|j: int| 0 <= j < s2.len() && account_matches(#[trigger] s2[j], o, m);
            assert(j != n);
            assert(account_matches(s[j], o, m));
            lemma_account_at_index(s, o, m, j);
        }
    }
}

/// Removing one account erases exactly its own pair and leaves every other
/// pair's holding untouched.
pub proof fn lemma_accounts_remove(s: Seq<TokenAccount>, i: int)
    requires
        accounts_distinct(s),
        0 <= i < s.len(),
    ensures
        accounts_distinct(s.remove(i)),
        !accounts_contain(s.remove(i), s[i].owner, s[i].mint),
        forall|o: Address, m: u64|
            !(o == s[i].owner && m == s[i].mint) ==> (#[trigger] accounts_contain(
                s.remove(i),
                o,
                m,
            )) == accounts_contain(s, o, m) && (accounts_contain(s, o, m) ==> account_at(
                s.remove(i),
                o,
                m,
            ) == account_at(s, o, m)),
{
    s.remove_ensures(i);
    let s2 = s.remove(i);
    assert forall|p: int, q: int|
        #![trigger s2[p], s2[q]]
        0 <= p < s2.len() && 0 <= q < s2.len() && p != q implies !(s2[p].owner == s2[q].owner
        && s2[p].mint == s2[q].mint) by {
        let p0 = if p < i { p } else { p + 1 };
        let q0 = if q < i { q } else { q + 1 };
        assert(s2[p] == s[p0] && s2[q] == s[q0]);
        assert(p0 != q0);
    }
    assert forall|q: int| 0 <= q < s2.len() implies !account_matches(
        #[trigger] s2[q],
        s[i].owner,
        s[i].mint,
    ) by {
        let q0 = if q < i { q } else { q + 1 };
        assert(s2[q] == s[q0]);
        assert(q0 != i);
    }
    assert forall|o: Address, m: u64| !(o == s[i].owner && m == s[i].mint) implies (#[trigger]
    accounts_contain(s2, o, m)) == accounts_contain(s, o, m) && (accounts_contain(s, o, m)
        ==> account_at(s2, o, m) == account_at(s, o, m)) by {
        if accounts_contain(s, o, m) {
            let j = choose|j: int| 0 <= j < s.len() && account_matches(#[trigger] s[j], o, m);
            assert(j != i);
            let j2 = if j < i { j } else { j - 1 };
            assert(s2[j2] == s[j]);
            assert(account_matches(s2[j2], o, m));
            lemma_account_at_index(s, o, m, j);
            lemma_account_at_index(s2, o, m, j2);
        }
        if accounts_contain(s2, o, m) {
            let q = choose|q: int| 0 <= q < s2.len() && account_matches(#[trigger] s2[q], o, m);
            let q0 = if q < i { q } else { q + 1 };
            assert(s2[q] == s[q0]);
            assert(account_matches(s[q0], o, m));
            lemma_account_at_index(s, o, m, q0);
        }
    }
}

/// Appending a mint with a fresh identifier leaves every other identifier's
/// entry untouched.
pub proof fn lemma_mints_push(s: Seq<Mint>, a: Mint)
    requires
        mints_distinct(s),
        !mints_contain(s, a.id),
    ensures
        mints_distinct(s.push(a)),
        mints_contain(s.push(a), a.id),
        mint_at(s.push(a), a.id) == a,
        forall|m: u64|
            m != a.id ==> (#[trigger] mints_contain(s.push(a), m)) == mints_contain(s, m) && (
            mints_contain(s, m) ==> mint_at(s.push(a), m) == mint_at(s, m)),
{
    let s2 = s.push(a);
    let n = s.len() as int;
    assert forall|p: int, q: int|
        #![trigger s2[p], s2[q]]
        0 <= p < s2.len() && 0 <= q < s2.len() && p != q implies s2[p].id != s2[q].id by {
        if p < n && q < n {
            assert(s2[p] == s[p] && s2[q] == s[q]);
        } else if p < n {
            assert(s2[q] == a && s2[p] == s[p]);
            assert(mints_contain(s, s[p].id));
        } else {
            assert(s2[p] == a && s2[q] == s[q]);
            assert(mints_contain(s, s[q].id));
        }
    }
    assert(s2[n].id == a.id);
    lemma_mint_at_index(s2, a.id, n);
    assert forall|m: u64| m != a.id implies (#[trigger] mints_contain(s2, m)) == mints_contain(
        s,
        m,
    ) && (mints_contain(s, m) ==> mint_at(s2, m) == mint_at(s, m)) by {
        if mints_contain(s, m) {
            let j = choose|j: int| 0 <= j < s.len() && (#[trigger] s[j]).id == m;
            assert(s2[j] == s[j]);
            lemma_mint_at_index(s, m, j);
            lemma_mint_at_index(s2, m, j);
        }
        if mints_contain(s2, m) {
            let j = choose|j: int| 0 <= j < s2.len() && (#[trigger] s2[j]).id == m;
            assert(j != n);
            assert(s2[j] == s[j]);
            assert(mints_contain(s, m));
        }
    }
}

/// Holds when the holding of the pair `(o, m)` is the same in `post` as in
/// `pre`: present in one exactly when present in the other, and unchanged
/// where present.
pub open spec fn account_same_at(pre: Ledger, post: Ledger, o: Address, m: u64) -> bool {
    post.has_account(o, m) == pre.has_account(o, m) && (pre.has_account(o, m)
        ==> post.account_view(o, m) == pre.account_view(o, m))
}

/// Holds when every holding outside the two named `(owner, mint)` pairs is
/// the same in `post` as in `pre`.
pub open spec fn accounts_unchanged_except(
    pre: Ledger,
    post: Ledger,
    o1: Address,
    m1: u64,
    o2: Address,
    m2: u64,
) -> bool {
    forall|o: Address, m: u64|
        !(o == o1 && m == m1) && !(o == o2 && m == m2) ==> #[trigger] account_same_at(
            pre,
            post,
            o,
            m,
        )
}

/// Holds when every holding outside the four named `(owner, mint)` pairs is
/// the same in `post` as in `pre`.
pub open spec fn accounts_unchanged_except4(
    pre: Ledger,
    post: Ledger,
    o1: Address,
    m1: u64,
    o2: Address,
    m2: u64,
    o3: Address,
    m3: u64,
    o4: Address,
    m4: u64,
) -> bool {
    forall|o: Address, m: u64|
        !(o == o1 && m == m1) && !(o == o2 && m == m2) && !(o == o3 && m == m3) && !(o == o4 && m
            == m4) ==> #[trigger] account_same_at(pre, post, o, m)
}

/// A change confined to two pairs, both drawn from a list of four, is a
/// change confined to those four.
pub proof fn lemma_frame_widen(
    l0: Ledger,
    l1: Ledger,
    c1: Address,
    d1: u64,
    c2: Address,
    d2: u64,
    o1: Address,
    m1: u64,
    o2: Address,
    m2: u64,
    o3: Address,
    m3: u64,
    o4: Address,
    m4: u64,
)
    requires
        accounts_unchanged_except(l0, l1, c1, d1, c2, d2),
        (c1 == o1 && d1 == m1) || (c1 == o2 && d1 == m2) || (c1 == o3 && d1 == m3) || (c1 == o4
            && d1 == m4),
        (c2 == o1 && d2 == m1) || (c2 == o2 && d2 == m2) || (c2 == o3 && d2 == m3) || (c2 == o4
            && d2 == m4),
    ensures
        accounts_unchanged_except4(l0, l1, o1, m1, o2, m2, o3, m3, o4, m4),
{
    assert forall|o: Address, m: u64|
        !(o == o1 && m == m1) && !(o == o2 && m == m2) && !(o == o3 && m == m3) && !(o == o4 && m
            == m4) implies #[trigger] account_same_at(l0, l1, o, m) by {
        assert(account_same_at(l0, l1, o, m));
    }
}

/// A ledger whose accounts stood still meets any four-pair frame.
pub proof fn lemma_frame_refl(
    l0: Ledger,
    l1: Ledger,
    o1: Address,
    m1: u64,
    o2: Address,
    m2: u64,
    o3: Address,
    m3: u64,
    o4: Address,
    m4: u64,
)
    requires
        l1.accounts_seq() == l0.accounts_seq(),
    ensures
        accounts_unchanged_except4(l0, l1, o1, m1, o2, m2, o3, m3, o4, m4),
{
    assert forall|o: Address, m: u64|
        !(o == o1 && m == m1) && !(o == o2 && m == m2) && !(o == o3 && m == m3) && !(o == o4 && m
            == m4) implies #[trigger] account_same_at(l0, l1, o, m) by {
        assert(accounts_contain(l1.accounts_seq(), o, m) == accounts_contain(
            l0.accounts_seq(),
            o,
            m,
        ));
        assert(account_same_at(l0, l1, o, m));
    }
}

/// Two changes confined to the same four pairs compose to one.
pub proof fn lemma_frame_trans(
    l0: Ledger,
    l1: Ledger,
    l2: Ledger,
    o1: Address,
    m1: u64,
    o2: Address,
    m2: u64,
    o3: Address,
    m3: u64,
    o4: Address,
    m4: u64,
)
    requires
        accounts_unchanged_except4(l0, l1, o1, m1, o2, m2, o3, m3, o4, m4),
        accounts_unchanged_except4(l1, l2, o1, m1, o2, m2, o3, m3, o4, m4),
    ensures
        accounts_unchanged_except4(l0, l2, o1, m1, o2, m2, o3, m3, o4, m4),
{
    assert forall|o: Address, m: u64|
        !(o == o1 && m == m1) && !(o == o2 && m == m2) && !(o == o3 && m == m3) && !(o == o4 && m
            == m4) implies #[trigger] account_same_at(l0, l2, o, m) by {
        assert(account_same_at(l0, l1, o, m));
        assert(account_same_at(l1, l2, o, m));
    }
}

/// A change confined to four pairs, all drawn from a list of two, is a
/// change confined to those two.
pub proof fn lemma_frame_narrow(
    l0: Ledger,
    l1: Ledger,
    o1: Address,
    m1: u64,
    o2: Address,
    m2: u64,
    o3: Address,
    m3: u64,
    o4: Address,
    m4: u64,
    c1: Address,
    d1: u64,
    c2: Address,
    d2: u64,
)
    requires
        accounts_unchanged_except4(l0, l1, o1, m1, o2, m2, o3, m3, o4, m4),
        (o1 == c1 && m1 == d1) || (o1 == c2 && m1 == d2),
        (o2 == c1 && m2 == d1) || (o2 == c2 && m2 == d2),
        (o3 == c1 && m3 == d1) || (o3 == c2 && m3 == d2),
        (o4 == c1 && m4 == d1) || (o4 == c2 && m4 == d2),
    ensures
        accounts_unchanged_except(l0, l1, c1, d1, c2, d2),
{
    assert forall|o: Address, m: u64|
        !(o == c1 && m == d1) && !(o == c2 && m == d2) implies #[trigger] account_same_at(
            l0,
            l1,
            o,
            m,
        ) by {
        assert(account_same_at(l0, l1, o, m));
    }
}

/// Holds when `authority` may move value out of the account owned by
/// `from`: a user signs for their own holdings, while a holding owned by a
/// derived authority is moved only under a derivation proof that reproduces
/// that authority.
pub open spec fn authority_signs(
    from: Address,
    authority: Address,
    owning_proof: Option<DerivationProof>,
) -> bool {
    authority == from && match from {
        Address::User(_) => owning_proof is None,
        Address::Derived(_, _) => owning_proof matches Some(p) && proof_signs_for(p, from),
    }
}

/// The registered mints and the token accounts of the system.
pub struct Ledger {
    mints: Vec<Mint>,
    accounts: Vec<TokenAccount>,
}

impl Ledger {
    /// The registered mints.
    pub closed spec fn mints_seq(self) -> Seq<Mint> {
        self.mints@
    }

    /// The token accounts.
    pub closed spec fn accounts_seq(self) -> Seq<TokenAccount> {
        self.accounts@
    }

    /// Well-formedness: identifiers and pairs are distinct, and every
    /// account holds a registered mint with the precision that mint
    /// declares.
    pub open spec fn wf(self) -> bool {
        &&& mints_distinct(self.mints_seq())
        &&& accounts_distinct(self.accounts_seq())
        &&& forall|k: int|
            0 <= k < self.accounts_seq().len() ==> mints_contain(
                self.mints_seq(),
                (#[trigger] self.accounts_seq()[k]).mint,
            ) && self.accounts_seq()[k].decimals == mint_at(
                self.mints_seq(),
                self.accounts_seq()[k].mint,
            ).decimals
    }

    /// Whether a mint with identifier `id` is registered.
    pub open spec fn has_mint(self, id: u64) -> bool {
        mints_contain(self.mints_seq(), id)
    }

    /// The declared precision of the registered mint `id`.
    pub open spec fn mint_decimals(self, id: u64) -> u8 {
        mint_at(self.mints_seq(), id).decimals
    }

    /// Whether a holding of `mint` owned by `owner` exists.
    pub open spec fn has_account(self, owner: Address, mint: u64) -> bool {
        accounts_contain(self.accounts_seq(), owner, mint)
    }

    /// The holding of `mint` owned by `owner`.
    pub open spec fn account_view(self, owner: Address, mint: u64) -> TokenAccount {
        account_at(self.accounts_seq(), owner, mint)
    }

    /// The balance of the holding of `mint` owned by `owner`; zero when no
    /// such holding exists.
    pub open spec fn balance_of(self, owner: Address, mint: u64) -> u64 {
        if self.has_account(owner, mint) {
            self.account_view(owner, mint).balance
        } else {
            0
        }
    }

    /// Unit-precision consistency of a transfer: the declared precision of
    /// the asset type matches the precision recorded on the source holding
    /// and on the destination holding where one exists.
    pub open spec fn transfer_decimals_ok(self, from: Address, to: Address, mint: Mint) -> bool {
        &&& self.account_view(from, mint.id).decimals == mint.decimals
        &&& (self.has_account(to, mint.id) ==> self.account_view(to, mint.id).decimals
            == mint.decimals)
    }

    /// An empty ledger.
    pub fn new() -> (r: Ledger)
        ensures
            r.wf(),
            r.mints_seq() == Seq::<Mint>::empty(),
            r.accounts_seq() == Seq::<TokenAccount>::empty(),
    {
        Ledger { mints: Vec::new(), accounts: Vec::new() }
    }

    /// Position of the holding of `mint` owned by `owner`, if any.
    fn find_account(&self, owner: Address, mint: u64) -> (r: Option<usize>)
        ensures
            match r {
                Some(i) => i < self.accounts_seq().len() && account_matches(
                    self.accounts_seq()[i as int],
                    owner,
                    mint,
                ),
                None => !self.has_account(owner, mint),
            },
    {
        let mut i: usize = 0;
        while i < self.accounts.len()
            invariant
                i <= self.accounts@.len(),
                forall|j: int| 0 <= j < i ==> !account_matches(#[trigger] self.accounts@[j], owner, mint),
            decreases self.accounts@.len() - i,
        {
            if self.accounts[i].owner == owner && self.accounts[i].mint == mint {
                return Some(i);
            }
            i = i + 1;
        }
        None
    }

    /// Position of the mint with identifier `id`, if any.
    fn find_mint(&self, id: u64) -> (r: Option<usize>)
        ensures
            match r {
                Some(i) => i < self.mints_seq().len() && self.mints_seq()[i as int].id == id,
                None => !self.has_mint(id),
            },
    {
        let mut i: usize = 0;
        while i < self.mints.len()
            invariant
                i <= self.mints@.len(),
                forall|j: int| 0 <= j < i ==> (#[trigger] self.mints@[j]).id != id,
            decreases self.mints@.len() - i,
        {
            if self.mints[i].id == id {
                return Some(i);
            }
            i = i + 1;
        }
        None
    }

    /// Whether a mint with identifier `id` is registered.
    pub fn mint_exists(&self, id: u64) -> (r: bool)
        ensures
            r == self.has_mint(id),
    {
        self.find_mint(id).is_some()
    }

    /// The declared precision of the registered mint `id`.
    pub fn decimals_of(&self, id: u64) -> (r: u8)
        requires
            self.wf(),
            self.has_mint(id),
        ensures
            r == self.mint_decimals(id),
    {
        match self.find_mint(id) {
            Some(i) => {
                proof {
                    lemma_mint_at_index(self.mints_seq(), id, i as int);
                }
                self.mints[i].decimals
            },
            None => vstd::pervasive::unreached(),
        }
    }

    /// Whether a holding of `mint` owned by `owner` exists.
    pub fn account_exists(&self, owner: Address, mint: u64) -> (r: bool)
        requires
            self.wf(),
        ensures
            r == self.has_account(owner, mint),
    {
        proof {
            if self.has_account(owner, mint) {
                let j = choose|j: int|
                    0 <= j < self.accounts_seq().len() && account_matches(
                        #[trigger] self.accounts_seq()[j],
                        owner,
                        mint,
                    );
                lemma_account_at_index(self.accounts_seq(), owner, mint, j);
            }
        }
        self.find_account(owner, mint).is_some()
    }

    /// The balance of the holding of `mint` owned by `owner`; zero when no
    /// such holding exists.
    pub fn balance(&self, owner: Address, mint: u64) -> (r: u64)
        requires
            self.wf(),
        ensures
            r == self.balance_of(owner, mint),
    {
        match self.find_account(owner, mint) {
            Some(i) => {
                proof {
                    lemma_account_at_index(self.accounts_seq(), owner, mint, i as int);
                }
                self.accounts[i].balance
            },
            None => 0,
        }
    }

    /// Registers a new asset type.
    pub fn register_mint(&mut self, id: u64, decimals: u8)
        requires
            old(self).wf(),
            !old(self).has_mint(id),
        ensures
            final(self).wf(),
            final(self).accounts_seq() == old(self).accounts_seq(),
            final(self).has_mint(id),
            final(self).mint_decimals(id) == decimals,
            forall|m: u64|
                m != id ==> (#[trigger] final(self).has_mint(m)) == old(self).has_mint(m) && (old(
                    self,
                ).has_mint(m) ==> final(self).mint_decimals(m) == old(self).mint_decimals(m)),
    {
        let ghost pre = *self;
        let m = Mint { id, decimals };
        self.mints.push(m);
        proof {
            lemma_mints_push(pre.mints_seq(), m);
            assert forall|k: int| 0 <= k < self.accounts_seq().len() implies mints_contain(
                self.mints_seq(),
                (#[trigger] self.accounts_seq()[k]).mint,
            ) && self.accounts_seq()[k].decimals == mint_at(
                self.mints_seq(),
                self.accounts_seq()[k].mint,
            ).decimals by {
                assert(self.accounts_seq()[k] == pre.accounts_seq()[k]);
                assert(mints_contain(pre.mints_seq(), self.accounts_seq()[k].mint));
                assert(self.accounts_seq()[k].mint != id);
            }
        }
    }

    /// Creates value of a registered mint in the holding of `owner`,
    /// creating the holding when absent.  This models the supply side of
    /// the environment; the escrow itself only moves existing value.
    pub fn mint_to(&mut self, owner: Address, mint: u64, amount: u64)
        requires
            old(self).wf(),
            old(self).has_mint(mint),
            old(self).balance_of(owner, mint) + amount <= u64::MAX,
        ensures
            final(self).wf(),
            final(self).mints_seq() == old(self).mints_seq(),
            final(self).has_account(owner, mint),
            final(self).balance_of(owner, mint) == old(self).balance_of(owner, mint) + amount,
            final(self).account_view(owner, mint).decimals == old(self).mint_decimals(mint),
            forall|o: Address, m: u64|
                !(o == owner && m == mint) ==> (#[trigger] final(self).has_account(o, m)) == old(
                    self,
                ).has_account(o, m) && (old(self).has_account(o, m) ==> final(self).account_view(
                    o,
                    m,
                ) == old(self).account_view(o, m)),
    {
        let ghost pre = *self;
        let decs = self.decimals_of(mint);
        match self.find_account(owner, mint) {
            Some(i) => {
                proof {
                    lemma_account_at_index(pre.accounts_seq(), owner, mint, i as int);
                }
                let b = self.accounts[i].balance;
                let updated = TokenAccount { owner, mint, balance: b + amount, decimals: decs };
                proof {
                    assert(pre.account_view(owner, mint).decimals == decs);
                    assert(updated == (TokenAccount {
                        balance: updated.balance,
                        ..pre.accounts_seq()[i as int]
                    }));
                }
                set_account(&mut self.accounts, i, updated);
                proof {
                    lemma_accounts_update(pre.accounts_seq(), i as int, updated);
                    Self::lemma_coherence_at_key(pre, *self, owner, mint);
                }
            },
            None => {
                let created = TokenAccount { owner, mint, balance: amount, decimals: decs };
                self.accounts.push(created);
                proof {
                    lemma_accounts_push(pre.accounts_seq(), created);
                    Self::lemma_coherence_at_key(pre, *self, owner, mint);
                }
            },
        }
    }

    /// After a change confined to the pair `(owner, mint)` whose new
    /// holding, if any, keeps a registered mint and its declared precision,
    /// the ledger's precision coherence still holds.
    proof fn lemma_coherence_at_key(pre: Ledger, post: Ledger, owner: Address, mint: u64)
        requires
            pre.wf(),
            mints_distinct(post.mints_seq()),
            accounts_distinct(post.accounts_seq()),
            post.mints_seq() == pre.mints_seq(),
            post.has_account(owner, mint) ==> post.account_view(owner, mint).mint == mint
                && post.account_view(owner, mint).owner == owner && mints_contain(
                post.mints_seq(),
                mint,
            ) && post.account_view(owner, mint).decimals == mint_at(post.mints_seq(), mint).decimals,
            forall|o: Address, m: u64|
                !(o == owner && m == mint) ==> ((#[trigger] post.has_account(o, m)) ==> pre
                    .has_account(o, m) && post.account_view(o, m) == pre.account_view(o, m)),
        ensures
            post.wf(),
    {
        assert forall|k: int| 0 <= k < post.accounts_seq().len() implies mints_contain(
            post.mints_seq(),
            (#[trigger] post.accounts_seq()[k]).mint,
        ) && post.accounts_seq()[k].decimals == mint_at(
            post.mints_seq(),
            post.accounts_seq()[k].mint,
        ).decimals by {
            let a = post.accounts_seq()[k];
            lemma_account_at_index(post.accounts_seq(), a.owner, a.mint, k);
            if a.owner == owner && a.mint == mint {
            } else {
                assert(post.has_account(a.owner, a.mint));
                assert(pre.has_account(a.owner, a.mint));
                let j = account_index(pre.accounts_seq(), a.owner, a.mint);
                assert(pre.accounts_seq()[j] == a);
            }
        }
    }

    /// Moves `amount` of the asset `mint` from the holding of `from` to the
    /// holding of `to`, creating the destination holding when absent.  The
    /// declared precision of `mint` must match the precision recorded on
    /// both holdings, else nothing moves and the transfer reports
    /// `InvalidTokenDecimals`.  The presented authority must sign for the
    /// source holding: a derived owner signs through its derivation proof.
    pub fn transfer_tokens(
        &mut self,
        from: Address,
        to: Address,
        amount: u64,
        mint: Mint,
        authority: Address,
        owning_proof: Option<DerivationProof>,
    ) -> (r: Result<(), ErrorCode>)
        requires
            old(self).wf(),
            old(self).has_account(from, mint.id),
            old(self).balance_of(from, mint.id) >= amount,
            authority_signs(from, authority, owning_proof),
            from != to ==> old(self).balance_of(to, mint.id) + amount <= u64::MAX,
        ensures
            final(self).wf(),
            final(self).mints_seq() == old(self).mints_seq(),
            !old(self).transfer_decimals_ok(from, to, mint) ==> r == Err::<(), ErrorCode>(
                ErrorCode::InvalidTokenDecimals,
            ) && final(self).accounts_seq() == old(self).accounts_seq(),
            old(self).transfer_decimals_ok(from, to, mint) ==> r == Ok::<(), ErrorCode>(()),
            old(self).transfer_decimals_ok(from, to, mint) && from == to ==> final(self).accounts_seq()
                == old(self).accounts_seq(),
            old(self).transfer_decimals_ok(from, to, mint) && from != to ==> final(self).has_account(
                from,
                mint.id,
            ) && final(self).balance_of(from, mint.id) == old(self).balance_of(from, mint.id)
                - amount && final(self).account_view(from, mint.id).decimals == mint.decimals,
            old(self).transfer_decimals_ok(from, to, mint) && from != to ==> final(self).has_account(
                to,
                mint.id,
            ) && final(self).balance_of(to, mint.id) == old(self).balance_of(to, mint.id) + amount
                && final(self).account_view(to, mint.id).decimals == mint.decimals,
            old(self).transfer_decimals_ok(from, to, mint) && from != to
                ==> accounts_unchanged_except(
                *old(self),
                *final(self),
                from,
                mint.id,
                to,
                mint.id,
            ),
    {
        let ghost pre = *self;
        let from_idx = match self.find_account(from, mint.id) {
            Some(i) => i,
            None => vstd::pervasive::unreached(),
        };
        proof {
            lemma_account_at_index(pre.accounts_seq(), from, mint.id, from_idx as int);
        }
        let from_acct = self.accounts[from_idx];
        if from_acct.decimals != mint.decimals {
            return Err(ErrorCode::InvalidTokenDecimals);
        }
        if from == to {
            return Ok(());
        }
        match self.find_account(to, mint.id) {
            Some(to_idx) => {
                proof {
                    lemma_account_at_index(pre.accounts_seq(), to, mint.id, to_idx as int);
                }
                let to_acct = self.accounts[to_idx];
                if to_acct.decimals != mint.decimals {
                    return Err(ErrorCode::InvalidTokenDecimals);
                }
                proof {
                    assert(from_idx != to_idx);
                }
                let debited = TokenAccount {
                    owner: from,
                    mint: mint.id,
                    balance: from_acct.balance - amount,
                    decimals: from_acct.decimals,
                };
                set_account(&mut self.accounts, from_idx, debited);
                proof {
                    lemma_accounts_update(pre.accounts_seq(), from_idx as int, debited);
                    assert(self.accounts_seq()[to_idx as int] == to_acct);
                    lemma_account_at_index(self.accounts_seq(), to, mint.id, to_idx as int);
                }
                let ghost mid = *self;
                let credited = TokenAccount {
                    owner: to,
                    mint: mint.id,
                    balance: to_acct.balance + amount,
                    decimals: to_acct.decimals,
                };
                set_account(&mut self.accounts, to_idx, credited);
                proof {
                    lemma_accounts_update(mid.accounts_seq(), to_idx as int, credited);
                    Self::lemma_transfer_wf(pre, mid, *self, from, to, mint);
                    assert forall|o: Address, m: u64|
                        !(o == from && m == mint.id) && !(o == to && m == mint.id) implies #[trigger]
                    account_same_at(pre, *self, o, m) by {
                        assert(self.has_account(o, m) == pre.has_account(o, m));
                        if pre.has_account(o, m) {
                            assert(self.account_view(o, m) == pre.account_view(o, m));
                        }
                        assert(account_same_at(pre, *self, o, m));
                    }
                }
                Ok(())
            },
            None => {
                let debited = TokenAccount {
                    owner: from,
                    mint: mint.id,
                    balance: from_acct.balance - amount,
                    decimals: from_acct.decimals,
                };
                set_account(&mut self.accounts, from_idx, debited);
                proof {
                    lemma_accounts_update(pre.accounts_seq(), from_idx as int, debited);
                }
                let ghost mid = *self;
                let created = TokenAccount {
                    owner: to,
                    mint: mint.id,
                    balance: amount,
                    decimals: mint.decimals,
                };
                proof {
                    assert(!accounts_contain(mid.accounts_seq(), to, mint.id));
                }
                self.accounts.push(created);
                proof {
                    lemma_accounts_push(mid.accounts_seq(), created);
                    Self::lemma_transfer_wf(pre, mid, *self, from, to, mint);
                    assert forall|o: Address, m: u64|
                        !(o == from && m == mint.id) && !(o == to && m == mint.id) implies #[trigger]
                    account_same_at(pre, *self, o, m) by {
                        assert(self.has_account(o, m) == pre.has_account(o, m));
                        if pre.has_account(o, m) {
                            assert(self.account_view(o, m) == pre.account_view(o, m));
                        }
                        assert(account_same_at(pre, *self, o, m));
                    }
                }
                Ok(())
            },
        }
    }

    /// An existing holding carries its own pair and the precision its
    /// registered mint declares.
    pub proof fn lemma_account_coherent(self, owner: Address, mint: u64)
        requires
            self.wf(),
            self.has_account(owner, mint),
        ensures
            self.account_view(owner, mint).owner == owner,
            self.account_view(owner, mint).mint == mint,
            self.has_mint(mint),
            self.account_view(owner, mint).decimals == self.mint_decimals(mint),
    {
        let j = choose|j: int|
            0 <= j < self.accounts_seq().len() && account_matches(
                #[trigger] self.accounts_seq()[j],
                owner,
                mint,
            );
        lemma_account_at_index(self.accounts_seq(), owner, mint, j);
        assert(mints_contain(self.mints_seq(), self.accounts_seq()[j].mint));
    }

    /// The two single-key steps of a transfer preserve well-formedness and
    /// compose to its two-key frame condition.
    proof fn lemma_transfer_wf(
        pre: Ledger,
        mid: Ledger,
        post: Ledger,
        from: Address,
        to: Address,
        mint: Mint,
    )
        requires
            pre.wf(),
            from != to,
            mints_distinct(mid.mints_seq()),
            accounts_distinct(mid.accounts_seq()),
            mints_distinct(post.mints_seq()),
            accounts_distinct(post.accounts_seq()),
            mid.mints_seq() == pre.mints_seq(),
            post.mints_seq() == pre.mints_seq(),
            pre.has_account(from, mint.id),
            pre.account_view(from, mint.id).decimals == mint.decimals,
            mid.has_account(from, mint.id),
            mid.account_view(from, mint.id).mint == mint.id,
            mid.account_view(from, mint.id).owner == from,
            mid.account_view(from, mint.id).decimals == mint.decimals,
            forall|o: Address, m: u64|
                !(o == from && m == mint.id) ==> (#[trigger] mid.has_account(o, m)) == pre
                    .has_account(o, m) && (pre.has_account(o, m) ==> mid.account_view(o, m) == pre
                    .account_view(o, m)),
            post.has_account(to, mint.id),
            post.account_view(to, mint.id).mint == mint.id,
            post.account_view(to, mint.id).owner == to,
            post.account_view(to, mint.id).decimals == mint.decimals,
            forall|o: Address, m: u64|
                !(o == to && m == mint.id) ==> (#[trigger] post.has_account(o, m)) == mid
                    .has_account(o, m) && (mid.has_account(o, m) ==> post.account_view(o, m) == mid
                    .account_view(o, m)),
        ensures
            post.wf(),
            post.has_account(from, mint.id),
            post.account_view(from, mint.id) == mid.account_view(from, mint.id),
            forall|o: Address, m: u64|
                !(o == from && m == mint.id) && !(o == to && m == mint.id) ==> (#[trigger]
                post.has_account(o, m)) == pre.has_account(o, m) && (pre.has_account(o, m)
                    ==> post.account_view(o, m) == pre.account_view(o, m)),
    {
        assert(mints_contain(pre.mints_seq(), mint.id)) by {
            let j = account_index(pre.accounts_seq(), from, mint.id);
            assert(pre.accounts_seq()[j].mint == mint.id);
        }
        assert(mint_at(pre.mints_seq(), mint.id).decimals == mint.decimals) by {
            let j = account_index(pre.accounts_seq(), from, mint.id);
            assert(pre.accounts_seq()[j].decimals == mint_at(
                pre.mints_seq(),
                pre.accounts_seq()[j].mint,
            ).decimals);
        }
        assert(post.has_account(from, mint.id));
        assert(mid.has_account(from, mint.id));
        assert(post.account_view(from, mint.id) == mid.account_view(from, mint.id));
        assert forall|o: Address, m: u64|
            !(o == from && m == mint.id) && !(o == to && m == mint.id) implies (#[trigger]
        post.has_account(o, m)) == pre.has_account(o, m) && (pre.has_account(o, m)
            ==> post.account_view(o, m) == pre.account_view(o, m)) by {
            assert((#[trigger] mid.has_account(o, m)) == pre.has_account(o, m));
            assert(post.has_account(o, m) == mid.has_account(o, m));
            if pre.has_account(o, m) {
                assert(mid.account_view(o, m) == pre.account_view(o, m));
                assert(post.account_view(o, m) == mid.account_view(o, m));
            }
        }
        assert forall|k: int| 0 <= k < post.accounts_seq().len() implies mints_contain(
            post.mints_seq(),
            (#[trigger] post.accounts_seq()[k]).mint,
        ) && post.accounts_seq()[k].decimals == mint_at(
            post.mints_seq(),
            post.accounts_seq()[k].mint,
        ).decimals by {
            let a = post.accounts_seq()[k];
            lemma_account_at_index(post.accounts_seq(), a.owner, a.mint, k);
            assert(post.has_account(a.owner, a.mint));
            assert(a == post.account_view(a.owner, a.mint));
            if a.owner == to && a.mint == mint.id {
                assert(a == post.account_view(to, mint.id));
            } else if a.owner == from && a.mint == mint.id {
                assert(a == mid.account_view(from, mint.id));
            } else {
                assert(mid.has_account(a.owner, a.mint));
                assert(mid.account_view(a.owner, a.mint) == a);
                assert(pre.has_account(a.owner, a.mint));
                assert(pre.account_view(a.owner, a.mint) == a);
                let j = account_index(pre.accounts_seq(), a.owner, a.mint);
                assert(pre.accounts_seq()[j] == a);
            }
        }
    }

    /// Destroys the drained holding of `mint` owned by `owner`.  Callers
    /// drain the holding first; any residual backing resources of the
    /// deployed environment are released to `destination`, which carries no
    /// tracked value here.  The presented authority must sign for the
    /// holding as for a transfer.
    pub fn close_token_account(
        &mut self,
        owner: Address,
        mint: u64,
        destination: Address,
        authority: Address,
        owning_proof: Option<DerivationProof>,
    ) -> (r: Result<(), ErrorCode>)
        requires
            old(self).wf(),
            old(self).has_account(owner, mint),
            old(self).balance_of(owner, mint) == 0,
            authority_signs(owner, authority, owning_proof),
        ensures
            final(self).wf(),
            final(self).mints_seq() == old(self).mints_seq(),
            r == Ok::<(), ErrorCode>(()),
            !final(self).has_account(owner, mint),
            accounts_unchanged_except(*old(self), *final(self), owner, mint, owner, mint),
    {
        let ghost pre = *self;
        let idx = match self.find_account(owner, mint) {
            Some(i) => i,
            None => vstd::pervasive::unreached(),
        };
        proof {
            lemma_account_at_index(pre.accounts_seq(), owner, mint, idx as int);
        }
        let _ = self.accounts.remove(idx);
        let _ = destination;
        proof {
            lemma_accounts_remove(pre.accounts_seq(), idx as int);
            assert forall|o: Address, m: u64| !(o == owner && m == mint) implies #[trigger]
            account_same_at(pre, *self, o, m) by {
                assert(self.has_account(o, m) == pre.has_account(o, m));
                if pre.has_account(o, m) {
                    assert(self.account_view(o, m) == pre.account_view(o, m));
                }
                assert(account_same_at(pre, *self, o, m));
            }
            assert forall|k: int| 0 <= k < self.accounts_seq().len() implies mints_contain(
                self.mints_seq(),
                (#[trigger] self.accounts_seq()[k]).mint,
            ) && self.accounts_seq()[k].decimals == mint_at(
                self.mints_seq(),
                self.accounts_seq()[k].mint,
            ).decimals by {
                let a = self.accounts_seq()[k];
                lemma_account_at_index(self.accounts_seq(), a.owner, a.mint, k);
                assert(pre.has_account(a.owner, a.mint) && pre.account_view(a.owner, a.mint) == a);
                let j = account_index(pre.accounts_seq(), a.owner, a.mint);
                assert(pre.accounts_seq()[j] == a);
            }
        }
        Ok(())
    }
}

/// Replaces the account at position `i`.
fn set_account(v: &mut Vec<TokenAccount>, i: usize, a: TokenAccount)
    requires
        i < old(v).len(),
    ensures
        final(v)@ == old(v)@.update(i as int, a),
{
    let slot = &mut v[i];
    *slot = a;
}

} // verus!
