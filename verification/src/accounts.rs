//! All accounts, by account id.

use vstd::prelude::*;

use crate::account::{keys_exclude_implicit, Account, AccountView};
use crate::account_id::{spec_account_type, AccountId, AccountType};
use crate::amounts::amount_in;
use crate::crypto::PublicKeyView;
use crate::map::{index_of, lemma_to_map_index, LinearMap};
use crate::token_id::TokenIdView;

verus! {

/// The sum over the entries `s` of what each account holds of `t`.
pub open spec fn sum_balances(s: Seq<(AccountId, Account)>, t: TokenIdView) -> nat
    decreases s.len(),
{
    if s.len() == 0 {
        0
    } else {
        sum_balances(s.drop_last(), t) + amount_in(s.last().1@.token_balances, t)
    }
}

pub proof fn lemma_sum_balances_update(s: Seq<(AccountId, Account)>, i: int, e: (AccountId, Account), t: TokenIdView)
    requires
        0 <= i < s.len(),
    ensures
        sum_balances(s.update(i, e), t) + amount_in(s[i].1@.token_balances, t)
            == sum_balances(s, t) + amount_in(e.1@.token_balances, t),
    decreases s.len(),
{
    let u = s.update(i, e);
    if i == s.len() - 1 {
        assert(u.drop_last() =~= s.drop_last());
    } else {
        assert(u.drop_last() =~= s.drop_last().update(i, e));
        lemma_sum_balances_update(s.drop_last(), i, e, t);
    }
}

pub proof fn lemma_sum_ge_entry(s: Seq<(AccountId, Account)>, i: int, t: TokenIdView)
    requires
        0 <= i < s.len(),
    ensures
        amount_in(s[i].1@.token_balances, t) <= sum_balances(s, t),
    decreases s.len(),
{
    if i < s.len() - 1 {
        lemma_sum_ge_entry(s.drop_last(), i, t);
    }
}

pub proof fn lemma_sum_ge_two_entries(s: Seq<(AccountId, Account)>, i: int, j: int, t: TokenIdView)
    requires
        0 <= i < s.len(),
        0 <= j < s.len(),
        i != j,
    ensures
        amount_in(s[i].1@.token_balances, t) + amount_in(s[j].1@.token_balances, t) <= sum_balances(s, t),
    decreases s.len(),
{
    let n = s.len() - 1;
    if i == n {
        lemma_sum_ge_entry(s.drop_last(), j, t);
    } else if j == n {
        lemma_sum_ge_entry(s.drop_last(), i, t);
    } else {
        lemma_sum_ge_two_entries(s.drop_last(), i, j, t);
    }
}

/// A fresh account, as a value: no keys added, no nonces used, no tokens,
/// and the implicit key switched off for a named account.
pub open spec fn fresh_account(me: Seq<char>) -> AccountView {
    AccountView {
        nonces: Set::<Seq<u8>>::empty(),
        implicit_public_key_removed: spec_account_type(me) == AccountType::NamedAccount,
        public_keys: Set::<PublicKeyView>::empty(),
        token_balances: Map::<TokenIdView, u128>::empty(),
    }
}

/// The accounts of the contract.
#[derive(Debug)]
pub struct Accounts {
    accounts: LinearMap<AccountId, Account>,
}

impl View for Accounts {
    type V = Map<Seq<char>, AccountView>;

    closed spec fn view(&self) -> Map<Seq<char>, AccountView> {
        self.accounts@
    }
}

/// The entry `e` holds a well-formed account under a valid id.
pub open spec fn entry_wf(e: (AccountId, Account)) -> bool {
    &&& e.0.valid()
    &&& e.1.wf()
    &&& keys_exclude_implicit(e.1@, e.0@)
}

impl Accounts {
    pub closed spec fn wf(&self) -> bool {
        &&& self.accounts.wf()
        &&& forall|i: int| 0 <= i < self.accounts.spec_entries().len() ==> entry_wf(#[trigger] self.accounts.spec_entries()[i])
    }

    /// How much of `t` all accounts hold together.
    pub closed spec fn spec_total(&self, t: TokenIdView) -> nat {
        sum_balances(self.accounts.spec_entries(), t)
    }

    /// Every account keeps the key behind its own id out of its added keys.
    pub proof fn lemma_wf(&self)
        requires
            self.wf(),
        ensures
            forall|id: Seq<char>| #[trigger] self@.dom().contains(id) ==> keys_exclude_implicit(self@[id], id),
            forall|id: Seq<char>| #[trigger] self@.dom().contains(id) ==> crate::amounts::no_zero_amounts(self@[id].token_balances),
    {
        self.accounts.lemma_view();
        assert forall|id: Seq<char>| #[trigger] self@.dom().contains(id) implies keys_exclude_implicit(self@[id], id)
            && crate::amounts::no_zero_amounts(self@[id].token_balances) by {
            let i = index_of(self.accounts.spec_entries(), id);
            lemma_to_map_index(self.accounts.spec_entries(), i);
            assert(entry_wf(self.accounts.spec_entries()[i]));
            self.accounts.spec_entries()[i].1.lemma_wf();
        }
    }

    /// One account holds no more of a token than all accounts together.
    pub proof fn lemma_balance_le_total(&self, id: Seq<char>, t: TokenIdView)
        requires
            self.wf(),
            self@.dom().contains(id),
        ensures
            amount_in(self@[id].token_balances, t) <= self.spec_total(t),
    {
        self.accounts.lemma_view();
        let i = index_of(self.accounts.spec_entries(), id);
        lemma_to_map_index(self.accounts.spec_entries(), i);
        lemma_sum_ge_entry(self.accounts.spec_entries(), i, t);
    }

    /// Two distinct accounts hold no more of a token than all accounts together.
    pub proof fn lemma_two_balances_le_total(&self, id1: Seq<char>, id2: Seq<char>, t: TokenIdView)
        requires
            self.wf(),
            self@.dom().contains(id1),
            self@.dom().contains(id2),
            id1 != id2,
        ensures
            amount_in(self@[id1].token_balances, t) + amount_in(self@[id2].token_balances, t) <= self.spec_total(t),
    {
        self.accounts.lemma_view();
        let i = index_of(self.accounts.spec_entries(), id1);
        let j = index_of(self.accounts.spec_entries(), id2);
        lemma_to_map_index(self.accounts.spec_entries(), i);
        lemma_to_map_index(self.accounts.spec_entries(), j);
        lemma_sum_ge_two_entries(self.accounts.spec_entries(), i, j, t);
    }

    pub fn new() -> (r: Self)
        ensures
            r.wf(),
            r@ == Map::<Seq<char>, AccountView>::empty(),
            forall|t: TokenIdView| r.spec_total(t) == 0,
    {
        Accounts { accounts: LinearMap::new() }
    }

    pub fn get(&self, account_id: &AccountId) -> (r: Option<&Account>)
        requires
            self.wf(),
        ensures
            match r {
                Some(a) => self@.dom().contains(account_id@) && a@ == self@[account_id@] && a.wf(),
                None => !self@.dom().contains(account_id@),
            },
    {
        match self.accounts.find(account_id) {
            Some(i) => {
                let e = self.accounts.entry_at(i);
                assert(entry_wf(self.accounts.spec_entries()[i as int]));
                Some(&e.1)
            },
            None => None,
        }
    }

    pub fn get_mut(&mut self, account_id: &AccountId) -> (r: Option<&mut Account>)
        requires
            old(self).wf(),
        ensures
            match r {
                Some(a) => {
                    &&& old(self)@.dom().contains(account_id@)
                    &&& a@ == old(self)@[account_id@]
                    &&& a.wf()
                    &&& keys_exclude_implicit(a@, account_id@)
                    &&& final(self)@ == old(self)@.insert(account_id@, final(a)@)
                    &&& (final(a).wf() && keys_exclude_implicit(final(a)@, account_id@)) ==> final(self).wf()
                    &&& forall|t: TokenIdView| #[trigger] final(self).spec_total(t) + amount_in(a@.token_balances, t)
                        == old(self).spec_total(t) + amount_in(final(a)@.token_balances, t)
                },
                None => !old(self)@.dom().contains(account_id@) && *final(self) == *old(self),
            },
    {
        match self.accounts.find(account_id) {
            Some(i) => {
                proof {
                    self.lemma_value_mut_at(i as int);
                }
                Some(self.accounts.value_mut_at(i))
            },
            None => None,
        }
    }

    proof fn lemma_value_mut_at(&self, i: int)
        requires
            self.wf(),
            0 <= i < self.accounts.spec_entries().len(),
        ensures
            entry_wf(self.accounts.spec_entries()[i]),
            forall|v: Account| #![trigger self.accounts.spec_entries().update(i, (self.accounts.spec_entries()[i].0, v))]
                (v.wf() && keys_exclude_implicit(v@, self.accounts.spec_entries()[i].0@)) ==> forall|j: int|
                0 <= j < self.accounts.spec_entries().len() ==> entry_wf(
                #[trigger] self.accounts.spec_entries().update(i, (self.accounts.spec_entries()[i].0, v))[j]),
            forall|v: Account, t: TokenIdView| #[trigger] sum_balances(self.accounts.spec_entries().update(i, (self.accounts.spec_entries()[i].0, v)), t)
                + amount_in(self.accounts.spec_entries()[i].1@.token_balances, t)
                == sum_balances(self.accounts.spec_entries(), t) + amount_in(v@.token_balances, t),
    {
        let s = self.accounts.spec_entries();
        assert forall|v: Account, t: TokenIdView| #[trigger] sum_balances(s.update(i, (s[i].0, v)), t)
            + amount_in(s[i].1@.token_balances, t) == sum_balances(s, t) + amount_in(v@.token_balances, t) by {
            lemma_sum_balances_update(s, i, (s[i].0, v), t);
        }
    }

    /// The account of `account_id`, created fresh where there is none.
    pub fn get_or_create(&mut self, account_id: AccountId) -> (r: &mut Account)
        requires
            old(self).wf(),
            account_id.valid(),
        ensures
            old(self)@.dom().contains(account_id@) ==> r@ == old(self)@[account_id@],
            !old(self)@.dom().contains(account_id@) ==> r@ == fresh_account(account_id@),
            r.wf(),
            keys_exclude_implicit(r@, account_id@),
            final(self)@ == old(self)@.insert(account_id@, final(r)@),
            (final(r).wf() && keys_exclude_implicit(final(r)@, account_id@)) ==> final(self).wf(),
            forall|t: TokenIdView| #[trigger] final(self).spec_total(t) + amount_in(r@.token_balances, t)
                == old(self).spec_total(t) + amount_in(final(r)@.token_balances, t),
    {
        let i = match self.accounts.find(&account_id) {
            Some(i) => i,
            None => {
                let a = Account::new(&account_id);
                let ghost s = self.accounts.spec_entries();
                let n = self.accounts.len();
                self.accounts.insert(account_id, a);
                proof {
                    assert(self.accounts.spec_entries() =~= s.push((account_id, a))) by {
                        self.accounts.lemma_push_entries(s, account_id, a);
                    }
                    assert(self.accounts.spec_entries().drop_last() =~= s);
                    assert forall|j: int| 0 <= j < self.accounts.spec_entries().len() implies
                        entry_wf(#[trigger] self.accounts.spec_entries()[j]) by {
                        if j < s.len() {
                            assert(self.accounts.spec_entries()[j] == s[j]);
                        }
                    }
                    assert(a@.token_balances =~= Map::<TokenIdView, u128>::empty());
                }
                n
            },
        };
        proof {
            self.lemma_value_mut_at(i as int);
        }
        self.accounts.value_mut_at(i)
    }
}

} // verus!
