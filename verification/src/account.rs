//! A user's account: its public keys, used nonces and token balances.

use vstd::prelude::*;

use crate::account_id::{spec_account_type, AccountId, AccountType};
use crate::amounts::TokenAmounts;
use crate::crypto::{
    spec_from_implicit_account_id, spec_implicit_account_id, PublicKey, PublicKeyView,
};
use crate::errors::DefuseError;
use crate::map::LinearMap;
use crate::nonces::{Nonce, Nonces};
use crate::token_id::TokenIdView;

verus! {

/// What an account holds, as values.
pub struct AccountView {
    pub nonces: Set<Seq<u8>>,
    /// Whether the key behind the account's own implicit id is switched off.
    pub implicit_public_key_removed: bool,
    pub public_keys: Set<PublicKeyView>,
    pub token_balances: Map<TokenIdView, u128>,
}

/// Whether `pk` may sign for the account `me` whose state is `a`: it is the
/// key behind `me` and that key is not switched off, or it was added.
pub open spec fn spec_has_public_key(a: AccountView, me: Seq<char>, pk: PublicKeyView) -> bool {
    (!a.implicit_public_key_removed && me == spec_implicit_account_id(pk)) || a.public_keys.contains(pk)
}

/// The added keys of an account never include the key behind its own id.
pub open spec fn keys_exclude_implicit(a: AccountView, me: Seq<char>) -> bool {
    forall|pk: PublicKeyView| #[trigger] a.public_keys.contains(pk) ==> me != spec_implicit_account_id(pk)
}

/// The keys that `keys` holds.
pub open spec fn key_views(keys: Seq<PublicKey>) -> Set<PublicKeyView> {
    Set::new(|p: PublicKeyView| exists|i: int| 0 <= i < keys.len() && (#[trigger] keys[i])@ == p)
}

/// The keys listed for the account `me` in state `a`: the added ones, and
/// the Ed25519 key behind an implicit NEAR account id unless it is switched
/// off.
pub open spec fn listed_keys(a: AccountView, me: Seq<char>) -> Set<PublicKeyView> {
    if !a.implicit_public_key_removed && spec_from_implicit_account_id(me) is Some {
        a.public_keys.insert(spec_from_implicit_account_id(me)->0)
    } else {
        a.public_keys
    }
}

/// The token balances of an account.
#[derive(Debug)]
pub struct AccountState {
    pub token_balances: TokenAmounts,
}

impl AccountState {
    pub fn new() -> (s: Self)
        ensures
            s.token_balances.wf(),
            s.token_balances@ == Map::<TokenIdView, u128>::empty(),
    {
        AccountState { token_balances: TokenAmounts::new() }
    }
}

#[derive(Debug)]
pub struct Account {
    nonces: Nonces,
    implicit_public_key_removed: bool,
    public_keys: LinearMap<PublicKey, ()>,
    state: AccountState,
}

impl View for Account {
    type V = AccountView;

    closed spec fn view(&self) -> AccountView {
        AccountView {
            nonces: self.nonces@,
            implicit_public_key_removed: self.implicit_public_key_removed,
            public_keys: self.public_keys@.dom(),
            token_balances: self.state.token_balances@,
        }
    }
}

impl Account {
    pub closed spec fn wf(&self) -> bool {
        &&& self.nonces.wf()
        &&& self.public_keys.wf()
        &&& self.state.token_balances.wf()
    }

    /// The balances hold no zero amounts.
    pub proof fn lemma_wf(&self)
        requires
            self.wf(),
        ensures
            crate::amounts::no_zero_amounts(self@.token_balances),
    {
        self.state.token_balances.lemma_wf();
    }

    /// A fresh account for `me`: a named account starts with the implicit
    /// key switched off, an implicit one with it on.
    pub fn new(me: &AccountId) -> (a: Account)
        requires
            me.valid(),
        ensures
            a.wf(),
            a@.nonces == Set::<Seq<u8>>::empty(),
            a@.implicit_public_key_removed == (spec_account_type(me@) == AccountType::NamedAccount),
            a@.public_keys == Set::<PublicKeyView>::empty(),
            a@.token_balances == Map::<TokenIdView, u128>::empty(),
            keys_exclude_implicit(a@, me@),
    {
        let a = Account {
            nonces: Nonces::new(),
            implicit_public_key_removed: me.get_account_type() == AccountType::NamedAccount,
            public_keys: LinearMap::new(),
            state: AccountState::new(),
        };
        assert(a@.public_keys =~= Set::<PublicKeyView>::empty());
        a
    }

    pub fn token_balances(&self) -> (b: &TokenAmounts)
        ensures
            b@ == self@.token_balances,
            self.wf() ==> b.wf(),
    {
        &self.state.token_balances
    }

    pub fn token_balances_mut(&mut self) -> (b: &mut TokenAmounts)
        requires
            old(self).wf(),
        ensures
            b@ == old(self)@.token_balances,
            b.wf(),
            final(b).wf() ==> final(self).wf(),
            final(self)@ == (AccountView { token_balances: final(b)@, ..old(self)@ }),
    {
        &mut self.state.token_balances
    }

    /// Registers `public_key` for `me`, or switches the implicit key back
    /// on. Fails with `PublicKeyExists` where the key could already sign.
    pub fn add_public_key(&mut self, me: &AccountId, public_key: PublicKey) -> (r: Result<(), DefuseError>)
        requires
            old(self).wf(),
            public_key.valid(),
        ensures
            final(self).wf(),
            r is Ok <==> if me@ == spec_implicit_account_id(public_key@) {
                old(self)@.implicit_public_key_removed
            } else {
                !old(self)@.public_keys.contains(public_key@)
            },
            r matches Err(e) ==> e == DefuseError::PublicKeyExists,
            me@ == spec_implicit_account_id(public_key@) ==> final(self)@ == (AccountView {
                implicit_public_key_removed: false,
                ..old(self)@
            }),
            me@ != spec_implicit_account_id(public_key@) ==> final(self)@ == (AccountView {
                public_keys: old(self)@.public_keys.insert(public_key@),
                ..old(self)@
            }),
    {
        if self.maybe_add_public_key(me, public_key) {
            Ok(())
        } else {
            Err(DefuseError::PublicKeyExists)
        }
    }

    fn maybe_add_public_key(&mut self, me: &AccountId, public_key: PublicKey) -> (added: bool)
        requires
            old(self).wf(),
            public_key.valid(),
        ensures
            final(self).wf(),
            me@ == spec_implicit_account_id(public_key@) ==> added == old(self)@.implicit_public_key_removed
                && final(self)@ == (AccountView { implicit_public_key_removed: false, ..old(self)@ }),
            me@ != spec_implicit_account_id(public_key@) ==> added == !old(self)@.public_keys.contains(public_key@)
                && final(self)@ == (AccountView {
                public_keys: old(self)@.public_keys.insert(public_key@),
                ..old(self)@
            }),
    {
        let implicit = public_key.to_implicit_account_id();
        if me.key_eq_id(&implicit) {
            let was_removed = self.implicit_public_key_removed;
            self.implicit_public_key_removed = false;
            was_removed
        } else {
            let ghost old_keys = self.public_keys;
            let prev = self.public_keys.insert(public_key, ());
            proof {
                assert(self.public_keys@.dom() =~= old_keys@.dom().insert(public_key@));
            }
            prev.is_none()
        }
    }

    /// Removes `public_key` from `me`, or switches the implicit key off.
    /// Fails with `PublicKeyNotExist` where the key could not sign.
    pub fn remove_public_key(&mut self, me: &AccountId, public_key: &PublicKey) -> (r: Result<(), DefuseError>)
        requires
            old(self).wf(),
            public_key.valid(),
        ensures
            final(self).wf(),
            me@ == spec_implicit_account_id(public_key@) ==> (r is Ok <==> !old(self)@.implicit_public_key_removed)
                && final(self)@ == (AccountView { implicit_public_key_removed: true, ..old(self)@ }),
            me@ != spec_implicit_account_id(public_key@) ==> (r is Ok <==> old(self)@.public_keys.contains(public_key@))
                && final(self)@ == (AccountView {
                public_keys: old(self)@.public_keys.remove(public_key@),
                ..old(self)@
            }),
            r matches Err(e) ==> e == DefuseError::PublicKeyNotExist,
    {
        if self.maybe_remove_public_key(me, public_key) {
            Ok(())
        } else {
            Err(DefuseError::PublicKeyNotExist)
        }
    }

    fn maybe_remove_public_key(&mut self, me: &AccountId, public_key: &PublicKey) -> (removed: bool)
        requires
            old(self).wf(),
            public_key.valid(),
        ensures
            final(self).wf(),
            me@ == spec_implicit_account_id(public_key@) ==> removed == !old(self)@.implicit_public_key_removed
                && final(self)@ == (AccountView { implicit_public_key_removed: true, ..old(self)@ }),
            me@ != spec_implicit_account_id(public_key@) ==> removed == old(self)@.public_keys.contains(public_key@)
                && final(self)@ == (AccountView {
                public_keys: old(self)@.public_keys.remove(public_key@),
                ..old(self)@
            }),
    {
        let implicit = public_key.to_implicit_account_id();
        if me.key_eq_id(&implicit) {
            let was_removed = self.implicit_public_key_removed;
            self.implicit_public_key_removed = true;
            !was_removed
        } else {
            let ghost old_keys = self.public_keys;
            let prev = self.public_keys.remove(public_key);
            proof {
                assert(self.public_keys@.dom() =~= old_keys@.dom().remove(public_key@));
            }
            prev.is_some()
        }
    }

    /// Whether `public_key` may sign for `me`.
    pub fn has_public_key(&self, me: &AccountId, public_key: &PublicKey) -> (b: bool)
        requires
            self.wf(),
            public_key.valid(),
        ensures
            b == spec_has_public_key(self@, me@, public_key@),
    {
        let implicit = public_key.to_implicit_account_id();
        (!self.implicit_public_key_removed && me.key_eq_id(&implicit)) || self.public_keys.contains_key(public_key)
    }

    /// The added keys, then the Ed25519 key behind `me` where it is an
    /// implicit NEAR account whose key is not switched off.
    pub fn iter_public_keys(&self, me: &AccountId) -> (keys: Vec<PublicKey>)
        requires
            self.wf(),
        ensures
            key_views(keys@) == listed_keys(self@, me@),
    {
        let mut keys: Vec<PublicKey> = Vec::new();
        let n = self.public_keys.len();
        let mut i: usize = 0;
        while i < n
            invariant
                self.wf(),
                n == self.public_keys.spec_entries().len(),
                i <= n,
                keys@.len() == i,
                forall|j: int| 0 <= j < i ==> (#[trigger] keys@[j])@ == self.public_keys.spec_entries()[j].0@,
            decreases n - i,
        {
            let e = self.public_keys.entry_at(i);
            keys.push(e.0.clone());
            i = i + 1;
        }
        let ghost listed = keys@;
        proof {
            self.public_keys.lemma_view();
            assert forall|pk: PublicKeyView| #[trigger] key_views(listed).contains(pk)
                <==> self@.public_keys.contains(pk) by {
                if self@.public_keys.contains(pk) {
                    let j = crate::map::index_of(self.public_keys.spec_entries(), pk);
                    assert(listed[j]@ == pk);
                }
                if key_views(listed).contains(pk) {
                    let j = choose|j: int| 0 <= j < listed.len() && (#[trigger] listed[j])@ == pk;
                    crate::map::lemma_to_map_index(self.public_keys.spec_entries(), j);
                }
            }
        }
        if !self.implicit_public_key_removed {
            match PublicKey::from_implicit_account_id(me) {
                Some(pk) => {
                    keys.push(pk);
                    proof {
                        assert forall|p: PublicKeyView| #[trigger] key_views(keys@).contains(p)
                            <==> key_views(listed).contains(p) || p == keys@[listed.len() as int]@ by {
                            if key_views(listed).contains(p) {
                                let j = choose|j: int| 0 <= j < listed.len() && (#[trigger] listed[j])@ == p;
                                assert(keys@[j] == listed[j]);
                            }
                            if key_views(keys@).contains(p) {
                                let j = choose|j: int| 0 <= j < keys@.len() && (#[trigger] keys@[j])@ == p;
                                if j < listed.len() {
                                    assert(keys@[j] == listed[j]);
                                }
                            }
                            if p == keys@[listed.len() as int]@ {
                                assert(keys@[listed.len() as int]@ == p);
                            }
                        }
                    }
                },
                None => {},
            }
        }
        proof {
            assert(key_views(keys@) =~= listed_keys(self@, me@));
        }
        keys
    }

    pub fn is_nonce_used(&self, nonce: &Nonce) -> (b: bool)
        requires
            self.wf(),
        ensures
            b == self@.nonces.contains(nonce@),
    {
        self.nonces.is_used(nonce)
    }

    /// Marks `n` as used; fails with `NonceUsed` where it was used before.
    pub fn commit_nonce(&mut self, n: &Nonce) -> (r: Result<(), DefuseError>)
        requires
            old(self).wf(),
        ensures
            final(self).wf(),
            r is Ok <==> !old(self)@.nonces.contains(n@),
            r is Ok ==> final(self)@ == (AccountView { nonces: old(self)@.nonces.insert(n@), ..old(self)@ }),
            r matches Err(e) ==> e == DefuseError::NonceUsed && final(self)@ == old(self)@,
    {
        self.nonces.commit(n)
    }
}

} // verus!
