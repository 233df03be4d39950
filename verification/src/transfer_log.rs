//! Matching signed token deltas of accounts into transfers between them.

use vstd::prelude::*;

use crate::account_id::AccountId;
use crate::errors::DefuseError;
use crate::map::{keys_unique, lemma_to_map_index, to_map, KeyEq, LinearMap};
use crate::amounts::{amount_in, lemma_lists_tokens, lists_tokens, with_amount, TokenAmounts};
use crate::events::{transfer_event_view, MtTransferEvent};
use crate::token_id::{spec_token_id_string, TokenId, TokenIdView};

verus! {

/// Per token, the amount of each account; no zero amounts, no empty tokens.
pub type AmountsView = Map<TokenIdView, Map<Seq<char>, u128>>;

/// The amount that `m` holds for `t` and `a`, zero where none.
pub open spec fn get2(m: AmountsView, t: TokenIdView, a: Seq<char>) -> nat {
    if m.dom().contains(t) && m[t].dom().contains(a) {
        m[t][a] as nat
    } else {
        0
    }
}

/// `m` with the amount of `t` and `a` set to `v`, dropping zero amounts and
/// tokens without amounts.
pub open spec fn set2(m: AmountsView, t: TokenIdView, a: Seq<char>, v: u128) -> AmountsView {
    let inner = if m.dom().contains(t) { m[t] } else { Map::<Seq<char>, u128>::empty() };
    let inner2 = if v == 0 { inner.remove(a) } else { inner.insert(a, v) };
    if inner2.dom() =~= Set::<Seq<char>>::empty() {
        m.remove(t)
    } else {
        m.insert(t, inner2)
    }
}

/// No zero amount and no token without amounts.
pub open spec fn amounts_clean(m: AmountsView) -> bool {
    forall|t: TokenIdView| #[trigger] m.dom().contains(t) ==> (!(m[t].dom() =~= Set::<Seq<char>>::empty())
        && forall|a: Seq<char>| #[trigger] m[t].dom().contains(a) ==> m[t][a] > 0)
}

pub proof fn lemma_set2(m: AmountsView, t: TokenIdView, a: Seq<char>, v: u128)
    requires
        amounts_clean(m),
    ensures
        amounts_clean(set2(m, t, a, v)),
        get2(set2(m, t, a, v), t, a) == v,
        forall|u: TokenIdView, b: Seq<char>| (u != t || b != a) ==> #[trigger] get2(set2(m, t, a, v), u, b) == get2(m, u, b),
{
    let r = set2(m, t, a, v);
    let inner = if m.dom().contains(t) { m[t] } else { Map::<Seq<char>, u128>::empty() };
    let inner2 = if v == 0 { inner.remove(a) } else { inner.insert(a, v) };
    assert forall|u: TokenIdView| #[trigger] r.dom().contains(u) implies (!(r[u].dom() =~= Set::<Seq<char>>::empty())
        && forall|b: Seq<char>| #[trigger] r[u].dom().contains(b) ==> r[u][b] > 0) by {
        if u == t {
            assert(r[u] == inner2);
        }
    }
    assert forall|u: TokenIdView, b: Seq<char>| (u != t || b != a) implies #[trigger] get2(r, u, b) == get2(m, u, b) by {
        if u == t {
            if !(inner2.dom() =~= Set::<Seq<char>>::empty()) {
                assert(r[u] == inner2);
            } else {
                if inner.dom().contains(b) {
                    assert(inner2.dom().contains(b));
                }
            }
        }
    }
    if v != 0 {
        assert(inner2.dom().contains(a));
    }
}

/// Amounts per token and account.
#[derive(Debug)]
pub struct TokenAccountAmounts {
    tokens: LinearMap<TokenId, LinearMap<AccountId, u128>>,
}

impl View for TokenAccountAmounts {
    type V = AmountsView;

    closed spec fn view(&self) -> AmountsView {
        self.tokens@
    }
}

/// The accounts and amounts of an inner map, in insertion order.
pub open spec fn inner_entries(s: Seq<(AccountId, u128)>) -> Seq<(Seq<char>, u128)> {
    s.map_values(|e: (AccountId, u128)| (e.0@, e.1))
}

impl TokenAccountAmounts {
    pub closed spec fn wf(&self) -> bool {
        &&& self.tokens.wf()
        &&& forall|i: int| 0 <= i < self.tokens.spec_entries().len() ==> (#[trigger] self.tokens.spec_entries()[i]).1.wf()
        &&& amounts_clean(self@)
    }

    pub proof fn lemma_clean(&self)
        requires
            self.wf(),
        ensures
            amounts_clean(self@),
    {
    }

    /// The tokens with their accounts and amounts, in insertion order.
    pub closed spec fn spec_entries(&self) -> Seq<(TokenIdView, Seq<(Seq<char>, u128)>)> {
        self.tokens.spec_entries().map_values(|e: (TokenId, LinearMap<AccountId, u128>)| (e.0@, inner_entries(e.1.spec_entries())))
    }

    pub fn new() -> (r: Self)
        ensures
            r.wf(),
            r@ == Map::<TokenIdView, Map<Seq<char>, u128>>::empty(),
            r.spec_entries() == Seq::<(TokenIdView, Seq<(Seq<char>, u128)>)>::empty(),
    {
        let r = TokenAccountAmounts { tokens: LinearMap::new() };
        assert(r.spec_entries() =~= Seq::<(TokenIdView, Seq<(Seq<char>, u128)>)>::empty());
        r
    }

    pub fn get(&self, t: &TokenId, a: &AccountId) -> (v: u128)
        requires
            self.wf(),
        ensures
            v == get2(self@, t@, a@),
    {
        match self.tokens.find(t) {
            Some(i) => {
                let e = self.tokens.entry_at(i);
                assert(e.1.wf());
                match e.1.get(a) {
                    Some(v) => *v,
                    None => 0,
                }
            },
            None => 0,
        }
    }

    pub fn set(&mut self, t: TokenId, a: AccountId, v: u128)
        requires
            old(self).wf(),
        ensures
            final(self).wf(),
            final(self)@ == set2(old(self)@, t@, a@, v),
    {
        let ghost old_view = self@;
        proof {
            lemma_set2(old_view, t@, a@, v);
        }
        match self.tokens.find(&t) {
            Some(i) => {
                let ghost s = self.tokens.spec_entries();
                let inner = self.tokens.value_mut_at(i);
                assert(inner.wf());
                if v == 0 {
                    inner.remove(&a);
                } else {
                    inner.insert(a, v);
                }
                let empty = inner.is_empty();
                proof {
                    assert forall|j: int| 0 <= j < self.tokens.spec_entries().len() implies
                        (#[trigger] self.tokens.spec_entries()[j]).1.wf() by {
                        if j != i {
                            assert(self.tokens.spec_entries()[j] == s[j]);
                        }
                    }
                }
                if empty {
                    let ghost s2 = self.tokens.spec_entries();
                    self.tokens.remove(&t);
                    proof {
                        assert(self@ =~= set2(old_view, t@, a@, v));
                        let k = choose|k: int| 0 <= k < s2.len() && self.tokens.spec_entries() == s2.remove(k);
                        self.lemma_inner_wf_after_remove(s2, k);
                    }
                } else {
                    proof {
                        assert(self@ =~= set2(old_view, t@, a@, v));
                    }
                }
            },
            None => {
                if v != 0 {
                    let mut inner: LinearMap<AccountId, u128> = LinearMap::new();
                    inner.insert(a, v);
                    let ghost s = self.tokens.spec_entries();
                    self.tokens.insert(t, inner);
                    proof {
                        assert(self@ =~= set2(old_view, t@, a@, v));
                        assert forall|j: int| 0 <= j < self.tokens.spec_entries().len() implies
                            (#[trigger] self.tokens.spec_entries()[j]).1.wf() by {
                            if j < s.len() {
                                assert(self.tokens.spec_entries()[j] == s[j]);
                            }
                        }
                    }
                } else {
                    proof {
                        assert(self@ =~= set2(old_view, t@, a@, v));
                    }
                }
            },
        }
    }

    proof fn lemma_inner_wf_after_remove(&self, s: Seq<(TokenId, LinearMap<AccountId, u128>)>, i: int)
        requires
            0 <= i < s.len(),
            self.tokens.spec_entries() == s.remove(i),
            forall|j: int| 0 <= j < s.len() ==> (#[trigger] s[j]).1.wf(),
        ensures
            forall|j: int| 0 <= j < self.tokens.spec_entries().len() ==> (#[trigger] self.tokens.spec_entries()[j]).1.wf(),
    {
        assert forall|j: int| 0 <= j < self.tokens.spec_entries().len() implies
            (#[trigger] self.tokens.spec_entries()[j]).1.wf() by {
            if j < i {
                assert(self.tokens.spec_entries()[j] == s[j]);
            } else {
                assert(self.tokens.spec_entries()[j] == s[j + 1]);
            }
        }
    }
}

/// The magnitude of `delta`.
pub open spec fn spec_magnitude(delta: i128) -> nat {
    if delta < 0 {
        (-delta) as nat
    } else {
        delta as nat
    }
}

fn magnitude(delta: i128) -> (m: u128)
    ensures
        m == spec_magnitude(delta),
{
    if delta >= 0 {
        delta as u128
    } else if delta == i128::MIN {
        0x8000_0000_0000_0000_0000_0000_0000_0000u128
    } else {
        (-delta) as u128
    }
}

/// The amounts of an account that `add` leaves after taking `amount` first
/// from what `sub` holds: the new `sub` amount and the rest for `add`.
pub open spec fn spec_offset(sub_amount: nat, amount: nat) -> (nat, nat) {
    if amount <= sub_amount {
        ((sub_amount - amount) as nat, 0)
    } else {
        (0, (amount - sub_amount) as nat)
    }
}

/// Accumulates signed token deltas of accounts. A negative delta (the
/// account's balance fell) counts against the account's earlier positive
/// deltas in `deposits` and the rest goes to `withdrawals`; a positive delta
/// counts against `withdrawals` and the rest goes to `deposits`. So
/// `withdrawals` holds what each account gave up and `deposits` what each
/// gained.
#[derive(Debug)]
pub struct TransferLogger {
    deposits: TokenAccountAmounts,
    withdrawals: TokenAccountAmounts,
}

/// The logger as values: the deposits and the withdrawals.
pub struct TransferLoggerView {
    pub deposits: AmountsView,
    pub withdrawals: AmountsView,
}

impl View for TransferLogger {
    type V = TransferLoggerView;

    closed spec fn view(&self) -> TransferLoggerView {
        TransferLoggerView { deposits: self.deposits@, withdrawals: self.withdrawals@ }
    }
}

/// No account has both gained and given up the same token.
pub open spec fn logger_disjoint(deposits: AmountsView, withdrawals: AmountsView) -> bool {
    forall|t: TokenIdView, o: Seq<char>| #[trigger] get2(deposits, t, o) == 0 || #[trigger] get2(withdrawals, t, o) == 0
}

/// The net change that a logger holds for `o` and `t`: what it gained less
/// what it gave up, the sum of the deltas recorded for them.
pub open spec fn net(l: TransferLoggerView, o: Seq<char>, t: TokenIdView) -> int {
    get2(l.deposits, t, o) - get2(l.withdrawals, t, o)
}

impl TransferLogger {
    pub closed spec fn wf(&self) -> bool {
        &&& self.deposits.wf()
        &&& self.withdrawals.wf()
        &&& logger_disjoint(self.deposits@, self.withdrawals@)
    }

    /// A logger keeps no zero amounts, no token without amounts, and never
    /// both a gain and a loss of one account in one token.
    pub proof fn lemma_wf(&self)
        requires
            self.wf(),
        ensures
            amounts_clean(self@.deposits),
            amounts_clean(self@.withdrawals),
            logger_disjoint(self@.deposits, self@.withdrawals),
    {
        self.deposits.lemma_clean();
        self.withdrawals.lemma_clean();
    }

    pub fn new() -> (l: Self)
        ensures
            l.wf(),
            l@.deposits == Map::<TokenIdView, Map<Seq<char>, u128>>::empty(),
            l@.withdrawals == Map::<TokenIdView, Map<Seq<char>, u128>>::empty(),
    {
        TransferLogger { deposits: TokenAccountAmounts::new(), withdrawals: TokenAccountAmounts::new() }
    }

    /// Takes `amount` from `owner_id`'s entry for `token_id` in `sub` as far
    /// as it goes and adds the rest to its entry in `add`; `None` where that
    /// overflows, with `sub` already reduced.
    fn add(
        owner_id: AccountId,
        token_id: TokenId,
        sub: &mut TokenAccountAmounts,
        add: &mut TokenAccountAmounts,
        amount: u128,
    ) -> (r: Option<u128>)
        requires
            old(sub).wf(),
            old(add).wf(),
        ensures
            final(sub).wf(),
            final(add).wf(),
            ({
                let off = spec_offset(get2(old(sub)@, token_id@, owner_id@), amount as nat);
                &&& final(sub)@ == set2(old(sub)@, token_id@, owner_id@, off.0 as u128)
                &&& (r is Some) <==> get2(old(add)@, token_id@, owner_id@) + off.1 <= u128::MAX
                &&& r is Some ==> r == Some(0u128) && final(add)@ == set2(old(add)@, token_id@, owner_id@,
                    (get2(old(add)@, token_id@, owner_id@) + off.1) as u128)
                &&& r is None ==> final(add)@ == old(add)@
            }),
    {
        let old_sub = sub.get(&token_id, &owner_id);
        sub.set(token_id.clone(), owner_id.clone(), old_sub.saturating_sub(amount));
        let rest = amount.saturating_sub(old_sub);
        let cur = add.get(&token_id, &owner_id);
        match cur.checked_add(rest) {
            Some(n) => {
                add.set(token_id, owner_id, n);
                Some(0)
            },
            None => None,
        }
    }

    /// Records that `owner_id`'s balance of `token_id` changed by `delta`.
    /// Returns `Some(0)`, or `None` where an amount would overflow.
    pub fn add_delta(&mut self, owner_id: AccountId, token_id: TokenId, delta: i128) -> (r: Option<i128>)
        requires
            old(self).wf(),
        ensures
            final(self).wf(),
            ({
                let sub = if delta < 0 { old(self)@.deposits } else { old(self)@.withdrawals };
                let add = if delta < 0 { old(self)@.withdrawals } else { old(self)@.deposits };
                let off = spec_offset(get2(sub, token_id@, owner_id@), spec_magnitude(delta));
                let new_sub = set2(sub, token_id@, owner_id@, off.0 as u128);
                let new_add = if r is Some {
                    set2(add, token_id@, owner_id@, (get2(add, token_id@, owner_id@) + off.1) as u128)
                } else {
                    add
                };
                &&& (r is Some) <==> get2(add, token_id@, owner_id@) + off.1 <= u128::MAX
                &&& r is Some ==> r == Some(0i128)
                &&& delta < 0 ==> final(self)@.deposits == new_sub && final(self)@.withdrawals == new_add
                &&& delta >= 0 ==> final(self)@.withdrawals == new_sub && final(self)@.deposits == new_add
            }),
            r is Some ==> get2(final(self)@.deposits, token_id@, owner_id@) - get2(final(self)@.withdrawals, token_id@, owner_id@)
                == get2(old(self)@.deposits, token_id@, owner_id@) - get2(old(self)@.withdrawals, token_id@, owner_id@) + delta,
            r is Some && (get2(old(self)@.withdrawals, token_id@, owner_id@) == 0 || get2(old(self)@.deposits, token_id@, owner_id@) == 0)
                ==> (get2(final(self)@.withdrawals, token_id@, owner_id@) == 0 || get2(final(self)@.deposits, token_id@, owner_id@) == 0),
            r is Some ==> net(final(self)@, owner_id@, token_id@) == net(old(self)@, owner_id@, token_id@) + delta,
            forall|o: Seq<char>, t: TokenIdView| (o != owner_id@ || t != token_id@) ==>
                #[trigger] net(final(self)@, o, t) == net(old(self)@, o, t),
    {
        let ghost w0 = self@.withdrawals;
        let ghost d0 = self@.deposits;
        proof {
            self.withdrawals.lemma_clean();
            self.deposits.lemma_clean();
        }
        let amount = magnitude(delta);
        let r = if delta < 0 {
            Self::add(owner_id, token_id, &mut self.deposits, &mut self.withdrawals, amount)
        } else {
            Self::add(owner_id, token_id, &mut self.withdrawals, &mut self.deposits, amount)
        };
        proof {
            let t = token_id@;
            let o = owner_id@;
            let sub = if delta < 0 { d0 } else { w0 };
            let add = if delta < 0 { w0 } else { d0 };
            let off = spec_offset(get2(sub, t, o), spec_magnitude(delta));
            lemma_set2(sub, t, o, off.0 as u128);
            if r is Some {
                lemma_set2(add, t, o, (get2(add, t, o) + off.1) as u128);
            }
        }
        proof {
            let t = token_id@;
            let o = owner_id@;
            assert forall|u: TokenIdView, b: Seq<char>| #[trigger] get2(self@.deposits, u, b) == 0 || #[trigger] get2(self@.withdrawals, u, b) == 0 by {
                if u != t || b != o {
                    assert(get2(d0, u, b) == 0 || get2(w0, u, b) == 0);
                } else {
                    assert(get2(d0, t, o) == 0 || get2(w0, t, o) == 0);
                }
            }
        }
        match r {
            Some(_) => Some(0),
            None => None,
        }
    }
}

/// A sender and a receiver.
#[derive(Debug)]
pub struct AccountPair {
    pub sender: AccountId,
    pub receiver: AccountId,
}

impl View for AccountPair {
    type V = (Seq<char>, Seq<char>);

    open spec fn view(&self) -> (Seq<char>, Seq<char>) {
        (self.sender@, self.receiver@)
    }
}

impl KeyEq for AccountPair {
    fn key_eq(&self, other: &Self) -> (r: bool) {
        self.sender.key_eq_id(&other.sender) && self.receiver.key_eq_id(&other.receiver)
    }
}

/// Per sender and receiver, the amount of each token moved.
pub type TransfersView = Map<(Seq<char>, Seq<char>), Map<TokenIdView, u128>>;

/// What `sender` moved of `t` to `receiver`.
pub open spec fn get3(tr: TransfersView, sender: Seq<char>, receiver: Seq<char>, t: TokenIdView) -> nat {
    if tr.dom().contains((sender, receiver)) {
        amount_in(tr[(sender, receiver)], t)
    } else {
        0
    }
}

/// `tr` with what `sender` moved of `t` to `receiver` set to `v`; pairs
/// without tokens leave no entry.
pub open spec fn set3(tr: TransfersView, sender: Seq<char>, receiver: Seq<char>, t: TokenIdView, v: u128) -> TransfersView {
    let inner = if tr.dom().contains((sender, receiver)) {
        tr[(sender, receiver)]
    } else {
        Map::<TokenIdView, u128>::empty()
    };
    let inner2 = with_amount(inner, t, v);
    if inner2.dom() =~= Set::<TokenIdView>::empty() {
        tr.remove((sender, receiver))
    } else {
        tr.insert((sender, receiver), inner2)
    }
}

/// Each token of `s` in its string form, with its amount.
pub open spec fn with_token_strings(s: Seq<(TokenIdView, u128)>) -> Seq<(Seq<char>, u128)> {
    s.map_values(|x: (TokenIdView, u128)| (spec_token_id_string(x.0), x.1))
}

/// `ps` lists the senders and receivers of `tr`, each pair once, each with
/// a listing of the tokens moved between them.
pub open spec fn pairs_listed(ps: Seq<(Seq<char>, Seq<char>, Seq<(TokenIdView, u128)>)>, tr: TransfersView) -> bool {
    &&& forall|i: int, j: int| 0 <= i < ps.len() && 0 <= j < ps.len() && i != j ==>
        ((#[trigger] ps[i]).0, ps[i].1) != ((#[trigger] ps[j]).0, ps[j].1)
    &&& forall|i: int| 0 <= i < ps.len() ==> tr.dom().contains(((#[trigger] ps[i]).0, ps[i].1))
        && lists_tokens(ps[i].2, tr[(ps[i].0, ps[i].1)])
    &&& forall|k: (Seq<char>, Seq<char>)| #[trigger] tr.dom().contains(k) ==>
        exists|i: int| 0 <= i < ps.len() && ((#[trigger] ps[i]).0, ps[i].1) == k
}

/// Transfers between accounts, accumulated.
#[derive(Debug)]
pub struct Transfers {
    pairs: LinearMap<AccountPair, TokenAmounts>,
}

impl View for Transfers {
    type V = TransfersView;

    closed spec fn view(&self) -> TransfersView {
        self.pairs@
    }
}

impl Transfers {
    pub closed spec fn wf(&self) -> bool {
        &&& self.pairs.wf()
        &&& forall|i: int| 0 <= i < self.pairs.spec_entries().len() ==> (#[trigger] self.pairs.spec_entries()[i]).1.wf()
    }

    pub fn new() -> (t: Self)
        ensures
            t.wf(),
            t@ == Map::<(Seq<char>, Seq<char>), Map<TokenIdView, u128>>::empty(),
    {
        Transfers { pairs: LinearMap::new() }
    }

    /// Adds `amount` of `token_id` to what `sender_id` moved to
    /// `receiver_id`, returning the new sum, or `None` (and no change) where
    /// it would overflow.
    pub fn transfer(&mut self, sender_id: AccountId, receiver_id: AccountId, token_id: TokenId, amount: u128) -> (r: Option<u128>)
        requires
            old(self).wf(),
        ensures
            final(self).wf(),
            (r is Some) <==> get3(old(self)@, sender_id@, receiver_id@, token_id@) + amount <= u128::MAX,
            r matches Some(n) ==> n == get3(old(self)@, sender_id@, receiver_id@, token_id@) + amount
                && final(self)@ == set3(old(self)@, sender_id@, receiver_id@, token_id@, n),
            r is None ==> final(self)@ == old(self)@,
    {
        let key = AccountPair { sender: sender_id, receiver: receiver_id };
        let ghost kv = key@;
        let ghost old_view = self@;
        match self.pairs.find(&key) {
            Some(i) => {
                let ghost s = self.pairs.spec_entries();
                let inner = self.pairs.value_mut_at(i);
                assert(inner.wf());
                let ghost old_inner = inner@;
                let r = inner.deposit(token_id, amount);
                let empty = inner.is_empty();
                let ghost new_inner = inner@;
                proof {
                    assert(old_view.dom().contains(kv) && old_view[kv] == old_inner);
                    if new_inner.dom() =~= Set::<TokenIdView>::empty() {
                        assert(new_inner =~= Map::<TokenIdView, u128>::empty());
                    }
                    assert forall|j: int| 0 <= j < self.pairs.spec_entries().len() implies
                        (#[trigger] self.pairs.spec_entries()[j]).1.wf() by {
                        if j != i {
                            assert(self.pairs.spec_entries()[j] == s[j]);
                        }
                    }
                }
                if empty {
                    let ghost s2 = self.pairs.spec_entries();
                    self.pairs.remove(&key);
                    proof {
                        let k = choose|k: int| 0 <= k < s2.len() && self.pairs.spec_entries() == s2.remove(k);
                        assert forall|j: int| 0 <= j < self.pairs.spec_entries().len() implies
                            (#[trigger] self.pairs.spec_entries()[j]).1.wf() by {
                            if j < k {
                                assert(self.pairs.spec_entries()[j] == s2[j]);
                            } else {
                                assert(self.pairs.spec_entries()[j] == s2[j + 1]);
                            }
                        }
                    }
                }
                proof {
                    if r is Some {
                        assert(self@ =~= set3(old_view, kv.0, kv.1, token_id@, r->0));
                    } else {
                        assert(self@ =~= old_view);
                    }
                }
                r
            },
            None => {
                let mut inner = TokenAmounts::new();
                let r = inner.deposit(token_id, amount);
                proof {
                    if inner@.dom() =~= Set::<TokenIdView>::empty() {
                        assert(inner@ =~= Map::<TokenIdView, u128>::empty());
                    }
                }
                if !inner.is_empty() {
                    let ghost s = self.pairs.spec_entries();
                    self.pairs.insert(key, inner);
                    proof {
                        assert forall|j: int| 0 <= j < self.pairs.spec_entries().len() implies
                            (#[trigger] self.pairs.spec_entries()[j]).1.wf() by {
                            if j < s.len() {
                                assert(self.pairs.spec_entries()[j] == s[j]);
                            }
                        }
                    }
                }
                proof {
                    assert(!old_view.dom().contains(kv));
                    assert(self@ =~= set3(old_view, kv.0, kv.1, token_id@, r->0));
                }
                r
            },
        }
    }
}

/// The sum of the amounts of `s`.
pub open spec fn seq_sum(s: Seq<(Seq<char>, u128)>) -> nat
    decreases s.len(),
{
    if s.len() == 0 {
        0
    } else {
        s[0].1 as nat + seq_sum(s.drop_first())
    }
}

/// Pairs senders with receivers in order (the north-west corner rule):
/// the first sender gives the first receiver as much as both still have,
/// and whoever is done leaves the line.
pub open spec fn nw_plan(senders: Seq<(Seq<char>, u128)>, receivers: Seq<(Seq<char>, u128)>) -> Seq<(Seq<char>, Seq<char>, u128)>
    decreases senders.len() + receivers.len(),
{
    if senders.len() == 0 || receivers.len() == 0 {
        Seq::empty()
    } else {
        let a = senders[0].1;
        let b = receivers[0].1;
        if a <= b {
            let r2 = if a == b { receivers.drop_first() } else { receivers.update(0, (receivers[0].0, (b - a) as u128)) };
            seq![(senders[0].0, receivers[0].0, a)] + nw_plan(senders.drop_first(), r2)
        } else {
            seq![(senders[0].0, receivers[0].0, b)] + nw_plan(senders.update(0, (senders[0].0, (a - b) as u128)), receivers.drop_first())
        }
    }
}

/// What the entries of `s` under `x` add up to.
pub open spec fn amount_of(s: Seq<(Seq<char>, u128)>, x: Seq<char>) -> nat
    decreases s.len(),
{
    if s.len() == 0 {
        0
    } else {
        (if s[0].0 == x { s[0].1 as nat } else { 0 }) + amount_of(s.drop_first(), x)
    }
}

/// What `x` sends in `plan`.
pub open spec fn sent_by(plan: Seq<(Seq<char>, Seq<char>, u128)>, x: Seq<char>) -> nat
    decreases plan.len(),
{
    if plan.len() == 0 {
        0
    } else {
        (if plan[0].0 == x { plan[0].2 as nat } else { 0 }) + sent_by(plan.drop_first(), x)
    }
}

/// What `x` receives in `plan`.
pub open spec fn received_by(plan: Seq<(Seq<char>, Seq<char>, u128)>, x: Seq<char>) -> nat
    decreases plan.len(),
{
    if plan.len() == 0 {
        0
    } else {
        (if plan[0].1 == x { plan[0].2 as nat } else { 0 }) + received_by(plan.drop_first(), x)
    }
}

proof fn lemma_amount_of_le_sum(s: Seq<(Seq<char>, u128)>, x: Seq<char>)
    ensures
        amount_of(s, x) <= seq_sum(s),
    decreases s.len(),
{
    if s.len() > 0 {
        lemma_amount_of_le_sum(s.drop_first(), x);
    }
}

proof fn lemma_plan_cons(e: (Seq<char>, Seq<char>, u128), rest: Seq<(Seq<char>, Seq<char>, u128)>, x: Seq<char>)
    ensures
        sent_by(seq![e] + rest, x) == (if e.0 == x { e.2 as nat } else { 0 }) + sent_by(rest, x),
        received_by(seq![e] + rest, x) == (if e.1 == x { e.2 as nat } else { 0 }) + received_by(rest, x),
{
    assert((seq![e] + rest).drop_first() =~= rest);
}

proof fn lemma_amount_of_update_first(s: Seq<(Seq<char>, u128)>, v: u128, x: Seq<char>)
    requires
        s.len() > 0,
    ensures
        amount_of(s.update(0, (s[0].0, v)), x) + (if s[0].0 == x { s[0].1 as nat } else { 0 })
            == amount_of(s, x) + (if s[0].0 == x { v as nat } else { 0 }),
        seq_sum(s.update(0, (s[0].0, v))) + s[0].1 == seq_sum(s) + v,
{
    assert(s.update(0, (s[0].0, v)).drop_first() =~= s.drop_first());
}

/// Matching senders against receivers in order sends from each account
/// exactly what it had to give and delivers to each exactly what it was
/// owed, where both sides add up to the same.
pub proof fn lemma_nw_plan_accounts(senders: Seq<(Seq<char>, u128)>, receivers: Seq<(Seq<char>, u128)>, x: Seq<char>)
    requires
        seq_sum(senders) == seq_sum(receivers),
    ensures
        sent_by(nw_plan(senders, receivers), x) == amount_of(senders, x),
        received_by(nw_plan(senders, receivers), x) == amount_of(receivers, x),
    decreases senders.len() + receivers.len(),
{
    if senders.len() == 0 || receivers.len() == 0 {
        lemma_amount_of_le_sum(senders, x);
        lemma_amount_of_le_sum(receivers, x);
    } else {
        let a = senders[0].1;
        let b = receivers[0].1;
        if a <= b {
            let r2 = if a == b { receivers.drop_first() } else { receivers.update(0, (receivers[0].0, (b - a) as u128)) };
            if a < b {
                lemma_amount_of_update_first(receivers, (b - a) as u128, x);
                assert(r2.drop_first() =~= receivers.drop_first());
            }
            lemma_nw_plan_accounts(senders.drop_first(), r2, x);
            lemma_plan_cons((senders[0].0, receivers[0].0, a), nw_plan(senders.drop_first(), r2), x);
        } else {
            let s2 = senders.update(0, (senders[0].0, (a - b) as u128));
            lemma_amount_of_update_first(senders, (a - b) as u128, x);
            lemma_nw_plan_accounts(s2, receivers.drop_first(), x);
            lemma_plan_cons((senders[0].0, receivers[0].0, b), nw_plan(s2, receivers.drop_first()), x);
        }
    }
}

/// Accumulates the transfers of `plan` in `token` into `tr`; `None` where a
/// sum overflows.
pub open spec fn apply_plan(tr: TransfersView, token: TokenIdView, plan: Seq<(Seq<char>, Seq<char>, u128)>) -> Option<TransfersView>
    decreases plan.len(),
{
    if plan.len() == 0 {
        Some(tr)
    } else {
        let cur = get3(tr, plan[0].0, plan[0].1, token);
        if cur + plan[0].2 > u128::MAX {
            None
        } else {
            apply_plan(set3(tr, plan[0].0, plan[0].1, token, (cur + plan[0].2) as u128), token, plan.drop_first())
        }
    }
}

/// The position of `t` in `ws` at or after `i`, or -1.
pub open spec fn find_token(ws: Seq<(TokenIdView, Seq<(Seq<char>, u128)>)>, t: TokenIdView, i: int) -> int
    decreases ws.len() - i,
{
    if i < 0 || i >= ws.len() {
        -1
    } else if ws[i].0 == t {
        i
    } else {
        find_token(ws, t, i + 1)
    }
}

/// Turning the deposits `deps` and withdrawals `wds` of each token into
/// transfers added to `tr`: for each deposited token in order, its
/// withdrawals must exist, the plan must not overflow and the two sides
/// must balance; no withdrawals may be left at the end.
pub open spec fn spec_finalize(
    deps: Seq<(TokenIdView, Seq<(Seq<char>, u128)>)>,
    wds: Seq<(TokenIdView, Seq<(Seq<char>, u128)>)>,
    tr: TransfersView,
) -> Result<TransfersView, DefuseError>
    decreases deps.len(),
{
    if deps.len() == 0 {
        if wds.len() == 0 {
            Ok(tr)
        } else {
            Err(DefuseError::InvariantViolated)
        }
    } else {
        let t = deps[0].0;
        let i = find_token(wds, t, 0);
        if i < 0 {
            Err(DefuseError::InvariantViolated)
        } else {
            match apply_plan(tr, t, nw_plan(wds[i].1, deps[0].1)) {
                None => Err(DefuseError::BalanceOverflow),
                Some(tr2) => if seq_sum(wds[i].1) != seq_sum(deps[0].1) {
                    Err(DefuseError::InvariantViolated)
                } else {
                    spec_finalize(deps.drop_first(), wds.remove(i), tr2)
                },
            }
        }
    }
}

/// The entries of `s` from position `i` on, the first with amount `a`.
pub open spec fn rest_from(s: Seq<(Seq<char>, u128)>, i: int, a: u128) -> Seq<(Seq<char>, u128)> {
    if 0 <= i < s.len() {
        seq![(s[i].0, a)] + s.skip(i + 1)
    } else {
        Seq::empty()
    }
}

proof fn lemma_seq_sum_cons(x: (Seq<char>, u128), s: Seq<(Seq<char>, u128)>)
    ensures
        seq_sum(seq![x] + s) == x.1 + seq_sum(s),
{
    assert((seq![x] + s).drop_first() =~= s);
}

proof fn lemma_seq_sum_skip(s: Seq<(Seq<char>, u128)>, i: int)
    requires
        0 <= i < s.len(),
    ensures
        seq_sum(s.skip(i)) == s[i].1 + seq_sum(s.skip(i + 1)),
{
    assert(s.skip(i).drop_first() =~= s.skip(i + 1));
}

proof fn lemma_rest_from_full(s: Seq<(Seq<char>, u128)>)
    ensures
        s.len() > 0 ==> rest_from(s, 0, s[0].1) =~= s,
{
}

proof fn lemma_find_token(ws: Seq<(TokenIdView, Seq<(Seq<char>, u128)>)>, t: TokenIdView, i: int, k: int)
    requires
        0 <= i <= k < ws.len(),
        ws[k].0 == t,
        forall|j: int| i <= j < k ==> ws[j].0 != t,
    ensures
        find_token(ws, t, i) == k,
    decreases k - i,
{
    if i < k {
        lemma_find_token(ws, t, i + 1, k);
    }
}

proof fn lemma_find_token_none(ws: Seq<(TokenIdView, Seq<(Seq<char>, u128)>)>, t: TokenIdView, i: int)
    requires
        0 <= i <= ws.len(),
        forall|j: int| i <= j < ws.len() ==> ws[j].0 != t,
    ensures
        find_token(ws, t, i) == -1,
    decreases ws.len() - i,
{
    if i < ws.len() {
        lemma_find_token_none(ws, t, i + 1);
    }
}

/// No two entries of `s` name the same account.
pub open spec fn names_unique(s: Seq<(Seq<char>, u128)>) -> bool {
    forall|i: int, j: int| 0 <= i < s.len() && 0 <= j < s.len() && i != j ==> (#[trigger] s[i]).0 != (#[trigger] s[j]).0
}

/// `s` lists the accounts of `m` with their amounts, each once.
pub open spec fn lists(s: Seq<(Seq<char>, u128)>, m: Map<Seq<char>, u128>) -> bool {
    &&& names_unique(s)
    &&& forall|i: int| 0 <= i < s.len() ==> m.dom().contains((#[trigger] s[i]).0) && m[s[i].0] == s[i].1
    &&& forall|a: Seq<char>| #[trigger] m.dom().contains(a) ==> exists|i: int| 0 <= i < s.len() && (#[trigger] s[i]).0 == a
}

/// Some sequence lists the accounts of `m`.
pub open spec fn listable(m: Map<Seq<char>, u128>) -> bool {
    exists|s: Seq<(Seq<char>, u128)>| lists(s, m)
}

/// The sum of the amounts of `m`, over all its accounts.
pub open spec fn map_total(m: Map<Seq<char>, u128>) -> nat {
    if listable(m) {
        seq_sum(choose|s: Seq<(Seq<char>, u128)>| lists(s, m))
    } else {
        0
    }
}

/// `es` lists the tokens of `m`, each once, each with a listing of its
/// accounts and amounts.
pub open spec fn table_lists(es: Seq<(TokenIdView, Seq<(Seq<char>, u128)>)>, m: AmountsView) -> bool {
    &&& forall|i: int, j: int| 0 <= i < es.len() && 0 <= j < es.len() && i != j ==> (#[trigger] es[i]).0 != (#[trigger] es[j]).0
    &&& forall|i: int| 0 <= i < es.len() ==> m.dom().contains((#[trigger] es[i]).0) && lists(es[i].1, m[es[i].0])
    &&& forall|t: TokenIdView| #[trigger] m.dom().contains(t) ==> exists|i: int| 0 <= i < es.len() && (#[trigger] es[i]).0 == t
}

/// Per token, what the receivers of `x` got from it in `tr`.
pub open spec fn sent_row(tr: TransfersView, x: Seq<char>, t: TokenIdView) -> Map<Seq<char>, u128> {
    Map::new(|r: Seq<char>| get3(tr, x, r, t) > 0, |r: Seq<char>| get3(tr, x, r, t) as u128)
}

/// Per token, what the senders to `x` gave it in `tr`.
pub open spec fn received_row(tr: TransfersView, x: Seq<char>, t: TokenIdView) -> Map<Seq<char>, u128> {
    Map::new(|s: Seq<char>| get3(tr, s, x, t) > 0, |s: Seq<char>| get3(tr, s, x, t) as u128)
}

/// What `x` sent of `t` in `tr`, to all receivers together.
pub open spec fn sent_total(tr: TransfersView, x: Seq<char>, t: TokenIdView) -> nat {
    map_total(sent_row(tr, x, t))
}

/// What `x` received of `t` in `tr`, from all senders together.
pub open spec fn received_total(tr: TransfersView, x: Seq<char>, t: TokenIdView) -> nat {
    map_total(received_row(tr, x, t))
}

/// The deltas of a logger balance: the same tokens were given up and
/// gained, and per token the amounts given up add up to the amounts gained.
pub open spec fn logger_balanced(deposits: AmountsView, withdrawals: AmountsView) -> bool {
    &&& deposits.dom() == withdrawals.dom()
    &&& forall|t: TokenIdView| #[trigger] deposits.dom().contains(t) ==> map_total(deposits[t]) == map_total(withdrawals[t])
}

proof fn lemma_seq_sum_remove(s: Seq<(Seq<char>, u128)>, j: int)
    requires
        0 <= j < s.len(),
    ensures
        seq_sum(s) == s[j].1 + seq_sum(s.remove(j)),
    decreases j,
{
    if j == 0 {
        assert(s.remove(0) =~= s.drop_first());
    } else {
        lemma_seq_sum_remove(s.drop_first(), j - 1);
        assert(s.drop_first().remove(j - 1) =~= s.remove(j).drop_first());
        assert(s.remove(j)[0] == s[0]);
    }
}

proof fn lemma_lists_remove(s: Seq<(Seq<char>, u128)>, m: Map<Seq<char>, u128>, j: int)
    requires
        lists(s, m),
        0 <= j < s.len(),
    ensures
        lists(s.remove(j), m.remove(s[j].0)),
{
    let s2 = s.remove(j);
    let m2 = m.remove(s[j].0);
    assert forall|i: int| 0 <= i < s2.len() implies m2.dom().contains((#[trigger] s2[i]).0) && m2[s2[i].0] == s2[i].1 by {
        if i < j {
            assert(s2[i] == s[i]);
        } else {
            assert(s2[i] == s[i + 1]);
        }
    }
    assert forall|a: Seq<char>| #[trigger] m2.dom().contains(a) implies exists|i: int| 0 <= i < s2.len() && (#[trigger] s2[i]).0 == a by {
        let i = choose|i: int| 0 <= i < s.len() && (#[trigger] s[i]).0 == a;
        if i < j {
            assert(s2[i] == s[i]);
        } else {
            assert(i != j);
            assert(s2[i - 1] == s[i]);
        }
    }
    assert forall|i: int, k: int| 0 <= i < s2.len() && 0 <= k < s2.len() && i != k implies (#[trigger] s2[i]).0 != (#[trigger] s2[k]).0 by {
        let ii = if i < j { i } else { i + 1 };
        let kk = if k < j { k } else { k + 1 };
        assert(s2[i] == s[ii]);
        assert(s2[k] == s[kk]);
    }
}

proof fn lemma_lists_same_sum(s1: Seq<(Seq<char>, u128)>, s2: Seq<(Seq<char>, u128)>, m: Map<Seq<char>, u128>)
    requires
        lists(s1, m),
        lists(s2, m),
    ensures
        seq_sum(s1) == seq_sum(s2),
    decreases s1.len(),
{
    if s1.len() == 0 {
        if s2.len() > 0 {
            assert(m.dom().contains(s2[0].0));
        }
    } else {
        let e = s1[0];
        assert(m.dom().contains(e.0));
        let j = choose|j: int| 0 <= j < s2.len() && (#[trigger] s2[j]).0 == e.0;
        lemma_lists_remove(s1, m, 0);
        lemma_lists_remove(s2, m, j);
        assert(s1.remove(0) =~= s1.drop_first());
        lemma_lists_same_sum(s1.drop_first(), s2.remove(j), m.remove(e.0));
        lemma_seq_sum_remove(s2, j);
    }
}

/// The total of a listed map is the sum of any listing of it.
pub proof fn lemma_map_total(s: Seq<(Seq<char>, u128)>, m: Map<Seq<char>, u128>)
    requires
        lists(s, m),
    ensures
        listable(m),
        map_total(m) == seq_sum(s),
{
    let c = choose|c: Seq<(Seq<char>, u128)>| lists(c, m);
    lemma_lists_same_sum(s, c, m);
}

/// A listed map totals at least each of its amounts.
pub proof fn lemma_map_total_ge(m: Map<Seq<char>, u128>, k: Seq<char>)
    requires
        listable(m),
        m.dom().contains(k),
    ensures
        map_total(m) >= m[k],
{
    let s = choose|s: Seq<(Seq<char>, u128)>| lists(s, m);
    lemma_map_total(s, m);
    let i = choose|i: int| 0 <= i < s.len() && (#[trigger] s[i]).0 == k;
    lemma_seq_sum_remove(s, i);
}

/// An empty map totals zero.
pub proof fn lemma_map_total_empty(m: Map<Seq<char>, u128>)
    requires
        m.dom() =~= Set::<Seq<char>>::empty(),
    ensures
        listable(m),
        map_total(m) == 0,
{
    lemma_map_total(Seq::empty(), m);
}

/// Adding an account adds its amount to the total.
pub proof fn lemma_map_total_insert(m: Map<Seq<char>, u128>, k: Seq<char>, v: u128)
    requires
        listable(m),
        !m.dom().contains(k),
    ensures
        listable(m.insert(k, v)),
        map_total(m.insert(k, v)) == map_total(m) + v,
{
    let s = choose|s: Seq<(Seq<char>, u128)>| lists(s, m);
    let s2 = seq![(k, v)] + s;
    let m2 = m.insert(k, v);
    assert forall|i: int| 0 <= i < s2.len() implies m2.dom().contains((#[trigger] s2[i]).0) && m2[s2[i].0] == s2[i].1 by {
        if i > 0 {
            assert(s2[i] == s[i - 1]);
        }
    }
    assert forall|a: Seq<char>| #[trigger] m2.dom().contains(a) implies exists|i: int| 0 <= i < s2.len() && (#[trigger] s2[i]).0 == a by {
        if a == k {
            assert(s2[0].0 == a);
        } else {
            let i = choose|i: int| 0 <= i < s.len() && (#[trigger] s[i]).0 == a;
            assert(s2[i + 1] == s[i]);
        }
    }
    assert forall|i: int, j: int| 0 <= i < s2.len() && 0 <= j < s2.len() && i != j implies (#[trigger] s2[i]).0 != (#[trigger] s2[j]).0 by {
        if i > 0 {
            assert(s2[i] == s[i - 1]);
        }
        if j > 0 {
            assert(s2[j] == s[j - 1]);
        }
    }
    lemma_map_total(s2, m2);
    lemma_map_total(s, m);
    assert(s2.drop_first() =~= s);
}

/// What a listing gives one account is that account's amount.
proof fn lemma_amount_of_lists(s: Seq<(Seq<char>, u128)>, m: Map<Seq<char>, u128>, x: Seq<char>)
    requires
        lists(s, m),
    ensures
        amount_of(s, x) == (if m.dom().contains(x) { m[x] as nat } else { 0 }),
    decreases s.len(),
{
    if s.len() == 0 {
        if m.dom().contains(x) {
            let i = choose|i: int| 0 <= i < s.len() && (#[trigger] s[i]).0 == x;
        }
    } else {
        lemma_lists_remove(s, m, 0);
        assert(s.remove(0) =~= s.drop_first());
        lemma_amount_of_lists(s.drop_first(), m.remove(s[0].0), x);
    }
}

proof fn lemma_set3_rows(tr: TransfersView, s0: Seq<char>, r0: Seq<char>, t: TokenIdView, v: u128)
    requires
        v > 0,
        get3(tr, s0, r0, t) == 0,
    ensures
        get3(set3(tr, s0, r0, t, v), s0, r0, t) == v,
        forall|s: Seq<char>, r: Seq<char>, u: TokenIdView| (s != s0 || r != r0 || u != t)
            ==> #[trigger] get3(set3(tr, s0, r0, t, v), s, r, u) == get3(tr, s, r, u),
        !sent_row(tr, s0, t).dom().contains(r0),
        sent_row(set3(tr, s0, r0, t, v), s0, t) == sent_row(tr, s0, t).insert(r0, v),
        forall|x: Seq<char>| x != s0 ==> #[trigger] sent_row(set3(tr, s0, r0, t, v), x, t) == sent_row(tr, x, t),
        !received_row(tr, r0, t).dom().contains(s0),
        received_row(set3(tr, s0, r0, t, v), r0, t) == received_row(tr, r0, t).insert(s0, v),
        forall|x: Seq<char>| x != r0 ==> #[trigger] received_row(set3(tr, s0, r0, t, v), x, t) == received_row(tr, x, t),
{
    let tr1 = set3(tr, s0, r0, t, v);
    let inner = if tr.dom().contains((s0, r0)) { tr[(s0, r0)] } else { Map::<TokenIdView, u128>::empty() };
    let inner2 = with_amount(inner, t, v);
    assert(inner2.dom().contains(t));
    assert(tr1[(s0, r0)] == inner2);
    assert forall|s: Seq<char>, r: Seq<char>, u: TokenIdView| (s != s0 || r != r0 || u != t)
        implies #[trigger] get3(tr1, s, r, u) == get3(tr, s, r, u) by {
        if s == s0 && r == r0 {
            assert(amount_in(inner2, u) == amount_in(inner, u));
        }
    }
    assert(sent_row(tr1, s0, t) =~= sent_row(tr, s0, t).insert(r0, v));
    assert forall|x: Seq<char>| x != s0 implies #[trigger] sent_row(tr1, x, t) == sent_row(tr, x, t) by {
        assert(sent_row(tr1, x, t) =~= sent_row(tr, x, t));
    }
    assert(received_row(tr1, r0, t) =~= received_row(tr, r0, t).insert(s0, v));
    assert forall|x: Seq<char>| x != r0 implies #[trigger] received_row(tr1, x, t) == received_row(tr, x, t) by {
        assert(received_row(tr1, x, t) =~= received_row(tr, x, t));
    }
}

/// All amounts of `s` are positive.
pub open spec fn amounts_positive(s: Seq<(Seq<char>, u128)>) -> bool {
    forall|i: int| 0 <= i < s.len() ==> (#[trigger] s[i]).1 > 0
}

/// Accumulating the plan of one token into transfers that hold nothing yet
/// between its senders and receivers never overflows, touches no other
/// token, and, where both sides balance, adds to each account's sent and
/// received totals exactly its amount on either side.
proof fn lemma_apply_nw(tr: TransfersView, t: TokenIdView, ws: Seq<(Seq<char>, u128)>, ds: Seq<(Seq<char>, u128)>)
    requires
        names_unique(ws),
        names_unique(ds),
        amounts_positive(ws),
        amounts_positive(ds),
        forall|i: int, j: int| 0 <= i < ws.len() && 0 <= j < ds.len() ==> get3(tr, (#[trigger] ws[i]).0, (#[trigger] ds[j]).0, t) == 0,
        forall|x: Seq<char>| listable(#[trigger] sent_row(tr, x, t)),
        forall|x: Seq<char>| listable(#[trigger] received_row(tr, x, t)),
    ensures
        apply_plan(tr, t, nw_plan(ws, ds)) is Some,
        forall|s: Seq<char>, r: Seq<char>, u: TokenIdView| u != t ==>
            #[trigger] get3(apply_plan(tr, t, nw_plan(ws, ds))->0, s, r, u) == get3(tr, s, r, u),
        seq_sum(ws) == seq_sum(ds) ==> forall|x: Seq<char>|
            #[trigger] sent_total(apply_plan(tr, t, nw_plan(ws, ds))->0, x, t) == sent_total(tr, x, t) + amount_of(ws, x)
            && received_total(apply_plan(tr, t, nw_plan(ws, ds))->0, x, t) == received_total(tr, x, t) + amount_of(ds, x),
        forall|x: Seq<char>| listable(#[trigger] sent_row(apply_plan(tr, t, nw_plan(ws, ds))->0, x, t)),
        forall|x: Seq<char>| listable(#[trigger] received_row(apply_plan(tr, t, nw_plan(ws, ds))->0, x, t)),
    decreases ws.len() + ds.len(),
{
    let plan = nw_plan(ws, ds);
    if ws.len() == 0 || ds.len() == 0 {
        assert(plan.len() == 0);
        if seq_sum(ws) == seq_sum(ds) {
            assert forall|x: Seq<char>| #[trigger] sent_total(tr, x, t) == sent_total(tr, x, t) + amount_of(ws, x)
                && received_total(tr, x, t) == received_total(tr, x, t) + amount_of(ds, x) by {
                lemma_amount_of_le_sum(ws, x);
                lemma_amount_of_le_sum(ds, x);
                if ws.len() > 0 {
                    lemma_seq_sum_remove(ws, 0);
                }
                if ds.len() > 0 {
                    lemma_seq_sum_remove(ds, 0);
                }
            }
        }
    } else {
        let s0 = ws[0].0;
        let r0 = ds[0].0;
        let a = ws[0].1;
        let b = ds[0].1;
        let m = if a <= b { a } else { b };
        let ws2 = if a <= b { ws.drop_first() } else { ws.update(0, (s0, (a - b) as u128)) };
        let ds2 = if a < b { ds.update(0, (r0, (b - a) as u128)) } else { ds.drop_first() };
        assert(plan[0] == (s0, r0, m));
        assert(plan.drop_first() =~= nw_plan(ws2, ds2));
        assert(get3(tr, ws[0].0, ds[0].0, t) == 0);
        let tr1 = set3(tr, s0, r0, t, m);
        lemma_set3_rows(tr, s0, r0, t, m);
        assert(apply_plan(tr, t, plan) == apply_plan(tr1, t, nw_plan(ws2, ds2)));
        // the rest of the plan starts from untouched pairs
        assert forall|i: int, j: int| 0 <= i < ws2.len() && 0 <= j < ds2.len() implies
            get3(tr1, (#[trigger] ws2[i]).0, (#[trigger] ds2[j]).0, t) == 0 by {
            let ii = if a <= b { i + 1 } else { i };
            let jj = if a < b { j } else { j + 1 };
            assert(ws2[i].0 == ws[ii].0);
            assert(ds2[j].0 == ds[jj].0);
            if a <= b {
                assert(ws[ii].0 != ws[0].0);
            } else {
                assert(ds[jj].0 != ds[0].0);
            }
        }
        assert forall|x: Seq<char>| listable(#[trigger] sent_row(tr1, x, t)) by {
            if x == s0 {
                lemma_map_total_insert(sent_row(tr, s0, t), r0, m);
            }
        }
        assert forall|x: Seq<char>| listable(#[trigger] received_row(tr1, x, t)) by {
            if x == r0 {
                lemma_map_total_insert(received_row(tr, r0, t), s0, m);
            }
        }
        assert(names_unique(ws2)) by {
            assert forall|i: int, j: int| 0 <= i < ws2.len() && 0 <= j < ws2.len() && i != j implies
                (#[trigger] ws2[i]).0 != (#[trigger] ws2[j]).0 by {
                if a <= b {
                    assert(ws2[i] == ws[i + 1] && ws2[j] == ws[j + 1]);
                } else {
                    assert(ws2[i].0 == ws[i].0 && ws2[j].0 == ws[j].0);
                }
            }
        }
        assert(names_unique(ds2)) by {
            assert forall|i: int, j: int| 0 <= i < ds2.len() && 0 <= j < ds2.len() && i != j implies
                (#[trigger] ds2[i]).0 != (#[trigger] ds2[j]).0 by {
                if a < b {
                    assert(ds2[i].0 == ds[i].0 && ds2[j].0 == ds[j].0);
                } else {
                    assert(ds2[i] == ds[i + 1] && ds2[j] == ds[j + 1]);
                }
            }
        }
        assert(amounts_positive(ws2)) by {
            assert forall|i: int| 0 <= i < ws2.len() implies (#[trigger] ws2[i]).1 > 0 by {
                if a <= b {
                    assert(ws2[i] == ws[i + 1]);
                } else if i > 0 {
                    assert(ws2[i] == ws[i]);
                }
            }
        }
        assert(amounts_positive(ds2)) by {
            assert forall|i: int| 0 <= i < ds2.len() implies (#[trigger] ds2[i]).1 > 0 by {
                if a < b {
                    if i > 0 {
                        assert(ds2[i] == ds[i]);
                    }
                } else {
                    assert(ds2[i] == ds[i + 1]);
                }
            }
        }
        lemma_apply_nw(tr1, t, ws2, ds2);
        let tr2 = apply_plan(tr1, t, nw_plan(ws2, ds2))->0;
        if seq_sum(ws) == seq_sum(ds) {
            if a <= b {
                assert(seq_sum(ws) == a + seq_sum(ws2));
            } else {
                lemma_amount_of_update_first(ws, (a - b) as u128, s0);
            }
            if a < b {
                lemma_amount_of_update_first(ds, (b - a) as u128, r0);
            } else {
                assert(seq_sum(ds) == b + seq_sum(ds2));
            }
            assert(seq_sum(ws2) == seq_sum(ds2));
            assert forall|x: Seq<char>| #[trigger] sent_total(tr2, x, t) == sent_total(tr, x, t) + amount_of(ws, x)
                && received_total(tr2, x, t) == received_total(tr, x, t) + amount_of(ds, x) by {
                assert(sent_total(tr2, x, t) == sent_total(tr1, x, t) + amount_of(ws2, x));
                assert(received_total(tr2, x, t) == received_total(tr1, x, t) + amount_of(ds2, x));
                if x == s0 {
                    lemma_map_total_insert(sent_row(tr, s0, t), r0, m);
                }
                if x == r0 {
                    lemma_map_total_insert(received_row(tr, r0, t), s0, m);
                }
                if a > b {
                    lemma_amount_of_update_first(ws, (a - b) as u128, x);
                }
                if a < b {
                    lemma_amount_of_update_first(ds, (b - a) as u128, x);
                }
                assert(sent_total(tr1, x, t) == sent_total(tr, x, t) + (if x == s0 { m as nat } else { 0 }));
                assert(received_total(tr1, x, t) == received_total(tr, x, t) + (if x == r0 { m as nat } else { 0 }));
                assert(amount_of(ws, x) == amount_of(ws2, x) + (if x == s0 { m as nat } else { 0 }));
                assert(amount_of(ds, x) == amount_of(ds2, x) + (if x == r0 { m as nat } else { 0 }));
            }
        }
    }
}

proof fn lemma_table_lists_remove(es: Seq<(TokenIdView, Seq<(Seq<char>, u128)>)>, m: AmountsView, j: int)
    requires
        table_lists(es, m),
        0 <= j < es.len(),
    ensures
        table_lists(es.remove(j), m.remove(es[j].0)),
{
    let e2 = es.remove(j);
    let m2 = m.remove(es[j].0);
    assert forall|i: int| 0 <= i < e2.len() implies m2.dom().contains((#[trigger] e2[i]).0) && lists(e2[i].1, m2[e2[i].0]) by {
        let ii = if i < j { i } else { i + 1 };
        assert(e2[i] == es[ii]);
    }
    assert forall|t: TokenIdView| #[trigger] m2.dom().contains(t) implies exists|i: int| 0 <= i < e2.len() && (#[trigger] e2[i]).0 == t by {
        let i = choose|i: int| 0 <= i < es.len() && (#[trigger] es[i]).0 == t;
        if i < j {
            assert(e2[i] == es[i]);
        } else {
            assert(e2[i - 1] == es[i]);
        }
    }
    assert forall|i: int, k: int| 0 <= i < e2.len() && 0 <= k < e2.len() && i != k implies (#[trigger] e2[i]).0 != (#[trigger] e2[k]).0 by {
        let ii = if i < j { i } else { i + 1 };
        let kk = if k < j { k } else { k + 1 };
        assert(e2[i] == es[ii]);
        assert(e2[k] == es[kk]);
    }
}

proof fn lemma_lists_positive(s: Seq<(Seq<char>, u128)>, m: Map<Seq<char>, u128>)
    requires
        lists(s, m),
        forall|a: Seq<char>| #[trigger] m.dom().contains(a) ==> m[a] > 0,
    ensures
        amounts_positive(s),
{
    assert forall|i: int| 0 <= i < s.len() implies (#[trigger] s[i]).1 > 0 by {
        assert(m.dom().contains(s[i].0));
    }
}

/// Finalizing listed deposits and withdrawals into transfers that hold
/// nothing yet of their tokens succeeds exactly when they balance, fails
/// only with `InvariantViolated`, and then sends from each account exactly
/// what it gave up and delivers to each exactly what it gained.
proof fn lemma_finalize_totals(
    deps: Seq<(TokenIdView, Seq<(Seq<char>, u128)>)>,
    wds: Seq<(TokenIdView, Seq<(Seq<char>, u128)>)>,
    tr: TransfersView,
    d: AmountsView,
    w: AmountsView,
)
    requires
        table_lists(deps, d),
        table_lists(wds, w),
        amounts_clean(d),
        amounts_clean(w),
        forall|s: Seq<char>, r: Seq<char>, t: TokenIdView| d.dom().contains(t) ==> #[trigger] get3(tr, s, r, t) == 0,
    ensures
        (spec_finalize(deps, wds, tr) is Ok) <==> logger_balanced(d, w),
        spec_finalize(deps, wds, tr) is Err ==> spec_finalize(deps, wds, tr) == Err::<TransfersView, DefuseError>(DefuseError::InvariantViolated),
        spec_finalize(deps, wds, tr) is Ok ==> {
            let tr2 = spec_finalize(deps, wds, tr)->Ok_0;
            &&& forall|s: Seq<char>, r: Seq<char>, t: TokenIdView| !d.dom().contains(t) ==> #[trigger] get3(tr2, s, r, t) == get3(tr, s, r, t)
            &&& forall|x: Seq<char>, t: TokenIdView| d.dom().contains(t) ==> #[trigger] sent_total(tr2, x, t) == get2(w, t, x)
            &&& forall|x: Seq<char>, t: TokenIdView| d.dom().contains(t) ==> #[trigger] received_total(tr2, x, t) == get2(d, t, x)
            &&& forall|x: Seq<char>, t: TokenIdView| d.dom().contains(t) ==> listable(#[trigger] sent_row(tr2, x, t))
            &&& forall|x: Seq<char>, t: TokenIdView| d.dom().contains(t) ==> listable(#[trigger] received_row(tr2, x, t))
        },
    decreases deps.len(),
{
    if deps.len() == 0 {
        assert forall|t: TokenIdView| !d.dom().contains(t) by {
            if d.dom().contains(t) {
                let i = choose|i: int| 0 <= i < deps.len() && (#[trigger] deps[i]).0 == t;
            }
        }
        if wds.len() > 0 {
            assert(w.dom().contains(wds[0].0));
        } else {
            assert forall|t: TokenIdView| !w.dom().contains(t) by {
                if w.dom().contains(t) {
                    let i = choose|i: int| 0 <= i < wds.len() && (#[trigger] wds[i]).0 == t;
                }
            }
            assert(d.dom() =~= w.dom());
        }
    } else {
        let t0 = deps[0].0;
        assert(d.dom().contains(t0));
        let i = find_token(wds, t0, 0);
        if !w.dom().contains(t0) {
            assert forall|j: int| 0 <= j < wds.len() implies wds[j].0 != t0 by {
                assert(w.dom().contains(wds[j].0));
            }
            lemma_find_token_none(wds, t0, 0);
        } else {
            let k = choose|k: int| 0 <= k < wds.len() && (#[trigger] wds[k]).0 == t0;
            assert forall|j: int| 0 <= j < k implies wds[j].0 != t0 by {
                assert(wds[j].0 != wds[k].0);
            }
            lemma_find_token(wds, t0, 0, k);
            assert(i == k);
            let ws = wds[k].1;
            let ds = deps[0].1;
            assert(lists(ws, w[t0]));
            assert(lists(ds, d[t0]));
            lemma_lists_positive(ws, w[t0]);
            lemma_lists_positive(ds, d[t0]);
            assert forall|x: Seq<char>| listable(#[trigger] sent_row(tr, x, t0)) && sent_total(tr, x, t0) == 0 by {
                assert forall|r: Seq<char>| get3(tr, x, r, t0) == 0 by {
                    assert(get3(tr, x, r, t0) == 0);
                }
                lemma_map_total_empty(sent_row(tr, x, t0));
            }
            assert forall|x: Seq<char>| listable(#[trigger] received_row(tr, x, t0)) && received_total(tr, x, t0) == 0 by {
                assert forall|s: Seq<char>| get3(tr, s, x, t0) == 0 by {
                    assert(get3(tr, s, x, t0) == 0);
                }
                lemma_map_total_empty(received_row(tr, x, t0));
            }
            lemma_apply_nw(tr, t0, ws, ds);
            let tr2 = apply_plan(tr, t0, nw_plan(ws, ds))->0;
            lemma_map_total(ws, w[t0]);
            lemma_map_total(ds, d[t0]);
            if seq_sum(ws) == seq_sum(ds) {
                let d2 = d.remove(t0);
                let w2 = w.remove(t0);
                lemma_table_lists_remove(deps, d, 0);
                assert(deps.remove(0) =~= deps.drop_first());
                lemma_table_lists_remove(wds, w, k);
                assert forall|s: Seq<char>, r: Seq<char>, t: TokenIdView| d2.dom().contains(t) implies #[trigger] get3(tr2, s, r, t) == 0 by {
                    assert(get3(tr, s, r, t) == 0);
                }
                lemma_finalize_totals(deps.drop_first(), wds.remove(k), tr2, d2, w2);
                assert(spec_finalize(deps, wds, tr) == spec_finalize(deps.drop_first(), wds.remove(k), tr2));
                if logger_balanced(d2, w2) {
                    assert(d.dom() =~= w.dom());
                    assert forall|t: TokenIdView| #[trigger] d.dom().contains(t) implies map_total(d[t]) == map_total(w[t]) by {
                        if t != t0 {
                            assert(d2.dom().contains(t));
                        }
                    }
                }
                if logger_balanced(d, w) {
                    assert(d2.dom() =~= w2.dom());
                    assert forall|t: TokenIdView| #[trigger] d2.dom().contains(t) implies map_total(d2[t]) == map_total(w2[t]) by {
                        assert(d.dom().contains(t));
                    }
                }
                if spec_finalize(deps, wds, tr) is Ok {
                    let tr3 = spec_finalize(deps, wds, tr)->Ok_0;
                    assert forall|x: Seq<char>, t: TokenIdView| d.dom().contains(t) implies #[trigger] sent_total(tr3, x, t) == get2(w, t, x)
                        && received_total(tr3, x, t) == get2(d, t, x) by {
                        if t == t0 {
                            assert(sent_row(tr3, x, t0) =~= sent_row(tr2, x, t0)) by {
                                assert forall|r: Seq<char>| get3(tr3, x, r, t0) == get3(tr2, x, r, t0) by {
                                    assert(!d2.dom().contains(t0));
                                }
                            }
                            assert(received_row(tr3, x, t0) =~= received_row(tr2, x, t0)) by {
                                assert forall|s: Seq<char>| get3(tr3, s, x, t0) == get3(tr2, s, x, t0) by {
                                    assert(!d2.dom().contains(t0));
                                }
                            }
                            lemma_amount_of_lists(ws, w[t0], x);
                            lemma_amount_of_lists(ds, d[t0], x);
                            assert(sent_total(tr2, x, t0) == sent_total(tr, x, t0) + amount_of(ws, x));
                            assert(received_total(tr2, x, t0) == received_total(tr, x, t0) + amount_of(ds, x));
                            assert(sent_total(tr, x, t0) == 0);
                            assert(received_total(tr, x, t0) == 0);
                        } else {
                            assert(d2.dom().contains(t));
                        }
                    }
                    assert forall|x: Seq<char>, t: TokenIdView| d.dom().contains(t) implies #[trigger] received_total(tr3, x, t) == get2(d, t, x) by {
                        assert(sent_total(tr3, x, t) == get2(w, t, x));
                    }
                    assert forall|x: Seq<char>, t: TokenIdView| d.dom().contains(t) implies listable(#[trigger] sent_row(tr3, x, t))
                        && listable(received_row(tr3, x, t)) by {
                        if t == t0 {
                            assert(sent_row(tr3, x, t0) =~= sent_row(tr2, x, t0)) by {
                                assert forall|r: Seq<char>| get3(tr3, x, r, t0) == get3(tr2, x, r, t0) by {
                                    assert(!d2.dom().contains(t0));
                                }
                            }
                            assert(received_row(tr3, x, t0) =~= received_row(tr2, x, t0)) by {
                                assert forall|s: Seq<char>| get3(tr3, s, x, t0) == get3(tr2, s, x, t0) by {
                                    assert(!d2.dom().contains(t0));
                                }
                            }
                        } else {
                            assert(d2.dom().contains(t));
                        }
                    }
                    assert forall|x: Seq<char>, t: TokenIdView| d.dom().contains(t) implies listable(#[trigger] received_row(tr3, x, t)) by {
                        assert(listable(sent_row(tr3, x, t)));
                    }
                    assert forall|s: Seq<char>, r: Seq<char>, t: TokenIdView| !d.dom().contains(t) implies #[trigger] get3(tr3, s, r, t) == get3(tr, s, r, t) by {
                        assert(!d2.dom().contains(t));
                        assert(get3(tr2, s, r, t) == get3(tr, s, r, t));
                    }
                }
            }
        }
    }
}

/// What `m` holds of `t` over all accounts.
pub open spec fn token_total(m: AmountsView, t: TokenIdView) -> nat {
    if m.dom().contains(t) {
        map_total(m[t])
    } else {
        0
    }
}

/// The magnitude of `x`.
pub open spec fn abs(x: int) -> nat {
    if x < 0 {
        (-x) as nat
    } else {
        x as nat
    }
}

proof fn lemma_token_total_pos(es: Seq<(TokenIdView, Seq<(Seq<char>, u128)>)>, m: AmountsView, t: TokenIdView)
    requires
        table_lists(es, m),
        amounts_clean(m),
        m.dom().contains(t),
    ensures
        token_total(m, t) > 0,
{
    let i = choose|i: int| 0 <= i < es.len() && (#[trigger] es[i]).0 == t;
    let l = es[i].1;
    assert(lists(l, m[t]));
    assert(!(m[t].dom() =~= Set::<Seq<char>>::empty()));
    let a = choose|a: Seq<char>| m[t].dom().contains(a);
    let k = choose|k: int| 0 <= k < l.len() && (#[trigger] l[k]).0 == a;
    assert(m[t][a] > 0);
    lemma_seq_sum_remove(l, k);
    lemma_map_total(l, m[t]);
}

/// Listed gains and losses balance exactly when every token was gained in
/// total as much as it was given up.
proof fn lemma_balanced_iff_totals(
    deps: Seq<(TokenIdView, Seq<(Seq<char>, u128)>)>,
    wds: Seq<(TokenIdView, Seq<(Seq<char>, u128)>)>,
    d: AmountsView,
    w: AmountsView,
)
    requires
        table_lists(deps, d),
        table_lists(wds, w),
        amounts_clean(d),
        amounts_clean(w),
    ensures
        logger_balanced(d, w) <==> forall|t: TokenIdView| #[trigger] token_total(d, t) == token_total(w, t),
{
    if logger_balanced(d, w) {
        assert forall|t: TokenIdView| #[trigger] token_total(d, t) == token_total(w, t) by {
            if d.dom().contains(t) {
                assert(w.dom().contains(t));
            } else {
                assert(!w.dom().contains(t));
            }
        }
    }
    if forall|t: TokenIdView| #[trigger] token_total(d, t) == token_total(w, t) {
        assert forall|t: TokenIdView| d.dom().contains(t) <==> w.dom().contains(t) by {
            assert(token_total(d, t) == token_total(w, t));
            if d.dom().contains(t) {
                lemma_token_total_pos(deps, d, t);
            }
            if w.dom().contains(t) {
                lemma_token_total_pos(wds, w, t);
            }
        }
        assert(d.dom() =~= w.dom());
        assert forall|t: TokenIdView| #[trigger] d.dom().contains(t) implies map_total(d[t]) == map_total(w[t]) by {
            assert(token_total(d, t) == token_total(w, t));
        }
    }
}

proof fn lemma_same_amounts2(m1: AmountsView, m2: AmountsView)
    requires
        amounts_clean(m1),
        amounts_clean(m2),
        forall|t: TokenIdView, o: Seq<char>| #[trigger] get2(m1, t, o) == get2(m2, t, o),
    ensures
        m1 == m2,
{
    assert forall|t: TokenIdView| m1.dom().contains(t) implies m2.dom().contains(t) by {
        assert(!(m1[t].dom() =~= Set::<Seq<char>>::empty()));
        let o = choose|o: Seq<char>| m1[t].dom().contains(o);
        assert(get2(m1, t, o) == get2(m2, t, o));
    }
    assert forall|t: TokenIdView| m2.dom().contains(t) implies m1.dom().contains(t) by {
        assert(!(m2[t].dom() =~= Set::<Seq<char>>::empty()));
        let o = choose|o: Seq<char>| m2[t].dom().contains(o);
        assert(get2(m1, t, o) == get2(m2, t, o));
    }
    assert forall|t: TokenIdView| m1.dom().contains(t) implies m1[t] == m2[t] by {
        assert forall|o: Seq<char>| m1[t].dom().contains(o) <==> m2[t].dom().contains(o) by {
            assert(get2(m1, t, o) == get2(m2, t, o));
        }
        assert forall|o: Seq<char>| m1[t].dom().contains(o) implies m1[t][o] == m2[t][o] by {
            assert(get2(m1, t, o) == get2(m2, t, o));
        }
        assert(m1[t] =~= m2[t]);
    }
    assert(m1 =~= m2);
}

/// What a logger holds is fixed by the net changes it records: two loggers
/// with the same net change for every account and token are the same. So
/// recording two deltas one after the other, or their sum at once, gives
/// the same logger and the same outcome of `finalize`.
pub proof fn lemma_nets_determine(l1: TransferLogger, l2: TransferLogger)
    requires
        l1.wf(),
        l2.wf(),
        forall|o: Seq<char>, t: TokenIdView| #[trigger] net(l1@, o, t) == net(l2@, o, t),
    ensures
        l1@ == l2@,
{
    l1.lemma_wf();
    l2.lemma_wf();
    assert forall|t: TokenIdView, o: Seq<char>| #[trigger] get2(l1@.deposits, t, o) == get2(l2@.deposits, t, o)
        && get2(l1@.withdrawals, t, o) == get2(l2@.withdrawals, t, o) by {
        assert(net(l1@, o, t) == net(l2@, o, t));
        assert(get2(l1@.deposits, t, o) == 0 || get2(l1@.withdrawals, t, o) == 0);
        assert(get2(l2@.deposits, t, o) == 0 || get2(l2@.withdrawals, t, o) == 0);
    }
    assert forall|t: TokenIdView, o: Seq<char>| #[trigger] get2(l1@.withdrawals, t, o) == get2(l2@.withdrawals, t, o) by {
        assert(get2(l1@.deposits, t, o) == get2(l2@.deposits, t, o));
    }
    lemma_same_amounts2(l1@.deposits, l2@.deposits);
    lemma_same_amounts2(l1@.withdrawals, l2@.withdrawals);
}

proof fn lemma_inner_lists(s: Seq<(AccountId, u128)>)
    requires
        keys_unique(s),
    ensures
        lists(inner_entries(s), to_map(s)),
{
    let l = inner_entries(s);
    let m = to_map(s);
    assert forall|i: int| 0 <= i < l.len() implies m.dom().contains((#[trigger] l[i]).0) && m[l[i].0] == l[i].1 by {
        lemma_to_map_index(s, i);
    }
    assert forall|a: Seq<char>| #[trigger] m.dom().contains(a) implies exists|i: int| 0 <= i < l.len() && (#[trigger] l[i]).0 == a by {
        let i = choose|i: int| 0 <= i < s.len() && (#[trigger] s[i]).0@ == a;
        assert(l[i].0 == a);
    }
    assert forall|i: int, j: int| 0 <= i < l.len() && 0 <= j < l.len() && i != j implies (#[trigger] l[i]).0 != (#[trigger] l[j]).0 by {
        assert(s[i].0@ != s[j].0@);
    }
}

impl TokenAccountAmounts {
    /// The entries list the tokens of the view, each once, each with a
    /// listing of its accounts and amounts.
    pub proof fn lemma_entries(&self)
        requires
            self.wf(),
        ensures
            table_lists(self.spec_entries(), self@),
    {
        let s = self.tokens.spec_entries();
        let es = self.spec_entries();
        self.tokens.lemma_view();
        assert forall|i: int| 0 <= i < es.len() implies self@.dom().contains((#[trigger] es[i]).0) && lists(es[i].1, self@[es[i].0]) by {
            lemma_to_map_index(s, i);
            assert(s[i].1.wf());
            s[i].1.lemma_view();
            lemma_inner_lists(s[i].1.spec_entries());
        }
        assert forall|t: TokenIdView| #[trigger] self@.dom().contains(t) implies exists|i: int| 0 <= i < es.len() && (#[trigger] es[i]).0 == t by {
            let i = choose|i: int| 0 <= i < s.len() && (#[trigger] s[i]).0@ == t;
            assert(es[i].0 == t);
        }
        assert forall|i: int, j: int| 0 <= i < es.len() && 0 <= j < es.len() && i != j implies (#[trigger] es[i]).0 != (#[trigger] es[j]).0 by {
            assert(s[i].0@ != s[j].0@);
        }
    }
}

impl TransferLogger {
    /// The deposits, per token in insertion order.
    pub closed spec fn spec_deposit_entries(&self) -> Seq<(TokenIdView, Seq<(Seq<char>, u128)>)> {
        self.deposits.spec_entries()
    }

    /// The withdrawals, per token in insertion order.
    pub closed spec fn spec_withdrawal_entries(&self) -> Seq<(TokenIdView, Seq<(Seq<char>, u128)>)> {
        self.withdrawals.spec_entries()
    }

    /// The entries list the tokens, accounts and amounts of the view.
    pub proof fn lemma_entries(&self)
        requires
            self.wf(),
        ensures
            table_lists(self.spec_deposit_entries(), self@.deposits),
            table_lists(self.spec_withdrawal_entries(), self@.withdrawals),
            amounts_clean(self@.deposits),
            amounts_clean(self@.withdrawals),
    {
        self.deposits.lemma_entries();
        self.withdrawals.lemma_entries();
    }

    /// Matches, token by token, the accounts that gave up a token (in
    /// `withdrawals`, in insertion order) against those that gained it (in
    /// `deposits`, in insertion order) into transfers from the former to the
    /// latter. Succeeds exactly when every token balances: the same tokens
    /// were given up and gained, and per token the amounts given up add up to
    /// the amounts gained. Otherwise fails with `InvariantViolated`. On
    /// success each account sends of each token exactly what it gave up and
    /// receives exactly what it gained.
    pub fn finalize(self) -> (r: Result<Transfers, DefuseError>)
        requires
            self.wf(),
        ensures
            (r is Ok) <==> logger_balanced(self@.deposits, self@.withdrawals),
            (r is Ok) <==> forall|t: TokenIdView| #[trigger] token_total(self@.deposits, t) == token_total(self@.withdrawals, t),
            r matches Err(e) ==> e == DefuseError::InvariantViolated,
            r matches Ok(tr) ==> forall|x: Seq<char>, t: TokenIdView|
                #[trigger] sent_total(tr@, x, t) + received_total(tr@, x, t) == abs(net(self@, x, t)),
            r matches Ok(tr) ==> forall|s: Seq<char>, x: Seq<char>, t: TokenIdView| #[trigger] get3(tr@, s, x, t) > 0
                ==> net(self@, s, t) < 0 && net(self@, x, t) > 0,
            r matches Ok(tr) ==> tr.wf()
                && (forall|x: Seq<char>, t: TokenIdView| #[trigger] sent_total(tr@, x, t) == get2(self@.withdrawals, t, x))
                && (forall|x: Seq<char>, t: TokenIdView| #[trigger] received_total(tr@, x, t) == get2(self@.deposits, t, x)),
            ({
                let res = spec_finalize(self.spec_deposit_entries(), self.spec_withdrawal_entries(),
                    Map::<(Seq<char>, Seq<char>), Map<TokenIdView, u128>>::empty());
                &&& (r is Ok) <==> res is Ok
                &&& r matches Ok(tr) ==> res == Ok::<TransfersView, DefuseError>(tr@)
                &&& r matches Err(e) ==> res == Err::<TransfersView, DefuseError>(e)
            }),
    {
        let ghost d = self@.deposits;
        let ghost w = self@.withdrawals;
        let ghost deps = self.spec_deposit_entries();
        let ghost wds = self.spec_withdrawal_entries();
        let ghost empty = Map::<(Seq<char>, Seq<char>), Map<TokenIdView, u128>>::empty();
        proof {
            self.lemma_entries();
            self.lemma_wf();
            lemma_finalize_totals(deps, wds, empty, d, w);
            lemma_balanced_iff_totals(deps, wds, d, w);
        }
        let r = self.match_entries();
        proof {
            if r is Ok {
                let tr2 = r->Ok_0@;
                assert(spec_finalize(deps, wds, empty) == Ok::<TransfersView, DefuseError>(tr2));
                assert(spec_finalize(deps, wds, empty)->Ok_0 == tr2);
                assert forall|x: Seq<char>, t: TokenIdView| #[trigger] sent_total(tr2, x, t) == get2(w, t, x)
                    && received_total(tr2, x, t) == get2(d, t, x) by {
                    if !d.dom().contains(t) {
                        assert(!w.dom().contains(t));
                        assert forall|r: Seq<char>| get3(tr2, x, r, t) == 0 by {
                            assert(get3(tr2, x, r, t) == get3(empty, x, r, t));
                        }
                        assert forall|s: Seq<char>| get3(tr2, s, x, t) == 0 by {
                            assert(get3(tr2, s, x, t) == get3(empty, s, x, t));
                        }
                        lemma_map_total_empty(sent_row(tr2, x, t));
                        lemma_map_total_empty(received_row(tr2, x, t));
                    }
                }
                assert forall|x: Seq<char>, t: TokenIdView| #[trigger] received_total(tr2, x, t) == get2(d, t, x) by {
                    assert(sent_total(tr2, x, t) == get2(w, t, x));
                }
                assert forall|s: Seq<char>, x: Seq<char>, t: TokenIdView| #[trigger] get3(tr2, s, x, t) > 0
                    implies net(self@, s, t) < 0 && net(self@, x, t) > 0 by {
                    if !d.dom().contains(t) {
                        assert(get3(tr2, s, x, t) == get3(empty, s, x, t));
                    }
                    assert(sent_row(tr2, s, t).dom().contains(x));
                    assert(received_row(tr2, x, t).dom().contains(s));
                    lemma_map_total_ge(sent_row(tr2, s, t), x);
                    lemma_map_total_ge(received_row(tr2, x, t), s);
                    assert(sent_total(tr2, s, t) == get2(w, t, s));
                    assert(received_total(tr2, x, t) == get2(d, t, x));
                    assert(get2(d, t, s) == 0 || get2(w, t, s) == 0);
                    assert(get2(d, t, x) == 0 || get2(w, t, x) == 0);
                }
                assert forall|x: Seq<char>, t: TokenIdView|
                    #[trigger] sent_total(tr2, x, t) + received_total(tr2, x, t) == abs(net(self@, x, t)) by {
                    assert(sent_total(tr2, x, t) == get2(w, t, x));
                    assert(received_total(tr2, x, t) == get2(d, t, x));
                    assert(get2(d, t, x) == 0 || get2(w, t, x) == 0);
                }
            }
        }
        r
    }

    /// The matching of `finalize`, over the entries in insertion order.
    fn match_entries(self) -> (r: Result<Transfers, DefuseError>)
        requires
            self.wf(),
        ensures
            ({
                let res = spec_finalize(self.spec_deposit_entries(), self.spec_withdrawal_entries(),
                    Map::<(Seq<char>, Seq<char>), Map<TokenIdView, u128>>::empty());
                &&& (r is Ok) <==> res is Ok
                &&& r matches Ok(tr) ==> res == Ok::<TransfersView, DefuseError>(tr@) && tr.wf()
                &&& r matches Err(e) ==> res == Err::<TransfersView, DefuseError>(e)
            }),
    {
        let mut this = self;
        let ghost deps0 = this.deposits.spec_entries();
        let ghost wds0 = this.withdrawals.spec_entries();
        let mut transfers = Transfers::new();
        let n = this.deposits.tokens.len();
        let mut k: usize = 0;
        proof {
            assert(deps0.skip(0) =~= deps0);
        }
        while k < n
            invariant
                this.wf(),
                transfers.wf(),
                n == this.deposits.tokens.spec_entries().len(),
                k <= n,
                deps0 == this.deposits.spec_entries(),
                deps0 == self.spec_deposit_entries(),
                wds0 == self.spec_withdrawal_entries(),
                spec_finalize(deps0, wds0, Map::<(Seq<char>, Seq<char>), Map<TokenIdView, u128>>::empty())
                    == spec_finalize(deps0.skip(k as int), this.withdrawals.spec_entries(), transfers@),
            decreases n - k,
        {
            let entry = this.deposits.tokens.entry_at(k);
            let token = entry.0.clone();
            let receivers = &entry.1;
            let ghost ws = this.withdrawals.spec_entries();
            let ghost dk = deps0[k as int];
            proof {
                assert(deps0.skip(k as int)[0] == deps0[k as int]);
                assert(deps0.skip(k as int).drop_first() =~= deps0.skip(k + 1));
                assert(receivers.wf());
                assert(dk == (token@, inner_entries(receivers.spec_entries())));
            }
            let ghost old_entries = this.withdrawals.tokens.spec_entries();
            let ghost old_wview = this.withdrawals@;
            let ghost old_this = this;
            let senders = match this.withdrawals.tokens.remove(&token) {
                Some(w) => w,
                None => {
                    proof {
                        old_this.withdrawals.tokens.lemma_view();
                        assert(ws =~= old_entries.map_values(|e: (TokenId, LinearMap<AccountId, u128>)| (e.0@, inner_entries(e.1.spec_entries()))));
                        assert forall|j: int| 0 <= j < ws.len() implies ws[j].0 != token@ by {
                            crate::map::lemma_to_map_index(old_entries, j);
                        }
                        lemma_find_token_none(ws, token@, 0);
                    }
                    return Err(DefuseError::InvariantViolated);
                },
            };
            let ghost i_idx = choose|i: int| 0 <= i < old_entries.len()
                && this.withdrawals.tokens.spec_entries() == old_entries.remove(i)
                && old_entries[i].0@ == token@ && Some(senders) == Some(old_entries[i].1);
            proof {
                old_this.withdrawals.tokens.lemma_view();
                this.withdrawals.lemma_inner_wf_after_remove(old_entries, i_idx);
                assert(senders.wf());
                assert(ws =~= old_entries.map_values(|e: (TokenId, LinearMap<AccountId, u128>)| (e.0@, inner_entries(e.1.spec_entries()))));
                assert(ws.remove(i_idx) =~= this.withdrawals.spec_entries());
                assert(ws[i_idx].0 == token@);
                assert forall|j: int| 0 <= j < i_idx implies ws[j].0 != token@ by {
                    assert(old_entries[j].0@ != old_entries[i_idx].0@);
                }
                lemma_find_token(ws, token@, 0, i_idx);
                assert(amounts_clean(this.withdrawals@)) by {
                    assert(this.withdrawals@ =~= old_wview.remove(token@));
                }
                assert(logger_disjoint(this.deposits@, this.withdrawals@)) by {
                    assert(this.withdrawals@ =~= old_wview.remove(token@));
                    assert forall|t: TokenIdView, o: Seq<char>| #[trigger] get2(this.deposits@, t, o) == 0
                        || #[trigger] get2(this.withdrawals@, t, o) == 0 by {
                        assert(get2(old_this.deposits@, t, o) == 0 || get2(old_wview, t, o) == 0);
                    }
                }
                // positive amounts on both sides
                crate::map::lemma_to_map_index(old_entries, i_idx);
                assert(old_wview[token@] == senders@);
                senders.lemma_view();
                assert forall|j: int| 0 <= j < inner_entries(senders.spec_entries()).len() implies
                    (#[trigger] inner_entries(senders.spec_entries())[j]).1 > 0 by {
                    crate::map::lemma_to_map_index(senders.spec_entries(), j);
                }
                this.deposits.tokens.lemma_view();
                crate::map::lemma_to_map_index(this.deposits.tokens.spec_entries(), k as int);
                receivers.lemma_view();
                assert forall|j: int| 0 <= j < inner_entries(receivers.spec_entries()).len() implies
                    (#[trigger] inner_entries(receivers.spec_entries())[j]).1 > 0 by {
                    crate::map::lemma_to_map_index(receivers.spec_entries(), j);
                }
            }
            let ghost tr0 = transfers@;
            let ghost wv = inner_entries(senders.spec_entries());
            let ghost dv = inner_entries(receivers.spec_entries());
            proof {
                assert(deps0.skip(k as int).len() > 0);
                assert(ws[i_idx].1 == wv);
                assert(deps0.skip(k as int)[0].1 == dv);
                assert(apply_plan(tr0, token@, nw_plan(wv, dv)) is None ==>
                    spec_finalize(deps0.skip(k as int), ws, tr0) == Err::<TransfersView, DefuseError>(DefuseError::BalanceOverflow));
            }
            let ns = senders.len();
            let nr = receivers.len();
            if ns == 0 || nr == 0 {
                proof {
                    assert(nw_plan(wv, dv) =~= Seq::<(Seq<char>, Seq<char>, u128)>::empty());
                    if ns != 0 {
                        lemma_seq_sum_skip(wv, 0);
                        assert(wv.skip(0) =~= wv);
                    }
                    if nr != 0 {
                        lemma_seq_sum_skip(dv, 0);
                        assert(dv.skip(0) =~= dv);
                    }
                }
                if ns == 0 && nr == 0 {
                    k = k + 1;
                    continue;
                }
                return Err(DefuseError::InvariantViolated);
            }
            let mut si: usize = 0;
            let mut ri: usize = 0;
            let mut sa: u128 = senders.entry_at(0).1;
            let mut ra: u128 = receivers.entry_at(0).1;
            proof {
                lemma_rest_from_full(wv);
                lemma_rest_from_full(dv);
            }
            while si < ns && ri < nr
                invariant
                    transfers.wf(),
                    ns == senders.spec_entries().len(),
                    nr == receivers.spec_entries().len(),
                    wv == inner_entries(senders.spec_entries()),
                    dv == inner_entries(receivers.spec_entries()),
                    si <= ns,
                    ri <= nr,
                    si < ns ==> 0 < sa,
                    ri < nr ==> 0 < ra,
                    forall|j: int| 0 <= j < wv.len() ==> (#[trigger] wv[j]).1 > 0,
                    forall|j: int| 0 <= j < dv.len() ==> (#[trigger] dv[j]).1 > 0,
                    apply_plan(tr0, token@, nw_plan(wv, dv))
                        == apply_plan(transfers@, token@, nw_plan(rest_from(wv, si as int, sa), rest_from(dv, ri as int, ra))),
                    seq_sum(wv) + seq_sum(rest_from(dv, ri as int, ra)) == seq_sum(dv) + seq_sum(rest_from(wv, si as int, sa)),
                    deps0 == self.spec_deposit_entries(),
                    wds0 == self.spec_withdrawal_entries(),
                    apply_plan(tr0, token@, nw_plan(wv, dv)) is None ==>
                        spec_finalize(deps0, wds0, Map::<(Seq<char>, Seq<char>), Map<TokenIdView, u128>>::empty())
                            == Err::<TransfersView, DefuseError>(DefuseError::BalanceOverflow),
                decreases (ns - si) + (nr - ri),
            {
                let ghost sa0 = sa;
                let ghost ra0 = ra;
                let ghost si0 = si as int;
                let ghost ri0 = ri as int;
                let m = if sa <= ra { sa } else { ra };
                let s_id = senders.entry_at(si).0.clone();
                let r_id = receivers.entry_at(ri).0.clone();
                let ghost rw = rest_from(wv, si as int, sa);
                let ghost rd = rest_from(dv, ri as int, ra);
                let ghost before = transfers@;
                proof {
                    assert(rw[0] == (s_id@, sa));
                    assert(rd[0] == (r_id@, ra));
                    lemma_seq_sum_cons(rw[0], wv.skip(si + 1));
                    lemma_seq_sum_cons(rd[0], dv.skip(ri + 1));
                }
                proof {
                    let p = nw_plan(rw, rd);
                    assert(p[0] == (rw[0].0, rd[0].0, m));
                    assert(p.len() > 0);
                }
                match transfers.transfer(s_id, r_id, token.clone(), m) {
                    None => {
                        proof {
                            let p = nw_plan(rw, rd);
                            assert(apply_plan(before, token@, p) is None);
                        }
                        return Err(DefuseError::BalanceOverflow);
                    },
                    Some(_) => {},
                }
                sa = sa - m;
                ra = ra - m;
                let ghost sa_mid = sa;
                let ghost ra_mid = ra;
                if sa == 0 {
                    si = si + 1;
                    if si < ns {
                        sa = senders.entry_at(si).1;
                    }
                }
                if ra == 0 {
                    ri = ri + 1;
                    if ri < nr {
                        ra = receivers.entry_at(ri).1;
                    }
                }
                proof {
                    let rw2 = rest_from(wv, si as int, sa);
                    let rd2 = rest_from(dv, ri as int, ra);
                    if sa_mid == 0 {
                        assert(rw2 =~= rw.drop_first());
                        if si < ns {
                            lemma_seq_sum_cons(rw2[0], wv.skip(si + 1));
                            lemma_seq_sum_skip(wv, si as int);
                        } else {
                            assert(wv.skip(si0 + 1) =~= Seq::<(Seq<char>, u128)>::empty());
                        }
                    } else {
                        assert(rw2 =~= rw.update(0, (rw[0].0, (sa0 - m) as u128)));
                        lemma_seq_sum_cons(rw2[0], wv.skip(si + 1));
                    }
                    if ra_mid == 0 {
                        assert(rd2 =~= rd.drop_first());
                        if ri < nr {
                            lemma_seq_sum_cons(rd2[0], dv.skip(ri + 1));
                            lemma_seq_sum_skip(dv, ri as int);
                        } else {
                            assert(dv.skip(ri0 + 1) =~= Seq::<(Seq<char>, u128)>::empty());
                        }
                    } else {
                        assert(rd2 =~= rd.update(0, (rd[0].0, (ra0 - m) as u128)));
                        lemma_seq_sum_cons(rd2[0], dv.skip(ri + 1));
                    }
                    let p = nw_plan(rw, rd);
                    assert(p.drop_first() =~= nw_plan(rw2, rd2));
                }
            }
            proof {
                let rw2 = rest_from(wv, si as int, sa);
                let rd2 = rest_from(dv, ri as int, ra);
                assert(nw_plan(rw2, rd2) =~= Seq::<(Seq<char>, Seq<char>, u128)>::empty());
                if si < ns {
                    lemma_seq_sum_cons(rw2[0], wv.skip(si + 1));
                } else {
                    assert(rw2 =~= Seq::<(Seq<char>, u128)>::empty());
                }
                if ri < nr {
                    lemma_seq_sum_cons(rd2[0], dv.skip(ri + 1));
                } else {
                    assert(rd2 =~= Seq::<(Seq<char>, u128)>::empty());
                }
            }
            if si != ns || ri != nr {
                return Err(DefuseError::InvariantViolated);
            }
            k = k + 1;
        }
        if !this.withdrawals.tokens.is_empty() {
            proof {
                assert(deps0.skip(k as int).len() == 0);
                assert(this.withdrawals.spec_entries().len() > 0);
            }
            Err(DefuseError::InvariantViolated)
        } else {
            Ok(transfers)
        }
    }
}

impl Transfers {
    /// The transfers in the order in which each pair first moved tokens:
    /// sender, receiver, and the string form and amount of each token in
    /// the order in which it first moved.
    pub closed spec fn spec_pair_entries(&self) -> Seq<(Seq<char>, Seq<char>, Seq<(Seq<char>, u128)>)> {
        self.pairs.spec_entries().map_values(|e: (AccountPair, TokenAmounts)| (
            e.0.sender@,
            e.0.receiver@,
            e.1.spec_entries().map_values(|x: (TokenId, u128)| (spec_token_id_string(x.0@), x.1)),
        ))
    }

    /// The transfers in the order in which each pair first moved tokens:
    /// sender, receiver, and each token with its amount in the order in
    /// which it first moved.
    pub closed spec fn spec_pairs(&self) -> Seq<(Seq<char>, Seq<char>, Seq<(TokenIdView, u128)>)> {
        self.pairs.spec_entries().map_values(|e: (AccountPair, TokenAmounts)| (
            e.0.sender@,
            e.0.receiver@,
            e.1.spec_entries().map_values(|x: (TokenId, u128)| (x.0@, x.1)),
        ))
    }

    /// The pair entries list the view: each sender and receiver with
    /// something moved once, each with a listing of its tokens; the event
    /// entries are those with each token in its string form.
    pub proof fn lemma_pairs(&self)
        requires
            self.wf(),
        ensures
            pairs_listed(self.spec_pairs(), self@),
            self.spec_pair_entries() == self.spec_pairs().map_values(
                |p: (Seq<char>, Seq<char>, Seq<(TokenIdView, u128)>)| (p.0, p.1, with_token_strings(p.2))),
    {
        let s = self.pairs.spec_entries();
        let ps = self.spec_pairs();
        let tr = self@;
        self.pairs.lemma_view();
        assert forall|i: int| 0 <= i < ps.len() implies tr.dom().contains(((#[trigger] ps[i]).0, ps[i].1))
            && lists_tokens(ps[i].2, tr[(ps[i].0, ps[i].1)]) by {
            lemma_to_map_index(s, i);
            assert(s[i].1.wf());
            s[i].1.lemma_wf();
            lemma_lists_tokens(s[i].1.spec_entries());
        }
        assert forall|k: (Seq<char>, Seq<char>)| #[trigger] tr.dom().contains(k) implies exists|i: int| 0 <= i < ps.len() && ((#[trigger] ps[i]).0, ps[i].1) == k by {
            let i = choose|i: int| 0 <= i < s.len() && (#[trigger] s[i]).0@ == k;
            assert((ps[i].0, ps[i].1) == k);
        }
        assert forall|i: int, j: int| 0 <= i < ps.len() && 0 <= j < ps.len() && i != j implies
            ((#[trigger] ps[i]).0, ps[i].1) != ((#[trigger] ps[j]).0, ps[j].1) by {
            assert(s[i].0@ != s[j].0@);
        }
        let want = ps.map_values(|p: (Seq<char>, Seq<char>, Seq<(TokenIdView, u128)>)| (p.0, p.1, with_token_strings(p.2)));
        assert forall|i: int| 0 <= i < want.len() implies #[trigger] self.spec_pair_entries()[i] == want[i] by {
            assert(self.spec_pair_entries()[i].2 =~= want[i].2);
        }
        assert(self.spec_pair_entries() =~= want);
    }

    /// One transfer event per sender and receiver, without memo.
    pub fn emit(self) -> (events: Vec<MtTransferEvent>)
        requires
            self.wf(),
        ensures
            events@.map_values(|e: MtTransferEvent| transfer_event_view(e))
                == self.spec_pair_entries().map_values(|p: (Seq<char>, Seq<char>, Seq<(Seq<char>, u128)>)| (p.0, p.1, p.2, None::<Seq<char>>)),
            events@.map_values(|e: MtTransferEvent| transfer_event_view(e))
                == self.spec_pairs().map_values(|p: (Seq<char>, Seq<char>, Seq<(TokenIdView, u128)>)| (p.0, p.1, with_token_strings(p.2), None::<Seq<char>>)),
            pairs_listed(self.spec_pairs(), self@),
            forall|i: int| 0 <= i < events@.len() ==> (#[trigger] events@[i]).authorized_id is None,
    {
        proof {
            self.lemma_pairs();
            assert(self.spec_pair_entries().map_values(|p: (Seq<char>, Seq<char>, Seq<(Seq<char>, u128)>)| (p.0, p.1, p.2, None::<Seq<char>>))
                =~= self.spec_pairs().map_values(|p: (Seq<char>, Seq<char>, Seq<(TokenIdView, u128)>)| (p.0, p.1, with_token_strings(p.2), None::<Seq<char>>)));
        }
        let ghost want = self.spec_pair_entries().map_values(
            |p: (Seq<char>, Seq<char>, Seq<(Seq<char>, u128)>)| (p.0, p.1, p.2, None::<Seq<char>>));
        let mut events: Vec<MtTransferEvent> = Vec::new();
        let n = self.pairs.len();
        let mut i: usize = 0;
        while i < n
            invariant
                self.wf(),
                n == self.pairs.spec_entries().len(),
                i <= n,
                want == self.spec_pair_entries().map_values(
                    |p: (Seq<char>, Seq<char>, Seq<(Seq<char>, u128)>)| (p.0, p.1, p.2, None::<Seq<char>>)),
                events@.map_values(|e: MtTransferEvent| transfer_event_view(e)) == want.take(i as int),
                events@.len() == i,
                forall|k: int| 0 <= k < events@.len() ==> (#[trigger] events@[k]).authorized_id is None,
            decreases n - i,
        {
            let e = self.pairs.entry_at(i);
            let amounts = &e.1;
            proof {
                assert(e == self.pairs.spec_entries()[i as int]);
                assert(amounts.wf());
            }
            let m = amounts.len();
            let mut token_ids: Vec<String> = Vec::new();
            let mut values: Vec<u128> = Vec::new();
            let mut j: usize = 0;
            while j < m
                invariant
                    m == amounts.spec_entries().len(),
                    j <= m,
                    token_ids@.len() == j,
                    values@.len() == j,
                    forall|k: int| 0 <= k < j ==> (#[trigger] token_ids@[k])@ == spec_token_id_string(amounts.spec_entries()[k].0@)
                        && values@[k] == amounts.spec_entries()[k].1,
                decreases m - j,
            {
                let x = amounts.entry_at(j);
                token_ids.push(x.0.to_string());
                values.push(x.1);
                j = j + 1;
            }
            let ev = MtTransferEvent {
                authorized_id: None,
                old_owner_id: e.0.sender.clone(),
                new_owner_id: e.0.receiver.clone(),
                token_ids,
                amounts: values,
                memo: None,
            };
            let ghost before = events@;
            events.push(ev);
            proof {
                assert(transfer_event_view(ev).2 =~= amounts.spec_entries().map_values(
                    |x: (TokenId, u128)| (spec_token_id_string(x.0@), x.1)));
                assert(transfer_event_view(ev) == want[i as int]);
                assert(events@.map_values(|e: MtTransferEvent| transfer_event_view(e))
                    =~= before.map_values(|e: MtTransferEvent| transfer_event_view(e)).push(transfer_event_view(ev)));
                assert(want.take(i + 1) =~= want.take(i as int).push(want[i as int]));
            }
            i = i + 1;
        }
        proof {
            assert(want.take(n as int) =~= want);
        }
        events
    }
}

impl Default for TransferLogger {
    fn default() -> (l: Self)
        ensures
            l.wf(),
            l@.deposits == Map::<TokenIdView, Map<Seq<char>, u128>>::empty(),
            l@.withdrawals == Map::<TokenIdView, Map<Seq<char>, u128>>::empty(),
    {
        TransferLogger::new()
    }
}

impl Default for Transfers {
    fn default() -> (t: Self)
        ensures
            t.wf(),
            t@ == Map::<(Seq<char>, Seq<char>), Map<TokenIdView, u128>>::empty(),
    {
        Transfers::new()
    }
}

} // verus!
