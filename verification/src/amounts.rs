//! Token balances: a map from token ids to non-zero amounts.

use vstd::prelude::*;

use crate::map::LinearMap;
use crate::token_id::{TokenId, TokenIdView};

verus! {

/// The amount that `m` holds of `k`, zero where it holds none.
pub open spec fn amount_in(m: Map<TokenIdView, u128>, k: TokenIdView) -> nat {
    if m.dom().contains(k) {
        m[k] as nat
    } else {
        0
    }
}

/// `m` with the amount of `k` set to `v`; a zero amount leaves no entry.
pub open spec fn with_amount(m: Map<TokenIdView, u128>, k: TokenIdView, v: u128) -> Map<TokenIdView, u128> {
    if v == 0 {
        m.remove(k)
    } else {
        m.insert(k, v)
    }
}

/// No entry of `m` holds zero.
pub open spec fn no_zero_amounts(m: Map<TokenIdView, u128>) -> bool {
    forall|k: TokenIdView| #[trigger] m.dom().contains(k) ==> m[k] > 0
}

/// Setting the amount of a token reads back as that amount, leaves every
/// other token alone and keeps the balances free of zero entries.
pub proof fn lemma_with_amount(m: Map<TokenIdView, u128>, k: TokenIdView, v: u128)
    requires
        no_zero_amounts(m),
    ensures
        no_zero_amounts(with_amount(m, k, v)),
        amount_in(with_amount(m, k, v), k) == v,
        forall|j: TokenIdView| j != k ==> amount_in(with_amount(m, k, v), j) == amount_in(m, j),
{
}

/// `s` lists the tokens of `m` with their amounts, each token once.
pub open spec fn lists_tokens(s: Seq<(TokenIdView, u128)>, m: Map<TokenIdView, u128>) -> bool {
    &&& forall|i: int, j: int| 0 <= i < s.len() && 0 <= j < s.len() && i != j ==> (#[trigger] s[i]).0 != (#[trigger] s[j]).0
    &&& forall|i: int| 0 <= i < s.len() ==> m.dom().contains((#[trigger] s[i]).0) && m[s[i].0] == s[i].1
    &&& forall|t: TokenIdView| #[trigger] m.dom().contains(t) ==> exists|i: int| 0 <= i < s.len() && (#[trigger] s[i]).0 == t
}

/// The entries of a map with distinct keys, taken by view, list the map.
pub proof fn lemma_lists_tokens(s: Seq<(TokenId, u128)>)
    requires
        crate::map::keys_unique(s),
    ensures
        lists_tokens(s.map_values(|p: (TokenId, u128)| (p.0@, p.1)), crate::map::to_map(s)),
{
    let l = s.map_values(|p: (TokenId, u128)| (p.0@, p.1));
    let m = crate::map::to_map(s);
    assert forall|i: int| 0 <= i < l.len() implies m.dom().contains((#[trigger] l[i]).0) && m[l[i].0] == l[i].1 by {
        crate::map::lemma_to_map_index(s, i);
    }
    assert forall|t: TokenIdView| #[trigger] m.dom().contains(t) implies exists|i: int| 0 <= i < l.len() && (#[trigger] l[i]).0 == t by {
        let i = choose|i: int| 0 <= i < s.len() && (#[trigger] s[i]).0@ == t;
        assert(l[i].0 == t);
    }
    assert forall|i: int, j: int| 0 <= i < l.len() && 0 <= j < l.len() && i != j implies (#[trigger] l[i]).0 != (#[trigger] l[j]).0 by {
        assert(s[i].0@ != s[j].0@);
    }
}

/// The balances of one holder: how much of each token it holds.
#[derive(Debug)]
pub struct TokenAmounts {
    amounts: LinearMap<TokenId, u128>,
}

impl View for TokenAmounts {
    type V = Map<TokenIdView, u128>;

    closed spec fn view(&self) -> Map<TokenIdView, u128> {
        self.amounts@
    }
}

impl TokenAmounts {
    pub closed spec fn wf(&self) -> bool {
        self.amounts.wf() && no_zero_amounts(self.amounts@)
    }

    /// The entries in the order in which the tokens were first credited.
    pub closed spec fn spec_entries(&self) -> Seq<(TokenId, u128)> {
        self.amounts.spec_entries()
    }

    pub proof fn lemma_wf(&self)
        requires
            self.wf(),
        ensures
            no_zero_amounts(self@),
            self@ == crate::map::to_map(self.spec_entries()),
            crate::map::keys_unique(self.spec_entries()),
    {
        self.amounts.lemma_view();
    }

    pub fn new() -> (r: Self)
        ensures
            r.wf(),
            r@ == Map::<TokenIdView, u128>::empty(),
    {
        TokenAmounts { amounts: LinearMap::new() }
    }

    pub fn balance_of(&self, token_id: &TokenId) -> (b: u128)
        requires
            self.wf(),
        ensures
            b == amount_in(self@, token_id@),
    {
        match self.amounts.get(token_id) {
            Some(b) => *b,
            None => 0,
        }
    }

    pub fn contains_key(&self, token_id: &TokenId) -> (b: bool)
        requires
            self.wf(),
        ensures
            b == self@.dom().contains(token_id@),
    {
        self.amounts.contains_key(token_id)
    }

    pub fn is_empty(&self) -> (b: bool)
        requires
            self.wf(),
        ensures
            b == (self@ == Map::<TokenIdView, u128>::empty()),
    {
        let b = self.amounts.is_empty();
        proof {
            if !b {
                let k = self.spec_entries()[0].0@;
                self.amounts.lemma_view();
                crate::map::lemma_to_map_index(self.spec_entries(), 0);
                assert(self@.dom().contains(k));
            } else {
                assert(self@ =~= Map::<TokenIdView, u128>::empty());
            }
        }
        b
    }

    pub fn len(&self) -> (n: usize)
        ensures
            n == self.spec_entries().len(),
    {
        self.amounts.len()
    }

    /// The token and amount at position `i` of the crediting order.
    pub fn entry_at(&self, i: usize) -> (e: &(TokenId, u128))
        requires
            i < self.spec_entries().len(),
        ensures
            *e == self.spec_entries()[i as int],
    {
        self.amounts.entry_at(i)
    }

    fn set_amount(&mut self, token_id: TokenId, v: u128)
        requires
            old(self).wf(),
        ensures
            final(self).wf(),
            final(self)@ == with_amount(old(self)@, token_id@, v),
    {
        if v == 0 {
            self.amounts.remove(&token_id);
        } else {
            self.amounts.insert(token_id, v);
        }
    }

    /// Adds `amount` of `token_id`, returning the new balance, or `None`
    /// (and no change) where the balance would overflow.
    pub fn deposit(&mut self, token_id: TokenId, amount: u128) -> (r: Option<u128>)
        requires
            old(self).wf(),
        ensures
            final(self).wf(),
            (r is Some) <==> amount_in(old(self)@, token_id@) + amount <= u128::MAX,
            r matches Some(b) ==> b == amount_in(old(self)@, token_id@) + amount
                && final(self)@ == with_amount(old(self)@, token_id@, b),
            r is None ==> final(self)@ == old(self)@,
    {
        let b = self.balance_of(&token_id);
        match b.checked_add(amount) {
            Some(n) => {
                self.set_amount(token_id, n);
                Some(n)
            },
            None => None,
        }
    }

    /// Takes `amount` of `token_id` away, returning the new balance, or
    /// `None` (and no change) where the balance is too small.
    pub fn withdraw(&mut self, token_id: TokenId, amount: u128) -> (r: Option<u128>)
        requires
            old(self).wf(),
        ensures
            final(self).wf(),
            (r is Some) <==> amount <= amount_in(old(self)@, token_id@),
            r matches Some(b) ==> b == amount_in(old(self)@, token_id@) - amount
                && final(self)@ == with_amount(old(self)@, token_id@, b),
            r is None ==> final(self)@ == old(self)@,
    {
        let b = self.balance_of(&token_id);
        match b.checked_sub(amount) {
            Some(n) => {
                self.set_amount(token_id, n);
                Some(n)
            },
            None => None,
        }
    }

    /// Deposits a non-negative `delta`, withdraws the magnitude of a
    /// negative one.
    pub fn add_delta(&mut self, token_id: TokenId, delta: i128) -> (r: Option<u128>)
        requires
            old(self).wf(),
        ensures
            final(self).wf(),
            (r is Some) <==> 0 <= amount_in(old(self)@, token_id@) + delta <= u128::MAX,
            r matches Some(b) ==> b == amount_in(old(self)@, token_id@) + delta
                && final(self)@ == with_amount(old(self)@, token_id@, b),
            r is None ==> final(self)@ == old(self)@,
    {
        if delta >= 0 {
            self.deposit(token_id, delta as u128)
        } else {
            let magnitude: u128 = if delta == i128::MIN {
                0x8000_0000_0000_0000_0000_0000_0000_0000u128
            } else {
                (-delta) as u128
            };
            self.withdraw(token_id, magnitude)
        }
    }
}

} // verus!
