//! What a batch of intents leaves to do at its end: deposits postponed
//! until all intents ran, and the change of each token's total supply that
//! must come out at zero.

use vstd::prelude::*;

use crate::account_id::AccountId;
use crate::amounts::{amount_in, lemma_lists_tokens, lists_tokens, with_amount, TokenAmounts};
use crate::contract::{account_or_fresh, balances_of, err_of, tokens_view, with_balances, Contract, ContractView};
use crate::account::{spec_has_public_key, AccountView};
use crate::crypto::PublicKey;
use crate::nonces::Nonce;
use crate::errors::DefuseError;
use crate::map::LinearMap;
use crate::token_id::{TokenId, TokenIdView};

verus! {

/// The change of `k` in `m`, zero where there is none.
pub open spec fn delta_in(m: Map<TokenIdView, i128>, k: TokenIdView) -> int {
    if m.dom().contains(k) {
        m[k] as int
    } else {
        0
    }
}

/// `m` with the change of `k` set to `v`; a zero change leaves no entry.
pub open spec fn with_delta(m: Map<TokenIdView, i128>, k: TokenIdView, v: i128) -> Map<TokenIdView, i128> {
    if v == 0 {
        m.remove(k)
    } else {
        m.insert(k, v)
    }
}

/// `s` lists the changes of `m`, each token once.
pub open spec fn deltas_listed(s: Seq<(TokenIdView, i128)>, m: Map<TokenIdView, i128>) -> bool {
    &&& forall|i: int, j: int| 0 <= i < s.len() && 0 <= j < s.len() && i != j ==> (#[trigger] s[i]).0 != (#[trigger] s[j]).0
    &&& forall|i: int| 0 <= i < s.len() ==> m.dom().contains((#[trigger] s[i]).0) && m[s[i].0] == s[i].1
    &&& forall|t: TokenIdView| #[trigger] m.dom().contains(t) ==> exists|i: int| 0 <= i < s.len() && (#[trigger] s[i]).0 == t
}

/// Signed changes per token, without zero entries.
#[derive(Debug)]
pub struct TokenDeltas {
    deltas: LinearMap<TokenId, i128>,
}

impl View for TokenDeltas {
    type V = Map<TokenIdView, i128>;

    closed spec fn view(&self) -> Map<TokenIdView, i128> {
        self.deltas@
    }
}

impl TokenDeltas {
    pub closed spec fn wf(&self) -> bool {
        &&& self.deltas.wf()
        &&& forall|k: TokenIdView| #[trigger] self.deltas@.dom().contains(k) ==> self.deltas@[k] != 0
    }

    pub fn new() -> (r: Self)
        ensures
            r.wf(),
            r@ == Map::<TokenIdView, i128>::empty(),
    {
        TokenDeltas { deltas: LinearMap::new() }
    }

    /// Whether every change is zero.
    pub fn is_empty(&self) -> (b: bool)
        requires
            self.wf(),
        ensures
            b == (self@ == Map::<TokenIdView, i128>::empty()),
    {
        let b = self.deltas.is_empty();
        proof {
            self.deltas.lemma_view();
            if !b {
                crate::map::lemma_to_map_index(self.deltas.spec_entries(), 0);
                assert(self@.dom().contains(self.deltas.spec_entries()[0].0@));
            } else {
                assert(self@ =~= Map::<TokenIdView, i128>::empty());
            }
        }
        b
    }

    /// The changes, one entry per token.
    pub fn to_vec(&self) -> (v: Vec<(TokenId, i128)>)
        requires
            self.wf(),
        ensures
            deltas_listed(v@.map_values(|p: (TokenId, i128)| (p.0@, p.1)), self@),
    {
        let n = self.deltas.len();
        let mut v: Vec<(TokenId, i128)> = Vec::new();
        let mut i: usize = 0;
        while i < n
            invariant
                n == self.deltas.spec_entries().len(),
                i <= n,
                v@.len() == i,
                forall|j: int| 0 <= j < i ==> (#[trigger] v@[j]).0@ == self.deltas.spec_entries()[j].0@
                    && v@[j].1 == self.deltas.spec_entries()[j].1,
            decreases n - i,
        {
            let e = self.deltas.entry_at(i);
            v.push((e.0.clone(), e.1));
            i = i + 1;
        }
        proof {
            let s = self.deltas.spec_entries();
            let l = v@.map_values(|p: (TokenId, i128)| (p.0@, p.1));
            let m = self@;
            self.deltas.lemma_view();
            assert forall|j: int| 0 <= j < l.len() implies m.dom().contains((#[trigger] l[j]).0) && m[l[j].0] == l[j].1 by {
                crate::map::lemma_to_map_index(s, j);
            }
            assert forall|t: TokenIdView| #[trigger] m.dom().contains(t) implies exists|j: int| 0 <= j < l.len() && (#[trigger] l[j]).0 == t by {
                let j = choose|j: int| 0 <= j < s.len() && (#[trigger] s[j]).0@ == t;
                assert(l[j].0 == t);
            }
            assert forall|j: int, k: int| 0 <= j < l.len() && 0 <= k < l.len() && j != k implies (#[trigger] l[j]).0 != (#[trigger] l[k]).0 by {
                assert(s[j].0@ != s[k].0@);
            }
        }
        v
    }

    /// Adds `delta` to the change of `token_id`, returning the new change,
    /// or `None` (and no change) where it would leave the range of `i128`.
    pub fn add(&mut self, token_id: TokenId, delta: i128) -> (r: Option<i128>)
        requires
            old(self).wf(),
        ensures
            final(self).wf(),
            (r is Some) <==> i128::MIN <= delta_in(old(self)@, token_id@) + delta <= i128::MAX,
            r matches Some(v) ==> v == delta_in(old(self)@, token_id@) + delta
                && final(self)@ == with_delta(old(self)@, token_id@, v),
            r is None ==> final(self)@ == old(self)@,
    {
        let cur: i128 = match self.deltas.get(&token_id) {
            Some(v) => *v,
            None => 0,
        };
        match cur.checked_add(delta) {
            None => None,
            Some(v) => {
                if v == 0 {
                    self.deltas.remove(&token_id);
                } else {
                    self.deltas.insert(token_id, v);
                }
                Some(v)
            },
        }
    }
}

/// The end-of-batch work, as values: the postponed deposits per receiver
/// and the changes of total supply.
pub struct RuntimeView {
    pub postponed_deposits: Map<Seq<char>, Map<TokenIdView, u128>>,
    pub total_supply_deltas: Map<TokenIdView, i128>,
}

/// The end-of-batch work of a batch of intents.
#[derive(Debug)]
pub struct RuntimeState {
    postponed_deposits: LinearMap<AccountId, TokenAmounts>,
    total_supply_deltas: TokenDeltas,
}

/// The postponed deposits of `id`, none where it has no entry.
pub open spec fn postponed_of(p: Map<Seq<char>, Map<TokenIdView, u128>>, id: Seq<char>) -> Map<TokenIdView, u128> {
    if p.dom().contains(id) {
        p[id]
    } else {
        Map::<TokenIdView, u128>::empty()
    }
}

/// Crediting `tokens` in order to `id` (created where missing) without
/// touching the total supplies: the accounts after it and the first error.
pub open spec fn spec_credit_all(
    accounts: Map<Seq<char>, AccountView>,
    id: Seq<char>,
    tokens: Seq<(TokenIdView, u128)>,
) -> (Map<Seq<char>, AccountView>, Option<DefuseError>)
    decreases tokens.len(),
{
    let b = balances_of(accounts, id);
    if tokens.len() == 0 {
        (with_balances(accounts, id, b), None)
    } else {
        let t = tokens[0].0;
        let a = tokens[0].1;
        if amount_in(b, t) + a > u128::MAX {
            (with_balances(accounts, id, b), Some(DefuseError::BalanceOverflow))
        } else {
            spec_credit_all(with_balances(accounts, id, with_amount(b, t, (amount_in(b, t) + a) as u128)), id, tokens.drop_first())
        }
    }
}

/// Delivering the postponed deposits `entries` in order: the accounts after
/// it and the first error.
pub open spec fn spec_deliver(
    accounts: Map<Seq<char>, AccountView>,
    entries: Seq<(Seq<char>, Seq<(TokenIdView, u128)>)>,
) -> (Map<Seq<char>, AccountView>, Option<DefuseError>)
    decreases entries.len(),
{
    if entries.len() == 0 {
        (accounts, None)
    } else {
        let r = spec_credit_all(accounts, entries[0].0, entries[0].1);
        if r.1 is Some {
            r
        } else {
            spec_deliver(r.0, entries.drop_first())
        }
    }
}

/// What the entries `s` of postponed deposits hold of `t` together.
pub open spec fn postponed_sum(s: Seq<(AccountId, TokenAmounts)>, t: TokenIdView) -> nat
    decreases s.len(),
{
    if s.len() == 0 {
        0
    } else {
        postponed_sum(s.drop_last(), t) + amount_in(s.last().1@, t)
    }
}

/// The amounts of `t` in the token list `tv`, added up.
pub open spec fn tokens_total(tv: Seq<(TokenIdView, u128)>, t: TokenIdView) -> nat
    decreases tv.len(),
{
    if tv.len() == 0 {
        0
    } else {
        tokens_total(tv.drop_last(), t) + if tv.last().0 == t { tv.last().1 as nat } else { 0 }
    }
}

proof fn lemma_postponed_sum_update(s: Seq<(AccountId, TokenAmounts)>, i: int, e: (AccountId, TokenAmounts), t: TokenIdView)
    requires
        0 <= i < s.len(),
    ensures
        postponed_sum(s.update(i, e), t) + amount_in(s[i].1@, t) == postponed_sum(s, t) + amount_in(e.1@, t),
    decreases s.len(),
{
    let u = s.update(i, e);
    if i == s.len() - 1 {
        assert(u.drop_last() =~= s.drop_last());
    } else {
        assert(u.drop_last() =~= s.drop_last().update(i, e));
        lemma_postponed_sum_update(s.drop_last(), i, e, t);
    }
}

/// A token list without repeated tokens holds, of each token, what its
/// map says.
proof fn lemma_tokens_total(s: Seq<(TokenId, u128)>, t: TokenIdView)
    requires
        crate::map::keys_unique(s),
    ensures
        amount_in(crate::map::to_map(s), t) == tokens_total(tokens_view(s), t),
    decreases s.len(),
{
    if s.len() == 0 {
        assert(crate::map::to_map(s) =~= Map::<TokenIdView, u128>::empty());
    } else {
        let init = s.drop_last();
        let e = s.last();
        assert(init.push(e) =~= s);
        assert(crate::map::keys_unique(init)) by {
            assert forall|a: int, b: int| 0 <= a < init.len() && 0 <= b < init.len() && a != b implies
                #[trigger] init[a].0@ != #[trigger] init[b].0@ by {
                assert(init[a] == s[a] && init[b] == s[b]);
            }
        }
        assert(!crate::map::has_key(init, e.0@)) by {
            if crate::map::has_key(init, e.0@) {
                let j = crate::map::index_of(init, e.0@);
                assert(init[j] == s[j]);
                assert(s[s.len() - 1] == e);
            }
        }
        crate::map::lemma_to_map_push(init, e);
        lemma_tokens_total(init, t);
        assert(tokens_view(s).drop_last() =~= tokens_view(init));
        if e.0@ == t {
            assert(!crate::map::to_map(init).dom().contains(t));
        }
    }
}

/// Throughout a batch of intents, what the accounts hold of each token and
/// what waits for them at the end make up the token's total supply and its
/// change.
pub open spec fn batch_balanced(c: Contract, rt: RuntimeState) -> bool {
    forall|t: TokenIdView| #[trigger] c.spec_accounts_total(t) + rt.spec_postponed_total(t)
        == amount_in(c@.total_supplies, t) + delta_in(rt@.total_supply_deltas, t)
}

/// A batch starts balanced: with supplies that match the accounts, and
/// nothing postponed or changed yet.
pub proof fn lemma_batch_starts_balanced(c: Contract, rt: RuntimeState)
    requires
        c.supply_consistent(),
        rt@.total_supply_deltas == Map::<TokenIdView, i128>::empty(),
        forall|t: TokenIdView| #[trigger] rt.spec_postponed_total(t) == 0,
    ensures
        batch_balanced(c, rt),
{
    assert forall|t: TokenIdView| #[trigger] c.spec_accounts_total(t) + rt.spec_postponed_total(t)
        == amount_in(c@.total_supplies, t) + delta_in(rt@.total_supply_deltas, t) by {
        assert(amount_in(c@.total_supplies, t) == c.spec_accounts_total(t));
    }
}

/// Setting an account's balances twice is setting them once.
proof fn lemma_with_balances_twice(
    accounts: Map<Seq<char>, AccountView>,
    id: Seq<char>,
    b1: Map<TokenIdView, u128>,
    b2: Map<TokenIdView, u128>,
)
    ensures
        with_balances(with_balances(accounts, id, b1), id, b2) == with_balances(accounts, id, b2),
{
    assert(with_balances(with_balances(accounts, id, b1), id, b2) =~= with_balances(accounts, id, b2));
}

/// Creating the account first changes nothing of crediting it.
proof fn lemma_credit_all_touched(accounts: Map<Seq<char>, AccountView>, id: Seq<char>, tokens: Seq<(TokenIdView, u128)>)
    ensures
        spec_credit_all(accounts, id, tokens)
            == spec_credit_all(with_balances(accounts, id, balances_of(accounts, id)), id, tokens.skip(0)),
{
    let b = balances_of(accounts, id);
    let touched = with_balances(accounts, id, b);
    assert(tokens.skip(0) =~= tokens);
    assert(balances_of(touched, id) == b);
    lemma_with_balances_twice(accounts, id, b, b);
    if tokens.len() > 0 {
        let t = tokens[0].0;
        let a = tokens[0].1;
        lemma_with_balances_twice(accounts, id, b, with_amount(b, t, (amount_in(b, t) + a) as u128));
    }
}

/// `es` lists the receivers of `p`, each once, each with a listing of its
/// postponed tokens and amounts.
pub open spec fn deposits_listed(es: Seq<(Seq<char>, Seq<(TokenIdView, u128)>)>, p: Map<Seq<char>, Map<TokenIdView, u128>>) -> bool {
    &&& forall|i: int, j: int| 0 <= i < es.len() && 0 <= j < es.len() && i != j ==> (#[trigger] es[i]).0 != (#[trigger] es[j]).0
    &&& forall|i: int| 0 <= i < es.len() ==> p.dom().contains((#[trigger] es[i]).0) && lists_tokens(es[i].1, p[es[i].0])
    &&& forall|r: Seq<char>| #[trigger] p.dom().contains(r) ==> exists|i: int| 0 <= i < es.len() && (#[trigger] es[i]).0 == r
}

/// Every balance has room for what is postponed to it.
pub open spec fn deliver_fits(accounts: Map<Seq<char>, AccountView>, p: Map<Seq<char>, Map<TokenIdView, u128>>) -> bool {
    forall|r: Seq<char>, t: TokenIdView| p.dom().contains(r) ==>
        #[trigger] amount_in(balances_of(accounts, r), t) + amount_in(p[r], t) <= u128::MAX
}

/// `after` is `before` with the postponed deposits `p` credited: each
/// receiver exists and holds of each token what it held plus what was
/// postponed to it, and everything else is as it was.
pub open spec fn delivered(
    before: Map<Seq<char>, AccountView>,
    p: Map<Seq<char>, Map<TokenIdView, u128>>,
    after: Map<Seq<char>, AccountView>,
) -> bool {
    &&& forall|id: Seq<char>| #[trigger] after.dom().contains(id) <==> before.dom().contains(id) || p.dom().contains(id)
    &&& forall|id: Seq<char>| !p.dom().contains(id) && before.dom().contains(id) ==> #[trigger] after[id] == before[id]
    &&& forall|id: Seq<char>| #[trigger] p.dom().contains(id) ==>
        after[id] == (AccountView { token_balances: after[id].token_balances, ..account_or_fresh(before, id) })
    &&& forall|id: Seq<char>, t: TokenIdView| p.dom().contains(id) ==>
        #[trigger] amount_in(after[id].token_balances, t) == amount_in(balances_of(before, id), t) + amount_in(p[id], t)
}

proof fn lemma_credit_all_listed(
    accounts: Map<Seq<char>, AccountView>,
    id: Seq<char>,
    tv: Seq<(TokenIdView, u128)>,
    q: Map<TokenIdView, u128>,
)
    requires
        lists_tokens(tv, q),
    ensures
        (spec_credit_all(accounts, id, tv).1 is None) <==> forall|t: TokenIdView|
            #[trigger] amount_in(balances_of(accounts, id), t) + amount_in(q, t) <= u128::MAX,
        spec_credit_all(accounts, id, tv).1 is Some ==> spec_credit_all(accounts, id, tv).1 == Some(DefuseError::BalanceOverflow),
        spec_credit_all(accounts, id, tv).1 is None ==> {
            let b2 = balances_of(spec_credit_all(accounts, id, tv).0, id);
            &&& spec_credit_all(accounts, id, tv).0 == with_balances(accounts, id, b2)
            &&& forall|t: TokenIdView| #[trigger] amount_in(b2, t) == amount_in(balances_of(accounts, id), t) + amount_in(q, t)
        },
    decreases tv.len(),
{
    let b = balances_of(accounts, id);
    if tv.len() == 0 {
        assert forall|t: TokenIdView| !q.dom().contains(t) by {
            if q.dom().contains(t) {
                let i = choose|i: int| 0 <= i < tv.len() && (#[trigger] tv[i]).0 == t;
            }
        }
        assert(balances_of(with_balances(accounts, id, b), id) == b);
    } else {
        let t0 = tv[0].0;
        let a0 = tv[0].1;
        assert(q.dom().contains(t0) && q[t0] == a0);
        if amount_in(b, t0) + a0 > u128::MAX {
            assert(amount_in(b, t0) + amount_in(q, t0) > u128::MAX);
        } else {
            let b1 = with_amount(b, t0, (amount_in(b, t0) + a0) as u128);
            let acc1 = with_balances(accounts, id, b1);
            assert(balances_of(acc1, id) == b1);
            let q1 = q.remove(t0);
            let tv1 = tv.drop_first();
            assert(lists_tokens(tv1, q1)) by {
                assert forall|i: int| 0 <= i < tv1.len() implies q1.dom().contains((#[trigger] tv1[i]).0) && q1[tv1[i].0] == tv1[i].1 by {
                    assert(tv1[i] == tv[i + 1]);
                    assert(tv[i + 1].0 != tv[0].0);
                }
                assert forall|t: TokenIdView| #[trigger] q1.dom().contains(t) implies exists|i: int| 0 <= i < tv1.len() && (#[trigger] tv1[i]).0 == t by {
                    let i = choose|i: int| 0 <= i < tv.len() && (#[trigger] tv[i]).0 == t;
                    assert(i != 0);
                    assert(tv1[i - 1] == tv[i]);
                }
                assert forall|i: int, j: int| 0 <= i < tv1.len() && 0 <= j < tv1.len() && i != j implies (#[trigger] tv1[i]).0 != (#[trigger] tv1[j]).0 by {
                    assert(tv1[i] == tv[i + 1] && tv1[j] == tv[j + 1]);
                }
            }
            lemma_credit_all_listed(acc1, id, tv1, q1);
            assert forall|t: TokenIdView| #[trigger] amount_in(b1, t) + amount_in(q1, t) == amount_in(b, t) + amount_in(q, t) by {}
            assert((forall|t: TokenIdView| #[trigger] amount_in(b1, t) + amount_in(q1, t) <= u128::MAX)
                <==> (forall|t: TokenIdView| #[trigger] amount_in(b, t) + amount_in(q, t) <= u128::MAX)) by {
                if forall|t: TokenIdView| #[trigger] amount_in(b1, t) + amount_in(q1, t) <= u128::MAX {
                    assert forall|t: TokenIdView| #[trigger] amount_in(b, t) + amount_in(q, t) <= u128::MAX by {
                        assert(amount_in(b1, t) + amount_in(q1, t) <= u128::MAX);
                    }
                }
                if forall|t: TokenIdView| #[trigger] amount_in(b, t) + amount_in(q, t) <= u128::MAX {
                    assert forall|t: TokenIdView| #[trigger] amount_in(b1, t) + amount_in(q1, t) <= u128::MAX by {
                        assert(amount_in(b, t) + amount_in(q, t) <= u128::MAX);
                    }
                }
            }
            if spec_credit_all(acc1, id, tv1).1 is None {
                let b2 = balances_of(spec_credit_all(acc1, id, tv1).0, id);
                lemma_with_balances_twice(accounts, id, b1, b2);
            }
        }
    }
}

proof fn lemma_deliver_listed(
    accounts: Map<Seq<char>, AccountView>,
    es: Seq<(Seq<char>, Seq<(TokenIdView, u128)>)>,
    p: Map<Seq<char>, Map<TokenIdView, u128>>,
)
    requires
        deposits_listed(es, p),
    ensures
        (spec_deliver(accounts, es).1 is None) <==> deliver_fits(accounts, p),
        spec_deliver(accounts, es).1 is Some ==> spec_deliver(accounts, es).1 == Some(DefuseError::BalanceOverflow),
        spec_deliver(accounts, es).1 is None ==> delivered(accounts, p, spec_deliver(accounts, es).0),
    decreases es.len(),
{
    if es.len() == 0 {
        assert forall|r: Seq<char>| !p.dom().contains(r) by {
            if p.dom().contains(r) {
                let i = choose|i: int| 0 <= i < es.len() && (#[trigger] es[i]).0 == r;
            }
        }
    } else {
        let r0 = es[0].0;
        let tv0 = es[0].1;
        assert(p.dom().contains(r0));
        lemma_credit_all_listed(accounts, r0, tv0, p[r0]);
        let c = spec_credit_all(accounts, r0, tv0);
        if c.1 is Some {
            let t = choose|t: TokenIdView| !(amount_in(balances_of(accounts, r0), t) + amount_in(p[r0], t) <= u128::MAX);
            assert(!deliver_fits(accounts, p));
        } else {
            let acc1 = c.0;
            let p1 = p.remove(r0);
            let es1 = es.drop_first();
            assert(deposits_listed(es1, p1)) by {
                assert forall|i: int| 0 <= i < es1.len() implies p1.dom().contains((#[trigger] es1[i]).0) && lists_tokens(es1[i].1, p1[es1[i].0]) by {
                    assert(es1[i] == es[i + 1]);
                    assert(es[i + 1].0 != es[0].0);
                }
                assert forall|r: Seq<char>| #[trigger] p1.dom().contains(r) implies exists|i: int| 0 <= i < es1.len() && (#[trigger] es1[i]).0 == r by {
                    let i = choose|i: int| 0 <= i < es.len() && (#[trigger] es[i]).0 == r;
                    assert(i != 0);
                    assert(es1[i - 1] == es[i]);
                }
                assert forall|i: int, j: int| 0 <= i < es1.len() && 0 <= j < es1.len() && i != j implies (#[trigger] es1[i]).0 != (#[trigger] es1[j]).0 by {
                    assert(es1[i] == es[i + 1] && es1[j] == es[j + 1]);
                }
            }
            lemma_deliver_listed(acc1, es1, p1);
            assert(spec_deliver(accounts, es) == spec_deliver(acc1, es1));
            assert forall|id: Seq<char>| id != r0 implies #[trigger] balances_of(acc1, id) == balances_of(accounts, id)
                && account_or_fresh(acc1, id) == account_or_fresh(accounts, id) by {}
            assert(deliver_fits(acc1, p1) <==> deliver_fits(accounts, p)) by {
                if deliver_fits(acc1, p1) {
                    assert forall|r: Seq<char>, t: TokenIdView| p.dom().contains(r) implies
                        #[trigger] amount_in(balances_of(accounts, r), t) + amount_in(p[r], t) <= u128::MAX by {
                        if r != r0 {
                            assert(p1.dom().contains(r));
                            assert(amount_in(balances_of(acc1, r), t) + amount_in(p1[r], t) <= u128::MAX);
                        }
                    }
                }
                if deliver_fits(accounts, p) {
                    assert forall|r: Seq<char>, t: TokenIdView| p1.dom().contains(r) implies
                        #[trigger] amount_in(balances_of(acc1, r), t) + amount_in(p1[r], t) <= u128::MAX by {
                        assert(amount_in(balances_of(accounts, r), t) + amount_in(p[r], t) <= u128::MAX);
                    }
                }
            }
            let fin = spec_deliver(acc1, es1);
            if fin.1 is None {
                let after = fin.0;
                let b2 = balances_of(acc1, r0);
                assert(acc1.dom().contains(r0));
                assert(!p1.dom().contains(r0));
                assert(after[r0] == acc1[r0]);
                assert forall|id: Seq<char>| #[trigger] after.dom().contains(id) <==> accounts.dom().contains(id) || p.dom().contains(id) by {
                    if id != r0 {
                        assert(acc1.dom().contains(id) == accounts.dom().contains(id));
                    }
                }
                assert forall|id: Seq<char>| !p.dom().contains(id) && accounts.dom().contains(id) implies #[trigger] after[id] == accounts[id] by {
                    assert(acc1.dom().contains(id));
                }
                assert forall|id: Seq<char>| #[trigger] p.dom().contains(id) implies
                    after[id] == (AccountView { token_balances: after[id].token_balances, ..account_or_fresh(accounts, id) }) by {
                    if id != r0 {
                        assert(p1.dom().contains(id));
                    }
                }
                assert forall|id: Seq<char>, t: TokenIdView| p.dom().contains(id) implies
                    #[trigger] amount_in(after[id].token_balances, t) == amount_in(balances_of(accounts, id), t) + amount_in(p[id], t) by {
                    if id != r0 {
                        assert(p1.dom().contains(id));
                        assert(amount_in(after[id].token_balances, t) == amount_in(balances_of(acc1, id), t) + amount_in(p1[id], t));
                    } else {
                        assert(amount_in(b2, t) == amount_in(balances_of(accounts, r0), t) + amount_in(p[r0], t));
                    }
                }
            }
        }
    }
}

impl View for RuntimeState {
    type V = RuntimeView;

    closed spec fn view(&self) -> RuntimeView {
        RuntimeView {
            postponed_deposits: self.postponed_deposits@,
            total_supply_deltas: self.total_supply_deltas@,
        }
    }
}

impl RuntimeState {
    pub closed spec fn wf(&self) -> bool {
        &&& self.postponed_deposits.wf()
        &&& self.total_supply_deltas.wf()
        &&& forall|i: int| 0 <= i < self.postponed_deposits.spec_entries().len() ==> {
            let e = #[trigger] self.postponed_deposits.spec_entries()[i];
            e.0.valid() && e.1.wf()
        }
    }

    /// The postponed deposits in the order in which their receivers first
    /// got one, each in the order of its tokens.
    pub closed spec fn spec_deposit_entries(&self) -> Seq<(Seq<char>, Seq<(TokenIdView, u128)>)> {
        self.postponed_deposits.spec_entries().map_values(
            |e: (AccountId, TokenAmounts)| (e.0@, tokens_view(e.1.spec_entries())),
        )
    }

    /// The deposit entries list the postponed deposits of the view.
    pub proof fn lemma_deposit_entries(&self)
        requires
            self.wf(),
        ensures
            deposits_listed(self.spec_deposit_entries(), self@.postponed_deposits),
    {
        let s = self.postponed_deposits.spec_entries();
        let es = self.spec_deposit_entries();
        let p = self@.postponed_deposits;
        self.postponed_deposits.lemma_view();
        assert forall|i: int| 0 <= i < es.len() implies p.dom().contains((#[trigger] es[i]).0) && lists_tokens(es[i].1, p[es[i].0]) by {
            crate::map::lemma_to_map_index(s, i);
            assert(s[i].1.wf());
            s[i].1.lemma_wf();
            lemma_lists_tokens(s[i].1.spec_entries());
            assert(es[i].1 =~= s[i].1.spec_entries().map_values(|q: (TokenId, u128)| (q.0@, q.1)));
        }
        assert forall|r: Seq<char>| #[trigger] p.dom().contains(r) implies exists|i: int| 0 <= i < es.len() && (#[trigger] es[i]).0 == r by {
            let i = choose|i: int| 0 <= i < s.len() && (#[trigger] s[i]).0@ == r;
            assert(es[i].0 == r);
        }
        assert forall|i: int, j: int| 0 <= i < es.len() && 0 <= j < es.len() && i != j implies (#[trigger] es[i]).0 != (#[trigger] es[j]).0 by {
            assert(s[i].0@ != s[j].0@);
        }
    }

    /// What all postponed deposits hold of `t` together.
    pub closed spec fn spec_postponed_total(&self, t: TokenIdView) -> nat {
        postponed_sum(self.postponed_deposits.spec_entries(), t)
    }

    pub fn new() -> (r: Self)
        ensures
            r.wf(),
            r@.postponed_deposits == Map::<Seq<char>, Map<TokenIdView, u128>>::empty(),
            r@.total_supply_deltas == Map::<TokenIdView, i128>::empty(),
            forall|t: TokenIdView| #[trigger] r.spec_postponed_total(t) == 0,
    {
        RuntimeState { postponed_deposits: LinearMap::new(), total_supply_deltas: TokenDeltas::new() }
    }

    /// The position of the receiver's entry, which is created (empty) where
    /// missing.
    fn entry_of(&mut self, receiver_id: &AccountId) -> (i: usize)
        requires
            old(self).wf(),
            receiver_id.valid(),
        ensures
            final(self).wf(),
            i < final(self).postponed_deposits.spec_entries().len(),
            final(self).postponed_deposits.spec_entries()[i as int].0@ == receiver_id@,
            final(self)@ == (RuntimeView {
                postponed_deposits: old(self)@.postponed_deposits.insert(receiver_id@, postponed_of(old(self)@.postponed_deposits, receiver_id@)),
                ..old(self)@
            }),
            forall|t: TokenIdView| #[trigger] final(self).spec_postponed_total(t) == old(self).spec_postponed_total(t),
    {
        match self.postponed_deposits.find(receiver_id) {
            Some(i) => {
                proof {
                    self.postponed_deposits.lemma_view();
                    crate::map::lemma_to_map_index(self.postponed_deposits.spec_entries(), i as int);
                    assert(self@.postponed_deposits =~= old(self)@.postponed_deposits.insert(receiver_id@,
                        postponed_of(old(self)@.postponed_deposits, receiver_id@)));
                }
                i
            },
            None => {
                let n = self.postponed_deposits.len();
                let ghost s = self.postponed_deposits.spec_entries();
                let empty = TokenAmounts::new();
                let key = receiver_id.clone();
                let ghost gk = key;
                let ghost ge = empty;
                self.postponed_deposits.insert(key, empty);
                proof {
                    self.postponed_deposits.lemma_push_entries(s, gk, ge);
                    assert(self.postponed_deposits.spec_entries().drop_last() =~= s);
                    assert forall|t: TokenIdView| #[trigger] self.spec_postponed_total(t) == old(self).spec_postponed_total(t) by {
                        assert(amount_in(ge@, t) == 0);
                    }
                    assert forall|j: int| 0 <= j < self.postponed_deposits.spec_entries().len() implies ({
                        let e = #[trigger] self.postponed_deposits.spec_entries()[j];
                        e.0.valid() && e.1.wf()
                    }) by {
                        if j < s.len() {
                            assert(self.postponed_deposits.spec_entries()[j] == s[j]);
                        }
                    }
                }
                n
            },
        }
    }

    /// Makes sure `receiver_id` has an entry of postponed deposits, so that
    /// its account exists at the end of the batch.
    pub fn touch(&mut self, receiver_id: &AccountId)
        requires
            old(self).wf(),
            receiver_id.valid(),
        ensures
            final(self).wf(),
            final(self)@ == (RuntimeView {
                postponed_deposits: old(self)@.postponed_deposits.insert(receiver_id@, postponed_of(old(self)@.postponed_deposits, receiver_id@)),
                ..old(self)@
            }),
            forall|t: TokenIdView| #[trigger] final(self).spec_postponed_total(t) == old(self).spec_postponed_total(t),
    {
        self.entry_of(receiver_id);
    }

    /// Postpones a deposit of `amount` of `token_id` to `receiver_id` until
    /// the end of the batch. Fails with `BalanceOverflow` where the postponed
    /// sum would overflow (the receiver keeps its entry).
    pub fn postpone_deposit(&mut self, receiver_id: &AccountId, token_id: TokenId, amount: u128) -> (r: Result<(), DefuseError>)
        requires
            old(self).wf(),
            receiver_id.valid(),
        ensures
            final(self).wf(),
            ({
                let p = postponed_of(old(self)@.postponed_deposits, receiver_id@);
                &&& (r is Ok) <==> amount_in(p, token_id@) + amount <= u128::MAX
                &&& r is Ok ==> final(self)@ == (RuntimeView {
                    postponed_deposits: old(self)@.postponed_deposits.insert(receiver_id@,
                        with_amount(p, token_id@, (amount_in(p, token_id@) + amount) as u128)),
                    ..old(self)@
                })
                &&& r is Err ==> r == Err::<(), DefuseError>(DefuseError::BalanceOverflow) && final(self)@ == (RuntimeView {
                    postponed_deposits: old(self)@.postponed_deposits.insert(receiver_id@, p),
                    ..old(self)@
                })
            }),
            r is Ok ==> forall|t: TokenIdView| #[trigger] final(self).spec_postponed_total(t)
                == old(self).spec_postponed_total(t) + if t == token_id@ { amount as nat } else { 0 },
            r is Err ==> forall|t: TokenIdView| #[trigger] final(self).spec_postponed_total(t) == old(self).spec_postponed_total(t),
    {
        let i = self.entry_of(receiver_id);
        let ghost s = self.postponed_deposits.spec_entries();
        let ghost mid = self@;
        proof {
            self.postponed_deposits.lemma_view();
            crate::map::lemma_to_map_index(s, i as int);
        }
        let ghost mid_rt = *self;
        let amounts = self.postponed_deposits.value_mut_at(i);
        let ghost before_amounts = *amounts;
        let r = amounts.deposit(token_id, amount);
        proof {
            assert forall|t: TokenIdView| #[trigger] self.spec_postponed_total(t) + amount_in(before_amounts@, t)
                == mid_rt.spec_postponed_total(t) + amount_in(s[i as int].1@, t) + (amount_in(self.postponed_deposits.spec_entries()[i as int].1@, t) - amount_in(before_amounts@, t)) by {
                lemma_postponed_sum_update(s, i as int, self.postponed_deposits.spec_entries()[i as int], t);
            }
            assert forall|j: int| 0 <= j < self.postponed_deposits.spec_entries().len() implies ({
                let e = #[trigger] self.postponed_deposits.spec_entries()[j];
                e.0.valid() && e.1.wf()
            }) by {
                if j != i {
                    assert(self.postponed_deposits.spec_entries()[j] == s[j]);
                }
            }
        }
        match r {
            Some(_) => {
                proof {
                    assert(self@.postponed_deposits =~= old(self)@.postponed_deposits.insert(receiver_id@,
                        with_amount(postponed_of(old(self)@.postponed_deposits, receiver_id@), token_id@,
                        (amount_in(postponed_of(old(self)@.postponed_deposits, receiver_id@), token_id@) + amount) as u128)));
                }
                Ok(())
            },
            None => {
                proof {
                    assert(self@.postponed_deposits =~= mid.postponed_deposits);
                }
                Err(DefuseError::BalanceOverflow)
            },
        }
    }

    /// The changes of the total supplies that the batch has left so far.
    pub fn supply_deltas(&self) -> (v: Vec<(TokenId, i128)>)
        requires
            self.wf(),
        ensures
            deltas_listed(v@.map_values(|p: (TokenId, i128)| (p.0@, p.1)), self@.total_supply_deltas),
    {
        self.total_supply_deltas.to_vec()
    }

    /// Whether the batch leaves every total supply as it was.
    pub fn supplies_unchanged(&self) -> (b: bool)
        requires
            self.wf(),
        ensures
            b == (self@.total_supply_deltas == Map::<TokenIdView, i128>::empty()),
    {
        self.total_supply_deltas.is_empty()
    }

    /// Adds `delta` to the change of the total supply of `token_id`. Fails
    /// with `BalanceOverflow` (and no change) where it would overflow.
    pub fn add_supply_delta(&mut self, token_id: TokenId, delta: i128) -> (r: Result<(), DefuseError>)
        requires
            old(self).wf(),
        ensures
            final(self).wf(),
            (r is Ok) <==> i128::MIN <= delta_in(old(self)@.total_supply_deltas, token_id@) + delta <= i128::MAX,
            r is Ok ==> final(self)@ == (RuntimeView {
                total_supply_deltas: with_delta(old(self)@.total_supply_deltas, token_id@,
                    (delta_in(old(self)@.total_supply_deltas, token_id@) + delta) as i128),
                ..old(self)@
            }),
            r is Err ==> r == Err::<(), DefuseError>(DefuseError::BalanceOverflow) && final(self)@ == old(self)@,
            forall|t: TokenIdView| #[trigger] final(self).spec_postponed_total(t) == old(self).spec_postponed_total(t),
    {
        match self.total_supply_deltas.add(token_id, delta) {
            Some(_) => Ok(()),
            None => Err(DefuseError::BalanceOverflow),
        }
    }

    /// Ends the batch: fails with `InvariantViolated` (and no change) where
    /// some total supply would change; otherwise delivers the postponed
    /// deposits, receiver by receiver, creating the accounts. Fails with
    /// `BalanceOverflow` at the first balance that would overflow, and
    /// succeeds where every balance has room for what is postponed to it.
    pub fn finalize(self, contract: &mut Contract) -> (r: Result<(), DefuseError>)
        requires
            self.wf(),
            old(contract).wf(),
        ensures
            final(contract).wf(),
            crate::replay::nonces_kept(old(contract)@, final(contract)@),
            self@.total_supply_deltas != Map::<TokenIdView, i128>::empty() ==> r
                == Err::<(), DefuseError>(DefuseError::InvariantViolated) && final(contract)@ == old(contract)@,
            self@.total_supply_deltas == Map::<TokenIdView, i128>::empty() ==> {
                &&& (r is Ok) <==> deliver_fits(old(contract)@.accounts, self@.postponed_deposits)
                &&& r matches Err(e) ==> e == DefuseError::BalanceOverflow
                &&& r is Ok ==> final(contract)@ == (ContractView { accounts: final(contract)@.accounts, ..old(contract)@ })
                    && delivered(old(contract)@.accounts, self@.postponed_deposits, final(contract)@.accounts)
            },
            self@.total_supply_deltas == Map::<TokenIdView, i128>::empty() ==> {
                let res = spec_deliver(old(contract)@.accounts, self.spec_deposit_entries());
                &&& final(contract)@ == (ContractView { accounts: res.0, ..old(contract)@ })
                &&& (r is Ok) <==> res.1 is None
                &&& r matches Err(e) ==> res.1 == Some(e)
            },
            r is Ok ==> forall|t: TokenIdView| #[trigger] final(contract).spec_accounts_total(t)
                == old(contract).spec_accounts_total(t) + self.spec_postponed_total(t),
            batch_balanced(*old(contract), self) && r is Ok ==> final(contract).supply_consistent(),
    {
        broadcast use crate::replay::group_nonces_kept;
        proof {
            self.lemma_deposit_entries();
            lemma_deliver_listed(contract@.accounts, self.spec_deposit_entries(), self@.postponed_deposits);
        }
        self.deliver(contract)
    }

    /// The delivery of `finalize`, over the entries in insertion order.
    fn deliver(self, contract: &mut Contract) -> (r: Result<(), DefuseError>)
        requires
            self.wf(),
            old(contract).wf(),
        ensures
            final(contract).wf(),
            self@.total_supply_deltas != Map::<TokenIdView, i128>::empty() ==> r
                == Err::<(), DefuseError>(DefuseError::InvariantViolated) && final(contract)@ == old(contract)@,
            self@.total_supply_deltas == Map::<TokenIdView, i128>::empty() ==> {
                let res = spec_deliver(old(contract)@.accounts, self.spec_deposit_entries());
                &&& final(contract)@ == (ContractView { accounts: res.0, ..old(contract)@ })
                &&& (r is Ok) <==> res.1 is None
                &&& r matches Err(e) ==> res.1 == Some(e)
            },
            r is Ok ==> forall|t: TokenIdView| #[trigger] final(contract).spec_accounts_total(t)
                == old(contract).spec_accounts_total(t) + self.spec_postponed_total(t),
            batch_balanced(*old(contract), self) && r is Ok ==> final(contract).supply_consistent(),
    {
        if !self.total_supply_deltas.is_empty() {
            return Err(DefuseError::InvariantViolated);
        }
        let ghost entries = self.spec_deposit_entries();
        let ghost acc0 = contract@.accounts;
        let n = self.postponed_deposits.len();
        let mut k: usize = 0;
        proof {
            assert(entries.skip(0) =~= entries);
            assert(self.postponed_deposits.spec_entries().take(0) =~= Seq::<(AccountId, TokenAmounts)>::empty());
        }
        while k < n
            invariant
                self.wf(),
                contract.wf(),
                n == self.postponed_deposits.spec_entries().len(),
                k <= n,
                entries == self.spec_deposit_entries(),
                self@.total_supply_deltas == Map::<TokenIdView, i128>::empty(),
                acc0 == old(contract)@.accounts,
                contract@ == (ContractView { accounts: contract@.accounts, ..old(contract)@ }),
                spec_deliver(acc0, entries) == spec_deliver(contract@.accounts, entries.skip(k as int)),
                forall|t: TokenIdView| #[trigger] contract.spec_accounts_total(t) == old(contract).spec_accounts_total(t)
                    + postponed_sum(self.postponed_deposits.spec_entries().take(k as int), t),
            decreases n - k,
        {
            let e = self.postponed_deposits.entry_at(k);
            let receiver = &e.0;
            let tokens = &e.1;
            let ghost tv = tokens_view(tokens.spec_entries());
            proof {
                assert(entries.skip(k as int)[0] == entries[k as int]);
                assert(entries.skip(k as int).drop_first() =~= entries.skip(k + 1));
                assert(entries[k as int] == (receiver@, tv));
                assert(e == self.postponed_deposits.spec_entries()[k as int]);
                assert(receiver.valid() && tokens.wf());
                assert(tv.skip(0) =~= tv);
            }
            let ghost before = contract@.accounts;
            contract.touch_account(receiver);
            proof {
                lemma_credit_all_touched(before, receiver@, tv);
                assert(tv.take(0) =~= Seq::<(TokenIdView, u128)>::empty());
            }
            let m = tokens.len();
            let mut j: usize = 0;
            while j < m
                invariant
                    contract.wf(),
                    receiver.valid(),
                    m == tokens.spec_entries().len(),
                    j <= m,
                    tv == tokens_view(tokens.spec_entries()),
                    contract@ == (ContractView { accounts: contract@.accounts, ..old(contract)@ }),
                    contract@.accounts.dom().contains(receiver@),
                    spec_credit_all(before, receiver@, tv) == spec_credit_all(contract@.accounts, receiver@, tv.skip(j as int)),
                    spec_deliver(acc0, entries) == spec_deliver(before, entries.skip(k as int)),
                    entries.skip(k as int).len() > 0,
                    entries.skip(k as int)[0] == (receiver@, tv),
                    entries.skip(k as int).drop_first() == entries.skip(k + 1),
                    entries == self.spec_deposit_entries(),
                    self@.total_supply_deltas == Map::<TokenIdView, i128>::empty(),
                    acc0 == old(contract)@.accounts,
                    k < n,
                    n == self.postponed_deposits.spec_entries().len(),
                    forall|t: TokenIdView| #[trigger] contract.spec_accounts_total(t) == old(contract).spec_accounts_total(t)
                        + postponed_sum(self.postponed_deposits.spec_entries().take(k as int), t) + tokens_total(tv.take(j as int), t),
                decreases m - j,
            {
                let te = tokens.entry_at(j);
                proof {
                    assert(tv.skip(j as int)[0] == tv[j as int]);
                    assert(tv.skip(j as int).drop_first() =~= tv.skip(j + 1));
                    assert(tv[j as int] == (te.0@, te.1));
                    assert(tv.take(j + 1).drop_last() =~= tv.take(j as int));
                }
                match contract.credit(receiver, te.0.clone(), te.1) {
                    Some(_) => {},
                    None => {
                        proof {
                            assert(contract@.accounts =~= with_balances(contract@.accounts, receiver@,
                                balances_of(contract@.accounts, receiver@)));
                        }
                        return Err(DefuseError::BalanceOverflow);
                    },
                }
                j = j + 1;
            }
            proof {
                assert(tv.skip(m as int) =~= Seq::<(TokenIdView, u128)>::empty());
                assert(contract@.accounts =~= with_balances(contract@.accounts, receiver@,
                    balances_of(contract@.accounts, receiver@)));
                let es = self.postponed_deposits.spec_entries();
                assert(tv.take(m as int) =~= tv);
                tokens.lemma_wf();
                assert(es.take(k + 1).drop_last() =~= es.take(k as int));
                assert(es.take(k + 1).last() == es[k as int]);
                assert forall|t: TokenIdView| #[trigger] contract.spec_accounts_total(t) == old(contract).spec_accounts_total(t)
                    + postponed_sum(es.take(k + 1), t) by {
                    lemma_tokens_total(tokens.spec_entries(), t);
                }
            }
            k = k + 1;
        }
        proof {
            assert(entries.skip(n as int) =~= Seq::<(Seq<char>, Seq<(TokenIdView, u128)>)>::empty());
            assert(self.postponed_deposits.spec_entries().take(n as int) =~= self.postponed_deposits.spec_entries());
            if batch_balanced(*old(contract), self) {
                assert forall|t: TokenIdView| #[trigger] amount_in(contract@.total_supplies, t) == contract.spec_accounts_total(t) by {
                    assert(old(contract).spec_accounts_total(t) + self.spec_postponed_total(t)
                        == amount_in(old(contract)@.total_supplies, t) + delta_in(self@.total_supply_deltas, t));
                }
            }
        }
        Ok(())
    }
}

/// A change of an account's balances, signed by its owner, that must be
/// committed before its deadline.
#[derive(Debug)]
pub struct AccountDiff {
    /// Whether the deadline has passed.
    pub deadline_expired: bool,
    pub tokens: Vec<(TokenId, i128)>,
}

/// Committing the changes `tokens` of `owner` one by one: each moves the
/// sum of all changes and the owner's balance (the account is created).
/// Stops with `BalanceOverflow` where either leaves its range. Gives the
/// accounts, the sums and the error.
pub open spec fn spec_commit_diff(
    accounts: Map<Seq<char>, AccountView>,
    sums: Map<TokenIdView, i128>,
    owner: Seq<char>,
    tokens: Seq<(TokenIdView, i128)>,
) -> (Map<Seq<char>, AccountView>, Map<TokenIdView, i128>, Option<DefuseError>)
    decreases tokens.len(),
{
    if tokens.len() == 0 {
        (accounts, sums, None)
    } else {
        let t = tokens[0].0;
        let d = tokens[0].1;
        if !(i128::MIN <= delta_in(sums, t) + d <= i128::MAX) {
            (accounts, sums, Some(DefuseError::BalanceOverflow))
        } else {
            let sums2 = with_delta(sums, t, (delta_in(sums, t) + d) as i128);
            let b = balances_of(accounts, owner);
            if !(0 <= amount_in(b, t) + d <= u128::MAX) {
                (with_balances(accounts, owner, b), sums2, Some(DefuseError::BalanceOverflow))
            } else {
                spec_commit_diff(with_balances(accounts, owner, with_amount(b, t, (amount_in(b, t) + d) as u128)), sums2, owner, tokens.drop_first())
            }
        }
    }
}

proof fn lemma_commit_diff_keeps(
    accounts: Map<Seq<char>, AccountView>,
    sums: Map<TokenIdView, i128>,
    owner: Seq<char>,
    tokens: Seq<(TokenIdView, i128)>,
    id: Seq<char>,
)
    requires
        accounts.dom().contains(id),
    ensures
        spec_commit_diff(accounts, sums, owner, tokens).0.dom().contains(id),
    decreases tokens.len(),
{
    if tokens.len() > 0 {
        let t = tokens[0].0;
        let d = tokens[0].1;
        if i128::MIN <= delta_in(sums, t) + d <= i128::MAX {
            let sums2 = with_delta(sums, t, (delta_in(sums, t) + d) as i128);
            let b = balances_of(accounts, owner);
            if 0 <= amount_in(b, t) + d <= u128::MAX {
                lemma_commit_diff_keeps(with_balances(accounts, owner, with_amount(b, t, (amount_in(b, t) + d) as u128)),
                    sums2, owner, tokens.drop_first(), id);
            }
        }
    }
}

/// The entries of a diff as values.
pub open spec fn deltas_view(tokens: Seq<(TokenId, i128)>) -> Seq<(TokenIdView, i128)> {
    tokens.map_values(|e: (TokenId, i128)| (e.0@, e.1))
}

/// Applies signed account diffs and checks that, all together, they move
/// no token in or out.
#[derive(Debug)]
pub struct Differ {
    token_deltas: TokenDeltas,
}

impl View for Differ {
    type V = Map<TokenIdView, i128>;

    closed spec fn view(&self) -> Map<TokenIdView, i128> {
        self.token_deltas@
    }
}

impl Differ {
    pub closed spec fn wf(&self) -> bool {
        self.token_deltas.wf()
    }

    pub fn new() -> (d: Self)
        ensures
            d.wf(),
            d@ == Map::<TokenIdView, i128>::empty(),
    {
        Differ { token_deltas: TokenDeltas::new() }
    }

    /// Commits `diff` to the balances of `owner`: fails with
    /// `DeadlineExpired` (and no change) past its deadline, else as
    /// `spec_commit_diff` says.
    pub fn commit_account_diff(&mut self, contract: &mut Contract, owner: &AccountId, diff: AccountDiff) -> (r: Result<(), DefuseError>)
        requires
            old(self).wf(),
            old(contract).wf(),
            owner.valid(),
        ensures
            final(self).wf(),
            final(contract).wf(),
            crate::replay::nonces_kept(old(contract)@, final(contract)@),
            diff.deadline_expired ==> r == Err::<(), DefuseError>(DefuseError::DeadlineExpired)
                && final(self)@ == old(self)@ && final(contract)@ == old(contract)@,
            !diff.deadline_expired ==> {
                let res = spec_commit_diff(old(contract)@.accounts, old(self)@, owner@, deltas_view(diff.tokens@));
                &&& final(contract)@ == (ContractView { accounts: res.0, ..old(contract)@ })
                &&& final(self)@ == res.1
                &&& crate::contract::err_of(r) == res.2
            },
            r is Ok ==> forall|t: TokenIdView| #[trigger] final(contract).spec_accounts_total(t) + delta_in(old(self)@, t)
                == old(contract).spec_accounts_total(t) + delta_in(final(self)@, t),
    {
        broadcast use crate::replay::group_nonces_kept;
        if diff.deadline_expired {
            return Err(DefuseError::DeadlineExpired);
        }
        let ghost dv = deltas_view(diff.tokens@);
        let ghost c0 = contract@;
        let ghost s0 = self@;
        let n = diff.tokens.len();
        let mut i: usize = 0;
        proof {
            assert(dv.skip(0) =~= dv);
        }
        while i < n
            invariant
                self.wf(),
                contract.wf(),
                owner.valid(),
                n == diff.tokens@.len(),
                i <= n,
                dv == deltas_view(diff.tokens@),
                !diff.deadline_expired,
                c0 == old(contract)@,
                s0 == old(self)@,
                contract@ == (ContractView { accounts: contract@.accounts, ..c0 }),
                spec_commit_diff(c0.accounts, s0, owner@, dv)
                    == spec_commit_diff(contract@.accounts, self@, owner@, dv.skip(i as int)),
                forall|u: TokenIdView| #[trigger] contract.spec_accounts_total(u) + delta_in(s0, u)
                    == old(contract).spec_accounts_total(u) + delta_in(self@, u),
                crate::replay::nonces_kept(old(contract)@, contract@),
            decreases n - i,
        {
            let t = &diff.tokens[i].0;
            let d = diff.tokens[i].1;
            let ghost c_pre = *contract;
            let ghost s_pre = self@;
            proof {
                assert(dv.skip(i as int)[0] == dv[i as int]);
                assert(dv.skip(i as int).drop_first() =~= dv.skip(i + 1));
                assert(dv[i as int] == (t@, d));
            }
            match self.token_deltas.add(t.clone(), d) {
                Some(_) => {},
                None => {
                    return Err(DefuseError::BalanceOverflow);
                },
            }
            match contract.shift(owner, t.clone(), d) {
                Some(_) => {},
                None => {
                    proof {
                        crate::replay::lemma_nonces_kept_trans(old(contract)@, c_pre@, contract@);
                    }
                    return Err(DefuseError::BalanceOverflow);
                },
            }
            proof {
                crate::replay::lemma_nonces_kept_trans(old(contract)@, c_pre@, contract@);
            }
            proof {
                assert forall|u: TokenIdView| #[trigger] contract.spec_accounts_total(u) + delta_in(s0, u)
                    == old(contract).spec_accounts_total(u) + delta_in(self@, u) by {
                    assert(c_pre.spec_accounts_total(u) + delta_in(s0, u) == old(contract).spec_accounts_total(u) + delta_in(s_pre, u));
                    if u == t@ {
                        assert(delta_in(self@, u) == delta_in(s_pre, u) + d);
                    } else {
                        assert(delta_in(self@, u) == delta_in(s_pre, u));
                    }
                }
            }
            i = i + 1;
        }
        proof {
            assert(dv.skip(n as int) =~= Seq::<(TokenIdView, i128)>::empty());
        }
        Ok(())
    }

    /// Succeeds where all committed diffs cancel out; fails with
    /// `InvariantViolated` where some token moved in sum.
    pub fn ensure_invariant(self) -> (r: Result<(), DefuseError>)
        requires
            self.wf(),
        ensures
            (r is Ok) <==> self@ == Map::<TokenIdView, i128>::empty(),
            r is Err ==> r == Err::<(), DefuseError>(DefuseError::InvariantViolated),
    {
        if self.token_deltas.is_empty() {
            Ok(())
        } else {
            Err(DefuseError::InvariantViolated)
        }
    }
}

/// An account diff signed by its owner, the signature already checked.
#[derive(Debug)]
pub struct SignedDiff {
    /// The key that the signature verifies against; `None` where it does
    /// not verify.
    pub public_key: Option<PublicKey>,
    /// The contract the diff is addressed to.
    pub recipient: AccountId,
    pub nonce: Nonce,
    pub diff: AccountDiff,
}

/// The key of a signed diff, where it has one, has the length of its curve.
pub open spec fn signed_diff_key_valid(s: SignedDiff) -> bool {
    s.public_key matches Some(pk) ==> pk.valid()
}

/// Checking a signed diff of the existing account `signer` on the contract
/// `current`: it must verify with a key of the account, be addressed to
/// `current`, and use up a fresh nonce.
pub open spec fn spec_verify_signed(c: ContractView, current: Seq<char>, signer: Seq<char>, s: SignedDiff)
    -> (ContractView, Option<DefuseError>) {
    match s.public_key {
        None => (c, Some(DefuseError::InvalidSignature)),
        Some(pk) => {
            let a = c.accounts[signer];
            if !spec_has_public_key(a, signer, pk@) {
                (c, Some(DefuseError::InvalidSignature))
            } else if s.recipient@ != current {
                (c, Some(DefuseError::WrongRecipient))
            } else if a.nonces.contains(s.nonce@) {
                (c, Some(DefuseError::NonceUsed))
            } else {
                (ContractView {
                    accounts: c.accounts.insert(signer, AccountView { nonces: a.nonces.insert(s.nonce@), ..a }),
                    ..c
                }, None)
            }
        },
    }
}

/// Checking and committing one signed diff of `signer`, with `sums` the
/// changes committed so far.
pub open spec fn spec_apply_signed(c: ContractView, sums: Map<TokenIdView, i128>, current: Seq<char>, signer: Seq<char>, s: SignedDiff)
    -> (ContractView, Map<TokenIdView, i128>, Option<DefuseError>) {
    let v = spec_verify_signed(c, current, signer, s);
    if v.1 is Some {
        (v.0, sums, v.1)
    } else if s.diff.deadline_expired {
        (v.0, sums, Some(DefuseError::DeadlineExpired))
    } else {
        let res = spec_commit_diff(v.0.accounts, sums, signer, deltas_view(s.diff.tokens@));
        (ContractView { accounts: res.0, ..v.0 }, res.1, res.2)
    }
}

/// The signed diffs of `signer`, in order, up to the first that fails.
pub open spec fn spec_apply_payloads(c: ContractView, sums: Map<TokenIdView, i128>, current: Seq<char>, signer: Seq<char>, ps: Seq<SignedDiff>)
    -> (ContractView, Map<TokenIdView, i128>, Option<DefuseError>)
    decreases ps.len(),
{
    if ps.len() == 0 {
        (c, sums, None)
    } else {
        let r = spec_apply_signed(c, sums, current, signer, ps[0]);
        if r.2 is Some {
            r
        } else {
            spec_apply_payloads(r.0, r.1, current, signer, ps.drop_first())
        }
    }
}

/// The signed diffs of each signer in turn (its account created first),
/// up to the first that fails.
pub open spec fn spec_apply_all(c: ContractView, sums: Map<TokenIdView, i128>, current: Seq<char>, diffs: Seq<(AccountId, Vec<SignedDiff>)>)
    -> (ContractView, Map<TokenIdView, i128>, Option<DefuseError>)
    decreases diffs.len(),
{
    if diffs.len() == 0 {
        (c, sums, None)
    } else {
        let signer = diffs[0].0@;
        let c1 = ContractView { accounts: c.accounts.insert(signer, account_or_fresh(c.accounts, signer)), ..c };
        let r = spec_apply_payloads(c1, sums, current, signer, diffs[0].1@);
        if r.2 is Some {
            r
        } else {
            spec_apply_all(r.0, r.1, current, diffs.drop_first())
        }
    }
}

proof fn lemma_payloads_unexpired(c: ContractView, sums: Map<TokenIdView, i128>, current: Seq<char>, signer: Seq<char>, ps: Seq<SignedDiff>)
    ensures
        spec_apply_payloads(c, sums, current, signer, ps).2 is None ==> forall|i: int| 0 <= i < ps.len()
            ==> !(#[trigger] ps[i]).diff.deadline_expired,
    decreases ps.len(),
{
    if ps.len() > 0 {
        let r = spec_apply_signed(c, sums, current, signer, ps[0]);
        lemma_payloads_unexpired(r.0, r.1, current, signer, ps.drop_first());
        if spec_apply_payloads(c, sums, current, signer, ps).2 is None {
            assert forall|i: int| 0 <= i < ps.len() implies !(#[trigger] ps[i]).diff.deadline_expired by {
                if i > 0 {
                    assert(ps[i] == ps.drop_first()[i - 1]);
                }
            }
        }
    }
}

/// Signed diffs are applied only while none has expired: where applying a
/// batch succeeds, no diff in it had passed its deadline.
pub proof fn lemma_expired_diff_refused(c: ContractView, sums: Map<TokenIdView, i128>, current: Seq<char>, diffs: Seq<(AccountId, Vec<SignedDiff>)>)
    ensures
        spec_apply_all(c, sums, current, diffs).2 is None ==> forall|i: int, j: int|
            0 <= i < diffs.len() && 0 <= j < diffs[i].1@.len() ==> !(#[trigger] diffs[i].1@[j]).diff.deadline_expired,
    decreases diffs.len(),
{
    if diffs.len() > 0 {
        let signer = diffs[0].0@;
        let c1 = ContractView { accounts: c.accounts.insert(signer, account_or_fresh(c.accounts, signer)), ..c };
        let r = spec_apply_payloads(c1, sums, current, signer, diffs[0].1@);
        lemma_payloads_unexpired(c1, sums, current, signer, diffs[0].1@);
        lemma_expired_diff_refused(r.0, r.1, current, diffs.drop_first());
        if spec_apply_all(c, sums, current, diffs).2 is None {
            assert forall|i: int, j: int| 0 <= i < diffs.len() && 0 <= j < diffs[i].1@.len()
                implies !(#[trigger] diffs[i].1@[j]).diff.deadline_expired by {
                if i > 0 {
                    assert(diffs[i] == diffs.drop_first()[i - 1]);
                }
            }
        }
    }
}

/// An expired signed diff, once its signature checks out, fails with
/// `DeadlineExpired` and commits none of its token changes: every balance
/// and the committed sums stay as they were.
pub proof fn lemma_expired_diff_commits_nothing(
    c: ContractView,
    sums: Map<TokenIdView, i128>,
    current: Seq<char>,
    signer: Seq<char>,
    s: SignedDiff,
)
    requires
        c.accounts.dom().contains(signer),
        spec_verify_signed(c, current, signer, s).1 is None,
        s.diff.deadline_expired,
    ensures
        ({
            let r = spec_apply_signed(c, sums, current, signer, s);
            &&& r.2 == Some(DefuseError::DeadlineExpired)
            &&& r.1 == sums
            &&& forall|id: Seq<char>| #[trigger] balances_of(r.0.accounts, id) == balances_of(c.accounts, id)
        }),
{
    let r = spec_apply_signed(c, sums, current, signer, s);
    assert forall|id: Seq<char>| #[trigger] balances_of(r.0.accounts, id) == balances_of(c.accounts, id) by {
        if id == signer {
            assert(r.0.accounts.dom().contains(id));
        }
    }
}

impl Contract {
    /// Checks a signed diff of the existing account `signer_id`, as
    /// `spec_verify_signed` says.
    fn verify_signed(&mut self, current_account_id: &AccountId, signer_id: &AccountId, s: &SignedDiff) -> (r: Result<(), DefuseError>)
        requires
            old(self).wf(),
            signer_id.valid(),
            old(self)@.accounts.dom().contains(signer_id@),
            signed_diff_key_valid(*s),
        ensures
            final(self).wf(),
            (final(self)@, err_of(r)) == spec_verify_signed(old(self)@, current_account_id@, signer_id@, *s),
            forall|t: TokenIdView| #[trigger] final(self).spec_accounts_total(t) == old(self).spec_accounts_total(t),
            crate::replay::nonces_kept(old(self)@, final(self)@),
    {
        broadcast use crate::replay::group_nonces_kept;
        let pk = match &s.public_key {
            Some(pk) => pk,
            None => {
                return Err(DefuseError::InvalidSignature);
            },
        };
        if !self.has_public_key(signer_id, pk) {
            return Err(DefuseError::InvalidSignature);
        }
        if !s.recipient.key_eq_id(current_account_id) {
            return Err(DefuseError::WrongRecipient);
        }
        let r = self.commit_nonce(signer_id.clone(), &s.nonce);
        proof {
            let a = old(self)@.accounts[signer_id@];
            if r is Err {
                assert(a.nonces.insert(s.nonce@) =~= a.nonces);
                assert(self@.accounts =~= old(self)@.accounts);
            }
        }
        r
    }

    /// Applies account diffs signed by their owners: for each signer in
    /// turn, creates its account, checks and commits each of its diffs, and
    /// at the end requires all committed changes to cancel out. Fails at
    /// the first diff that fails, and with `InvariantViolated` where the
    /// changes do not cancel out.
    pub fn apply_signed_diffs(&mut self, current_account_id: &AccountId, diffs: Vec<(AccountId, Vec<SignedDiff>)>)
        -> (r: Result<(), DefuseError>)
        requires
            old(self).wf(),
            forall|i: int| 0 <= i < diffs@.len() ==> (#[trigger] diffs@[i]).0.valid(),
            forall|i: int, j: int| 0 <= i < diffs@.len() && 0 <= j < diffs@[i].1@.len()
                ==> signed_diff_key_valid(#[trigger] diffs@[i].1@[j]),
        ensures
            final(self).wf(),
            crate::replay::nonces_kept(old(self)@, final(self)@),
            ({
                let res = spec_apply_all(old(self)@, Map::<TokenIdView, i128>::empty(), current_account_id@, diffs@);
                &&& final(self)@ == res.0
                &&& res.2 is Some ==> err_of(r) == res.2
                &&& res.2 is None ==> ((r is Ok) <==> res.1 == Map::<TokenIdView, i128>::empty())
                &&& res.2 is None && r is Err ==> r == Err::<(), DefuseError>(DefuseError::InvariantViolated)
            }),
            r is Ok ==> forall|t: TokenIdView| #[trigger] final(self).spec_accounts_total(t) == old(self).spec_accounts_total(t),
            old(self).supply_consistent() && r is Ok ==> final(self).supply_consistent(),
    {
        broadcast use crate::replay::group_nonces_kept;
        let ghost all = diffs@;
        let mut differ = Differ::new();
        let mut rest = diffs;
        let ghost mut k: int = 0;
        proof {
            assert(all.skip(0) =~= all);
        }
        while rest.len() > 0
            invariant
                self.wf(),
                differ.wf(),
                0 <= k <= all.len(),
                all == diffs@,
                rest@ == all.skip(k),
                forall|i: int| 0 <= i < all.len() ==> (#[trigger] all[i]).0.valid(),
                forall|i: int, j: int| 0 <= i < all.len() && 0 <= j < all[i].1@.len()
                    ==> signed_diff_key_valid(#[trigger] all[i].1@[j]),
                spec_apply_all(old(self)@, Map::<TokenIdView, i128>::empty(), current_account_id@, all)
                    == spec_apply_all(self@, differ@, current_account_id@, rest@),
                forall|u: TokenIdView| #[trigger] self.spec_accounts_total(u) == old(self).spec_accounts_total(u) + delta_in(differ@, u),
                self@.total_supplies == old(self)@.total_supplies,
                crate::replay::nonces_kept(old(self)@, self@),
            decreases rest@.len(),
        {
            let (signer_id, payloads) = rest.remove(0);
            proof {
                assert(all.skip(k)[0] == all[k]);
                assert(all.skip(k).drop_first() =~= all.skip(k + 1));
                assert(rest@ =~= all.skip(k + 1));
                assert(signer_id == all[k].0 && payloads == all[k].1);
            }
            let ghost c_before = self@;
            self.touch_account(&signer_id);
            proof {
                crate::replay::lemma_nonces_kept_trans(old(self)@, c_before, self@);
            }
            proof {
                assert(self@.accounts =~= c_before.accounts.insert(signer_id@, account_or_fresh(c_before.accounts, signer_id@)));
            }
            let ghost ps = payloads@;
            let mut prest = payloads;
            let ghost mut j: int = 0;
            proof {
                assert(ps.skip(0) =~= ps);
            }
            let ghost inner_start = (self@, differ@);
            while prest.len() > 0
                invariant
                    self.wf(),
                    differ.wf(),
                    signer_id.valid(),
                    self@.accounts.dom().contains(signer_id@),
                    0 <= j <= ps.len(),
                    prest@ == ps.skip(j),
                    forall|i: int| 0 <= i < ps.len() ==> signed_diff_key_valid(#[trigger] ps[i]),
                    spec_apply_payloads(inner_start.0, inner_start.1, current_account_id@, signer_id@, ps)
                        == spec_apply_payloads(self@, differ@, current_account_id@, signer_id@, prest@),
                    all == diffs@,
                    rest@ == all.skip(k + 1),
                    0 <= k < all.len(),
                    spec_apply_all(old(self)@, Map::<TokenIdView, i128>::empty(), current_account_id@, all)
                        == spec_apply_all(c_before, inner_start.1, current_account_id@, all.skip(k)),
                    all.skip(k)[0].0@ == signer_id@,
                    all.skip(k)[0].1@ == ps,
                    all.skip(k).drop_first() == all.skip(k + 1),
                    inner_start.0 == (ContractView {
                        accounts: c_before.accounts.insert(signer_id@, account_or_fresh(c_before.accounts, signer_id@)),
                        ..c_before
                    }),
                    forall|i: int| 0 <= i < all.len() ==> (#[trigger] all[i]).0.valid(),
                    forall|i: int, jj: int| 0 <= i < all.len() && 0 <= jj < all[i].1@.len()
                        ==> signed_diff_key_valid(#[trigger] all[i].1@[jj]),
                    forall|u: TokenIdView| #[trigger] self.spec_accounts_total(u) == old(self).spec_accounts_total(u) + delta_in(differ@, u),
                    self@.total_supplies == old(self)@.total_supplies,
                    crate::replay::nonces_kept(old(self)@, self@),
                decreases prest@.len(),
            {
                let p = prest.remove(0);
                proof {
                    assert(ps.skip(j)[0] == ps[j]);
                    assert(ps.skip(j).drop_first() =~= ps.skip(j + 1));
                    assert(prest@ =~= ps.skip(j + 1));
                    assert(p == ps[j]);
                }
                let ghost c0 = self@;
                let ghost s0 = differ@;
                match self.verify_signed(current_account_id, &signer_id, &p) {
                    Ok(()) => {},
                    Err(e) => {
                        proof {
                            crate::replay::lemma_nonces_kept_trans(old(self)@, c0, self@);
                        }
                        return Err(e);
                    },
                }
                proof {
                    crate::replay::lemma_nonces_kept_trans(old(self)@, c0, self@);
                }
                let SignedDiff { public_key: _, recipient: _, nonce: _, diff } = p;
                let ghost c_mid = self@;
                let ghost toks = deltas_view(diff.tokens@);
                let ghost expired = diff.deadline_expired;
                match differ.commit_account_diff(self, &signer_id, diff) {
                    Ok(()) => {},
                    Err(e) => {
                        proof {
                            crate::replay::lemma_nonces_kept_trans(old(self)@, c_mid, self@);
                        }
                        return Err(e);
                    },
                }
                proof {
                    crate::replay::lemma_nonces_kept_trans(old(self)@, c_mid, self@);
                }
                proof {
                    if !expired {
                        lemma_commit_diff_keeps(c_mid.accounts, s0, signer_id@, toks, signer_id@);
                    }
                    j = j + 1;
                }
            }
            proof {
                k = k + 1;
            }
        }
        let ghost sums = differ@;
        let r = differ.ensure_invariant();
        proof {
            if r is Ok {
                assert forall|t: TokenIdView| #[trigger] self.spec_accounts_total(t) == old(self).spec_accounts_total(t) by {
                    assert(delta_in(sums, t) == 0);
                }
                if old(self).supply_consistent() {
                    assert forall|t: TokenIdView| #[trigger] amount_in(self@.total_supplies, t) == self.spec_accounts_total(t) by {
                        assert(delta_in(sums, t) == 0);
                        assert(amount_in(old(self)@.total_supplies, t) == old(self).spec_accounts_total(t));
                    }
                }
            }
        }
        r
    }
}

} // verus!
