//! Used nonces stay used: each operation on the contract keeps every nonce
//! that was used before, so a signed request that ran is refused again
//! whatever ran after it.

use vstd::prelude::*;

use crate::account::AccountView;
use crate::amounts::{amount_in, with_amount};
use crate::contract::{
    account_or_fresh, balances_of, spec_deposit_result, spec_resolve, spec_resolve_step, spec_transfer,
    spec_withdraw_result, with_balances, ContractView,
};
use crate::intents::{
    lemma_intent_keeps_nonce, lemma_intents_keep_nonce, lemma_signed_all_keeps_nonce, lemma_signed_keeps_nonce,
    nonce_used, spec_execute_intent, spec_execute_intents, spec_execute_signed, spec_execute_signed_all, Intent,
    SignedIntent,
};
use crate::runtime::{spec_credit_all, spec_deliver, RuntimeView};
use crate::token_id::TokenIdView;

verus! {

/// Every nonce used in `a1` is used in `a2`.
pub open spec fn nonces_kept_in(a1: Map<Seq<char>, AccountView>, a2: Map<Seq<char>, AccountView>) -> bool {
    forall|id: Seq<char>, n: Seq<u8>| #[trigger] nonce_used(a1, id, n) ==> nonce_used(a2, id, n)
}

/// Every nonce used in `before` is used in `after`.
pub open spec fn nonces_kept(before: ContractView, after: ContractView) -> bool {
    nonces_kept_in(before.accounts, after.accounts)
}

/// Keeping used nonces carries over a sequence of operations.
pub proof fn lemma_nonces_kept_trans(a: ContractView, b: ContractView, c: ContractView)
    requires
        nonces_kept(a, b),
        nonces_kept(b, c),
    ensures
        nonces_kept(a, c),
{
    assert forall|id: Seq<char>, n: Seq<u8>| #[trigger] nonce_used(a.accounts, id, n) implies nonce_used(c.accounts, id, n) by {
        assert(nonce_used(b.accounts, id, n));
    }
}

proof fn lemma_in_trans(a: Map<Seq<char>, AccountView>, b: Map<Seq<char>, AccountView>, c: Map<Seq<char>, AccountView>)
    requires
        nonces_kept_in(a, b),
        nonces_kept_in(b, c),
    ensures
        nonces_kept_in(a, c),
{
    assert forall|id: Seq<char>, n: Seq<u8>| #[trigger] nonce_used(a, id, n) implies nonce_used(c, id, n) by {
        assert(nonce_used(b, id, n));
    }
}

pub broadcast proof fn lemma_with_balances_kept(accounts: Map<Seq<char>, AccountView>, id: Seq<char>, b: Map<TokenIdView, u128>)
    ensures
        #[trigger] nonces_kept_in(accounts, with_balances(accounts, id, b)),
{
}

pub broadcast proof fn lemma_same_accounts_kept(accounts: Map<Seq<char>, AccountView>)
    ensures
        #[trigger] nonces_kept_in(accounts, accounts),
{
}

pub broadcast proof fn lemma_deposit_kept(c: ContractView, owner: Seq<char>, tokens: Seq<(TokenIdView, u128)>)
    ensures
        #[trigger] nonces_kept(c, spec_deposit_result(c, owner, tokens).0),
{
    broadcast use lemma_with_balances_kept;
}

pub broadcast proof fn lemma_withdraw_kept(c: ContractView, owner: Seq<char>, tokens: Seq<(TokenIdView, u128)>, memo: Option<Seq<char>>)
    ensures
        #[trigger] nonces_kept(c, spec_withdraw_result(c, owner, tokens, memo).0),
{
    broadcast use lemma_with_balances_kept, lemma_same_accounts_kept;
}

pub broadcast proof fn lemma_transfer_kept(
    accounts: Map<Seq<char>, AccountView>,
    sender: Seq<char>,
    receiver: Seq<char>,
    ids: Seq<Seq<char>>,
    amounts: Seq<u128>,
)
    ensures
        #[trigger] nonces_kept_in(accounts, spec_transfer(accounts, sender, receiver, ids, amounts).0),
    decreases ids.len(),
{
    broadcast use lemma_with_balances_kept, lemma_same_accounts_kept;
    if ids.len() > 0 && amounts.len() > 0 && amounts[0] != 0 {
        match crate::token_id::spec_parse_token_id(ids[0]) {
            None => {},
            Some(t) => {
                if accounts.dom().contains(sender) && amount_in(accounts[sender].token_balances, t) >= amounts[0] {
                    let a = amounts[0];
                    let sb = accounts[sender].token_balances;
                    let a2 = with_balances(accounts, sender, with_amount(sb, t, (amount_in(sb, t) - a) as u128));
                    let rb = balances_of(a2, receiver);
                    assert(nonces_kept_in(accounts, a2));
                    assert(nonces_kept_in(a2, with_balances(a2, receiver, rb)));
                    lemma_in_trans(accounts, a2, with_balances(a2, receiver, rb));
                    if amount_in(rb, t) + a <= u128::MAX {
                        let a3 = with_balances(a2, receiver, with_amount(rb, t, (amount_in(rb, t) + a) as u128));
                        assert(nonces_kept_in(a2, a3));
                        lemma_in_trans(accounts, a2, a3);
                        lemma_transfer_kept(a3, sender, receiver, ids.drop_first(), amounts.drop_first());
                        lemma_in_trans(accounts, a3, spec_transfer(a3, sender, receiver, ids.drop_first(), amounts.drop_first()).0);
                    }
                }
            },
        }
    }
}

pub broadcast proof fn lemma_resolve_kept(
    accounts: Map<Seq<char>, AccountView>,
    receiver: Seq<char>,
    prevs: Seq<Seq<char>>,
    tokens: Seq<TokenIdView>,
    amounts: Seq<u128>,
    refunds: Seq<u128>,
)
    ensures
        #[trigger] nonces_kept_in(accounts, spec_resolve(accounts, receiver, prevs, tokens, amounts, refunds).0),
    decreases tokens.len(),
{
    broadcast use lemma_with_balances_kept, lemma_same_accounts_kept;
    if tokens.len() > 0 && prevs.len() > 0 && amounts.len() > 0 && refunds.len() > 0 {
        let step = spec_resolve_step(accounts, receiver, prevs[0], tokens[0], amounts[0], refunds[0]);
        if !step.3 {
            let r1 = if refunds[0] < amounts[0] { refunds[0] } else { amounts[0] };
            if r1 != 0 && accounts.dom().contains(receiver) {
                let rb = accounts[receiver].token_balances;
                let held = amount_in(rb, tokens[0]);
                if held != 0 {
                    let r2 = if r1 < held { r1 } else { held as u128 };
                    let a2 = with_balances(accounts, receiver, with_amount(rb, tokens[0], (held - r2) as u128));
                    let pb = balances_of(a2, prevs[0]);
                    let a3 = with_balances(a2, prevs[0], with_amount(pb, tokens[0], (amount_in(pb, tokens[0]) + r2) as u128));
                    assert(nonces_kept_in(accounts, a2));
                    assert(nonces_kept_in(a2, a3));
                    lemma_in_trans(accounts, a2, a3);
                }
            }
            lemma_resolve_kept(step.0, receiver, prevs.drop_first(), tokens.drop_first(), amounts.drop_first(), refunds.drop_first());
            lemma_in_trans(accounts, step.0,
                spec_resolve(step.0, receiver, prevs.drop_first(), tokens.drop_first(), amounts.drop_first(), refunds.drop_first()).0);
        }
    }
}

pub broadcast proof fn lemma_credit_all_kept(accounts: Map<Seq<char>, AccountView>, id: Seq<char>, tokens: Seq<(TokenIdView, u128)>)
    ensures
        #[trigger] nonces_kept_in(accounts, spec_credit_all(accounts, id, tokens).0),
    decreases tokens.len(),
{
    broadcast use lemma_with_balances_kept;
    let b = balances_of(accounts, id);
    if tokens.len() > 0 {
        let t = tokens[0].0;
        let a = tokens[0].1;
        if amount_in(b, t) + a <= u128::MAX {
            let a2 = with_balances(accounts, id, with_amount(b, t, (amount_in(b, t) + a) as u128));
            assert(nonces_kept_in(accounts, a2));
            lemma_credit_all_kept(a2, id, tokens.drop_first());
            lemma_in_trans(accounts, a2, spec_credit_all(a2, id, tokens.drop_first()).0);
        }
    }
}

pub broadcast proof fn lemma_deliver_kept(accounts: Map<Seq<char>, AccountView>, entries: Seq<(Seq<char>, Seq<(TokenIdView, u128)>)>)
    ensures
        #[trigger] nonces_kept_in(accounts, spec_deliver(accounts, entries).0),
    decreases entries.len(),
{
    broadcast use lemma_same_accounts_kept;
    if entries.len() > 0 {
        let r = spec_credit_all(accounts, entries[0].0, entries[0].1);
        lemma_credit_all_kept(accounts, entries[0].0, entries[0].1);
        if r.1 is None {
            lemma_deliver_kept(r.0, entries.drop_first());
            lemma_in_trans(accounts, r.0, spec_deliver(r.0, entries.drop_first()).0);
        }
    }
}

pub broadcast proof fn lemma_intent_kept(c: ContractView, rt: RuntimeView, signer: Seq<char>, intent: Intent)
    ensures
        #[trigger] nonces_kept(c, spec_execute_intent(c, rt, signer, intent).0),
{
    assert forall|id: Seq<char>, n: Seq<u8>| #[trigger] nonce_used(c.accounts, id, n)
        implies nonce_used(spec_execute_intent(c, rt, signer, intent).0.accounts, id, n) by {
        lemma_intent_keeps_nonce(c, rt, signer, intent, id, n);
    }
}

pub broadcast proof fn lemma_intents_kept(c: ContractView, rt: RuntimeView, signer: Seq<char>, intents: Seq<Intent>)
    ensures
        #[trigger] nonces_kept(c, spec_execute_intents(c, rt, signer, intents).0),
{
    assert forall|id: Seq<char>, n: Seq<u8>| #[trigger] nonce_used(c.accounts, id, n)
        implies nonce_used(spec_execute_intents(c, rt, signer, intents).0.accounts, id, n) by {
        lemma_intents_keep_nonce(c, rt, signer, intents, id, n);
    }
}

pub broadcast proof fn lemma_signed_kept(c: ContractView, rt: RuntimeView, current: Seq<char>, s: SignedIntent)
    ensures
        #[trigger] nonces_kept(c, spec_execute_signed(c, rt, current, s).0),
{
    assert forall|id: Seq<char>, n: Seq<u8>| #[trigger] nonce_used(c.accounts, id, n)
        implies nonce_used(spec_execute_signed(c, rt, current, s).0.accounts, id, n) by {
        lemma_signed_keeps_nonce(c, rt, current, s, id, n);
    }
}

pub broadcast proof fn lemma_signed_all_kept(c: ContractView, rt: RuntimeView, current: Seq<char>, ss: Seq<SignedIntent>)
    ensures
        #[trigger] nonces_kept(c, spec_execute_signed_all(c, rt, current, ss).0),
{
    assert forall|id: Seq<char>, n: Seq<u8>| #[trigger] nonce_used(c.accounts, id, n)
        implies nonce_used(spec_execute_signed_all(c, rt, current, ss).0.accounts, id, n) by {
        lemma_signed_all_keeps_nonce(c, rt, current, ss, id, n);
    }
}

/// The facts that operations keep used nonces, for each operation's spec.
pub broadcast group group_nonces_kept {
    lemma_with_balances_kept,
    lemma_same_accounts_kept,
    lemma_deposit_kept,
    lemma_withdraw_kept,
    lemma_transfer_kept,
    lemma_resolve_kept,
    lemma_credit_all_kept,
    lemma_deliver_kept,
    lemma_intent_kept,
    lemma_intents_kept,
    lemma_signed_kept,
    lemma_signed_all_kept,
}

/// A signed request that ran is refused again, whatever operations ran
/// after it: each of them keeps the nonces used before (`nonces_kept`, which
/// every operation of the contract states), and the request's nonce is one.
pub proof fn lemma_replay_refused_after(
    c: ContractView,
    rt: RuntimeView,
    current: Seq<char>,
    s: SignedIntent,
    later: ContractView,
    later_rt: RuntimeView,
)
    requires
        spec_execute_signed(c, rt, current, s).2 is None,
        nonces_kept(spec_execute_signed(c, rt, current, s).0, later),
    ensures
        spec_execute_signed(later, later_rt, current, s).2 is Some,
{
    let signer = s.signer_id@;
    let a = account_or_fresh(c.accounts, signer);
    let c2 = ContractView {
        accounts: c.accounts.insert(signer, AccountView { nonces: a.nonces.insert(s.nonce@), ..a }),
        ..c
    };
    assert(nonce_used(c2.accounts, signer, s.nonce@));
    lemma_intents_keep_nonce(c2, rt, signer, s.intents@, signer, s.nonce@);
    assert(nonce_used(spec_execute_signed(c, rt, current, s).0.accounts, signer, s.nonce@));
    assert(nonce_used(later.accounts, signer, s.nonce@));
    assert(account_or_fresh(later.accounts, signer).nonces.contains(s.nonce@));
}

} // verus!
