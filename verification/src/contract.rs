//! The contract's state and the operations on its token balances.

use vstd::prelude::*;

use crate::account::{key_views, keys_exclude_implicit, listed_keys, spec_has_public_key, AccountView};
use crate::account_id::AccountId;
use crate::accounts::{fresh_account, Accounts};
use crate::amounts::{amount_in, lemma_with_amount, no_zero_amounts, with_amount, TokenAmounts};
use crate::crypto::{spec_from_implicit_account_id, spec_implicit_account_id, PublicKey, PublicKeyView};
use crate::errors::DefuseError;
use crate::events::{opt_string_view, refund_memo, strings_view, MtBurnEvent, MtMintEvent, MtTransferEvent};
use crate::fees::{FeesConfig, Pips};
use crate::map::LinearMap;
use crate::nonces::Nonce;
use crate::token_id::{spec_parse_token_id, spec_token_id_parts, spec_token_id_string, ParseTokenIdError, TokenId, TokenIdView};

verus! {

/// A burn event as values: owner, token strings, amounts, memo.
pub type BurnView = (Seq<char>, Seq<Seq<char>>, Seq<u128>, Option<Seq<char>>);

impl View for MtBurnEvent {
    type V = BurnView;

    open spec fn view(&self) -> BurnView {
        (self.owner_id@, strings_view(self.token_ids@), self.amounts@, opt_string_view(self.memo))
    }
}

/// The contract's state, as values.
pub struct ContractView {
    pub accounts: Map<Seq<char>, AccountView>,
    pub total_supplies: Map<TokenIdView, u128>,
    pub wnear_id: Seq<char>,
    pub fee: u32,
    pub fee_collector: Seq<char>,
    pub relayer_keys: Set<PublicKeyView>,
    pub postponed_burns: Seq<BurnView>,
}

/// The account of `id`, or a fresh one where there is none.
pub open spec fn account_or_fresh(accounts: Map<Seq<char>, AccountView>, id: Seq<char>) -> AccountView {
    if accounts.dom().contains(id) {
        accounts[id]
    } else {
        fresh_account(id)
    }
}

/// The balances of `id`, none where there is no account.
pub open spec fn balances_of(accounts: Map<Seq<char>, AccountView>, id: Seq<char>) -> Map<TokenIdView, u128> {
    account_or_fresh(accounts, id).token_balances
}

/// `accounts` where `id` (created where missing) holds the balances `b`.
pub open spec fn with_balances(
    accounts: Map<Seq<char>, AccountView>,
    id: Seq<char>,
    b: Map<TokenIdView, u128>,
) -> Map<Seq<char>, AccountView> {
    accounts.insert(id, AccountView { token_balances: b, ..account_or_fresh(accounts, id) })
}

/// Crediting `tokens` in order to an owner's balances `b` and to the total
/// supplies `s`: the supplies and balances after it and the first error.
/// Each amount must be non-zero; an overflow of the supply or the balance
/// stops it.
pub open spec fn spec_mint(
    s: Map<TokenIdView, u128>,
    b: Map<TokenIdView, u128>,
    tokens: Seq<(TokenIdView, u128)>,
) -> (Map<TokenIdView, u128>, Map<TokenIdView, u128>, Option<DefuseError>)
    decreases tokens.len(),
{
    if tokens.len() == 0 {
        (s, b, None)
    } else {
        let t = tokens[0].0;
        let a = tokens[0].1;
        if a == 0 {
            (s, b, Some(DefuseError::InvalidIntent))
        } else if amount_in(s, t) + a > u128::MAX {
            (s, b, Some(DefuseError::BalanceOverflow))
        } else {
            let s2 = with_amount(s, t, (amount_in(s, t) + a) as u128);
            if amount_in(b, t) + a > u128::MAX {
                (s2, b, Some(DefuseError::BalanceOverflow))
            } else {
                spec_mint(s2, with_amount(b, t, (amount_in(b, t) + a) as u128), tokens.drop_first())
            }
        }
    }
}

/// Debiting `tokens` in order from an owner's balances `b` and from the
/// total supplies `s`: the supplies and balances after it and the first
/// error. Each amount must be non-zero; a balance or supply too small stops
/// it.
pub open spec fn spec_burn(
    s: Map<TokenIdView, u128>,
    b: Map<TokenIdView, u128>,
    tokens: Seq<(TokenIdView, u128)>,
) -> (Map<TokenIdView, u128>, Map<TokenIdView, u128>, Option<DefuseError>)
    decreases tokens.len(),
{
    if tokens.len() == 0 {
        (s, b, None)
    } else {
        let t = tokens[0].0;
        let a = tokens[0].1;
        if a == 0 {
            (s, b, Some(DefuseError::InvalidIntent))
        } else if amount_in(b, t) < a {
            (s, b, Some(DefuseError::BalanceOverflow))
        } else {
            let b2 = with_amount(b, t, (amount_in(b, t) - a) as u128);
            if amount_in(s, t) < a {
                (s, b2, Some(DefuseError::BalanceOverflow))
            } else {
                spec_burn(with_amount(s, t, (amount_in(s, t) - a) as u128), b2, tokens.drop_first())
            }
        }
    }
}

/// The error of `r`, if any.
pub open spec fn err_of<T>(r: Result<T, DefuseError>) -> Option<DefuseError> {
    match r {
        Ok(_) => None,
        Err(e) => Some(e),
    }
}

/// The mint event of crediting `tokens` to `owner` with `memo`.
pub open spec fn mint_event_matches(ev: MtMintEvent, owner: Seq<char>, tokens: Seq<(TokenIdView, u128)>, memo: Option<Seq<char>>) -> bool {
    &&& ev.owner_id@ == owner
    &&& strings_view(ev.token_ids@) == token_strings(tokens)
    &&& ev.amounts@ == amounts_of(tokens)
    &&& opt_string_view(ev.memo) == memo
}

/// Crediting `tokens` to `owner` (created where missing) and to the total
/// supplies: the contract after it and the first error.
pub open spec fn spec_deposit_result(
    before: ContractView,
    owner: Seq<char>,
    tokens: Seq<(TokenIdView, u128)>,
) -> (ContractView, Option<DefuseError>) {
    let res = spec_mint(before.total_supplies, balances_of(before.accounts, owner), tokens);
    (ContractView { accounts: with_balances(before.accounts, owner, res.1), total_supplies: res.0, ..before }, res.2)
}

/// Crediting `tokens` to `owner` and to the total supplies took the contract
/// from `before` to `after` and ended with `err`.
pub open spec fn deposit_outcome(
    before: ContractView,
    owner: Seq<char>,
    tokens: Seq<(TokenIdView, u128)>,
    after: ContractView,
    err: Option<DefuseError>,
) -> bool {
    (after, err) == spec_deposit_result(before, owner, tokens)
}

/// Debiting `tokens` from `owner` and from the total supplies: the contract
/// after it and the first error. On success a burn event with `memo` waits
/// for the end of the transaction.
pub open spec fn spec_withdraw_result(
    before: ContractView,
    owner: Seq<char>,
    tokens: Seq<(TokenIdView, u128)>,
    memo: Option<Seq<char>>,
) -> (ContractView, Option<DefuseError>) {
    if !before.accounts.dom().contains(owner) {
        (before, Some(DefuseError::AccountNotFound))
    } else {
        let res = spec_burn(before.total_supplies, before.accounts[owner].token_balances, tokens);
        let after = ContractView {
            accounts: with_balances(before.accounts, owner, res.1),
            total_supplies: res.0,
            ..before
        };
        if res.2 is Some {
            (after, res.2)
        } else {
            (ContractView {
                postponed_burns: before.postponed_burns.push((owner, token_strings(tokens), amounts_of(tokens), memo)),
                ..after
            }, None)
        }
    }
}

/// Debiting `tokens` from `owner` and from the total supplies took the
/// contract from `before` to `after` and ended with `err`.
pub open spec fn withdraw_outcome(
    before: ContractView,
    owner: Seq<char>,
    tokens: Seq<(TokenIdView, u128)>,
    memo: Option<Seq<char>>,
    after: ContractView,
    err: Option<DefuseError>,
) -> bool {
    (after, err) == spec_withdraw_result(before, owner, tokens, memo)
}

/// What `tokens` list of `t` together.
pub open spec fn amount_sum(tokens: Seq<(TokenIdView, u128)>, t: TokenIdView) -> nat
    decreases tokens.len(),
{
    if tokens.len() == 0 {
        0
    } else {
        (if tokens[0].0 == t { tokens[0].1 as nat } else { 0 }) + amount_sum(tokens.drop_first(), t)
    }
}

proof fn lemma_mint_adds(s: Map<TokenIdView, u128>, b: Map<TokenIdView, u128>, tokens: Seq<(TokenIdView, u128)>)
    requires
        no_zero_amounts(s),
        no_zero_amounts(b),
        spec_mint(s, b, tokens).2 is None,
    ensures
        no_zero_amounts(spec_mint(s, b, tokens).0),
        no_zero_amounts(spec_mint(s, b, tokens).1),
        forall|i: int| 0 <= i < tokens.len() ==> (#[trigger] tokens[i]).1 > 0,
        forall|t: TokenIdView| #[trigger] amount_in(spec_mint(s, b, tokens).0, t) == amount_in(s, t) + amount_sum(tokens, t),
        forall|t: TokenIdView| #[trigger] amount_in(spec_mint(s, b, tokens).1, t) == amount_in(b, t) + amount_sum(tokens, t),
    decreases tokens.len(),
{
    if tokens.len() > 0 {
        let t0 = tokens[0].0;
        let a = tokens[0].1;
        let s2 = with_amount(s, t0, (amount_in(s, t0) + a) as u128);
        let b2 = with_amount(b, t0, (amount_in(b, t0) + a) as u128);
        lemma_with_amount(s, t0, (amount_in(s, t0) + a) as u128);
        lemma_with_amount(b, t0, (amount_in(b, t0) + a) as u128);
        lemma_mint_adds(s2, b2, tokens.drop_first());
        assert forall|i: int| 0 <= i < tokens.len() implies (#[trigger] tokens[i]).1 > 0 by {
            if i > 0 {
                assert(tokens[i] == tokens.drop_first()[i - 1]);
            }
        }
    }
}

proof fn lemma_burn_subtracts(s: Map<TokenIdView, u128>, b: Map<TokenIdView, u128>, tokens: Seq<(TokenIdView, u128)>)
    requires
        no_zero_amounts(s),
        no_zero_amounts(b),
        forall|i: int| 0 <= i < tokens.len() ==> (#[trigger] tokens[i]).1 > 0,
        forall|t: TokenIdView| #[trigger] amount_in(s, t) >= amount_sum(tokens, t),
        forall|t: TokenIdView| #[trigger] amount_in(b, t) >= amount_sum(tokens, t),
    ensures
        spec_burn(s, b, tokens).2 is None,
        no_zero_amounts(spec_burn(s, b, tokens).0),
        no_zero_amounts(spec_burn(s, b, tokens).1),
        forall|t: TokenIdView| #[trigger] amount_in(spec_burn(s, b, tokens).0, t) + amount_sum(tokens, t) == amount_in(s, t),
        forall|t: TokenIdView| #[trigger] amount_in(spec_burn(s, b, tokens).1, t) + amount_sum(tokens, t) == amount_in(b, t),
    decreases tokens.len(),
{
    if tokens.len() > 0 {
        let t0 = tokens[0].0;
        let a = tokens[0].1;
        assert(amount_in(s, t0) >= amount_sum(tokens, t0));
        assert(amount_in(b, t0) >= amount_sum(tokens, t0));
        let s2 = with_amount(s, t0, (amount_in(s, t0) - a) as u128);
        let b2 = with_amount(b, t0, (amount_in(b, t0) - a) as u128);
        lemma_with_amount(s, t0, (amount_in(s, t0) - a) as u128);
        lemma_with_amount(b, t0, (amount_in(b, t0) - a) as u128);
        let rest = tokens.drop_first();
        assert forall|i: int| 0 <= i < rest.len() implies (#[trigger] rest[i]).1 > 0 by {
            assert(rest[i] == tokens[i + 1]);
        }
        assert forall|t: TokenIdView| #[trigger] amount_in(s2, t) >= amount_sum(rest, t) by {
            assert(amount_in(s, t) >= amount_sum(tokens, t));
        }
        assert forall|t: TokenIdView| #[trigger] amount_in(b2, t) >= amount_sum(rest, t) by {
            assert(amount_in(b, t) >= amount_sum(tokens, t));
        }
        lemma_burn_subtracts(s2, b2, rest);
    }
}

proof fn lemma_same_amounts(m1: Map<TokenIdView, u128>, m2: Map<TokenIdView, u128>)
    requires
        no_zero_amounts(m1),
        no_zero_amounts(m2),
        forall|t: TokenIdView| #[trigger] amount_in(m1, t) == amount_in(m2, t),
    ensures
        m1 == m2,
{
    assert forall|t: TokenIdView| m1.dom().contains(t) <==> m2.dom().contains(t) by {
        assert(amount_in(m1, t) == amount_in(m2, t));
    }
    assert forall|t: TokenIdView| m1.dom().contains(t) implies m1[t] == m2[t] by {
        assert(amount_in(m1, t) == amount_in(m2, t));
    }
    assert(m1 =~= m2);
}

/// Withdrawing what a deposit credited always succeeds and undoes it: the
/// total supplies and the owner's balances are as before the deposit (the
/// owner's account now exists), and a burn event waits.
pub proof fn lemma_withdraw_undoes_deposit(c: ContractView, owner: Seq<char>, tokens: Seq<(TokenIdView, u128)>, memo: Option<Seq<char>>)
    requires
        no_zero_amounts(c.total_supplies),
        no_zero_amounts(balances_of(c.accounts, owner)),
        spec_deposit_result(c, owner, tokens).1 is None,
    ensures
        ({
            let d = spec_deposit_result(c, owner, tokens).0;
            let w = spec_withdraw_result(d, owner, tokens, memo);
            &&& w.1 is None
            &&& w.0 == (ContractView {
                accounts: with_balances(c.accounts, owner, balances_of(c.accounts, owner)),
                postponed_burns: c.postponed_burns.push((owner, token_strings(tokens), amounts_of(tokens), memo)),
                ..c
            })
        }),
{
    let b = balances_of(c.accounts, owner);
    let m = spec_mint(c.total_supplies, b, tokens);
    lemma_mint_adds(c.total_supplies, b, tokens);
    let d = spec_deposit_result(c, owner, tokens).0;
    assert(d.accounts.dom().contains(owner));
    assert(d.accounts[owner].token_balances == m.1);
    assert forall|t: TokenIdView| #[trigger] amount_in(m.0, t) >= amount_sum(tokens, t) by {}
    assert forall|t: TokenIdView| #[trigger] amount_in(m.1, t) >= amount_sum(tokens, t) by {}
    lemma_burn_subtracts(m.0, m.1, tokens);
    let r = spec_burn(m.0, m.1, tokens);
    lemma_same_amounts(r.0, c.total_supplies);
    lemma_same_amounts(r.1, b);
    let w = spec_withdraw_result(d, owner, tokens, memo);
    assert(with_balances(d.accounts, owner, r.1) =~= with_balances(c.accounts, owner, b));
    assert(w.0 == (ContractView {
        accounts: with_balances(c.accounts, owner, b),
        postponed_burns: c.postponed_burns.push((owner, token_strings(tokens), amounts_of(tokens), memo)),
        ..c
    }));
}

proof fn lemma_burn_takes(s: Map<TokenIdView, u128>, b: Map<TokenIdView, u128>, tokens: Seq<(TokenIdView, u128)>)
    requires
        no_zero_amounts(s),
        no_zero_amounts(b),
        spec_burn(s, b, tokens).2 is None,
    ensures
        no_zero_amounts(spec_burn(s, b, tokens).0),
        no_zero_amounts(spec_burn(s, b, tokens).1),
        forall|i: int| 0 <= i < tokens.len() ==> (#[trigger] tokens[i]).1 > 0,
        forall|t: TokenIdView| #[trigger] amount_in(spec_burn(s, b, tokens).0, t) + amount_sum(tokens, t) == amount_in(s, t),
        forall|t: TokenIdView| #[trigger] amount_in(spec_burn(s, b, tokens).1, t) + amount_sum(tokens, t) == amount_in(b, t),
    decreases tokens.len(),
{
    if tokens.len() > 0 {
        let t0 = tokens[0].0;
        let a = tokens[0].1;
        let s2 = with_amount(s, t0, (amount_in(s, t0) - a) as u128);
        let b2 = with_amount(b, t0, (amount_in(b, t0) - a) as u128);
        lemma_with_amount(s, t0, (amount_in(s, t0) - a) as u128);
        lemma_with_amount(b, t0, (amount_in(b, t0) - a) as u128);
        lemma_burn_takes(s2, b2, tokens.drop_first());
        assert forall|i: int| 0 <= i < tokens.len() implies (#[trigger] tokens[i]).1 > 0 by {
            if i > 0 {
                assert(tokens[i] == tokens.drop_first()[i - 1]);
            }
        }
    }
}

proof fn lemma_mint_fits(s: Map<TokenIdView, u128>, b: Map<TokenIdView, u128>, tokens: Seq<(TokenIdView, u128)>)
    requires
        no_zero_amounts(s),
        no_zero_amounts(b),
        forall|i: int| 0 <= i < tokens.len() ==> (#[trigger] tokens[i]).1 > 0,
        forall|t: TokenIdView| #[trigger] amount_in(s, t) + amount_sum(tokens, t) <= u128::MAX,
        forall|t: TokenIdView| #[trigger] amount_in(b, t) + amount_sum(tokens, t) <= u128::MAX,
    ensures
        spec_mint(s, b, tokens).2 is None,
    decreases tokens.len(),
{
    if tokens.len() > 0 {
        let t0 = tokens[0].0;
        let a = tokens[0].1;
        assert(amount_in(s, t0) + amount_sum(tokens, t0) <= u128::MAX);
        assert(amount_in(b, t0) + amount_sum(tokens, t0) <= u128::MAX);
        let s2 = with_amount(s, t0, (amount_in(s, t0) + a) as u128);
        let b2 = with_amount(b, t0, (amount_in(b, t0) + a) as u128);
        lemma_with_amount(s, t0, (amount_in(s, t0) + a) as u128);
        lemma_with_amount(b, t0, (amount_in(b, t0) + a) as u128);
        let rest = tokens.drop_first();
        assert forall|i: int| 0 <= i < rest.len() implies (#[trigger] rest[i]).1 > 0 by {
            assert(rest[i] == tokens[i + 1]);
        }
        assert forall|t: TokenIdView| #[trigger] amount_in(s2, t) + amount_sum(rest, t) <= u128::MAX by {
            assert(amount_in(s, t) + amount_sum(tokens, t) <= u128::MAX);
        }
        assert forall|t: TokenIdView| #[trigger] amount_in(b2, t) + amount_sum(rest, t) <= u128::MAX by {
            assert(amount_in(b, t) + amount_sum(tokens, t) <= u128::MAX);
        }
        lemma_mint_fits(s2, b2, rest);
    }
}

/// Depositing back what a withdrawal debited (as the refund of a failed
/// transfer does) always succeeds and undoes it: the accounts and the total
/// supplies are as before the withdrawal.
pub proof fn lemma_deposit_undoes_withdraw(c: ContractView, owner: Seq<char>, tokens: Seq<(TokenIdView, u128)>, memo: Option<Seq<char>>)
    requires
        no_zero_amounts(c.total_supplies),
        no_zero_amounts(balances_of(c.accounts, owner)),
        spec_withdraw_result(c, owner, tokens, memo).1 is None,
    ensures
        ({
            let w = spec_withdraw_result(c, owner, tokens, memo).0;
            let d = spec_deposit_result(w, owner, tokens);
            &&& d.1 is None
            &&& d.0.accounts == c.accounts
            &&& d.0.total_supplies == c.total_supplies
        }),
{
    let b = balances_of(c.accounts, owner);
    assert(c.accounts.dom().contains(owner));
    let r = spec_burn(c.total_supplies, b, tokens);
    lemma_burn_takes(c.total_supplies, b, tokens);
    let w = spec_withdraw_result(c, owner, tokens, memo).0;
    assert(balances_of(w.accounts, owner) == r.1);
    lemma_mint_fits(r.0, r.1, tokens);
    lemma_mint_adds(r.0, r.1, tokens);
    let m = spec_mint(r.0, r.1, tokens);
    lemma_same_amounts(m.0, c.total_supplies);
    lemma_same_amounts(m.1, b);
    let d = spec_deposit_result(w, owner, tokens);
    assert(d.0.accounts =~= c.accounts);
}

/// The tokens that `token_ids` name, with `amounts`.
pub open spec fn parsed_tokens(token_ids: Seq<Seq<char>>, amounts: Seq<u128>) -> Seq<(TokenIdView, u128)> {
    Seq::new(token_ids.len(), |i: int| (spec_parse_token_id(token_ids[i])->0, amounts[i]))
}

/// A transfer that runs to the end moves, per token, the sum of its
/// amounts from the sender to the receiver and touches no other account.
proof fn lemma_transfer_moves(
    accounts: Map<Seq<char>, AccountView>,
    sender: Seq<char>,
    receiver: Seq<char>,
    ids: Seq<Seq<char>>,
    amounts: Seq<u128>,
)
    requires
        sender != receiver,
        ids.len() == amounts.len(),
        spec_transfer(accounts, sender, receiver, ids, amounts).1 is Done,
        no_zero_amounts(balances_of(accounts, sender)),
        no_zero_amounts(balances_of(accounts, receiver)),
    ensures
        ({
            let res = spec_transfer(accounts, sender, receiver, ids, amounts).0;
            let tv = parsed_tokens(ids, amounts);
            &&& forall|t: TokenIdView| #[trigger] amount_in(balances_of(res, sender), t) + amount_sum(tv, t)
                == amount_in(balances_of(accounts, sender), t)
            &&& forall|t: TokenIdView| #[trigger] amount_in(balances_of(res, receiver), t)
                == amount_in(balances_of(accounts, receiver), t) + amount_sum(tv, t)
            &&& forall|id: Seq<char>| id != sender && id != receiver ==>
                (#[trigger] res.dom().contains(id) <==> accounts.dom().contains(id))
            &&& forall|id: Seq<char>| id != sender && id != receiver && accounts.dom().contains(id) ==> #[trigger] res[id] == accounts[id]
        }),
    decreases ids.len(),
{
    let tv = parsed_tokens(ids, amounts);
    if ids.len() > 0 {
        let a = amounts[0];
        let t0 = spec_parse_token_id(ids[0])->0;
        let sb = accounts[sender].token_balances;
        let a2 = with_balances(accounts, sender, with_amount(sb, t0, (amount_in(sb, t0) - a) as u128));
        let rb = balances_of(a2, receiver);
        let a3 = with_balances(a2, receiver, with_amount(rb, t0, (amount_in(rb, t0) + a) as u128));
        lemma_with_amount(sb, t0, (amount_in(sb, t0) - a) as u128);
        assert(balances_of(a2, receiver) == balances_of(accounts, receiver));
        lemma_with_amount(rb, t0, (amount_in(rb, t0) + a) as u128);
        assert(balances_of(a3, sender) == with_amount(sb, t0, (amount_in(sb, t0) - a) as u128));
        assert(parsed_tokens(ids.drop_first(), amounts.drop_first()) =~= tv.drop_first());
        lemma_transfer_moves(a3, sender, receiver, ids.drop_first(), amounts.drop_first());
    }
}

/// Why a sequence of steps stopped, if it did.
pub enum Stop {
    /// It ran to the end.
    Done,
    /// It failed with this error.
    Error(DefuseError),
    /// This string is not a token id.
    BadTokenId(Seq<char>),
}

/// `r` is the result that `stop` describes.
pub open spec fn result_matches<T>(r: Result<T, DefuseError>, stop: Stop) -> bool {
    match stop {
        Stop::Done => r is Ok,
        Stop::Error(e) => r == Err::<T, DefuseError>(e),
        Stop::BadTokenId(s) => r matches Err(DefuseError::ParseTokenId(pe))
            && (pe == ParseTokenIdError::VariantNotFound <==> spec_token_id_parts(s) is None),
    }
}

/// Moving `amounts` of the tokens named by `token_ids`, in order, from
/// `sender` to `receiver` (created on the first move): the accounts after it
/// and where it stopped. A zero amount, a string that is no token id, a
/// missing sender, a balance too small or an overflow of the receiver's
/// balance stops it.
pub open spec fn spec_transfer(
    accounts: Map<Seq<char>, AccountView>,
    sender: Seq<char>,
    receiver: Seq<char>,
    token_ids: Seq<Seq<char>>,
    amounts: Seq<u128>,
) -> (Map<Seq<char>, AccountView>, Stop)
    decreases token_ids.len(),
{
    if token_ids.len() == 0 || amounts.len() == 0 {
        (accounts, Stop::Done)
    } else {
        let a = amounts[0];
        if a == 0 {
            (accounts, Stop::Error(DefuseError::InvalidIntent))
        } else {
            match spec_parse_token_id(token_ids[0]) {
                None => (accounts, Stop::BadTokenId(token_ids[0])),
                Some(t) => if !accounts.dom().contains(sender) {
                    (accounts, Stop::Error(DefuseError::AccountNotFound))
                } else if amount_in(accounts[sender].token_balances, t) < a {
                    (accounts, Stop::Error(DefuseError::BalanceOverflow))
                } else {
                    let sb = accounts[sender].token_balances;
                    let a2 = with_balances(accounts, sender, with_amount(sb, t, (amount_in(sb, t) - a) as u128));
                    let rb = balances_of(a2, receiver);
                    if amount_in(rb, t) + a > u128::MAX {
                        (with_balances(a2, receiver, rb), Stop::Error(DefuseError::BalanceOverflow))
                    } else {
                        spec_transfer(
                            with_balances(a2, receiver, with_amount(rb, t, (amount_in(rb, t) + a) as u128)),
                            sender,
                            receiver,
                            token_ids.drop_first(),
                            amounts.drop_first(),
                        )
                    }
                },
            }
        }
    }
}

/// One step of resolving a transfer call: the refund of `refund` (at most
/// `amount`, at most what `receiver` still holds of `t`) moves from
/// `receiver` back to `prev`. Gives the accounts after it, the amount that
/// stays with the receiver, the refund made, and whether the receiver's
/// account is gone (which ends the resolution).
pub open spec fn spec_resolve_step(
    accounts: Map<Seq<char>, AccountView>,
    receiver: Seq<char>,
    prev: Seq<char>,
    t: TokenIdView,
    amount: u128,
    refund: u128,
) -> (Map<Seq<char>, AccountView>, u128, u128, bool) {
    let r1 = if refund < amount { refund } else { amount };
    if r1 == 0 {
        (accounts, amount, r1, false)
    } else if !accounts.dom().contains(receiver) {
        (accounts, amount, r1, true)
    } else {
        let rb = accounts[receiver].token_balances;
        let held = amount_in(rb, t);
        if held == 0 {
            (accounts, amount, r1, false)
        } else {
            let r2 = if r1 < held { r1 } else { held as u128 };
            let a2 = with_balances(accounts, receiver, with_amount(rb, t, (held - r2) as u128));
            let pb = balances_of(a2, prev);
            let a3 = with_balances(a2, prev, with_amount(pb, t, (amount_in(pb, t) + r2) as u128));
            (a3, (amount - r2) as u128, r2, false)
        }
    }
}

/// Resolving a transfer call entry by entry: the accounts after it, the
/// amounts that stay with the receiver and the refunds.
pub open spec fn spec_resolve(
    accounts: Map<Seq<char>, AccountView>,
    receiver: Seq<char>,
    prevs: Seq<Seq<char>>,
    tokens: Seq<TokenIdView>,
    amounts: Seq<u128>,
    refunds: Seq<u128>,
) -> (Map<Seq<char>, AccountView>, Seq<u128>, Seq<u128>)
    decreases tokens.len(),
{
    if tokens.len() == 0 || prevs.len() == 0 || amounts.len() == 0 || refunds.len() == 0 {
        (accounts, amounts, refunds)
    } else {
        let step = spec_resolve_step(accounts, receiver, prevs[0], tokens[0], amounts[0], refunds[0]);
        if step.3 {
            (accounts, amounts, refunds.update(0, step.2))
        } else {
            let rest = spec_resolve(step.0, receiver, prevs.drop_first(), tokens.drop_first(), amounts.drop_first(), refunds.drop_first());
            (rest.0, seq![step.1] + rest.1, seq![step.2] + rest.2)
        }
    }
}

/// What resolving moved back of `t`: over the entries of `t`, the amount
/// sent less what stays with the receiver.
pub open spec fn refunded_of(tokens: Seq<TokenIdView>, amounts: Seq<u128>, stays: Seq<u128>, t: TokenIdView) -> int
    decreases tokens.len(),
{
    if tokens.len() == 0 || amounts.len() == 0 || stays.len() == 0 {
        0
    } else {
        (if tokens[0] == t { amounts[0] - stays[0] } else { 0 })
            + refunded_of(tokens.drop_first(), amounts.drop_first(), stays.drop_first(), t)
    }
}

proof fn lemma_refunded_none(tokens: Seq<TokenIdView>, amounts: Seq<u128>, t: TokenIdView)
    ensures
        refunded_of(tokens, amounts, amounts, t) == 0,
    decreases tokens.len(),
{
    if tokens.len() > 0 && amounts.len() > 0 {
        lemma_refunded_none(tokens.drop_first(), amounts.drop_first(), t);
    }
}

/// How many entries resolving gets to where the receiver has no account:
/// up to and including the first whose capped refund is not zero.
pub open spec fn refund_reach(amounts: Seq<u128>, refunds: Seq<u128>) -> nat
    decreases amounts.len(),
{
    if amounts.len() == 0 || refunds.len() == 0 {
        0
    } else if (if refunds[0] < amounts[0] { refunds[0] } else { amounts[0] }) > 0 {
        1
    } else {
        1 + refund_reach(amounts.drop_first(), refunds.drop_first())
    }
}

proof fn lemma_refund_reach_beyond(amounts: Seq<u128>, refunds: Seq<u128>, i: int)
    requires
        0 <= i < amounts.len(),
        amounts.len() == refunds.len(),
        forall|j: int| 0 <= j < i ==> (if refunds[j] < amounts[j] { refunds[j] } else { amounts[j] }) == 0,
    ensures
        refund_reach(amounts, refunds) > i,
    decreases i,
{
    if i > 0 {
        let a1 = amounts.drop_first();
        let f1 = refunds.drop_first();
        assert forall|j: int| 0 <= j < i - 1 implies (if f1[j] < a1[j] { f1[j] } else { a1[j] }) == 0 by {
            assert(f1[j] == refunds[j + 1] && a1[j] == amounts[j + 1]);
        }
        lemma_refund_reach_beyond(a1, f1, i - 1);
        assert((if refunds[0] < amounts[0] { refunds[0] } else { amounts[0] }) == 0);
    }
}

proof fn lemma_refund_reach_le(amounts: Seq<u128>, refunds: Seq<u128>)
    ensures
        refund_reach(amounts, refunds) <= amounts.len(),
    decreases amounts.len(),
{
    if amounts.len() > 0 && refunds.len() > 0 {
        lemma_refund_reach_le(amounts.drop_first(), refunds.drop_first());
    }
}

/// How many entries resolving gets to: all of them, or where the receiver
/// has no account, those up to the first refund, where it stops.
pub open spec fn resolve_reach(
    accounts: Map<Seq<char>, AccountView>,
    receiver: Seq<char>,
    amounts: Seq<u128>,
    refunds: Seq<u128>,
) -> int {
    if accounts.dom().contains(receiver) {
        amounts.len() as int
    } else {
        refund_reach(amounts, refunds) as int
    }
}

/// Resolving moves, per token, what it refunds from the receiver to the
/// previous owner, and leaves every other account as it was.
proof fn lemma_resolve_moves(
    accounts: Map<Seq<char>, AccountView>,
    receiver: Seq<char>,
    prev: Seq<char>,
    prevs: Seq<Seq<char>>,
    tokens: Seq<TokenIdView>,
    amounts: Seq<u128>,
    refunds: Seq<u128>,
)
    requires
        receiver != prev,
        forall|i: int| 0 <= i < resolve_reach(accounts, receiver, amounts, refunds) ==> #[trigger] prevs[i] == prev,
        prevs.len() == tokens.len(),
        tokens.len() == amounts.len(),
        amounts.len() == refunds.len(),
        forall|t: TokenIdView| #[trigger] amount_in(balances_of(accounts, receiver), t) + amount_in(balances_of(accounts, prev), t) <= u128::MAX,
    ensures
        ({
            let res = spec_resolve(accounts, receiver, prevs, tokens, amounts, refunds);
            &&& forall|t: TokenIdView| #[trigger] amount_in(balances_of(res.0, receiver), t)
                == amount_in(balances_of(accounts, receiver), t) - refunded_of(tokens, amounts, res.1, t)
            &&& forall|t: TokenIdView| #[trigger] amount_in(balances_of(res.0, prev), t)
                == amount_in(balances_of(accounts, prev), t) + refunded_of(tokens, amounts, res.1, t)
            &&& forall|id: Seq<char>| id != receiver && id != prev ==> (#[trigger] res.0.dom().contains(id) <==> accounts.dom().contains(id))
            &&& forall|id: Seq<char>| id != receiver && id != prev && accounts.dom().contains(id) ==> #[trigger] res.0[id] == accounts[id]
            &&& res.0.dom().contains(receiver) == accounts.dom().contains(receiver)
            &&& account_or_fresh(res.0, receiver) == (AccountView { token_balances: balances_of(res.0, receiver), ..account_or_fresh(accounts, receiver) })
            &&& account_or_fresh(res.0, prev) == (AccountView { token_balances: balances_of(res.0, prev), ..account_or_fresh(accounts, prev) })
        }),
    decreases tokens.len(),
{
    let res = spec_resolve(accounts, receiver, prevs, tokens, amounts, refunds);
    if tokens.len() == 0 {
        assert(res == (accounts, amounts, refunds));
    } else {
        let t0 = tokens[0];
        let a0 = amounts[0];
        let r0 = if refunds[0] < a0 { refunds[0] } else { a0 };
        if r0 > 0 || accounts.dom().contains(receiver) {
            assert(resolve_reach(accounts, receiver, amounts, refunds) >= 1);
            assert(prevs[0] == prev);
        }
        let step = spec_resolve_step(accounts, receiver, prevs[0], t0, a0, refunds[0]);
        if step.3 {
            lemma_refunded_none(tokens, amounts, t0);
            assert forall|t: TokenIdView| refunded_of(tokens, amounts, res.1, t) == 0 by {
                lemma_refunded_none(tokens, amounts, t);
            }
        } else {
            let acc1 = step.0;
            let moved: int = a0 - step.1;
            // the step moves `moved` of `t0` from the receiver to the previous owner
            assert(forall|t: TokenIdView| #[trigger] amount_in(balances_of(acc1, receiver), t)
                == amount_in(balances_of(accounts, receiver), t) - (if t == t0 { moved } else { 0 })
                && amount_in(balances_of(acc1, prev), t) == amount_in(balances_of(accounts, prev), t) + (if t == t0 { moved } else { 0 })) by {
                let r1 = if refunds[0] < a0 { refunds[0] } else { a0 };
                if r1 != 0 && accounts.dom().contains(receiver) {
                    let rb = accounts[receiver].token_balances;
                    let held = amount_in(rb, t0);
                    if held != 0 {
                        let r2 = if r1 < held { r1 } else { held as u128 };
                        let a2 = with_balances(accounts, receiver, with_amount(rb, t0, (held - r2) as u128));
                        assert(balances_of(a2, prev) == balances_of(accounts, prev));
                        assert(amount_in(balances_of(accounts, receiver), t0) + amount_in(balances_of(accounts, prev), t0) <= u128::MAX);
                        assert(amount_in(balances_of(accounts, prev), t0) + held <= u128::MAX);
                    }
                }
            }
            assert(forall|id: Seq<char>| id != receiver && id != prev ==> (#[trigger] acc1.dom().contains(id) <==> accounts.dom().contains(id))
                && (accounts.dom().contains(id) ==> acc1[id] == accounts[id]));
            assert(acc1.dom().contains(receiver) == accounts.dom().contains(receiver));
            assert(account_or_fresh(acc1, receiver) == (AccountView { token_balances: balances_of(acc1, receiver), ..account_or_fresh(accounts, receiver) }));
            assert(account_or_fresh(acc1, prev) == (AccountView { token_balances: balances_of(acc1, prev), ..account_or_fresh(accounts, prev) }));
            assert forall|t: TokenIdView| #[trigger] amount_in(balances_of(acc1, receiver), t) + amount_in(balances_of(acc1, prev), t) <= u128::MAX by {
                assert(amount_in(balances_of(accounts, receiver), t) + amount_in(balances_of(accounts, prev), t) <= u128::MAX);
            }
            let prevs1 = prevs.drop_first();
            lemma_refund_reach_le(amounts.drop_first(), refunds.drop_first());
            assert forall|i: int| 0 <= i < resolve_reach(acc1, receiver, amounts.drop_first(), refunds.drop_first())
                implies #[trigger] prevs1[i] == prev by {
                assert(i + 1 < prevs.len());
                assert(prevs1[i] == prevs[i + 1]);
                assert(resolve_reach(accounts, receiver, amounts, refunds) >= i + 2);
            }
            lemma_resolve_moves(acc1, receiver, prev, prevs1, tokens.drop_first(), amounts.drop_first(), refunds.drop_first());
            let rest = spec_resolve(acc1, receiver, prevs1, tokens.drop_first(), amounts.drop_first(), refunds.drop_first());
            assert(res.0 == rest.0 && res.1 == seq![step.1] + rest.1);
            assert((seq![step.1] + rest.1).drop_first() =~= rest.1);
            assert(forall|t: TokenIdView| #[trigger] refunded_of(tokens, amounts, res.1, t)
                == (if t == t0 { moved } else { 0 }) + refunded_of(tokens.drop_first(), amounts.drop_first(), rest.1, t));
        }
    }
}

/// The refunds that the receiver's reply asks for: the reply where it has
/// one entry per amount, else everything.
pub open spec fn spec_requested_refunds(reply: Option<Seq<u128>>, amounts: Seq<u128>) -> Seq<u128> {
    match reply {
        Some(v) => if v.len() == amounts.len() {
            v
        } else {
            amounts
        },
        None => amounts,
    }
}

/// What the entries of `tokens` send of `t` together.
pub open spec fn sent_of(tokens: Seq<TokenIdView>, amounts: Seq<u128>, t: TokenIdView) -> nat
    decreases tokens.len(),
{
    if tokens.len() == 0 || amounts.len() == 0 {
        0
    } else {
        (if tokens[0] == t { amounts[0] as nat } else { 0 }) + sent_of(tokens.drop_first(), amounts.drop_first(), t)
    }
}

proof fn lemma_resolve_full_refunds(
    accounts: Map<Seq<char>, AccountView>,
    receiver: Seq<char>,
    prevs: Seq<Seq<char>>,
    tokens: Seq<TokenIdView>,
    amounts: Seq<u128>,
)
    requires
        prevs.len() == tokens.len(),
        tokens.len() == amounts.len(),
        accounts.dom().contains(receiver),
        forall|i: int| 0 <= i < prevs.len() ==> #[trigger] prevs[i] != receiver,
        forall|t: TokenIdView| #[trigger] amount_in(accounts[receiver].token_balances, t) >= sent_of(tokens, amounts, t),
    ensures
        spec_resolve(accounts, receiver, prevs, tokens, amounts, amounts).1.len() == amounts.len(),
        forall|i: int| 0 <= i < amounts.len() ==> #[trigger] spec_resolve(accounts, receiver, prevs, tokens, amounts, amounts).1[i] == 0,
    decreases tokens.len(),
{
    if tokens.len() > 0 {
        let t0 = tokens[0];
        let a0 = amounts[0];
        let prev = prevs[0];
        assert(prev != receiver);
        let step = spec_resolve_step(accounts, receiver, prev, t0, a0, a0);
        let acc1 = step.0;
        assert(amount_in(accounts[receiver].token_balances, t0) >= sent_of(tokens, amounts, t0));
        if a0 != 0 {
            let rb = accounts[receiver].token_balances;
            let held = amount_in(rb, t0);
            let a2 = with_balances(accounts, receiver, with_amount(rb, t0, (held - a0) as u128));
            assert(a2[receiver].token_balances == with_amount(rb, t0, (held - a0) as u128));
            assert(acc1[receiver] == a2[receiver]);
        }
        assert(acc1.dom().contains(receiver));
        assert forall|t: TokenIdView| #[trigger] amount_in(acc1[receiver].token_balances, t)
            >= sent_of(tokens.drop_first(), amounts.drop_first(), t) by {
            assert(amount_in(accounts[receiver].token_balances, t) >= sent_of(tokens, amounts, t));
        }
        let prevs1 = prevs.drop_first();
        assert forall|i: int| 0 <= i < prevs1.len() implies #[trigger] prevs1[i] != receiver by {
            assert(prevs1[i] == prevs[i + 1]);
        }
        lemma_resolve_full_refunds(acc1, receiver, prevs1, tokens.drop_first(), amounts.drop_first());
        let rest = spec_resolve(acc1, receiver, prevs1, tokens.drop_first(), amounts.drop_first(), amounts.drop_first());
        let res = spec_resolve(accounts, receiver, prevs, tokens, amounts, amounts);
        assert(!step.3);
        assert(step.1 == 0);
        assert(res.1 == seq![step.1] + rest.1);
        assert forall|i: int| 0 <= i < amounts.len() implies #[trigger] res.1[i] == 0 by {
            if i > 0 {
                assert(res.1[i] == rest.1[i - 1]);
            }
        }
    }
}

/// A reply that cannot be read as one refund per amount counts as asking
/// for everything back: each entry's requested refund is the amount sent,
/// so where the receiver still holds, of every token, all that was sent of
/// it, nothing stays with the receiver.
pub proof fn lemma_unusable_reply_refunds_all(
    accounts: Map<Seq<char>, AccountView>,
    receiver: Seq<char>,
    prevs: Seq<Seq<char>>,
    tokens: Seq<TokenIdView>,
    amounts: Seq<u128>,
    reply: Option<Seq<u128>>,
)
    requires
        reply is None || reply->0.len() != amounts.len(),
    ensures
        spec_requested_refunds(reply, amounts) == amounts,
        prevs.len() == tokens.len() && tokens.len() == amounts.len() && accounts.dom().contains(receiver)
            && (forall|i: int| 0 <= i < prevs.len() ==> #[trigger] prevs[i] != receiver)
            && (forall|t: TokenIdView| #[trigger] amount_in(accounts[receiver].token_balances, t) >= sent_of(tokens, amounts, t))
            ==> forall|i: int| 0 <= i < amounts.len()
                ==> #[trigger] spec_resolve(accounts, receiver, prevs, tokens, amounts, spec_requested_refunds(reply, amounts)).1[i] == 0,
{
    if prevs.len() == tokens.len() && tokens.len() == amounts.len() && accounts.dom().contains(receiver)
        && (forall|i: int| 0 <= i < prevs.len() ==> #[trigger] prevs[i] != receiver)
        && (forall|t: TokenIdView| #[trigger] amount_in(accounts[receiver].token_balances, t) >= sent_of(tokens, amounts, t)) {
        lemma_resolve_full_refunds(accounts, receiver, prevs, tokens, amounts);
    }
}

/// The token ids that the strings `s` denote.
pub open spec fn parsed_token_ids(s: Seq<Seq<char>>) -> Seq<TokenIdView> {
    s.map_values(|x: Seq<char>| spec_parse_token_id(x)->0)
}

/// Token amounts as values.
pub open spec fn tokens_view(v: Seq<(TokenId, u128)>) -> Seq<(TokenIdView, u128)> {
    v.map_values(|p: (TokenId, u128)| (p.0@, p.1))
}

/// The string forms of the tokens of `tokens`.
pub open spec fn token_strings(tokens: Seq<(TokenIdView, u128)>) -> Seq<Seq<char>> {
    tokens.map_values(|p: (TokenIdView, u128)| spec_token_id_string(p.0))
}

/// The amounts of `tokens`.
pub open spec fn amounts_of(tokens: Seq<(TokenIdView, u128)>) -> Seq<u128> {
    tokens.map_values(|p: (TokenIdView, u128)| p.1)
}

#[derive(Debug)]
pub struct Contract {
    accounts: Accounts,
    total_supplies: TokenAmounts,
    wnear_id: AccountId,
    fees: FeesConfig,
    relayer_keys: LinearMap<PublicKey, ()>,
    postponed_burns: Vec<MtBurnEvent>,
}

impl View for Contract {
    type V = ContractView;

    closed spec fn view(&self) -> ContractView {
        ContractView {
            accounts: self.accounts@,
            total_supplies: self.total_supplies@,
            wnear_id: self.wnear_id@,
            fee: self.fees.fee@,
            fee_collector: self.fees.fee_collector@,
            relayer_keys: self.relayer_keys@.dom(),
            postponed_burns: self.postponed_burns@.map_values(|e: MtBurnEvent| e@),
        }
    }
}

impl Contract {
    pub closed spec fn wf(&self) -> bool {
        &&& self.accounts.wf()
        &&& self.total_supplies.wf()
        &&& self.wnear_id.valid()
        &&& self.fees.fee.wf()
        &&& self.fees.fee_collector.valid()
        &&& self.relayer_keys.wf()
    }

    /// How much of `t` all accounts hold together.
    pub closed spec fn spec_accounts_total(&self, t: TokenIdView) -> nat {
        self.accounts.spec_total(t)
    }

    /// The total supply of each token is what all accounts hold of it.
    pub open spec fn supply_consistent(&self) -> bool {
        forall|t: TokenIdView| #[trigger] amount_in(self@.total_supplies, t) == self.spec_accounts_total(t)
    }

    /// Every account keeps the key behind its own id out of its added keys;
    /// no balance and no total supply holds a zero amount.
    pub proof fn lemma_wf(&self)
        requires
            self.wf(),
        ensures
            forall|id: Seq<char>| #[trigger] self@.accounts.dom().contains(id) ==> keys_exclude_implicit(self@.accounts[id], id),
            self@.fee <= crate::fees::MAX_PIPS,
            no_zero_amounts(self@.total_supplies),
            forall|id: Seq<char>| #[trigger] no_zero_amounts(balances_of(self@.accounts, id)),
    {
        self.accounts.lemma_wf();
        self.fees.fee.lemma_wf();
        self.total_supplies.lemma_wf();
        assert forall|id: Seq<char>| #[trigger] no_zero_amounts(balances_of(self@.accounts, id)) by {
            if self@.accounts.dom().contains(id) {
                assert(no_zero_amounts(self@.accounts[id].token_balances));
            }
        }
    }

    /// One account holds no more of a token than all accounts together.
    pub proof fn lemma_balance_le_total(&self, id: Seq<char>, t: TokenIdView)
        requires
            self.wf(),
            self@.accounts.dom().contains(id),
        ensures
            amount_in(self@.accounts[id].token_balances, t) <= self.spec_accounts_total(t),
    {
        self.accounts.lemma_balance_le_total(id, t);
    }

    /// A contract without accounts, with the given wNEAR contract and fees.
    pub fn new(wnear_id: AccountId, fees: FeesConfig) -> (c: Contract)
        requires
            wnear_id.valid(),
            fees.fee.wf(),
            fees.fee_collector.valid(),
        ensures
            c.wf(),
            c.supply_consistent(),
            c@.accounts == Map::<Seq<char>, AccountView>::empty(),
            c@.total_supplies == Map::<TokenIdView, u128>::empty(),
            c@.wnear_id == wnear_id@,
            c@.fee == fees.fee@,
            c@.fee_collector == fees.fee_collector@,
            c@.relayer_keys == Set::<PublicKeyView>::empty(),
            c@.postponed_burns == Seq::<BurnView>::empty(),
    {
        let c = Contract {
            accounts: Accounts::new(),
            total_supplies: TokenAmounts::new(),
            wnear_id,
            fees,
            relayer_keys: LinearMap::new(),
            postponed_burns: Vec::new(),
        };
        assert(c@.relayer_keys =~= Set::<PublicKeyView>::empty());
        assert(c@.postponed_burns =~= Seq::<BurnView>::empty());
        c
    }

    pub fn wnear_id(&self) -> (w: &AccountId)
        ensures
            w@ == self@.wnear_id,
            self.wf() ==> w.valid(),
    {
        &self.wnear_id
    }

    pub fn fee(&self) -> (f: Pips)
        ensures
            f@ == self@.fee,
            self.wf() ==> f.wf(),
    {
        self.fees.fee
    }

    pub fn fee_collector(&self) -> (a: &AccountId)
        ensures
            a@ == self@.fee_collector,
            self.wf() ==> a.valid(),
    {
        &self.fees.fee_collector
    }

    /// The account of `account_id`, if it exists.
    pub fn account(&self, account_id: &AccountId) -> (r: Option<&crate::account::Account>)
        requires
            self.wf(),
        ensures
            match r {
                Some(a) => self@.accounts.dom().contains(account_id@) && a@ == self@.accounts[account_id@] && a.wf(),
                None => !self@.accounts.dom().contains(account_id@),
            },
    {
        self.accounts.get(account_id)
    }

    /// How much of `token_id` `account_id` holds.
    pub fn balance_of(&self, account_id: &AccountId, token_id: &TokenId) -> (b: u128)
        requires
            self.wf(),
        ensures
            b == amount_in(balances_of(self@.accounts, account_id@), token_id@),
    {
        match self.accounts.get(account_id) {
            Some(a) => a.token_balances().balance_of(token_id),
            None => 0,
        }
    }

    /// Creates the account of `owner` where it is missing.
    pub(crate) fn touch_account(&mut self, owner: &AccountId)
        requires
            old(self).wf(),
            owner.valid(),
        ensures
            final(self).wf(),
            crate::replay::nonces_kept(old(self)@, final(self)@),
            final(self)@ == (ContractView {
                accounts: with_balances(old(self)@.accounts, owner@, balances_of(old(self)@.accounts, owner@)),
                ..old(self)@
            }),
            forall|u: TokenIdView| #[trigger] final(self).spec_accounts_total(u) == old(self).spec_accounts_total(u),
    {
        broadcast use crate::replay::group_nonces_kept;
        let account = self.accounts.get_or_create(owner.clone());
        proof {
            assert(account@ == (AccountView { token_balances: account@.token_balances, ..account@ }));
        }
    }

    /// Adds a non-negative `delta` to `owner`'s balance of `t`, or takes the
    /// magnitude of a negative one, creating the account; the total supplies
    /// stay. `None` (and no change but the account) where the balance would
    /// leave the range of `u128`.
    pub(crate) fn shift(&mut self, owner: &AccountId, t: TokenId, delta: i128) -> (r: Option<u128>)
        requires
            old(self).wf(),
            owner.valid(),
        ensures
            final(self).wf(),
            crate::replay::nonces_kept(old(self)@, final(self)@),
            (r is Some) <==> 0 <= amount_in(balances_of(old(self)@.accounts, owner@), t@) + delta <= u128::MAX,
            r matches Some(n) ==> n == amount_in(balances_of(old(self)@.accounts, owner@), t@) + delta
                && final(self)@ == (ContractView {
                accounts: with_balances(old(self)@.accounts, owner@, with_amount(balances_of(old(self)@.accounts, owner@), t@, n)),
                ..old(self)@
            }) && forall|u: TokenIdView| #[trigger] final(self).spec_accounts_total(u) + (if u == t@ { amount_in(balances_of(old(self)@.accounts, owner@), t@) } else { 0 })
                == old(self).spec_accounts_total(u) + (if u == t@ { n as nat } else { 0 }),
            r is None ==> final(self)@ == (ContractView {
                accounts: with_balances(old(self)@.accounts, owner@, balances_of(old(self)@.accounts, owner@)),
                ..old(self)@
            }) && forall|u: TokenIdView| #[trigger] final(self).spec_accounts_total(u) == old(self).spec_accounts_total(u),
    {
        broadcast use crate::replay::group_nonces_kept;
        let account = self.accounts.get_or_create(owner.clone());
        let ghost before = account@;
        let balances = account.token_balances_mut();
        let r = balances.add_delta(t, delta);
        proof {
            assert(keys_exclude_implicit(before, owner@));
        }
        r
    }

    /// The total supply of `token_id`.
    pub fn total_supply(&self, token_id: &TokenId) -> (b: u128)
        requires
            self.wf(),
        ensures
            b == amount_in(self@.total_supplies, token_id@),
    {
        self.total_supplies.balance_of(token_id)
    }

    /// Whether some of `token_id` is in the contract.
    pub fn has_supply(&self, token_id: &TokenId) -> (b: bool)
        requires
            self.wf(),
        ensures
            b == self@.total_supplies.dom().contains(token_id@),
    {
        self.total_supplies.contains_key(token_id)
    }

    /// Adds `a` of `t` to `owner`'s balance, creating the account.
    pub(crate) fn credit(&mut self, owner: &AccountId, t: TokenId, a: u128) -> (r: Option<u128>)
        requires
            old(self).wf(),
            owner.valid(),
        ensures
            final(self).wf(),
            crate::replay::nonces_kept(old(self)@, final(self)@),
            (r is Some) <==> amount_in(balances_of(old(self)@.accounts, owner@), t@) + a <= u128::MAX,
            r matches Some(n) ==> n == amount_in(balances_of(old(self)@.accounts, owner@), t@) + a
                && final(self)@ == (ContractView {
                accounts: with_balances(old(self)@.accounts, owner@, with_amount(balances_of(old(self)@.accounts, owner@), t@, n)),
                ..old(self)@
            }) && forall|u: TokenIdView| #[trigger] final(self).spec_accounts_total(u) == old(self).spec_accounts_total(u)
                + if u == t@ { a as nat } else { 0 },
            r is None ==> final(self)@ == (ContractView {
                accounts: with_balances(old(self)@.accounts, owner@, balances_of(old(self)@.accounts, owner@)),
                ..old(self)@
            }) && forall|u: TokenIdView| #[trigger] final(self).spec_accounts_total(u) == old(self).spec_accounts_total(u),
    {
        broadcast use crate::replay::group_nonces_kept;
        let ghost old_accounts = self.accounts@;
        let account = self.accounts.get_or_create(owner.clone());
        let ghost before = account@;
        let balances = account.token_balances_mut();
        let r = balances.deposit(t, a);
        proof {
            assert(keys_exclude_implicit(before, owner@));
        }
        r
    }

    /// Takes `a` of `t` from `owner`'s balance.
    pub(crate) fn debit(&mut self, owner: &AccountId, t: TokenId, a: u128) -> (r: Result<u128, DefuseError>)
        requires
            old(self).wf(),
        ensures
            final(self).wf(),
            crate::replay::nonces_kept(old(self)@, final(self)@),
            !old(self)@.accounts.dom().contains(owner@) ==> r == Err::<u128, DefuseError>(DefuseError::AccountNotFound)
                && final(self)@ == old(self)@ && forall|u: TokenIdView| #[trigger] final(self).spec_accounts_total(u)
                == old(self).spec_accounts_total(u),
            old(self)@.accounts.dom().contains(owner@) ==> {
                let b = old(self)@.accounts[owner@].token_balances;
                &&& (r is Ok) <==> a <= amount_in(b, t@)
                &&& r matches Err(e) ==> e == DefuseError::BalanceOverflow && final(self)@ == old(self)@
                    && forall|u: TokenIdView| #[trigger] final(self).spec_accounts_total(u) == old(self).spec_accounts_total(u)
                &&& r matches Ok(n) ==> n == amount_in(b, t@) - a && final(self)@ == (ContractView {
                    accounts: with_balances(old(self)@.accounts, owner@, with_amount(b, t@, n)),
                    ..old(self)@
                }) && forall|u: TokenIdView| #[trigger] final(self).spec_accounts_total(u) + (if u == t@ { a as nat } else { 0 })
                    == old(self).spec_accounts_total(u)
            },
    {
        broadcast use crate::replay::group_nonces_kept;
        match self.accounts.get_mut(owner) {
            None => Err(DefuseError::AccountNotFound),
            Some(account) => {
                let ghost before = account@;
                let balances = account.token_balances_mut();
                let r = balances.withdraw(t, a);
                proof {
                    assert(keys_exclude_implicit(before, owner@));
                }
                match r {
                    Some(n) => Ok(n),
                    None => {
                        proof {
                            assert(self.accounts@ =~= old(self).accounts@);
                        }
                        Err(DefuseError::BalanceOverflow)
                    },
                }
            },
        }
    }
}

impl Contract {
    /// Credits `tokens` in order to `owner_id`, creating the account, and
    /// adds them to the total supplies. Fails with `InvalidIntent` on a zero
    /// amount and with `BalanceOverflow` where a sum would overflow; what was
    /// credited before the failure stays.
    pub fn deposit(&mut self, owner_id: AccountId, tokens: Vec<(TokenId, u128)>, memo: Option<String>) -> (r: Result<MtMintEvent, DefuseError>)
        requires
            old(self).wf(),
            owner_id.valid(),
        ensures
            final(self).wf(),
            crate::replay::nonces_kept(old(self)@, final(self)@),
            deposit_outcome(old(self)@, owner_id@, tokens_view(tokens@), final(self)@, err_of(r)),
            r matches Ok(ev) ==> mint_event_matches(ev, owner_id@, tokens_view(tokens@), opt_string_view(memo)),
            old(self).supply_consistent() ==> final(self).supply_consistent(),
            r is Ok ==> forall|t: TokenIdView| #[trigger] amount_in(balances_of(final(self)@.accounts, owner_id@), t)
                == amount_in(balances_of(old(self)@.accounts, owner_id@), t) + amount_sum(tokens_view(tokens@), t)
                && amount_in(final(self)@.total_supplies, t) == amount_in(old(self)@.total_supplies, t) + amount_sum(tokens_view(tokens@), t),
    {
        broadcast use crate::replay::group_nonces_kept;
        let ghost tv = tokens_view(tokens@);
        let ghost s0 = self@.total_supplies;
        let ghost b0 = balances_of(self@.accounts, owner_id@);
        let ghost acc0 = self@.accounts;
        let _ = self.accounts.get_or_create(owner_id.clone());
        let mut token_ids: Vec<String> = Vec::new();
        let mut amounts: Vec<u128> = Vec::new();
        let mut i: usize = 0;
        proof {
            assert(tv.skip(0) =~= tv);
            assert(balances_of(self@.accounts, owner_id@) == b0);
        }
        while i < tokens.len()
            invariant
                self.wf(),
                owner_id.valid(),
                i <= tokens@.len(),
                tv == tokens_view(tokens@),
                self@.accounts.dom().contains(owner_id@),
                self@ == (ContractView {
                    accounts: with_balances(acc0, owner_id@, balances_of(self@.accounts, owner_id@)),
                    total_supplies: self@.total_supplies,
                    ..old(self)@
                }),
                acc0 == old(self)@.accounts,
                s0 == old(self)@.total_supplies,
                b0 == balances_of(acc0, owner_id@),
                spec_mint(s0, b0, tv) == spec_mint(self@.total_supplies, balances_of(self@.accounts, owner_id@), tv.skip(i as int)),
                strings_view(token_ids@) == token_strings(tv.take(i as int)),
                amounts@ == amounts_of(tv.take(i as int)),
                old(self).supply_consistent() ==> self.supply_consistent(),
            decreases tokens@.len() - i,
        {
            let t = tokens[i].0.clone();
            let a = tokens[i].1;
            let ghost cur_s = self@.total_supplies;
            let ghost cur_b = balances_of(self@.accounts, owner_id@);
            proof {
                assert(tv.skip(i as int)[0] == tv[i as int]);
                assert(tv.skip(i as int).drop_first() =~= tv.skip(i + 1));
                assert(tv[i as int] == (t@, a));
            }
            if a == 0 {
                return Err(DefuseError::InvalidIntent);
            }
            let ghost ids_before = token_ids@;
            let ghost amounts_before = amounts@;
            let ts = t.to_string();
            token_ids.push(ts);
            amounts.push(a);
            proof {
                assert(strings_view(token_ids@) =~= strings_view(ids_before).push(spec_token_id_string(t@)));
                assert(token_strings(tv.take(i + 1)) =~= token_strings(tv.take(i as int)).push(spec_token_id_string(t@)));
                assert(amounts_of(tv.take(i + 1)) =~= amounts_of(tv.take(i as int)).push(a));
                assert(strings_view(token_ids@) =~= token_strings(tv.take(i + 1)));
                assert(amounts@ =~= amounts_of(tv.take(i + 1)));
            }
            let ghost pre = *self;
            proof {
                if old(self).supply_consistent() {
                    pre.lemma_balance_le_total(owner_id@, t@);
                    assert(amount_in(pre@.total_supplies, t@) == pre.spec_accounts_total(t@));
                }
            }
            match self.total_supplies.deposit(t.clone(), a) {
                None => {
                    return Err(DefuseError::BalanceOverflow);
                },
                Some(_) => {},
            }
            match self.credit(&owner_id, t, a) {
                None => {
                    proof {
                        assert(pre@.accounts[owner_id@] == (AccountView { token_balances: cur_b, ..pre@.accounts[owner_id@] }));
                        assert(self@.accounts =~= pre@.accounts);
                    }
                    return Err(DefuseError::BalanceOverflow);
                },
                Some(_) => {},
            }
            proof {
                assert(self@.accounts =~= with_balances(acc0, owner_id@, balances_of(self@.accounts, owner_id@)));
                if old(self).supply_consistent() {
                    assert forall|u: TokenIdView| #[trigger] amount_in(self@.total_supplies, u) == self.spec_accounts_total(u) by {
                        assert(amount_in(pre@.total_supplies, u) == pre.spec_accounts_total(u));
                    }
                }
            }
            i = i + 1;
        }
        proof {
            assert(tv.take(tokens@.len() as int) =~= tv);
            assert(tv.skip(tokens@.len() as int) =~= Seq::<(TokenIdView, u128)>::empty());
            old(self).lemma_wf();
            lemma_mint_adds(s0, b0, tv);
        }
        Ok(MtMintEvent { owner_id, token_ids, amounts, memo })
    }
}

impl Contract {
    /// Debits `token_amounts` in order from the existing account `owner_id`
    /// and from the total supplies, and schedules a burn event for the end of
    /// the transaction. Fails with `AccountNotFound` where there is no
    /// account, with `InvalidIntent` on a zero amount and with
    /// `BalanceOverflow` where a balance is too small; what was debited
    /// before the failure stays.
    pub fn withdraw(&mut self, owner_id: &AccountId, token_amounts: Vec<(TokenId, u128)>, memo: Option<String>) -> (r: Result<(), DefuseError>)
        requires
            old(self).wf(),
        ensures
            final(self).wf(),
            crate::replay::nonces_kept(old(self)@, final(self)@),
            withdraw_outcome(old(self)@, owner_id@, tokens_view(token_amounts@), opt_string_view(memo), final(self)@, err_of(r)),
            old(self).supply_consistent() ==> final(self).supply_consistent(),
            r is Ok ==> forall|t: TokenIdView| #[trigger] final(self).spec_accounts_total(t) + amount_in(old(self)@.total_supplies, t)
                == old(self).spec_accounts_total(t) + amount_in(final(self)@.total_supplies, t),
            r is Ok ==> forall|t: TokenIdView| #[trigger] amount_in(balances_of(final(self)@.accounts, owner_id@), t)
                + amount_sum(tokens_view(token_amounts@), t) == amount_in(balances_of(old(self)@.accounts, owner_id@), t)
                && amount_in(final(self)@.total_supplies, t) + amount_sum(tokens_view(token_amounts@), t)
                == amount_in(old(self)@.total_supplies, t),
    {
        broadcast use crate::replay::group_nonces_kept;
        if self.accounts.get(owner_id).is_none() {
            return Err(DefuseError::AccountNotFound);
        }
        let ghost tv = tokens_view(token_amounts@);
        let ghost s0 = self@.total_supplies;
        let ghost b0 = self@.accounts[owner_id@].token_balances;
        let ghost acc0 = self@.accounts;
        let mut token_ids: Vec<String> = Vec::new();
        let mut amounts: Vec<u128> = Vec::new();
        let mut i: usize = 0;
        proof {
            assert(tv.skip(0) =~= tv);
            assert(acc0 =~= with_balances(acc0, owner_id@, b0));
        }
        while i < token_amounts.len()
            invariant
                self.wf(),
                i <= token_amounts@.len(),
                tv == tokens_view(token_amounts@),
                self@.accounts.dom().contains(owner_id@),
                self@ == (ContractView {
                    accounts: with_balances(acc0, owner_id@, balances_of(self@.accounts, owner_id@)),
                    total_supplies: self@.total_supplies,
                    ..old(self)@
                }),
                acc0 == old(self)@.accounts,
                acc0.dom().contains(owner_id@),
                s0 == old(self)@.total_supplies,
                b0 == acc0[owner_id@].token_balances,
                spec_burn(s0, b0, tv) == spec_burn(self@.total_supplies, balances_of(self@.accounts, owner_id@), tv.skip(i as int)),
                strings_view(token_ids@) == token_strings(tv.take(i as int)),
                amounts@ == amounts_of(tv.take(i as int)),
                old(self).supply_consistent() ==> self.supply_consistent(),
                forall|u: TokenIdView| #[trigger] self.spec_accounts_total(u) + amount_in(s0, u)
                    == old(self).spec_accounts_total(u) + amount_in(self@.total_supplies, u),
            decreases token_amounts@.len() - i,
        {
            let t = token_amounts[i].0.clone();
            let a = token_amounts[i].1;
            let ghost cur_s = self@.total_supplies;
            let ghost cur_b = balances_of(self@.accounts, owner_id@);
            proof {
                assert(tv.skip(i as int)[0] == tv[i as int]);
                assert(tv.skip(i as int).drop_first() =~= tv.skip(i + 1));
                assert(tv[i as int] == (t@, a));
            }
            if a == 0 {
                return Err(DefuseError::InvalidIntent);
            }
            let ghost ids_before = token_ids@;
            let ts = t.to_string();
            token_ids.push(ts);
            amounts.push(a);
            proof {
                assert(strings_view(token_ids@) =~= strings_view(ids_before).push(spec_token_id_string(t@)));
                assert(token_strings(tv.take(i + 1)) =~= token_strings(tv.take(i as int)).push(spec_token_id_string(t@)));
                assert(amounts_of(tv.take(i + 1)) =~= amounts_of(tv.take(i as int)).push(a));
            }
            let ghost pre = *self;
            proof {
                if old(self).supply_consistent() {
                    pre.lemma_balance_le_total(owner_id@, t@);
                    assert(amount_in(pre@.total_supplies, t@) == pre.spec_accounts_total(t@));
                }
            }
            match self.debit(owner_id, t.clone(), a) {
                Err(e) => {
                    proof {
                        assert(pre@.accounts[owner_id@] == (AccountView { token_balances: cur_b, ..pre@.accounts[owner_id@] }));
                        assert(self@.accounts =~= pre@.accounts);
                    }
                    return Err(e);
                },
                Ok(_) => {},
            }
            let ghost mid = *self;
            match self.total_supplies.withdraw(t, a) {
                None => {
                    proof {
                        assert(self@.accounts =~= with_balances(acc0, owner_id@, balances_of(self@.accounts, owner_id@)));
                    }
                    return Err(DefuseError::BalanceOverflow);
                },
                Some(_) => {},
            }
            proof {
                assert(self@.accounts =~= with_balances(acc0, owner_id@, balances_of(self@.accounts, owner_id@)));
                if old(self).supply_consistent() {
                    assert forall|u: TokenIdView| #[trigger] amount_in(self@.total_supplies, u) == self.spec_accounts_total(u) by {
                        assert(amount_in(pre@.total_supplies, u) == pre.spec_accounts_total(u));
                        assert(self.spec_accounts_total(u) == mid.spec_accounts_total(u));
                        assert(mid.spec_accounts_total(u) + (if u == t@ { a as nat } else { 0 }) == pre.spec_accounts_total(u));
                    }
                }
                assert forall|u: TokenIdView| #[trigger] self.spec_accounts_total(u) + amount_in(s0, u)
                    == old(self).spec_accounts_total(u) + amount_in(self@.total_supplies, u) by {
                    assert(pre.spec_accounts_total(u) + amount_in(s0, u) == old(self).spec_accounts_total(u) + amount_in(pre@.total_supplies, u));
                    assert(self.spec_accounts_total(u) == mid.spec_accounts_total(u));
                    assert(mid.spec_accounts_total(u) + (if u == t@ { a as nat } else { 0 }) == pre.spec_accounts_total(u));
                }
            }
            i = i + 1;
        }
        proof {
            assert(tv.take(token_amounts@.len() as int) =~= tv);
            assert(tv.skip(token_amounts@.len() as int) =~= Seq::<(TokenIdView, u128)>::empty());
        }
        let event = MtBurnEvent { owner_id: owner_id.clone(), authorized_id: None, token_ids, amounts, memo };
        let ghost burns_before = self.postponed_burns@;
        let ghost before_push = *self;
        self.postponed_burns.push(event);
        proof {
            assert(self@.postponed_burns =~= old(self)@.postponed_burns.push(event@));
            assert forall|u: TokenIdView| #[trigger] self.spec_accounts_total(u) + amount_in(old(self)@.total_supplies, u)
                == old(self).spec_accounts_total(u) + amount_in(self@.total_supplies, u) by {
                assert(self.spec_accounts_total(u) == before_push.spec_accounts_total(u));
                assert(before_push.spec_accounts_total(u) + amount_in(s0, u)
                    == old(self).spec_accounts_total(u) + amount_in(before_push@.total_supplies, u));
            }
            old(self).lemma_wf();
            lemma_burn_takes(s0, b0, tv);
        }
        Ok(())
    }
}

impl Contract {
    /// Moves `amounts` of the tokens `token_ids` (in string form) from
    /// `sender_id` to `receiver_id`. Fails with `InvalidIntent` where sender
    /// and receiver are the same, the lengths differ or there are no amounts;
    /// otherwise as `spec_transfer` says. On success the total of each token
    /// over all accounts is unchanged.
    pub fn internal_mt_batch_transfer(
        &mut self,
        sender_id: &AccountId,
        receiver_id: AccountId,
        token_ids: Vec<String>,
        amounts: Vec<u128>,
        memo: Option<String>,
    ) -> (r: Result<MtTransferEvent, DefuseError>)
        requires
            old(self).wf(),
            receiver_id.valid(),
        ensures
            final(self).wf(),
            crate::replay::nonces_kept(old(self)@, final(self)@),
            sender_id@ == receiver_id@ || token_ids@.len() != amounts@.len() || amounts@.len() == 0 ==> r
                == Err::<MtTransferEvent, DefuseError>(DefuseError::InvalidIntent) && final(self)@ == old(self)@,
            !(sender_id@ == receiver_id@ || token_ids@.len() != amounts@.len() || amounts@.len() == 0) ==> {
                let res = spec_transfer(old(self)@.accounts, sender_id@, receiver_id@, strings_view(token_ids@), amounts@);
                &&& final(self)@ == (ContractView { accounts: res.0, ..old(self)@ })
                &&& result_matches(r, res.1)
            },
            r matches Ok(ev) ==> ev.old_owner_id@ == sender_id@ && ev.new_owner_id@ == receiver_id@
                && ev.authorized_id is None && strings_view(ev.token_ids@) == strings_view(token_ids@)
                && ev.amounts@ == amounts@ && opt_string_view(ev.memo) == opt_string_view(memo),
            r is Ok ==> forall|t: TokenIdView| #[trigger] final(self).spec_accounts_total(t) == old(self).spec_accounts_total(t),
            old(self).supply_consistent() ==> final(self).supply_consistent(),
            r is Ok ==> ({
                let tv = parsed_tokens(strings_view(token_ids@), amounts@);
                &&& forall|t: TokenIdView| #[trigger] amount_in(balances_of(final(self)@.accounts, sender_id@), t) + amount_sum(tv, t)
                    == amount_in(balances_of(old(self)@.accounts, sender_id@), t)
                &&& forall|t: TokenIdView| #[trigger] amount_in(balances_of(final(self)@.accounts, receiver_id@), t)
                    == amount_in(balances_of(old(self)@.accounts, receiver_id@), t) + amount_sum(tv, t)
                &&& forall|id: Seq<char>| id != sender_id@ && id != receiver_id@ ==>
                    (#[trigger] final(self)@.accounts.dom().contains(id) <==> old(self)@.accounts.dom().contains(id))
                &&& forall|id: Seq<char>| id != sender_id@ && id != receiver_id@ && old(self)@.accounts.dom().contains(id) ==>
                    #[trigger] final(self)@.accounts[id] == old(self)@.accounts[id]
            }),
    {
        broadcast use crate::replay::group_nonces_kept;
        proof {
            old(self).lemma_wf();
        }
        if sender_id.key_eq_id(&receiver_id) || token_ids.len() != amounts.len() || amounts.len() == 0 {
            return Err(DefuseError::InvalidIntent);
        }
        let ghost ids = strings_view(token_ids@);
        let ghost acc0 = self@.accounts;
        let n = amounts.len();
        let mut i: usize = 0;
        proof {
            assert(ids.skip(0) =~= ids);
            assert(amounts@.skip(0) =~= amounts@);
        }
        while i < n
            invariant
                self.wf(),
                receiver_id.valid(),
                sender_id@ != receiver_id@,
                n == amounts@.len(),
                n == token_ids@.len(),
                i <= n,
                ids == strings_view(token_ids@),
                acc0 == old(self)@.accounts,
                self@ == (ContractView { accounts: self@.accounts, ..old(self)@ }),
                spec_transfer(acc0, sender_id@, receiver_id@, ids, amounts@)
                    == spec_transfer(self@.accounts, sender_id@, receiver_id@, ids.skip(i as int), amounts@.skip(i as int)),
                crate::replay::nonces_kept(old(self)@, self@),
                forall|t: TokenIdView| #[trigger] self.spec_accounts_total(t) == old(self).spec_accounts_total(t),
                old(self).supply_consistent() ==> self.supply_consistent(),
            decreases n - i,
        {
            let a = amounts[i];
            let ghost cur = self@.accounts;
            proof {
                assert(ids.skip(i as int)[0] == ids[i as int]);
                assert(ids[i as int] == token_ids@[i as int]@);
                assert(amounts@.skip(i as int)[0] == a);
                assert(ids.skip(i as int).drop_first() =~= ids.skip(i + 1));
                assert(amounts@.skip(i as int).drop_first() =~= amounts@.skip(i + 1));
            }
            if a == 0 {
                return Err(DefuseError::InvalidIntent);
            }
            let t = match TokenId::parse(token_ids[i].as_str()) {
                Ok(t) => t,
                Err(e) => {
                    return Err(DefuseError::ParseTokenId(e));
                },
            };
            let ghost pre = *self;
            proof {
                if pre@.accounts.dom().contains(sender_id@) && pre@.accounts.dom().contains(receiver_id@) {
                    pre.accounts.lemma_two_balances_le_total(sender_id@, receiver_id@, t@);
                } else if pre@.accounts.dom().contains(sender_id@) {
                    pre.lemma_balance_le_total(sender_id@, t@);
                }
            }
            match self.debit(sender_id, t.clone(), a) {
                Err(e) => {
                    proof {
                        crate::replay::lemma_nonces_kept_trans(old(self)@, pre@, self@);
                    }
                    return Err(e);
                },
                Ok(_) => {},
            }
            proof {
                crate::replay::lemma_nonces_kept_trans(old(self)@, pre@, self@);
            }
            let ghost mid = *self;
            match self.credit(&receiver_id, t, a) {
                None => {
                    proof {
                        crate::replay::lemma_nonces_kept_trans(old(self)@, mid@, self@);
                    }
                    proof {
                        if old(self).supply_consistent() {
                            assert(amount_in(pre@.total_supplies, t@) == pre.spec_accounts_total(t@));
                            assert(false);
                        }
                    }
                    return Err(DefuseError::BalanceOverflow);
                },
                Some(_) => {},
            }
            proof {
                crate::replay::lemma_nonces_kept_trans(old(self)@, mid@, self@);
                assert forall|u: TokenIdView| #[trigger] self.spec_accounts_total(u) == old(self).spec_accounts_total(u) by {
                    assert(mid.spec_accounts_total(u) + (if u == t@ { a as nat } else { 0 }) == pre.spec_accounts_total(u));
                    assert(pre.spec_accounts_total(u) == old(self).spec_accounts_total(u));
                }
                if old(self).supply_consistent() {
                    assert forall|u: TokenIdView| #[trigger] amount_in(self@.total_supplies, u) == self.spec_accounts_total(u) by {
                        assert(amount_in(pre@.total_supplies, u) == pre.spec_accounts_total(u));
                    }
                }
            }
            i = i + 1;
        }
        proof {
            assert(ids.skip(n as int) =~= Seq::<Seq<char>>::empty());
            old(self).lemma_wf();
            lemma_transfer_moves(acc0, sender_id@, receiver_id@, ids, amounts@);
        }
        Ok(MtTransferEvent {
            authorized_id: None,
            old_owner_id: sender_id.clone(),
            new_owner_id: receiver_id,
            token_ids,
            amounts,
            memo,
        })
    }
}

pub open spec fn opt_vec_view(o: Option<Vec<u128>>) -> Option<Seq<u128>> {
    match o {
        Some(v) => Some(v@),
        None => None,
    }
}

/// What `near_sdk::serde_json::from_slice` reads from `bytes` as a
/// `Vec<near_sdk::json_types::U128>`: the amounts, or `None` where the bytes
/// are no JSON array of strings that each hold a decimal `u128`.
pub uninterp spec fn spec_json_u128_list(bytes: Seq<u8>) -> Option<Seq<u128>>;

/// Reads `bytes` with `near_sdk::serde_json::from_slice` as a
/// `Vec<near_sdk::json_types::U128>`.
///
/// Trusted: the result is the amounts read, in order, `None` where reading
/// fails; it depends on the bytes alone and is named `spec_json_u128_list`.
#[verifier::external_body]
fn parse_json_u128_list(bytes: &[u8]) -> (r: Option<Vec<u128>>)
    ensures
        opt_vec_view(r) == spec_json_u128_list(bytes@),
{
    near_sdk::serde_json::from_slice::<Vec<near_sdk::json_types::U128>>(bytes).ok().map(|v| v.into_iter().map(|a| a.0).collect())
}

/// The refunds that a receiver's `mt_on_transfer` answered with (`None`
/// where the call failed): the amounts where the answer is a JSON list of
/// them, else none.
pub fn receiver_refunds_of(answer: Option<Vec<u8>>) -> (r: Option<Vec<u128>>)
    ensures
        opt_vec_view(r) == match crate::withdraw::answer_view(answer) {
            Some(b) => spec_json_u128_list(b),
            None => None,
        },
{
    match answer {
        Some(b) => parse_json_u128_list(b.as_slice()),
        None => None,
    }
}

impl Contract {
    /// Resolves a transfer call once the receiver has answered: `reply` is
    /// the refunds it asked for, `None` where the call failed or the answer
    /// was no list of amounts. Each refund is capped by the amount sent and
    /// by what the receiver still holds, and moves back to the previous
    /// owner; resolution ends early where the receiver's account is gone.
    /// Returns the amounts that stay with the receiver, and the refund event.
    pub fn mt_resolve_transfer(
        &mut self,
        previous_owner_ids: Vec<AccountId>,
        receiver_id: AccountId,
        token_ids: Vec<String>,
        amounts: Vec<u128>,
        reply: Option<Vec<u128>>,
    ) -> (r: (Vec<u128>, MtTransferEvent))
        requires
            old(self).wf(),
            old(self).supply_consistent(),
            receiver_id.valid(),
            amounts@.len() > 0,
            previous_owner_ids@.len() == token_ids@.len(),
            token_ids@.len() == amounts@.len(),
            forall|i: int| 0 <= i < resolve_reach(old(self)@.accounts, receiver_id@, amounts@,
                spec_requested_refunds(opt_vec_view(reply), amounts@)) ==> spec_parse_token_id(#[trigger] token_ids@[i]@) is Some
                && previous_owner_ids@[i]@ == previous_owner_ids@[0]@,
            forall|i: int| 0 <= i < previous_owner_ids@.len() ==> (#[trigger] previous_owner_ids@[i]).valid(),
        ensures
            final(self).wf(),
            crate::replay::nonces_kept(old(self)@, final(self)@),
            final(self).supply_consistent(),
            ({
                let res = spec_resolve(
                    old(self)@.accounts,
                    receiver_id@,
                    previous_owner_ids@.map_values(|a: AccountId| a@),
                    parsed_token_ids(strings_view(token_ids@)),
                    amounts@,
                    spec_requested_refunds(opt_vec_view(reply), amounts@),
                );
                &&& final(self)@ == (ContractView { accounts: res.0, ..old(self)@ })
                &&& r.0@ == res.1
                &&& r.1.amounts@ == res.2
            }),
            forall|t: TokenIdView| #[trigger] final(self).spec_accounts_total(t) == old(self).spec_accounts_total(t),
            r.0@.len() == amounts@.len(),
            forall|i: int| 0 <= i < amounts@.len() ==> #[trigger] r.0@[i] <= amounts@[i],
            r.1.old_owner_id@ == receiver_id@,
            r.1.new_owner_id@ == previous_owner_ids@[0]@,
            r.1.authorized_id is None,
            strings_view(r.1.token_ids@) == strings_view(token_ids@),
            r.1.memo matches Some(m) && m@ == seq!['r', 'e', 'f', 'u', 'n', 'd'],
            previous_owner_ids@[0]@ != receiver_id@ ==> ({
                let ts = parsed_token_ids(strings_view(token_ids@));
                let prev = previous_owner_ids@[0]@;
                &&& forall|t: TokenIdView| #[trigger] amount_in(balances_of(final(self)@.accounts, receiver_id@), t)
                    == amount_in(balances_of(old(self)@.accounts, receiver_id@), t) - refunded_of(ts, amounts@, r.0@, t)
                &&& forall|t: TokenIdView| #[trigger] amount_in(balances_of(final(self)@.accounts, prev), t)
                    == amount_in(balances_of(old(self)@.accounts, prev), t) + refunded_of(ts, amounts@, r.0@, t)
                &&& forall|id: Seq<char>| id != receiver_id@ && id != prev ==>
                    (#[trigger] final(self)@.accounts.dom().contains(id) <==> old(self)@.accounts.dom().contains(id))
                &&& forall|id: Seq<char>| id != receiver_id@ && id != prev && old(self)@.accounts.dom().contains(id) ==>
                    #[trigger] final(self)@.accounts[id] == old(self)@.accounts[id]
            }),
    {
        broadcast use crate::replay::group_nonces_kept;
        let n = amounts.len();
        let ghost reply_v = opt_vec_view(reply);
        let mut refunds: Vec<u128> = match reply {
            Some(v) => if v.len() == n {
                v
            } else {
                amounts.clone()
            },
            None => amounts.clone(),
        };
        let mut amounts = amounts;
        let ghost amounts0 = amounts@;
        let ghost refunds0 = refunds@;
        let ghost prevs = previous_owner_ids@.map_values(|a: AccountId| a@);
        let ghost ts = parsed_token_ids(strings_view(token_ids@));
        let ghost acc0 = self@.accounts;
        let sender_id = previous_owner_ids[0].clone();
        let mut i: usize = 0;
        proof {
            assert(refunds0 == spec_requested_refunds(reply_v, amounts0));
            assert(prevs.skip(0) =~= prevs);
            assert(ts.skip(0) =~= ts);
            assert(amounts0.skip(0) =~= amounts0);
            assert(refunds0.skip(0) =~= refunds0);
        }
        while i < n
            invariant_except_break
                i <= n,
                ({
                    let rest = spec_resolve(self@.accounts, receiver_id@, prevs.skip(i as int), ts.skip(i as int),
                        amounts0.skip(i as int), refunds0.skip(i as int));
                    spec_resolve(acc0, receiver_id@, prevs, ts, amounts0, refunds0)
                        == (rest.0, amounts@.take(i as int) + rest.1, refunds@.take(i as int) + rest.2)
                }),
                amounts@.skip(i as int) == amounts0.skip(i as int),
                refunds@.skip(i as int) == refunds0.skip(i as int),
            invariant
                self.wf(),
                self.supply_consistent(),
                receiver_id.valid(),
                n == amounts@.len(),
                n == refunds@.len(),
                n == token_ids@.len(),
                n == previous_owner_ids@.len(),
                amounts0.len() == n,
                refunds0.len() == n,
                forall|j: int| 0 <= j < resolve_reach(acc0, receiver_id@, amounts0, refunds0) ==>
                    spec_parse_token_id(#[trigger] token_ids@[j]@) is Some,
                acc0.dom().contains(receiver_id@) ==> self@.accounts.dom().contains(receiver_id@),
                refunds0 == spec_requested_refunds(reply_v, amounts0),
                !acc0.dom().contains(receiver_id@) ==> self@.accounts == acc0
                    && forall|j: int| 0 <= j < i ==> (if refunds0[j] < amounts0[j] { refunds0[j] } else { amounts0[j] }) == 0,
                forall|j: int| 0 <= j < previous_owner_ids@.len() ==> (#[trigger] previous_owner_ids@[j]).valid(),
                prevs == previous_owner_ids@.map_values(|a: AccountId| a@),
                ts == parsed_token_ids(strings_view(token_ids@)),
                acc0 == old(self)@.accounts,
                self@ == (ContractView { accounts: self@.accounts, ..old(self)@ }),
                forall|t: TokenIdView| #[trigger] self.spec_accounts_total(t) == old(self).spec_accounts_total(t),
                forall|j: int| 0 <= j < n ==> #[trigger] amounts@[j] <= amounts0[j],
            ensures
                ({
                    let res = spec_resolve(acc0, receiver_id@, prevs, ts, amounts0, refunds0);
                    &&& self@.accounts == res.0
                    &&& amounts@ == res.1
                    &&& refunds@ == res.2
                }),
            decreases n - i,
        {
            let ghost cur = self@.accounts;
            let ghost cur_amounts = amounts@;
            let ghost cur_refunds = refunds@;
            let ghost rest_i = spec_resolve(cur, receiver_id@, prevs.skip(i as int), ts.skip(i as int),
                amounts0.skip(i as int), refunds0.skip(i as int));
            proof {
                assert(prevs.skip(i as int)[0] == prevs[i as int]);
                assert(ts.skip(i as int)[0] == ts[i as int]);
                assert(amounts0.skip(i as int)[0] == amounts0[i as int]);
                assert(refunds0.skip(i as int)[0] == refunds0[i as int]);
                assert(prevs.skip(i as int).drop_first() =~= prevs.skip(i + 1));
                assert(ts.skip(i as int).drop_first() =~= ts.skip(i + 1));
                assert(amounts0.skip(i as int).drop_first() =~= amounts0.skip(i + 1));
                assert(refunds0.skip(i as int).drop_first() =~= refunds0.skip(i + 1));
                assert(amounts@[i as int] == amounts@.skip(i as int)[0]);
                assert(refunds@[i as int] == refunds@.skip(i as int)[0]);
                assert(ts[i as int] == spec_parse_token_id(token_ids@[i as int]@)->0);
                assert(prevs[i as int] == previous_owner_ids@[i as int]@);
                if !acc0.dom().contains(receiver_id@) {
                    lemma_refund_reach_beyond(amounts0, refunds0, i as int);
                }
                assert(i < resolve_reach(acc0, receiver_id@, amounts0, refunds0));
            }
            let t = match TokenId::parse(token_ids[i].as_str()) {
                Ok(t) => t,
                Err(_) => {
                    proof {
                        assert(spec_parse_token_id(token_ids@[i as int]@) is Some);
                        assert(false);
                    }
                    break;
                },
            };
            let prev = previous_owner_ids[i].clone();
            let amount = amounts[i];
            let requested = refunds[i];
            let r1 = if requested < amount { requested } else { amount };
            refunds.set(i, r1);
            let ghost step = spec_resolve_step(cur, receiver_id@, prevs[i as int], ts[i as int], amounts0[i as int], refunds0[i as int]);
            if r1 != 0 {
                if self.accounts.get(&receiver_id).is_none() {
                    proof {
                        assert(step.3);
                        assert(refunds@ =~= cur_refunds.take(i as int) + refunds0.skip(i as int).update(0, r1));
                        assert(amounts@ =~= cur_amounts.take(i as int) + amounts0.skip(i as int));
                    }
                    break;
                }
                let held = self.balance_of(&receiver_id, &t);
                if held != 0 {
                    let r2 = if r1 < held { r1 } else { held };
                    refunds.set(i, r2);
                    let ghost pre = *self;
                    proof {
                        pre.lemma_balance_le_total(receiver_id@, t@);
                        if pre@.accounts.dom().contains(prev@) && prev@ != receiver_id@ {
                            pre.accounts.lemma_two_balances_le_total(receiver_id@, prev@, t@);
                        }
                        assert(amount_in(pre@.total_supplies, t@) == pre.spec_accounts_total(t@));
                    }
                    match self.debit(&receiver_id, t.clone(), r2) {
                        Ok(_) => {},
                        Err(_) => {
                            proof {
                                assert(false);
                            }
                            break;
                        },
                    }
                    let ghost mid = *self;
                    match self.credit(&prev, t, r2) {
                        Some(_) => {},
                        None => {
                            proof {
                                assert(false);
                            }
                            break;
                        },
                    }
                    amounts.set(i, amount - r2);
                    proof {
                        assert forall|u: TokenIdView| #[trigger] self.spec_accounts_total(u) == old(self).spec_accounts_total(u) by {
                            assert(mid.spec_accounts_total(u) + (if u == t@ { r2 as nat } else { 0 }) == pre.spec_accounts_total(u));
                        }
                        assert forall|u: TokenIdView| #[trigger] amount_in(self@.total_supplies, u) == self.spec_accounts_total(u) by {
                            assert(amount_in(pre@.total_supplies, u) == pre.spec_accounts_total(u));
                        }
                        assert(self@.accounts == step.0);
                    }
                }
            }
            proof {
                assert(!step.3);
                assert(amounts@[i as int] == step.1);
                assert(refunds@[i as int] == step.2);
                let rest_next = spec_resolve(self@.accounts, receiver_id@, prevs.skip(i + 1), ts.skip(i + 1),
                    amounts0.skip(i + 1), refunds0.skip(i + 1));
                assert(rest_i == (rest_next.0, seq![step.1] + rest_next.1, seq![step.2] + rest_next.2));
                assert(amounts@.take(i + 1) + rest_next.1 =~= cur_amounts.take(i as int) + rest_i.1);
                assert(refunds@.take(i + 1) + rest_next.2 =~= cur_refunds.take(i as int) + rest_i.2);
                assert(amounts@.skip(i + 1) =~= amounts0.skip(i + 1));
                assert(refunds@.skip(i + 1) =~= refunds0.skip(i + 1));
            }
            i = i + 1;
        }
        proof {
            if i == n {
                assert(prevs.skip(n as int) =~= Seq::<Seq<char>>::empty());
                assert(amounts@.take(n as int) =~= amounts@);
                assert(refunds@.take(n as int) =~= refunds@);
            }
        }
        proof {
            let prev = previous_owner_ids@[0]@;
            if prev != receiver_id@ {
                let acc0 = old(self)@.accounts;
                assert forall|t: TokenIdView| #[trigger] amount_in(balances_of(acc0, receiver_id@), t) + amount_in(balances_of(acc0, prev), t) <= u128::MAX by {
                    assert(amount_in(old(self)@.total_supplies, t) == old(self).spec_accounts_total(t));
                    if acc0.dom().contains(receiver_id@) && acc0.dom().contains(prev) {
                        old(self).accounts.lemma_two_balances_le_total(receiver_id@, prev, t);
                    } else if acc0.dom().contains(receiver_id@) {
                        old(self).lemma_balance_le_total(receiver_id@, t);
                    } else if acc0.dom().contains(prev) {
                        old(self).lemma_balance_le_total(prev, t);
                    }
                }
                lemma_refund_reach_le(amounts0, refunds0);
                assert forall|j: int| 0 <= j < resolve_reach(acc0, receiver_id@, amounts0, refunds0) implies #[trigger] prevs[j] == prev by {
                    assert(prevs[j] == previous_owner_ids@[j]@);
                    assert(reply_v == opt_vec_view(reply));
                    assert(spec_parse_token_id(token_ids@[j]@) is Some);
                    assert(previous_owner_ids@[j]@ == previous_owner_ids@[0]@);
                }
                lemma_resolve_moves(acc0, receiver_id@, prev, prevs, ts, amounts0, refunds0);
            }
        }
        let event = MtTransferEvent {
            authorized_id: None,
            old_owner_id: receiver_id,
            new_owner_id: sender_id,
            token_ids,
            amounts: refunds,
            memo: Some(refund_memo()),
        };
        (amounts, event)
    }
}

/// Whether `pk` may sign for `id`: as the account says, or, where there
/// is no account, exactly when `id` is the implicit account of `pk`.
pub open spec fn spec_contract_has_key(accounts: Map<Seq<char>, AccountView>, id: Seq<char>, pk: PublicKeyView) -> bool {
    if accounts.dom().contains(id) {
        spec_has_public_key(accounts[id], id, pk)
    } else {
        id == spec_implicit_account_id(pk)
    }
}

/// The keys listed for `id`: those of its account, or, where there is no
/// account, the Ed25519 key behind an implicit NEAR account id.
pub open spec fn spec_contract_keys(accounts: Map<Seq<char>, AccountView>, id: Seq<char>) -> Set<PublicKeyView> {
    if accounts.dom().contains(id) {
        listed_keys(accounts[id], id)
    } else {
        match spec_from_implicit_account_id(id) {
            Some(k) => Set::<PublicKeyView>::empty().insert(k),
            None => Set::<PublicKeyView>::empty(),
        }
    }
}

proof fn lemma_valid_implicit_id(id: Seq<char>)
    requires
        crate::account_id::is_valid_account_id(id),
        spec_from_implicit_account_id(id) is Some,
    ensures
        crate::account_id::spec_account_type(id) == crate::account_id::AccountType::NearImplicitAccount,
{
    assert forall|i: int| 0 <= i < id.len() implies crate::account_id::is_lower_hex(#[trigger] id[i]) by {
        assert(crate::account_id::is_account_char(id[i]));
        assert(crate::crypto::is_hex_digit(id[i]));
    }
    assert(crate::account_id::all_lower_hex(id, 0));
}

/// The keys listed for an account are the keys that may sign for it: a
/// listed key signs, and every Ed25519 key that signs is listed, the key
/// behind an implicit account id included while it is not switched off.
pub proof fn lemma_public_keys_of_sign(c: Contract, id: Seq<char>, pk: PublicKeyView)
    requires
        c.wf(),
        crate::account_id::is_valid_account_id(id),
        crate::crypto::is_valid_public_key(pk),
    ensures
        spec_contract_keys(c@.accounts, id).contains(pk) ==> spec_contract_has_key(c@.accounts, id, pk),
        pk.0 == crate::crypto::Curve::Ed25519 && spec_contract_has_key(c@.accounts, id, pk)
            ==> spec_contract_keys(c@.accounts, id).contains(pk),
{
    c.lemma_wf();
    if spec_from_implicit_account_id(id) is Some {
        lemma_valid_implicit_id(id);
        crate::crypto::lemma_implicit_key_roundtrip(id);
    }
    if pk.0 == crate::crypto::Curve::Ed25519 {
        crate::crypto::lemma_implicit_account_id_roundtrip(pk);
    }
    if c@.accounts.dom().contains(id) {
        assert(keys_exclude_implicit(c@.accounts[id], id));
    }
}

/// The account `id` after `pk` was added to it (the account is created
/// where missing): the implicit key is switched back on, or `pk` joins the
/// added keys.
pub open spec fn spec_key_added(accounts: Map<Seq<char>, AccountView>, id: Seq<char>, pk: PublicKeyView) -> AccountView {
    let a = account_or_fresh(accounts, id);
    if id == spec_implicit_account_id(pk) {
        AccountView { implicit_public_key_removed: false, ..a }
    } else {
        AccountView { public_keys: a.public_keys.insert(pk), ..a }
    }
}

/// The account `id` after `pk` was removed from it (the account is created
/// where missing): the implicit key is switched off, or `pk` leaves the
/// added keys.
pub open spec fn spec_key_removed(accounts: Map<Seq<char>, AccountView>, id: Seq<char>, pk: PublicKeyView) -> AccountView {
    let a = account_or_fresh(accounts, id);
    if id == spec_implicit_account_id(pk) {
        AccountView { implicit_public_key_removed: true, ..a }
    } else {
        AccountView { public_keys: a.public_keys.remove(pk), ..a }
    }
}

/// Whether `pk` could sign for `id` before an add or remove, where the
/// account is created fresh when missing.
pub open spec fn spec_fresh_has_key(accounts: Map<Seq<char>, AccountView>, id: Seq<char>, pk: PublicKeyView) -> bool {
    spec_has_public_key(account_or_fresh(accounts, id), id, pk)
}

/// The nonces of `id` marked used one by one, up to the first that was used
/// already: the set after it, and whether all went through.
pub open spec fn spec_commit_nonces(used: Set<Seq<u8>>, nonces: Seq<Seq<u8>>) -> (Set<Seq<u8>>, bool)
    decreases nonces.len(),
{
    if nonces.len() == 0 {
        (used, true)
    } else if used.contains(nonces[0]) {
        (used, false)
    } else {
        spec_commit_nonces(used.insert(nonces[0]), nonces.drop_first())
    }
}

/// Committing nonces in order succeeds exactly when none was used before
/// and none appears twice.
proof fn lemma_commit_nonces_ok(used: Set<Seq<u8>>, ns: Seq<Seq<u8>>)
    ensures
        spec_commit_nonces(used, ns).1 <==> (forall|i: int| 0 <= i < ns.len() ==> !used.contains(#[trigger] ns[i]))
            && (forall|i: int, j: int| 0 <= i < j < ns.len() ==> #[trigger] ns[i] != #[trigger] ns[j]),
    decreases ns.len(),
{
    if ns.len() > 0 {
        let rest = ns.drop_first();
        lemma_commit_nonces_ok(used.insert(ns[0]), rest);
        if !used.contains(ns[0]) {
            if spec_commit_nonces(used, ns).1 {
                assert forall|i: int| 0 <= i < ns.len() implies !used.contains(#[trigger] ns[i]) by {
                    if i > 0 {
                        assert(ns[i] == rest[i - 1]);
                    }
                }
                assert forall|i: int, j: int| 0 <= i < j < ns.len() implies #[trigger] ns[i] != #[trigger] ns[j] by {
                    assert(ns[j] == rest[j - 1]);
                    if i > 0 {
                        assert(ns[i] == rest[i - 1]);
                    } else {
                        assert(!used.insert(ns[0]).contains(rest[j - 1]));
                    }
                }
            }
            if (forall|i: int| 0 <= i < ns.len() ==> !used.contains(#[trigger] ns[i]))
                && (forall|i: int, j: int| 0 <= i < j < ns.len() ==> #[trigger] ns[i] != #[trigger] ns[j]) {
                assert forall|i: int| 0 <= i < rest.len() implies !used.insert(ns[0]).contains(#[trigger] rest[i]) by {
                    assert(rest[i] == ns[i + 1]);
                    assert(ns[0] != ns[i + 1]);
                }
                assert forall|i: int, j: int| 0 <= i < j < rest.len() implies #[trigger] rest[i] != #[trigger] rest[j] by {
                    assert(rest[i] == ns[i + 1] && rest[j] == ns[j + 1]);
                }
            }
        } else {
            assert(ns[0] == ns[0]);
        }
    }
}

/// Whether two nonces are the same.
fn same_nonce(a: &Nonce, b: &Nonce) -> (r: bool)
    ensures
        r == (a@ == b@),
{
    let mut k: usize = 0;
    while k < 32
        invariant
            k <= 32,
            a@.len() == 32,
            b@.len() == 32,
            forall|l: int| 0 <= l < k ==> a@[l] == b@[l],
        decreases 32 - k,
    {
        if a[k] != b[k] {
            return false;
        }
        k = k + 1;
    }
    proof {
        assert(a@ =~= b@);
    }
    true
}

impl Contract {
    /// Whether `public_key` may sign for `account_id`.
    pub fn has_public_key(&self, account_id: &AccountId, public_key: &PublicKey) -> (b: bool)
        requires
            self.wf(),
            public_key.valid(),
        ensures
            b == spec_contract_has_key(self@.accounts, account_id@, public_key@),
    {
        match self.accounts.get(account_id) {
            Some(account) => account.has_public_key(account_id, public_key),
            None => account_id.key_eq_id(&public_key.to_implicit_account_id()),
        }
    }

    /// The keys that may sign for `account_id`.
    pub fn public_keys_of(&self, account_id: &AccountId) -> (keys: Vec<PublicKey>)
        requires
            self.wf(),
        ensures
            key_views(keys@) == spec_contract_keys(self@.accounts, account_id@),
    {
        match self.accounts.get(account_id) {
            Some(account) => account.iter_public_keys(account_id),
            None => {
                let mut keys: Vec<PublicKey> = Vec::new();
                match PublicKey::from_implicit_account_id(account_id) {
                    Some(pk) => {
                        keys.push(pk);
                        proof {
                            assert(keys@[0]@ == pk@);
                            assert(key_views(keys@) =~= Set::<PublicKeyView>::empty().insert(pk@));
                        }
                    },
                    None => {
                        proof {
                            assert(key_views(keys@) =~= Set::<PublicKeyView>::empty());
                        }
                    },
                }
                keys
            },
        }
    }

    /// Adds `public_key` to `account_id`, creating the account. Fails with
    /// `PublicKeyExists` where the key could already sign (the account is
    /// created all the same).
    pub fn add_public_key(&mut self, account_id: AccountId, public_key: PublicKey) -> (r: Result<(), DefuseError>)
        requires
            old(self).wf(),
            account_id.valid(),
            public_key.valid(),
        ensures
            final(self).wf(),
            crate::replay::nonces_kept(old(self)@, final(self)@),
            final(self)@ == (ContractView {
                accounts: old(self)@.accounts.insert(account_id@, spec_key_added(old(self)@.accounts, account_id@, public_key@)),
                ..old(self)@
            }),
            (r is Ok) <==> !spec_fresh_has_key(old(self)@.accounts, account_id@, public_key@),
            r matches Err(e) ==> e == DefuseError::PublicKeyExists,
            forall|t: TokenIdView| #[trigger] final(self).spec_accounts_total(t) == old(self).spec_accounts_total(t),
            old(self).supply_consistent() ==> final(self).supply_consistent(),
    {
        broadcast use crate::replay::group_nonces_kept;
        let ghost id = account_id@;
        let account = self.accounts.get_or_create(account_id.clone());
        let ghost before = account@;
        let r = account.add_public_key(&account_id, public_key);
        proof {
            assert(keys_exclude_implicit(before, id));
            if id == spec_implicit_account_id(public_key@) {
                assert(!before.public_keys.contains(public_key@));
            }
            assert forall|u: TokenIdView| #[trigger] amount_in(self@.total_supplies, u) == amount_in(old(self)@.total_supplies, u) by {}
        }
        r
    }

    /// Removes `public_key` from `account_id`, creating the account so that
    /// the implicit key can be switched off. Fails with `PublicKeyNotExist`
    /// where the key could not sign (the account is created all the same).
    pub fn remove_public_key(&mut self, account_id: AccountId, public_key: &PublicKey) -> (r: Result<(), DefuseError>)
        requires
            old(self).wf(),
            account_id.valid(),
            public_key.valid(),
        ensures
            final(self).wf(),
            crate::replay::nonces_kept(old(self)@, final(self)@),
            final(self)@ == (ContractView {
                accounts: old(self)@.accounts.insert(account_id@, spec_key_removed(old(self)@.accounts, account_id@, public_key@)),
                ..old(self)@
            }),
            (r is Ok) <==> spec_fresh_has_key(old(self)@.accounts, account_id@, public_key@),
            r matches Err(e) ==> e == DefuseError::PublicKeyNotExist,
            forall|t: TokenIdView| #[trigger] final(self).spec_accounts_total(t) == old(self).spec_accounts_total(t),
            old(self).supply_consistent() ==> final(self).supply_consistent(),
    {
        broadcast use crate::replay::group_nonces_kept;
        let ghost id = account_id@;
        let account = self.accounts.get_or_create(account_id.clone());
        let ghost before = account@;
        let r = account.remove_public_key(&account_id, public_key);
        proof {
            assert(keys_exclude_implicit(before, id));
            if id == spec_implicit_account_id(public_key@) {
                assert(!before.public_keys.contains(public_key@));
            }
            assert forall|pk: PublicKeyView| #[trigger] spec_key_removed(old(self)@.accounts, id, public_key@).public_keys.contains(pk)
                implies id != spec_implicit_account_id(pk) by {
                assert(before.public_keys.contains(pk) ==> id != spec_implicit_account_id(pk));
            }
            assert forall|u: TokenIdView| #[trigger] amount_in(self@.total_supplies, u) == amount_in(old(self)@.total_supplies, u) by {}
        }
        r
    }

    /// Whether `account_id` has used `nonce`.
    pub fn is_nonce_used(&self, account_id: &AccountId, nonce: &Nonce) -> (b: bool)
        requires
            self.wf(),
        ensures
            b == (self@.accounts.dom().contains(account_id@) && self@.accounts[account_id@].nonces.contains(nonce@)),
    {
        match self.accounts.get(account_id) {
            Some(account) => account.is_nonce_used(nonce),
            None => false,
        }
    }

    /// Marks `nonce` used for `account_id`, creating the account. Fails with
    /// `NonceUsed` where it was used before.
    pub fn commit_nonce(&mut self, account_id: AccountId, nonce: &Nonce) -> (r: Result<(), DefuseError>)
        requires
            old(self).wf(),
            account_id.valid(),
        ensures
            final(self).wf(),
            crate::replay::nonces_kept(old(self)@, final(self)@),
            ({
                let a = account_or_fresh(old(self)@.accounts, account_id@);
                &&& final(self)@ == (ContractView {
                    accounts: old(self)@.accounts.insert(account_id@, AccountView { nonces: a.nonces.insert(nonce@), ..a }),
                    ..old(self)@
                })
                &&& (r is Ok) <==> !a.nonces.contains(nonce@)
            }),
            r matches Err(e) ==> e == DefuseError::NonceUsed,
            forall|t: TokenIdView| #[trigger] final(self).spec_accounts_total(t) == old(self).spec_accounts_total(t),
            old(self).supply_consistent() ==> final(self).supply_consistent(),
    {
        broadcast use crate::replay::group_nonces_kept;
        let ghost id = account_id@;
        let account = self.accounts.get_or_create(account_id.clone());
        let ghost before = account@;
        let r = account.commit_nonce(nonce);
        proof {
            assert(keys_exclude_implicit(before, id));
            if r is Err {
                assert(before.nonces.insert(nonce@) =~= before.nonces);
            }
            assert forall|u: TokenIdView| #[trigger] amount_in(self@.total_supplies, u) == amount_in(old(self)@.total_supplies, u) by {}
        }
        r
    }

    /// Marks `nonces` used for `account_id`, creating the account. Fails
    /// with `NonceUsed`, changing nothing, where one of them was used before
    /// or appears twice.
    pub fn invalidate_nonces(&mut self, account_id: AccountId, nonces: Vec<Nonce>) -> (r: Result<(), DefuseError>)
        requires
            old(self).wf(),
            account_id.valid(),
        ensures
            final(self).wf(),
            crate::replay::nonces_kept(old(self)@, final(self)@),
            ({
                let a = account_or_fresh(old(self)@.accounts, account_id@);
                let ns = nonces@.map_values(|n: Nonce| n@);
                let res = spec_commit_nonces(a.nonces, ns);
                &&& (r is Ok) <==> res.1
                &&& res.1 <==> (forall|i: int| 0 <= i < ns.len() ==> !a.nonces.contains(#[trigger] ns[i]))
                    && (forall|i: int, j: int| 0 <= i < j < ns.len() ==> #[trigger] ns[i] != #[trigger] ns[j])
                &&& r is Ok ==> final(self)@ == (ContractView {
                    accounts: old(self)@.accounts.insert(account_id@, AccountView { nonces: res.0, ..a }),
                    ..old(self)@
                })
                &&& r is Err ==> r == Err::<(), DefuseError>(DefuseError::NonceUsed) && final(self)@ == old(self)@
            }),
            forall|t: TokenIdView| #[trigger] final(self).spec_accounts_total(t) == old(self).spec_accounts_total(t),
            old(self).supply_consistent() ==> final(self).supply_consistent(),
    {
        broadcast use crate::replay::group_nonces_kept;
        let ghost a = account_or_fresh(old(self)@.accounts, account_id@);
        let ghost ns = nonces@.map_values(|n: Nonce| n@);
        proof {
            lemma_commit_nonces_ok(a.nonces, ns);
        }
        let n = nonces.len();
        let mut i: usize = 0;
        while i < n
            invariant
                n == nonces@.len(),
                ns == nonces@.map_values(|n: Nonce| n@),
                i <= n,
                self.wf(),
                self@ == old(self)@,
                a == account_or_fresh(self@.accounts, account_id@),
                forall|k: int| 0 <= k < i ==> !a.nonces.contains(#[trigger] ns[k]),
                forall|k: int, l: int| 0 <= k < l < i ==> #[trigger] ns[k] != #[trigger] ns[l],
            decreases n - i,
        {
            if self.is_nonce_used(&account_id, &nonces[i]) {
                proof {
                    assert(ns[i as int] == nonces@[i as int]@);
                    assert(a.nonces.contains(ns[i as int]));
                    lemma_commit_nonces_ok(a.nonces, ns);
                    assert(!spec_commit_nonces(a.nonces, ns).1);
                }
                return Err(DefuseError::NonceUsed);
            }
            proof {
                assert(ns[i as int] == nonces@[i as int]@);
            }
            let mut j: usize = 0;
            while j < i
                invariant
                    i < n,
                    n == nonces@.len(),
                    ns == nonces@.map_values(|n: Nonce| n@),
                    j <= i,
                    self.wf(),
                    self@ == old(self)@,
                    a == account_or_fresh(self@.accounts, account_id@),
                    forall|k: int| 0 <= k <= i ==> !a.nonces.contains(#[trigger] ns[k]),
                    forall|k: int, l: int| 0 <= k < l < i ==> #[trigger] ns[k] != #[trigger] ns[l],
                    forall|l: int| 0 <= l < j ==> ns[l] != ns[i as int],
                decreases i - j,
            {
                if same_nonce(&nonces[j], &nonces[i]) {
                    proof {
                        assert(ns[j as int] == nonces@[j as int]@);
                        assert(ns[i as int] == nonces@[i as int]@);
                        assert(ns[j as int] == ns[i as int]);
                        lemma_commit_nonces_ok(a.nonces, ns);
                        assert(!spec_commit_nonces(a.nonces, ns).1);
                    }
                    return Err(DefuseError::NonceUsed);
                }
                proof {
                    assert(ns[j as int] == nonces@[j as int]@);
                    assert(ns[i as int] == nonces@[i as int]@);
                }
                j = j + 1;
            }
            i = i + 1;
        }
        self.commit_nonces_in_order(account_id, nonces)
    }

    /// Marks `nonces` used for `account_id` in order, creating the account.
    /// Stops with `NonceUsed` at the first one used before; those before it
    /// stay marked.
    pub(crate) fn commit_nonces_in_order(&mut self, account_id: AccountId, nonces: Vec<Nonce>) -> (r: Result<(), DefuseError>)
        requires
            old(self).wf(),
            account_id.valid(),
        ensures
            final(self).wf(),
            crate::replay::nonces_kept(old(self)@, final(self)@),
            ({
                let a = account_or_fresh(old(self)@.accounts, account_id@);
                let res = spec_commit_nonces(a.nonces, nonces@.map_values(|n: Nonce| n@));
                &&& final(self)@ == (ContractView {
                    accounts: old(self)@.accounts.insert(account_id@, AccountView { nonces: res.0, ..a }),
                    ..old(self)@
                })
                &&& (r is Ok) <==> res.1
            }),
            r matches Err(e) ==> e == DefuseError::NonceUsed,
            forall|t: TokenIdView| #[trigger] final(self).spec_accounts_total(t) == old(self).spec_accounts_total(t),
            old(self).supply_consistent() ==> final(self).supply_consistent(),
    {
        broadcast use crate::replay::group_nonces_kept;
        let ghost id = account_id@;
        let ghost a0 = account_or_fresh(old(self)@.accounts, id);
        let ghost ns = nonces@.map_values(|n: Nonce| n@);
        let ghost acc0 = self@.accounts;
        let account = self.accounts.get_or_create(account_id.clone());
        let mut i: usize = 0;
        let mut r: Result<(), DefuseError> = Ok(());
        proof {
            assert(ns.skip(0) =~= ns);
        }
        while i < nonces.len()
            invariant_except_break
                r is Ok,
                spec_commit_nonces(a0.nonces, ns) == spec_commit_nonces(account@.nonces, ns.skip(i as int)),
            invariant
                i <= nonces@.len(),
                ns == nonces@.map_values(|n: Nonce| n@),
                account.wf(),
                keys_exclude_implicit(account@, id),
                account@ == (AccountView { nonces: account@.nonces, ..a0 }),
            ensures
                spec_commit_nonces(a0.nonces, ns) == (account@.nonces, r is Ok),
                r matches Err(e) ==> e == DefuseError::NonceUsed,
            decreases nonces@.len() - i,
        {
            proof {
                assert(ns.skip(i as int)[0] == nonces@[i as int]@);
                assert(ns.skip(i as int).drop_first() =~= ns.skip(i + 1));
            }
            match account.commit_nonce(&nonces[i]) {
                Ok(()) => {},
                Err(e) => {
                    r = Err(e);
                    break;
                },
            }
            i = i + 1;
        }
        proof {
            assert forall|u: TokenIdView| #[trigger] amount_in(self@.total_supplies, u) == amount_in(old(self)@.total_supplies, u) by {}
            assert forall|x: Seq<char>, m: Seq<u8>| #[trigger] crate::intents::nonce_used(old(self)@.accounts, x, m)
                implies crate::intents::nonce_used(self@.accounts, x, m) by {
                if x == id {
                    crate::intents::lemma_commit_nonces_grows(a0.nonces, ns, m);
                }
            }
        }
        r
    }
}

impl Contract {
    /// Sets the fee.
    pub fn set_fee(&mut self, fee: Pips)
        requires
            old(self).wf(),
            fee.wf(),
        ensures
            final(self).wf(),
            crate::replay::nonces_kept(old(self)@, final(self)@),
            final(self)@ == (ContractView { fee: fee@, ..old(self)@ }),
            forall|t: TokenIdView| #[trigger] final(self).spec_accounts_total(t) == old(self).spec_accounts_total(t),
    {
        broadcast use crate::replay::group_nonces_kept;
        self.fees.fee = fee;
    }

    /// Sets the account that collects the fees.
    pub fn set_fee_collector(&mut self, fee_collector: AccountId)
        requires
            old(self).wf(),
            fee_collector.valid(),
        ensures
            final(self).wf(),
            crate::replay::nonces_kept(old(self)@, final(self)@),
            final(self)@ == (ContractView { fee_collector: fee_collector@, ..old(self)@ }),
            forall|t: TokenIdView| #[trigger] final(self).spec_accounts_total(t) == old(self).spec_accounts_total(t),
    {
        broadcast use crate::replay::group_nonces_kept;
        self.fees.fee_collector = fee_collector;
    }

    /// Whether `public_key` is a relayer key.
    pub fn has_relayer_key(&self, public_key: &PublicKey) -> (b: bool)
        requires
            self.wf(),
        ensures
            b == self@.relayer_keys.contains(public_key@),
    {
        self.relayer_keys.contains_key(public_key)
    }

    /// Registers a new relayer key.
    pub fn do_add_relayer_key(&mut self, public_key: PublicKey)
        requires
            old(self).wf(),
            !old(self)@.relayer_keys.contains(public_key@),
        ensures
            final(self).wf(),
            crate::replay::nonces_kept(old(self)@, final(self)@),
            final(self)@ == (ContractView { relayer_keys: old(self)@.relayer_keys.insert(public_key@), ..old(self)@ }),
            forall|t: TokenIdView| #[trigger] final(self).spec_accounts_total(t) == old(self).spec_accounts_total(t),
    {
        broadcast use crate::replay::group_nonces_kept;
        let ghost before = self.relayer_keys@;
        self.relayer_keys.insert(public_key, ());
        proof {
            assert(self@.relayer_keys =~= old(self)@.relayer_keys.insert(public_key@));
        }
    }

    /// Drops a registered relayer key.
    pub fn delete_relayer_key(&mut self, public_key: &PublicKey)
        requires
            old(self).wf(),
            old(self)@.relayer_keys.contains(public_key@),
        ensures
            final(self).wf(),
            crate::replay::nonces_kept(old(self)@, final(self)@),
            final(self)@ == (ContractView { relayer_keys: old(self)@.relayer_keys.remove(public_key@), ..old(self)@ }),
            forall|t: TokenIdView| #[trigger] final(self).spec_accounts_total(t) == old(self).spec_accounts_total(t),
    {
        broadcast use crate::replay::group_nonces_kept;
        self.relayer_keys.remove(public_key);
        proof {
            assert(self@.relayer_keys =~= old(self)@.relayer_keys.remove(public_key@));
        }
    }

    /// Hands out the burn events that waited for the end of the
    /// transaction, oldest first, and forgets them.
    pub fn flush_burns(&mut self) -> (events: Vec<MtBurnEvent>)
        requires
            old(self).wf(),
        ensures
            final(self).wf(),
            crate::replay::nonces_kept(old(self)@, final(self)@),
            events@.map_values(|e: MtBurnEvent| e@) == old(self)@.postponed_burns,
            final(self)@ == (ContractView { postponed_burns: Seq::<BurnView>::empty(), ..old(self)@ }),
            forall|t: TokenIdView| #[trigger] final(self).spec_accounts_total(t) == old(self).spec_accounts_total(t),
    {
        broadcast use crate::replay::group_nonces_kept;
        let mut events: Vec<MtBurnEvent> = Vec::new();
        std::mem::swap(&mut events, &mut self.postponed_burns);
        proof {
            assert(self@.postponed_burns =~= Seq::<BurnView>::empty());
        }
        events
    }
}

/// The whole interface of the intents contract: intents, relayer keys,
/// account keys and nonces, NEP-245, and deposits and withdrawals of
/// NEP-141, NEP-171 and NEP-245 tokens.
pub trait Defuse {}

impl Defuse for Contract {}

/// Once a key was added to an account, it may sign for it.
pub proof fn lemma_added_key_signs(c: Contract, id: Seq<char>, pk: PublicKeyView)
    ensures
        spec_contract_has_key(c@.accounts.insert(id, spec_key_added(c@.accounts, id, pk)), id, pk),
{
}

/// Once a key was removed from an account, it no longer signs for it.
pub proof fn lemma_removed_key_cannot_sign(c: Contract, id: Seq<char>, pk: PublicKeyView)
    requires
        c.wf(),
    ensures
        !spec_contract_has_key(c@.accounts.insert(id, spec_key_removed(c@.accounts, id, pk)), id, pk),
{
    c.lemma_wf();
    if c@.accounts.dom().contains(id) {
        assert(keys_exclude_implicit(c@.accounts[id], id));
    }
}

/// Once a nonce was committed for an account, it reads as used, and a
/// second commit of it fails.
pub proof fn lemma_committed_nonce_is_used(c: Contract, id: Seq<char>, n: Seq<u8>)
    ensures
        ({
            let a = account_or_fresh(c@.accounts, id);
            let after = c@.accounts.insert(id, AccountView { nonces: a.nonces.insert(n), ..a });
            &&& after.dom().contains(id) && after[id].nonces.contains(n)
            &&& account_or_fresh(after, id).nonces.contains(n)
        }),
{
}

} // verus!
