//! Withdrawals out of the contract: which tokens leave an account, what is
//! to be called on other contracts afterwards, and the refund when the
//! outgoing transfer failed.

use vstd::prelude::*;

use crate::account_id::AccountId;
use crate::contract::{
    balances_of, deposit_outcome, err_of, lemma_deposit_undoes_withdraw, mint_event_matches, spec_deposit_result,
    spec_withdraw_result,
    tokens_view, withdraw_outcome, Contract, ContractView,
};
use crate::errors::DefuseError;
use crate::events::{refund_memo, withdraw_memo, MtMintEvent};
use crate::gas::{
    do_mt_withdraw_gas, mt_resolve_withdraw_gas, sat, DO_FT_WITHDRAW_GAS, DO_NATIVE_WITHDRAW_GAS,
    DO_NFT_WITHDRAW_GAS, GGAS, RESOLVE_WITHDRAW_GAS, STORAGE_DEPOSIT_GAS, TGAS,
};
use crate::amounts::{amount_in, no_zero_amounts};
use crate::token_id::{TokenId, TokenIdView, TokenStandard};

verus! {

/// A withdrawal of a NEP-141 token.
#[derive(Debug)]
pub struct FtWithdraw {
    pub token: AccountId,
    pub receiver_id: AccountId,
    pub amount: u128,
    pub memo: Option<String>,
    /// wNEAR to spend on a storage deposit for the receiver first.
    pub storage_deposit: Option<u128>,
}

/// A withdrawal of a NEP-171 token.
#[derive(Debug)]
pub struct NftWithdraw {
    pub token: AccountId,
    pub receiver_id: AccountId,
    pub token_id: String,
    pub memo: Option<String>,
    /// wNEAR to spend on a storage deposit for the receiver first.
    pub storage_deposit: Option<u128>,
}

/// A withdrawal of NEP-245 tokens of one contract.
#[derive(Debug)]
pub struct MtWithdraw {
    pub token: AccountId,
    pub receiver_id: AccountId,
    pub token_ids: Vec<String>,
    pub amounts: Vec<u128>,
    pub memo: Option<String>,
    /// wNEAR to spend on a storage deposit for the receiver first.
    pub storage_deposit: Option<u128>,
}

/// A withdrawal of wNEAR as native NEAR.
#[derive(Debug)]
pub struct NativeWithdraw {
    pub receiver_id: AccountId,
    pub amount: u128,
}

/// The calls that follow a withdrawal once its tokens were debited.
#[derive(PartialEq, Eq, Structural, Clone, Copy, Debug)]
pub struct WithdrawPlan {
    /// NEAR to unwrap from the wNEAR contract first.
    pub near_withdraw: Option<u128>,
    /// Gas for the outgoing transfer where it is a callback of the
    /// unwrapping; `None` where there is no transfer step.
    pub transfer_gas: Option<u64>,
    /// Gas for the resolving callback; `None` where nothing is resolved.
    pub resolve_gas: Option<u64>,
}

/// A NEP-141 token id as a value.
pub open spec fn nep141(contract: Seq<char>) -> TokenIdView {
    (TokenStandard::Nep141, contract, Seq::<char>::empty())
}

/// `tokens`, followed by the wNEAR of a storage deposit where there is one.
pub open spec fn with_storage_deposit(
    tokens: Seq<(TokenIdView, u128)>,
    storage_deposit: Option<u128>,
    wnear: Seq<char>,
) -> Seq<(TokenIdView, u128)> {
    match storage_deposit {
        Some(a) => tokens.push((nep141(wnear), a)),
        None => tokens,
    }
}

/// What a fungible withdrawal debits.
pub open spec fn ft_withdraw_tokens(w: FtWithdraw, wnear: Seq<char>) -> Seq<(TokenIdView, u128)> {
    with_storage_deposit(seq![(nep141(w.token@), w.amount)], w.storage_deposit, wnear)
}

/// What a non-fungible withdrawal debits: the token, once.
pub open spec fn nft_withdraw_tokens(w: NftWithdraw, wnear: Seq<char>) -> Seq<(TokenIdView, u128)> {
    with_storage_deposit(seq![((TokenStandard::Nep171, w.token@, w.token_id@), 1u128)], w.storage_deposit, wnear)
}

/// The NEP-245 tokens of `token` named `token_ids`, with `amounts`.
pub open spec fn mt_tokens(token: Seq<char>, token_ids: Seq<String>, amounts: Seq<u128>) -> Seq<(TokenIdView, u128)> {
    Seq::new(token_ids.len(), |i: int| ((TokenStandard::Nep245, token, token_ids[i]@), amounts[i]))
}

/// What a multi-token withdrawal debits.
pub open spec fn mt_withdraw_tokens(w: MtWithdraw, wnear: Seq<char>) -> Seq<(TokenIdView, u128)> {
    with_storage_deposit(mt_tokens(w.token@, w.token_ids@, w.amounts@), w.storage_deposit, wnear)
}

/// What `near_sdk::serde_json::from_slice` reads from `bytes` as a
/// `near_sdk::json_types::U128`: the amount, or `None` where the bytes are
/// no JSON string holding a decimal `u128`.
pub uninterp spec fn spec_json_u128(bytes: Seq<u8>) -> Option<u128>;

/// Reads `bytes` with `near_sdk::serde_json::from_slice` as a
/// `near_sdk::json_types::U128` (a JSON string that `str::parse::<u128>`
/// accepts).
///
/// Trusted: the result is the amount read, `None` where reading fails; it
/// depends on the bytes alone and is named `spec_json_u128`.
#[verifier::external_body]
fn parse_json_u128(bytes: &[u8]) -> (r: Option<u128>)
    ensures
        r == spec_json_u128(bytes@),
{
    near_sdk::serde_json::from_slice::<near_sdk::json_types::U128>(bytes).ok().map(|v| v.0)
}

/// The bytes of an answer as a value: `None` where the call failed.
pub open spec fn answer_view(result: Option<Vec<u8>>) -> Option<Seq<u8>> {
    match result {
        Some(v) => Some(v@),
        None => None,
    }
}

/// Whether an outgoing transfer went through, by its answer (`None` where
/// the call failed): it did where it succeeded with an empty result.
pub fn transferred_of(answer: Option<Vec<u8>>) -> (b: bool)
    ensures
        b == (answer_view(answer) matches Some(v) && v.len() == 0),
{
    match answer {
        Some(v) => v.len() == 0,
        None => false,
    }
}

/// What a fungible withdrawal of `amount` used, by the answer of the token
/// contract (`None` where the call failed, which uses nothing): for
/// `ft_transfer_call` the amount it returns (nothing where it returns none),
/// for `ft_transfer` all of it where the answer is empty and nothing
/// otherwise; never more than `amount`.
pub open spec fn spec_ft_used(amount: u128, is_call: bool, result: Option<Seq<u8>>) -> u128 {
    let used: u128 = match result {
        None => 0,
        Some(v) => if is_call {
            match spec_json_u128(v) {
                Some(a) => a,
                None => 0,
            }
        } else if v.len() == 0 {
            amount
        } else {
            0
        },
    };
    if used < amount {
        used
    } else {
        amount
    }
}

/// What a fungible withdrawal used, as `spec_ft_used` says.
pub fn ft_withdraw_used(amount: u128, is_call: bool, result: Option<Vec<u8>>) -> (u: u128)
    ensures
        u == spec_ft_used(amount, is_call, answer_view(result)),
{
    let used: u128 = match result {
        None => 0,
        Some(v) => if is_call {
            match parse_json_u128(v.as_slice()) {
                Some(a) => a,
                None => 0,
            }
        } else if v.len() == 0 {
            amount
        } else {
            0
        },
    };
    if used < amount {
        used
    } else {
        amount
    }
}

/// The memo of withdrawals, as a value.
pub open spec fn withdraw_memo_view() -> Option<Seq<char>> {
    Some(seq!['w', 'i', 't', 'h', 'd', 'r', 'a', 'w'])
}

/// The memo of refunds, as a value.
pub open spec fn refund_memo_view() -> Option<Seq<char>> {
    Some(seq!['r', 'e', 'f', 'u', 'n', 'd'])
}

/// The debit list of a withdrawal, its storage deposit appended.
fn push_storage_deposit(tokens: &mut Vec<(TokenId, u128)>, storage_deposit: Option<u128>, wnear: &AccountId)
    ensures
        tokens_view(final(tokens)@) == with_storage_deposit(tokens_view(old(tokens)@), storage_deposit, wnear@),
{
    match storage_deposit {
        Some(a) => {
            let ghost before = tokens@;
            tokens.push((TokenId::Nep141(wnear.clone()), a));
            proof {
                assert(tokens_view(tokens@) =~= tokens_view(before).push((nep141(wnear@), a)));
            }
        },
        None => {},
    }
}

impl Contract {
    /// Debits a fungible withdrawal (and its storage deposit in wNEAR) from
    /// `owner_id`. On success the caller unwraps the storage deposit where
    /// there is one, transfers the token and then resolves, with the calls
    /// that `crate::calls::ft_withdraw_calls` gives.
    pub fn ft_withdraw(&mut self, owner_id: &AccountId, withdraw: &FtWithdraw) -> (r: Result<WithdrawPlan, DefuseError>)
        requires
            old(self).wf(),
        ensures
            final(self).wf(),
            crate::replay::nonces_kept(old(self)@, final(self)@),
            withdraw_outcome(old(self)@, owner_id@, ft_withdraw_tokens(*withdraw, old(self)@.wnear_id),
                withdraw_memo_view(), final(self)@, err_of(r)),
            r matches Ok(p) ==> p == (WithdrawPlan {
                near_withdraw: withdraw.storage_deposit,
                transfer_gas: Some(DO_FT_WITHDRAW_GAS),
                resolve_gas: Some(RESOLVE_WITHDRAW_GAS),
            }),
            old(self).supply_consistent() ==> final(self).supply_consistent(),
            r is Ok ==> forall|t: TokenIdView| #[trigger] final(self).spec_accounts_total(t) + amount_in(old(self)@.total_supplies, t)
                == old(self).spec_accounts_total(t) + amount_in(final(self)@.total_supplies, t),
    {
        broadcast use crate::replay::group_nonces_kept;
        let mut tokens: Vec<(TokenId, u128)> = Vec::new();
        tokens.push((TokenId::Nep141(withdraw.token.clone()), withdraw.amount));
        proof {
            assert(tokens_view(tokens@) =~= seq![(nep141(withdraw.token@), withdraw.amount)]);
        }
        let wnear = self.wnear_id().clone();
        push_storage_deposit(&mut tokens, withdraw.storage_deposit, &wnear);
        self.withdraw(owner_id, tokens, Some(withdraw_memo()))?;
        Ok(WithdrawPlan {
            near_withdraw: withdraw.storage_deposit,
            transfer_gas: Some(DO_FT_WITHDRAW_GAS),
            resolve_gas: Some(RESOLVE_WITHDRAW_GAS),
        })
    }

    /// Debits a non-fungible withdrawal (and its storage deposit in wNEAR)
    /// from `owner_id`. On success the caller unwraps the storage deposit
    /// where there is one, transfers the token and then resolves, with the
    /// calls that `crate::calls::nft_withdraw_calls` gives.
    pub fn nft_withdraw(&mut self, owner_id: &AccountId, withdraw: &NftWithdraw) -> (r: Result<WithdrawPlan, DefuseError>)
        requires
            old(self).wf(),
        ensures
            final(self).wf(),
            crate::replay::nonces_kept(old(self)@, final(self)@),
            withdraw_outcome(old(self)@, owner_id@, nft_withdraw_tokens(*withdraw, old(self)@.wnear_id),
                withdraw_memo_view(), final(self)@, err_of(r)),
            r matches Ok(p) ==> p == (WithdrawPlan {
                near_withdraw: withdraw.storage_deposit,
                transfer_gas: Some(DO_NFT_WITHDRAW_GAS),
                resolve_gas: Some(RESOLVE_WITHDRAW_GAS),
            }),
            old(self).supply_consistent() ==> final(self).supply_consistent(),
            r is Ok ==> forall|t: TokenIdView| #[trigger] final(self).spec_accounts_total(t) + amount_in(old(self)@.total_supplies, t)
                == old(self).spec_accounts_total(t) + amount_in(final(self)@.total_supplies, t),
    {
        broadcast use crate::replay::group_nonces_kept;
        let mut tokens: Vec<(TokenId, u128)> = Vec::new();
        tokens.push((TokenId::Nep171(withdraw.token.clone(), withdraw.token_id.clone()), 1));
        proof {
            assert(tokens_view(tokens@) =~= seq![((TokenStandard::Nep171, withdraw.token@, withdraw.token_id@), 1u128)]);
        }
        let wnear = self.wnear_id().clone();
        push_storage_deposit(&mut tokens, withdraw.storage_deposit, &wnear);
        self.withdraw(owner_id, tokens, Some(withdraw_memo()))?;
        Ok(WithdrawPlan {
            near_withdraw: withdraw.storage_deposit,
            transfer_gas: Some(DO_NFT_WITHDRAW_GAS),
            resolve_gas: Some(RESOLVE_WITHDRAW_GAS),
        })
    }

    /// Debits a multi-token withdrawal (and its storage deposit in wNEAR)
    /// from `owner_id`. On success the caller unwraps the storage deposit
    /// where there is one, sends `mt_batch_transfer` and then resolves, with
    /// gas that grows with the number of tokens, with the calls that
    /// `crate::calls::mt_withdraw_calls` gives.
    pub fn mt_withdraw(&mut self, owner_id: &AccountId, withdraw: &MtWithdraw) -> (r: Result<WithdrawPlan, DefuseError>)
        requires
            old(self).wf(),
            withdraw.token_ids@.len() == withdraw.amounts@.len(),
            withdraw.amounts@.len() > 0,
        ensures
            final(self).wf(),
            crate::replay::nonces_kept(old(self)@, final(self)@),
            withdraw_outcome(old(self)@, owner_id@, mt_withdraw_tokens(*withdraw, old(self)@.wnear_id),
                withdraw_memo_view(), final(self)@, err_of(r)),
            r matches Ok(p) ==> p == (WithdrawPlan {
                near_withdraw: withdraw.storage_deposit,
                transfer_gas: Some(sat(sat(sat(TGAS + sat(500 * GGAS * withdraw.token_ids@.len())) + STORAGE_DEPOSIT_GAS)
                    + sat(15 * TGAS + sat(500 * GGAS * withdraw.token_ids@.len()))) as u64),
                resolve_gas: Some(sat(5 * TGAS + sat(500 * GGAS * withdraw.token_ids@.len())) as u64),
            }),
            old(self).supply_consistent() ==> final(self).supply_consistent(),
            r is Ok ==> forall|t: TokenIdView| #[trigger] final(self).spec_accounts_total(t) + amount_in(old(self)@.total_supplies, t)
                == old(self).spec_accounts_total(t) + amount_in(final(self)@.total_supplies, t),
    {
        broadcast use crate::replay::group_nonces_kept;
        let mut tokens: Vec<(TokenId, u128)> = Vec::new();
        let n = withdraw.token_ids.len();
        let mut i: usize = 0;
        while i < n
            invariant
                n == withdraw.token_ids@.len(),
                n == withdraw.amounts@.len(),
                i <= n,
                tokens_view(tokens@) == mt_tokens(withdraw.token@, withdraw.token_ids@, withdraw.amounts@).take(i as int),
            decreases n - i,
        {
            let ghost before = tokens@;
            tokens.push((TokenId::Nep245(withdraw.token.clone(), withdraw.token_ids[i].clone()), withdraw.amounts[i]));
            proof {
                assert(tokens_view(tokens@) =~= tokens_view(before).push(
                    mt_tokens(withdraw.token@, withdraw.token_ids@, withdraw.amounts@)[i as int]));
                assert(mt_tokens(withdraw.token@, withdraw.token_ids@, withdraw.amounts@).take(i + 1)
                    =~= mt_tokens(withdraw.token@, withdraw.token_ids@, withdraw.amounts@).take(i as int).push(
                    mt_tokens(withdraw.token@, withdraw.token_ids@, withdraw.amounts@)[i as int]));
            }
            i = i + 1;
        }
        proof {
            assert(mt_tokens(withdraw.token@, withdraw.token_ids@, withdraw.amounts@).take(n as int)
                =~= mt_tokens(withdraw.token@, withdraw.token_ids@, withdraw.amounts@));
        }
        let wnear = self.wnear_id().clone();
        push_storage_deposit(&mut tokens, withdraw.storage_deposit, &wnear);
        self.withdraw(owner_id, tokens, Some(withdraw_memo()))?;
        let count = n as u64;
        Ok(WithdrawPlan {
            near_withdraw: withdraw.storage_deposit,
            transfer_gas: Some(do_mt_withdraw_gas(count)),
            resolve_gas: Some(mt_resolve_withdraw_gas(count)),
        })
    }

    /// Debits wNEAR from `owner_id` for a withdrawal as native NEAR. On
    /// success the caller unwraps it and then sends it to the receiver.
    pub fn native_withdraw(&mut self, owner_id: &AccountId, withdraw: &NativeWithdraw) -> (r: Result<WithdrawPlan, DefuseError>)
        requires
            old(self).wf(),
        ensures
            final(self).wf(),
            crate::replay::nonces_kept(old(self)@, final(self)@),
            withdraw_outcome(old(self)@, owner_id@, seq![(nep141(old(self)@.wnear_id), withdraw.amount)],
                withdraw_memo_view(), final(self)@, err_of(r)),
            r matches Ok(p) ==> p == (WithdrawPlan {
                near_withdraw: Some(withdraw.amount),
                transfer_gas: Some(DO_NATIVE_WITHDRAW_GAS),
                resolve_gas: None,
            }),
            old(self).supply_consistent() ==> final(self).supply_consistent(),
            r is Ok ==> forall|t: TokenIdView| #[trigger] final(self).spec_accounts_total(t) + amount_in(old(self)@.total_supplies, t)
                == old(self).spec_accounts_total(t) + amount_in(final(self)@.total_supplies, t),
    {
        broadcast use crate::replay::group_nonces_kept;
        let mut tokens: Vec<(TokenId, u128)> = Vec::new();
        tokens.push((TokenId::Nep141(self.wnear_id().clone()), withdraw.amount));
        proof {
            assert(tokens_view(tokens@) =~= seq![(nep141(old(self)@.wnear_id), withdraw.amount)]);
        }
        self.withdraw(owner_id, tokens, Some(withdraw_memo()))?;
        Ok(WithdrawPlan {
            near_withdraw: Some(withdraw.amount),
            transfer_gas: Some(DO_NATIVE_WITHDRAW_GAS),
            resolve_gas: None,
        })
    }

    /// Debits `amount` of wNEAR from `account_id` to unwrap it into the
    /// contract's own NEAR; the caller unwraps it and then resolves as a
    /// fungible withdrawal of wNEAR.
    pub fn unwrap_wnear(&mut self, account_id: &AccountId, amount: u128, memo: Option<String>) -> (r: Result<WithdrawPlan, DefuseError>)
        requires
            old(self).wf(),
        ensures
            final(self).wf(),
            crate::replay::nonces_kept(old(self)@, final(self)@),
            withdraw_outcome(old(self)@, account_id@, seq![(nep141(old(self)@.wnear_id), amount)],
                crate::events::opt_string_view(memo), final(self)@, err_of(r)),
            r matches Ok(p) ==> p == (WithdrawPlan {
                near_withdraw: Some(amount),
                transfer_gas: None,
                resolve_gas: Some(RESOLVE_WITHDRAW_GAS),
            }),
            old(self).supply_consistent() ==> final(self).supply_consistent(),
            r is Ok ==> forall|t: TokenIdView| #[trigger] final(self).spec_accounts_total(t) + amount_in(old(self)@.total_supplies, t)
                == old(self).spec_accounts_total(t) + amount_in(final(self)@.total_supplies, t),
    {
        broadcast use crate::replay::group_nonces_kept;
        let mut tokens: Vec<(TokenId, u128)> = Vec::new();
        tokens.push((TokenId::Nep141(self.wnear_id().clone()), amount));
        proof {
            assert(tokens_view(tokens@) =~= seq![(nep141(old(self)@.wnear_id), amount)]);
        }
        self.withdraw(account_id, tokens, memo)?;
        Ok(WithdrawPlan { near_withdraw: Some(amount), transfer_gas: None, resolve_gas: Some(RESOLVE_WITHDRAW_GAS) })
    }

    /// Settles a withdrawal once the outgoing transfer answered: where it
    /// failed (`transferred` is false), `tokens` go back to `sender_id`.
    /// Returns the refund's mint event, or `None` where nothing went back.
    fn resolve_withdraw(&mut self, sender_id: AccountId, tokens: Vec<(TokenId, u128)>, transferred: bool)
        -> (r: Result<Option<MtMintEvent>, DefuseError>)
        requires
            old(self).wf(),
            sender_id.valid(),
        ensures
            final(self).wf(),
            transferred ==> r == Ok::<Option<MtMintEvent>, DefuseError>(None) && final(self)@ == old(self)@,
            !transferred ==> deposit_outcome(old(self)@, sender_id@, tokens_view(tokens@), final(self)@, err_of(r))
                && (r matches Ok(ev) ==> ev matches Some(e) && mint_event_matches(e, sender_id@, tokens_view(tokens@), refund_memo_view())),
            old(self).supply_consistent() ==> final(self).supply_consistent(),
    {
        if transferred {
            return Ok(None);
        }
        let ev = self.deposit(sender_id, tokens, Some(refund_memo()))?;
        Ok(Some(ev))
    }

    /// Resolves a fungible withdrawal; see `resolve_withdraw`.
    pub fn ft_resolve_withdraw(&mut self, token: AccountId, sender_id: AccountId, amount: u128, transferred: bool)
        -> (r: Result<Option<MtMintEvent>, DefuseError>)
        requires
            old(self).wf(),
            sender_id.valid(),
        ensures
            final(self).wf(),
            crate::replay::nonces_kept(old(self)@, final(self)@),
            transferred ==> r == Ok::<Option<MtMintEvent>, DefuseError>(None) && final(self)@ == old(self)@,
            !transferred ==> deposit_outcome(old(self)@, sender_id@, seq![(nep141(token@), amount)], final(self)@, err_of(r))
                && (r matches Ok(ev) ==> ev matches Some(e) && mint_event_matches(e, sender_id@, seq![(nep141(token@), amount)], refund_memo_view())),
            old(self).supply_consistent() ==> final(self).supply_consistent(),
    {
        broadcast use crate::replay::group_nonces_kept;
        let mut tokens: Vec<(TokenId, u128)> = Vec::new();
        tokens.push((TokenId::Nep141(token), amount));
        proof {
            assert(tokens_view(tokens@) =~= seq![(nep141(token@), amount)]);
        }
        self.resolve_withdraw(sender_id, tokens, transferred)
    }

    /// Resolves a fungible withdrawal by what the token contract reports as
    /// transferred (`used`: all or nothing for `ft_transfer`, the returned
    /// amount for `ft_transfer_call`): at most `amount` counts as used, and
    /// the rest goes back to `sender_id`. Returns what was used and the
    /// refund's mint event (`None` where nothing went back).
    pub fn ft_resolve_withdraw_used(&mut self, token: AccountId, sender_id: AccountId, amount: u128, used: u128)
        -> (r: (u128, Result<Option<MtMintEvent>, DefuseError>))
        requires
            old(self).wf(),
            sender_id.valid(),
        ensures
            final(self).wf(),
            crate::replay::nonces_kept(old(self)@, final(self)@),
            r.0 == (if used < amount { used } else { amount }),
            r.0 == amount ==> r.1 == Ok::<Option<MtMintEvent>, DefuseError>(None) && final(self)@ == old(self)@,
            r.0 < amount ==> deposit_outcome(old(self)@, sender_id@, seq![(nep141(token@), (amount - r.0) as u128)], final(self)@, err_of(r.1))
                && (r.1 matches Ok(ev) ==> ev matches Some(e)
                && mint_event_matches(e, sender_id@, seq![(nep141(token@), (amount - r.0) as u128)], refund_memo_view())),
            old(self).supply_consistent() ==> final(self).supply_consistent(),
    {
        broadcast use crate::replay::group_nonces_kept;
        let used = if used < amount { used } else { amount };
        let refund = amount - used;
        if refund == 0 {
            return (used, Ok(None));
        }
        let r = self.ft_resolve_withdraw(token, sender_id, refund, false);
        (used, r)
    }

    /// Resolves a fungible withdrawal made with `ft_transfer` or, where
    /// `is_call`, `ft_transfer_call`, by the token contract's answer
    /// (`None` where the call failed): what was used (`spec_ft_used`) is
    /// returned, and the rest goes back to `sender_id`. A refund that does
    /// not fit is dropped, leaving no event.
    pub fn ft_resolve_withdraw_call(
        &mut self,
        token: AccountId,
        sender_id: AccountId,
        amount: u128,
        is_call: bool,
        result: Option<Vec<u8>>,
    ) -> (r: (u128, Option<MtMintEvent>))
        requires
            old(self).wf(),
            sender_id.valid(),
        ensures
            final(self).wf(),
            crate::replay::nonces_kept(old(self)@, final(self)@),
            r.0 == spec_ft_used(amount, is_call, answer_view(result)),
            r.0 == amount ==> r.1 is None && final(self)@ == old(self)@,
            r.0 < amount && r.1 is Some ==> deposit_outcome(old(self)@, sender_id@,
                seq![(nep141(token@), (amount - r.0) as u128)], final(self)@, None)
                && mint_event_matches(r.1->0, sender_id@, seq![(nep141(token@), (amount - r.0) as u128)], refund_memo_view()),
            r.0 < amount && r.1 is None ==> exists|e: DefuseError| deposit_outcome(old(self)@, sender_id@,
                seq![(nep141(token@), (amount - r.0) as u128)], final(self)@, Some(e)),
            old(self).supply_consistent() ==> final(self).supply_consistent(),
    {
        broadcast use crate::replay::group_nonces_kept;
        let used = ft_withdraw_used(amount, is_call, result);
        let (used, refund) = self.ft_resolve_withdraw_used(token, sender_id, amount, used);
        match refund {
            Ok(ev) => (used, ev),
            Err(_) => (used, None),
        }
    }

    /// Resolves a non-fungible withdrawal; see `resolve_withdraw`.
    pub fn nft_resolve_withdraw(&mut self, token: AccountId, sender_id: AccountId, token_id: String, transferred: bool)
        -> (r: Result<Option<MtMintEvent>, DefuseError>)
        requires
            old(self).wf(),
            sender_id.valid(),
        ensures
            final(self).wf(),
            crate::replay::nonces_kept(old(self)@, final(self)@),
            transferred ==> r == Ok::<Option<MtMintEvent>, DefuseError>(None) && final(self)@ == old(self)@,
            !transferred ==> deposit_outcome(old(self)@, sender_id@,
                seq![((TokenStandard::Nep171, token@, token_id@), 1u128)], final(self)@, err_of(r))
                && (r matches Ok(ev) ==> ev matches Some(e) && mint_event_matches(e, sender_id@,
                seq![((TokenStandard::Nep171, token@, token_id@), 1u128)], refund_memo_view())),
            old(self).supply_consistent() ==> final(self).supply_consistent(),
    {
        broadcast use crate::replay::group_nonces_kept;
        let mut tokens: Vec<(TokenId, u128)> = Vec::new();
        let ghost tid = token_id@;
        tokens.push((TokenId::Nep171(token, token_id), 1));
        proof {
            assert(tokens_view(tokens@) =~= seq![((TokenStandard::Nep171, token@, tid), 1u128)]);
        }
        self.resolve_withdraw(sender_id, tokens, transferred)
    }

    /// Resolves a multi-token withdrawal; see `resolve_withdraw`.
    pub fn mt_resolve_withdraw(
        &mut self,
        token: AccountId,
        sender_id: AccountId,
        token_ids: Vec<String>,
        amounts: Vec<u128>,
        transferred: bool,
    ) -> (r: Result<Option<MtMintEvent>, DefuseError>)
        requires
            old(self).wf(),
            sender_id.valid(),
            token_ids@.len() == amounts@.len(),
            amounts@.len() > 0,
        ensures
            final(self).wf(),
            crate::replay::nonces_kept(old(self)@, final(self)@),
            transferred ==> r == Ok::<Option<MtMintEvent>, DefuseError>(None) && final(self)@ == old(self)@,
            !transferred ==> deposit_outcome(old(self)@, sender_id@, mt_tokens(token@, token_ids@, amounts@),
                final(self)@, err_of(r)) && (r matches Ok(ev) ==> ev matches Some(e)
                && mint_event_matches(e, sender_id@, mt_tokens(token@, token_ids@, amounts@), refund_memo_view())),
            old(self).supply_consistent() ==> final(self).supply_consistent(),
    {
        broadcast use crate::replay::group_nonces_kept;
        let mut tokens: Vec<(TokenId, u128)> = Vec::new();
        let n = token_ids.len();
        let mut i: usize = 0;
        while i < n
            invariant
                n == token_ids@.len(),
                n == amounts@.len(),
                i <= n,
                tokens_view(tokens@) == mt_tokens(token@, token_ids@, amounts@).take(i as int),
            decreases n - i,
        {
            let ghost before = tokens@;
            tokens.push((TokenId::Nep245(token.clone(), token_ids[i].clone()), amounts[i]));
            proof {
                assert(tokens_view(tokens@) =~= tokens_view(before).push(mt_tokens(token@, token_ids@, amounts@)[i as int]));
                assert(mt_tokens(token@, token_ids@, amounts@).take(i + 1)
                    =~= mt_tokens(token@, token_ids@, amounts@).take(i as int).push(mt_tokens(token@, token_ids@, amounts@)[i as int]));
            }
            i = i + 1;
        }
        proof {
            assert(mt_tokens(token@, token_ids@, amounts@).take(n as int) =~= mt_tokens(token@, token_ids@, amounts@));
        }
        self.resolve_withdraw(sender_id, tokens, transferred)
    }
}

/// A fungible withdrawal without storage deposit whose transfer failed,
/// once resolved, leaves the accounts and the total supplies as they were.
pub proof fn lemma_failed_ft_withdraw_restores(c: ContractView, owner: Seq<char>, w: FtWithdraw)
    requires
        no_zero_amounts(c.total_supplies),
        no_zero_amounts(balances_of(c.accounts, owner)),
        w.storage_deposit is None,
        spec_withdraw_result(c, owner, ft_withdraw_tokens(w, c.wnear_id), withdraw_memo_view()).1 is None,
    ensures
        ({
            let after = spec_withdraw_result(c, owner, ft_withdraw_tokens(w, c.wnear_id), withdraw_memo_view()).0;
            let back = spec_deposit_result(after, owner, seq![(nep141(w.token@), w.amount)]);
            &&& back.1 is None
            &&& back.0.accounts == c.accounts
            &&& back.0.total_supplies == c.total_supplies
        }),
{
    lemma_deposit_undoes_withdraw(c, owner, ft_withdraw_tokens(w, c.wnear_id), withdraw_memo_view());
}

/// A non-fungible withdrawal without storage deposit whose transfer
/// failed, once resolved, leaves the accounts and the total supplies as
/// they were.
pub proof fn lemma_failed_nft_withdraw_restores(c: ContractView, owner: Seq<char>, w: NftWithdraw)
    requires
        no_zero_amounts(c.total_supplies),
        no_zero_amounts(balances_of(c.accounts, owner)),
        w.storage_deposit is None,
        spec_withdraw_result(c, owner, nft_withdraw_tokens(w, c.wnear_id), withdraw_memo_view()).1 is None,
    ensures
        ({
            let after = spec_withdraw_result(c, owner, nft_withdraw_tokens(w, c.wnear_id), withdraw_memo_view()).0;
            let back = spec_deposit_result(after, owner, seq![((TokenStandard::Nep171, w.token@, w.token_id@), 1u128)]);
            &&& back.1 is None
            &&& back.0.accounts == c.accounts
            &&& back.0.total_supplies == c.total_supplies
        }),
{
    lemma_deposit_undoes_withdraw(c, owner, nft_withdraw_tokens(w, c.wnear_id), withdraw_memo_view());
}

/// A multi-token withdrawal without storage deposit whose transfer failed,
/// once resolved, leaves the accounts and the total supplies as they were.
pub proof fn lemma_failed_mt_withdraw_restores(c: ContractView, owner: Seq<char>, w: MtWithdraw)
    requires
        no_zero_amounts(c.total_supplies),
        no_zero_amounts(balances_of(c.accounts, owner)),
        w.storage_deposit is None,
        spec_withdraw_result(c, owner, mt_withdraw_tokens(w, c.wnear_id), withdraw_memo_view()).1 is None,
    ensures
        ({
            let after = spec_withdraw_result(c, owner, mt_withdraw_tokens(w, c.wnear_id), withdraw_memo_view()).0;
            let back = spec_deposit_result(after, owner, mt_tokens(w.token@, w.token_ids@, w.amounts@));
            &&& back.1 is None
            &&& back.0.accounts == c.accounts
            &&& back.0.total_supplies == c.total_supplies
        }),
{
    lemma_deposit_undoes_withdraw(c, owner, mt_withdraw_tokens(w, c.wnear_id), withdraw_memo_view());
}

} // verus!
