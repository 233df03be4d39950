//! The calls that the contract makes after a withdrawal or a transfer call,
//! as values: where each goes, the method with its arguments, the NEAR
//! attached and the gas. The caller only turns them into promises.

use vstd::prelude::*;

use crate::account_id::AccountId;
use crate::events::{opt_string_view, strings_view};
use crate::gas::{
    do_mt_withdraw_gas, mt_batch_transfer_gas, mt_resolve_withdraw_gas, sat, DO_FT_WITHDRAW_GAS, DO_NFT_WITHDRAW_GAS,
    FT_TRANSFER_GAS, GGAS, NEAR_WITHDRAW_GAS, NFT_TRANSFER_GAS, RESOLVE_WITHDRAW_GAS, STORAGE_DEPOSIT_GAS, TGAS,
};
use crate::multi_token::TransferCallPlan;
use crate::withdraw::{FtWithdraw, MtWithdraw, NftWithdraw};

verus! {

/// Where a call goes.
#[derive(Debug)]
pub enum CallTarget {
    /// This contract itself.
    Current,
    /// Another account.
    Account(AccountId),
}

/// A method with its arguments.
#[derive(Debug)]
pub enum CallMethod {
    /// `near_withdraw(amount)` of the wNEAR contract.
    NearWithdraw { amount: u128 },
    /// `storage_deposit(account_id)` of a token contract.
    StorageDeposit { account_id: AccountId },
    /// NEP-141 `ft_transfer(receiver_id, amount, memo)`.
    FtTransfer { receiver_id: AccountId, amount: u128, memo: Option<String> },
    /// NEP-171 `nft_transfer(receiver_id, token_id, memo)`.
    NftTransfer { receiver_id: AccountId, token_id: String, memo: Option<String> },
    /// NEP-245 `mt_batch_transfer(receiver_id, token_ids, amounts, memo)`.
    MtBatchTransfer { receiver_id: AccountId, token_ids: Vec<String>, amounts: Vec<u128>, memo: Option<String> },
    /// `ft_resolve_withdraw(token, sender_id, amount)` of this contract.
    FtResolveWithdraw { token: AccountId, sender_id: AccountId, amount: u128 },
    /// `nft_resolve_withdraw(token, sender_id, token_id)` of this contract.
    NftResolveWithdraw { token: AccountId, sender_id: AccountId, token_id: String },
    /// `mt_resolve_withdraw(token, sender_id, token_ids, amounts)` of this
    /// contract.
    MtResolveWithdraw { token: AccountId, sender_id: AccountId, token_ids: Vec<String>, amounts: Vec<u128> },
    /// NEP-245 `mt_on_transfer(sender_id, previous_owner_ids, token_ids,
    /// amounts, msg)` of a receiver.
    MtOnTransfer {
        sender_id: AccountId,
        previous_owner_ids: Vec<AccountId>,
        token_ids: Vec<String>,
        amounts: Vec<u128>,
        msg: String,
    },
    /// `mt_resolve_transfer(previous_owner_ids, receiver_id, token_ids,
    /// amounts)` of this contract, without approvals.
    MtResolveTransfer { previous_owner_ids: Vec<AccountId>, receiver_id: AccountId, token_ids: Vec<String>, amounts: Vec<u128> },
}

/// A call: its target and method, the yoctoNEAR attached, and its gas
/// (`None`: a share of the gas that is left).
#[derive(Debug)]
pub struct Call {
    pub target: CallTarget,
    pub method: CallMethod,
    pub deposit: u128,
    pub gas: Option<u64>,
}

/// A method with its arguments, as values.
pub enum CallMethodView {
    NearWithdraw(u128),
    StorageDeposit(Seq<char>),
    FtTransfer(Seq<char>, u128, Option<Seq<char>>),
    NftTransfer(Seq<char>, Seq<char>, Option<Seq<char>>),
    MtBatchTransfer(Seq<char>, Seq<Seq<char>>, Seq<u128>, Option<Seq<char>>),
    FtResolveWithdraw(Seq<char>, Seq<char>, u128),
    NftResolveWithdraw(Seq<char>, Seq<char>, Seq<char>),
    MtResolveWithdraw(Seq<char>, Seq<char>, Seq<Seq<char>>, Seq<u128>),
    MtOnTransfer(Seq<char>, Seq<Seq<char>>, Seq<Seq<char>>, Seq<u128>, Seq<char>),
    MtResolveTransfer(Seq<Seq<char>>, Seq<char>, Seq<Seq<char>>, Seq<u128>),
}

/// A call as a value: the target (`None` for this contract), the method,
/// the deposit and the gas.
pub type CallView = (Option<Seq<char>>, CallMethodView, u128, Option<u64>);

/// Account ids as values.
pub open spec fn ids_view(s: Seq<AccountId>) -> Seq<Seq<char>> {
    s.map_values(|a: AccountId| a@)
}

impl View for CallTarget {
    type V = Option<Seq<char>>;

    open spec fn view(&self) -> Option<Seq<char>> {
        match self {
            CallTarget::Current => None,
            CallTarget::Account(a) => Some(a@),
        }
    }
}

impl View for CallMethod {
    type V = CallMethodView;

    open spec fn view(&self) -> CallMethodView {
        match self {
            CallMethod::NearWithdraw { amount } => CallMethodView::NearWithdraw(*amount),
            CallMethod::StorageDeposit { account_id } => CallMethodView::StorageDeposit(account_id@),
            CallMethod::FtTransfer { receiver_id, amount, memo } =>
                CallMethodView::FtTransfer(receiver_id@, *amount, opt_string_view(*memo)),
            CallMethod::NftTransfer { receiver_id, token_id, memo } =>
                CallMethodView::NftTransfer(receiver_id@, token_id@, opt_string_view(*memo)),
            CallMethod::MtBatchTransfer { receiver_id, token_ids, amounts, memo } =>
                CallMethodView::MtBatchTransfer(receiver_id@, strings_view(token_ids@), amounts@, opt_string_view(*memo)),
            CallMethod::FtResolveWithdraw { token, sender_id, amount } =>
                CallMethodView::FtResolveWithdraw(token@, sender_id@, *amount),
            CallMethod::NftResolveWithdraw { token, sender_id, token_id } =>
                CallMethodView::NftResolveWithdraw(token@, sender_id@, token_id@),
            CallMethod::MtResolveWithdraw { token, sender_id, token_ids, amounts } =>
                CallMethodView::MtResolveWithdraw(token@, sender_id@, strings_view(token_ids@), amounts@),
            CallMethod::MtOnTransfer { sender_id, previous_owner_ids, token_ids, amounts, msg } =>
                CallMethodView::MtOnTransfer(sender_id@, ids_view(previous_owner_ids@), strings_view(token_ids@), amounts@, msg@),
            CallMethod::MtResolveTransfer { previous_owner_ids, receiver_id, token_ids, amounts } =>
                CallMethodView::MtResolveTransfer(ids_view(previous_owner_ids@), receiver_id@, strings_view(token_ids@), amounts@),
        }
    }
}

impl View for Call {
    type V = CallView;

    open spec fn view(&self) -> CallView {
        (self.target@, self.method@, self.deposit, self.gas)
    }
}

/// The calls of a withdrawal, in order.
#[derive(Debug)]
pub struct WithdrawCalls {
    /// Where there is a storage deposit: first unwrapping it from wNEAR,
    /// and the gas of this contract's callback that then makes `transfer`,
    /// only where the unwrapping succeeded (see `transfer_may_follow`).
    pub unwrap: Option<(Call, u64)>,
    /// The storage deposit for the receiver where there is one, then the
    /// transfer; each after the one before.
    pub transfer: Vec<Call>,
    /// Resolving the withdrawal on this contract, after the transfer.
    pub resolve: Call,
}

/// The calls of a withdrawal as values.
pub struct WithdrawCallsView {
    pub unwrap: Option<(CallView, u64)>,
    pub transfer: Seq<CallView>,
    pub resolve: CallView,
}

impl View for WithdrawCalls {
    type V = WithdrawCallsView;

    open spec fn view(&self) -> WithdrawCallsView {
        WithdrawCallsView {
            unwrap: match self.unwrap {
                Some(u) => Some((u.0@, u.1)),
                None => None,
            },
            transfer: self.transfer@.map_values(|c: Call| c@),
            resolve: self.resolve@,
        }
    }
}

/// Unwrapping `amount` of wNEAR: 1 yoctoNEAR attached.
pub open spec fn unwrap_call(wnear: Seq<char>, amount: u128) -> CallView {
    (Some(wnear), CallMethodView::NearWithdraw(amount), 1, Some(NEAR_WITHDRAW_GAS))
}

/// The unwrapping of a storage deposit, with the gas of the callback that
/// continues, where there is a storage deposit.
pub open spec fn unwrap_step(wnear: Seq<char>, storage_deposit: Option<u128>, callback_gas: u64) -> Option<(CallView, u64)> {
    match storage_deposit {
        Some(d) => Some((unwrap_call(wnear, d), callback_gas)),
        None => None,
    }
}

/// `transfer`, preceded by a storage deposit of `storage_deposit` for
/// `receiver` on `token` where there is one.
pub open spec fn after_storage_deposit(
    token: Seq<char>,
    receiver: Seq<char>,
    storage_deposit: Option<u128>,
    transfer: CallView,
) -> Seq<CallView> {
    match storage_deposit {
        Some(d) => seq![(Some(token), CallMethodView::StorageDeposit(receiver), d, Some(STORAGE_DEPOSIT_GAS)), transfer],
        None => seq![transfer],
    }
}

/// The calls of a fungible withdrawal by `owner`: `ft_transfer` with one
/// yoctoNEAR, then `ft_resolve_withdraw`.
pub open spec fn spec_ft_withdraw_calls(wnear: Seq<char>, owner: Seq<char>, w: FtWithdraw) -> WithdrawCallsView {
    WithdrawCallsView {
        unwrap: unwrap_step(wnear, w.storage_deposit, DO_FT_WITHDRAW_GAS),
        transfer: after_storage_deposit(w.token@, w.receiver_id@, w.storage_deposit,
            (Some(w.token@), CallMethodView::FtTransfer(w.receiver_id@, w.amount, opt_string_view(w.memo)), 1, Some(FT_TRANSFER_GAS))),
        resolve: (None, CallMethodView::FtResolveWithdraw(w.token@, owner, w.amount), 0, Some(RESOLVE_WITHDRAW_GAS)),
    }
}

/// The calls of a non-fungible withdrawal by `owner`: `nft_transfer` with
/// one yoctoNEAR, then `nft_resolve_withdraw`.
pub open spec fn spec_nft_withdraw_calls(wnear: Seq<char>, owner: Seq<char>, w: NftWithdraw) -> WithdrawCallsView {
    WithdrawCallsView {
        unwrap: unwrap_step(wnear, w.storage_deposit, DO_NFT_WITHDRAW_GAS),
        transfer: after_storage_deposit(w.token@, w.receiver_id@, w.storage_deposit,
            (Some(w.token@), CallMethodView::NftTransfer(w.receiver_id@, w.token_id@, opt_string_view(w.memo)), 1, Some(NFT_TRANSFER_GAS))),
        resolve: (None, CallMethodView::NftResolveWithdraw(w.token@, owner, w.token_id@), 0, Some(RESOLVE_WITHDRAW_GAS)),
    }
}

/// The calls of a multi-token withdrawal by `owner`: `mt_batch_transfer`
/// with one yoctoNEAR, then `mt_resolve_withdraw`, with gas that grows with
/// the number of tokens.
pub open spec fn spec_mt_withdraw_calls(wnear: Seq<char>, owner: Seq<char>, w: MtWithdraw) -> WithdrawCallsView {
    let n = w.token_ids@.len();
    let ids = strings_view(w.token_ids@);
    WithdrawCallsView {
        unwrap: unwrap_step(wnear, w.storage_deposit,
            sat(sat(sat(TGAS + sat(500 * GGAS * n)) + STORAGE_DEPOSIT_GAS) + sat(15 * TGAS + sat(500 * GGAS * n))) as u64),
        transfer: after_storage_deposit(w.token@, w.receiver_id@, w.storage_deposit,
            (Some(w.token@), CallMethodView::MtBatchTransfer(w.receiver_id@, ids, w.amounts@, opt_string_view(w.memo)), 1,
            Some(sat(15 * TGAS + sat(500 * GGAS * n)) as u64))),
        resolve: (None, CallMethodView::MtResolveWithdraw(w.token@, owner, ids, w.amounts@), 0,
            Some(sat(5 * TGAS + sat(500 * GGAS * n)) as u64)),
    }
}

fn copy_strings(v: &Vec<String>) -> (r: Vec<String>)
    ensures
        strings_view(r@) == strings_view(v@),
{
    let mut r: Vec<String> = Vec::new();
    let mut i: usize = 0;
    while i < v.len()
        invariant
            i <= v@.len(),
            strings_view(r@) == strings_view(v@).take(i as int),
        decreases v@.len() - i,
    {
        let ghost before = r@;
        r.push(v[i].clone());
        proof {
            assert(strings_view(r@) =~= strings_view(before).push(v@[i as int]@));
            assert(strings_view(v@).take(i + 1) =~= strings_view(v@).take(i as int).push(v@[i as int]@));
        }
        i = i + 1;
    }
    proof {
        assert(strings_view(v@).take(v@.len() as int) =~= strings_view(v@));
    }
    r
}

fn copy_amounts(v: &Vec<u128>) -> (r: Vec<u128>)
    ensures
        r@ == v@,
{
    let mut r: Vec<u128> = Vec::new();
    let mut i: usize = 0;
    while i < v.len()
        invariant
            i <= v@.len(),
            r@ == v@.take(i as int),
        decreases v@.len() - i,
    {
        r.push(v[i]);
        proof {
            assert(v@.take(i + 1) =~= v@.take(i as int).push(v@[i as int]));
        }
        i = i + 1;
    }
    proof {
        assert(v@.take(v@.len() as int) =~= v@);
    }
    r
}

fn copy_ids(v: &Vec<AccountId>) -> (r: Vec<AccountId>)
    ensures
        ids_view(r@) == ids_view(v@),
{
    let mut r: Vec<AccountId> = Vec::new();
    let mut i: usize = 0;
    while i < v.len()
        invariant
            i <= v@.len(),
            ids_view(r@) == ids_view(v@).take(i as int),
        decreases v@.len() - i,
    {
        let ghost before = r@;
        r.push(v[i].clone());
        proof {
            assert(ids_view(r@) =~= ids_view(before).push(v@[i as int]@));
            assert(ids_view(v@).take(i + 1) =~= ids_view(v@).take(i as int).push(v@[i as int]@));
        }
        i = i + 1;
    }
    proof {
        assert(ids_view(v@).take(v@.len() as int) =~= ids_view(v@));
    }
    r
}

/// The transfer of a withdrawal, preceded by its storage deposit.
fn with_storage_deposit_call(token: &AccountId, receiver_id: &AccountId, storage_deposit: Option<u128>, transfer: Call) -> (r: Vec<Call>)
    ensures
        r@.map_values(|c: Call| c@) == after_storage_deposit(token@, receiver_id@, storage_deposit, transfer@),
{
    let mut r: Vec<Call> = Vec::new();
    let ghost t = transfer@;
    match storage_deposit {
        Some(d) => {
            r.push(Call {
                target: CallTarget::Account(token.clone()),
                method: CallMethod::StorageDeposit { account_id: receiver_id.clone() },
                deposit: d,
                gas: Some(STORAGE_DEPOSIT_GAS),
            });
        },
        None => {},
    }
    r.push(transfer);
    proof {
        assert(r@.map_values(|c: Call| c@) =~= after_storage_deposit(token@, receiver_id@, storage_deposit, t));
    }
    r
}

fn unwrap_of(wnear_id: &AccountId, storage_deposit: Option<u128>, callback_gas: u64) -> (r: Option<(Call, u64)>)
    ensures
        (match r {
            Some(u) => Some((u.0@, u.1)),
            None => None,
        }) == unwrap_step(wnear_id@, storage_deposit, callback_gas),
{
    match storage_deposit {
        Some(d) => Some((
            Call {
                target: CallTarget::Account(wnear_id.clone()),
                method: CallMethod::NearWithdraw { amount: d },
                deposit: 1,
                gas: Some(NEAR_WITHDRAW_GAS),
            },
            callback_gas,
        )),
        None => None,
    }
}

/// The calls of a fungible withdrawal of `owner_id`.
pub fn ft_withdraw_calls(wnear_id: &AccountId, owner_id: &AccountId, w: &FtWithdraw) -> (c: WithdrawCalls)
    ensures
        c@ == spec_ft_withdraw_calls(wnear_id@, owner_id@, *w),
{
    let transfer = Call {
        target: CallTarget::Account(w.token.clone()),
        method: CallMethod::FtTransfer { receiver_id: w.receiver_id.clone(), amount: w.amount, memo: w.memo.clone() },
        deposit: 1,
        gas: Some(FT_TRANSFER_GAS),
    };
    let resolve = Call {
        target: CallTarget::Current,
        method: CallMethod::FtResolveWithdraw { token: w.token.clone(), sender_id: owner_id.clone(), amount: w.amount },
        deposit: 0,
        gas: Some(RESOLVE_WITHDRAW_GAS),
    };
    WithdrawCalls {
        unwrap: unwrap_of(wnear_id, w.storage_deposit, DO_FT_WITHDRAW_GAS),
        transfer: with_storage_deposit_call(&w.token, &w.receiver_id, w.storage_deposit, transfer),
        resolve,
    }
}

/// The calls of a non-fungible withdrawal of `owner_id`.
pub fn nft_withdraw_calls(wnear_id: &AccountId, owner_id: &AccountId, w: &NftWithdraw) -> (c: WithdrawCalls)
    ensures
        c@ == spec_nft_withdraw_calls(wnear_id@, owner_id@, *w),
{
    let transfer = Call {
        target: CallTarget::Account(w.token.clone()),
        method: CallMethod::NftTransfer { receiver_id: w.receiver_id.clone(), token_id: w.token_id.clone(), memo: w.memo.clone() },
        deposit: 1,
        gas: Some(NFT_TRANSFER_GAS),
    };
    let resolve = Call {
        target: CallTarget::Current,
        method: CallMethod::NftResolveWithdraw { token: w.token.clone(), sender_id: owner_id.clone(), token_id: w.token_id.clone() },
        deposit: 0,
        gas: Some(RESOLVE_WITHDRAW_GAS),
    };
    WithdrawCalls {
        unwrap: unwrap_of(wnear_id, w.storage_deposit, DO_NFT_WITHDRAW_GAS),
        transfer: with_storage_deposit_call(&w.token, &w.receiver_id, w.storage_deposit, transfer),
        resolve,
    }
}

/// The calls of a multi-token withdrawal of `owner_id`.
pub fn mt_withdraw_calls(wnear_id: &AccountId, owner_id: &AccountId, w: &MtWithdraw) -> (c: WithdrawCalls)
    requires
        w.token_ids@.len() <= u64::MAX,
    ensures
        c@ == spec_mt_withdraw_calls(wnear_id@, owner_id@, *w),
{
    let count = w.token_ids.len() as u64;
    let transfer = Call {
        target: CallTarget::Account(w.token.clone()),
        method: CallMethod::MtBatchTransfer {
            receiver_id: w.receiver_id.clone(),
            token_ids: copy_strings(&w.token_ids),
            amounts: copy_amounts(&w.amounts),
            memo: w.memo.clone(),
        },
        deposit: 1,
        gas: Some(mt_batch_transfer_gas(count)),
    };
    let resolve = Call {
        target: CallTarget::Current,
        method: CallMethod::MtResolveWithdraw {
            token: w.token.clone(),
            sender_id: owner_id.clone(),
            token_ids: copy_strings(&w.token_ids),
            amounts: copy_amounts(&w.amounts),
        },
        deposit: 0,
        gas: Some(mt_resolve_withdraw_gas(count)),
    };
    WithdrawCalls {
        unwrap: unwrap_of(wnear_id, w.storage_deposit, do_mt_withdraw_gas(count)),
        transfer: with_storage_deposit_call(&w.token, &w.receiver_id, w.storage_deposit, transfer),
        resolve,
    }
}

/// Whether the callback after unwrapping a storage deposit goes on with
/// the transfer: only where there was nothing to unwrap or the unwrapping
/// succeeded with an empty result; otherwise the callback fails.
pub fn transfer_may_follow(storage_deposit: Option<u128>, unwrap_succeeded: bool) -> (b: bool)
    ensures
        b == (storage_deposit is None || unwrap_succeeded),
{
    match storage_deposit {
        None => true,
        Some(_) => unwrap_succeeded,
    }
}

/// The calls of a transfer call of `sender_id` that moved `amounts` of
/// `token_ids` to `receiver_id`: `mt_on_transfer` on the receiver with the
/// previous owners and `msg`, then `mt_resolve_transfer` on this contract,
/// as `plan` says.
pub fn transfer_call_calls(
    sender_id: &AccountId,
    receiver_id: &AccountId,
    token_ids: &Vec<String>,
    amounts: &Vec<u128>,
    msg: String,
    plan: &TransferCallPlan,
) -> (r: (Call, Call))
    ensures
        r.0@ == (Some(receiver_id@), CallMethodView::MtOnTransfer(sender_id@, ids_view(plan.previous_owner_ids@),
            strings_view(token_ids@), amounts@, msg@), 0u128, plan.on_transfer_gas),
        r.1@ == (None::<Seq<char>>, CallMethodView::MtResolveTransfer(ids_view(plan.previous_owner_ids@), receiver_id@,
            strings_view(token_ids@), amounts@), 0u128, Some(plan.resolve_gas)),
{
    let on_transfer = Call {
        target: CallTarget::Account(receiver_id.clone()),
        method: CallMethod::MtOnTransfer {
            sender_id: sender_id.clone(),
            previous_owner_ids: copy_ids(&plan.previous_owner_ids),
            token_ids: copy_strings(token_ids),
            amounts: copy_amounts(amounts),
            msg,
        },
        deposit: 0,
        gas: plan.on_transfer_gas,
    };
    let resolve = Call {
        target: CallTarget::Current,
        method: CallMethod::MtResolveTransfer {
            previous_owner_ids: copy_ids(&plan.previous_owner_ids),
            receiver_id: receiver_id.clone(),
            token_ids: copy_strings(token_ids),
            amounts: copy_amounts(amounts),
        },
        deposit: 0,
        gas: Some(plan.resolve_gas),
    };
    (on_transfer, resolve)
}

/// A fungible withdrawal sends the token to its receiver: the last call of
/// the transfer step is `ft_transfer` on the token contract, addressed to
/// `w.receiver_id`, of exactly `w.amount`, with one yoctoNEAR; a storage
/// deposit, where there is one, pays exactly it for the receiver on the
/// token contract first; the resolution credits any refund to the owner.
pub proof fn lemma_ft_withdraw_reaches_receiver(wnear: Seq<char>, owner: Seq<char>, w: FtWithdraw)
    ensures
        ({
            let c = spec_ft_withdraw_calls(wnear, owner, w);
            let last = c.transfer.last();
            &&& c.transfer.len() == (if w.storage_deposit is Some { 2int } else { 1int })
            &&& last.0 == Some(w.token@) && last.2 == 1
            &&& last.1 matches CallMethodView::FtTransfer(r, a, _) && r == w.receiver_id@ && a == w.amount
            &&& (w.storage_deposit matches Some(d) ==> (c.transfer[0].0 == Some(w.token@) && c.transfer[0].2 == d
                && (c.transfer[0].1 matches CallMethodView::StorageDeposit(x) && x == w.receiver_id@)))
            &&& c.resolve.0 is None
            &&& c.resolve.1 matches CallMethodView::FtResolveWithdraw(tok, sender, a) && tok == w.token@ && sender == owner
                && a == w.amount
        }),
{
}

/// A non-fungible withdrawal sends the token to its receiver: the last call
/// of the transfer step is `nft_transfer` on the token contract, addressed
/// to `w.receiver_id`, of exactly `w.token_id`, with one yoctoNEAR; a
/// storage deposit, where there is one, pays exactly it for the receiver
/// first; the resolution returns the token to the owner.
pub proof fn lemma_nft_withdraw_reaches_receiver(wnear: Seq<char>, owner: Seq<char>, w: NftWithdraw)
    ensures
        ({
            let c = spec_nft_withdraw_calls(wnear, owner, w);
            let last = c.transfer.last();
            &&& c.transfer.len() == (if w.storage_deposit is Some { 2int } else { 1int })
            &&& last.0 == Some(w.token@) && last.2 == 1
            &&& last.1 matches CallMethodView::NftTransfer(r, id, _) && r == w.receiver_id@ && id == w.token_id@
            &&& (w.storage_deposit matches Some(d) ==> (c.transfer[0].0 == Some(w.token@) && c.transfer[0].2 == d
                && (c.transfer[0].1 matches CallMethodView::StorageDeposit(x) && x == w.receiver_id@)))
            &&& c.resolve.0 is None
            &&& c.resolve.1 matches CallMethodView::NftResolveWithdraw(tok, sender, id) && tok == w.token@ && sender == owner
                && id == w.token_id@
        }),
{
}

/// A multi-token withdrawal sends the tokens to its receiver: the last call
/// of the transfer step is `mt_batch_transfer` on the token contract,
/// addressed to `w.receiver_id`, of exactly `w.token_ids` and `w.amounts`,
/// with one yoctoNEAR; the resolution returns them to the owner.
pub proof fn lemma_mt_withdraw_reaches_receiver(wnear: Seq<char>, owner: Seq<char>, w: MtWithdraw)
    ensures
        ({
            let c = spec_mt_withdraw_calls(wnear, owner, w);
            let last = c.transfer.last();
            &&& c.transfer.len() == (if w.storage_deposit is Some { 2int } else { 1int })
            &&& last.0 == Some(w.token@) && last.2 == 1
            &&& last.1 matches CallMethodView::MtBatchTransfer(r, ids, amounts, _) && r == w.receiver_id@
                && ids == strings_view(w.token_ids@) && amounts == w.amounts@
            &&& (w.storage_deposit matches Some(d) ==> (c.transfer[0].0 == Some(w.token@) && c.transfer[0].2 == d
                && (c.transfer[0].1 matches CallMethodView::StorageDeposit(x) && x == w.receiver_id@)))
            &&& c.resolve.0 is None
            &&& c.resolve.1 matches CallMethodView::MtResolveWithdraw(tok, sender, ids, amounts) && tok == w.token@
                && sender == owner && ids == strings_view(w.token_ids@) && amounts == w.amounts@
        }),
{
}

} // verus!
