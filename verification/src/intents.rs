//! Executing intents that their signers signed: token diffs settled against
//! the fee collector, transfers whose deposits wait for the end of the
//! batch, key and nonce changes, and withdrawals.

use vstd::prelude::*;

use crate::account::AccountView;
use crate::account_id::AccountId;
use crate::amounts::{amount_in, with_amount};
use crate::account::spec_has_public_key;
use crate::contract::{
    account_or_fresh, balances_of, err_of, spec_commit_nonces, spec_fresh_has_key, spec_key_added, spec_key_removed,
    spec_withdraw_result, with_balances, Contract, ContractView,
};
use crate::crypto::PublicKey;
use crate::gas::{sat, DO_FT_WITHDRAW_GAS, DO_NFT_WITHDRAW_GAS, GGAS, RESOLVE_WITHDRAW_GAS, STORAGE_DEPOSIT_GAS, TGAS};
use crate::multi_token::{transfer_call_plan, TransferCallPlan};
use crate::nonces::Nonce;
use crate::withdraw::{
    ft_withdraw_tokens, mt_withdraw_tokens, nft_withdraw_tokens, withdraw_memo_view, FtWithdraw, MtWithdraw,
    NftWithdraw, WithdrawPlan,
};
use crate::errors::DefuseError;
use crate::events::{strings_view, token_diff_memo, transfer_event_view, IntentExecutedEvent, MtTransferEvent};
use crate::fees::{spec_fee_ceil, Pips};
use crate::runtime::{batch_balanced, deliver_fits, deltas_listed, delta_in, postponed_of, with_delta, RuntimeState, RuntimeView};
use crate::token_id::{spec_token_id_string, TokenId, TokenIdView, TokenStandard};

verus! {

/// A change of the signer's balances, settled against the fee collector.
#[derive(Debug)]
pub struct TokenDiff {
    pub diff: Vec<(TokenId, i128)>,
}

/// A transfer of tokens from the signer to `receiver_id`.
#[derive(Debug)]
pub struct MtBatchTransfer {
    pub receiver_id: AccountId,
    pub token_ids: Vec<TokenId>,
    pub amounts: Vec<u128>,
    pub memo: Option<String>,
}

/// A transfer of tokens from the signer that calls `mt_on_transfer` on the
/// receiver with `msg`.
#[derive(Debug)]
pub struct MtBatchTransferCall {
    pub transfer: MtBatchTransfer,
    pub msg: String,
}

/// What a signer can ask for.
#[derive(Debug)]
pub enum Intent {
    AddPublicKey(PublicKey),
    RemovePublicKey(PublicKey),
    InvalidateNonces(Vec<Nonce>),
    MtBatchTransfer(MtBatchTransfer),
    MtBatchTransferCall(MtBatchTransferCall),
    FtWithdraw(FtWithdraw),
    NftWithdraw(NftWithdraw),
    MtWithdraw(MtWithdraw),
    TokenDiff(TokenDiff),
}

/// What an executed intent leaves for the caller to do or to log.
#[derive(Debug)]
pub enum IntentOutcome {
    /// Nothing.
    Done,
    /// Log this transfer.
    Transfer(MtTransferEvent),
    /// Log this transfer and call `mt_on_transfer` on the receiver with the
    /// message, as the plan says.
    TransferCall(MtTransferEvent, TransferCallPlan, String),
    /// Make the calls of this withdrawal.
    Withdraw(WithdrawPlan),
    /// Log these transfers.
    TokenDiff(Vec<MtTransferEvent>),
}

/// The magnitude of `d`.
pub open spec fn magnitude(d: i128) -> nat {
    if d < 0 {
        (-d) as nat
    } else {
        d as nat
    }
}

/// The fee rate that a change of `amount` in `t` pays: none for NEP-171
/// tokens, nor for NEP-245 tokens where at most one moves.
pub open spec fn spec_token_fee(t: TokenIdView, amount: nat, fee: u32) -> u32 {
    if t.0 == TokenStandard::Nep141 || (t.0 == TokenStandard::Nep245 && amount > 1) {
        fee
    } else {
        0
    }
}

/// The state that a batch of intents works on: the accounts, the postponed
/// deposits and the changes of total supply.
pub type EngineView = (Map<Seq<char>, AccountView>, Map<Seq<char>, Map<TokenIdView, u128>>, Map<TokenIdView, i128>);

/// One entry of a token diff: the signer's balance moves by `d`, the
/// collector is owed the fee, and the supply of `t` moves by both. Gives the
/// state after it, and the error that stops it.
pub open spec fn spec_diff_step(
    s: EngineView,
    signer: Seq<char>,
    collector: Seq<char>,
    fee: u32,
    t: TokenIdView,
    d: i128,
) -> (EngineView, Option<DefuseError>) {
    let b = balances_of(s.0, signer);
    if !(0 <= amount_in(b, t) + d <= u128::MAX) {
        ((with_balances(s.0, signer, b), s.1, s.2), Some(DefuseError::BalanceOverflow))
    } else {
        let acc = with_balances(s.0, signer, with_amount(b, t, (amount_in(b, t) + d) as u128));
        let f = spec_fee_ceil(magnitude(d), spec_token_fee(t, magnitude(d), fee) as nat);
        let pc = postponed_of(s.1, collector);
        if amount_in(pc, t) + f > u128::MAX {
            ((acc, s.1.insert(collector, pc), s.2), Some(DefuseError::BalanceOverflow))
        } else {
            let p = s.1.insert(collector, with_amount(pc, t, (amount_in(pc, t) + f) as u128));
            if d + f > i128::MAX || !(i128::MIN <= delta_in(s.2, t) + d + f <= i128::MAX) {
                ((acc, p, s.2), Some(DefuseError::BalanceOverflow))
            } else {
                ((acc, p, with_delta(s.2, t, (delta_in(s.2, t) + d + f) as i128)), None)
            }
        }
    }
}

/// No fee is taken on a non-fungible token: an entry of a token diff in a
/// NEP-171 token moves the signer's balance by exactly its delta, owes the
/// collector nothing of it, and changes the token's supply by exactly the
/// delta; no other token's supply change moves.
pub proof fn lemma_no_fee_on_nft(s: EngineView, signer: Seq<char>, collector: Seq<char>, fee: u32, t: TokenIdView, d: i128)
    requires
        t.0 == TokenStandard::Nep171,
    ensures
        spec_token_fee(t, magnitude(d), fee) == 0,
        ({
            let r = spec_diff_step(s, signer, collector, fee, t, d);
            r.1 is None ==> {
                &&& amount_in(postponed_of(r.0.1, collector), t) == amount_in(postponed_of(s.1, collector), t)
                &&& delta_in(r.0.2, t) == delta_in(s.2, t) + d
                &&& amount_in(balances_of(r.0.0, signer), t) == amount_in(balances_of(s.0, signer), t) + d
                &&& forall|u: TokenIdView| u != t ==> #[trigger] delta_in(r.0.2, u) == delta_in(s.2, u)
            }
        }),
{
    let b = balances_of(s.0, signer);
    let r = spec_diff_step(s, signer, collector, fee, t, d);
    assert(spec_fee_ceil(magnitude(d), 0) == 0);
    if r.1 is None {
        let pc = postponed_of(s.1, collector);
        let p = s.1.insert(collector, with_amount(pc, t, (amount_in(pc, t) + 0) as u128));
        assert(postponed_of(p, collector) == with_amount(pc, t, amount_in(pc, t) as u128));
    }
}

/// A token diff, entry by entry, up to the first error.
pub open spec fn spec_token_diff(
    s: EngineView,
    signer: Seq<char>,
    collector: Seq<char>,
    fee: u32,
    diff: Seq<(TokenIdView, i128)>,
) -> (EngineView, Option<DefuseError>)
    decreases diff.len(),
{
    if diff.len() == 0 {
        (s, None)
    } else {
        let r = spec_diff_step(s, signer, collector, fee, diff[0].0, diff[0].1);
        if r.1 is Some {
            r
        } else {
            spec_token_diff(r.0, signer, collector, fee, diff.drop_first())
        }
    }
}

/// The string forms and magnitudes of the entries of `diff` that take
/// tokens away (`negative`) or bring them (otherwise), in order.
pub open spec fn diff_side(diff: Seq<(TokenIdView, i128)>, negative: bool) -> Seq<(Seq<char>, u128)>
    decreases diff.len(),
{
    if diff.len() == 0 {
        Seq::empty()
    } else {
        let rest = diff_side(diff.drop_first(), negative);
        if (diff[0].1 < 0) == negative {
            seq![(spec_token_id_string(diff[0].0), magnitude(diff[0].1) as u128)] + rest
        } else {
            rest
        }
    }
}

/// The events of a token diff: what the signer gave the collector, then
/// what the collector gave the signer, each where there is any.
pub open spec fn spec_diff_events(signer: Seq<char>, collector: Seq<char>, diff: Seq<(TokenIdView, i128)>)
    -> Seq<(Seq<char>, Seq<char>, Seq<(Seq<char>, u128)>, Option<Seq<char>>)> {
    let memo = Some(seq!['t', 'o', 'k', 'e', 'n', '_', 'd', 'i', 'f', 'f']);
    let w = diff_side(diff, true);
    let d = diff_side(diff, false);
    (if w.len() > 0 { seq![(signer, collector, w, memo)] } else { Seq::empty() })
        + (if d.len() > 0 { seq![(collector, signer, d, memo)] } else { Seq::empty() })
}

/// The entries of a diff as values.
pub open spec fn diff_view(diff: Seq<(TokenId, i128)>) -> Seq<(TokenIdView, i128)> {
    diff.map_values(|e: (TokenId, i128)| (e.0@, e.1))
}

/// The engine state of a contract and a runtime.
pub open spec fn engine_view(c: ContractView, rt: RuntimeView) -> EngineView {
    (c.accounts, rt.postponed_deposits, rt.total_supply_deltas)
}

/// The tokens of a transfer intent as values.
pub open spec fn transfer_tokens(t: MtBatchTransfer) -> Seq<(TokenIdView, u128)> {
    Seq::new(t.token_ids@.len(), |i: int| (t.token_ids@[i]@, t.amounts@[i]))
}

/// A transfer intent, token by token: the sender's balance goes down now,
/// the receiver's deposit waits for the end of the batch. Stops with
/// `AccountNotFound` where the sender has no account and with
/// `BalanceOverflow` where a balance is too small or the postponed sum
/// overflows.
pub open spec fn spec_intent_transfer(
    s: EngineView,
    sender: Seq<char>,
    receiver: Seq<char>,
    tokens: Seq<(TokenIdView, u128)>,
) -> (EngineView, Option<DefuseError>)
    decreases tokens.len(),
{
    if tokens.len() == 0 {
        (s, None)
    } else {
        let t = tokens[0].0;
        let a = tokens[0].1;
        if !s.0.dom().contains(sender) {
            (s, Some(DefuseError::AccountNotFound))
        } else if amount_in(s.0[sender].token_balances, t) < a {
            (s, Some(DefuseError::BalanceOverflow))
        } else {
            let b = s.0[sender].token_balances;
            let acc = with_balances(s.0, sender, with_amount(b, t, (amount_in(b, t) - a) as u128));
            let pr = postponed_of(s.1, receiver);
            if amount_in(pr, t) + a > u128::MAX {
                ((acc, s.1.insert(receiver, pr), s.2), Some(DefuseError::BalanceOverflow))
            } else {
                spec_intent_transfer(
                    (acc, s.1.insert(receiver, with_amount(pr, t, (amount_in(pr, t) + a) as u128)), s.2),
                    sender,
                    receiver,
                    tokens.drop_first(),
                )
            }
        }
    }
}

/// The engine state with the receiver's entry of postponed deposits made.
pub open spec fn touched(s: EngineView, receiver: Seq<char>) -> EngineView {
    (s.0, s.1.insert(receiver, postponed_of(s.1, receiver)), s.2)
}

/// The contract and runtime as an engine state says.
pub open spec fn with_engine(c: ContractView, rt: RuntimeView, s: EngineView) -> (ContractView, RuntimeView) {
    (
        ContractView { accounts: s.0, ..c },
        RuntimeView { postponed_deposits: s.1, total_supply_deltas: s.2 },
    )
}

/// Whether the intent can be executed for `signer` at all: what the
/// contract would otherwise panic on is ruled out.
pub open spec fn intent_admissible(signer: Seq<char>, intent: Intent) -> bool {
    match intent {
        Intent::AddPublicKey(pk) => pk.valid(),
        Intent::RemovePublicKey(pk) => pk.valid(),
        Intent::InvalidateNonces(_) => true,
        Intent::MtBatchTransfer(t) => transfer_admissible(signer, t),
        Intent::MtBatchTransferCall(c) => transfer_admissible(signer, c.transfer),
        Intent::FtWithdraw(_) => true,
        Intent::NftWithdraw(_) => true,
        Intent::MtWithdraw(w) => w.token_ids@.len() == w.amounts@.len() && w.amounts@.len() > 0,
        Intent::TokenDiff(d) => d.diff@.len() > 0 && forall|i: int| 0 <= i < d.diff@.len() ==> (#[trigger] d.diff@[i]).1 != 0,
    }
}

/// A transfer intent names another valid receiver, as many amounts as
/// tokens, at least one, and no zero amount.
pub open spec fn transfer_admissible(signer: Seq<char>, t: MtBatchTransfer) -> bool {
    &&& t.receiver_id.valid()
    &&& t.receiver_id@ != signer
    &&& t.token_ids@.len() == t.amounts@.len()
    &&& t.amounts@.len() > 0
    &&& forall|i: int| 0 <= i < t.amounts@.len() ==> #[trigger] t.amounts@[i] > 0
}

/// Executing `intent` for `signer`: the contract and runtime after it, and
/// the error where it failed.
pub open spec fn spec_execute_intent(c: ContractView, rt: RuntimeView, signer: Seq<char>, intent: Intent)
    -> (ContractView, RuntimeView, Option<DefuseError>) {
    match intent {
        Intent::AddPublicKey(pk) => (
            ContractView { accounts: c.accounts.insert(signer, spec_key_added(c.accounts, signer, pk@)), ..c },
            rt,
            if spec_fresh_has_key(c.accounts, signer, pk@) { Some(DefuseError::PublicKeyExists) } else { None },
        ),
        Intent::RemovePublicKey(pk) => (
            ContractView { accounts: c.accounts.insert(signer, spec_key_removed(c.accounts, signer, pk@)), ..c },
            rt,
            if spec_fresh_has_key(c.accounts, signer, pk@) { None } else { Some(DefuseError::PublicKeyNotExist) },
        ),
        Intent::InvalidateNonces(ns) => {
            let a = account_or_fresh(c.accounts, signer);
            let res = spec_commit_nonces(a.nonces, ns@.map_values(|n: Nonce| n@));
            (
                ContractView { accounts: c.accounts.insert(signer, AccountView { nonces: res.0, ..a }), ..c },
                rt,
                if res.1 { None } else { Some(DefuseError::NonceUsed) },
            )
        },
        Intent::MtBatchTransfer(t) => {
            let res = spec_intent_transfer(touched(engine_view(c, rt), t.receiver_id@), signer, t.receiver_id@, transfer_tokens(t));
            let after = with_engine(c, rt, res.0);
            (after.0, after.1, res.1)
        },
        Intent::MtBatchTransferCall(call) => {
            let t = call.transfer;
            let res = spec_intent_transfer(touched(engine_view(c, rt), t.receiver_id@), signer, t.receiver_id@, transfer_tokens(t));
            let after = with_engine(c, rt, res.0);
            (after.0, after.1, res.1)
        },
        Intent::FtWithdraw(w) => {
            let res = spec_withdraw_result(c, signer, ft_withdraw_tokens(w, c.wnear_id), withdraw_memo_view());
            (res.0, rt, res.1)
        },
        Intent::NftWithdraw(w) => {
            let res = spec_withdraw_result(c, signer, nft_withdraw_tokens(w, c.wnear_id), withdraw_memo_view());
            (res.0, rt, res.1)
        },
        Intent::MtWithdraw(w) => {
            let res = spec_withdraw_result(c, signer, mt_withdraw_tokens(w, c.wnear_id), withdraw_memo_view());
            (res.0, rt, res.1)
        },
        Intent::TokenDiff(d) => {
            let res = spec_token_diff(touched(engine_view(c, rt), c.fee_collector), signer, c.fee_collector, c.fee, diff_view(d.diff@));
            let after = with_engine(c, rt, res.0);
            (after.0, after.1, res.1)
        },
    }
}

/// Executing `intents` in order for `signer`, up to the first that fails.
pub open spec fn spec_execute_intents(c: ContractView, rt: RuntimeView, signer: Seq<char>, intents: Seq<Intent>)
    -> (ContractView, RuntimeView, Option<DefuseError>)
    decreases intents.len(),
{
    if intents.len() == 0 {
        (c, rt, None)
    } else {
        let r = spec_execute_intent(c, rt, signer, intents[0]);
        if r.2 is Some {
            r
        } else {
            spec_execute_intents(r.0, r.1, signer, intents.drop_first())
        }
    }
}

/// A signed request, its signature already checked.
#[derive(Debug)]
pub struct SignedIntent {
    /// The key that the signature verifies against; `None` where it does
    /// not verify.
    pub public_key: Option<PublicKey>,
    /// The hash of the signed payload, which the signature signs.
    pub hash: [u8; 32],
    /// The contract the request is addressed to.
    pub recipient: AccountId,
    pub nonce: Nonce,
    pub signer_id: AccountId,
    /// The request's deadline, in nanoseconds.
    pub deadline: u64,
    /// Whether the request's deadline has passed.
    pub deadline_expired: bool,
    pub intents: Vec<Intent>,
}

/// Executing a signed request on the contract `current`: it must verify,
/// be addressed to `current` and be in time; the signer's account is
/// created, must know the key, and uses up the nonce; then its intents run.
pub open spec fn spec_execute_signed(c: ContractView, rt: RuntimeView, current: Seq<char>, s: SignedIntent)
    -> (ContractView, RuntimeView, Option<DefuseError>) {
    match s.public_key {
        None => (c, rt, Some(DefuseError::InvalidSignature)),
        Some(pk) => if s.recipient@ != current {
            (c, rt, Some(DefuseError::WrongRecipient))
        } else if s.deadline_expired {
            (c, rt, Some(DefuseError::DeadlineExpired))
        } else {
            let signer = s.signer_id@;
            let a = account_or_fresh(c.accounts, signer);
            let c1 = ContractView { accounts: c.accounts.insert(signer, a), ..c };
            if !spec_has_public_key(a, signer, pk@) {
                (c1, rt, Some(DefuseError::PublicKeyNotExist))
            } else if a.nonces.contains(s.nonce@) {
                (c1, rt, Some(DefuseError::NonceUsed))
            } else {
                let c2 = ContractView {
                    accounts: c.accounts.insert(signer, AccountView { nonces: a.nonces.insert(s.nonce@), ..a }),
                    ..c
                };
                spec_execute_intents(c2, rt, signer, s.intents@)
            }
        },
    }
}

/// Executing signed requests in order, up to the first that fails.
pub open spec fn spec_execute_signed_all(c: ContractView, rt: RuntimeView, current: Seq<char>, s: Seq<SignedIntent>)
    -> (ContractView, RuntimeView, Option<DefuseError>)
    decreases s.len(),
{
    if s.len() == 0 {
        (c, rt, None)
    } else {
        let r = spec_execute_signed(c, rt, current, s[0]);
        if r.2 is Some {
            r
        } else {
            spec_execute_signed_all(r.0, r.1, current, s.drop_first())
        }
    }
}

/// A signed request can be executed at all: its key and its intents are
/// admissible.
pub open spec fn signed_admissible(s: SignedIntent) -> bool {
    &&& s.signer_id.valid()
    &&& s.public_key matches Some(pk) ==> pk.valid()
    &&& forall|i: int| 0 <= i < s.intents@.len() ==> intent_admissible(s.signer_id@, #[trigger] s.intents@[i])
}

/// The transfer event of a transfer intent of `signer`.
pub open spec fn transfer_event_matches(signer: Seq<char>, t: MtBatchTransfer, ev: MtTransferEvent) -> bool {
    &&& ev.old_owner_id@ == signer
    &&& ev.new_owner_id@ == t.receiver_id@
    &&& ev.authorized_id is None
    &&& ev.amounts@ == t.amounts@
    &&& strings_view(ev.token_ids@) == t.token_ids@.map_values(|x: TokenId| spec_token_id_string(x@))
    &&& crate::events::opt_string_view(ev.memo) == crate::events::opt_string_view(t.memo)
}

/// What an executed intent of `signer` hands back, where `collector`
/// collects the fees: the events and plans of its kind.
pub open spec fn outcome_matches(signer: Seq<char>, collector: Seq<char>, intent: Intent, o: IntentOutcome) -> bool {
    match intent {
        Intent::AddPublicKey(_) | Intent::RemovePublicKey(_) | Intent::InvalidateNonces(_) => o is Done,
        Intent::MtBatchTransfer(t) => o matches IntentOutcome::Transfer(ev) && transfer_event_matches(signer, t, ev),
        Intent::MtBatchTransferCall(c) => o matches IntentOutcome::TransferCall(ev, p, m)
            && transfer_event_matches(signer, c.transfer, ev)
            && m@ == c.msg@ && p.on_transfer_gas == Some(GAS_FOR_MT_ON_TRANSFER)
            && p.resolve_gas == sat(5 * TGAS + sat(TGAS * c.transfer.token_ids@.len()))
            && p.previous_owner_ids@.len() == c.transfer.token_ids@.len()
            && forall|i: int| 0 <= i < p.previous_owner_ids@.len() ==> (#[trigger] p.previous_owner_ids@[i])@ == signer,
        Intent::FtWithdraw(w) => o == IntentOutcome::Withdraw(WithdrawPlan {
            near_withdraw: w.storage_deposit,
            transfer_gas: Some(DO_FT_WITHDRAW_GAS),
            resolve_gas: Some(RESOLVE_WITHDRAW_GAS),
        }),
        Intent::NftWithdraw(w) => o == IntentOutcome::Withdraw(WithdrawPlan {
            near_withdraw: w.storage_deposit,
            transfer_gas: Some(DO_NFT_WITHDRAW_GAS),
            resolve_gas: Some(RESOLVE_WITHDRAW_GAS),
        }),
        Intent::MtWithdraw(w) => o == IntentOutcome::Withdraw(WithdrawPlan {
            near_withdraw: w.storage_deposit,
            transfer_gas: Some(sat(sat(sat(TGAS + sat(500 * GGAS * w.token_ids@.len())) + STORAGE_DEPOSIT_GAS)
                + sat(15 * TGAS + sat(500 * GGAS * w.token_ids@.len()))) as u64),
            resolve_gas: Some(sat(5 * TGAS + sat(500 * GGAS * w.token_ids@.len())) as u64),
        }),
        Intent::TokenDiff(d) => o matches IntentOutcome::TokenDiff(evs)
            && evs@.map_values(|e: MtTransferEvent| transfer_event_view(e)) == spec_diff_events(signer, collector, diff_view(d.diff@)),
    }
}

/// The fee rate for a change of `amount` in `token_id`.
fn token_fee(token_id: &TokenId, amount: u128, fee: Pips) -> (p: Pips)
    requires
        fee.wf(),
    ensures
        p.wf(),
        p@ == spec_token_fee(token_id@, amount as nat, fee@),
{
    match token_id {
        TokenId::Nep141(_) => fee,
        TokenId::Nep245(_, _) => if amount > 1 {
            fee
        } else {
            Pips::zero()
        },
        TokenId::Nep171(_, _) => Pips::zero(),
    }
}

/// The magnitude of `d` as a `u128`.
fn unsigned_abs(d: i128) -> (m: u128)
    ensures
        m == magnitude(d),
{
    if d >= 0 {
        d as u128
    } else if d == i128::MIN {
        0x8000_0000_0000_0000_0000_0000_0000_0000u128
    } else {
        (-d) as u128
    }
}

/// Token strings and amounts collected into an event.
struct EventParts {
    token_ids: Vec<String>,
    amounts: Vec<u128>,
}

/// The pairs of `p` as values.
spec fn parts_view(p: EventParts) -> Seq<(Seq<char>, u128)> {
    Seq::new(p.token_ids@.len(), |i: int| (p.token_ids@[i]@, p.amounts@[i]))
}

spec fn parts_wf(p: EventParts) -> bool {
    p.token_ids@.len() == p.amounts@.len()
}

proof fn lemma_diff_side_split(diff: Seq<(TokenIdView, i128)>, i: int, negative: bool)
    requires
        0 <= i < diff.len(),
    ensures
        diff_side(diff.take(i + 1), negative) == diff_side(diff.take(i), negative) + (if (diff[i].1 < 0) == negative {
            seq![(spec_token_id_string(diff[i].0), magnitude(diff[i].1) as u128)]
        } else {
            Seq::<(Seq<char>, u128)>::empty()
        }),
    decreases i,
{
    let e: Seq<(Seq<char>, u128)> = if (diff[i].1 < 0) == negative {
        seq![(spec_token_id_string(diff[i].0), magnitude(diff[i].1) as u128)]
    } else {
        Seq::<(Seq<char>, u128)>::empty()
    };
    if i == 0 {
        assert(diff.take(1).drop_first() =~= Seq::<(TokenIdView, i128)>::empty());
        assert(diff.take(0) =~= Seq::<(TokenIdView, i128)>::empty());
        assert(diff.take(1)[0] == diff[0]);
        assert(diff_side(diff.take(1).drop_first(), negative) =~= Seq::<(Seq<char>, u128)>::empty());
        assert(diff_side(diff.take(1), negative) =~= e + Seq::<(Seq<char>, u128)>::empty());
        assert(diff_side(diff.take(0), negative) =~= Seq::<(Seq<char>, u128)>::empty());
        assert(Seq::<(Seq<char>, u128)>::empty() + e =~= e);
    } else {
        lemma_diff_side_split(diff.drop_first(), i - 1, negative);
        assert(diff.take(i + 1).drop_first() =~= diff.drop_first().take(i));
        assert(diff.take(i).drop_first() =~= diff.drop_first().take(i - 1));
        assert(diff.drop_first()[i - 1] == diff[i]);
        let head: Seq<(Seq<char>, u128)> = if (diff[0].1 < 0) == negative {
            seq![(spec_token_id_string(diff[0].0), magnitude(diff[0].1) as u128)]
        } else {
            Seq::<(Seq<char>, u128)>::empty()
        };
        assert(diff.take(i + 1)[0] == diff[0]);
        assert(diff.take(i)[0] == diff[0]);
        assert(diff_side(diff.take(i + 1), negative) =~= head + diff_side(diff.drop_first().take(i), negative));
        assert(diff_side(diff.take(i), negative) =~= head + diff_side(diff.drop_first().take(i - 1), negative));
        assert(head + (diff_side(diff.drop_first().take(i - 1), negative) + e)
            =~= (head + diff_side(diff.drop_first().take(i - 1), negative)) + e);
    }
}

impl Contract {
    /// Executes a token diff of `signer_id`: each entry moves the signer's
    /// balance, owes the collector the fee on its magnitude (postponed to
    /// the end of the batch) and moves the token's supply by both, which
    /// the end of the batch requires to cancel out. Stops with
    /// `BalanceOverflow` where a balance, the collector's sum or a supply
    /// change leaves its range. On success gives the transfer events
    /// between the signer and the collector.
    pub fn execute_token_diff(&mut self, rt: &mut RuntimeState, signer_id: &AccountId, diff: &TokenDiff)
        -> (r: Result<Vec<MtTransferEvent>, DefuseError>)
        requires
            old(self).wf(),
            old(rt).wf(),
            signer_id.valid(),
            diff.diff@.len() > 0,
            forall|i: int| 0 <= i < diff.diff@.len() ==> (#[trigger] diff.diff@[i]).1 != 0,
        ensures
            final(self).wf(),
            crate::replay::nonces_kept(old(self)@, final(self)@),
            final(rt).wf(),
            ({
                let collector = old(self)@.fee_collector;
                let start = (old(self)@.accounts,
                    old(rt)@.postponed_deposits.insert(collector, postponed_of(old(rt)@.postponed_deposits, collector)),
                    old(rt)@.total_supply_deltas);
                let res = spec_token_diff(start, signer_id@, collector, old(self)@.fee, diff_view(diff.diff@));
                &&& engine_view(final(self)@, final(rt)@) == res.0
                &&& final(self)@ == (ContractView { accounts: res.0.0, ..old(self)@ })
                &&& (r is Ok) <==> res.1 is None
                &&& r matches Err(e) ==> res.1 == Some(e)
                &&& r matches Ok(evs) ==> evs@.map_values(|e: MtTransferEvent| transfer_event_view(e))
                    == spec_diff_events(signer_id@, collector, diff_view(diff.diff@))
            }),
            batch_balanced(*old(self), *old(rt)) && r is Ok ==> batch_balanced(*final(self), *final(rt)),
    {
        let ghost dv = diff_view(diff.diff@);
        let collector = self.fee_collector().clone();
        let fee = self.fee();
        proof {
            self.lemma_wf();
        }
        rt.touch(&collector);
        let ghost start = engine_view(self@, rt@);
        let ghost c0 = *self;
        let mut withdrawals = EventParts { token_ids: Vec::new(), amounts: Vec::new() };
        let mut deposits = EventParts { token_ids: Vec::new(), amounts: Vec::new() };
        let n = diff.diff.len();
        let mut i: usize = 0;
        proof {
            assert(dv.skip(0) =~= dv);
            assert(dv.take(0) =~= Seq::<(TokenIdView, i128)>::empty());
            assert(parts_view(withdrawals) =~= Seq::<(Seq<char>, u128)>::empty());
            assert(parts_view(deposits) =~= Seq::<(Seq<char>, u128)>::empty());
        }
        while i < n
            invariant
                self.wf(),
                rt.wf(),
                signer_id.valid(),
                collector.valid(),
                collector@ == c0@.fee_collector,
                fee@ == c0@.fee,
                fee.wf(),
                n == diff.diff@.len(),
                i <= n,
                dv == diff_view(diff.diff@),
                forall|j: int| 0 <= j < diff.diff@.len() ==> (#[trigger] diff.diff@[j]).1 != 0,
                self@ == (ContractView { accounts: self@.accounts, ..c0@ }),
                c0@ == old(self)@,
                start == (old(self)@.accounts,
                    old(rt)@.postponed_deposits.insert(collector@, postponed_of(old(rt)@.postponed_deposits, collector@)),
                    old(rt)@.total_supply_deltas),
                spec_token_diff(start, signer_id@, collector@, fee@, dv)
                    == spec_token_diff(engine_view(self@, rt@), signer_id@, collector@, fee@, dv.skip(i as int)),
                parts_wf(withdrawals),
                parts_wf(deposits),
                parts_view(withdrawals) == diff_side(dv.take(i as int), true),
                parts_view(deposits) == diff_side(dv.take(i as int), false),
                batch_balanced(*old(self), *old(rt)) ==> batch_balanced(*self, *rt),
                crate::replay::nonces_kept(old(self)@, self@),
            decreases n - i,
        {
            let token_id = &diff.diff[i].0;
            let delta = diff.diff[i].1;
            let ghost s = engine_view(self@, rt@);
            let ghost c_pre = *self;
            let ghost rt_pre = *rt;
            proof {
                assert(dv.skip(i as int)[0] == dv[i as int]);
                assert(dv.skip(i as int).drop_first() =~= dv.skip(i + 1));
                assert(dv[i as int] == (token_id@, delta));
            }
            match self.shift(signer_id, token_id.clone(), delta) {
                Some(_) => {},
                None => {
                    proof {
                        crate::replay::lemma_nonces_kept_trans(old(self)@, c_pre@, self@);
                        assert(engine_view(self@, rt@) == spec_diff_step(s, signer_id@, collector@, fee@, token_id@, delta).0);
                        assert(spec_diff_step(s, signer_id@, collector@, fee@, token_id@, delta).1 is Some);
                    }
                    return Err(DefuseError::BalanceOverflow);
                },
            }
            let ghost c_mid = *self;
            proof {
                crate::replay::lemma_nonces_kept_trans(old(self)@, c_pre@, self@);
            }
            let magnitude = unsigned_abs(delta);
            let f = token_fee(token_id, magnitude, fee).fee_ceil(magnitude);
            let ghost s1 = engine_view(self@, rt@);
            proof {
                assert(s1.0 == with_balances(s.0, signer_id@, with_amount(balances_of(s.0, signer_id@), token_id@,
                    (amount_in(balances_of(s.0, signer_id@), token_id@) + delta) as u128)));
                assert(s1.1 == s.1 && s1.2 == s.2);
            }
            match rt.postpone_deposit(&collector, token_id.clone(), f) {
                Ok(()) => {},
                Err(e) => {
                    proof {
                        assert(rt@.postponed_deposits =~= s.1.insert(collector@, postponed_of(s.1, collector@)));
                        assert(spec_diff_step(s, signer_id@, collector@, fee@, token_id@, delta).1 is Some);
                        assert(engine_view(self@, rt@) == spec_diff_step(s, signer_id@, collector@, fee@, token_id@, delta).0);
                    }
                    return Err(e);
                },
            }
            let ghost rt_mid = *rt;
            let ghost wb = parts_view(withdrawals);
            let ghost db = parts_view(deposits);
            let ts = token_id.to_string();
            if delta < 0 {
                withdrawals.token_ids.push(ts);
                withdrawals.amounts.push(magnitude);
                proof {
                    assert(parts_view(withdrawals) =~= wb.push((spec_token_id_string(token_id@), magnitude)));
                }
            } else {
                deposits.token_ids.push(ts);
                deposits.amounts.push(magnitude);
                proof {
                    assert(parts_view(deposits) =~= db.push((spec_token_id_string(token_id@), magnitude)));
                }
            }
            proof {
                lemma_diff_side_split(dv, i as int, true);
                lemma_diff_side_split(dv, i as int, false);
                if delta < 0 {
                    assert(parts_view(deposits) =~= db + Seq::<(Seq<char>, u128)>::empty());
                } else {
                    assert(parts_view(withdrawals) =~= wb + Seq::<(Seq<char>, u128)>::empty());
                }
            }
            let ghost step = spec_diff_step(s, signer_id@, collector@, fee@, token_id@, delta);
            let total = match delta.checked_add_unsigned(f) {
                Some(v) => v,
                None => {
                    proof {
                        assert(step.1 is Some);
                        assert(engine_view(self@, rt@) == step.0);
                    }
                    return Err(DefuseError::BalanceOverflow);
                },
            };
            match rt.add_supply_delta(token_id.clone(), total) {
                Ok(()) => {},
                Err(e) => {
                    proof {
                        assert(step.1 is Some);
                        assert(engine_view(self@, rt@) == step.0);
                    }
                    return Err(e);
                },
            }
            proof {
                assert(step.1 is None);
                assert(engine_view(self@, rt@) == step.0);
                if batch_balanced(*old(self), *old(rt)) {
                    assert forall|u: TokenIdView| #[trigger] self.spec_accounts_total(u) + rt.spec_postponed_total(u)
                        == amount_in(self@.total_supplies, u) + delta_in(rt@.total_supply_deltas, u) by {
                        assert(c_pre.spec_accounts_total(u) + rt_pre.spec_postponed_total(u)
                            == amount_in(c_pre@.total_supplies, u) + delta_in(rt_pre@.total_supply_deltas, u));
                        assert(self.spec_accounts_total(u) == c_mid.spec_accounts_total(u));
                        assert(rt.spec_postponed_total(u) == rt_mid.spec_postponed_total(u));
                        if u == token_id@ {
                            assert(delta_in(rt@.total_supply_deltas, u) == delta_in(rt_mid@.total_supply_deltas, u) + total);
                        } else {
                            assert(delta_in(rt@.total_supply_deltas, u) == delta_in(rt_mid@.total_supply_deltas, u));
                        }
                    }
                }
            }
            i = i + 1;
        }
        proof {
            assert(dv.skip(n as int) =~= Seq::<(TokenIdView, i128)>::empty());
            assert(dv.take(n as int) =~= dv);
        }
        let mut events: Vec<MtTransferEvent> = Vec::new();
        let ghost wv = parts_view(withdrawals);
        let ghost depv = parts_view(deposits);
        if withdrawals.amounts.len() > 0 {
            events.push(MtTransferEvent {
                authorized_id: None,
                old_owner_id: signer_id.clone(),
                new_owner_id: collector.clone(),
                token_ids: withdrawals.token_ids,
                amounts: withdrawals.amounts,
                memo: Some(token_diff_memo()),
            });
        }
        if deposits.amounts.len() > 0 {
            events.push(MtTransferEvent {
                authorized_id: None,
                old_owner_id: collector.clone(),
                new_owner_id: signer_id.clone(),
                token_ids: deposits.token_ids,
                amounts: deposits.amounts,
                memo: Some(token_diff_memo()),
            });
        }
        proof {
            let memo = Some(seq!['t', 'o', 'k', 'e', 'n', '_', 'd', 'i', 'f', 'f']);
            let ws: Seq<(Seq<char>, Seq<char>, Seq<(Seq<char>, u128)>, Option<Seq<char>>)> =
                if wv.len() > 0 { seq![(signer_id@, collector@, wv, memo)] } else { Seq::empty() };
            let ds: Seq<(Seq<char>, Seq<char>, Seq<(Seq<char>, u128)>, Option<Seq<char>>)> =
                if depv.len() > 0 { seq![(collector@, signer_id@, depv, memo)] } else { Seq::empty() };
            if wv.len() > 0 {
                assert(transfer_event_view(events@[0]).2 =~= wv);
            }
            if depv.len() > 0 {
                assert(transfer_event_view(events@[events@.len() - 1]).2 =~= depv);
            }
            assert(events@.map_values(|e: MtTransferEvent| transfer_event_view(e)) =~= ws + ds);
        }
        Ok(events)
    }
}

impl Contract {
    /// Executes a transfer intent of `sender_id`: the tokens leave the
    /// sender now and reach the receiver at the end of the batch. On success
    /// gives the transfer event.
    pub fn execute_mt_batch_transfer(&mut self, rt: &mut RuntimeState, sender_id: &AccountId, transfer: &MtBatchTransfer)
        -> (r: Result<MtTransferEvent, DefuseError>)
        requires
            old(self).wf(),
            old(rt).wf(),
            transfer_admissible(sender_id@, *transfer),
        ensures
            final(self).wf(),
            crate::replay::nonces_kept(old(self)@, final(self)@),
            final(rt).wf(),
            ({
                let res = spec_intent_transfer(touched(engine_view(old(self)@, old(rt)@), transfer.receiver_id@),
                    sender_id@, transfer.receiver_id@, transfer_tokens(*transfer));
                &&& (final(self)@, final(rt)@) == with_engine(old(self)@, old(rt)@, res.0)
                &&& err_of(r) == res.1
            }),
            r matches Ok(ev) ==> ev.old_owner_id@ == sender_id@ && ev.new_owner_id@ == transfer.receiver_id@
                && ev.authorized_id is None && ev.amounts@ == transfer.amounts@
                && strings_view(ev.token_ids@) == transfer.token_ids@.map_values(|t: TokenId| spec_token_id_string(t@))
                && crate::events::opt_string_view(ev.memo) == crate::events::opt_string_view(transfer.memo),
            batch_balanced(*old(self), *old(rt)) && r is Ok ==> batch_balanced(*final(self), *final(rt)),
    {
        let receiver_id = &transfer.receiver_id;
        rt.touch(receiver_id);
        let ghost tv = transfer_tokens(*transfer);
        let ghost start = engine_view(self@, rt@);
        let ghost c0 = self@;
        let ghost rt0 = rt@;
        let n = transfer.amounts.len();
        let mut token_ids: Vec<String> = Vec::new();
        let mut i: usize = 0;
        proof {
            assert(tv.skip(0) =~= tv);
        }
        while i < n
            invariant
                self.wf(),
                rt.wf(),
                transfer_admissible(sender_id@, *transfer),
                n == transfer.amounts@.len(),
                i <= n,
                tv == transfer_tokens(*transfer),
                *receiver_id == transfer.receiver_id,
                c0 == old(self)@,
                rt0 == (RuntimeView {
                    postponed_deposits: old(rt)@.postponed_deposits.insert(receiver_id@,
                        postponed_of(old(rt)@.postponed_deposits, receiver_id@)),
                    ..old(rt)@
                }),
                start == engine_view(c0, rt0),
                self@ == (ContractView { accounts: self@.accounts, ..c0 }),
                rt@.total_supply_deltas == rt0.total_supply_deltas,
                spec_intent_transfer(start, sender_id@, receiver_id@, tv)
                    == spec_intent_transfer(engine_view(self@, rt@), sender_id@, receiver_id@, tv.skip(i as int)),
                strings_view(token_ids@) == transfer.token_ids@.take(i as int).map_values(|t: TokenId| spec_token_id_string(t@)),
                batch_balanced(*old(self), *old(rt)) ==> batch_balanced(*self, *rt),
                crate::replay::nonces_kept(old(self)@, self@),
            decreases n - i,
        {
            let t = &transfer.token_ids[i];
            let a = transfer.amounts[i];
            let ghost s = engine_view(self@, rt@);
            let ghost c_pre = *self;
            let ghost rt_pre = *rt;
            proof {
                assert(tv.skip(i as int)[0] == tv[i as int]);
                assert(tv.skip(i as int).drop_first() =~= tv.skip(i + 1));
                assert(tv[i as int] == (t@, a));
            }
            let ghost ids_before = token_ids@;
            token_ids.push(t.to_string());
            proof {
                assert(strings_view(token_ids@) =~= strings_view(ids_before).push(spec_token_id_string(t@)));
                assert(transfer.token_ids@.take(i + 1) =~= transfer.token_ids@.take(i as int).push(transfer.token_ids@[i as int]));
                assert(strings_view(token_ids@) =~= transfer.token_ids@.take(i + 1).map_values(|t: TokenId| spec_token_id_string(t@)));
            }
            match self.debit(sender_id, t.clone(), a) {
                Ok(_) => {},
                Err(e) => {
                    proof {
                        crate::replay::lemma_nonces_kept_trans(old(self)@, c_pre@, self@);
                        assert(engine_view(self@, rt@) == s);
                        assert(spec_intent_transfer(s, sender_id@, receiver_id@, tv.skip(i as int)) == (s, Some(e)));
                        assert((self@, rt@) == with_engine(old(self)@, old(rt)@, s));
                    }
                    return Err(e);
                },
            }
            let ghost c_mid = *self;
            proof {
                crate::replay::lemma_nonces_kept_trans(old(self)@, c_pre@, self@);
            }
            match rt.postpone_deposit(receiver_id, t.clone(), a) {
                Ok(()) => {},
                Err(e) => {
                    proof {
                        let b = s.0[sender_id@].token_balances;
                        let acc = with_balances(s.0, sender_id@, with_amount(b, t@, (amount_in(b, t@) - a) as u128));
                        let pr = postponed_of(s.1, receiver_id@);
                        assert(rt@.postponed_deposits =~= s.1.insert(receiver_id@, pr));
                        assert(spec_intent_transfer(s, sender_id@, receiver_id@, tv.skip(i as int))
                            == ((acc, s.1.insert(receiver_id@, pr), s.2), Some(e)));
                        assert((self@, rt@) == with_engine(old(self)@, old(rt)@, (acc, s.1.insert(receiver_id@, pr), s.2)));
                    }
                    return Err(e);
                },
            }
            proof {
                if batch_balanced(*old(self), *old(rt)) {
                    assert forall|u: TokenIdView| #[trigger] self.spec_accounts_total(u) + rt.spec_postponed_total(u)
                        == amount_in(self@.total_supplies, u) + delta_in(rt@.total_supply_deltas, u) by {
                        assert(c_pre.spec_accounts_total(u) + rt_pre.spec_postponed_total(u)
                            == amount_in(c_pre@.total_supplies, u) + delta_in(rt_pre@.total_supply_deltas, u));
                    }
                }
            }
            i = i + 1;
        }
        proof {
            assert(tv.skip(n as int) =~= Seq::<(TokenIdView, u128)>::empty());
            assert(transfer.token_ids@.take(n as int) =~= transfer.token_ids@);
        }
        Ok(MtTransferEvent {
            authorized_id: None,
            old_owner_id: sender_id.clone(),
            new_owner_id: receiver_id.clone(),
            token_ids,
            amounts: transfer.amounts.clone(),
            memo: transfer.memo.clone(),
        })
    }
}

/// `n` is a used nonce of the existing account `id`.
pub open spec fn nonce_used(accounts: Map<Seq<char>, AccountView>, id: Seq<char>, n: Seq<u8>) -> bool {
    accounts.dom().contains(id) && accounts[id].nonces.contains(n)
}

proof fn lemma_with_balances_keeps_nonce(
    accounts: Map<Seq<char>, AccountView>,
    owner: Seq<char>,
    b: Map<TokenIdView, u128>,
    id: Seq<char>,
    n: Seq<u8>,
)
    requires
        nonce_used(accounts, id, n),
    ensures
        nonce_used(with_balances(accounts, owner, b), id, n),
{
}

proof fn lemma_transfer_keeps_nonce(s: EngineView, sender: Seq<char>, receiver: Seq<char>, tokens: Seq<(TokenIdView, u128)>, id: Seq<char>, n: Seq<u8>)
    requires
        nonce_used(s.0, id, n),
    ensures
        nonce_used(spec_intent_transfer(s, sender, receiver, tokens).0.0, id, n),
    decreases tokens.len(),
{
    if tokens.len() > 0 && s.0.dom().contains(sender) {
        let t = tokens[0].0;
        let a = tokens[0].1;
        let b = s.0[sender].token_balances;
        if amount_in(b, t) >= a {
            let acc = with_balances(s.0, sender, with_amount(b, t, (amount_in(b, t) - a) as u128));
            lemma_with_balances_keeps_nonce(s.0, sender, with_amount(b, t, (amount_in(b, t) - a) as u128), id, n);
            let pr = postponed_of(s.1, receiver);
            if amount_in(pr, t) + a <= u128::MAX {
                lemma_transfer_keeps_nonce(
                    (acc, s.1.insert(receiver, with_amount(pr, t, (amount_in(pr, t) + a) as u128)), s.2),
                    sender, receiver, tokens.drop_first(), id, n);
            }
        }
    }
}

proof fn lemma_diff_keeps_nonce(s: EngineView, signer: Seq<char>, collector: Seq<char>, fee: u32, diff: Seq<(TokenIdView, i128)>, id: Seq<char>, n: Seq<u8>)
    requires
        nonce_used(s.0, id, n),
    ensures
        nonce_used(spec_token_diff(s, signer, collector, fee, diff).0.0, id, n),
    decreases diff.len(),
{
    if diff.len() > 0 {
        let t = diff[0].0;
        let d = diff[0].1;
        let b = balances_of(s.0, signer);
        lemma_with_balances_keeps_nonce(s.0, signer, b, id, n);
        if 0 <= amount_in(b, t) + d <= u128::MAX {
            lemma_with_balances_keeps_nonce(s.0, signer, with_amount(b, t, (amount_in(b, t) + d) as u128), id, n);
        }
        let r = spec_diff_step(s, signer, collector, fee, t, d);
        if r.1 is None {
            lemma_diff_keeps_nonce(r.0, signer, collector, fee, diff.drop_first(), id, n);
        }
    }
}

pub(crate) proof fn lemma_commit_nonces_grows(used: Set<Seq<u8>>, ns: Seq<Seq<u8>>, x: Seq<u8>)
    requires
        used.contains(x),
    ensures
        spec_commit_nonces(used, ns).0.contains(x),
    decreases ns.len(),
{
    if ns.len() > 0 && !used.contains(ns[0]) {
        lemma_commit_nonces_grows(used.insert(ns[0]), ns.drop_first(), x);
    }
}

pub(crate) proof fn lemma_intent_keeps_nonce(c: ContractView, rt: RuntimeView, signer: Seq<char>, intent: Intent, id: Seq<char>, n: Seq<u8>)
    requires
        nonce_used(c.accounts, id, n),
    ensures
        nonce_used(spec_execute_intent(c, rt, signer, intent).0.accounts, id, n),
{
    match intent {
        Intent::InvalidateNonces(ns) => {
            let a = account_or_fresh(c.accounts, signer);
            if signer == id {
                lemma_commit_nonces_grows(a.nonces, ns@.map_values(|x: Nonce| x@), n);
            }
        },
        Intent::MtBatchTransfer(t) => {
            lemma_transfer_keeps_nonce(touched(engine_view(c, rt), t.receiver_id@), signer, t.receiver_id@, transfer_tokens(t), id, n);
        },
        Intent::MtBatchTransferCall(call) => {
            let t = call.transfer;
            lemma_transfer_keeps_nonce(touched(engine_view(c, rt), t.receiver_id@), signer, t.receiver_id@, transfer_tokens(t), id, n);
        },
        Intent::TokenDiff(d) => {
            lemma_diff_keeps_nonce(touched(engine_view(c, rt), c.fee_collector), signer, c.fee_collector, c.fee, diff_view(d.diff@), id, n);
        },
        _ => {},
    }
}

pub(crate) proof fn lemma_intents_keep_nonce(c: ContractView, rt: RuntimeView, signer: Seq<char>, intents: Seq<Intent>, id: Seq<char>, n: Seq<u8>)
    requires
        nonce_used(c.accounts, id, n),
    ensures
        nonce_used(spec_execute_intents(c, rt, signer, intents).0.accounts, id, n),
    decreases intents.len(),
{
    if intents.len() > 0 {
        lemma_intent_keeps_nonce(c, rt, signer, intents[0], id, n);
        let r = spec_execute_intent(c, rt, signer, intents[0]);
        if r.2 is None {
            lemma_intents_keep_nonce(r.0, r.1, signer, intents.drop_first(), id, n);
        }
    }
}

/// A signed request takes effect at most once: executed again on the state
/// that its first execution left, it is refused, whatever the first
/// execution gave.
pub proof fn lemma_replay_refused(c: ContractView, rt: RuntimeView, current: Seq<char>, s: SignedIntent)
    ensures
        ({
            let first = spec_execute_signed(c, rt, current, s);
            spec_execute_signed(first.0, first.1, current, s).2 is Some
        }),
{
    let first = spec_execute_signed(c, rt, current, s);
    match s.public_key {
        None => {},
        Some(pk) => {
            if s.recipient@ == current && !s.deadline_expired {
                let signer = s.signer_id@;
                let a = account_or_fresh(c.accounts, signer);
                if spec_has_public_key(a, signer, pk@) && !a.nonces.contains(s.nonce@) {
                    let c2 = ContractView {
                        accounts: c.accounts.insert(signer, AccountView { nonces: a.nonces.insert(s.nonce@), ..a }),
                        ..c
                    };
                    assert(nonce_used(c2.accounts, signer, s.nonce@));
                    lemma_intents_keep_nonce(c2, rt, signer, s.intents@, signer, s.nonce@);
                }
            }
        },
    }
}

pub(crate) proof fn lemma_signed_keeps_nonce(c: ContractView, rt: RuntimeView, current: Seq<char>, s: SignedIntent, id: Seq<char>, n: Seq<u8>)
    requires
        nonce_used(c.accounts, id, n),
    ensures
        nonce_used(spec_execute_signed(c, rt, current, s).0.accounts, id, n),
{
    match s.public_key {
        None => {},
        Some(pk) => {
            if s.recipient@ == current && !s.deadline_expired {
                let signer = s.signer_id@;
                let a = account_or_fresh(c.accounts, signer);
                let c1 = ContractView { accounts: c.accounts.insert(signer, a), ..c };
                assert(nonce_used(c1.accounts, id, n));
                if spec_has_public_key(a, signer, pk@) && !a.nonces.contains(s.nonce@) {
                    let c2 = ContractView {
                        accounts: c.accounts.insert(signer, AccountView { nonces: a.nonces.insert(s.nonce@), ..a }),
                        ..c
                    };
                    assert(nonce_used(c2.accounts, id, n));
                    lemma_intents_keep_nonce(c2, rt, signer, s.intents@, id, n);
                }
            }
        },
    }
}

pub(crate) proof fn lemma_signed_all_keeps_nonce(c: ContractView, rt: RuntimeView, current: Seq<char>, ss: Seq<SignedIntent>, id: Seq<char>, n: Seq<u8>)
    requires
        nonce_used(c.accounts, id, n),
    ensures
        nonce_used(spec_execute_signed_all(c, rt, current, ss).0.accounts, id, n),
    decreases ss.len(),
{
    if ss.len() > 0 {
        lemma_signed_keeps_nonce(c, rt, current, ss[0], id, n);
        let r = spec_execute_signed(c, rt, current, ss[0]);
        if r.2 is None {
            lemma_signed_all_keeps_nonce(r.0, r.1, current, ss.drop_first(), id, n);
        }
    }
}

/// A signed request that ran stays refused, whatever signed requests ran
/// after it.
pub proof fn lemma_replay_refused_later(c: ContractView, rt: RuntimeView, current: Seq<char>, s: SignedIntent, later: Seq<SignedIntent>)
    requires
        spec_execute_signed(c, rt, current, s).2 is None,
    ensures
        ({
            let first = spec_execute_signed(c, rt, current, s);
            let mid = spec_execute_signed_all(first.0, first.1, current, later);
            spec_execute_signed(mid.0, mid.1, current, s).2 is Some
        }),
{
    let first = spec_execute_signed(c, rt, current, s);
    let pk = s.public_key->0;
    let signer = s.signer_id@;
    let a = account_or_fresh(c.accounts, signer);
    let c2 = ContractView {
        accounts: c.accounts.insert(signer, AccountView { nonces: a.nonces.insert(s.nonce@), ..a }),
        ..c
    };
    assert(nonce_used(c2.accounts, signer, s.nonce@));
    lemma_intents_keep_nonce(c2, rt, signer, s.intents@, signer, s.nonce@);
    lemma_signed_all_keeps_nonce(first.0, first.1, current, later, signer, s.nonce@);
    let mid = spec_execute_signed_all(first.0, first.1, current, later);
    assert(nonce_used(mid.0.accounts, signer, s.nonce@));
    assert(account_or_fresh(mid.0.accounts, signer).nonces.contains(s.nonce@));
}

/// A step that takes from the accounts exactly what it takes from the
/// supplies, and leaves the runtime alone, keeps a batch balanced.
proof fn lemma_balanced_step(c0: Contract, rt: RuntimeState, c1: Contract)
    requires
        batch_balanced(c0, rt),
        forall|t: TokenIdView| #[trigger] c1.spec_accounts_total(t) + amount_in(c0@.total_supplies, t)
            == c0.spec_accounts_total(t) + amount_in(c1@.total_supplies, t),
    ensures
        batch_balanced(c1, rt),
{
    assert forall|t: TokenIdView| #[trigger] c1.spec_accounts_total(t) + rt.spec_postponed_total(t)
        == amount_in(c1@.total_supplies, t) + delta_in(rt@.total_supply_deltas, t) by {
        assert(c0.spec_accounts_total(t) + rt.spec_postponed_total(t)
            == amount_in(c0@.total_supplies, t) + delta_in(rt@.total_supply_deltas, t));
        assert(c1.spec_accounts_total(t) + amount_in(c0@.total_supplies, t)
            == c0.spec_accounts_total(t) + amount_in(c1@.total_supplies, t));
    }
}

/// The gas that a transfer-call intent gives the receiver's `mt_on_transfer`.
pub const GAS_FOR_MT_ON_TRANSFER: u64 = 15_000_000_000_000;

impl Contract {
    /// Executes one intent of `signer_id`, as `spec_execute_intent` says.
    pub fn execute_intent(&mut self, rt: &mut RuntimeState, signer_id: &AccountId, intent: Intent)
        -> (r: Result<IntentOutcome, DefuseError>)
        requires
            old(self).wf(),
            old(rt).wf(),
            signer_id.valid(),
            intent_admissible(signer_id@, intent),
        ensures
            final(self).wf(),
            crate::replay::nonces_kept(old(self)@, final(self)@),
            final(rt).wf(),
            (final(self)@, final(rt)@, err_of(r)) == spec_execute_intent(old(self)@, old(rt)@, signer_id@, intent),
            r matches Ok(o) ==> outcome_matches(signer_id@, old(self)@.fee_collector, intent, o),
            batch_balanced(*old(self), *old(rt)) && r is Ok ==> batch_balanced(*final(self), *final(rt)),
    {
        broadcast use crate::replay::group_nonces_kept;
        let ghost g = intent;
        let ghost c0 = *self;
        match intent {
            Intent::AddPublicKey(pk) => {
                self.add_public_key(signer_id.clone(), pk)?;
                proof {
                    if batch_balanced(c0, *rt) {
                        lemma_balanced_step(c0, *rt, *self);
                    }
                }
                Ok(IntentOutcome::Done)
            },
            Intent::RemovePublicKey(pk) => {
                self.remove_public_key(signer_id.clone(), &pk)?;
                proof {
                    if batch_balanced(c0, *rt) {
                        lemma_balanced_step(c0, *rt, *self);
                    }
                }
                Ok(IntentOutcome::Done)
            },
            Intent::InvalidateNonces(ns) => {
                self.commit_nonces_in_order(signer_id.clone(), ns)?;
                proof {
                    if batch_balanced(c0, *rt) {
                        lemma_balanced_step(c0, *rt, *self);
                    }
                }
                Ok(IntentOutcome::Done)
            },
            Intent::MtBatchTransfer(t) => {
                let ev = self.execute_mt_batch_transfer(rt, signer_id, &t)?;
                Ok(IntentOutcome::Transfer(ev))
            },
            Intent::MtBatchTransferCall(call) => {
                let ev = self.execute_mt_batch_transfer(rt, signer_id, &call.transfer)?;
                let plan = transfer_call_plan(signer_id, call.transfer.token_ids.len(), Some(GAS_FOR_MT_ON_TRANSFER));
                Ok(IntentOutcome::TransferCall(ev, plan, call.msg))
            },
            Intent::FtWithdraw(w) => {
                let plan = self.ft_withdraw(signer_id, &w)?;
                proof {
                    if batch_balanced(c0, *rt) {
                        lemma_balanced_step(c0, *rt, *self);
                    }
                }
                Ok(IntentOutcome::Withdraw(plan))
            },
            Intent::NftWithdraw(w) => {
                let plan = self.nft_withdraw(signer_id, &w)?;
                proof {
                    if batch_balanced(c0, *rt) {
                        lemma_balanced_step(c0, *rt, *self);
                    }
                }
                Ok(IntentOutcome::Withdraw(plan))
            },
            Intent::MtWithdraw(w) => {
                let plan = self.mt_withdraw(signer_id, &w)?;
                proof {
                    if batch_balanced(c0, *rt) {
                        lemma_balanced_step(c0, *rt, *self);
                    }
                }
                Ok(IntentOutcome::Withdraw(plan))
            },
            Intent::TokenDiff(d) => {
                let evs = self.execute_token_diff(rt, signer_id, &d)?;
                Ok(IntentOutcome::TokenDiff(evs))
            },
        }
    }

    /// Executes `intents` of `signer_id` in order, up to the first that
    /// fails, as `spec_execute_intents` says.
    pub fn execute_intents(&mut self, rt: &mut RuntimeState, signer_id: &AccountId, intents: Vec<Intent>)
        -> (r: Result<Vec<IntentOutcome>, DefuseError>)
        requires
            old(self).wf(),
            old(rt).wf(),
            signer_id.valid(),
            forall|i: int| 0 <= i < intents@.len() ==> intent_admissible(signer_id@, #[trigger] intents@[i]),
        ensures
            final(self).wf(),
            crate::replay::nonces_kept(old(self)@, final(self)@),
            final(rt).wf(),
            (final(self)@, final(rt)@, err_of(r)) == spec_execute_intents(old(self)@, old(rt)@, signer_id@, intents@),
            r matches Ok(os) ==> os@.len() == intents@.len()
                && forall|i: int| 0 <= i < intents@.len() ==> outcome_matches(signer_id@, old(self)@.fee_collector, intents@[i], #[trigger] os@[i]),
            batch_balanced(*old(self), *old(rt)) && r is Ok ==> batch_balanced(*final(self), *final(rt)),
    {
        broadcast use crate::replay::group_nonces_kept;
        let ghost all = intents@;
        let mut rest = intents;
        let mut outcomes: Vec<IntentOutcome> = Vec::new();
        let ghost mut k: int = 0;
        proof {
            assert(all.skip(0) =~= all);
        }
        while rest.len() > 0
            invariant
                self.wf(),
                rt.wf(),
                signer_id.valid(),
                0 <= k <= all.len(),
                all == intents@,
                rest@ == all.skip(k),
                forall|i: int| 0 <= i < all.len() ==> intent_admissible(signer_id@, #[trigger] all[i]),
                spec_execute_intents(old(self)@, old(rt)@, signer_id@, all)
                    == spec_execute_intents(self@, rt@, signer_id@, rest@),
                outcomes@.len() == k,
                forall|i: int| 0 <= i < k ==> outcome_matches(signer_id@, old(self)@.fee_collector, all[i], #[trigger] outcomes@[i]),
                self@.fee_collector == old(self)@.fee_collector,
                batch_balanced(*old(self), *old(rt)) ==> batch_balanced(*self, *rt),
                crate::replay::nonces_kept(old(self)@, self@),
            decreases rest@.len(),
        {
            let intent = rest.remove(0);
            proof {
                assert(intent == all[k]);
                assert(rest@ =~= all.skip(k + 1));
                assert(all.skip(k)[0] == all[k]);
                assert(all.skip(k).drop_first() =~= all.skip(k + 1));
            }
            let ghost pre = *self;
            let o = match self.execute_intent(rt, signer_id, intent) {
                Ok(o) => o,
                Err(e) => {
                    proof {
                        crate::replay::lemma_nonces_kept_trans(old(self)@, pre@, self@);
                    }
                    return Err(e);
                },
            };
            proof {
                crate::replay::lemma_nonces_kept_trans(old(self)@, pre@, self@);
            }
            outcomes.push(o);
            proof {
                k = k + 1;
            }
        }
        proof {
            assert(all.skip(k).len() == 0);
        }
        Ok(outcomes)
    }

    /// Executes a signed request on the contract `current_account_id`, as
    /// `spec_execute_signed` says.
    pub fn execute_signed_intent(&mut self, rt: &mut RuntimeState, current_account_id: &AccountId, signed: SignedIntent)
        -> (r: Result<(IntentExecutedEvent, Vec<IntentOutcome>), DefuseError>)
        requires
            old(self).wf(),
            old(rt).wf(),
            signed_admissible(signed),
        ensures
            final(self).wf(),
            crate::replay::nonces_kept(old(self)@, final(self)@),
            final(rt).wf(),
            (final(self)@, final(rt)@, err_of(r)) == spec_execute_signed(old(self)@, old(rt)@, current_account_id@, signed),
            r matches Ok((ev, os)) ==> ev.account_id@ == signed.signer_id@ && ev.hash == signed.hash
                && os@.len() == signed.intents@.len()
                && forall|i: int| 0 <= i < os@.len() ==> outcome_matches(signed.signer_id@, old(self)@.fee_collector, signed.intents@[i], #[trigger] os@[i]),
            batch_balanced(*old(self), *old(rt)) && r is Ok ==> batch_balanced(*final(self), *final(rt)),
    {
        broadcast use crate::replay::group_nonces_kept;
        let SignedIntent { public_key, hash, recipient, nonce, signer_id, deadline: _, deadline_expired, intents } = signed;
        let public_key = match public_key {
            Some(pk) => pk,
            None => {
                return Err(DefuseError::InvalidSignature);
            },
        };
        if !recipient.key_eq_id(current_account_id) {
            return Err(DefuseError::WrongRecipient);
        }
        if deadline_expired {
            return Err(DefuseError::DeadlineExpired);
        }
        self.touch_account(&signer_id);
        proof {
            let a = account_or_fresh(old(self)@.accounts, signer_id@);
            assert(self@.accounts =~= old(self)@.accounts.insert(signer_id@, a));
        }
        let ghost c1 = *self;
        if !self.has_public_key(&signer_id, &public_key) {
            return Err(DefuseError::PublicKeyNotExist);
        }
        match self.commit_nonce(signer_id.clone(), &nonce) {
            Ok(()) => {},
            Err(e) => {
                proof {
                    let a = account_or_fresh(old(self)@.accounts, signer_id@);
                    assert(a.nonces.insert(nonce@) =~= a.nonces);
                    assert(self@.accounts =~= old(self)@.accounts.insert(signer_id@, a));
                }
                return Err(e);
            },
        }
        proof {
            let a = account_or_fresh(old(self)@.accounts, signer_id@);
            assert(self@.accounts =~= old(self)@.accounts.insert(signer_id@, AccountView { nonces: a.nonces.insert(nonce@), ..a }));
            if batch_balanced(*old(self), *rt) {
                lemma_balanced_step(*old(self), *rt, c1);
                lemma_balanced_step(c1, *rt, *self);
            }
        }
        let outcomes = self.execute_intents(rt, &signer_id, intents)?;
        Ok((IntentExecutedEvent { account_id: signer_id, hash }, outcomes))
    }

    /// Executes signed requests in order, up to the first that fails, as
    /// `spec_execute_signed_all` says.
    pub fn execute_signed_intents(&mut self, rt: &mut RuntimeState, current_account_id: &AccountId, signed: Vec<SignedIntent>)
        -> (r: Result<Vec<(IntentExecutedEvent, Vec<IntentOutcome>)>, DefuseError>)
        requires
            old(self).wf(),
            old(rt).wf(),
            forall|i: int| 0 <= i < signed@.len() ==> signed_admissible(#[trigger] signed@[i]),
        ensures
            final(self).wf(),
            crate::replay::nonces_kept(old(self)@, final(self)@),
            final(rt).wf(),
            (final(self)@, final(rt)@, err_of(r)) == spec_execute_signed_all(old(self)@, old(rt)@, current_account_id@, signed@),
            r matches Ok(os) ==> os@.len() == signed@.len()
                && forall|i: int| 0 <= i < os@.len() ==> (#[trigger] os@[i]).0.account_id@ == signed@[i].signer_id@
                    && os@[i].0.hash == signed@[i].hash && os@[i].1@.len() == signed@[i].intents@.len(),
            batch_balanced(*old(self), *old(rt)) && r is Ok ==> batch_balanced(*final(self), *final(rt)),
    {
        broadcast use crate::replay::group_nonces_kept;
        let ghost all = signed@;
        let mut rest = signed;
        let mut outcomes: Vec<(IntentExecutedEvent, Vec<IntentOutcome>)> = Vec::new();
        let ghost mut k: int = 0;
        proof {
            assert(all.skip(0) =~= all);
        }
        while rest.len() > 0
            invariant
                self.wf(),
                rt.wf(),
                0 <= k <= all.len(),
                all == signed@,
                rest@ == all.skip(k),
                forall|i: int| 0 <= i < all.len() ==> signed_admissible(#[trigger] all[i]),
                spec_execute_signed_all(old(self)@, old(rt)@, current_account_id@, all)
                    == spec_execute_signed_all(self@, rt@, current_account_id@, rest@),
                outcomes@.len() == k,
                forall|i: int| 0 <= i < k ==> (#[trigger] outcomes@[i]).0.account_id@ == all[i].signer_id@
                    && outcomes@[i].0.hash == all[i].hash && outcomes@[i].1@.len() == all[i].intents@.len(),
                batch_balanced(*old(self), *old(rt)) ==> batch_balanced(*self, *rt),
                crate::replay::nonces_kept(old(self)@, self@),
            decreases rest@.len(),
        {
            let s = rest.remove(0);
            proof {
                assert(s == all[k]);
                assert(rest@ =~= all.skip(k + 1));
                assert(all.skip(k)[0] == all[k]);
                assert(all.skip(k).drop_first() =~= all.skip(k + 1));
            }
            let ghost pre = *self;
            let o = match self.execute_signed_intent(rt, current_account_id, s) {
                Ok(o) => o,
                Err(e) => {
                    proof {
                        crate::replay::lemma_nonces_kept_trans(old(self)@, pre@, self@);
                    }
                    return Err(e);
                },
            };
            proof {
                crate::replay::lemma_nonces_kept_trans(old(self)@, pre@, self@);
            }
            outcomes.push(o);
            proof {
                k = k + 1;
            }
        }
        proof {
            assert(all.skip(k).len() == 0);
        }
        Ok(outcomes)
    }
}

/// The earliest deadline of `s`, `u64::MAX` where there is none.
pub open spec fn min_deadline_of(s: Seq<SignedIntent>) -> u64
    decreases s.len(),
{
    if s.len() == 0 {
        u64::MAX
    } else {
        let m = min_deadline_of(s.drop_first());
        if s[0].deadline < m {
            s[0].deadline
        } else {
            m
        }
    }
}

/// The earliest deadline is no later than any request's deadline, and is
/// the deadline of one of them where there is any.
pub proof fn lemma_min_deadline(s: Seq<SignedIntent>)
    ensures
        forall|i: int| 0 <= i < s.len() ==> min_deadline_of(s) <= (#[trigger] s[i]).deadline,
        s.len() == 0 ==> min_deadline_of(s) == u64::MAX,
        s.len() > 0 ==> exists|i: int| 0 <= i < s.len() && min_deadline_of(s) == (#[trigger] s[i]).deadline,
    decreases s.len(),
{
    if s.len() > 0 {
        let rest = s.drop_first();
        lemma_min_deadline(rest);
        assert forall|i: int| 0 <= i < s.len() implies min_deadline_of(s) <= (#[trigger] s[i]).deadline by {
            if i > 0 {
                assert(s[i] == rest[i - 1]);
            }
        }
        if min_deadline_of(s) != s[0].deadline {
            let j = choose|j: int| 0 <= j < rest.len() && min_deadline_of(rest) == (#[trigger] rest[j]).deadline;
            assert(s[j + 1] == rest[j]);
        }
    }
}

/// A runtime with nothing postponed and no supply changes.
pub open spec fn fresh_runtime() -> RuntimeView {
    RuntimeView {
        postponed_deposits: Map::<Seq<char>, Map<TokenIdView, u128>>::empty(),
        total_supply_deltas: Map::<TokenIdView, i128>::empty(),
    }
}

impl Contract {
    /// Runs signed requests as one batch on this state, which the caller
    /// then discards, and reports what happened: the executed requests, the
    /// earliest deadline, the fee, and the supply changes that the batch
    /// leaves unmatched, if any. Where the requests fail, or the batch
    /// balances but cannot deliver its postponed deposits, the error comes
    /// back instead.
    pub fn simulate_intents(self, current_account_id: &AccountId, signed: Vec<SignedIntent>)
        -> (r: Result<SimulationOutput, DefuseError>)
        requires
            self.wf(),
            forall|i: int| 0 <= i < signed@.len() ==> signed_admissible(#[trigger] signed@[i]),
        ensures
            ({
                let res = spec_execute_signed_all(self@, fresh_runtime(), current_account_id@, signed@);
                let unchanged = res.1.total_supply_deltas == Map::<TokenIdView, i128>::empty();
                &&& (r is Ok) <==> res.2 is None && (!unchanged || deliver_fits(res.0.accounts, res.1.postponed_deposits))
                &&& r matches Err(e) ==> res.2 == Some(e) || (res.2 is None && e == DefuseError::BalanceOverflow)
                &&& r matches Ok(out) ==> {
                    &&& out.state.fee@ == self@.fee
                    &&& out.min_deadline == min_deadline_of(signed@)
                    &&& out.intents_executed@.len() == signed@.len()
                    &&& forall|i: int| 0 <= i < signed@.len() ==> (#[trigger] out.intents_executed@[i]).account_id@ == signed@[i].signer_id@
                        && out.intents_executed@[i].hash == signed@[i].hash
                    &&& (out.unmatched_deltas is None) <==> unchanged
                    &&& out.unmatched_deltas matches Some(v) ==> deltas_listed(v@.map_values(|p: (TokenId, i128)| (p.0@, p.1)), res.1.total_supply_deltas)
                }
            }),
    {
        let mut this = self;
        let fee = this.fee();
        let mut inspector = SimulateInspector::new();
        let ghost all = signed@;
        let n = signed.len();
        let mut i: usize = 0;
        proof {
            assert(all.skip(0) =~= all);
        }
        while i < n
            invariant
                n == all.len(),
                all == signed@,
                i <= n,
                inspector.intents_executed@.len() == 0,
                (if inspector.min_deadline < min_deadline_of(all.skip(i as int)) { inspector.min_deadline }
                    else { min_deadline_of(all.skip(i as int)) }) == min_deadline_of(all),
            decreases n - i,
        {
            let d = signed[i].deadline;
            proof {
                assert(all.skip(i as int)[0] == all[i as int]);
                assert(all.skip(i as int).drop_first() =~= all.skip(i + 1));
            }
            inspector.on_deadline(d);
            i = i + 1;
        }
        proof {
            assert(all.skip(n as int) =~= Seq::<SignedIntent>::empty());
        }
        let mut rt = RuntimeState::new();
        proof {
            assert(rt@ == fresh_runtime());
        }
        let results = this.execute_signed_intents(&mut rt, current_account_id, signed)?;
        let m = results.len();
        let mut j: usize = 0;
        while j < m
            invariant
                m == results@.len(),
                m == all.len(),
                j <= m,
                inspector.min_deadline == min_deadline_of(all),
                inspector.intents_executed@.len() == j,
                forall|k: int| 0 <= k < all.len() ==> (#[trigger] results@[k]).0.account_id@ == all[k].signer_id@
                    && results@[k].0.hash == all[k].hash,
                forall|k: int| 0 <= k < j ==> (#[trigger] inspector.intents_executed@[k]).account_id@ == all[k].signer_id@
                    && inspector.intents_executed@[k].hash == all[k].hash,
            decreases m - j,
        {
            let ev = &results[j].0;
            inspector.on_intent_executed(ev.account_id.clone(), ev.hash);
            j = j + 1;
        }
        let unmatched = if rt.supplies_unchanged() {
            rt.finalize(&mut this)?;
            None
        } else {
            Some(rt.supply_deltas())
        };
        Ok(SimulationOutput {
            intents_executed: inspector.intents_executed,
            min_deadline: inspector.min_deadline,
            unmatched_deltas: unmatched,
            state: StateOutput { fee },
        })
    }
}

/// The contract's state as a simulation reports it.
#[derive(Debug)]
pub struct StateOutput {
    pub fee: Pips,
}

/// What simulating a batch of signed requests reports.
#[derive(Debug)]
pub struct SimulationOutput {
    /// The signer and the hash of each request that executed.
    pub intents_executed: Vec<IntentExecutedEvent>,
    /// The earliest deadline among the requests.
    pub min_deadline: u64,
    /// The supply changes left unmatched, where the batch would violate the
    /// invariant; with the fee they tell the token diff that closes it.
    pub unmatched_deltas: Option<Vec<(TokenId, i128)>>,
    pub state: StateOutput,
}

impl SimulationOutput {
    /// Fails with the unmatched changes where there are any.
    pub fn into_result(self) -> (r: Result<(), Vec<(TokenId, i128)>>)
        ensures
            (r is Ok) <==> self.unmatched_deltas is None,
            r matches Err(v) ==> self.unmatched_deltas == Some(v),
    {
        match self.unmatched_deltas {
            Some(v) => Err(v),
            None => Ok(()),
        }
    }
}

/// Collects what a simulation reports: the executed requests and the
/// earliest deadline.
#[derive(Debug)]
pub struct SimulateInspector {
    pub intents_executed: Vec<IntentExecutedEvent>,
    pub min_deadline: u64,
}

impl SimulateInspector {
    /// Nothing executed yet; the latest possible deadline.
    pub fn new() -> (s: Self)
        ensures
            s.intents_executed@.len() == 0,
            s.min_deadline == u64::MAX,
    {
        SimulateInspector { intents_executed: Vec::new(), min_deadline: u64::MAX }
    }

    /// Notes a request's deadline.
    pub fn on_deadline(&mut self, deadline: u64)
        ensures
            final(self).min_deadline == if deadline < old(self).min_deadline { deadline } else { old(self).min_deadline },
            final(self).intents_executed@ == old(self).intents_executed@,
    {
        if deadline < self.min_deadline {
            self.min_deadline = deadline;
        }
    }

    /// Notes an executed request of `signer_id` with `hash`.
    pub fn on_intent_executed(&mut self, signer_id: AccountId, hash: [u8; 32])
        ensures
            final(self).intents_executed@ == old(self).intents_executed@.push(IntentExecutedEvent { account_id: signer_id, hash }),
            final(self).min_deadline == old(self).min_deadline,
    {
        self.intents_executed.push(IntentExecutedEvent { account_id: signer_id, hash });
    }
}

} // verus!
