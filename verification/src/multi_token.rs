//! The contract's NEP-245 face: balances and supplies by the string form of
//! token ids, and transfer calls that a resolution follows.

use vstd::prelude::*;

use crate::account_id::AccountId;
use crate::amounts::amount_in;
use crate::contract::{balances_of, result_matches, spec_transfer, Contract, ContractView};
use crate::errors::DefuseError;
use crate::events::{opt_string_view, strings_view, MtTransferEvent};
use crate::gas::{mt_resolve_transfer_gas, sat, TGAS};
use crate::token_id::{spec_parse_token_id, TokenId, TokenIdView};

verus! {

/// A token as NEP-245 describes it.
#[derive(Debug)]
pub struct Token {
    pub token_id: String,
    pub owner_id: Option<AccountId>,
}

/// The call that a transfer call makes on the receiver, and its resolution.
#[derive(Debug)]
pub struct TransferCallPlan {
    /// The previous owner of each token: the sender, once per token.
    pub previous_owner_ids: Vec<AccountId>,
    /// Gas for the receiver's `mt_on_transfer`, where it is fixed.
    pub on_transfer_gas: Option<u64>,
    /// Gas for resolving the call.
    pub resolve_gas: u64,
}

/// How much of the token that `token_id` names `id` holds; nothing where
/// the string is no token id.
pub open spec fn spec_mt_balance(accounts: Map<Seq<char>, crate::account::AccountView>, id: Seq<char>, token_id: Seq<char>) -> u128 {
    match spec_parse_token_id(token_id) {
        Some(t) => amount_in(balances_of(accounts, id), t) as u128,
        None => 0,
    }
}

/// The total supply of the token that `token_id` names, where it is one.
pub open spec fn spec_mt_supply(supplies: Map<TokenIdView, u128>, token_id: Seq<char>) -> Option<u128> {
    match spec_parse_token_id(token_id) {
        Some(t) => Some(amount_in(supplies, t) as u128),
        None => None,
    }
}

/// Whether `token_id` names a token of which some is in the contract.
pub open spec fn spec_mt_token_known(supplies: Map<TokenIdView, u128>, token_id: Seq<char>) -> bool {
    match spec_parse_token_id(token_id) {
        Some(t) => supplies.dom().contains(t),
        None => false,
    }
}

/// The call plan of a transfer call of `n` tokens from `sender_id`.
pub(crate) fn transfer_call_plan(sender_id: &AccountId, n: usize, on_transfer_gas: Option<u64>) -> (p: TransferCallPlan)
    ensures
        p.previous_owner_ids@.len() == n,
        forall|i: int| 0 <= i < n ==> (#[trigger] p.previous_owner_ids@[i])@ == sender_id@,
        p.resolve_gas == sat(5 * TGAS + sat(TGAS * n)),
        p.on_transfer_gas == on_transfer_gas,
{
    let mut previous_owner_ids: Vec<AccountId> = Vec::new();
    let mut i: usize = 0;
    while i < n
        invariant
            i <= n,
            previous_owner_ids@.len() == i,
            forall|j: int| 0 <= j < i ==> (#[trigger] previous_owner_ids@[j])@ == sender_id@,
        decreases n - i,
    {
        previous_owner_ids.push(sender_id.clone());
        i = i + 1;
    }
    TransferCallPlan { previous_owner_ids, on_transfer_gas, resolve_gas: mt_resolve_transfer_gas(n as u64) }
}

impl Contract {
    /// How much `account_id` holds of the token that `token_id` names; zero
    /// where it names none.
    pub fn internal_mt_balance_of(&self, account_id: &AccountId, token_id: &str) -> (b: u128)
        requires
            self.wf(),
        ensures
            b == spec_mt_balance(self@.accounts, account_id@, token_id@),
    {
        match TokenId::parse(token_id) {
            Ok(t) => self.balance_of(account_id, &t),
            Err(_) => 0,
        }
    }

    /// NEP-245 `mt_balance_of`.
    pub fn mt_balance_of(&self, account_id: &AccountId, token_id: &str) -> (b: u128)
        requires
            self.wf(),
        ensures
            b == spec_mt_balance(self@.accounts, account_id@, token_id@),
    {
        self.internal_mt_balance_of(account_id, token_id)
    }

    /// NEP-245 `mt_batch_balance_of`: the balance of each token in turn.
    pub fn mt_batch_balance_of(&self, account_id: &AccountId, token_ids: &Vec<String>) -> (r: Vec<u128>)
        requires
            self.wf(),
        ensures
            r@.len() == token_ids@.len(),
            forall|i: int| 0 <= i < token_ids@.len() ==> #[trigger] r@[i] == spec_mt_balance(self@.accounts, account_id@, token_ids@[i]@),
    {
        let mut r: Vec<u128> = Vec::new();
        let mut i: usize = 0;
        while i < token_ids.len()
            invariant
                self.wf(),
                i <= token_ids@.len(),
                r@.len() == i,
                forall|j: int| 0 <= j < i ==> #[trigger] r@[j] == spec_mt_balance(self@.accounts, account_id@, token_ids@[j]@),
            decreases token_ids@.len() - i,
        {
            let b = self.internal_mt_balance_of(account_id, token_ids[i].as_str());
            r.push(b);
            i = i + 1;
        }
        r
    }

    /// NEP-245 `mt_supply`: the total supply, `None` where the string names
    /// no token.
    pub fn mt_supply(&self, token_id: &str) -> (r: Option<u128>)
        requires
            self.wf(),
        ensures
            r == spec_mt_supply(self@.total_supplies, token_id@),
    {
        match TokenId::parse(token_id) {
            Ok(t) => Some(self.total_supply(&t)),
            Err(_) => None,
        }
    }

    /// NEP-245 `mt_batch_supply`: the supply of each token in turn.
    pub fn mt_batch_supply(&self, token_ids: &Vec<String>) -> (r: Vec<Option<u128>>)
        requires
            self.wf(),
        ensures
            r@.len() == token_ids@.len(),
            forall|i: int| 0 <= i < token_ids@.len() ==> #[trigger] r@[i] == spec_mt_supply(self@.total_supplies, token_ids@[i]@),
    {
        let mut r: Vec<Option<u128>> = Vec::new();
        let mut i: usize = 0;
        while i < token_ids.len()
            invariant
                self.wf(),
                i <= token_ids@.len(),
                r@.len() == i,
                forall|j: int| 0 <= j < i ==> #[trigger] r@[j] == spec_mt_supply(self@.total_supplies, token_ids@[j]@),
            decreases token_ids@.len() - i,
        {
            let s = self.mt_supply(token_ids[i].as_str());
            r.push(s);
            i = i + 1;
        }
        r
    }

    /// NEP-245 `mt_token`: for each string, the token it names where some
    /// of it is in the contract, without an owner.
    pub fn mt_token(&self, token_ids: Vec<String>) -> (r: Vec<Option<Token>>)
        requires
            self.wf(),
        ensures
            r@.len() == token_ids@.len(),
            forall|i: int| 0 <= i < token_ids@.len() ==> (#[trigger] r@[i] is Some) == spec_mt_token_known(self@.total_supplies, token_ids@[i]@),
            forall|i: int| 0 <= i < token_ids@.len() ==> (#[trigger] r@[i] matches Some(t) ==> t.token_id@ == token_ids@[i]@ && t.owner_id is None),
    {
        let mut r: Vec<Option<Token>> = Vec::new();
        let mut i: usize = 0;
        while i < token_ids.len()
            invariant
                self.wf(),
                i <= token_ids@.len(),
                r@.len() == i,
                forall|j: int| 0 <= j < i ==> (#[trigger] r@[j] is Some) == spec_mt_token_known(self@.total_supplies, token_ids@[j]@),
                forall|j: int| 0 <= j < i ==> (#[trigger] r@[j] matches Some(t) ==> t.token_id@ == token_ids@[j]@ && t.owner_id is None),
            decreases token_ids@.len() - i,
        {
            let known = match TokenId::parse(token_ids[i].as_str()) {
                Ok(t) => self.has_supply(&t),
                Err(_) => false,
            };
            if known {
                r.push(Some(Token { token_id: token_ids[i].clone(), owner_id: None }));
            } else {
                r.push(None);
            }
            i = i + 1;
        }
        r
    }

    /// Moves the tokens to `receiver_id` as `internal_mt_batch_transfer`
    /// does, and on success gives the call to make on the receiver: the
    /// sender as previous owner of every token, and the gas of the
    /// resolution, which grows with the number of tokens.
    pub fn internal_mt_batch_transfer_call(
        &mut self,
        sender_id: AccountId,
        receiver_id: AccountId,
        token_ids: Vec<String>,
        amounts: Vec<u128>,
        memo: Option<String>,
    ) -> (r: Result<(MtTransferEvent, TransferCallPlan), DefuseError>)
        requires
            old(self).wf(),
            receiver_id.valid(),
        ensures
            final(self).wf(),
            crate::replay::nonces_kept(old(self)@, final(self)@),
            sender_id@ == receiver_id@ || token_ids@.len() != amounts@.len() || amounts@.len() == 0 ==> r
                == Err::<(MtTransferEvent, TransferCallPlan), DefuseError>(DefuseError::InvalidIntent) && final(self)@ == old(self)@,
            !(sender_id@ == receiver_id@ || token_ids@.len() != amounts@.len() || amounts@.len() == 0) ==> {
                let res = spec_transfer(old(self)@.accounts, sender_id@, receiver_id@, strings_view(token_ids@), amounts@);
                &&& final(self)@ == (ContractView { accounts: res.0, ..old(self)@ })
                &&& result_matches(r, res.1)
            },
            r matches Ok(x) ==> {
                &&& x.0.old_owner_id@ == sender_id@
                &&& x.0.new_owner_id@ == receiver_id@
                &&& strings_view(x.0.token_ids@) == strings_view(token_ids@)
                &&& x.0.amounts@ == amounts@
                &&& opt_string_view(x.0.memo) == opt_string_view(memo)
                &&& x.1.previous_owner_ids@.len() == token_ids@.len()
                &&& forall|i: int| 0 <= i < token_ids@.len() ==> (#[trigger] x.1.previous_owner_ids@[i])@ == sender_id@
                &&& x.1.resolve_gas == sat(5 * TGAS + sat(TGAS * token_ids@.len()))
                &&& x.1.on_transfer_gas is None
            },
            r is Ok ==> forall|t: TokenIdView| #[trigger] final(self).spec_accounts_total(t) == old(self).spec_accounts_total(t),
            old(self).supply_consistent() ==> final(self).supply_consistent(),
    {
        broadcast use crate::replay::group_nonces_kept;
        let n = token_ids.len();
        let ev = match self.internal_mt_batch_transfer(&sender_id, receiver_id, token_ids, amounts, memo) {
            Ok(ev) => ev,
            Err(e) => {
                return Err(e);
            },
        };
        Ok((ev, transfer_call_plan(&sender_id, n, None)))
    }
}

impl Contract {
    /// NEP-245 `mt_transfer`: a batch transfer of one token.
    pub fn mt_transfer(&mut self, sender_id: &AccountId, receiver_id: AccountId, token_id: String, amount: u128, memo: Option<String>)
        -> (r: Result<MtTransferEvent, DefuseError>)
        requires
            old(self).wf(),
            receiver_id.valid(),
        ensures
            final(self).wf(),
            crate::replay::nonces_kept(old(self)@, final(self)@),
            sender_id@ == receiver_id@ ==> r == Err::<MtTransferEvent, DefuseError>(DefuseError::InvalidIntent)
                && final(self)@ == old(self)@,
            sender_id@ != receiver_id@ ==> {
                let res = spec_transfer(old(self)@.accounts, sender_id@, receiver_id@, seq![token_id@], seq![amount]);
                &&& final(self)@ == (ContractView { accounts: res.0, ..old(self)@ })
                &&& result_matches(r, res.1)
            },
            r matches Ok(ev) ==> ev.old_owner_id@ == sender_id@ && ev.new_owner_id@ == receiver_id@
                && ev.authorized_id is None && strings_view(ev.token_ids@) == seq![token_id@]
                && ev.amounts@ == seq![amount] && opt_string_view(ev.memo) == opt_string_view(memo),
            old(self).supply_consistent() ==> final(self).supply_consistent(),
    {
        broadcast use crate::replay::group_nonces_kept;
        let ghost tid = token_id@;
        let mut token_ids: Vec<String> = Vec::new();
        token_ids.push(token_id);
        let mut amounts: Vec<u128> = Vec::new();
        amounts.push(amount);
        proof {
            assert(strings_view(token_ids@) =~= seq![tid]);
            assert(amounts@ =~= seq![amount]);
        }
        self.internal_mt_batch_transfer(sender_id, receiver_id, token_ids, amounts, memo)
    }

    /// NEP-245 `mt_batch_transfer`; see `internal_mt_batch_transfer`.
    pub fn mt_batch_transfer(
        &mut self,
        sender_id: &AccountId,
        receiver_id: AccountId,
        token_ids: Vec<String>,
        amounts: Vec<u128>,
        memo: Option<String>,
    ) -> (r: Result<MtTransferEvent, DefuseError>)
        requires
            old(self).wf(),
            receiver_id.valid(),
        ensures
            final(self).wf(),
            crate::replay::nonces_kept(old(self)@, final(self)@),
            sender_id@ == receiver_id@ || token_ids@.len() != amounts@.len() || amounts@.len() == 0 ==> r
                == Err::<MtTransferEvent, DefuseError>(DefuseError::InvalidIntent) && final(self)@ == old(self)@,
            !(sender_id@ == receiver_id@ || token_ids@.len() != amounts@.len() || amounts@.len() == 0) ==> {
                let res = spec_transfer(old(self)@.accounts, sender_id@, receiver_id@, strings_view(token_ids@), amounts@);
                &&& final(self)@ == (ContractView { accounts: res.0, ..old(self)@ })
                &&& result_matches(r, res.1)
            },
            r matches Ok(ev) ==> ev.old_owner_id@ == sender_id@ && ev.new_owner_id@ == receiver_id@
                && ev.authorized_id is None && strings_view(ev.token_ids@) == strings_view(token_ids@)
                && ev.amounts@ == amounts@ && opt_string_view(ev.memo) == opt_string_view(memo),
            old(self).supply_consistent() ==> final(self).supply_consistent(),
    {
        broadcast use crate::replay::group_nonces_kept;
        self.internal_mt_batch_transfer(sender_id, receiver_id, token_ids, amounts, memo)
    }
}

} // verus!
