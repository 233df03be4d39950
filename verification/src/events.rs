//! The NEP-245 events that the contract's operations produce, as values for
//! the caller to log.

use vstd::prelude::*;

use crate::account_id::AccountId;

verus! {

/// A signed request of `account_id` ran; `hash` is the hash of its payload.
#[derive(Debug)]
pub struct IntentExecutedEvent {
    pub account_id: AccountId,
    pub hash: [u8; 32],
}

/// Tokens credited to an owner.
#[derive(Debug)]
pub struct MtMintEvent {
    pub owner_id: AccountId,
    pub token_ids: Vec<String>,
    pub amounts: Vec<u128>,
    pub memo: Option<String>,
}

/// Tokens taken from an owner.
#[derive(Debug)]
pub struct MtBurnEvent {
    pub owner_id: AccountId,
    pub authorized_id: Option<AccountId>,
    pub token_ids: Vec<String>,
    pub amounts: Vec<u128>,
    pub memo: Option<String>,
}

/// Tokens moved from one owner to another.
#[derive(Debug)]
pub struct MtTransferEvent {
    pub authorized_id: Option<AccountId>,
    pub old_owner_id: AccountId,
    pub new_owner_id: AccountId,
    pub token_ids: Vec<String>,
    pub amounts: Vec<u128>,
    pub memo: Option<String>,
}

/// The strings of `s`, as character sequences.
pub open spec fn strings_view(s: Seq<String>) -> Seq<Seq<char>> {
    s.map_values(|x: String| x@)
}

/// An optional string, as an optional character sequence.
pub open spec fn opt_string_view(o: Option<String>) -> Option<Seq<char>> {
    match o {
        Some(s) => Some(s@),
        None => None,
    }
}

/// A transfer event as values: old owner, new owner, token strings with
/// amounts, and memo.
pub open spec fn transfer_event_view(e: MtTransferEvent) -> (Seq<char>, Seq<char>, Seq<(Seq<char>, u128)>, Option<Seq<char>>) {
    (
        e.old_owner_id@,
        e.new_owner_id@,
        Seq::new(e.token_ids@.len(), |i: int| (e.token_ids@[i]@, e.amounts@[i])),
        opt_string_view(e.memo),
    )
}

/// The memo of withdrawals.
pub fn withdraw_memo() -> (s: String)
    ensures
        s@ == seq!['w', 'i', 't', 'h', 'd', 'r', 'a', 'w'],
{
    proof {
        reveal_strlit("withdraw");
    }
    "withdraw".to_owned()
}

/// The memo of deposits.
pub fn deposit_memo() -> (s: String)
    ensures
        s@ == seq!['d', 'e', 'p', 'o', 's', 'i', 't'],
{
    proof {
        reveal_strlit("deposit");
    }
    "deposit".to_owned()
}

/// The memo of refunds.
pub fn refund_memo() -> (s: String)
    ensures
        s@ == seq!['r', 'e', 'f', 'u', 'n', 'd'],
{
    proof {
        reveal_strlit("refund");
    }
    "refund".to_owned()
}

/// The memo of transfers that settle a token diff.
pub fn token_diff_memo() -> (s: String)
    ensures
        s@ == seq!['t', 'o', 'k', 'e', 'n', '_', 'd', 'i', 'f', 'f'],
{
    proof {
        reveal_strlit("token_diff");
    }
    "token_diff".to_owned()
}

} // verus!
