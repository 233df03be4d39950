//! Gas budgets of the contract's own callbacks and outgoing calls.
//!
//! Gas is counted in units of 10^-12 Tgas as a `u64`; every sum and product
//! saturates at `u64::MAX`, as gas arithmetic of the NEAR SDK does.

use vstd::prelude::*;

verus! {

pub const TGAS: u64 = 1_000_000_000_000;

pub const GGAS: u64 = 1_000_000_000;

/// Gas for a `storage_deposit` call on a token contract.
pub const STORAGE_DEPOSIT_GAS: u64 = 10_000_000_000_000;

/// Gas for an outgoing `ft_transfer`.
pub const FT_TRANSFER_GAS: u64 = 15_000_000_000_000;

/// Gas for an outgoing `nft_transfer`.
pub const NFT_TRANSFER_GAS: u64 = 15_000_000_000_000;

/// Gas for resolving a fungible or non-fungible withdrawal.
pub const RESOLVE_WITHDRAW_GAS: u64 = 5_000_000_000_000;

/// Gas for the transfer step of a fungible withdrawal that pays for storage:
/// 3 Tgas, the storage deposit and the transfer.
pub const DO_FT_WITHDRAW_GAS: u64 = 28_000_000_000_000;

/// Gas for the transfer step of a non-fungible withdrawal that pays for
/// storage: 3 Tgas, the storage deposit and the transfer.
pub const DO_NFT_WITHDRAW_GAS: u64 = 28_000_000_000_000;

/// Gas for sending unwrapped NEAR: 3 Tgas and 1 Tgas for the transfer.
pub const DO_NATIVE_WITHDRAW_GAS: u64 = 4_000_000_000_000;

/// Gas for unwrapping wNEAR with `near_withdraw`.
pub const NEAR_WITHDRAW_GAS: u64 = 10_000_000_000_000;

/// `x`, capped at `u64::MAX`.
pub open spec fn sat(x: int) -> int {
    if x > u64::MAX {
        u64::MAX as int
    } else {
        x
    }
}

fn saturating_mul(a: u64, b: u64) -> (r: u64)
    ensures
        r == sat(a * b),
{
    match a.checked_mul(b) {
        Some(v) => v,
        None => u64::MAX,
    }
}

/// Gas for resolving a transfer call of `token_count` tokens: 5 Tgas and
/// 1 Tgas per token.
pub fn mt_resolve_transfer_gas(token_count: u64) -> (g: u64)
    ensures
        g == sat(5 * TGAS + sat(TGAS * token_count)),
{
    (5 * TGAS).saturating_add(saturating_mul(TGAS, token_count))
}

/// Gas for an outgoing `mt_batch_transfer` of `token_count` tokens: 15 Tgas
/// and 0.5 Tgas per token.
pub fn mt_batch_transfer_gas(token_count: u64) -> (g: u64)
    ensures
        g == sat(15 * TGAS + sat(500 * GGAS * token_count)),
{
    (15 * TGAS).saturating_add(saturating_mul(500 * GGAS, token_count))
}

/// Gas for resolving a multi-token withdrawal of `token_count` tokens:
/// 5 Tgas and 0.5 Tgas per token.
pub fn mt_resolve_withdraw_gas(token_count: u64) -> (g: u64)
    ensures
        g == sat(5 * TGAS + sat(500 * GGAS * token_count)),
{
    (5 * TGAS).saturating_add(saturating_mul(500 * GGAS, token_count))
}

/// Gas for the transfer step of a multi-token withdrawal that pays for
/// storage: 1 Tgas and 0.5 Tgas per token, the storage deposit, and the
/// outgoing `mt_batch_transfer`.
pub fn do_mt_withdraw_gas(token_count: u64) -> (g: u64)
    ensures
        g == sat(sat(sat(TGAS + sat(500 * GGAS * token_count)) + STORAGE_DEPOSIT_GAS)
            + sat(15 * TGAS + sat(500 * GGAS * token_count))),
{
    TGAS.saturating_add(saturating_mul(500 * GGAS, token_count))
        .saturating_add(STORAGE_DEPOSIT_GAS)
        .saturating_add(mt_batch_transfer_gas(token_count))
}

} // verus!
