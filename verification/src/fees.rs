//! Fees in pips: millionths of an amount.

use vstd::prelude::*;

use crate::account_id::AccountId;

verus! {

/// The number of pips in the whole.
pub const MAX_PIPS: u32 = 1_000_000u32;

/// A fraction of an amount, in millionths; at most the whole.
#[derive(PartialEq, Eq, Structural, Clone, Copy, Debug)]
pub struct Pips {
    pips: u32,
}

impl View for Pips {
    type V = u32;

    closed spec fn view(&self) -> u32 {
        self.pips
    }
}

/// The fee of `pips` on `amount`, rounded up.
pub open spec fn spec_fee_ceil(amount: nat, pips: nat) -> nat {
    (((amount * pips) as int + (MAX_PIPS - 1) as int) / MAX_PIPS as int) as nat
}

/// The fee of `pips` on `amount`, rounded down.
pub open spec fn spec_fee(amount: nat, pips: nat) -> nat {
    ((amount * pips) as int / MAX_PIPS as int) as nat
}

impl Pips {
    pub closed spec fn wf(&self) -> bool {
        self.pips <= MAX_PIPS
    }

    pub proof fn lemma_wf(&self)
        requires
            self.wf(),
        ensures
            self@ <= MAX_PIPS,
    {
    }

    pub fn zero() -> (p: Pips)
        ensures
            p@ == 0,
            p.wf(),
    {
        Pips { pips: 0 }
    }

    /// The fraction `pips` / 1 000 000, where it is at most the whole.
    pub fn from_pips(pips: u32) -> (r: Option<Pips>)
        ensures
            (r is Some) <==> pips <= MAX_PIPS,
            r matches Some(p) ==> p@ == pips && p.wf(),
    {
        if pips > MAX_PIPS {
            None
        } else {
            Some(Pips { pips })
        }
    }

    pub fn as_pips(&self) -> (p: u32)
        ensures
            p == self@,
    {
        self.pips
    }

    /// The fee on `amount`, rounded down.
    pub fn fee(&self, amount: u128) -> (f: u128)
        requires
            self.wf(),
        ensures
            f == spec_fee(amount as nat, self@ as nat),
            f <= amount,
    {
        let m = MAX_PIPS as u128;
        let p = self.pips as u128;
        let q = amount / m;
        let r = amount % m;
        proof {
            lemma_fee_split(amount as int, p as int, q as int, r as int, 0);
        }
        q * p + (r * p) / m
    }

    /// The fee on `amount`, rounded up.
    pub fn fee_ceil(&self, amount: u128) -> (f: u128)
        requires
            self.wf(),
        ensures
            f == spec_fee_ceil(amount as nat, self@ as nat),
            f <= amount,
    {
        let m = MAX_PIPS as u128;
        let p = self.pips as u128;
        let q = amount / m;
        let r = amount % m;
        proof {
            lemma_fee_split(amount as int, p as int, q as int, r as int, (MAX_PIPS - 1) as int);
        }
        q * p + (r * p + (m - 1)) / m
    }
}

/// Splitting `amount` as `q * 1e6 + r` keeps the fee exact and in range.
proof fn lemma_fee_split(amount: int, p: int, q: int, r: int, c: int)
    requires
        0 <= p <= MAX_PIPS,
        0 <= amount <= u128::MAX,
        q == amount / MAX_PIPS as int,
        r == amount % MAX_PIPS as int,
        0 <= c < MAX_PIPS,
    ensures
        (amount * p + c) / MAX_PIPS as int == q * p + (r * p + c) / MAX_PIPS as int,
        q * p + (r * p + c) / MAX_PIPS as int <= amount,
        0 <= r * p + c < 1_000_000 * 1_000_000 + 1_000_000,
        0 <= q * p <= amount,
        0 <= (r * p + c) / MAX_PIPS as int,
{
    let m: int = MAX_PIPS as int;
    assert(amount == q * m + r && 0 <= r < m && q >= 0) by (nonlinear_arith)
        requires q == amount / m, r == amount % m, m > 0, amount >= 0;
    assert(amount * p + c == (q * p) * m + (r * p + c)) by (nonlinear_arith)
        requires amount == q * m + r;
    assert(r * p <= r * m && r * p >= 0) by (nonlinear_arith) requires p <= m, r >= 0, p >= 0;
    assert(q * p <= q * m && q * p >= 0) by (nonlinear_arith) requires p <= m, q >= 0, p >= 0;
    assert((amount * p + c) / m == q * p + (r * p + c) / m) by (nonlinear_arith)
        requires amount * p + c == (q * p) * m + (r * p + c), m > 0, q * p >= 0, r * p + c >= 0;
    assert((r * p + c) / m <= r && (r * p + c) / m >= 0) by (nonlinear_arith)
        requires r * p <= r * m, 0 <= c < m, m > 0, r >= 0, r * p >= 0;
    assert(r * p + c < 1_000_000 * 1_000_000 + 1_000_000) by (nonlinear_arith)
        requires 0 <= r < m, 0 <= p <= m, 0 <= c < m, m == 1_000_000;
    assert(q * m + r == amount);
    assert(q * p + (r * p + c) / m <= q * m + r);
}

/// The fee and who collects it.
#[derive(Debug)]
pub struct FeesConfig {
    pub fee: Pips,
    pub fee_collector: AccountId,
}

} // verus!
