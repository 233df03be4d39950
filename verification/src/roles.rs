//! Access-control roles of the contract.

use vstd::prelude::*;

verus! {

/// The roles that the access-control list grants.
#[derive(PartialEq, Eq, Structural, Clone, Copy, Debug, PartialOrd, Ord, Hash)]
pub enum Role {
    DAO,
    FeesManager,
    RelayerKeysManager,
    UnrestrictedWithdrawer,
    PauseManager,
    Upgrader,
}

} // verus!
