//! The errors that the contract's operations report.

use vstd::prelude::*;

use crate::token_id::ParseTokenIdError;

verus! {

#[derive(PartialEq, Eq, Structural, Clone, Copy, Debug)]
pub enum DefuseError {
    AccountNotFound,
    BalanceOverflow,
    DeadlineExpired,
    InvalidIntent,
    InvalidSignature,
    InvariantViolated,
    NonceUsed,
    ParseTokenId(ParseTokenIdError),
    PublicKeyExists,
    PublicKeyNotExist,
    WrongRecipient,
}

} // verus!
