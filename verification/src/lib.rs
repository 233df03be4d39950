//! Verified accounting core of the Defuse intents contract.
//!
//! The contract keeps, per account, token balances, public keys and used
//! nonces, and the total supply of every token. Tokens come in from other
//! contracts (`deposit`), leave to them (`withdraw`), move between accounts
//! (`multi_token`), and move within a batch of signed intents (`intents`),
//! whose deposits wait for the end of the batch and whose changes of supply
//! must cancel out there (`runtime`). Each operation is specified over a
//! value model of the state, and the total supply of every token equals
//! what the accounts hold of it outside a batch.

pub mod map;
pub mod account_id;
pub mod roles;
pub mod token_id;
pub mod amounts;
pub mod errors;
pub mod nonces;
pub mod crypto;
pub mod account;
pub mod accounts;
pub mod events;
pub mod fees;
pub mod gas;
pub mod contract;
pub mod withdraw;
pub mod calls;
pub mod deposit;
pub mod multi_token;
pub mod runtime;
pub mod intents;
pub mod transfer_log;
pub mod replay;
