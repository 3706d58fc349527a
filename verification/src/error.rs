//! Why an operation was refused.

use cosmwasm_std::StdError;
use vstd::prelude::*;

verus! {

/// The error type of cosmwasm_std, carried through without being read.
#[verifier::external_type_specification]
#[verifier::external_body]
pub struct ExStdError(StdError);

#[derive(Debug)]
pub enum ContractError {
    /// An entry in the storage reads as no record; the storage's error is kept.
    Std(StdError),
    /// The address validator refused an address; its error is kept.
    InvalidIdentifier(StdError),
    /// `NoMove` was submitted as a player's choice.
    InvalidMove,
    /// The host's address is longer than the key scheme can frame.
    KeyTooLong,
    /// A session for this host and opponent exists already.
    GameInProgress,
    /// No session for this host and opponent exists.
    NoSuchGame,
    /// The session was resolved before.
    GameAlreadyResolved,
    /// A stored record holds a code that stands for no move or result.
    CorruptRecord,
}

} // verus!
