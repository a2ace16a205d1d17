//! Status codes of rejected transactions, and the reasons for which a
//! transaction is aborted.

use vstd::prelude::*;

verus! {

/// The player to create is there already.
pub const ERROR_PLAYER_ALREADY_EXIST: u32 = 1;

/// The command is for a player who is not there.
pub const ERROR_PLAYER_NOT_EXIST: u32 = 2;

/// The treasure does not cover the amount.
pub const ERROR_NOT_ENOUGH_BALANCE: u32 = 3;

/// The bounty names no local resource.
pub const ERROR_INDEX_OUT_OF_BOUND: u32 = 4;

/// The player holds no more of the resource than the bounty costs.
pub const ERROR_NOT_ENOUGH_RESOURCE: u32 = 5;

/// Why a transaction was aborted. An aborted transaction has no status: the
/// host gives up the batch that holds it.
#[derive(Clone, Copy, Debug, PartialEq, Eq)]
pub enum Abort {
    /// An administrator's command was signed with another key.
    NotAdmin,
    /// The transaction does not carry the number that its player expects.
    NonceMismatch,
    /// The transaction refers to something that is not there, or a number
    /// would leave the range of its type.
    Fault,
}

} // verus!
