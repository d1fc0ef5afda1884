//! The ways in which an operation can fail.

use vstd::prelude::*;

verus! {

/// Why an operation did not take place. Whatever was saved before the failure
/// stays saved; nothing is rolled back and nothing is tried again.
#[derive(Clone, Copy, Debug, PartialEq, Eq, Structural)]
pub enum DispatchError {
    /// The instruction payload is empty, cut short or otherwise malformed.
    InvalidInstruction,
    /// Fewer accounts were handed over than the operation reads.
    NotEnoughAccounts,
    /// The account's buffer does not hold a record of the expected kind.
    InvalidAccountData,
    /// The operation needs a connection that the record does not hold.
    ConnectionNotFound,
    /// The record, written out, is longer than the account's buffer.
    AccountDataTooSmall,
}

} // verus!
