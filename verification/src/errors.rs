//! The error taxonomy reported by every fallible operation of the core.

use vstd::prelude::*;

verus! {

/// Typed errors returned by the contract facade, the ledger and the
/// order store. No error is ever swallowed: each operation reports
/// exactly one of these kinds, and its contract says on which inputs.
///
/// Balance queries treat an account or asset that was never credited as
/// zero rather than as an error; `NoSuchAccount` and `NoSuchAsset` stand
/// in the taxonomy for callers that must distinguish absence, such as
/// audits.
#[derive(Clone, Copy, Debug, PartialEq, Eq, Structural)]
pub enum DexError {
    /// An operation named an account in a context where its absence matters.
    NoSuchAccount,
    /// An operation named an asset in a context where its absence matters.
    NoSuchAsset,
    /// A debit or withdrawal asked for more than the spendable balance.
    InsufficientFunds,
    /// A credit would push a balance past the representable range.
    Overflow,
    /// An order with a zero amount, or one trading an asset for itself.
    InvalidOrder,
    /// A cancellation attempted by an account that does not own the order.
    NotOwner,
    /// A cancellation of an order already Filled or Cancelled.
    AlreadyTerminal,
    /// An order id that was never issued.
    OrderNotFound,
}

} // verus!
