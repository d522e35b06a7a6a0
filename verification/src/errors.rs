use vstd::prelude::*;

verus! {

/// Everything that can go wrong while serving a mutation or a statement.
///
/// All of these are returned as typed results, never as crashes:
/// - `InvalidRequest`: bad amount, kind or description; rejected before any
///   storage access.
/// - `WalletNotFound`: no wallet with the requested id.
/// - `InsufficientFunds`: the mutation would push the balance below the
///   negative credit limit; no state change occurs.
/// - `Conflict`: a concurrent-write retry budget was exhausted; safe to
///   retry. A store serialized by exclusive access never emits it; it is
///   here for gateways in front of optimistic stores.
/// - `StorageFailure`: the store could not commit the atomic unit; no partial
///   write is observable afterwards.
#[derive(Clone, Copy, Debug, PartialEq, Eq, Structural)]
pub enum MutationError {
    InvalidRequest,
    WalletNotFound,
    InsufficientFunds,
    Conflict,
    StorageFailure,
}

} // verus!
