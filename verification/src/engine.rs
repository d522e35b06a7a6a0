use vstd::prelude::*;

use crate::errors::MutationError;

verus! {

/// The two kinds of balance mutation.
#[derive(Clone, Copy, Debug, PartialEq, Eq, Structural)]
pub enum Kind {
    Debit,
    Credit,
}

/// The balance a mutation proposes: a debit subtracts its amount, a credit
/// adds it.
pub open spec fn proposed_balance(balance: int, amount: int, kind: Kind) -> int {
    match kind {
        Kind::Debit => balance - amount,
        Kind::Credit => balance + amount,
    }
}

/// A mutation is accepted iff it is a credit, or the proposed balance stays
/// at or above the negative credit limit. Credits can never be rejected.
pub open spec fn mutation_accepted(balance: int, limit: int, amount: int, kind: Kind) -> bool {
    kind is Credit || proposed_balance(balance, amount, kind) >= -limit
}

/// Balance invariant engine: pure decision logic, no I/O.
///
/// Given the current balance, the credit limit and a proposed mutation,
/// returns the proposed balance on acceptance and `InsufficientFunds` on
/// rejection.
pub fn check_mutation(balance: i64, limit: i32, amount: i32, kind: Kind) -> (r: Result<
    i64,
    MutationError,
>)
    requires
        1 <= amount,
        0 <= limit,
        i64::MIN <= proposed_balance(balance as int, amount as int, kind) <= i64::MAX,
    ensures
        mutation_accepted(balance as int, limit as int, amount as int, kind) ==> r == Ok::<
            i64,
            MutationError,
        >(proposed_balance(balance as int, amount as int, kind) as i64),
        !mutation_accepted(balance as int, limit as int, amount as int, kind) ==> r == Err::<
            i64,
            MutationError,
        >(MutationError::InsufficientFunds),
{
    let proposed: i64 = if kind == Kind::Debit {
        balance - (amount as i64)
    } else {
        balance + (amount as i64)
    };
    if kind == Kind::Debit && proposed < -(limit as i64) {
        Err(MutationError::InsufficientFunds)
    } else {
        Ok(proposed)
    }
}

} // verus!
