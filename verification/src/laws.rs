use vstd::prelude::*;

use crate::engine::{mutation_accepted, proposed_balance, Kind};
use crate::errors::MutationError;
use crate::ledger::{
    net_effect, recent_records, record_ok, statement_rel, wallet_ok, Ledger, Statement,
    Transaction,
};

verus! {

/// Invariant preservation: in every well-formed committed state — and every
/// mutation keeps the state well formed — no wallet's balance lies below
/// its negative credit limit.
pub proof fn lemma_balance_within_limit(l: Ledger, i: int)
    requires
        l.wf(),
        0 <= i < l.wallets@.len(),
    ensures
        l.wallets@[i].balance >= -(l.wallets@[i].limit as int),
{
    assert(wallet_ok(l.wallets@[i]));
}

/// Atomicity: in every well-formed committed state, each wallet's balance
/// and the audit log are mutually consistent — the cumulative effect of the
/// wallet's records is exactly the balance moved since seeding; no orphaned
/// record, no unrecorded balance change.
pub proof fn lemma_balance_matches_audit(l: Ledger, i: int)
    requires
        l.wf(),
        0 <= i < l.wallets@.len(),
    ensures
        net_effect(l.records@, l.wallets@[i].id) == l.wallets@[i].balance - l.wallets@[
            i
        ].initial_balance,
{
}

/// Boundary: a debit that brings the balance to exactly `-limit` is
/// accepted, and a debit of one more unit is rejected.
pub proof fn lemma_debit_boundary(balance: int, limit: int, amount: int)
    requires
        balance - amount == -limit,
    ensures
        mutation_accepted(balance, limit, amount, Kind::Debit),
        !mutation_accepted(balance, limit, amount + 1, Kind::Debit),
{
}

/// The balance and success count after `n` equal debits are applied in
/// turn, each decided by the invariant engine against the committed result
/// of the previous one — the total order concurrent callers serialize to.
pub open spec fn run_debits(balance: int, limit: int, amount: int, n: nat) -> (int, nat)
    decreases n,
{
    if n == 0 {
        (balance, 0 as nat)
    } else {
        let prior = run_debits(balance, limit, amount, (n - 1) as nat);
        if mutation_accepted(prior.0, limit, amount, Kind::Debit) {
            (proposed_balance(prior.0, amount, Kind::Debit), (prior.1 + 1) as nat)
        } else {
            prior
        }
    }
}

/// Linearizability: when one debit fits within the limit but a second one
/// would not, any number `n >= 1` of such debits serialized against the
/// same wallet yields exactly one success — whatever the order, the other
/// `n - 1` see the committed result and are rejected, and the final balance
/// is that of the single success.
pub proof fn lemma_single_debit_succeeds(balance: int, limit: int, amount: int, n: nat)
    requires
        balance - amount >= -limit,
        balance - 2 * amount < -limit,
        1 <= n,
    ensures
        run_debits(balance, limit, amount, n).0 == balance - amount,
        run_debits(balance, limit, amount, n).1 == 1,
    decreases n,
{
    if n == 1 {
        assert(run_debits(balance, limit, amount, 0) == (balance, 0 as nat));
        assert(mutation_accepted(balance, limit, amount, Kind::Debit));
    } else {
        lemma_single_debit_succeeds(balance, limit, amount, (n - 1) as nat);
        assert(!mutation_accepted(balance - amount, limit, amount, Kind::Debit));
    }
}

/// The contention scenario, concretely: any number of 60-unit debits
/// serialized against a wallet with balance 0 and limit 100 yield exactly
/// one success and a final balance of -60.
pub proof fn lemma_contended_debits(n: nat)
    requires
        1 <= n,
    ensures
        run_debits(0, 100, 60, n).0 == -60,
        run_debits(0, 100, 60, n).1 == 1,
{
    lemma_single_debit_succeeds(0, 100, 60, n);
}

/// Idempotent read: two statements built from the same committed state,
/// with no intervening mutation, carry identical records, balance and
/// limit — only the as-of stamp may differ.
pub proof fn lemma_statement_idempotent(
    l: Ledger,
    wallet_id: i32,
    t1: i64,
    t2: i64,
    r1: Result<Statement, MutationError>,
    r2: Result<Statement, MutationError>,
)
    requires
        statement_rel(l, wallet_id, t1, r1),
        statement_rel(l, wallet_id, t2, r2),
    ensures
        r1 is Ok <==> r2 is Ok,
        r1 is Ok ==> {
            &&& r1->Ok_0.records@ == r2->Ok_0.records@
            &&& r1->Ok_0.balance == r2->Ok_0.balance
            &&& r1->Ok_0.limit == r2->Ok_0.limit
        },
{
}

/// `x` is strictly more recent than `y`: a later commit timestamp, or the
/// same timestamp and a later store-assigned id.
pub open spec fn more_recent(x: Transaction, y: Transaction) -> bool {
    ||| x.occurred_at > y.occurred_at
    ||| (x.occurred_at == y.occurred_at && x.id > y.id)
}

/// Timestamps that never step backwards from one record to the next never
/// step backwards across any distance.
proof fn lemma_occurred_at_monotone(recs: Seq<Transaction>, i: int, j: int)
    requires
        forall|m: int|
            0 < m < recs.len() ==> (#[trigger] recs[m]).occurred_at >= recs[m - 1].occurred_at,
        0 <= i <= j < recs.len(),
    ensures
        recs[i].occurred_at <= recs[j].occurred_at,
    decreases j - i,
{
    if i < j {
        lemma_occurred_at_monotone(recs, i, j - 1);
        assert(recs[j].occurred_at >= recs[j - 1].occurred_at);
    }
}

/// In a log whose record ids are their positions, the recent view holds
/// records of the log, with strictly descending ids.
proof fn lemma_recent_ids_descend(recs: Seq<Transaction>, wallet_id: i32, k: nat)
    requires
        forall|j: int| 0 <= j < recs.len() ==> (#[trigger] recs[j]).id == j,
    ensures
        forall|a: int|
            0 <= a < recent_records(recs, wallet_id, k).len() ==> 0 <= (
            #[trigger] recent_records(recs, wallet_id, k)[a]).id < recs.len()
                && recent_records(recs, wallet_id, k)[a] == recs[recent_records(
                recs,
                wallet_id,
                k,
            )[a].id as int],
        forall|a: int, b: int|
            0 <= a < b < recent_records(recs, wallet_id, k).len() ==> (#[trigger] recent_records(
                recs,
                wallet_id,
                k,
            )[a]).id > (#[trigger] recent_records(recs, wallet_id, k)[b]).id,
    decreases recs.len(),
{
    let rr = recent_records(recs, wallet_id, k);
    if recs.len() == 0 || k == 0 {
    } else {
        let shorter = recs.drop_last();
        assert forall|j: int| 0 <= j < shorter.len() implies (#[trigger] shorter[j]).id == j by {
            assert(recs[j].id == j);
        }
        lemma_recent_ids_descend(shorter, wallet_id, (k - 1) as nat);
        lemma_recent_ids_descend(shorter, wallet_id, k);
        let inner = if recs.last().wallet_id == wallet_id {
            recent_records(shorter, wallet_id, (k - 1) as nat)
        } else {
            recent_records(shorter, wallet_id, k)
        };
        if recs.last().wallet_id == wallet_id {
            assert(rr == seq![recs.last()] + inner);
            assert(rr[0] == recs.last());
            assert(rr[0].id == recs.len() - 1);
            assert forall|a: int| 0 < a < rr.len() implies 0 <= (#[trigger] rr[a]).id
                < recs.len() && rr[a] == recs[rr[a].id as int] by {
                assert(rr[a] == inner[a - 1]);
                assert(inner[a - 1] == shorter[inner[a - 1].id as int]);
                assert(shorter[inner[a - 1].id as int] == recs[inner[a - 1].id as int]);
            }
        } else {
            assert(rr == inner);
            assert forall|a: int| 0 <= a < rr.len() implies 0 <= (#[trigger] rr[a]).id
                < recs.len() && rr[a] == recs[rr[a].id as int] by {
                assert(inner[a] == shorter[inner[a].id as int]);
                assert(shorter[inner[a].id as int] == recs[inner[a].id as int]);
            }
        }
    }
}

/// Statement determinism and order: in a well-formed store, the recent
/// view behind a statement is ordered most recent first — strictly
/// descending by commit timestamp, ties broken by store-assigned id
/// descending (insertion order).
pub proof fn lemma_statement_records_ordered(l: Ledger, wallet_id: i32, a: int, b: int)
    requires
        l.wf(),
        0 <= a < b < recent_records(l.records@, wallet_id, 10).len(),
    ensures
        more_recent(
            recent_records(l.records@, wallet_id, 10)[a],
            recent_records(l.records@, wallet_id, 10)[b],
        ),
{
    let recs = l.records@;
    let rr = recent_records(recs, wallet_id, 10);
    assert forall|j: int| 0 <= j < recs.len() implies (#[trigger] recs[j]).id == j by {
        assert(record_ok(recs[j], j, l.clock as int));
    }
    lemma_recent_ids_descend(recs, wallet_id, 10);
    let ia = rr[a].id as int;
    let ib = rr[b].id as int;
    assert(ib < ia);
    lemma_occurred_at_monotone(recs, ib, ia);
}

} // verus!
