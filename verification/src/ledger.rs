use vstd::prelude::*;

use crate::engine::{mutation_accepted, proposed_balance, Kind};
use crate::errors::MutationError;
use crate::request::{kind_of, valid_description, valid_request, MutationRequest};

verus! {

/// A wallet: a credit limit, a running balance, and the balance it was
/// seeded with (the baseline the audit log accounts from).
#[derive(Clone, Copy, Debug, PartialEq, Eq, Structural)]
pub struct Wallet {
    pub id: i32,
    pub limit: i32,
    pub balance: i64,
    pub initial_balance: i64,
}

/// One applied mutation, recorded atomically with its balance change.
/// `id` is assigned by the store, monotonically; `occurred_at` is the
/// store's commit timestamp, never the caller's.
#[derive(Debug, PartialEq)]
pub struct Transaction {
    pub id: u64,
    pub wallet_id: i32,
    pub amount: i32,
    pub kind: Kind,
    pub description: String,
    pub occurred_at: i64,
}

impl Clone for Transaction {
    fn clone(&self) -> (r: Self)
        ensures
            r == *self,
    {
        Transaction {
            id: self.id,
            wallet_id: self.wallet_id,
            amount: self.amount,
            kind: self.kind,
            description: self.description.clone(),
            occurred_at: self.occurred_at,
        }
    }
}

/// What a mutation returns on success: the wallet after the commit.
#[derive(Clone, Copy, Debug, PartialEq, Eq, Structural)]
pub struct WalletSnapshot {
    pub limit: i32,
    pub balance: i64,
}

/// A recent-activity view: the wallet now, plus its last mutations,
/// most recent first.
#[derive(Debug, PartialEq)]
pub struct Statement {
    pub limit: i32,
    pub balance: i64,
    pub as_of: i64,
    pub records: Vec<Transaction>,
}

/// The signed effect one record had on its wallet's balance.
pub open spec fn effect(t: Transaction) -> int {
    match t.kind {
        Kind::Debit => -(t.amount as int),
        Kind::Credit => t.amount as int,
    }
}

/// The cumulative effect of all records of one wallet.
pub open spec fn net_effect(recs: Seq<Transaction>, wallet_id: i32) -> int
    decreases recs.len(),
{
    if recs.len() == 0 {
        0
    } else {
        net_effect(recs.drop_last(), wallet_id) + if recs.last().wallet_id == wallet_id {
            effect(recs.last())
        } else {
            0
        }
    }
}

/// The up-to-`k` most recent records of one wallet, most recent first.
pub open spec fn recent_records(recs: Seq<Transaction>, wallet_id: i32, k: nat) -> Seq<Transaction>
    decreases recs.len(),
{
    if recs.len() == 0 || k == 0 {
        Seq::empty()
    } else if recs.last().wallet_id == wallet_id {
        seq![recs.last()] + recent_records(recs.drop_last(), wallet_id, (k - 1) as nat)
    } else {
        recent_records(recs.drop_last(), wallet_id, k)
    }
}

/// A committed wallet is well formed: the limit is non-negative and the
/// balance never lies below the negative limit.
pub open spec fn wallet_ok(w: Wallet) -> bool {
    &&& 0 <= w.limit
    &&& w.balance >= -(w.limit as int)
}

/// A committed audit record is well formed: its id is its position in the
/// log, its fields passed validation, and it is no newer than the store's
/// clock.
pub open spec fn record_ok(t: Transaction, position: int, clock: int) -> bool {
    &&& t.id == position
    &&& 1 <= t.amount
    &&& valid_description(t.description@)
    &&& t.occurred_at <= clock
}

/// The ledger store: wallets and an append-only audit log. In-memory model
/// of the durable state; exclusive access (`&mut`) is the atomic unit that
/// serializes read-check-write sequences on it.
pub struct Ledger {
    pub wallets: Vec<Wallet>,
    pub records: Vec<Transaction>,
    pub clock: i64,
}

impl Ledger {
    /// Whether some wallet has this id.
    pub open spec fn spec_has_wallet(self, id: i32) -> bool {
        exists|i: int| 0 <= i < self.wallets@.len() && self.wallets@[i].id == id
    }

    /// The index of the wallet with this id, when one exists.
    pub open spec fn wallet_index(self, id: i32) -> int {
        choose|i: int| 0 <= i < self.wallets@.len() && self.wallets@[i].id == id
    }

    /// The wallet with this id, when one exists.
    pub open spec fn spec_wallet(self, id: i32) -> Wallet {
        self.wallets@[self.wallet_index(id)]
    }

    /// The store's invariant, true of every committed state:
    /// - wallet ids are unique;
    /// - every wallet is within its credit limit;
    /// - every balance equals the seeded balance plus the cumulative effect
    ///   of the wallet's audit records — no orphaned record, no unrecorded
    ///   balance change;
    /// - record ids are their log positions, record fields passed
    ///   validation, and timestamps are monotone and bounded by the clock;
    /// - every record belongs to an existing wallet.
    pub open spec fn wf(self) -> bool {
        &&& forall|i: int, j: int|
            0 <= i < j < self.wallets@.len() ==> self.wallets@[i].id != self.wallets@[j].id
        &&& forall|i: int| 0 <= i < self.wallets@.len() ==> wallet_ok(#[trigger] self.wallets@[i])
        &&& forall|i: int|
            0 <= i < self.wallets@.len() ==> (#[trigger] self.wallets@[i]).balance
                == self.wallets@[i].initial_balance + net_effect(self.records@, self.wallets@[i].id)
        &&& forall|j: int|
            0 <= j < self.records@.len() ==> record_ok(
                #[trigger] self.records@[j],
                j,
                self.clock as int,
            )
        &&& forall|j: int|
            0 < j < self.records@.len() ==> (#[trigger] self.records@[j]).occurred_at
                >= self.records@[j - 1].occurred_at
        &&& forall|j: int|
            0 <= j < self.records@.len() ==> self.spec_has_wallet(
                (#[trigger] self.records@[j]).wallet_id,
            )
    }

    /// An empty store.
    pub fn new() -> (l: Ledger)
        ensures
            l.wf(),
            l.wallets@ == Seq::<Wallet>::empty(),
            l.records@ == Seq::<Transaction>::empty(),
            l.clock == 0,
    {
        Ledger { wallets: Vec::new(), records: Vec::new(), clock: 0 }
    }

    /// Seeds a wallet. Provisioning is outside the mutation protocol: the
    /// id must be fresh and the seeded state within the limit.
    #[verifier::rlimit(50)]
    pub fn create_wallet(&mut self, id: i32, limit: i32, balance: i64)
        requires
            old(self).wf(),
            !old(self).spec_has_wallet(id),
            0 <= limit,
            -(limit as int) <= balance,
        ensures
            final(self).wf(),
            final(self).wallets@ == old(self).wallets@.push(
                Wallet { id, limit, balance, initial_balance: balance },
            ),
            final(self).records@ == old(self).records@,
            final(self).clock == old(self).clock,
    {
        proof {
            assert forall|j: int| 0 <= j < self.records@.len() implies (
            #[trigger] self.records@[j]).wallet_id != id by {
                assert(self.spec_has_wallet(self.records@[j].wallet_id));
            }
            lemma_net_effect_absent(self.records@, id);
        }
        self.wallets.push(Wallet { id, limit, balance, initial_balance: balance });
        proof {
            let pre = old(self).wallets@;
            let post = self.wallets@;
            let n = pre.len();
            assert forall|a: int, b: int| 0 <= a < b < post.len() implies post[a].id
                != post[b].id by {
                if b < n {
                    assert(pre[a].id != pre[b].id);
                } else {
                    assert(post[b].id == id);
                    assert(pre[a].id != id) by {
                        if pre[a].id == id {
                            assert(old(self).spec_has_wallet(id));
                        }
                    }
                }
            }
            assert forall|i: int| 0 <= i < post.len() implies wallet_ok(#[trigger] post[i]) by {
                if i < n {
                    assert(wallet_ok(pre[i]));
                }
            }
            assert forall|i: int| 0 <= i < post.len() implies (#[trigger] post[i]).balance
                == post[i].initial_balance + net_effect(self.records@, post[i].id) by {
                if i < n {
                    assert(pre[i].balance == pre[i].initial_balance + net_effect(
                        old(self).records@,
                        pre[i].id,
                    ));
                } else {
                    assert(net_effect(self.records@, id) == 0);
                }
            }
            assert forall|j: int|
                0 <= j < self.records@.len() implies self.spec_has_wallet(
                (#[trigger] self.records@[j]).wallet_id,
            ) by {
                let w = old(self).records@[j].wallet_id;
                assert(old(self).spec_has_wallet(w));
                let i = choose|i: int| 0 <= i < pre.len() && pre[i].id == w;
                assert(post[i].id == w);
            }
        }
    }

    /// Finds the index of a wallet by id.
    fn find_wallet(&self, id: i32) -> (r: Option<usize>)
        ensures
            match r {
                Some(i) => i < self.wallets@.len() && self.wallets@[i as int].id == id,
                None => !self.spec_has_wallet(id),
            },
    {
        let mut i: usize = 0;
        while i < self.wallets.len()
            invariant
                i <= self.wallets@.len(),
                forall|k: int| 0 <= k < i ==> self.wallets@[k].id != id,
            decreases self.wallets@.len() - i,
        {
            if self.wallets[i].id == id {
                return Some(i);
            }
            i = i + 1;
        }
        None
    }

    /// Looks a wallet up by id.
    pub fn get_wallet(&self, id: i32) -> (r: Option<WalletSnapshot>)
        requires
            self.wf(),
        ensures
            match r {
                Some(s) => self.spec_has_wallet(id) && s.limit == self.spec_wallet(id).limit
                    && s.balance == self.spec_wallet(id).balance,
                None => !self.spec_has_wallet(id),
            },
    {
        match self.find_wallet(id) {
            Some(i) => {
                proof {
                    self.lemma_wallet_index_is(id, i as int);
                }
                Some(
                    WalletSnapshot {
                        limit: self.wallets[i].limit,
                        balance: self.wallets[i].balance,
                    },
                )
            },
            None => None,
        }
    }

    /// With unique ids, the index found for an id is the wallet's index.
    proof fn lemma_wallet_index_is(self, id: i32, i: int)
        requires
            forall|a: int, b: int|
                0 <= a < b < self.wallets@.len() ==> self.wallets@[a].id != self.wallets@[b].id,
            0 <= i < self.wallets@.len(),
            self.wallets@[i].id == id,
        ensures
            self.spec_has_wallet(id),
            self.wallet_index(id) == i,
    {
        assert(self.spec_has_wallet(id));
        let j = self.wallet_index(id);
        assert(0 <= j < self.wallets@.len() && self.wallets@[j].id == id);
        if j < i {
            assert(self.wallets@[j].id != self.wallets@[i].id);
        } else if i < j {
            assert(self.wallets@[i].id != self.wallets@[j].id);
        }
    }
}

/// The timestamp the store assigns to a commit requested at `now`: its
/// clock never runs backwards.
pub open spec fn stamp_of(pre: Ledger, now: i64) -> int {
    if now > pre.clock {
        now as int
    } else {
        pre.clock as int
    }
}

/// The audit record an accepted mutation appends.
pub open spec fn new_record(
    pre: Ledger,
    wallet_id: i32,
    req: MutationRequest,
    now: i64,
    kind: Kind,
) -> Transaction {
    Transaction {
        id: pre.records@.len() as u64,
        wallet_id: wallet_id,
        amount: req.amount,
        kind: kind,
        description: req.description,
        occurred_at: stamp_of(pre, now) as i64,
    }
}

/// What one `apply_mutation` call does, in full: which result comes back
/// for which input, and how the committed state changes.
///
/// Exactly one case applies:
/// - an invalid request is rejected before any storage access;
/// - an unknown wallet id is `WalletNotFound`;
/// - a debit past the credit limit is `InsufficientFunds`;
/// - a proposed balance the store cannot represent is `StorageFailure`;
/// - otherwise the new balance and its audit record are committed as one
///   unit and the updated snapshot is returned.
/// In every rejecting case the state is exactly the old one.
pub open spec fn mutation_spec(
    pre: Ledger,
    post: Ledger,
    wallet_id: i32,
    req: MutationRequest,
    now: i64,
    r: Result<WalletSnapshot, MutationError>,
) -> bool {
    if !valid_request(req) {
        post == pre && r == Err::<WalletSnapshot, MutationError>(MutationError::InvalidRequest)
    } else if !pre.spec_has_wallet(wallet_id) {
        post == pre && r == Err::<WalletSnapshot, MutationError>(MutationError::WalletNotFound)
    } else {
        let kind = kind_of(req.kind@)->Some_0;
        let i = pre.wallet_index(wallet_id);
        let w = pre.wallets@[i];
        let proposed = proposed_balance(w.balance as int, req.amount as int, kind);
        if !mutation_accepted(w.balance as int, w.limit as int, req.amount as int, kind) {
            post == pre && r == Err::<WalletSnapshot, MutationError>(
                MutationError::InsufficientFunds,
            )
        } else if proposed > i64::MAX {
            post == pre && r == Err::<WalletSnapshot, MutationError>(MutationError::StorageFailure)
        } else {
            &&& r == Ok::<WalletSnapshot, MutationError>(
                WalletSnapshot { limit: w.limit, balance: proposed as i64 },
            )
            &&& post.wallets@ == pre.wallets@.update(
                i,
                Wallet {
                    id: w.id,
                    limit: w.limit,
                    balance: proposed as i64,
                    initial_balance: w.initial_balance,
                },
            )
            &&& post.records@ == pre.records@.push(new_record(pre, wallet_id, req, now, kind))
            &&& post.clock as int == stamp_of(pre, now)
        }
    }
}

impl Ledger {
    /// Transaction coordinator: one mutation end-to-end.
    ///
    /// Validates the request, looks the wallet up, runs the balance
    /// invariant engine against the current balance, and commits the new
    /// balance together with its audit record as one atomic unit — the
    /// exclusive borrow of the store serializes concurrent callers.
    /// `now` is the wall-clock reading the store stamps the commit with
    /// (it never moves its clock backwards).
    #[verifier::rlimit(50)]
    pub fn apply_mutation(&mut self, wallet_id: i32, req: MutationRequest, now: i64) -> (r: Result<
        WalletSnapshot,
        MutationError,
    >)
        requires
            old(self).wf(),
        ensures
            final(self).wf(),
            mutation_spec(*old(self), *final(self), wallet_id, req, now, r),
    {
        let kind = match crate::request::validate_request(&req) {
            Ok(k) => k,
            Err(e) => {
                return Err(e);
            },
        };
        let i = match self.find_wallet(wallet_id) {
            Some(i) => i,
            None => {
                return Err(MutationError::WalletNotFound);
            },
        };
        proof {
            self.lemma_wallet_index_is(wallet_id, i as int);
        }
        let balance = self.wallets[i].balance;
        let limit = self.wallets[i].limit;
        if kind == Kind::Credit && balance > i64::MAX - (req.amount as i64) {
            return Err(MutationError::StorageFailure);
        }
        let proposed = match crate::engine::check_mutation(balance, limit, req.amount, kind) {
            Ok(p) => p,
            Err(e) => {
                return Err(e);
            },
        };
        let stamp = if now > self.clock {
            now
        } else {
            self.clock
        };
        let ghost pre = *self;
        let record = Transaction {
            id: self.records.len() as u64,
            wallet_id: wallet_id,
            amount: req.amount,
            kind: kind,
            description: req.description,
            occurred_at: stamp,
        };
        self.clock = stamp;
        self.wallets[i].balance = proposed;
        self.records.push(record);
        proof {
            self.lemma_commit_preserves_wf(pre, i as int, record, proposed);
        }
        Ok(WalletSnapshot { limit, balance: proposed })
    }

    /// Committing one well-formed record together with the balance change
    /// it accounts for preserves the store invariant.
    #[verifier::rlimit(80)]
    proof fn lemma_commit_preserves_wf(
        self,
        pre: Ledger,
        i: int,
        record: Transaction,
        proposed: i64,
    )
        requires
            pre.wf(),
            0 <= i < pre.wallets@.len(),
            record.wallet_id == pre.wallets@[i].id,
            record.id == pre.records@.len(),
            1 <= record.amount,
            valid_description(record.description@),
            record.occurred_at as int == stamp_of(pre, record.occurred_at),
            self.clock == record.occurred_at,
            proposed as int == pre.wallets@[i].balance + effect(record),
            proposed as int >= -(pre.wallets@[i].limit as int),
            self.wallets@ == pre.wallets@.update(
                i,
                Wallet {
                    id: pre.wallets@[i].id,
                    limit: pre.wallets@[i].limit,
                    balance: proposed,
                    initial_balance: pre.wallets@[i].initial_balance,
                },
            ),
            self.records@ == pre.records@.push(record),
        ensures
            self.wf(),
    {
        let prew = pre.wallets@;
        let postw = self.wallets@;
        let prer = pre.records@;
        let postr = self.records@;
        let n = prer.len();
        assert forall|a: int, b: int| 0 <= a < b < postw.len() implies postw[a].id
            != postw[b].id by {
            assert(prew[a].id != prew[b].id);
        }
        assert forall|m: int| 0 <= m < postw.len() implies wallet_ok(#[trigger] postw[m]) by {
            assert(wallet_ok(prew[m]));
        }
        assert forall|m: int| 0 <= m < postw.len() implies (#[trigger] postw[m]).balance
            == postw[m].initial_balance + net_effect(postr, postw[m].id) by {
            lemma_net_effect_push(prer, record, prew[m].id);
            assert(prew[m].balance == prew[m].initial_balance + net_effect(prer, prew[m].id));
            if m != i {
                assert(prew[m].id != prew[i].id);
            }
        }
        assert forall|j: int| 0 <= j < postr.len() implies record_ok(
            #[trigger] postr[j],
            j,
            self.clock as int,
        ) by {
            if j < n {
                assert(record_ok(prer[j], j, pre.clock as int));
            }
        }
        assert forall|j: int| 0 < j < postr.len() implies (#[trigger] postr[j]).occurred_at
            >= postr[j - 1].occurred_at by {
            if j < n {
                assert(record_ok(prer[j], j, pre.clock as int));
                assert(prer[j].occurred_at >= prer[j - 1].occurred_at);
            } else {
                assert(record_ok(prer[j - 1], j - 1, pre.clock as int));
            }
        }
        assert forall|j: int| 0 <= j < postr.len() implies self.spec_has_wallet(
            (#[trigger] postr[j]).wallet_id,
        ) by {
            if j < n {
                let w = prer[j].wallet_id;
                assert(pre.spec_has_wallet(w));
                let m = choose|m: int| 0 <= m < prew.len() && prew[m].id == w;
                assert(postw[m].id == w);
            } else {
                assert(postw[i].id == record.wallet_id);
            }
        }
    }
}

/// What `build_statement` returns: `WalletNotFound` exactly when the id is
/// unknown, and otherwise the wallet's current limit and balance, the
/// caller-visible as-of time, and the wallet's up-to-10 most recent
/// records, most recent first.
pub open spec fn statement_rel(
    l: Ledger,
    wallet_id: i32,
    as_of: i64,
    r: Result<Statement, MutationError>,
) -> bool {
    if l.spec_has_wallet(wallet_id) {
        match r {
            Ok(st) => {
                &&& st.limit == l.spec_wallet(wallet_id).limit
                &&& st.balance == l.spec_wallet(wallet_id).balance
                &&& st.as_of == as_of
                &&& st.records@ == recent_records(l.records@, wallet_id, 10)
            },
            Err(_) => false,
        }
    } else {
        r == Err::<Statement, MutationError>(MutationError::WalletNotFound)
    }
}

impl Ledger {
    /// The up-to-`k` most recent audit records of one wallet, most recent
    /// first.
    pub fn list_recent(&self, wallet_id: i32, k: usize) -> (r: Vec<Transaction>)
        ensures
            r@ == recent_records(self.records@, wallet_id, k as nat),
    {
        let ghost all = self.records@;
        let mut out: Vec<Transaction> = Vec::new();
        let mut j: usize = self.records.len();
        proof {
            assert(all.subrange(j as int, all.len() as int) =~= Seq::<Transaction>::empty());
        }
        while j > 0 && out.len() < k
            invariant
                j <= all.len(),
                all == self.records@,
                out@ == recent_records(all.subrange(j as int, all.len() as int), wallet_id, k as nat),
                out@.len() <= k,
            decreases j,
        {
            j = j - 1;
            let ghost before = all.subrange(j as int + 1, all.len() as int);
            let ghost after = all.subrange(j as int, all.len() as int);
            let t = &self.records[j];
            if t.wallet_id == wallet_id {
                out.push(t.clone());
            }
            proof {
                assert(after =~= seq![all[j as int]] + before);
                lemma_recent_cons(all[j as int], before, wallet_id, k as nat);
            }
        }
        proof {
            let suffix = all.subrange(j as int, all.len() as int);
            if j > 0 {
                assert(out@.len() == k);
                assert(all =~= all.subrange(0, j as int) + suffix);
                lemma_recent_full(all.subrange(0, j as int), suffix, wallet_id, k as nat);
            } else {
                assert(suffix =~= all);
            }
        }
        out
    }

    /// `apply_mutation`, with the commit requested at the wall-clock time
    /// read now. The time is the one thing the environment decides, so the
    /// contract holds for some reading; everything else is as
    /// `mutation_spec` says.
    pub fn apply_mutation_now(&mut self, wallet_id: i32, req: MutationRequest) -> (r: Result<
        WalletSnapshot,
        MutationError,
    >)
        requires
            old(self).wf(),
        ensures
            final(self).wf(),
            exists|now: i64| mutation_spec(*old(self), *final(self), wallet_id, req, now, r),
    {
        let now = crate::clock::now_millis();
        let r = self.apply_mutation(wallet_id, req, now);
        proof {
            assert(mutation_spec(*old(self), *self, wallet_id, req, now, r));
        }
        r
    }

    /// Statement builder: the wallet's current snapshot plus its last 10
    /// audit records, most recent first. Read-only; both reads come from
    /// the same borrow of the store, so they reflect one point in time.
    pub fn build_statement(&self, wallet_id: i32, as_of: i64) -> (r: Result<
        Statement,
        MutationError,
    >)
        requires
            self.wf(),
        ensures
            statement_rel(*self, wallet_id, as_of, r),
    {
        let i = match self.find_wallet(wallet_id) {
            Some(i) => i,
            None => {
                return Err(MutationError::WalletNotFound);
            },
        };
        proof {
            self.lemma_wallet_index_is(wallet_id, i as int);
        }
        let records = self.list_recent(wallet_id, 10);
        Ok(
            Statement {
                limit: self.wallets[i].limit,
                balance: self.wallets[i].balance,
                as_of,
                records,
            },
        )
    }

    /// `build_statement`, stamped with the wall-clock time read now.
    pub fn build_statement_now(&self, wallet_id: i32) -> (r: Result<Statement, MutationError>)
        requires
            self.wf(),
        ensures
            exists|as_of: i64| statement_rel(*self, wallet_id, as_of, r),
    {
        let as_of = crate::clock::now_millis();
        let r = self.build_statement(wallet_id, as_of);
        proof {
            assert(statement_rel(*self, wallet_id, as_of, r));
        }
        r
    }
}

/// Scanning one older record first appends it to the recent view exactly
/// when that view still has budget and the record is the wallet's own.
proof fn lemma_recent_cons(t: Transaction, recs: Seq<Transaction>, wallet_id: i32, k: nat)
    ensures
        recent_records(seq![t] + recs, wallet_id, k) == (
        if recent_records(recs, wallet_id, k).len() < k && t.wallet_id == wallet_id {
            recent_records(recs, wallet_id, k).push(t)
        } else {
            recent_records(recs, wallet_id, k)
        }),
    decreases recs.len(),
{
    let whole = seq![t] + recs;
    if k == 0 {
        assert(recent_records(whole, wallet_id, k) =~= recent_records(recs, wallet_id, k));
    } else if recs.len() == 0 {
        assert(whole =~= seq![t]);
        assert(whole.last() == t);
        assert(whole.drop_last() =~= Seq::<Transaction>::empty());
        assert(recent_records(Seq::<Transaction>::empty(), wallet_id, (k - 1) as nat)
            =~= Seq::<Transaction>::empty());
        assert(recent_records(Seq::<Transaction>::empty(), wallet_id, k)
            =~= Seq::<Transaction>::empty());
        assert(recent_records(recs, wallet_id, k) =~= Seq::<Transaction>::empty());
        if t.wallet_id == wallet_id {
            assert(recent_records(whole, wallet_id, k) =~= seq![t] + Seq::<Transaction>::empty());
            assert(seq![t] + Seq::<Transaction>::empty() =~= seq![t]);
            assert(recent_records(recs, wallet_id, k).push(t) =~= seq![t]);
        }
    } else {
        assert(whole.last() == recs.last());
        assert(whole.drop_last() =~= seq![t] + recs.drop_last());
        if recs.last().wallet_id == wallet_id {
            lemma_recent_cons(t, recs.drop_last(), wallet_id, (k - 1) as nat);
            let inner = recent_records(recs.drop_last(), wallet_id, (k - 1) as nat);
            if inner.len() < (k - 1) as nat && t.wallet_id == wallet_id {
                assert((seq![recs.last()] + inner).push(t) =~= seq![recs.last()] + inner.push(t));
            }
        } else {
            lemma_recent_cons(t, recs.drop_last(), wallet_id, k);
        }
    }
}

/// Once the recent view is full, older records cannot change it.
proof fn lemma_recent_full(prefix: Seq<Transaction>, recs: Seq<Transaction>, wallet_id: i32, k: nat)
    requires
        recent_records(recs, wallet_id, k).len() == k,
    ensures
        recent_records(prefix + recs, wallet_id, k) == recent_records(recs, wallet_id, k),
    decreases prefix.len(),
{
    if prefix.len() > 0 {
        let t = prefix.last();
        let shorter = prefix.drop_last();
        lemma_recent_cons(t, recs, wallet_id, k);
        assert(recent_records(seq![t] + recs, wallet_id, k) == recent_records(recs, wallet_id, k));
        lemma_recent_full(shorter, seq![t] + recs, wallet_id, k);
        assert(prefix + recs =~= shorter + (seq![t] + recs));
    } else {
        assert(prefix + recs =~= recs);
    }
}

/// A wallet never mentioned in a log has no cumulative effect.
proof fn lemma_net_effect_absent(recs: Seq<Transaction>, wallet_id: i32)
    requires
        forall|j: int| 0 <= j < recs.len() ==> (#[trigger] recs[j]).wallet_id != wallet_id,
    ensures
        net_effect(recs, wallet_id) == 0,
    decreases recs.len(),
{
    if recs.len() > 0 {
        assert(recs.last() == recs[recs.len() - 1]);
        lemma_net_effect_absent(recs.drop_last(), wallet_id);
    }
}

/// Appending one record adds exactly its effect to its own wallet's
/// cumulative effect, and nothing to any other wallet's.
proof fn lemma_net_effect_push(recs: Seq<Transaction>, t: Transaction, wallet_id: i32)
    ensures
        net_effect(recs.push(t), wallet_id) == net_effect(recs, wallet_id) + (
        if t.wallet_id == wallet_id {
            effect(t)
        } else {
            0
        }),
{
    assert(recs.push(t).drop_last() =~= recs);
    assert(recs.push(t).last() == t);
}

} // verus!
