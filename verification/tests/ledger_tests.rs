use wallet_ledger::engine::Kind;
use wallet_ledger::errors::MutationError;
use wallet_ledger::ledger::{Ledger, WalletSnapshot};
use wallet_ledger::request::MutationRequest;

fn req(amount: i32, kind: &str, description: &str) -> MutationRequest {
    MutationRequest {
        amount,
        kind: kind.to_string(),
        description: description.to_string(),
    }
}

#[test]
fn scenario_credit_then_debits() {
    let mut l = Ledger::new();
    l.create_wallet(1, 1000, 0);

    let r = l.apply_mutation(1, req(500, "c", "dep"), 10);
    assert_eq!(r, Ok(WalletSnapshot { limit: 1000, balance: 500 }));

    let r = l.apply_mutation(1, req(1400, "d", "pay"), 20);
    assert_eq!(r, Ok(WalletSnapshot { limit: 1000, balance: -900 }));

    let r = l.apply_mutation(1, req(200, "d", "pay2"), 30);
    assert_eq!(r, Err(MutationError::InsufficientFunds));

    let st = l.build_statement(1, 40).unwrap();
    assert_eq!(st.limit, 1000);
    assert_eq!(st.balance, -900);
    assert_eq!(st.as_of, 40);
    assert_eq!(st.records.len(), 2);
    assert_eq!(st.records[0].amount, 1400);
    assert_eq!(st.records[0].kind, Kind::Debit);
    assert_eq!(st.records[0].description, "pay");
    assert_eq!(st.records[1].amount, 500);
    assert_eq!(st.records[1].kind, Kind::Credit);
    assert_eq!(st.records[1].description, "dep");
}

#[test]
fn debit_to_exact_limit_succeeds_one_more_unit_fails() {
    let mut l = Ledger::new();
    l.create_wallet(2, 100, 0);

    let r = l.apply_mutation(2, req(100, "d", "all"), 1);
    assert_eq!(r, Ok(WalletSnapshot { limit: 100, balance: -100 }));

    let r = l.apply_mutation(2, req(1, "d", "one"), 2);
    assert_eq!(r, Err(MutationError::InsufficientFunds));
    assert_eq!(l.build_statement(2, 3).unwrap().balance, -100);
}

#[test]
fn serialized_debits_exactly_one_succeeds() {
    let mut l = Ledger::new();
    l.create_wallet(3, 100, 0);

    let mut successes = 0;
    let mut rejections = 0;
    for attempt in 0..5i64 {
        match l.apply_mutation(3, req(60, "d", "grab"), attempt) {
            Ok(snapshot) => {
                successes += 1;
                assert_eq!(snapshot.balance, -60);
            }
            Err(e) => {
                rejections += 1;
                assert_eq!(e, MutationError::InsufficientFunds);
            }
        }
    }
    assert_eq!(successes, 1);
    assert_eq!(rejections, 4);
    assert_eq!(l.build_statement(3, 9).unwrap().balance, -60);
}

#[test]
fn statement_read_is_idempotent() {
    let mut l = Ledger::new();
    l.create_wallet(4, 50, 10);
    l.apply_mutation(4, req(30, "d", "spend"), 5).unwrap();

    let st1 = l.build_statement(4, 100).unwrap();
    let st2 = l.build_statement(4, 200).unwrap();
    assert_eq!(st1.records, st2.records);
    assert_eq!(st1.balance, st2.balance);
    assert_eq!(st1.limit, st2.limit);
}

#[test]
fn validation_rejects_bad_input_without_state_change() {
    let mut l = Ledger::new();
    l.create_wallet(5, 10, 0);

    let r = l.apply_mutation(5, req(1, "d", "elevencharsx"), 1);
    assert_eq!(r, Err(MutationError::InvalidRequest));
    let r = l.apply_mutation(5, req(1, "d", ""), 1);
    assert_eq!(r, Err(MutationError::InvalidRequest));
    let r = l.apply_mutation(5, req(0, "d", "ok"), 1);
    assert_eq!(r, Err(MutationError::InvalidRequest));
    let r = l.apply_mutation(5, req(-7, "c", "ok"), 1);
    assert_eq!(r, Err(MutationError::InvalidRequest));
    let r = l.apply_mutation(5, req(1, "x", "ok"), 1);
    assert_eq!(r, Err(MutationError::InvalidRequest));
    let r = l.apply_mutation(5, req(1, "dd", "ok"), 1);
    assert_eq!(r, Err(MutationError::InvalidRequest));

    let st = l.build_statement(5, 2).unwrap();
    assert_eq!(st.balance, 0);
    assert_eq!(st.records.len(), 0);
}

#[test]
fn description_of_ten_characters_is_accepted() {
    let mut l = Ledger::new();
    l.create_wallet(6, 10, 0);
    let r = l.apply_mutation(6, req(2, "c", "abcdefghij"), 1);
    assert_eq!(r, Ok(WalletSnapshot { limit: 10, balance: 2 }));
}

#[test]
fn unknown_wallet_is_not_found() {
    let mut l = Ledger::new();
    l.create_wallet(7, 10, 0);
    assert_eq!(
        l.apply_mutation(8, req(1, "c", "x"), 1),
        Err(MutationError::WalletNotFound)
    );
    assert!(l.build_statement(9, 1).is_err());
    assert!(l.get_wallet(9).is_none());
    assert_eq!(
        l.get_wallet(7),
        Some(WalletSnapshot { limit: 10, balance: 0 })
    );
}

#[test]
fn statement_caps_at_ten_most_recent_first() {
    let mut l = Ledger::new();
    l.create_wallet(10, 0, 0);
    l.create_wallet(11, 0, 0);
    for i in 0..12i32 {
        l.apply_mutation(10, req(i + 1, "c", "c10"), i as i64).unwrap();
        l.apply_mutation(11, req(100, "c", "c11"), i as i64).unwrap();
    }
    let st = l.build_statement(10, 99).unwrap();
    assert_eq!(st.records.len(), 10);
    // the two oldest credits (amounts 1 and 2) have fallen off
    for (pos, rec) in st.records.iter().enumerate() {
        assert_eq!(rec.amount, 12 - pos as i32);
        assert_eq!(rec.wallet_id, 10);
    }
}

#[test]
fn credit_past_representable_balance_is_storage_failure() {
    let mut l = Ledger::new();
    l.create_wallet(12, 0, i64::MAX - 10);
    let r = l.apply_mutation(12, req(20, "c", "toomuch"), 1);
    assert_eq!(r, Err(MutationError::StorageFailure));
    assert_eq!(l.build_statement(12, 2).unwrap().balance, i64::MAX - 10);

    let r = l.apply_mutation(12, req(10, "c", "fits"), 2);
    assert_eq!(r, Ok(WalletSnapshot { limit: 0, balance: i64::MAX }));
}

#[test]
fn commit_timestamps_never_run_backwards() {
    let mut l = Ledger::new();
    l.create_wallet(13, 100, 0);
    l.apply_mutation(13, req(5, "c", "a"), 50).unwrap();
    l.apply_mutation(13, req(5, "c", "b"), 20).unwrap();
    l.apply_mutation(13, req(5, "c", "c"), 60).unwrap();
    let st = l.build_statement(13, 70).unwrap();
    assert_eq!(st.records.len(), 3);
    assert_eq!(st.records[0].occurred_at, 60);
    assert_eq!(st.records[1].occurred_at, 50);
    assert_eq!(st.records[2].occurred_at, 50);
    assert!(st.records[0].id > st.records[1].id);
    assert!(st.records[1].id > st.records[2].id);
}

#[test]
fn audit_log_accounts_for_every_balance_move() {
    let mut l = Ledger::new();
    l.create_wallet(14, 1000, 25);
    l.apply_mutation(14, req(100, "c", "in"), 1).unwrap();
    l.apply_mutation(14, req(40, "d", "out"), 2).unwrap();
    l.apply_mutation(14, req(2000, "d", "nope"), 3).unwrap_err();

    let st = l.build_statement(14, 4).unwrap();
    let net: i64 = st
        .records
        .iter()
        .map(|r| match r.kind {
            Kind::Debit => -(r.amount as i64),
            Kind::Credit => r.amount as i64,
        })
        .sum();
    assert_eq!(st.balance, 25 + net);
    assert_eq!(st.balance, 85);
}

#[test]
fn mutations_on_different_wallets_are_independent() {
    let mut l = Ledger::new();
    l.create_wallet(20, 100, 0);
    l.create_wallet(21, 100, 0);
    l.apply_mutation(20, req(100, "d", "w20"), 1).unwrap();
    let r = l.apply_mutation(21, req(100, "d", "w21"), 2);
    assert_eq!(r, Ok(WalletSnapshot { limit: 100, balance: -100 }));
    assert_eq!(l.build_statement(20, 3).unwrap().records.len(), 1);
    assert_eq!(l.build_statement(21, 3).unwrap().records.len(), 1);
}

#[test]
fn wall_clock_entry_points_behave_like_the_core() {
    let mut l = Ledger::new();
    l.create_wallet(30, 100, 0);
    let r = l.apply_mutation_now(30, req(40, "c", "dep"));
    assert_eq!(r, Ok(WalletSnapshot { limit: 100, balance: 40 }));
    let st = l.build_statement_now(30).unwrap();
    assert_eq!(st.balance, 40);
    assert_eq!(st.records.len(), 1);
    assert_eq!(st.records[0].description, "dep");
}
