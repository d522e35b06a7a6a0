use wallet_ledger::engine::{check_mutation, Kind};
use wallet_ledger::errors::MutationError;
use wallet_ledger::request::{validate_request, MutationRequest};

fn req(amount: i32, kind: &str, description: &str) -> MutationRequest {
    MutationRequest {
        amount,
        kind: kind.to_string(),
        description: description.to_string(),
    }
}

#[test]
fn validate_accepts_both_kinds() {
    assert_eq!(validate_request(&req(1, "d", "a")), Ok(Kind::Debit));
    assert_eq!(validate_request(&req(1, "c", "a")), Ok(Kind::Credit));
}

#[test]
fn validate_rejects_unknown_kind() {
    assert_eq!(
        validate_request(&req(1, "x", "a")),
        Err(MutationError::InvalidRequest)
    );
    assert_eq!(
        validate_request(&req(1, "", "a")),
        Err(MutationError::InvalidRequest)
    );
    assert_eq!(
        validate_request(&req(1, "cd", "a")),
        Err(MutationError::InvalidRequest)
    );
}

#[test]
fn validate_rejects_bad_description_length() {
    assert_eq!(
        validate_request(&req(1, "d", "")),
        Err(MutationError::InvalidRequest)
    );
    assert_eq!(
        validate_request(&req(1, "d", "abcdefghijk")),
        Err(MutationError::InvalidRequest)
    );
    assert_eq!(validate_request(&req(1, "d", "abcdefghij")), Ok(Kind::Debit));
}

#[test]
fn validate_rejects_non_positive_amount() {
    assert_eq!(
        validate_request(&req(0, "c", "a")),
        Err(MutationError::InvalidRequest)
    );
    assert_eq!(
        validate_request(&req(-5, "c", "a")),
        Err(MutationError::InvalidRequest)
    );
}

#[test]
fn engine_debit_within_limit() {
    assert_eq!(check_mutation(0, 100, 60, Kind::Debit), Ok(-60));
    assert_eq!(
        check_mutation(-60, 100, 60, Kind::Debit),
        Err(MutationError::InsufficientFunds)
    );
}

#[test]
fn engine_boundary_is_exact() {
    assert_eq!(check_mutation(0, 100, 100, Kind::Debit), Ok(-100));
    assert_eq!(
        check_mutation(0, 100, 101, Kind::Debit),
        Err(MutationError::InsufficientFunds)
    );
}

#[test]
fn engine_credit_is_never_rejected() {
    assert_eq!(check_mutation(-100, 100, 1, Kind::Credit), Ok(-99));
    assert_eq!(check_mutation(500, 0, 500, Kind::Credit), Ok(1000));
}
