use rivine::internals::idempotence::{IdempotentStateManager, NO_PRODUCER_ID};
use rivine::metrics::HealthStatus;
use rivine::protocol::error_codes;

#[test]
fn test_idempotent_sequence_validation() {
    let mut mgr = IdempotentStateManager::new();

    // The first batch.
    assert!(mgr.validate_and_advance(100, 0, "t", 0, 0, 2).is_ok());

    // The one that follows it.
    assert!(mgr.validate_and_advance(100, 0, "t", 0, 3, 1).is_ok());

    // The same once more.
    let err = mgr.validate_and_advance(100, 0, "t", 0, 3, 1).unwrap_err();
    assert_eq!(err, error_codes::DUPLICATE_SEQUENCE_NUMBER);

    // One from before.
    let err = mgr.validate_and_advance(100, 0, "t", 0, 1, 0).unwrap_err();
    assert_eq!(err, error_codes::OUT_OF_ORDER_SEQUENCE_NUMBER);

    assert!(mgr.validate_and_advance(100, 0, "t", 0, 4, 0).is_ok());
}

#[test]
fn test_non_idempotent_skipped() {
    let mut mgr = IdempotentStateManager::new();
    for _ in 0..3 {
        assert!(mgr
            .validate_and_advance(NO_PRODUCER_ID, 0, "t", 0, 0, 0)
            .is_ok());
    }
}

#[test]
fn partitions_and_producers_do_not_mix() {
    let mut mgr = IdempotentStateManager::default();
    assert!(mgr.validate_and_advance(1, 0, "t", 0, 5, 0).is_ok());
    assert!(mgr.validate_and_advance(1, 0, "t", 1, 5, 0).is_ok());
    assert!(mgr.validate_and_advance(2, 0, "t", 0, 5, 0).is_ok());
    assert!(mgr.validate_and_advance(1, 0, "u", 0, 5, 0).is_ok());
    assert_eq!(
        mgr.validate_and_advance(1, 0, "t", 0, 5, 0),
        Err(error_codes::DUPLICATE_SEQUENCE_NUMBER)
    );
}

#[test]
fn gaps_are_out_of_order() {
    let mut mgr = IdempotentStateManager::new();
    assert_eq!(mgr.validate_and_advance(1, 0, "t", 0, 0, 0), Ok(()));
    let gap = Err(error_codes::OUT_OF_ORDER_SEQUENCE_NUMBER);
    assert_eq!(mgr.validate_and_advance(1, 0, "t", 0, 5, 0), gap);
    assert_eq!(mgr.validate_and_advance(1, 0, "t", 0, 2, 0), gap);
    // Nothing has moved.
    assert_eq!(mgr.validate_and_advance(1, 0, "t", 0, 1, 3), Ok(()));
    assert_eq!(mgr.validate_and_advance(1, 0, "t", 0, 3, 0), gap);
    assert_eq!(mgr.validate_and_advance(1, 0, "t", 0, 5, 0), Ok(()));
}

#[test]
fn epochs_begin_anew() {
    let mut mgr = IdempotentStateManager::new();
    assert_eq!(mgr.validate_and_advance(1, 0, "t", 0, 0, 0), Ok(()));
    assert_eq!(mgr.validate_and_advance(1, 1, "t", 0, 0, 0), Ok(()));
    let again = Err(error_codes::DUPLICATE_SEQUENCE_NUMBER);
    assert_eq!(mgr.validate_and_advance(1, 1, "t", 0, 0, 0), again);
    assert_eq!(mgr.validate_and_advance(1, 0, "t", 0, 0, 0), again);
    assert_eq!(mgr.validate_and_advance(1, 0, "t", 0, 1, 0), Ok(()));
}

#[test]
fn refused_and_unchecked_batches_may_count_beyond_the_end() {
    let mut mgr = IdempotentStateManager::new();
    let max = i32::MAX;
    assert_eq!(mgr.validate_and_advance(NO_PRODUCER_ID, 0, "t", 0, max, max), Ok(()));
    assert_eq!(mgr.validate_and_advance(1, 0, "t", 0, max, 0), Ok(()));
    let again = Err(error_codes::DUPLICATE_SEQUENCE_NUMBER);
    assert_eq!(mgr.validate_and_advance(1, 0, "t", 0, max, max), again);
    let stray = Err(error_codes::OUT_OF_ORDER_SEQUENCE_NUMBER);
    assert_eq!(mgr.validate_and_advance(1, 0, "t", 0, i32::MIN, -1), stray);
}

#[test]
fn health() {
    let h = HealthStatus::default();
    assert_eq!((h.status, h.version), ("ok", "0.1.0"));
}
