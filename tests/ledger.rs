use sensor_chain::ledger::{AnchorError, AnchorLog, AnchorReceipt};

#[test]
fn anchor_round_trip() {
    let mut log = AnchorLog::new();
    let digest = "ab".repeat(32);
    let receipt = log.anchor(&digest, 1);
    assert_eq!(log.lookup(&receipt), Some((1, digest)));
}

#[test]
fn anchors_get_distinct_transactions() {
    let mut log = AnchorLog::new();
    let r0 = log.anchor("0", 7);
    let r1 = log.anchor("cafe", 8);
    assert_eq!(r0.tx_id, b"0".to_vec());
    assert_eq!(r1.tx_id, b"1".to_vec());
    assert_eq!(log.len(), 2);
    assert_eq!(log.lookup(&r0), Some((7, "0".to_string())));
    assert_eq!(log.lookup(&r1), Some((8, "cafe".to_string())));
}

#[test]
fn unknown_transaction_reads_nothing() {
    let mut log = AnchorLog::new();
    log.anchor("d1", 1);
    let unknown = AnchorReceipt { tx_id: b"5".to_vec() };
    assert_eq!(log.lookup(&unknown), None);
}

#[test]
fn only_transport_errors_are_retryable() {
    assert!(AnchorError::Transport.is_retryable());
    assert!(!AnchorError::Configuration.is_retryable());
    assert!(!AnchorError::Signing.is_retryable());
    assert!(!AnchorError::LedgerRejected.is_retryable());
}
