use sensor_chain::chain::{ChainStore, Record, StoreError, Verification};
use sensor_chain::digest::{calculate_hash, record_message_bytes};
use sha2::{Digest, Sha256};

fn sha256_hex_of(bytes: &[u8]) -> String {
    format!("{:x}", Sha256::digest(bytes))
}

fn record(id: i64, name: &str, lat: f64, lng: f64, sensor_type: &str, created_at: &str) -> Record {
    Record::new(
        id,
        name.to_string(),
        format!("{:?}", lat),
        format!("{:?}", lng),
        sensor_type.to_string(),
        created_at.to_string(),
    )
}

fn store_of(records: Vec<Record>) -> ChainStore {
    let mut store = ChainStore::new();
    for r in records {
        store.insert(r).unwrap();
    }
    store
}

fn three_records() -> Vec<Record> {
    vec![
        record(3, "S3", 12.5, 22.25, "humidity", "2024-01-03"),
        record(1, "S1", 10.0, 20.0, "temp", "2024-01-01"),
        record(2, "S2", -33.8688, 151.2093, "temp", "2024-01-02"),
    ]
}

#[test]
fn message_frames_each_field() {
    let msg = record_message_bytes(1, "S1", "10.0", "20.0", "temp", "2024-01-01", "0");
    assert_eq!(msg, b"1:12:S14:10.04:20.04:temp10:2024-01-011:0".to_vec());
}

#[test]
fn message_of_negative_id() {
    let msg = record_message_bytes(-42, "", "", "", "", "", "0");
    assert_eq!(msg, b"3:-420:0:0:0:0:1:0".to_vec());
}

#[test]
fn message_counts_utf8_bytes() {
    let msg = record_message_bytes(7, "é", "", "", "", "", "");
    assert_eq!(msg, "1:72:é0:0:0:0:0:".as_bytes().to_vec());
}

#[test]
fn framing_separates_shifted_fields() {
    let a = record_message_bytes(1, "S1", "", "", "", "", "0");
    let b = record_message_bytes(1, "S", "1", "", "", "", "0");
    assert_ne!(a, b);
    assert_ne!(
        calculate_hash(1, "S1", "", "", "", "", "0"),
        calculate_hash(1, "S", "1", "", "", "", "0")
    );
}

#[test]
fn hash_is_sha256_of_message() {
    let expected = sha256_hex_of(b"1:12:S14:10.04:20.04:temp10:2024-01-011:0");
    let h = calculate_hash(1, "S1", "10.0", "20.0", "temp", "2024-01-01", "0");
    assert_eq!(h, expected);
    assert_eq!(h.len(), 64);
    assert!(h.chars().all(|c| c.is_ascii_digit() || ('a'..='f').contains(&c)));
}

#[test]
fn canonical_float_text() {
    assert_eq!(format!("{:?}", 10.0f64), "10.0");
    assert_eq!(format!("{:?}", -33.8688f64), "-33.8688");
}

#[test]
fn end_to_end_single_record() {
    let mut store = store_of(vec![record(1, "S1", 10.0, 20.0, "temp", "2024-01-01")]);
    let digest = store.build_chain();
    let expected = sha256_hex_of(b"1:12:S14:10.04:20.04:temp10:2024-01-011:0");
    let r = &store.records()[0];
    assert_eq!(r.previous_hash.as_deref(), Some("0"));
    assert_eq!(r.current_hash.as_deref(), Some(expected.as_str()));
    assert_eq!(digest, expected);
    assert!(matches!(store.verify_chain(), Verification::Valid));
}

#[test]
fn empty_store_yields_genesis() {
    let mut store = ChainStore::new();
    let digest = store.build_chain();
    assert_eq!(digest, "0");
    assert_eq!(store.len(), 0);
    assert!(matches!(store.verify_chain(), Verification::Valid));
}

#[test]
fn insert_keeps_ascending_ids() {
    let store = store_of(three_records());
    let ids: Vec<i64> = store.records().iter().map(|r| r.id).collect();
    assert_eq!(ids, vec![1, 2, 3]);
}

#[test]
fn insert_rejects_duplicate_id() {
    let mut store = store_of(three_records());
    let r = store.insert(record(2, "other", 0.0, 0.0, "x", "y"));
    assert_eq!(r, Err(StoreError::DuplicateId));
    assert_eq!(store.len(), 3);
    assert_eq!(store.records()[1].name, "S2");
}

#[test]
fn chain_links_in_id_order() {
    let mut store = store_of(three_records());
    let digest = store.build_chain();
    let rs = store.records();
    assert_eq!(rs[0].previous_hash.as_deref(), Some("0"));
    for i in 1..rs.len() {
        assert_eq!(rs[i].previous_hash, rs[i - 1].current_hash);
    }
    let mut prev = "0".to_string();
    for r in rs.iter() {
        let h = calculate_hash(r.id, &r.name, &r.lat, &r.lng, &r.sensor_type, &r.created_at, &prev);
        assert_eq!(r.current_hash.as_deref(), Some(h.as_str()));
        prev = h;
    }
    assert_eq!(digest, prev);
    assert!(matches!(store.verify_chain(), Verification::Valid));
}

#[test]
fn building_twice_is_deterministic() {
    let mut a = store_of(three_records());
    let mut b = store_of(three_records());
    let da = a.build_chain();
    let db = b.build_chain();
    assert_eq!(da, db);
    let again = a.build_chain();
    assert_eq!(again, da);
    for (x, y) in a.records().iter().zip(b.records().iter()) {
        assert_eq!(x.previous_hash, y.previous_hash);
        assert_eq!(x.current_hash, y.current_hash);
    }
}

#[test]
fn tampered_latitude_is_reported_at_its_record() {
    let mut store = store_of(three_records());
    store.build_chain();
    let mut rs = store.into_records();
    let original_hash = rs[2].current_hash.clone();
    rs[2].lat = format!("{:?}", 12.6f64);
    let tampered = store_of(rs);
    match tampered.verify_chain() {
        Verification::Invalid { at_id, expected, actual } => {
            assert_eq!(at_id, 3);
            assert_eq!(actual, original_hash);
            assert_ne!(Some(expected), actual);
        }
        Verification::Valid => panic!("tampering went unnoticed"),
    }
}

#[test]
fn tampered_middle_record_is_reported_first() {
    let mut store = store_of(three_records());
    store.build_chain();
    let mut rs = store.into_records();
    rs[1].name = "S2x".to_string();
    let tampered = store_of(rs);
    match tampered.verify_chain() {
        Verification::Invalid { at_id, .. } => assert_eq!(at_id, 2),
        Verification::Valid => panic!("tampering went unnoticed"),
    }
}

#[test]
fn tampered_stored_hash_is_reported() {
    let mut store = store_of(three_records());
    store.build_chain();
    let mut rs = store.into_records();
    rs[0].current_hash = Some("f".repeat(64));
    let tampered = store_of(rs);
    match tampered.verify_chain() {
        Verification::Invalid { at_id, actual, .. } => {
            assert_eq!(at_id, 1);
            assert_eq!(actual, Some("f".repeat(64)));
        }
        Verification::Valid => panic!("tampering went unnoticed"),
    }
}

#[test]
fn unbuilt_chain_is_invalid_at_first_record() {
    let store = store_of(three_records());
    match store.verify_chain() {
        Verification::Invalid { at_id, expected, actual } => {
            assert_eq!(at_id, 1);
            assert_eq!(actual, None);
            assert_eq!(expected, sha256_hex_of(b"1:12:S14:10.04:20.04:temp10:2024-01-011:0"));
        }
        Verification::Valid => panic!("an unbuilt chain checked"),
    }
}
