use face_auth::errors::FaceError;
use face_auth::store::FaceDatabase;

fn sample_store() -> FaceDatabase {
    let mut db = FaceDatabase::new();
    for k in 0..4u64 {
        db.add_face_sample(
            "alice".to_string(),
            vec![100_000 + k, 3, 99],
            800_000 + k,
            1_700_000_000 + k,
        );
    }
    db.add_face_sample("bob".to_string(), vec![1, 2], 750_000, 1_700_000_100);
    db.update_authentication_stats("alice", 1_700_000_200);
    db
}

#[test]
fn save_then_load_is_field_for_field_identical() {
    let db = sample_store();
    let bytes = db.encode();
    let back = FaceDatabase::decode(&bytes).expect("round trip decodes");
    assert_eq!(back, db);
}

#[test]
fn empty_store_round_trips() {
    let db = FaceDatabase::new();
    let back = FaceDatabase::decode(&db.encode()).unwrap();
    assert_eq!(back, db);
}

#[test]
fn truncated_image_is_malformed() {
    let db = sample_store();
    let mut bytes = db.encode();
    bytes.pop();
    assert_eq!(FaceDatabase::decode(&bytes), Err(FaceError::MalformedStore));
}

#[test]
fn trailing_garbage_is_malformed() {
    let db = sample_store();
    let mut bytes = db.encode();
    bytes.push(7);
    assert_eq!(FaceDatabase::decode(&bytes), Err(FaceError::MalformedStore));
}

#[test]
fn empty_input_is_malformed() {
    let bytes: Vec<u8> = Vec::new();
    assert_eq!(FaceDatabase::decode(&bytes), Err(FaceError::MalformedStore));
}

#[test]
fn decoded_stores_pass_the_well_formedness_check() {
    let db = sample_store();
    let back = FaceDatabase::decode(&db.encode()).unwrap();
    assert!(back.check_well_formed());
}

#[test]
fn out_of_range_stores_fail_the_well_formedness_check() {
    let mut db = FaceDatabase::new();
    db.add_face_sample("odd".to_string(), vec![500_000], 800_000, 1);
    db.users[0].face_samples[0].confidence = 2_000_000;
    assert!(!db.check_well_formed());
    let mut db2 = FaceDatabase::new();
    db2.accuracy_threshold = 1_000_001;
    assert!(!db2.check_well_formed());
}
