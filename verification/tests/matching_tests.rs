use face_auth::matching::AdvancedAuthenticator;
use face_auth::store::FaceDatabase;

fn enroll(db: &mut FaceDatabase, user: &str, sample: &[u64], confidence: u64, n: usize) {
    for k in 0..n {
        db.add_face_sample(user.to_string(), sample.to_vec(), confidence, k as u64);
    }
}

#[test]
fn empty_store_has_no_best_match() {
    let db = FaceDatabase::new();
    assert!(db.find_best_match(&[500_000, 500_000]).is_none());
}

#[test]
fn store_with_only_empty_profiles_has_no_best_match() {
    let mut db = FaceDatabase::new();
    db.max_samples_per_user = 0;
    db.add_face_sample("hollow".to_string(), vec![500_000], 800_000, 0);
    assert_eq!(db.get_user_profile("hollow").unwrap().face_samples.len(), 0);
    assert!(db.find_best_match(&[500_000]).is_none());
}

#[test]
fn adaptive_threshold_favors_well_enrolled_users() {
    let mut db = FaceDatabase::new();
    enroll(&mut db, "alice", &[800_000, 600_000], 900_000, 5);
    enroll(&mut db, "bob", &[600_000, 800_000], 750_000, 3);
    assert!(db.is_user_enrolled("alice"));
    assert!(db.is_user_enrolled("bob"));
    let ta = db.adaptive_threshold("alice");
    let tb = db.adaptive_threshold("bob");
    // alice: 0.85 - 0.10 - 0.20 * (0.90 - 0.70) = 0.71
    assert_eq!(ta, 710_000);
    // bob: 0.85 - 0.10 - 0.20 * (0.75 - 0.70) = 0.74
    assert_eq!(tb, 740_000);
    assert!(ta < tb);
    // Unknown users get the raw global threshold.
    assert_eq!(db.adaptive_threshold("stranger"), 850_000);
}

#[test]
fn adaptive_threshold_never_drops_below_seventy_percent() {
    let mut db = FaceDatabase::new();
    enroll(&mut db, "vip", &[1_000], 1_000_000, 10);
    assert!(db.adaptive_threshold("vip") >= 700_000);
}

#[test]
fn best_match_picks_the_aligned_user_and_clears_their_threshold() {
    let mut db = FaceDatabase::new();
    enroll(&mut db, "alice", &[1_000_000, 0], 900_000, 5);
    enroll(&mut db, "bob", &[0, 1_000_000], 750_000, 3);
    let query = vec![1_000_000u64, 0];
    let (user, score) = db.find_best_match(&query).expect("someone matches");
    assert_eq!(user, "alice");
    assert_eq!(score, 1_000_000);
    assert!(score >= db.adaptive_threshold("alice"));
}

#[test]
fn exact_ties_break_by_ascending_user_id() {
    let mut db = FaceDatabase::new();
    // Identical samples under two names: identical scores.
    enroll(&mut db, "zoe", &[400_000, 300_000], 800_000, 2);
    enroll(&mut db, "amy", &[400_000, 300_000], 800_000, 2);
    let (user, _) = db.find_best_match(&[400_000, 300_000]).unwrap();
    assert_eq!(user, "amy");
}

#[test]
fn authenticator_records_successful_authentications() {
    let mut db = FaceDatabase::new();
    enroll(&mut db, "alice", &[1_000_000, 0], 900_000, 5);
    let mut auth = AdvancedAuthenticator::new(db);
    let result = auth.authenticate_descriptor(&[1_000_000, 0], 777);
    assert!(result.is_match);
    assert_eq!(result.matched_user_id.as_deref(), Some("alice"));
    assert_eq!(result.confidence, 1_000_000);
    assert_eq!(result.similarity_threshold, 710_000);
    let p = auth.database.get_user_profile("alice").unwrap();
    assert_eq!(p.authentication_count, 1);
    assert_eq!(p.last_authentication, Some(777));
}

#[test]
fn authenticator_rejects_low_scores_without_touching_the_store() {
    let mut db = FaceDatabase::new();
    enroll(&mut db, "alice", &[1_000_000, 0], 900_000, 5);
    let mut auth = AdvancedAuthenticator::new(db);
    // Orthogonal query scores 0.353553 < 0.71.
    let result = auth.authenticate_descriptor(&[0, 1_000_000], 888);
    assert!(!result.is_match);
    assert_eq!(result.matched_user_id.as_deref(), Some("alice"));
    assert_eq!(result.confidence, 353_553);
    let p = auth.database.get_user_profile("alice").unwrap();
    assert_eq!(p.authentication_count, 0);
    assert_eq!(p.last_authentication, None);
}

#[test]
fn authenticator_on_empty_store_reports_no_match() {
    let mut auth = AdvancedAuthenticator::new(FaceDatabase::new());
    let result = auth.authenticate_descriptor(&[500_000], 1);
    assert!(!result.is_match);
    assert!(result.matched_user_id.is_none());
    assert_eq!(result.confidence, 0);
    assert_eq!(result.similarity_threshold, 850_000);
}
