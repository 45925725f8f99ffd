use face_auth::store::FaceDatabase;

fn desc(values: &[u64]) -> Vec<u64> {
    values.to_vec()
}

#[test]
fn new_store_has_default_policy() {
    let db = FaceDatabase::new();
    assert_eq!(db.users.len(), 0);
    assert_eq!(db.accuracy_threshold, 850_000);
    assert_eq!(db.min_samples_per_user, 3);
    assert_eq!(db.max_samples_per_user, 10);
}

#[test]
fn sample_ids_are_sequential_and_fresh() {
    let mut db = FaceDatabase::new();
    let a = db.add_face_sample("u".to_string(), desc(&[500_000]), 800_000, 1);
    let b = db.add_face_sample("u".to_string(), desc(&[500_000]), 810_000, 2);
    assert_eq!(a, 0);
    assert_eq!(b, 1);
    assert_eq!(db.next_sample_id, 2);
}

#[test]
fn enrollment_progress_counts_samples() {
    let mut db = FaceDatabase::new();
    assert_eq!(db.get_enrollment_progress("ann"), (0, 3));
    db.add_face_sample("ann".to_string(), desc(&[1_000]), 750_000, 10);
    db.add_face_sample("ann".to_string(), desc(&[2_000]), 760_000, 11);
    assert_eq!(db.get_enrollment_progress("ann"), (2, 3));
    assert!(!db.is_user_enrolled("ann"));
    db.add_face_sample("ann".to_string(), desc(&[3_000]), 770_000, 12);
    assert!(db.is_user_enrolled("ann"));
    assert!(!db.is_user_enrolled("bob"));
}

#[test]
fn adding_beyond_cap_keeps_highest_confidence_samples() {
    let mut db = FaceDatabase::new();
    // Cap is 10; add 11 samples with confidences 0.50..0.60.
    for k in 0..11u64 {
        db.add_face_sample("kim".to_string(), desc(&[10_000 + k]), 500_000 + 10_000 * k, k);
    }
    let profile = db.get_user_profile("kim").expect("profile exists");
    assert_eq!(profile.face_samples.len(), 10);
    // The lowest-confidence sample (0.50) was dropped; order is descending.
    let confs: Vec<u64> = profile.face_samples.iter().map(|f| f.confidence).collect();
    assert_eq!(
        confs,
        vec![
            600_000, 590_000, 580_000, 570_000, 560_000, 550_000, 540_000, 530_000, 520_000,
            510_000
        ]
    );
}

#[test]
fn optimize_after_lowering_cap_drops_the_two_lowest() {
    let mut db = FaceDatabase::new();
    db.max_samples_per_user = 12;
    // Enroll "alice" with 12 samples, confidences 0.50..=0.61 in 0.01 steps.
    for k in 0..12u64 {
        db.add_face_sample("alice".to_string(), desc(&[100 + k]), 500_000 + 10_000 * k, k);
    }
    db.max_samples_per_user = 10;
    let removed = db.optimize_database();
    assert_eq!(removed, 2);
    let profile = db.get_user_profile("alice").expect("profile exists");
    assert_eq!(profile.face_samples.len(), 10);
    let confs: Vec<u64> = profile.face_samples.iter().map(|f| f.confidence).collect();
    // The two lowest (0.50, 0.51) are gone.
    assert!(confs.iter().all(|&c| c >= 520_000));
    assert_eq!(confs[0], 610_000);
    assert_eq!(confs[9], 520_000);
    // A second pass removes nothing.
    assert_eq!(db.optimize_database(), 0);
}

#[test]
fn remove_user_reports_presence() {
    let mut db = FaceDatabase::new();
    db.add_face_sample("gone".to_string(), desc(&[5]), 700_000, 0);
    assert!(db.remove_user("gone"));
    assert!(!db.remove_user("gone"));
    assert_eq!(db.users.len(), 0);
}

#[test]
fn clear_forgets_profiles_but_keeps_policy() {
    let mut db = FaceDatabase::new();
    db.add_face_sample("x".to_string(), desc(&[5]), 700_000, 0);
    db.clear();
    assert_eq!(db.users.len(), 0);
    assert_eq!(db.accuracy_threshold, 850_000);
}

#[test]
fn update_authentication_stats_bumps_counter() {
    let mut db = FaceDatabase::new();
    db.add_face_sample("ada".to_string(), desc(&[5]), 700_000, 7);
    db.update_authentication_stats("ada", 99);
    db.update_authentication_stats("ada", 123);
    let p = db.get_user_profile("ada").unwrap();
    assert_eq!(p.authentication_count, 2);
    assert_eq!(p.last_authentication, Some(123));
    // Unknown users are untouched.
    db.update_authentication_stats("nobody", 7);
    assert_eq!(db.users.len(), 1);
}

#[test]
fn database_stats_aggregate() {
    let mut db = FaceDatabase::new();
    for k in 0..3u64 {
        db.add_face_sample("full".to_string(), desc(&[k]), 800_000, k);
    }
    db.add_face_sample("part".to_string(), desc(&[9]), 800_000, 9);
    db.update_authentication_stats("full", 50);
    let stats = db.get_database_stats();
    assert_eq!(stats.total_users, 2);
    assert_eq!(stats.enrolled_users, 1);
    assert_eq!(stats.total_samples, 4);
    assert_eq!(stats.total_authentications, 1);
    assert_eq!(stats.accuracy_threshold, 850_000);
    assert_eq!(stats.min_samples_per_user, 3);
}

#[test]
fn get_all_faces_flattens_in_store_order() {
    let mut db = FaceDatabase::new();
    db.add_face_sample("a".to_string(), desc(&[1]), 700_000, 0);
    db.add_face_sample("b".to_string(), desc(&[2]), 710_000, 1);
    db.add_face_sample("a".to_string(), desc(&[3]), 720_000, 2);
    let faces = db.get_all_faces();
    assert_eq!(faces.len(), 3);
    let ids: Vec<u64> = faces.iter().map(|f| f.sample_id).collect();
    assert_eq!(ids, vec![0, 2, 1]);
}
