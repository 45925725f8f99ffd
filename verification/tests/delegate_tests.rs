use face_auth::delegate::{
    extract_matched_user_from_output, extract_processing_time_from_output, PythonFaceAuth,
    StandalonePythonFaceAuth,
};
use face_auth::registration::{target_new_samples, AdvancedRegistration};
use face_auth::errors::FaceError;
use face_auth::store::FaceDatabase;
use face_auth::{FaceAuth, FaceAuthResult};

#[test]
fn test_face_auth_creation() {
    let recognizer = StandalonePythonFaceAuth::new(
        "face_auth_env/bin/python".to_string(),
        "python_face_auth_simple.py".to_string(),
    );
    let result = FaceAuth::new(recognizer);
    assert!(result.is_ok());
}

#[test]
fn matched_user_is_scanned_from_its_line() {
    let output = "Starting...\nMatched user: alice \nDone";
    assert_eq!(extract_matched_user_from_output(output).as_deref(), Some("alice"));
    let output2 = "User: bob";
    assert_eq!(extract_matched_user_from_output(output2).as_deref(), Some("bob"));
    assert_eq!(extract_matched_user_from_output("no names here"), None);
}

#[test]
fn processing_time_is_scanned_from_both_formats() {
    assert_eq!(
        extract_processing_time_from_output("Processing time: 1234ms"),
        Some(1234)
    );
    assert_eq!(
        extract_processing_time_from_output("the run took 56 ms in total"),
        Some(56)
    );
    assert_eq!(extract_processing_time_from_output("no timing"), None);
    assert_eq!(
        extract_processing_time_from_output("Processing time: fastms"),
        None
    );
}

#[test]
fn auth_output_is_interpreted() {
    let recognizer =
        StandalonePythonFaceAuth::new("py".to_string(), "script.py".to_string());
    let output = "Authentication successful\nUser: carol\nProcessing time: 42ms\n".to_string();
    let parsed = recognizer.parse_auth_output(output, true, Some(400_000), Some(952_000), None);
    assert_eq!(parsed.is_match, Some(true));
    assert_eq!(parsed.matched_user.as_deref(), Some("carol"));
    assert_eq!(parsed.processing_time_ms, Some(42));
    assert_eq!(parsed.threshold, Some(400_000));
    assert_eq!(parsed.confidence, Some(952_000));
    let converted = FaceAuthResult::from(parsed);
    assert!(converted.is_authenticated);
    assert_eq!(converted.user_id.as_deref(), Some("carol"));
    assert_eq!(converted.processing_time_ms, Some(42));
}

#[test]
fn failed_runs_convert_to_unauthenticated() {
    let recognizer =
        StandalonePythonFaceAuth::new("py".to_string(), "script.py".to_string());
    let parsed = recognizer.parse_auth_output("Access denied".to_string(), false, None, None, None);
    assert_eq!(parsed.is_match, Some(false));
    let converted = FaceAuthResult::from(parsed);
    assert!(!converted.is_authenticated);
    assert!(converted.user_id.is_none());
}

#[test]
fn default_python_paths_are_the_known_locations() {
    let p = PythonFaceAuth::new();
    assert_eq!(p.python_script_path, "python_face_auth_simple.py");
    assert_eq!(p.venv_path, "face_auth_env/bin/python");
}

#[test]
fn registration_gates_low_confidence_samples() {
    let mut reg = AdvancedRegistration::new(FaceDatabase::new());
    let rejected = reg.register_sample("dan".to_string(), vec![5_000], 600_000, 1);
    assert_eq!(rejected, Err(FaceError::LowConfidenceSample));
    assert_eq!(reg.database.users.len(), 0);
    let accepted = reg.register_sample("dan".to_string(), vec![5_000], 700_000, 2);
    assert_eq!(accepted, Ok(0));
    assert_eq!(reg.database.get_enrollment_progress("dan"), (1, 3));
}

#[test]
fn registration_stats_average_is_fixed_point() {
    let mut reg = AdvancedRegistration::new(FaceDatabase::new());
    for k in 0..3u64 {
        reg.register_sample("eve".to_string(), vec![k], 800_000, k).unwrap();
    }
    reg.register_sample("fay".to_string(), vec![9], 800_000, 9).unwrap();
    let stats = reg.get_registration_stats();
    assert_eq!(stats.total_users, 2);
    assert_eq!(stats.enrolled_users, 1);
    assert_eq!(stats.pending_users, 1);
    assert_eq!(stats.total_samples, 4);
    // 4 samples over 2 users: exactly 2.0 in fixed point.
    assert_eq!(stats.avg_samples_per_user, 2_000_000);
    assert_eq!(stats.min_samples_required, 3);
}

#[test]
fn session_targets_complete_enrollment_first() {
    assert_eq!(target_new_samples(0, 3), 3);
    assert_eq!(target_new_samples(2, 3), 1);
    assert_eq!(target_new_samples(3, 3), 2);
    assert_eq!(target_new_samples(7, 3), 2);
}

#[test]
fn check_mark_output_counts_as_a_match() {
    let recognizer =
        StandalonePythonFaceAuth::new("py".to_string(), "script.py".to_string());
    let parsed =
        recognizer.parse_auth_output("\u{2705} access granted".to_string(), true, None, None, None);
    assert_eq!(parsed.is_match, Some(true));
}
