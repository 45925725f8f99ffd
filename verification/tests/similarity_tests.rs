use face_auth::math::SCALE;
use face_auth::similarity::compute_similarity;
use face_auth::features::FaceDetector;

#[test]
fn identical_ten_dimensional_descriptors_score_one() {
    let v: Vec<u64> = vec![100_000; 10];
    assert_eq!(compute_similarity(&v, &v), SCALE);
}

#[test]
fn mismatched_lengths_score_zero() {
    let a: Vec<u64> = vec![200_000; 5];
    let b: Vec<u64> = vec![200_000; 7];
    assert_eq!(compute_similarity(&a, &b), 0);
}

#[test]
fn zero_vectors_score_zero() {
    let z: Vec<u64> = vec![0; 4];
    let v: Vec<u64> = vec![500_000; 4];
    assert_eq!(compute_similarity(&z, &v), 0);
    assert_eq!(compute_similarity(&v, &z), 0);
    assert_eq!(compute_similarity(&z, &z), 0);
}

#[test]
fn similarity_is_symmetric_on_concrete_vectors() {
    let a: Vec<u64> = vec![900_000, 100_000, 350_000];
    let b: Vec<u64> = vec![200_000, 880_000, 40_000];
    assert_eq!(compute_similarity(&a, &b), compute_similarity(&b, &a));
}

#[test]
fn orthogonal_vectors_score_the_half_power() {
    // cosine 0 -> rescaled 0.5 -> 0.5^1.5 = 0.353553...
    let a: Vec<u64> = vec![1_000_000, 0];
    let b: Vec<u64> = vec![0, 1_000_000];
    assert_eq!(compute_similarity(&a, &b), 353_553);
}

#[test]
fn detector_similarity_matches_engine() {
    let a: Vec<u64> = vec![700_000, 300_000];
    let b: Vec<u64> = vec![650_000, 310_000];
    assert_eq!(
        FaceDetector::compute_similarity(&a, &b),
        compute_similarity(&a, &b)
    );
}
