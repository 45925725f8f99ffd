use face_auth::errors::FaceError;
use face_auth::features::{FaceDetector, DESCRIPTOR_LEN};
use face_auth::frame::{crop_center, enhance_brightness, histogram_equalize, preprocess, GrayFrame};
use face_auth::math::SCALE;
use face_auth::similarity::compute_similarity;

#[test]
fn detector_creation_succeeds() {
    assert!(FaceDetector::new().is_ok());
}

#[test]
fn brightness_gain_is_thirteen_tenths_saturating() {
    let frame = GrayFrame::new(2, 1, vec![100, 250]);
    let out = enhance_brightness(&frame);
    assert_eq!(out.pixels, vec![130, 255]);
}

#[test]
fn histogram_equalization_remaps_through_the_cdf() {
    let frame = GrayFrame::new(2, 1, vec![0, 255]);
    let out = histogram_equalize(&frame);
    assert_eq!(out.pixels, vec![127, 255]);
}

#[test]
fn crop_takes_the_central_seventy_percent() {
    let pixels: Vec<u8> = (0..100).map(|i| i as u8).collect();
    let frame = GrayFrame::new(10, 10, pixels);
    let out = crop_center(&frame).expect("region is valid");
    assert_eq!(out.width, 8);
    assert_eq!(out.height, 8);
    // Top-left pixel of the crop is the input's (1, 1).
    assert_eq!(out.pixels[0], 11);
}

#[test]
fn empty_frames_are_an_invalid_region() {
    let frame = GrayFrame::new(0, 5, Vec::new());
    assert_eq!(preprocess(&frame).unwrap_err(), FaceError::InvalidRegion);
    let detector = FaceDetector::new().unwrap();
    let faces = detector.detect_faces(&frame);
    assert_eq!(faces.unwrap_err(), FaceError::InvalidRegion);
}

#[test]
fn preprocessing_yields_the_canonical_resolution() {
    let pixels: Vec<u8> = (0..(60 * 40)).map(|i| (i % 251) as u8).collect();
    let frame = GrayFrame::new(60, 40, pixels);
    let out = preprocess(&frame).expect("region is valid");
    assert_eq!(out.width, 128);
    assert_eq!(out.height, 128);
    assert_eq!(out.pixels.len(), 128 * 128);
}

#[test]
fn descriptors_have_the_fixed_length_and_are_unit_bounded() {
    let pixels: Vec<u8> = (0..(64 * 64)).map(|i| (i * 7 % 256) as u8).collect();
    let frame = GrayFrame::new(64, 64, pixels);
    let detector = FaceDetector::new().unwrap();
    let faces = detector.detect_faces(&frame).expect("one face");
    assert_eq!(faces.len(), 1);
    let d = &faces[0].features;
    assert_eq!(d.len(), DESCRIPTOR_LEN);
    assert!(d.iter().all(|&v| v <= SCALE));
    assert!(d.iter().any(|&v| v > 0));
}

#[test]
fn extraction_is_deterministic_and_self_similar() {
    let pixels: Vec<u8> = (0..(50 * 50)).map(|i| (i * 13 % 256) as u8).collect();
    let a = {
        let frame = GrayFrame::new(50, 50, pixels.clone());
        FaceDetector::new().unwrap().detect_faces(&frame).unwrap()
    };
    let b = {
        let frame = GrayFrame::new(50, 50, pixels);
        FaceDetector::new().unwrap().detect_faces(&frame).unwrap()
    };
    assert_eq!(a[0].features, b[0].features);
    assert_eq!(compute_similarity(&a[0].features, &b[0].features), SCALE);
}
