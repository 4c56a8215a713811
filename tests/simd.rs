use blazediff::{compare_pixels, detect_backend, lane_count, SimdBackend};

#[test]
fn test_detect_backend() {
    let backend = detect_backend();
    println!("Detected SIMD backend: {:?}", backend);
    assert!(matches!(
        backend,
        SimdBackend::Scalar | SimdBackend::Sse41 | SimdBackend::Avx2 | SimdBackend::Avx512
    ));
}

#[test]
fn test_lane_count() {
    let lanes = lane_count();
    assert!(lanes >= 4);
    assert!(lanes <= 16);
    assert!(lanes.is_power_of_two());
}

#[test]
fn test_compare_identical() {
    let a = [0x12345678u32; 16];
    let b = [0x12345678u32; 16];
    assert!(!compare_pixels(&a, &b));
}

#[test]
fn test_compare_different() {
    let a = [0x12345678u32; 16];
    let mut b = [0x12345678u32; 16];
    b[7] = 0xDEADBEEF;
    assert!(compare_pixels(&a, &b));
}

#[test]
fn test_compare_first_different() {
    let a = [0x12345678u32; 16];
    let mut b = [0x12345678u32; 16];
    b[0] = 0xDEADBEEF;
    assert!(compare_pixels(&a, &b));
}

#[test]
fn test_compare_last_different() {
    let a = [0x12345678u32; 16];
    let mut b = [0x12345678u32; 16];
    b[15] = 0xDEADBEEF;
    assert!(compare_pixels(&a, &b));
}

#[test]
fn compare_covers_the_tail_after_full_lanes() {
    let a = [7u32; 7];
    let mut b = [7u32; 7];
    assert!(!compare_pixels(&a, &b));
    b[6] = 8;
    assert!(compare_pixels(&a, &b));
    assert!(!compare_pixels(&[], &[]));
}
