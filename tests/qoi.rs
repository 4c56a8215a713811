use blazediff::{decode_qoi, encode_qoi, DiffError, Image};

#[test]
fn test_qoi_roundtrip() {
    let mut img = Image::new(100, 100);
    for y in 0..100u32 {
        for x in 0..100u32 {
            let idx = (y * 100 + x) * 4;
            img.data[idx as usize] = (x * 255 / 100) as u8;
            img.data[idx as usize + 1] = (y * 255 / 100) as u8;
            img.data[idx as usize + 2] = 128;
            img.data[idx as usize + 3] = 255;
        }
    }
    let encoded = encode_qoi(&img).expect("Failed to save QOI");
    let loaded = decode_qoi(&encoded).expect("Failed to load QOI");
    assert_eq!(loaded.width, 100);
    assert_eq!(loaded.height, 100);
    assert_eq!(loaded.data.len(), img.data.len());
    assert_eq!(loaded.data, img.data);
}

#[test]
fn encoded_stream_is_not_the_raw_buffer() {
    let img = Image::new(4, 4);
    let encoded = encode_qoi(&img).unwrap();
    assert_eq!(&encoded[0..4], b"qoif");
    assert_ne!(encoded, img.data);
}

#[test]
fn rgb_stream_decodes_with_opaque_alpha() {
    let rgb = [10u8, 20, 30, 40, 50, 60];
    let encoded = qoi::encode_to_vec(rgb, 2, 1).unwrap();
    let img = decode_qoi(&encoded).unwrap();
    assert_eq!(img.width, 2);
    assert_eq!(img.height, 1);
    assert_eq!(img.data, vec![10, 20, 30, 255, 40, 50, 60, 255]);
}

#[test]
fn garbage_is_a_qoi_error() {
    let result = decode_qoi(&[1, 2, 3, 4, 5]);
    assert!(matches!(result, Err(DiffError::QoiError(_))));
}

#[test]
fn empty_image_cannot_be_encoded() {
    let img = Image::new(0, 0);
    assert!(matches!(encode_qoi(&img), Err(DiffError::QoiError(_))));
}
