use mandelbrot_set::{encode_image, EncodeError};

#[test]
fn encode_image_writes_a_png_file() {
    let pixels: Vec<u8> = vec![0, 255, 255, 0, 0, 0];
    let bytes = encode_image(&pixels, (3, 2)).unwrap();
    assert_eq!(bytes[..8], [137, 80, 78, 71, 13, 10, 26, 10]);
    assert_ne!(bytes, pixels);
    let decoded = image::load_from_memory(&bytes).unwrap();
    assert_eq!(decoded.color(), image::ColorType::L8);
    let grey = decoded.to_luma8();
    assert_eq!(grey.dimensions(), (3, 2));
    assert_eq!(grey.into_raw(), pixels);
}

#[test]
fn encode_image_is_the_same_each_time() {
    let pixels: Vec<u8> = (0..=255).collect();
    let first = encode_image(&pixels, (16, 16)).unwrap();
    let second = encode_image(&pixels, (16, 16)).unwrap();
    assert_eq!(first, second);
}

#[test]
fn encode_image_refuses_a_buffer_of_another_size() {
    let pixels: Vec<u8> = vec![0; 5];
    assert_eq!(encode_image(&pixels, (3, 2)), Err(EncodeError::SizeMismatch));
    assert_eq!(encode_image(&pixels, (2, 2)), Err(EncodeError::SizeMismatch));
    assert_eq!(encode_image(&[], (1, 1)), Err(EncodeError::SizeMismatch));
}

#[test]
fn encode_image_refuses_bounds_beyond_the_format() {
    let beyond = u32::MAX as usize + 1;
    assert_eq!(encode_image(&[], (beyond, 0)), Err(EncodeError::TooLarge));
    assert_eq!(encode_image(&[], (0, beyond)), Err(EncodeError::TooLarge));
    assert_eq!(encode_image(&[0], (beyond, beyond)), Err(EncodeError::TooLarge));
}

#[test]
fn encode_image_passes_on_what_the_encoder_refuses() {
    assert!(matches!(encode_image(&[], (0, 0)), Err(EncodeError::Encoder(_))));
    assert!(matches!(encode_image(&[], (0, 7)), Err(EncodeError::Encoder(_))));
    match encode_image(&[], (7, 0)) {
        Err(EncodeError::Encoder(cause)) => assert!(!cause.is_empty()),
        other => panic!("{:?}", other),
    }
}
