use image_quant::{check_request, quantize, QuantizeError};

fn four_pixels() -> Vec<u8> {
    vec![255, 0, 0, 255, 0, 255, 0, 255, 0, 0, 255, 255, 255, 255, 255, 255]
}

#[test]
fn buffer_shorter_than_the_shape_is_refused() {
    let image = four_pixels();
    assert_eq!(quantize(&image[..12], 2, 2, 2, 0f32.to_bits()), Err(QuantizeError::ShapeMismatch));
}

#[test]
fn buffer_longer_than_the_shape_is_refused() {
    let image = four_pixels();
    assert_eq!(quantize(&image, 1, 2, 2, 0f32.to_bits()), Err(QuantizeError::ShapeMismatch));
    assert_eq!(quantize(&image, 3, 1, 2, 0f32.to_bits()), Err(QuantizeError::ShapeMismatch));
}

#[test]
fn buffer_that_is_no_whole_number_of_pixels_is_refused() {
    let image = vec![1u8, 2, 3, 4, 5, 6];
    assert_eq!(quantize(&image, 1, 1, 2, 0f32.to_bits()), Err(QuantizeError::ShapeMismatch));
}

#[test]
fn zero_dimension_is_refused() {
    let empty: Vec<u8> = Vec::new();
    assert_eq!(quantize(&empty, 0, 0, 2, 0f32.to_bits()), Err(QuantizeError::ShapeMismatch));
    assert_eq!(quantize(&empty, 0, 5, 2, 0f32.to_bits()), Err(QuantizeError::ShapeMismatch));
    assert_eq!(quantize(&empty, 5, 0, 2, 0f32.to_bits()), Err(QuantizeError::ShapeMismatch));
}

#[test]
fn dimensions_whose_product_overflows_are_refused() {
    let image = four_pixels();
    assert_eq!(quantize(&image, usize::MAX, usize::MAX, 2, 0f32.to_bits()), Err(QuantizeError::ShapeMismatch));
    assert_eq!(quantize(&image, usize::MAX / 2, 2, 2, 0f32.to_bits()), Err(QuantizeError::ShapeMismatch));
}

#[test]
fn zero_colors_are_refused() {
    let image = four_pixels();
    assert_eq!(quantize(&image, 2, 2, 0, 0f32.to_bits()), Err(QuantizeError::InvalidColorCount));
}

#[test]
fn more_than_256_colors_are_refused() {
    let image = four_pixels();
    assert_eq!(quantize(&image, 2, 2, 257, 0f32.to_bits()), Err(QuantizeError::InvalidColorCount));
    assert_eq!(quantize(&image, 2, 2, u32::MAX, 0f32.to_bits()), Err(QuantizeError::InvalidColorCount));
    assert!(quantize(&image, 2, 2, 256, 0f32.to_bits()).is_ok());
    assert!(quantize(&image, 2, 2, 1, 0f32.to_bits()).is_ok());
}

#[test]
fn level_above_one_is_refused() {
    let image = four_pixels();
    assert_eq!(quantize(&image, 2, 2, 2, 1.5f32.to_bits()), Err(QuantizeError::InvalidDitherLevel));
    assert_eq!(quantize(&image, 2, 2, 2, 1.0000001f32.to_bits()), Err(QuantizeError::InvalidDitherLevel));
    assert_eq!(quantize(&image, 2, 2, 2, f32::INFINITY.to_bits()), Err(QuantizeError::InvalidDitherLevel));
}

#[test]
fn negative_level_is_refused() {
    let image = four_pixels();
    assert_eq!(quantize(&image, 2, 2, 2, (-0.5f32).to_bits()), Err(QuantizeError::InvalidDitherLevel));
    assert_eq!(quantize(&image, 2, 2, 2, (-f32::MIN_POSITIVE).to_bits()), Err(QuantizeError::InvalidDitherLevel));
    assert_eq!(quantize(&image, 2, 2, 2, f32::NEG_INFINITY.to_bits()), Err(QuantizeError::InvalidDitherLevel));
}

#[test]
fn level_that_is_no_number_is_refused() {
    let image = four_pixels();
    assert_eq!(quantize(&image, 2, 2, 2, f32::NAN.to_bits()), Err(QuantizeError::InvalidDitherLevel));
    assert_eq!(quantize(&image, 2, 2, 2, (-f32::NAN).to_bits()), Err(QuantizeError::InvalidDitherLevel));
}

#[test]
fn levels_at_the_ends_of_the_range_are_accepted() {
    let image = four_pixels();
    assert!(quantize(&image, 2, 2, 2, 0f32.to_bits()).is_ok());
    assert!(quantize(&image, 2, 2, 2, (-0f32).to_bits()).is_ok());
    assert!(quantize(&image, 2, 2, 2, 1f32.to_bits()).is_ok());
    assert!(quantize(&image, 2, 2, 2, f32::MIN_POSITIVE.to_bits()).is_ok());
}

#[test]
fn shape_is_looked_at_before_colors_and_colors_before_level() {
    let image = four_pixels();
    assert_eq!(quantize(&image, 3, 3, 0, 1.5f32.to_bits()), Err(QuantizeError::ShapeMismatch));
    assert_eq!(quantize(&image, 2, 2, 0, 1.5f32.to_bits()), Err(QuantizeError::InvalidColorCount));
    assert_eq!(quantize(&image, 2, 2, 2, 1.5f32.to_bits()), Err(QuantizeError::InvalidDitherLevel));
}

#[test]
fn every_error_has_its_own_message() {
    let all = [
        QuantizeError::ShapeMismatch,
        QuantizeError::InvalidColorCount,
        QuantizeError::InvalidDitherLevel,
        QuantizeError::CorruptIndex,
    ];
    for (i, a) in all.iter().enumerate() {
        assert!(!a.message().is_empty());
        for b in all.iter().skip(i + 1) {
            assert_ne!(a.message(), b.message());
        }
    }
}

#[test]
fn request_is_checked_without_the_pixels() {
    assert_eq!(check_request(16, 2, 2, 2, 0.5f32.to_bits()), Ok(()));
    assert_eq!(check_request(16, 4, 1, 1, 1f32.to_bits()), Ok(()));
    assert_eq!(check_request(16, 1, 4, 256, 0f32.to_bits()), Ok(()));
    assert_eq!(check_request(15, 2, 2, 2, 0.5f32.to_bits()), Err(QuantizeError::ShapeMismatch));
    assert_eq!(check_request(0, 0, 0, 2, 0.5f32.to_bits()), Err(QuantizeError::ShapeMismatch));
    assert_eq!(check_request(16, 2, 2, 0, 0.5f32.to_bits()), Err(QuantizeError::InvalidColorCount));
    assert_eq!(check_request(16, 2, 2, 300, 0.5f32.to_bits()), Err(QuantizeError::InvalidColorCount));
    assert_eq!(check_request(16, 2, 2, 2, 1.5f32.to_bits()), Err(QuantizeError::InvalidDitherLevel));
    assert_eq!(check_request(16, 2, 2, 2, (-1f32).to_bits()), Err(QuantizeError::InvalidDitherLevel));
}
