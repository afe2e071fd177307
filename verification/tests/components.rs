use image_quant::level::{check_level, FULL_STRENGTH};
use image_quant::{
    assemble_output, build_histogram, construct_palette, decode_level, map_pixels, Image, Palette, Pixel,
    QuantizeError,
};

fn gray(v: u8) -> Pixel {
    Pixel::new(v, v, v, 255)
}

fn black_and_white() -> Palette {
    Palette::from_colors(vec![gray(0), gray(255)]).unwrap()
}

fn image_of(pixels: &[Pixel], width: usize, height: usize) -> Image {
    let mut bytes = Vec::new();
    for p in pixels {
        bytes.extend_from_slice(&[p.r, p.g, p.b, p.a]);
    }
    Image::from_rgba(&bytes, width, height).unwrap()
}

#[test]
fn pixel_channels_are_read_in_order() {
    let p = Pixel::new(1, 2, 3, 4);
    assert_eq!([p.get(0), p.get(1), p.get(2), p.get(3)], [1, 2, 3, 4]);
    assert_eq!(p, Pixel { r: 1, g: 2, b: 3, a: 4 });
}

#[test]
fn pixel_packs_into_a_number_of_its_own() {
    assert_eq!(Pixel::new(1, 2, 3, 4).pack(), 0x0403_0201);
    assert_eq!(Pixel::new(255, 255, 255, 255).pack(), u32::MAX);
    assert_eq!(Pixel::new(0, 0, 0, 0).pack(), 0);
    assert_ne!(Pixel::new(1, 0, 0, 0).pack(), Pixel::new(0, 1, 0, 0).pack());
}

#[test]
fn invisible_pixel_shows_no_color() {
    assert_eq!(Pixel::new(9, 8, 7, 0).to_visible(), Pixel::new(0, 0, 0, 0));
    assert_eq!(Pixel::new(9, 8, 7, 1).to_visible(), Pixel::new(9, 8, 7, 1));
}

#[test]
fn distance_weighs_the_channels() {
    let origin = Pixel::new(0, 0, 0, 0);
    assert_eq!(Pixel::new(2, 0, 0, 0).distance_to(&origin), 12);
    assert_eq!(Pixel::new(0, 2, 0, 0).distance_to(&origin), 24);
    assert_eq!(Pixel::new(0, 0, 2, 0).distance_to(&origin), 4);
    assert_eq!(Pixel::new(0, 0, 0, 2).distance_to(&origin), 40);
    assert_eq!(Pixel::new(1, 2, 3, 4).distance_to(&Pixel::new(4, 3, 2, 1)), 27 + 6 + 1 + 90);
    assert_eq!(Pixel::new(255, 255, 255, 255).distance_to(&origin), image_quant::color::MAX_DISTANCE);
    assert_eq!(origin.distance_to(&Pixel::new(255, 255, 255, 255)), 1_300_500);
    assert_eq!(Pixel::new(7, 7, 7, 7).distance_to(&Pixel::new(7, 7, 7, 7)), 0);
}

#[test]
fn image_keeps_its_pixels_and_shape() {
    let bytes = vec![1, 2, 3, 4, 5, 6, 7, 8, 9, 10, 11, 12, 13, 14, 15, 16, 17, 18, 19, 20, 21, 22, 23, 24];
    let image = Image::from_rgba(&bytes, 3, 2).unwrap();
    assert_eq!(image.width(), 3);
    assert_eq!(image.height(), 2);
    assert_eq!(image.len(), 6);
    assert_eq!(image.pixel(0), Pixel::new(1, 2, 3, 4));
    assert_eq!(image.pixel(5), Pixel::new(21, 22, 23, 24));
    assert!(matches!(Image::from_rgba(&bytes, 2, 2), Err(QuantizeError::ShapeMismatch)));
    assert!(matches!(Image::from_rgba(&bytes[..23], 3, 2), Err(QuantizeError::ShapeMismatch)));
    assert!(matches!(Image::from_rgba(&[], 0, 0), Err(QuantizeError::ShapeMismatch)));
}

#[test]
fn shape_check_agrees_with_the_product() {
    assert!(image_quant::image::check_shape(24, 3, 2));
    assert!(image_quant::image::check_shape(24, 1, 6));
    assert!(!image_quant::image::check_shape(24, 3, 3));
    assert!(!image_quant::image::check_shape(0, 0, 0));
    assert!(!image_quant::image::check_shape(0, 0, 7));
    assert!(!image_quant::image::check_shape(25, 3, 2));
    assert!(!image_quant::image::check_shape(8, usize::MAX, 2));
    assert!(!image_quant::image::check_shape(0, 1 << (usize::BITS - 2), 1));
}

#[test]
fn histogram_counts_colors_in_order_of_first_occurrence() {
    let a = Pixel::new(1, 1, 1, 255);
    let b = Pixel::new(2, 2, 2, 255);
    let c = Pixel::new(3, 3, 3, 0);
    let d = Pixel::new(4, 4, 4, 0);
    let image = image_of(&[a, b, a, c, d, a, b, c], 4, 2);
    let histogram = build_histogram(&image);
    assert_eq!(histogram.len(), 3);
    assert_eq!((histogram.color(0), histogram.count(0)), (a, 3));
    assert_eq!((histogram.color(1), histogram.count(1)), (b, 2));
    assert_eq!((histogram.color(2), histogram.count(2)), (Pixel::new(0, 0, 0, 0), 3));
    let total: u64 = (0..histogram.len()).map(|j| histogram.count(j)).sum();
    assert_eq!(total, 8);
}

#[test]
fn palette_holds_one_to_256_colors() {
    assert!(matches!(Palette::from_colors(Vec::new()), Err(QuantizeError::InvalidColorCount)));
    assert!(matches!(Palette::from_colors(vec![gray(0); 257]), Err(QuantizeError::InvalidColorCount)));
    let full = Palette::from_colors((0..=255).map(gray).collect()).unwrap();
    assert_eq!(full.len(), 256);
    assert_eq!(full.color(255), gray(255));
    assert_eq!(full.nearest(gray(255)), 255);
    let one = Palette::from_colors(vec![gray(9)]).unwrap();
    assert_eq!(one.len(), 1);
    assert_eq!(one.nearest(gray(200)), 0);
}

#[test]
fn nearest_entry_is_the_first_of_the_closest() {
    let palette = Palette::from_colors(vec![gray(100), gray(50), gray(150), gray(50)]).unwrap();
    assert_eq!(palette.nearest(gray(50)), 1);
    assert_eq!(palette.nearest(gray(75)), 0);
    assert_eq!(palette.nearest(gray(125)), 0);
    assert_eq!(palette.nearest(gray(126)), 2);
    assert_eq!(palette.nearest(gray(0)), 1);
    let weighted = Palette::from_colors(vec![Pixel::new(10, 0, 0, 255), Pixel::new(0, 8, 0, 255)]).unwrap();
    assert_eq!(weighted.nearest(Pixel::new(0, 0, 0, 255)), 0);
    assert_eq!(weighted.nearest(Pixel::new(0, 1, 0, 255)), 1);
}

#[test]
fn palette_construction_refuses_bad_sizes() {
    let histogram = build_histogram(&image_of(&[gray(1), gray(2)], 2, 1));
    assert!(matches!(construct_palette(&histogram, 0), Err(QuantizeError::InvalidColorCount)));
    assert!(matches!(construct_palette(&histogram, 257), Err(QuantizeError::InvalidColorCount)));
    assert_eq!(construct_palette(&histogram, 1).unwrap().len(), 1);
    assert_eq!(construct_palette(&histogram, 256).unwrap().len(), 2);
}

#[test]
fn clusters_are_cut_at_the_mean_of_the_widest_channel() {
    let a = Pixel::new(0, 0, 0, 255);
    let b = Pixel::new(10, 0, 0, 255);
    let c = Pixel::new(200, 0, 0, 255);
    let histogram = build_histogram(&image_of(&[a, b, c], 3, 1));
    let palette = construct_palette(&histogram, 2).unwrap();
    assert_eq!(palette.len(), 2);
    assert_eq!(palette.color(0), Pixel::new(5, 0, 0, 255));
    assert_eq!(palette.color(1), c);
}

#[test]
fn cluster_centers_weigh_colors_by_their_counts() {
    let dark = Pixel::new(0, 0, 0, 255);
    let light = Pixel::new(0, 90, 0, 255);
    let far = Pixel::new(0, 255, 0, 255);
    let histogram = build_histogram(&image_of(&[dark, dark, light, far, dark, far], 3, 2));
    let palette = construct_palette(&histogram, 2).unwrap();
    assert_eq!(palette.color(0), Pixel::new(0, 23, 0, 255));
    assert_eq!(palette.color(1), far);
    let one = construct_palette(&histogram, 1).unwrap();
    assert_eq!(one.color(0), Pixel::new(0, 100, 0, 255));
}

#[test]
fn the_cluster_that_varies_most_is_cut_first() {
    let pixels = [
        Pixel::new(0, 0, 0, 255),
        Pixel::new(40, 0, 0, 255),
        Pixel::new(0, 0, 100, 255),
        Pixel::new(40, 0, 100, 255),
        Pixel::new(0, 0, 200, 255),
        Pixel::new(40, 0, 200, 255),
    ];
    let histogram = build_histogram(&image_of(&pixels, 3, 2));
    let two = construct_palette(&histogram, 2).unwrap();
    assert_eq!(two.color(0), Pixel::new(20, 0, 50, 255));
    assert_eq!(two.color(1), Pixel::new(20, 0, 200, 255));
    let three = construct_palette(&histogram, 3).unwrap();
    assert_eq!(three.color(0), Pixel::new(20, 0, 0, 255));
    assert_eq!(three.color(1), Pixel::new(20, 0, 200, 255));
    assert_eq!(three.color(2), Pixel::new(20, 0, 100, 255));
}

#[test]
fn of_clusters_that_vary_alike_the_heavier_is_cut() {
    let pixels = [
        Pixel::new(0, 0, 0, 255),
        Pixel::new(20, 0, 0, 255),
        Pixel::new(200, 0, 0, 255),
        Pixel::new(200, 0, 0, 255),
        Pixel::new(220, 0, 0, 255),
        Pixel::new(220, 0, 0, 255),
    ];
    let histogram = build_histogram(&image_of(&pixels, 6, 1));
    let two = construct_palette(&histogram, 2).unwrap();
    assert_eq!(two.color(0), Pixel::new(10, 0, 0, 255));
    assert_eq!(two.color(1), Pixel::new(210, 0, 0, 255));
    let three = construct_palette(&histogram, 3).unwrap();
    assert_eq!(three.color(0), Pixel::new(10, 0, 0, 255));
    assert_eq!(three.color(1), Pixel::new(200, 0, 0, 255));
    assert_eq!(three.color(2), Pixel::new(220, 0, 0, 255));
}

#[test]
fn of_clusters_that_vary_and_weigh_alike_the_first_is_cut() {
    let pixels = [
        Pixel::new(0, 0, 0, 255),
        Pixel::new(20, 0, 0, 255),
        Pixel::new(200, 0, 0, 255),
        Pixel::new(220, 0, 0, 255),
    ];
    let histogram = build_histogram(&image_of(&pixels, 2, 2));
    let three = construct_palette(&histogram, 3).unwrap();
    assert_eq!(three.color(0), Pixel::new(0, 0, 0, 255));
    assert_eq!(three.color(1), Pixel::new(210, 0, 0, 255));
    assert_eq!(three.color(2), Pixel::new(20, 0, 0, 255));
}

#[test]
fn a_channel_that_is_seen_better_is_cut_first() {
    let pixels = [
        Pixel::new(0, 0, 0, 255),
        Pixel::new(0, 0, 100, 255),
        Pixel::new(0, 50, 0, 255),
        Pixel::new(0, 50, 100, 255),
    ];
    let histogram = build_histogram(&image_of(&pixels, 2, 2));
    let two = construct_palette(&histogram, 2).unwrap();
    assert_eq!(two.color(0), Pixel::new(0, 0, 50, 255));
    assert_eq!(two.color(1), Pixel::new(0, 50, 50, 255));
}

#[test]
fn means_are_rounded_half_up() {
    let histogram = build_histogram(&image_of(&[gray(0), gray(1)], 2, 1));
    assert_eq!(construct_palette(&histogram, 1).unwrap().color(0), gray(1));
    let histogram = build_histogram(&image_of(&[gray(0), gray(0), gray(1)], 3, 1));
    assert_eq!(construct_palette(&histogram, 1).unwrap().color(0), gray(0));
}

#[test]
fn level_is_read_from_the_bits_of_a_single() {
    assert_eq!(decode_level(0f32.to_bits()), Ok(0));
    assert_eq!(decode_level((-0f32).to_bits()), Ok(0));
    assert_eq!(decode_level(1f32.to_bits()), Ok(FULL_STRENGTH));
    assert_eq!(decode_level(0.5f32.to_bits()), Ok(32768));
    assert_eq!(decode_level(0.25f32.to_bits()), Ok(16384));
    assert_eq!(decode_level(0.75f32.to_bits()), Ok(49152));
    assert_eq!(decode_level(0.1f32.to_bits()), Ok(6553));
    assert_eq!(decode_level((1.0f32 / 65536.0).to_bits()), Ok(1));
    assert_eq!(decode_level((1.0f32 / 65537.0).to_bits()), Ok(0));
    assert_eq!(decode_level(f32::MIN_POSITIVE.to_bits()), Ok(0));
    assert_eq!(decode_level(1e-40f32.to_bits()), Ok(0));
    assert_eq!(decode_level(0.99999994f32.to_bits()), Ok(65535));
    assert_eq!(decode_level(1.5f32.to_bits()), Err(QuantizeError::InvalidDitherLevel));
    assert_eq!(decode_level((-1f32).to_bits()), Err(QuantizeError::InvalidDitherLevel));
    assert_eq!(decode_level(f32::NAN.to_bits()), Err(QuantizeError::InvalidDitherLevel));
}

#[test]
fn a_higher_level_has_no_less_strength() {
    let levels = [0f32, 1e-9, 1e-5, 2e-5, 0.001, 0.0625, 0.1, 0.3, 0.5, 0.50001, 0.9, 0.999999, 1.0];
    for pair in levels.windows(2) {
        let lower = decode_level(pair[0].to_bits()).unwrap();
        let higher = decode_level(pair[1].to_bits()).unwrap();
        assert!(lower <= higher);
        assert_eq!(higher, (pair[1] as f64 * 65536.0).floor() as u32);
    }
}

#[test]
fn level_check_agrees_with_the_numbers() {
    for level in [0f32, -0.0, 1e-30, 0.1, 0.5, 0.999, 1.0] {
        assert!(check_level(level.to_bits()));
        assert!((0.0..=1.0).contains(&level));
    }
    for level in [-1e-30f32, -0.5, 1.0001, 2.0, f32::MAX, f32::INFINITY, f32::NEG_INFINITY, f32::NAN] {
        assert!(!check_level(level.to_bits()));
        assert!(!(0.0..=1.0).contains(&level));
    }
}

#[test]
fn flat_mapping_picks_the_nearest_entry() {
    let image = image_of(&[gray(100), gray(100), gray(200), gray(127)], 2, 2);
    let indices = map_pixels(&image, &black_and_white(), 0f32.to_bits()).unwrap();
    assert_eq!(indices, vec![0, 0, 1, 0]);
}

#[test]
fn mapping_refuses_a_bad_level() {
    let image = image_of(&[gray(100)], 1, 1);
    assert_eq!(map_pixels(&image, &black_and_white(), 2f32.to_bits()), Err(QuantizeError::InvalidDitherLevel));
    assert_eq!(map_pixels(&image, &black_and_white(), f32::NAN.to_bits()), Err(QuantizeError::InvalidDitherLevel));
}

#[test]
fn error_is_passed_to_the_right() {
    let image = image_of(&[gray(100), gray(100)], 2, 1);
    assert_eq!(map_pixels(&image, &black_and_white(), 1f32.to_bits()).unwrap(), vec![0, 1]);
    assert_eq!(map_pixels(&image, &black_and_white(), 0f32.to_bits()).unwrap(), vec![0, 0]);
}

#[test]
fn error_is_passed_to_the_row_below() {
    let image = image_of(&[gray(100), gray(100), gray(100), gray(100)], 2, 2);
    assert_eq!(map_pixels(&image, &black_and_white(), 1f32.to_bits()).unwrap(), vec![0, 1, 0, 0]);
    let column = image_of(&[gray(120), gray(120), gray(120)], 1, 3);
    assert_eq!(map_pixels(&column, &black_and_white(), 1f32.to_bits()).unwrap(), vec![0, 1, 0]);
}

#[test]
fn in_a_single_column_error_passes_downward() {
    let image = image_of(&[gray(127), gray(0), gray(10), gray(127)], 1, 4);
    assert_eq!(map_pixels(&image, &black_and_white(), 1f32.to_bits()).unwrap(), vec![0, 0, 0, 1]);
    assert_eq!(map_pixels(&image, &black_and_white(), 0f32.to_bits()).unwrap(), vec![0, 0, 0, 0]);
}

#[test]
fn in_a_single_row_error_passes_to_the_right() {
    let row = image_of(&[gray(127), gray(127), gray(10), gray(127)], 4, 1);
    assert_eq!(map_pixels(&row, &black_and_white(), 1f32.to_bits()).unwrap(), vec![0, 1, 0, 0]);
}

#[test]
fn error_does_not_pass_from_the_end_of_a_row_to_the_next() {
    let rows = image_of(&[gray(127), gray(127), gray(110), gray(0)], 2, 2);
    assert_eq!(map_pixels(&rows, &black_and_white(), 1f32.to_bits()).unwrap(), vec![0, 1, 1, 0]);
}

#[test]
fn half_the_level_passes_half_the_error() {
    let image = image_of(&[gray(120), gray(100)], 2, 1);
    assert_eq!(map_pixels(&image, &black_and_white(), 1f32.to_bits()).unwrap(), vec![0, 1]);
    assert_eq!(map_pixels(&image, &black_and_white(), 0.5f32.to_bits()).unwrap(), vec![0, 0]);
    let brighter = image_of(&[gray(120), gray(110)], 2, 1);
    assert_eq!(map_pixels(&brighter, &black_and_white(), 0.5f32.to_bits()).unwrap(), vec![0, 1]);
}

#[test]
fn dithering_keeps_the_mean_brightness() {
    let width = 64;
    let height = 64;
    let image = image_of(&vec![gray(64); width * height], width, height);
    let indices = map_pixels(&image, &black_and_white(), 1f32.to_bits()).unwrap();
    let white = indices.iter().filter(|&&i| i == 1).count();
    let expected = width * height * 64 / 255;
    assert!(white > expected - expected / 10);
    assert!(white < expected + expected / 10);
    let flat = map_pixels(&image, &black_and_white(), 0f32.to_bits()).unwrap();
    assert!(flat.iter().all(|&i| i == 0));
}

#[test]
fn carried_error_is_kept_within_the_channel() {
    let mut pixels = vec![gray(255); 40];
    pixels.extend(vec![gray(0); 40]);
    let image = image_of(&pixels, 80, 1);
    let palette = Palette::from_colors(vec![gray(100), gray(101)]).unwrap();
    let indices = map_pixels(&image, &palette, 1f32.to_bits()).unwrap();
    assert!(indices[..40].iter().all(|&i| i == 1));
    assert!(indices[40..].iter().all(|&i| i == 0));
}

#[test]
fn indices_are_replaced_by_their_colors() {
    let palette = Palette::from_colors(vec![Pixel::new(1, 2, 3, 4), Pixel::new(5, 6, 7, 8)]).unwrap();
    assert_eq!(assemble_output(&[1, 0, 0, 1], &palette), Ok(vec![5, 6, 7, 8, 1, 2, 3, 4, 1, 2, 3, 4, 5, 6, 7, 8]));
    assert_eq!(assemble_output(&[], &palette), Ok(Vec::new()));
}

#[test]
fn index_outside_the_palette_is_refused() {
    let palette = Palette::from_colors(vec![Pixel::new(1, 2, 3, 4), Pixel::new(5, 6, 7, 8)]).unwrap();
    assert_eq!(assemble_output(&[0, 1, 2], &palette), Err(QuantizeError::CorruptIndex));
    assert_eq!(assemble_output(&[255], &palette), Err(QuantizeError::CorruptIndex));
}
