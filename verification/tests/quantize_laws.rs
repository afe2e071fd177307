use image_quant::{build_histogram, construct_palette, quantize, Image, Palette, Pixel};

fn pixels_of(bytes: &[u8]) -> Vec<Pixel> {
    bytes.chunks(4).map(|c| Pixel::new(c[0], c[1], c[2], c[3])).collect()
}

fn palette_for(bytes: &[u8], width: usize, height: usize, max_colors: u32) -> Palette {
    let image = Image::from_rgba(bytes, width, height).unwrap();
    construct_palette(&build_histogram(&image), max_colors).unwrap()
}

fn entries(palette: &Palette) -> Vec<Pixel> {
    (0..palette.len()).map(|j| palette.color(j)).collect()
}

fn distinct(pixels: &[Pixel]) -> Vec<Pixel> {
    let mut seen: Vec<Pixel> = Vec::new();
    for p in pixels {
        if !seen.contains(p) {
            seen.push(*p);
        }
    }
    seen
}

/// A picture of `width` by `height` pixels with smooth ramps and some
/// transparency.
fn ramps(width: usize, height: usize) -> Vec<u8> {
    let mut bytes = Vec::with_capacity(width * height * 4);
    for y in 0..height {
        for x in 0..width {
            bytes.push((x * 255 / width.max(2)) as u8);
            bytes.push((y * 255 / height.max(2)) as u8);
            bytes.push(((x * 7 + y * 13) % 256) as u8);
            bytes.push(if (x + y) % 11 == 0 { 0 } else { 255 - ((x * y) % 64) as u8 });
        }
    }
    bytes
}

#[test]
fn output_is_as_long_as_the_input() {
    for (width, height) in [(1usize, 1usize), (1, 7), (7, 1), (3, 5), (16, 16), (31, 9)] {
        let image = ramps(width, height);
        for colors in [1u32, 2, 3, 16, 256] {
            for level in [0f32, 0.3, 1.0] {
                let out = quantize(&image, width, height, colors, level.to_bits()).unwrap();
                assert_eq!(out.len(), image.len());
            }
        }
    }
}

#[test]
fn every_output_pixel_is_a_palette_entry() {
    let (width, height) = (24, 17);
    let image = ramps(width, height);
    for colors in [1u32, 2, 5, 16, 64, 256] {
        let palette = entries(&palette_for(&image, width, height, colors));
        for level in [0f32, 0.5, 1.0] {
            let out = quantize(&image, width, height, colors, level.to_bits()).unwrap();
            for p in pixels_of(&out) {
                assert!(palette.contains(&p));
            }
        }
    }
}

#[test]
fn palette_never_exceeds_the_requested_size() {
    let (width, height) = (24, 17);
    let image = ramps(width, height);
    for colors in 1u32..=40 {
        let palette = palette_for(&image, width, height, colors);
        assert!(palette.len() >= 1);
        assert!(palette.len() <= colors as usize);
        let out = quantize(&image, width, height, colors, 1f32.to_bits()).unwrap();
        assert!(distinct(&pixels_of(&out)).len() <= colors as usize);
    }
}

#[test]
fn palette_fills_the_requested_size_when_colors_abound() {
    let (width, height) = (24, 17);
    let image = ramps(width, height);
    for colors in [2u32, 3, 8, 50, 256] {
        assert_eq!(palette_for(&image, width, height, colors).len(), colors as usize);
    }
}

#[test]
fn palette_holds_no_color_twice() {
    for (width, height) in [(24usize, 17usize), (5, 5), (64, 3)] {
        let image = ramps(width, height);
        for colors in [1u32, 2, 9, 100, 256] {
            let palette = entries(&palette_for(&image, width, height, colors));
            assert_eq!(distinct(&palette).len(), palette.len());
            let seen = distinct(&pixels_of(&image).iter().map(|p| p.to_visible()).collect::<Vec<_>>()).len();
            assert_eq!(palette.len(), seen.min(colors as usize));
        }
    }
}

#[test]
fn palette_is_the_distinct_colors_when_they_are_few() {
    let image = vec![
        10, 20, 30, 255, 200, 100, 50, 255, 10, 20, 30, 255, 0, 0, 0, 128, 200, 100, 50, 255, 10, 20, 30, 255,
    ];
    let expected = vec![Pixel::new(10, 20, 30, 255), Pixel::new(200, 100, 50, 255), Pixel::new(0, 0, 0, 128)];
    for colors in [3u32, 4, 100, 256] {
        assert_eq!(entries(&palette_for(&image, 3, 2, colors)), expected);
        assert_eq!(quantize(&image, 3, 2, colors, 0f32.to_bits()).unwrap(), image);
        assert_eq!(quantize(&image, 3, 2, colors, 1f32.to_bits()).unwrap(), image);
    }
    assert_eq!(palette_for(&image, 3, 2, 2).len(), 2);
}

#[test]
fn without_dithering_every_pixel_gets_its_nearest_entry() {
    let (width, height) = (20, 13);
    let image = ramps(width, height);
    for colors in [2u32, 7, 32] {
        let palette = palette_for(&image, width, height, colors);
        let out = quantize(&image, width, height, colors, 0f32.to_bits()).unwrap();
        for (source, got) in pixels_of(&image).iter().zip(pixels_of(&out)) {
            let seen = source.to_visible();
            let mut best = palette.color(0);
            for j in 1..palette.len() {
                if palette.color(j).distance_to(&seen) < best.distance_to(&seen) {
                    best = palette.color(j);
                }
            }
            assert_eq!(got, best);
            assert_eq!(got, palette.color(palette.nearest(seen) as usize));
        }
    }
}

#[test]
fn without_dithering_a_pixel_does_not_depend_on_its_neighbors() {
    let first = vec![0, 0, 0, 255, 90, 90, 90, 255, 255, 255, 255, 255, 200, 10, 10, 255];
    let second = vec![255, 255, 255, 255, 90, 90, 90, 255, 200, 10, 10, 255, 0, 0, 0, 255];
    let a = quantize(&first, 4, 1, 4, 0f32.to_bits()).unwrap();
    let b = quantize(&second, 2, 2, 4, 0f32.to_bits()).unwrap();
    assert_eq!(a[4..8], b[4..8]);
    assert_eq!(a, first);
    assert_eq!(b, second);
}

#[test]
fn the_same_request_gives_the_same_bytes() {
    let (width, height) = (33, 21);
    let image = ramps(width, height);
    for colors in [1u32, 4, 37, 256] {
        for level in [0f32, 0.25, 0.8, 1.0] {
            let first = quantize(&image, width, height, colors, level.to_bits()).unwrap();
            let second = quantize(&image, width, height, colors, level.to_bits()).unwrap();
            assert_eq!(first, second);
        }
    }
}

#[test]
fn one_color_makes_the_image_uniform() {
    let (width, height) = (12, 9);
    let image = ramps(width, height);
    for level in [0f32, 0.5, 1.0] {
        let out = quantize(&image, width, height, 1, level.to_bits()).unwrap();
        let pixels = pixels_of(&out);
        assert!(pixels.iter().all(|p| *p == pixels[0]));
    }
}

#[test]
fn one_color_is_the_mean_of_the_pixels() {
    let image = vec![0, 10, 100, 255, 255, 20, 100, 255, 0, 30, 100, 255, 255, 40, 103, 255];
    let out = quantize(&image, 2, 2, 1, 1f32.to_bits()).unwrap();
    assert_eq!(out, vec![128, 25, 101, 255, 128, 25, 101, 255, 128, 25, 101, 255, 128, 25, 101, 255]);
}

#[test]
fn two_colors_for_red_green_blue_and_white() {
    let image = vec![255, 0, 0, 255, 0, 255, 0, 255, 0, 0, 255, 255, 255, 255, 255, 255];
    let out = quantize(&image, 2, 2, 2, 0f32.to_bits()).unwrap();
    let source = pixels_of(&image);
    let got = pixels_of(&out);
    let kinds = distinct(&got);
    assert_eq!(kinds.len(), 2);
    for (s, g) in source.iter().zip(got.iter()) {
        assert!(kinds.contains(g));
        let other = if *g == kinds[0] { kinds[1] } else { kinds[0] };
        assert!(g.distance_to(s) <= other.distance_to(s));
    }
    assert_eq!(out, vec![128, 0, 128, 255, 128, 255, 128, 255, 128, 0, 128, 255, 128, 255, 128, 255]);
}

#[test]
fn a_single_pixel_is_kept() {
    let image = vec![12, 34, 56, 78];
    for colors in [1u32, 2, 256] {
        for level in [0f32, 1.0] {
            assert_eq!(quantize(&image, 1, 1, colors, level.to_bits()).unwrap(), image);
        }
    }
}

#[test]
fn invisible_pixels_become_one_color() {
    let image = vec![9, 9, 9, 0, 200, 1, 2, 0, 50, 60, 70, 255, 0, 0, 0, 0];
    let out = quantize(&image, 4, 1, 2, 0f32.to_bits()).unwrap();
    assert_eq!(out, vec![0, 0, 0, 0, 0, 0, 0, 0, 50, 60, 70, 255, 0, 0, 0, 0]);
    let palette = palette_for(&image, 4, 1, 256);
    assert_eq!(entries(&palette), vec![Pixel::new(0, 0, 0, 0), Pixel::new(50, 60, 70, 255)]);
}

#[test]
fn a_large_image_of_many_colors_is_quantized() {
    let (width, height) = (160, 120);
    let mut image = Vec::with_capacity(width * height * 4);
    for y in 0..height {
        for x in 0..width {
            image.push((x * 255 / (width - 1)) as u8);
            image.push((y * 255 / (height - 1)) as u8);
            image.push(((x ^ y) & 255) as u8);
            image.push(255);
        }
    }
    let out = quantize(&image, width, height, 256, 1f32.to_bits()).unwrap();
    assert_eq!(out.len(), image.len());
    let kinds = distinct(&pixels_of(&out));
    assert!(kinds.len() <= 256);
    assert!(kinds.len() > 64);
    let palette = palette_for(&image, width, height, 256);
    assert_eq!(palette.len(), 256);
    let flat = quantize(&image, width, height, 256, 0f32.to_bits()).unwrap();
    let worst = pixels_of(&image).iter().zip(pixels_of(&flat)).map(|(s, g)| g.distance_to(s)).max().unwrap();
    assert!(worst < 3 * 40 * 40 + 6 * 40 * 40 + 40 * 40);
}
