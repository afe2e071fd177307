use image_quant::quantize;

/// Quantizes with the `imagequant` crate at its default settings.
fn with_imagequant(image: &[u8], width: usize, height: usize, colors: u32, level: f32) -> Vec<u8> {
    let mut settings = imagequant::new();
    let pixels: Vec<imagequant::RGBA> =
        image.chunks(4).map(|c| imagequant::RGBA::new(c[0], c[1], c[2], c[3])).collect();
    let mut picture = settings.new_image(pixels, width, height, 0.0).unwrap();
    settings.set_max_colors(colors).unwrap();
    let mut result = settings.quantize(&mut picture).unwrap();
    result.set_dithering_level(level).unwrap();
    let (palette, indices) = result.remapped(&mut picture).unwrap();
    let mut out = Vec::with_capacity(image.len());
    for index in indices {
        let color = palette[index as usize];
        out.extend_from_slice(&[color.r, color.g, color.b, color.a]);
    }
    out
}

fn tiles(width: usize, height: usize, colors: &[[u8; 4]]) -> Vec<u8> {
    let mut image = Vec::with_capacity(width * height * 4);
    for y in 0..height {
        for x in 0..width {
            image.extend_from_slice(&colors[(x / 3 + y / 2) % colors.len()]);
        }
    }
    image
}

#[test]
fn agrees_with_imagequant_where_every_color_is_kept() {
    let colors = [[255, 0, 0, 255], [0, 255, 0, 255], [0, 0, 255, 255], [255, 255, 255, 255], [12, 34, 56, 255]];
    for (width, height) in [(3usize, 2usize), (16, 16), (40, 25)] {
        let image = tiles(width, height, &colors);
        for level in [0f32, 1.0] {
            let ours = quantize(&image, width, height, 8, level.to_bits()).unwrap();
            assert_eq!(ours, image);
            assert_eq!(with_imagequant(&image, width, height, 8, level), image);
        }
    }
}

#[test]
fn uses_no_more_colors_than_imagequant_may() {
    let (width, height) = (32, 24);
    let mut image = Vec::with_capacity(width * height * 4);
    for y in 0..height {
        for x in 0..width {
            image.extend_from_slice(&[(x * 8) as u8, (y * 10) as u8, ((x + y) * 4) as u8, 255]);
        }
    }
    for colors in [2u32, 4, 16] {
        for level in [0f32, 1.0] {
            for out in [
                quantize(&image, width, height, colors, level.to_bits()).unwrap(),
                with_imagequant(&image, width, height, colors, level),
            ] {
                assert_eq!(out.len(), image.len());
                let mut kinds: Vec<&[u8]> = out.chunks(4).collect();
                kinds.sort();
                kinds.dedup();
                assert!(kinds.len() <= colors as usize);
            }
        }
    }
}
