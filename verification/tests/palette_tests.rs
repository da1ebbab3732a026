use svg_converter::palette::quantize_colors;
use svg_converter::raster::{Raster, RgbaImage};

fn image_of(width: u32, height: u32, pixels: Vec<[u8; 4]>) -> RgbaImage {
    Raster::from_cells(width, height, pixels).unwrap()
}

#[test]
fn single_colour_image_has_that_colour_as_palette() {
    let img = image_of(3, 2, vec![[200, 100, 50, 255]; 6]);
    assert_eq!(quantize_colors(&img, 8), vec![[192, 96, 48, 255]]);
}

#[test]
fn single_colour_with_transparent_rest() {
    let mut pixels = vec![[0u8, 0, 0, 0]; 16];
    pixels[5] = [255, 255, 255, 200];
    pixels[6] = [250, 241, 240, 128];
    let img = image_of(4, 4, pixels);
    assert_eq!(quantize_colors(&img, 8), vec![[240, 240, 240, 255]]);
}

#[test]
fn channels_are_reduced_to_multiples_of_sixteen() {
    let img = image_of(2, 2, vec![[17, 33, 49, 255], [31, 47, 63, 255], [16, 32, 48, 130], [15, 32, 48, 255]]);
    assert_eq!(quantize_colors(&img, 8), vec![[16, 32, 48, 255], [0, 32, 48, 255]]);
}

#[test]
fn palette_is_ordered_by_frequency() {
    let a = [10, 10, 10, 255];
    let b = [100, 100, 100, 255];
    let c = [200, 200, 200, 255];
    let img = image_of(3, 2, vec![a, b, c, b, c, b]);
    assert_eq!(
        quantize_colors(&img, 8),
        vec![[96, 96, 96, 255], [192, 192, 192, 255], [0, 0, 0, 255]]
    );
}

#[test]
fn equally_frequent_colours_keep_the_order_of_first_sight() {
    let a = [10, 10, 10, 255];
    let b = [100, 100, 100, 255];
    let c = [200, 200, 200, 255];
    let img = image_of(3, 2, vec![c, a, b, b, a, c]);
    assert_eq!(
        quantize_colors(&img, 8),
        vec![[192, 192, 192, 255], [0, 0, 0, 255], [96, 96, 96, 255]]
    );
    let img = image_of(4, 1, vec![b, a, a, b]);
    assert_eq!(quantize_colors(&img, 8), vec![[96, 96, 96, 255], [0, 0, 0, 255]]);
}

#[test]
fn palette_holds_at_most_max_colors() {
    let a = [10, 10, 10, 255];
    let b = [100, 100, 100, 255];
    let c = [200, 200, 200, 255];
    let img = image_of(3, 2, vec![a, b, c, b, c, b]);
    assert_eq!(quantize_colors(&img, 2), vec![[96, 96, 96, 255], [192, 192, 192, 255]]);
    assert_eq!(quantize_colors(&img, 1), vec![[96, 96, 96, 255]]);
    assert_eq!(quantize_colors(&img, 0), Vec::<[u8; 4]>::new());
    assert_eq!(quantize_colors(&img, usize::MAX).len(), 3);
}

#[test]
fn palette_of_many_colours_takes_the_eight_most_frequent() {
    let mut pixels = Vec::new();
    for shade in 0u8..12 {
        for _ in 0..(shade as usize + 1) {
            pixels.push([shade * 16, 0, 0, 255]);
        }
    }
    let width = pixels.len() as u32;
    let img = image_of(width, 1, pixels);
    let palette = quantize_colors(&img, 8);
    let expected: Vec<[u8; 4]> = (4u8..12).rev().map(|shade| [shade * 16, 0, 0, 255]).collect();
    assert_eq!(palette, expected);
}

#[test]
fn pixels_below_the_opacity_threshold_do_not_count() {
    let img = image_of(2, 2, vec![[10, 10, 10, 127], [100, 100, 100, 128], [10, 10, 10, 0], [10, 10, 10, 127]]);
    assert_eq!(quantize_colors(&img, 8), vec![[96, 96, 96, 255]]);
}

#[test]
fn transparent_and_empty_images_have_no_palette() {
    let img = image_of(3, 3, vec![[255, 0, 0, 0]; 9]);
    assert!(quantize_colors(&img, 8).is_empty());
    let img = image_of(0, 0, vec![]);
    assert!(quantize_colors(&img, 8).is_empty());
    let img = image_of(0, 7, vec![]);
    assert!(quantize_colors(&img, 8).is_empty());
}
