use svg_converter::layers::{color_distance_squared, color_layer, create_color_layers, separate_layers};
use svg_converter::raster::{Raster, RgbaImage};

fn image_of(width: u32, height: u32, pixels: Vec<[u8; 4]>) -> RgbaImage {
    Raster::from_cells(width, height, pixels).unwrap()
}

#[test]
fn distance_is_taken_over_red_green_and_blue() {
    assert_eq!(color_distance_squared(&[10, 20, 30, 0], [13, 24, 42, 255]), 169);
    assert_eq!(color_distance_squared(&[13, 24, 42, 7], [10, 20, 30, 9]), 169);
    assert_eq!(color_distance_squared(&[0, 0, 0, 255], [255, 255, 255, 255]), 195075);
    assert_eq!(color_distance_squared(&[5, 6, 7, 1], [5, 6, 7, 200]), 0);
}

#[test]
fn layer_holds_pixels_within_the_threshold() {
    let c = [0, 0, 0, 255];
    // Distances: 0, just below 60, exactly 60, above 60.
    let img = image_of(4, 1, vec![[0, 0, 0, 255], [59, 10, 4, 255], [60, 0, 0, 255], [61, 0, 0, 255]]);
    let layer = color_layer(&img, c);
    assert_eq!(layer.dimensions(), (4, 1));
    assert_eq!(layer.cells(), &vec![[0, 0, 0, 255], [0, 0, 0, 255], [0, 0, 0, 0], [0, 0, 0, 0]]);
}

#[test]
fn layer_pixels_take_the_layer_colour_and_keep_their_alpha() {
    let c = [96, 96, 96, 255];
    let img = image_of(
        3,
        2,
        vec![[100, 100, 100, 255], [110, 90, 100, 128], [100, 100, 100, 127], [200, 200, 200, 255], [96, 96, 96, 200], [0, 0, 0, 0]],
    );
    let layer = color_layer(&img, c);
    assert_eq!(
        layer.cells(),
        &vec![[96, 96, 96, 255], [96, 96, 96, 128], [0, 0, 0, 0], [0, 0, 0, 0], [96, 96, 96, 200], [0, 0, 0, 0]]
    );
}

#[test]
fn every_opaque_layer_pixel_has_the_layer_colour() {
    let mut pixels = Vec::new();
    for i in 0u32..64 {
        pixels.push([(i * 4) as u8, (255 - i * 3) as u8, (i * 2) as u8, (i * 4 + 3) as u8]);
    }
    let img = image_of(8, 8, pixels);
    let layers = create_color_layers(&img);
    assert!(!layers.is_empty());
    for (layer, color) in layers.iter() {
        assert_eq!(color[3], 255);
        for (p, source) in layer.cells().iter().zip(img.cells().iter()) {
            if p[3] > 0 {
                assert_eq!([p[0], p[1], p[2]], [color[0], color[1], color[2]]);
                assert_eq!(p[3], source[3]);
                assert!(p[3] >= 128);
            } else {
                assert_eq!(*p, [0, 0, 0, 0]);
            }
        }
    }
}

#[test]
fn one_layer_for_each_palette_colour_in_order() {
    let a = [10, 10, 10, 255];
    let b = [100, 100, 100, 255];
    let img = image_of(3, 1, vec![a, b, b]);
    let layers = create_color_layers(&img);
    assert_eq!(layers.len(), 2);
    assert_eq!(layers[0].1, [96, 96, 96, 255]);
    assert_eq!(layers[1].1, [0, 0, 0, 255]);
    assert_eq!(layers[0].0.cells(), &vec![[0, 0, 0, 0], [96, 96, 96, 255], [96, 96, 96, 255]]);
    assert_eq!(layers[1].0.cells(), &vec![[0, 0, 0, 255], [0, 0, 0, 0], [0, 0, 0, 0]]);
}

#[test]
fn a_pixel_may_lie_in_several_layers() {
    let a = [100, 100, 100, 255];
    let b = [120, 120, 120, 255];
    let img = image_of(3, 1, vec![a, a, b]);
    let layers = create_color_layers(&img);
    assert_eq!(layers.len(), 2);
    assert_eq!(layers[0].1, [96, 96, 96, 255]);
    assert_eq!(layers[1].1, [112, 112, 112, 255]);
    assert_eq!(layers[0].0.cells(), &vec![[96, 96, 96, 255]; 3]);
    assert_eq!(layers[1].0.cells(), &vec![[112, 112, 112, 255]; 3]);
}

#[test]
fn separate_layers_follows_the_given_palette() {
    let img = image_of(2, 1, vec![[250, 0, 0, 255], [0, 0, 250, 255]]);
    let palette = vec![[0, 0, 255, 255], [255, 0, 0, 255], [0, 255, 0, 255]];
    let layers = separate_layers(&img, &palette);
    assert_eq!(layers.len(), 3);
    assert_eq!(layers[0].1, [0, 0, 255, 255]);
    assert_eq!(layers[0].0.cells(), &vec![[0, 0, 0, 0], [0, 0, 255, 255]]);
    assert_eq!(layers[1].0.cells(), &vec![[255, 0, 0, 255], [0, 0, 0, 0]]);
    assert_eq!(layers[2].0.cells(), &vec![[0, 0, 0, 0], [0, 0, 0, 0]]);
}

#[test]
fn transparent_image_has_no_layers() {
    let img = image_of(5, 4, vec![[30, 60, 90, 0]; 20]);
    assert!(create_color_layers(&img).is_empty());
    let layer = color_layer(&img, [30, 60, 90, 255]);
    assert_eq!(layer.cells(), &vec![[0, 0, 0, 0]; 20]);
}
