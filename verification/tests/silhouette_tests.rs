use svg_converter::raster::{Raster, RgbaImage};
use svg_converter::silhouette::{binarize, dilate, layer_silhouette};

fn rows_of(cells: &Vec<u8>, width: usize) -> Vec<String> {
    cells
        .chunks(width)
        .map(|row| row.iter().map(|v| if *v == 255 { '#' } else if *v == 0 { '.' } else { '?' }).collect())
        .collect()
}

#[test]
fn silhouette_grows_by_two_pixels() {
    let mut layer: RgbaImage = Raster::filled(9, 7, [0, 0, 0, 0]);
    layer.put_pixel(4, 3, [16, 32, 48, 255]);
    let shape = layer_silhouette(&layer);
    assert_eq!(shape.dimensions(), (9, 7));
    assert_eq!(
        rows_of(shape.cells(), 9),
        vec![".........", "..#####..", "..#####..", "..#####..", "..#####..", "..#####..", "........."]
    );
}

#[test]
fn silhouette_is_clipped_at_the_borders() {
    let mut layer: RgbaImage = Raster::filled(5, 4, [0, 0, 0, 0]);
    layer.put_pixel(0, 0, [16, 32, 48, 255]);
    layer.put_pixel(4, 3, [16, 32, 48, 129]);
    let shape = layer_silhouette(&layer);
    assert_eq!(rows_of(shape.cells(), 5), vec!["###..", "#####", "#####", "..###"]);
}

#[test]
fn only_pixels_above_the_alpha_bound_are_opaque() {
    let mut layer: RgbaImage = Raster::filled(7, 1, [0, 0, 0, 0]);
    layer.put_pixel(3, 0, [16, 32, 48, 128]);
    assert_eq!(rows_of(layer_silhouette(&layer).cells(), 7), vec!["......."]);
    layer.put_pixel(3, 0, [16, 32, 48, 129]);
    assert_eq!(rows_of(layer_silhouette(&layer).cells(), 7), vec![".#####."]);
}

#[test]
fn dilated_pixels_are_opaque_in_the_colour_of_the_layer() {
    let mut layer: RgbaImage = Raster::filled(4, 1, [0, 0, 0, 0]);
    layer.put_pixel(0, 0, [16, 32, 48, 200]);
    layer.put_pixel(1, 0, [16, 32, 48, 100]);
    let grown = dilate(&layer, 1);
    assert_eq!(grown.cells(), &vec![[16, 32, 48, 255], [16, 32, 48, 255], [0, 0, 0, 0], [0, 0, 0, 0]]);
    let same = dilate(&layer, 0);
    assert_eq!(same.cells(), &vec![[16, 32, 48, 255], [0, 0, 0, 0], [0, 0, 0, 0], [0, 0, 0, 0]]);
    let all = dilate(&layer, u32::MAX);
    assert_eq!(all.cells(), &vec![[16, 32, 48, 255], [16, 32, 48, 255], [0, 0, 0, 255], [0, 0, 0, 255]]);
}

#[test]
fn binarize_maps_opaque_to_white() {
    let img: RgbaImage = Raster::from_cells(4, 1, vec![[1, 2, 3, 255], [1, 2, 3, 129], [1, 2, 3, 128], [255, 255, 255, 0]]).unwrap();
    assert_eq!(binarize(&img).cells(), &vec![255, 255, 0, 0]);
}

#[test]
fn transparent_layer_has_an_empty_silhouette() {
    let layer: RgbaImage = Raster::filled(6, 5, [90, 90, 90, 0]);
    assert_eq!(layer_silhouette(&layer).cells(), &vec![0u8; 30]);
    let empty: RgbaImage = Raster::filled(0, 0, [0, 0, 0, 0]);
    assert!(layer_silhouette(&empty).cells().is_empty());
}
