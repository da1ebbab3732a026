use svg_converter::edges::enhance_edges;
use svg_converter::raster::{GrayImage, Raster};

fn columns(values: &[u8], height: u32) -> GrayImage {
    let mut cells = Vec::new();
    for _ in 0..height {
        cells.extend_from_slice(values);
    }
    Raster::from_cells(values.len() as u32, height, cells).unwrap()
}

fn rows_of(image: &GrayImage) -> Vec<String> {
    let width = image.width() as usize;
    if width == 0 {
        return Vec::new();
    }
    image
        .cells()
        .chunks(width)
        .map(|row| row.iter().map(|v| if *v == 255 { '#' } else if *v == 0 { '.' } else { '?' }).collect())
        .collect()
}

#[test]
fn flat_image_has_no_edges() {
    let img: GrayImage = Raster::filled(6, 6, 255);
    assert_eq!(enhance_edges(&img, 10, 40).cells(), &vec![0u8; 36]);
    let img: GrayImage = Raster::filled(6, 6, 0);
    assert_eq!(enhance_edges(&img, 10, 40).cells(), &vec![0u8; 36]);
}

#[test]
fn step_gives_strong_edges_on_both_sides() {
    let img = columns(&[0, 0, 0, 255, 255, 255], 5);
    assert_eq!(rows_of(&enhance_edges(&img, 10, 40)), vec!["......", "..##..", "..##..", "..##..", "......"]);
}

#[test]
fn horizontal_step_gives_strong_edges_too() {
    let mut cells = vec![0u8; 15];
    cells.extend(vec![255u8; 15]);
    let img: GrayImage = Raster::from_cells(5, 6, cells).unwrap();
    assert_eq!(
        rows_of(&enhance_edges(&img, 10, 40)),
        vec![".....", ".....", ".###.", ".###.", ".....", "....."]
    );
}

#[test]
fn weak_edges_are_linked_in_one_pass() {
    // Gradient magnitudes along a row: 0, 40, 40, 20, 20, 0.
    let img = columns(&[0, 0, 0, 10, 10, 15, 15, 15], 5);
    assert_eq!(
        rows_of(&enhance_edges(&img, 10, 40)),
        vec!["........", "..###...", "..###...", "..###...", "........"]
    );
}

#[test]
fn weak_edges_without_a_strong_neighbour_are_dropped() {
    // Gradient magnitudes along a row: 0, 20, 20, 0.
    let img = columns(&[0, 0, 0, 5, 5, 5], 5);
    assert_eq!(enhance_edges(&img, 10, 40).cells(), &vec![0u8; 30]);
}

#[test]
fn thresholds_are_inclusive() {
    // Gradient magnitude 40 at the two middle columns.
    let img = columns(&[0, 0, 0, 10, 10, 10], 3);
    assert_eq!(rows_of(&enhance_edges(&img, 10, 40)), vec!["......", "..##..", "......"]);
    assert_eq!(rows_of(&enhance_edges(&img, 10, 41)), vec!["......", "......", "......"]);
    assert_eq!(rows_of(&enhance_edges(&img, 41, 41)), vec!["......", "......", "......"]);
    assert_eq!(rows_of(&enhance_edges(&img, 40, 200)), vec!["......", "......", "......"]);
}

#[test]
fn gradient_combines_both_directions() {
    // One bright corner: horizontal and vertical responses of 30 each give
    // a magnitude of about 42.4.
    let mut img: GrayImage = Raster::filled(3, 3, 0);
    img.put_pixel(2, 2, 30);
    assert_eq!(rows_of(&enhance_edges(&img, 10, 42)), vec!["...", ".#.", "..."]);
    assert_eq!(rows_of(&enhance_edges(&img, 10, 43)), vec!["...", "...", "..."]);
}

#[test]
fn zero_thresholds_make_every_interior_pixel_an_edge() {
    let img: GrayImage = Raster::filled(4, 4, 9);
    assert_eq!(rows_of(&enhance_edges(&img, 0, 0)), vec!["....", ".##.", ".##.", "...."]);
}

#[test]
fn images_without_interior_have_no_edges() {
    for (w, h) in [(0u32, 0u32), (1, 1), (2, 5), (5, 2), (0, 4), (3, 0)] {
        let mut cells = Vec::new();
        for i in 0..(w * h) {
            cells.push(if i % 2 == 0 { 255 } else { 0 });
        }
        let img: GrayImage = Raster::from_cells(w, h, cells).unwrap();
        let edges = enhance_edges(&img, 10, 40);
        assert_eq!(edges.dimensions(), (w, h));
        assert!(edges.cells().iter().all(|v| *v == 0));
    }
}
