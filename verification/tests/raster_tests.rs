use svg_converter::raster::{GrayImage, Raster, RgbaImage};

#[test]
fn from_cells_takes_exactly_one_cell_per_position() {
    let image: Option<GrayImage> = Raster::from_cells(3, 2, vec![1, 2, 3, 4, 5, 6]);
    let image = image.unwrap();
    assert_eq!(image.dimensions(), (3, 2));
    assert_eq!(image.width(), 3);
    assert_eq!(image.height(), 2);
    assert_eq!(image.cells(), &vec![1, 2, 3, 4, 5, 6]);
}

#[test]
fn from_cells_refuses_a_wrong_number_of_cells() {
    let short: Option<GrayImage> = Raster::from_cells(3, 2, vec![1, 2, 3, 4, 5]);
    assert!(short.is_none());
    let long: Option<GrayImage> = Raster::from_cells(3, 2, vec![0; 7]);
    assert!(long.is_none());
    let empty: Option<GrayImage> = Raster::from_cells(0, 5, vec![]);
    assert!(empty.is_some());
}

#[test]
fn get_pixel_reads_row_by_row() {
    let image: GrayImage = Raster::from_cells(3, 2, vec![1, 2, 3, 4, 5, 6]).unwrap();
    assert_eq!(image.get_pixel(0, 0), 1);
    assert_eq!(image.get_pixel(2, 0), 3);
    assert_eq!(image.get_pixel(0, 1), 4);
    assert_eq!(image.get_pixel(2, 1), 6);
}

#[test]
fn put_pixel_changes_one_cell() {
    let mut image: RgbaImage = Raster::filled(3, 3, [0, 0, 0, 0]);
    image.put_pixel(1, 2, [9, 8, 7, 6]);
    let mut expected = vec![[0u8, 0, 0, 0]; 9];
    expected[7] = [9, 8, 7, 6];
    assert_eq!(image.cells(), &expected);
    assert_eq!(image.get_pixel(1, 2), [9, 8, 7, 6]);
    assert_eq!(image.into_cells(), expected);
}

#[test]
fn filled_raster_holds_the_value_everywhere() {
    let image: GrayImage = Raster::filled(4, 2, 77);
    assert_eq!(image.dimensions(), (4, 2));
    assert_eq!(image.cells(), &vec![77u8; 8]);
    let none: GrayImage = Raster::filled(0, 0, 1);
    assert!(none.cells().is_empty());
}
