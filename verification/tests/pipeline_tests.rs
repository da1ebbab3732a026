use svg_converter::edges::enhance_edges;
use svg_converter::raster::{GrayImage, Raster, RgbaImage};
use svg_converter::silhouette::layer_silhouette;
use svg_converter::tracing::{layer_silhouettes, trace_smoothed, trace_smoothed_layers};

fn smooth(img: &GrayImage) -> GrayImage {
    let (w, h) = img.dimensions();
    let raw = image::GrayImage::from_raw(w, h, img.cells().clone()).unwrap();
    let out = imageproc::filter::gaussian_blur_f32(&raw, 0.8);
    Raster::from_cells(w, h, out.into_raw()).unwrap()
}

fn trace(img: &RgbaImage, simplify_level: u8) -> Vec<(String, [u8; 4])> {
    let smoothed: Vec<(GrayImage, [u8; 4])> =
        layer_silhouettes(img).iter().map(|(shape, color)| (smooth(shape), *color)).collect();
    trace_smoothed_layers(&smoothed, simplify_level)
}

fn square(size: u32, from: u32, to: u32, color: [u8; 4]) -> RgbaImage {
    let mut img: RgbaImage = Raster::filled(size, size, [0, 0, 0, 0]);
    for y in from..to {
        for x in from..to {
            img.put_pixel(x, y, color);
        }
    }
    img
}

fn rows_of(image: &GrayImage) -> Vec<String> {
    image
        .cells()
        .chunks(image.width() as usize)
        .map(|row| row.iter().map(|v| if *v == 255 { '#' } else if *v == 0 { '.' } else { '?' }).collect())
        .collect()
}

#[test]
fn transparent_image_gives_no_layers_and_no_paths() {
    for (w, h) in [(0u32, 0u32), (1, 1), (10, 10), (33, 7)] {
        let img: RgbaImage = Raster::filled(w, h, [0, 0, 0, 0]);
        assert!(layer_silhouettes(&img).is_empty());
        assert!(trace(&img, 0).is_empty());
        assert!(trace(&img, 5).is_empty());
    }
    let faint: RgbaImage = Raster::filled(10, 10, [255, 0, 0, 127]);
    assert!(layer_silhouettes(&faint).is_empty());
    assert!(trace(&faint, 0).is_empty());
}

#[test]
fn no_layers_give_no_shapes() {
    assert!(trace_smoothed_layers(&Vec::new(), 0).is_empty());
    assert!(trace_smoothed_layers(&Vec::new(), 10).is_empty());
}

#[test]
fn transparent_layer_has_an_empty_edge_map() {
    let layer: RgbaImage = Raster::filled(12, 9, [0, 0, 0, 0]);
    let smoothed = smooth(&layer_silhouette(&layer));
    assert_eq!(smoothed.cells(), &vec![0u8; 108]);
    assert_eq!(enhance_edges(&smoothed, 10, 40).cells(), &vec![0u8; 108]);
    assert!(trace_smoothed(&smoothed).is_empty());
}

#[test]
fn square_that_fills_the_image_has_one_layer_and_no_edge() {
    let img = square(10, 0, 10, [200, 40, 40, 255]);
    let layers = layer_silhouettes(&img);
    assert_eq!(layers.len(), 1);
    assert_eq!(layers[0].1, [192, 32, 32, 255]);
    assert_eq!(layers[0].0.cells(), &vec![255u8; 100]);
    // The silhouette has no border inside the image, so there is no
    // gradient and nothing to trace.
    let smoothed = smooth(&layers[0].0);
    assert_eq!(enhance_edges(&smoothed, 10, 40).cells(), &vec![0u8; 100]);
    assert!(trace(&img, 0).is_empty());
}

#[test]
fn square_inside_the_image_has_a_ring_of_edges() {
    let img = square(24, 9, 15, [200, 40, 40, 255]);
    let layers = layer_silhouettes(&img);
    assert_eq!(layers.len(), 1);
    assert_eq!(layers[0].1, [192, 32, 32, 255]);
    let edges = enhance_edges(&smooth(&layers[0].0), 10, 40);
    assert_eq!(
        rows_of(&edges),
        vec![
            "........................",
            "........................",
            "........................",
            "........................",
            ".......##########.......",
            ".....##############.....",
            ".....##############.....",
            "....################....",
            "....################....",
            "....################....",
            "....######....######....",
            "....######....######....",
            "....######....######....",
            "....######....######....",
            "....################....",
            "....################....",
            "....################....",
            ".....##############.....",
            ".....##############.....",
            ".......##########.......",
            "........................",
            "........................",
            "........................",
            "........................",
        ]
    );
}

#[test]
fn square_inside_the_image_is_traced_into_closed_paths() {
    let img = square(24, 9, 15, [200, 40, 40, 255]);
    let shapes = trace(&img, 0);
    assert_eq!(shapes.len(), 3);
    assert_eq!(shapes.iter().map(|s| s.0.len()).collect::<Vec<_>>(), vec![2086, 55, 107]);
    for (path, color) in shapes.iter() {
        assert_eq!(*color, [192, 32, 32, 255]);
        assert!(path.starts_with('M'));
        assert!(path.ends_with('Z'));
        assert!(path.len() > 20);
    }
    assert!(shapes[0].0.starts_with("M7.0,4.0 L8.0,4.0 L9.0,4.0 "));
}

#[test]
fn small_square_is_traced_into_one_closed_path() {
    let img = square(10, 4, 6, [200, 40, 40, 255]);
    let shapes = trace(&img, 0);
    assert_eq!(shapes.len(), 1);
    assert_eq!(shapes[0].1, [192, 32, 32, 255]);
    assert_eq!(shapes[0].0.len(), 567);
    assert!(shapes[0].0.starts_with("M1.0,1.0 L2.0,1.0 "));
    assert!(shapes[0].0.ends_with('Z'));
}

#[test]
fn paths_come_in_the_order_of_the_palette() {
    let mut img: RgbaImage = Raster::filled(40, 20, [0, 0, 0, 0]);
    for y in 8..12 {
        for x in 8..11 {
            img.put_pixel(x, y, [250, 250, 250, 255]);
        }
        for x in 26..32 {
            img.put_pixel(x, y, [0, 0, 250, 255]);
        }
    }
    let layers = layer_silhouettes(&img);
    assert_eq!(layers.len(), 2);
    assert_eq!(layers[0].1, [0, 0, 240, 255]);
    assert_eq!(layers[1].1, [240, 240, 240, 255]);
    let shapes = trace(&img, 0);
    assert!(shapes.len() >= 2);
    let first_white = shapes.iter().position(|s| s.1 == [240, 240, 240, 255]).unwrap();
    assert!(first_white > 0);
    assert!(shapes[..first_white].iter().all(|s| s.1 == [0, 0, 240, 255]));
    assert!(shapes[first_white..].iter().all(|s| s.1 == [240, 240, 240, 255]));
}

#[test]
fn simplification_shortens_the_traced_paths() {
    let img = square(24, 9, 15, [200, 40, 40, 255]);
    let full = trace(&img, 0);
    let thinned = trace(&img, 10);
    assert_eq!(full.len(), thinned.len());
    for (a, b) in full.iter().zip(thinned.iter()) {
        assert_eq!(a.1, b.1);
        assert!(b.0.len() < a.0.len());
        assert!(b.0.starts_with('M'));
        assert!(b.0.ends_with('Z'));
        // Still one move, then line commands with their points, then the end.
        let body = &b.0[1..b.0.len() - 1];
        for (n, token) in body.split(" L").enumerate() {
            let numbers: Vec<&str> = token.split(',').collect();
            assert_eq!(numbers.len(), 2, "token {} of {}", n, b.0);
            assert!(numbers.iter().all(|v| v.ends_with(".0") && v[..v.len() - 2].chars().all(|c| c.is_ascii_digit())));
        }
    }
    assert!(thinned[0].0.starts_with("M7.0,4.0 L9.0,4.0 L11.0,4.0 "));
}
