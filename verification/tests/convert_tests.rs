use svg_converter::convert::{output_size, temp_svg_path, SvgConverter};

#[test]
fn requested_size_is_used_when_both_dimensions_are_given() {
    assert_eq!(output_size(640, 480, 100, 50), (640, 480));
    assert_eq!(output_size(1, 1, 0, 0), (1, 1));
}

#[test]
fn own_size_is_used_when_nothing_is_requested() {
    assert_eq!(output_size(0, 0, 100, 50), (100, 50));
    assert_eq!(output_size(0, 0, 0, 0), (0, 0));
    assert_eq!(output_size(0, 0, 7, 0), (7, 0));
}

#[test]
fn one_requested_dimension_keeps_the_ratio() {
    assert_eq!(output_size(200, 0, 100, 50), (200, 100));
    assert_eq!(output_size(0, 200, 100, 50), (400, 200));
    assert_eq!(output_size(50, 0, 100, 50), (50, 25));
    assert_eq!(output_size(0, 10, 30, 20), (15, 10));
    assert_eq!(output_size(1, 0, 4_000_000_000, 4_000_000_000), (1, 1));
}

#[test]
fn scaled_dimension_is_rounded_to_the_nearest() {
    // 10 * 50 / 3 = 166.67, 10 * 10 / 4 = 25, 1 * 1 / 2 = 0.5, 1 * 1 / 3 = 0.33.
    assert_eq!(output_size(10, 0, 3, 50), (10, 167));
    assert_eq!(output_size(10, 0, 4, 10), (10, 25));
    assert_eq!(output_size(1, 0, 2, 1), (1, 1));
    assert_eq!(output_size(1, 0, 3, 1), (1, 0));
    assert_eq!(output_size(0, 3, 7, 2), (11, 3));
}

#[test]
fn scaled_dimension_stays_in_range() {
    assert_eq!(output_size(4_000_000_000, 0, 1, 2), (4_000_000_000, u32::MAX));
    assert_eq!(output_size(0, u32::MAX, u32::MAX, 1), (u32::MAX, u32::MAX));
    assert_eq!(output_size(u32::MAX, 0, u32::MAX, u32::MAX), (u32::MAX, u32::MAX));
}

#[test]
fn document_without_extent_is_not_scaled() {
    assert_eq!(output_size(200, 0, 0, 50), (200, 50));
    assert_eq!(output_size(0, 200, 100, 0), (100, 200));
    assert_eq!(output_size(200, 0, 0, 0), (200, 0));
}

#[test]
fn temporary_path_ends_the_stem_at_the_first_dot() {
    assert_eq!(temp_svg_path("input.svg"), "input_temp_text2path.svg");
    assert_eq!(temp_svg_path("dir/picture.final.svg"), "dir/picture_temp_text2path.svg");
    assert_eq!(temp_svg_path("noext"), "noext_temp_text2path.svg");
    assert_eq!(temp_svg_path("./x.svg"), "_temp_text2path.svg");
    assert_eq!(temp_svg_path(""), "_temp_text2path.svg");
    assert_eq!(temp_svg_path("caf\u{e9}.svg"), "caf\u{e9}_temp_text2path.svg");
}

#[test]
fn new_converter_remembers_nothing() {
    let converter = SvgConverter::new();
    assert_eq!(converter.get_last_result(), None);
}

#[test]
fn rendering_is_remembered_and_handed_out_as_data_url() {
    let mut converter = SvgConverter::new();
    let out = converter.svg_to_png(Ok(b"hello".to_vec()));
    assert_eq!(out, Ok("data:image/png;base64,aGVsbG8=".to_string()));
    assert_eq!(converter.get_last_result(), Some(b"hello".to_vec()));
}

#[test]
fn failed_rendering_leaves_the_last_result() {
    let mut converter = SvgConverter::new();
    assert_eq!(
        converter.svg_to_png(Err("no such element".to_string())),
        Err("Error converting SVG to PNG: no such element".to_string())
    );
    assert_eq!(converter.get_last_result(), None);
    let _ = converter.svg_to_png(Ok(vec![1, 2, 3]));
    assert_eq!(
        converter.svg_to_png(Err(String::new())),
        Err("Error converting SVG to PNG: ".to_string())
    );
    assert_eq!(converter.get_last_result(), Some(vec![1, 2, 3]));
}

#[test]
fn tracing_is_remembered_as_bytes() {
    let mut converter = SvgConverter::new();
    let out = converter.png_to_svg(Ok("<svg>\u{e9}</svg>".to_string()));
    assert_eq!(out, Ok("<svg>\u{e9}</svg>".to_string()));
    assert_eq!(converter.get_last_result(), Some("<svg>\u{e9}</svg>".as_bytes().to_vec()));
    assert_eq!(
        converter.png_to_svg(Err("bad image".to_string())),
        Err("Error converting PNG to SVG: bad image".to_string())
    );
    assert_eq!(converter.get_last_result(), Some("<svg>\u{e9}</svg>".as_bytes().to_vec()));
}
