//! Edge detection on a smoothed silhouette: Sobel gradients, two thresholds,
//! and one pass of hysteresis linking.
use crate::raster::{lemma_cell_index, GrayImage, Grid, Raster};
use vstd::prelude::*;

verus! {

/// The edge-map value of a pixel that is no edge.
pub const NO_EDGE: u8 = 0;

/// The edge-map value of a pixel whose gradient lies between the thresholds.
pub const WEAK_EDGE: u8 = 128;

/// The edge-map value of an edge pixel.
pub const STRONG_EDGE: u8 = 255;

/// The luma at `(x, y)` as an integer.
pub open spec fn luma(g: Grid<u8>, x: int, y: int) -> int {
    g.at(x, y) as int
}

/// Interior pixels have all eight neighbours inside the grid.
pub open spec fn is_interior(g: Grid<u8>, x: int, y: int) -> bool {
    1 <= x < g.width - 1 && 1 <= y < g.height - 1
}

/// The horizontal Sobel response at an interior pixel: right column minus
/// left column, the middle row counted twice.
pub open spec fn sobel_x(g: Grid<u8>, x: int, y: int) -> int {
    (luma(g, x + 1, y - 1) - luma(g, x - 1, y - 1)) + 2 * (luma(g, x + 1, y) - luma(g, x - 1, y))
        + (luma(g, x + 1, y + 1) - luma(g, x - 1, y + 1))
}

/// The vertical Sobel response at an interior pixel: bottom row minus top
/// row, the middle column counted twice.
pub open spec fn sobel_y(g: Grid<u8>, x: int, y: int) -> int {
    (luma(g, x - 1, y + 1) - luma(g, x - 1, y - 1)) + 2 * (luma(g, x, y + 1) - luma(g, x, y - 1))
        + (luma(g, x + 1, y + 1) - luma(g, x + 1, y - 1))
}

/// The square of the gradient magnitude at an interior pixel.
pub open spec fn gradient_squared(g: Grid<u8>, x: int, y: int) -> int {
    sobel_x(g, x, y) * sobel_x(g, x, y) + sobel_y(g, x, y) * sobel_y(g, x, y)
}

/// The class of a pixel before linking. The gradient magnitude is the square
/// root of [`gradient_squared`], so it reaches a threshold exactly when the
/// square reaches the threshold's square. Pixels on the border are never
/// edges.
pub open spec fn gradient_class(g: Grid<u8>, x: int, y: int, low: u8, high: u8) -> u8 {
    if !is_interior(g, x, y) {
        NO_EDGE
    } else if gradient_squared(g, x, y) >= high * high {
        STRONG_EDGE
    } else if gradient_squared(g, x, y) >= low * low {
        WEAK_EDGE
    } else {
        NO_EDGE
    }
}

/// Whether the pixel at `(x, y)` is strong before linking.
pub open spec fn is_strong(g: Grid<u8>, x: int, y: int, low: u8, high: u8) -> bool {
    gradient_class(g, x, y, low, high) == STRONG_EDGE
}

/// Whether one of the eight neighbours of `(x, y)` is strong before linking.
pub open spec fn near_strong_edge(g: Grid<u8>, x: int, y: int, low: u8, high: u8) -> bool {
    ||| is_strong(g, x - 1, y - 1, low, high)
    ||| is_strong(g, x, y - 1, low, high)
    ||| is_strong(g, x + 1, y - 1, low, high)
    ||| is_strong(g, x - 1, y, low, high)
    ||| is_strong(g, x + 1, y, low, high)
    ||| is_strong(g, x - 1, y + 1, low, high)
    ||| is_strong(g, x, y + 1, low, high)
    ||| is_strong(g, x + 1, y + 1, low, high)
}

/// The class of a pixel after linking: a weak pixel becomes strong when a
/// neighbour was strong before the pass and is dropped otherwise.
pub open spec fn linked_edge(g: Grid<u8>, x: int, y: int, low: u8, high: u8) -> u8 {
    let class = gradient_class(g, x, y, low, high);
    if class != WEAK_EDGE {
        class
    } else if near_strong_edge(g, x, y, low, high) {
        STRONG_EDGE
    } else {
        NO_EDGE
    }
}

/// The classes of all pixels before linking.
pub open spec fn gradient_map(g: Grid<u8>, low: u8, high: u8) -> Grid<u8> {
    Grid::tabulate(g.width, g.height, |x: int, y: int| gradient_class(g, x, y, low, high))
}

/// The edge map of a grayscale grid: every pixel's class after linking.
pub open spec fn edge_map(g: Grid<u8>, low: u8, high: u8) -> Grid<u8> {
    Grid::tabulate(g.width, g.height, |x: int, y: int| linked_edge(g, x, y, low, high))
}

/// What [`gradient_map`] holds at a position of the grid.
proof fn lemma_gradient_map_at(g: Grid<u8>, low: u8, high: u8, x: int, y: int)
    requires
        g.contains(x, y),
    ensures
        gradient_map(g, low, high).at(x, y) == gradient_class(g, x, y, low, high),
{
    lemma_cell_index(g.width as int, g.height as int, x, y);
}

/// A Sobel response is a sum of four differences of bytes.
proof fn lemma_sobel_bounds(g: Grid<u8>, x: int, y: int)
    ensures
        -1020 <= sobel_x(g, x, y) <= 1020,
        -1020 <= sobel_y(g, x, y) <= 1020,
        0 <= sobel_x(g, x, y) * sobel_x(g, x, y) <= 1040400,
        0 <= sobel_y(g, x, y) * sobel_y(g, x, y) <= 1040400,
        0 <= gradient_squared(g, x, y) <= 2080800,
{
    let sx = sobel_x(g, x, y);
    let sy = sobel_y(g, x, y);
    assert(0 <= sx * sx <= 1040400) by (nonlinear_arith)
        requires
            -1020 <= sx <= 1020,
    ;
    assert(0 <= sy * sy <= 1040400) by (nonlinear_arith)
        requires
            -1020 <= sy <= 1020,
    ;
}

/// An image of one luma has no edges, whatever the positive thresholds: in
/// particular the edge map of an all-zero image is all zero.
pub proof fn lemma_flat_image_has_no_edges(g: Grid<u8>, low: u8, high: u8, luma: u8)
    requires
        g.wf(),
        g.all(luma),
        low > 0,
        high > 0,
    ensures
        edge_map(g, low, high).all(NO_EDGE),
{
    let w = g.width as int;
    let h = g.height as int;
    assert forall|x: int, y: int| gradient_class(g, x, y, low, high) == NO_EDGE by {
        if is_interior(g, x, y) {
            lemma_cell_index(w, h, x - 1, y - 1);
            lemma_cell_index(w, h, x, y - 1);
            lemma_cell_index(w, h, x + 1, y - 1);
            lemma_cell_index(w, h, x - 1, y);
            lemma_cell_index(w, h, x + 1, y);
            lemma_cell_index(w, h, x - 1, y + 1);
            lemma_cell_index(w, h, x, y + 1);
            lemma_cell_index(w, h, x + 1, y + 1);
            assert(sobel_x(g, x, y) == 0);
            assert(sobel_y(g, x, y) == 0);
            assert(high * high > 0) by (nonlinear_arith)
                requires
                    high > 0,
            ;
            assert(low * low > 0) by (nonlinear_arith)
                requires
                    low > 0,
            ;
        }
    }
}

/// An edge map holds nothing but [`NO_EDGE`] and [`STRONG_EDGE`].
pub proof fn lemma_edge_map_is_binary(g: Grid<u8>, low: u8, high: u8, i: int)
    requires
        0 <= i < edge_map(g, low, high).cells.len(),
    ensures
        edge_map(g, low, high).cells[i] == NO_EDGE || edge_map(g, low, high).cells[i]
            == STRONG_EDGE,
{
}

/// The class of one pixel before linking.
fn gradient_class_at(img: &GrayImage, x: u32, y: u32, low: u8, high: u8) -> (class: u8)
    requires
        x < img@.width,
        y < img@.height,
    ensures
        class == gradient_class(img@, x as int, y as int, low, high),
{
    let (w, h) = img.dimensions();
    if x < 1 || y < 1 || x >= w - 1 || y >= h - 1 {
        return NO_EDGE;
    }
    let nw: i32 = img.get_pixel(x - 1, y - 1) as i32;
    let n: i32 = img.get_pixel(x, y - 1) as i32;
    let ne: i32 = img.get_pixel(x + 1, y - 1) as i32;
    let west: i32 = img.get_pixel(x - 1, y) as i32;
    let east: i32 = img.get_pixel(x + 1, y) as i32;
    let sw: i32 = img.get_pixel(x - 1, y + 1) as i32;
    let s: i32 = img.get_pixel(x, y + 1) as i32;
    let se: i32 = img.get_pixel(x + 1, y + 1) as i32;
    let gx: i32 = (ne - nw) + 2 * (east - west) + (se - sw);
    let gy: i32 = (sw - nw) + 2 * (s - n) + (se - ne);
    proof {
        lemma_sobel_bounds(img@, x as int, y as int);
        assert(gx == sobel_x(img@, x as int, y as int));
        assert(gy == sobel_y(img@, x as int, y as int));
        assert(0 <= high * high <= 65025) by (nonlinear_arith)
            requires
                0 <= high <= 255,
        ;
        assert(0 <= low * low <= 65025) by (nonlinear_arith)
            requires
                0 <= low <= 255,
        ;
    }
    let magnitude: i32 = gx * gx + gy * gy;
    if magnitude >= (high as i32) * (high as i32) {
        STRONG_EDGE
    } else if magnitude >= (low as i32) * (low as i32) {
        WEAK_EDGE
    } else {
        NO_EDGE
    }
}

/// The classes of all pixels before linking.
fn gradient_classes(img: &GrayImage, low: u8, high: u8) -> (out: GrayImage)
    ensures
        out@ == gradient_map(img@, low, high),
        out@.wf(),
{
    let (w, h) = img.dimensions();
    let mut cells: Vec<u8> = Vec::new();
    let mut y: u32 = 0;
    while y < h
        invariant
            y <= h,
            w == img@.width,
            h == img@.height,
            cells.len() == y * w,
            forall|i: int|
                0 <= i < cells.len() ==> cells[i] == gradient_class(
                    img@,
                    i % (w as int),
                    i / (w as int),
                    low,
                    high,
                ),
        decreases h - y,
    {
        let mut x: u32 = 0;
        while x < w
            invariant
                x <= w,
                y < h,
                w == img@.width,
                h == img@.height,
                cells.len() == y * w + x,
                forall|i: int|
                    0 <= i < cells.len() ==> cells[i] == gradient_class(
                        img@,
                        i % (w as int),
                        i / (w as int),
                        low,
                        high,
                    ),
            decreases w - x,
        {
            let class = gradient_class_at(img, x, y, low, high);
            proof {
                lemma_cell_index(w as int, h as int, x as int, y as int);
            }
            cells.push(class);
            x += 1;
        }
        proof {
            assert((y + 1) * w == y * w + w) by (nonlinear_arith);
        }
        y += 1;
    }
    proof {
        assert(h * w == w * h) by (nonlinear_arith);
    }
    let out = Raster::from_parts(w, h, cells);
    proof {
        assert(out@.cells =~= gradient_map(img@, low, high).cells);
    }
    out
}

/// The class of one pixel after linking, read off the classes before linking.
fn linked_edge_at(img: &GrayImage, classes: &GrayImage, x: u32, y: u32, low: u8, high: u8) -> (class:
    u8)
    requires
        classes@ == gradient_map(img@, low, high),
        x < img@.width,
        y < img@.height,
    ensures
        class == linked_edge(img@, x as int, y as int, low, high),
{
    let (w, h) = img.dimensions();
    proof {
        lemma_gradient_map_at(img@, low, high, x as int, y as int);
    }
    let class = classes.get_pixel(x, y);
    if class != WEAK_EDGE {
        return class;
    }
    proof {
        let (cx, cy) = (x as int, y as int);
        lemma_gradient_map_at(img@, low, high, cx - 1, cy - 1);
        lemma_gradient_map_at(img@, low, high, cx, cy - 1);
        lemma_gradient_map_at(img@, low, high, cx + 1, cy - 1);
        lemma_gradient_map_at(img@, low, high, cx - 1, cy);
        lemma_gradient_map_at(img@, low, high, cx + 1, cy);
        lemma_gradient_map_at(img@, low, high, cx - 1, cy + 1);
        lemma_gradient_map_at(img@, low, high, cx, cy + 1);
        lemma_gradient_map_at(img@, low, high, cx + 1, cy + 1);
    }
    let near = classes.get_pixel(x - 1, y - 1) == STRONG_EDGE || classes.get_pixel(x, y - 1)
        == STRONG_EDGE || classes.get_pixel(x + 1, y - 1) == STRONG_EDGE || classes.get_pixel(
        x - 1,
        y,
    ) == STRONG_EDGE || classes.get_pixel(x + 1, y) == STRONG_EDGE || classes.get_pixel(
        x - 1,
        y + 1,
    ) == STRONG_EDGE || classes.get_pixel(x, y + 1) == STRONG_EDGE || classes.get_pixel(
        x + 1,
        y + 1,
    ) == STRONG_EDGE;
    if near {
        STRONG_EDGE
    } else {
        NO_EDGE
    }
}

/// Detects the edges of a grayscale image. Every interior pixel is classed by
/// its Sobel gradient magnitude: strong from `high_threshold` on, weak from
/// `low_threshold` on, no edge below. Then every weak pixel becomes strong
/// when one of its eight neighbours was strong, and no edge otherwise, so the
/// result holds only [`NO_EDGE`] and [`STRONG_EDGE`].
pub fn enhance_edges(img: &GrayImage, low_threshold: u8, high_threshold: u8) -> (out: GrayImage)
    ensures
        out@ == edge_map(img@, low_threshold, high_threshold),
        out@.wf(),
        forall|i: int|
            0 <= i < out@.cells.len() ==> out@.cells[i] == NO_EDGE || out@.cells[i] == STRONG_EDGE,
{
    let low = low_threshold;
    let high = high_threshold;
    let classes = gradient_classes(img, low, high);
    let (w, h) = img.dimensions();
    let mut cells: Vec<u8> = Vec::new();
    let mut y: u32 = 0;
    while y < h
        invariant
            y <= h,
            w == img@.width,
            h == img@.height,
            classes@ == gradient_map(img@, low, high),
            cells.len() == y * w,
            forall|i: int|
                0 <= i < cells.len() ==> cells[i] == linked_edge(
                    img@,
                    i % (w as int),
                    i / (w as int),
                    low,
                    high,
                ),
        decreases h - y,
    {
        let mut x: u32 = 0;
        while x < w
            invariant
                x <= w,
                y < h,
                w == img@.width,
                h == img@.height,
                classes@ == gradient_map(img@, low, high),
                cells.len() == y * w + x,
                forall|i: int|
                    0 <= i < cells.len() ==> cells[i] == linked_edge(
                        img@,
                        i % (w as int),
                        i / (w as int),
                        low,
                        high,
                    ),
            decreases w - x,
        {
            let class = linked_edge_at(img, &classes, x, y, low, high);
            proof {
                lemma_cell_index(w as int, h as int, x as int, y as int);
            }
            cells.push(class);
            x += 1;
        }
        proof {
            assert((y + 1) * w == y * w + w) by (nonlinear_arith);
        }
        y += 1;
    }
    proof {
        assert(h * w == w * h) by (nonlinear_arith);
    }
    let out = Raster::from_parts(w, h, cells);
    proof {
        assert(out@.cells =~= edge_map(img@, low, high).cells);
    }
    out
}

} // verus!
