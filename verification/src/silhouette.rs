//! The silhouette of a layer: its opaque pixels, grown by a square window,
//! as a black and white image.
use crate::raster::{lemma_cell_index, GrayImage, Grid, Raster, Rgba, RgbaImage};
use vstd::prelude::*;

verus! {

/// The radius of the window by which a silhouette is grown.
pub const DILATION_RADIUS: u32 = 2;

/// A pixel is opaque above this alpha.
pub const OPAQUE_ABOVE: u8 = 128;

/// The luma of a pixel inside the silhouette.
pub const INSIDE: u8 = 255;

/// The luma of a pixel outside the silhouette.
pub const OUTSIDE: u8 = 0;

/// Whether a pixel is opaque.
pub open spec fn is_opaque(p: Rgba) -> bool {
    p[3] > OPAQUE_ABOVE
}

/// Whether an opaque pixel of the layer lies in the square window of the
/// given radius around `(x, y)`. The window is clipped at the borders.
pub open spec fn near_opaque(layer: Grid<Rgba>, x: int, y: int, radius: int) -> bool {
    exists|nx: int, ny: int|
        layer.contains(nx, ny) && x - radius <= nx <= x + radius && y - radius <= ny <= y + radius
            && is_opaque(#[trigger] layer.at(nx, ny))
}

/// The dilated pixel at `(x, y)`: opaque, in the colour that the layer has
/// there, when an opaque pixel is near; transparent otherwise.
pub open spec fn dilated_pixel(layer: Grid<Rgba>, x: int, y: int, radius: int) -> Rgba {
    if near_opaque(layer, x, y, radius) {
        [layer.at(x, y)[0], layer.at(x, y)[1], layer.at(x, y)[2], 255u8]
    } else {
        [0u8, 0u8, 0u8, 0u8]
    }
}

/// The layer with its opaque region grown by the radius.
pub open spec fn dilated(layer: Grid<Rgba>, radius: int) -> Grid<Rgba> {
    Grid::tabulate(layer.width, layer.height, |x: int, y: int| dilated_pixel(layer, x, y, radius))
}

/// The luma of a pixel in a black and white rendering of the opaque region.
pub open spec fn mask_value(p: Rgba) -> u8 {
    if is_opaque(p) {
        INSIDE
    } else {
        OUTSIDE
    }
}

/// The black and white rendering of the opaque region of an image.
pub open spec fn binarized(img: Grid<Rgba>) -> Grid<u8> {
    Grid { width: img.width, height: img.height, cells: img.cells.map_values(|p: Rgba| mask_value(p)) }
}

/// The silhouette of a layer: the layer dilated, then binarized.
pub open spec fn silhouette(layer: Grid<Rgba>, radius: int) -> Grid<u8> {
    binarized(dilated(layer, radius))
}

/// A pixel lies inside the silhouette exactly when an opaque pixel of the
/// layer is near it.
pub proof fn lemma_silhouette_is_grown_region(layer: Grid<Rgba>, radius: int, x: int, y: int)
    requires
        layer.contains(x, y),
    ensures
        silhouette(layer, radius).at(x, y) == if near_opaque(layer, x, y, radius) {
            INSIDE
        } else {
            OUTSIDE
        },
{
    lemma_cell_index(layer.width as int, layer.height as int, x, y);
}

/// A layer without an opaque pixel, such as a fully transparent one, has a
/// silhouette that is [`OUTSIDE`] everywhere.
pub proof fn lemma_transparent_layer_has_empty_silhouette(layer: Grid<Rgba>, radius: int)
    requires
        layer.wf(),
        forall|i: int| 0 <= i < layer.cells.len() ==> !is_opaque(#[trigger] layer.cells[i]),
    ensures
        silhouette(layer, radius).all(OUTSIDE),
{
    let shape = silhouette(layer, radius);
    assert forall|i: int| 0 <= i < shape.cells.len() implies shape.cells[i] == OUTSIDE by {
        let x = i % (layer.width as int);
        let y = i / (layer.width as int);
        if near_opaque(layer, x, y, radius) {
            let (nx, ny) = choose|nx: int, ny: int|
                layer.contains(nx, ny) && x - radius <= nx <= x + radius && y - radius <= ny <= y
                    + radius && is_opaque(#[trigger] layer.at(nx, ny));
            lemma_cell_index(layer.width as int, layer.height as int, nx, ny);
        }
    }
}

/// Whether an opaque pixel lies in the window around `(x, y)`.
fn near_opaque_at(layer: &RgbaImage, x: u32, y: u32, radius: u32) -> (near: bool)
    requires
        x < layer@.width,
        y < layer@.height,
    ensures
        near == near_opaque(layer@, x as int, y as int, radius as int),
{
    let (w, h) = layer.dimensions();
    let x_first: u32 = if x >= radius {
        x - radius
    } else {
        0
    };
    let y_first: u32 = if y >= radius {
        y - radius
    } else {
        0
    };
    let x_last: u32 = if (x as u64) + (radius as u64) < w as u64 {
        x + radius
    } else {
        w - 1
    };
    let y_last: u32 = if (y as u64) + (radius as u64) < h as u64 {
        y + radius
    } else {
        h - 1
    };
    let mut ny: u32 = y_first;
    while ny <= y_last
        invariant
            y_first <= ny <= y_last + 1,
            x_first <= x_last < w,
            y_last < h,
            x - radius <= x_first,
            x_last <= x + radius,
            y - radius <= y_first,
            y_last <= y + radius,
            w == layer@.width,
            h == layer@.height,
            forall|a: int, b: int|
                x_first <= a <= x_last && y_first <= b < ny ==> !is_opaque(
                    #[trigger] layer@.at(a, b),
                ),
        decreases y_last + 1 - ny,
    {
        let mut nx: u32 = x_first;
        while nx <= x_last
            invariant
                x_first <= nx <= x_last + 1,
                y_first <= ny <= y_last,
                x_last < w,
                y_last < h,
                x - radius <= x_first,
                x_last <= x + radius,
                y - radius <= y_first,
                y_last <= y + radius,
                w == layer@.width,
                h == layer@.height,
                forall|a: int, b: int|
                    x_first <= a <= x_last && y_first <= b < ny ==> !is_opaque(
                        #[trigger] layer@.at(a, b),
                    ),
                forall|a: int| x_first <= a < nx ==> !is_opaque(#[trigger] layer@.at(a, ny as int)),
            decreases x_last + 1 - nx,
        {
            let p = layer.get_pixel(nx, ny);
            if p[3] > OPAQUE_ABOVE {
                assert(layer@.contains(nx as int, ny as int) && is_opaque(
                    layer@.at(nx as int, ny as int),
                ));
                return true;
            }
            nx += 1;
        }
        ny += 1;
    }
    false
}

/// Grows the opaque region of a layer: a pixel becomes opaque, keeping the
/// colour that the layer has there, when an opaque pixel lies within
/// `radius` of it along both axes, and transparent otherwise.
pub fn dilate(layer: &RgbaImage, radius: u32) -> (out: RgbaImage)
    ensures
        out@ == dilated(layer@, radius as int),
        out@.wf(),
{
    let (w, h) = layer.dimensions();
    let mut cells: Vec<Rgba> = Vec::new();
    let mut y: u32 = 0;
    while y < h
        invariant
            y <= h,
            w == layer@.width,
            h == layer@.height,
            cells.len() == y * w,
            forall|i: int|
                0 <= i < cells.len() ==> cells[i] == dilated_pixel(
                    layer@,
                    i % (w as int),
                    i / (w as int),
                    radius as int,
                ),
        decreases h - y,
    {
        let mut x: u32 = 0;
        while x < w
            invariant
                x <= w,
                y < h,
                w == layer@.width,
                h == layer@.height,
                cells.len() == y * w + x,
                forall|i: int|
                    0 <= i < cells.len() ==> cells[i] == dilated_pixel(
                        layer@,
                        i % (w as int),
                        i / (w as int),
                        radius as int,
                    ),
            decreases w - x,
        {
            let grown: Rgba = if near_opaque_at(layer, x, y, radius) {
                let p = layer.get_pixel(x, y);
                [p[0], p[1], p[2], 255]
            } else {
                [0, 0, 0, 0]
            };
            proof {
                lemma_cell_index(w as int, h as int, x as int, y as int);
                assert(grown =~= dilated_pixel(layer@, x as int, y as int, radius as int));
            }
            cells.push(grown);
            x += 1;
        }
        proof {
            assert((y + 1) * w == y * w + w) by (nonlinear_arith);
        }
        y += 1;
    }
    proof {
        assert(h * w == w * h) by (nonlinear_arith);
    }
    let out = Raster::from_parts(w, h, cells);
    proof {
        assert(out@.cells =~= dilated(layer@, radius as int).cells);
    }
    out
}

/// Renders the opaque region of an image in black and white: [`INSIDE`]
/// where the pixel is opaque, [`OUTSIDE`] elsewhere.
pub fn binarize(img: &RgbaImage) -> (out: GrayImage)
    ensures
        out@ == binarized(img@),
        out@.wf(),
{
    let (w, h) = img.dimensions();
    let pixels = img.cells();
    let mut cells: Vec<u8> = Vec::new();
    let mut i: usize = 0;
    while i < pixels.len()
        invariant
            i <= pixels.len(),
            cells.len() == i,
            forall|j: int| 0 <= j < i ==> cells[j] == mask_value(pixels[j]),
        decreases pixels.len() - i,
    {
        let p = pixels[i];
        cells.push(
            if p[3] > OPAQUE_ABOVE {
                INSIDE
            } else {
                OUTSIDE
            },
        );
        i += 1;
    }
    let out = Raster::from_parts(w, h, cells);
    proof {
        assert(out@.cells =~= binarized(img@).cells);
    }
    out
}

/// The silhouette of a layer: its opaque region grown by
/// [`DILATION_RADIUS`], in black and white.
pub fn layer_silhouette(layer: &RgbaImage) -> (out: GrayImage)
    ensures
        out@ == silhouette(layer@, DILATION_RADIUS as int),
        out@.wf(),
{
    let grown = dilate(layer, DILATION_RADIUS);
    binarize(&grown)
}

} // verus!
