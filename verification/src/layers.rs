//! Colour layers: for each palette colour a transparent image of the same
//! size that holds the source pixels close to that colour.
use crate::palette::{is_counted, is_palette, quantize_colors, OPACITY_THRESHOLD};
use crate::raster::{Grid, Raster, Rgba, RgbaImage};
use vstd::prelude::*;

verus! {

/// A pixel belongs to a layer when its distance to the layer's colour is
/// below this.
pub const LAYER_THRESHOLD: u32 = 60;

/// The number of colours that an image is reduced to.
pub const PALETTE_SIZE: usize = 8;

/// The fully transparent pixel.
pub open spec fn transparent() -> Rgba {
    [0u8, 0u8, 0u8, 0u8]
}

/// The square of the Euclidean distance between two colours, over red, green
/// and blue.
pub open spec fn distance_squared(p: Rgba, c: Rgba) -> int {
    (p[0] - c[0]) * (p[0] - c[0]) + (p[1] - c[1]) * (p[1] - c[1]) + (p[2] - c[2]) * (p[2] - c[2])
}

/// Whether the pixel belongs to the layer of the colour `c`: it is opaque
/// enough to count and its distance to `c` is below [`LAYER_THRESHOLD`].
pub open spec fn belongs_to(p: Rgba, c: Rgba) -> bool {
    is_counted(p) && distance_squared(p, c) < LAYER_THRESHOLD * LAYER_THRESHOLD
}

/// What the layer of the colour `c` holds in place of the source pixel `p`:
/// the colour `c` with the alpha of `p` where `p` belongs to the layer, and
/// the transparent pixel elsewhere.
pub open spec fn layer_pixel(p: Rgba, c: Rgba) -> Rgba {
    if belongs_to(p, c) {
        [c[0], c[1], c[2], p[3]]
    } else {
        transparent()
    }
}

/// The layer of the colour `c`.
pub open spec fn layer_of(img: Grid<Rgba>, c: Rgba) -> Grid<Rgba> {
    Grid {
        width: img.width,
        height: img.height,
        cells: img.cells.map_values(|p: Rgba| layer_pixel(p, c)),
    }
}

/// The colours of a sequence of layers.
pub open spec fn layer_colors(layers: Seq<(RgbaImage, Rgba)>) -> Seq<Rgba> {
    layers.map_values(|l: (RgbaImage, Rgba)| l.1)
}

/// Every pixel of a layer that is not fully transparent has the red, green
/// and blue of the layer's colour and the alpha of the source pixel, which is
/// at least the opacity threshold.
pub proof fn lemma_layer_pixels_have_layer_color(img: Grid<Rgba>, c: Rgba, i: int)
    requires
        0 <= i < img.cells.len(),
        layer_of(img, c).cells[i][3] > 0,
    ensures
        layer_of(img, c).cells[i][0] == c[0],
        layer_of(img, c).cells[i][1] == c[1],
        layer_of(img, c).cells[i][2] == c[2],
        layer_of(img, c).cells[i][3] == img.cells[i][3],
        img.cells[i][3] >= crate::palette::OPACITY_THRESHOLD,
{
}

/// An image without a pixel that counts, such as a fully transparent one,
/// has only fully transparent layers.
pub proof fn lemma_uncounted_pixels_leave_layers_empty(img: Grid<Rgba>, c: Rgba)
    requires
        forall|i: int| 0 <= i < img.cells.len() ==> !is_counted(#[trigger] img.cells[i]),
    ensures
        layer_of(img, c).all(transparent()),
{
}

/// A squared distance between colours fits in 32 bits.
proof fn lemma_distance_bound(p: Rgba, c: Rgba)
    ensures
        0 <= (p[0] - c[0]) * (p[0] - c[0]) <= 65025,
        0 <= (p[1] - c[1]) * (p[1] - c[1]) <= 65025,
        0 <= (p[2] - c[2]) * (p[2] - c[2]) <= 65025,
        0 <= distance_squared(p, c) <= 195075,
{
    let r = p[0] - c[0];
    let g = p[1] - c[1];
    let b = p[2] - c[2];
    assert(0 <= r * r <= 65025) by (nonlinear_arith)
        requires
            -255 <= r <= 255,
    ;
    assert(0 <= g * g <= 65025) by (nonlinear_arith)
        requires
            -255 <= g <= 255,
    ;
    assert(0 <= b * b <= 65025) by (nonlinear_arith)
        requires
            -255 <= b <= 255,
    ;
}

/// The square of the Euclidean distance between a pixel and a colour, over
/// red, green and blue. The distance itself is its square root, so it is
/// below a threshold exactly when this is below the threshold's square.
pub fn color_distance_squared(pixel: &Rgba, color: Rgba) -> (d: u32)
    ensures
        d == distance_squared(*pixel, color),
        d <= 195075,
{
    proof {
        lemma_distance_bound(*pixel, color);
    }
    let r: i32 = pixel[0] as i32 - color[0] as i32;
    let g: i32 = pixel[1] as i32 - color[1] as i32;
    let b: i32 = pixel[2] as i32 - color[2] as i32;
    (r * r + g * g + b * b) as u32
}

/// The layer of one colour: every source pixel that counts and lies within
/// [`LAYER_THRESHOLD`] of the colour is written in that colour with its own
/// alpha; every other pixel is transparent.
pub fn color_layer(img: &RgbaImage, color: Rgba) -> (layer: RgbaImage)
    ensures
        layer@ == layer_of(img@, color),
        layer@.wf(),
{
    let (w, h) = img.dimensions();
    let pixels = img.cells();
    let mut cells: Vec<Rgba> = Vec::new();
    let mut i: usize = 0;
    while i < pixels.len()
        invariant
            i <= pixels.len(),
            cells.len() == i,
            forall|j: int| 0 <= j < i ==> cells[j] == layer_pixel(pixels[j], color),
        decreases pixels.len() - i,
    {
        let p = pixels[i];
        let written: Rgba = if p[3] >= OPACITY_THRESHOLD && color_distance_squared(&p, color)
            < LAYER_THRESHOLD * LAYER_THRESHOLD {
            [color[0], color[1], color[2], p[3]]
        } else {
            [0, 0, 0, 0]
        };
        proof {
            assert(written =~= layer_pixel(p, color));
        }
        cells.push(written);
        i += 1;
    }
    let layer = Raster::from_parts(w, h, cells);
    proof {
        assert(layer@.cells =~= layer_of(img@, color).cells);
    }
    layer
}

/// One layer for each colour of the palette, in the order of the palette.
/// A source pixel may lie in several layers.
pub fn separate_layers(img: &RgbaImage, palette: &Vec<Rgba>) -> (layers: Vec<(RgbaImage, Rgba)>)
    ensures
        layer_colors(layers@) == palette@,
        forall|i: int|
            0 <= i < layers.len() ==> (#[trigger] layers[i]).0@ == layer_of(img@, layers[i].1),
{
    let mut layers: Vec<(RgbaImage, Rgba)> = Vec::new();
    let mut i: usize = 0;
    while i < palette.len()
        invariant
            i <= palette.len(),
            layers.len() == i,
            forall|j: int| 0 <= j < i ==> (#[trigger] layers[j]).1 == palette[j],
            forall|j: int| 0 <= j < i ==> (#[trigger] layers[j]).0@ == layer_of(img@, layers[j].1),
        decreases palette.len() - i,
    {
        let color = palette[i];
        layers.push((color_layer(img, color), color));
        i += 1;
    }
    proof {
        assert(layer_colors(layers@) =~= palette@);
    }
    layers
}

/// Splits an image into the layers of its [`PALETTE_SIZE`] most frequent
/// colours, in the order of the palette.
pub fn create_color_layers(img: &RgbaImage) -> (layers: Vec<(RgbaImage, Rgba)>)
    ensures
        is_palette(img@.cells, PALETTE_SIZE as nat, layer_colors(layers@)),
        forall|i: int|
            0 <= i < layers.len() ==> (#[trigger] layers[i]).0@ == layer_of(img@, layers[i].1),
{
    let palette = quantize_colors(img, PALETTE_SIZE);
    separate_layers(img, &palette)
}

} // verus!
