//! The tracing pipeline around the smoothing step. Smoothing is done by the
//! caller: [`layer_silhouettes`] gives the images to smooth, and
//! [`trace_smoothed_layers`] takes them back smoothed.
use crate::edges::{edge_map, enhance_edges};
use crate::layers::{create_color_layers, layer_colors, layer_of, PALETTE_SIZE};
use crate::palette::{is_counted, is_palette, lemma_uncounted_pixels_have_empty_palette};
use crate::pathtext::{
    contour_paths, lemma_no_contour_path_is_short, long_paths, prune_short_paths, trace_contours,
};
use crate::raster::{GrayImage, Grid, Rgba, RgbaImage};
use crate::silhouette::{layer_silhouette, silhouette, DILATION_RADIUS};
use crate::simplify::{simplified_paths, simplify_paths};
use crate::text::texts;
use vstd::prelude::*;

verus! {

/// Gradients from this magnitude on are weak edges.
pub const EDGE_LOW: u8 = 10;

/// Gradients from this magnitude on are strong edges.
pub const EDGE_HIGH: u8 = 40;

/// The paths traced from a smoothed silhouette: the contours of its edge
/// map, without the paths that are too short.
pub open spec fn traced_paths(smoothed: Grid<u8>) -> Seq<Seq<char>> {
    long_paths(contour_paths(edge_map(smoothed, EDGE_LOW, EDGE_HIGH)))
}

/// The paths, each with the colour.
pub open spec fn tagged(paths: Seq<Seq<char>>, color: Rgba) -> Seq<(Seq<char>, Rgba)> {
    paths.map_values(|p: Seq<char>| (p, color))
}

/// The simplified paths of all layers with their colours, layer by layer.
pub open spec fn traced_shapes(layers: Seq<(Grid<u8>, Rgba)>, simplify_level: u8) -> Seq<
    (Seq<char>, Rgba),
>
    decreases layers.len(),
{
    if layers.len() == 0 {
        Seq::empty()
    } else {
        traced_shapes(layers.drop_last(), simplify_level) + tagged(
            simplified_paths(traced_paths(layers.last().0), simplify_level),
            layers.last().1,
        )
    }
}

/// The grids and colours of smoothed layers.
pub open spec fn layer_views(layers: Seq<(GrayImage, Rgba)>) -> Seq<(Grid<u8>, Rgba)> {
    layers.map_values(|l: (GrayImage, Rgba)| (l.0@, l.1))
}

/// The colours of silhouettes.
pub open spec fn silhouette_colors(layers: Seq<(GrayImage, Rgba)>) -> Seq<Rgba> {
    layers.map_values(|l: (GrayImage, Rgba)| l.1)
}

/// The texts and colours of shapes.
pub open spec fn shape_views(shapes: Seq<(String, Rgba)>) -> Seq<(Seq<char>, Rgba)> {
    shapes.map_values(|s: (String, Rgba)| (s.0@, s.1))
}

/// An image without a pixel that counts, such as a fully transparent one of
/// any size, has no layers, and no layers give no paths.
pub proof fn lemma_transparent_image_traces_nothing(
    pixels: Seq<Rgba>,
    palette: Seq<Rgba>,
    simplify_level: u8,
)
    requires
        is_palette(pixels, PALETTE_SIZE as nat, palette),
        forall|i: int| 0 <= i < pixels.len() ==> !is_counted(#[trigger] pixels[i]),
    ensures
        palette.len() == 0,
        traced_shapes(Seq::empty(), simplify_level).len() == 0,
{
    lemma_uncounted_pixels_have_empty_palette(pixels, PALETTE_SIZE as nat, palette);
}

/// The silhouettes of the colour layers of an image, each with its colour,
/// in the order of the palette.
pub fn layer_silhouettes(img: &RgbaImage) -> (out: Vec<(GrayImage, Rgba)>)
    ensures
        is_palette(img@.cells, PALETTE_SIZE as nat, silhouette_colors(out@)),
        forall|i: int|
            0 <= i < out.len() ==> (#[trigger] out[i]).0@ == silhouette(
                layer_of(img@, out[i].1),
                DILATION_RADIUS as int,
            ),
        (forall|i: int| 0 <= i < img@.cells.len() ==> !is_counted(#[trigger] img@.cells[i]))
            ==> out.len() == 0,
{
    let layers = create_color_layers(img);
    let mut out: Vec<(GrayImage, Rgba)> = Vec::new();
    let mut i: usize = 0;
    while i < layers.len()
        invariant
            i <= layers.len(),
            out.len() == i,
            forall|j: int|
                0 <= j < layers.len() ==> (#[trigger] layers[j]).0@ == layer_of(img@, layers[j].1),
            forall|j: int| 0 <= j < i ==> (#[trigger] out[j]).1 == layers[j].1,
            forall|j: int|
                0 <= j < i ==> (#[trigger] out[j]).0@ == silhouette(
                    layer_of(img@, out[j].1),
                    DILATION_RADIUS as int,
                ),
        decreases layers.len() - i,
    {
        let shape = layer_silhouette(&layers[i].0);
        out.push((shape, layers[i].1));
        i += 1;
    }
    proof {
        assert(silhouette_colors(out@) =~= layer_colors(layers@));
        if forall|i: int| 0 <= i < img@.cells.len() ==> !is_counted(#[trigger] img@.cells[i]) {
            lemma_uncounted_pixels_have_empty_palette(
                img@.cells,
                PALETTE_SIZE as nat,
                silhouette_colors(out@),
            );
        }
    }
    out
}

/// Traces a smoothed silhouette: detects its edges with the thresholds
/// [`EDGE_LOW`] and [`EDGE_HIGH`], walks them into contours, writes each
/// contour as a closed path and drops the paths that are too short to keep
/// (of which there are none: a contour has too many points for that).
pub fn trace_smoothed(smoothed: &GrayImage) -> (paths: Vec<String>)
    ensures
        texts(paths@) == traced_paths(smoothed@),
        texts(paths@) == contour_paths(edge_map(smoothed@, EDGE_LOW, EDGE_HIGH)),
{
    let edges = enhance_edges(smoothed, EDGE_LOW, EDGE_HIGH);
    let paths = trace_contours(&edges);
    proof {
        lemma_no_contour_path_is_short(edges@);
    }
    prune_short_paths(&paths)
}

/// Traces every smoothed layer and simplifies its paths at the given level.
/// The result lists the paths layer by layer, in the order of the layers,
/// each with the colour of its layer.
pub fn trace_smoothed_layers(layers: &Vec<(GrayImage, Rgba)>, simplify_level: u8) -> (shapes: Vec<
    (String, Rgba),
>)
    ensures
        shape_views(shapes@) == traced_shapes(layer_views(layers@), simplify_level),
        layers.len() == 0 ==> shapes.len() == 0,
{
    let mut shapes: Vec<(String, Rgba)> = Vec::new();
    let mut i: usize = 0;
    proof {
        assert(layer_views(layers@).take(0) =~= Seq::<(Grid<u8>, Rgba)>::empty());
    }
    while i < layers.len()
        invariant
            i <= layers.len(),
            shape_views(shapes@) == traced_shapes(
                layer_views(layers@).take(i as int),
                simplify_level,
            ),
        decreases layers.len() - i,
    {
        let color = layers[i].1;
        let traced = trace_smoothed(&layers[i].0);
        let simplified = simplify_paths(traced.as_slice(), simplify_level);
        let ghost before = shape_views(shapes@);
        let ghost added = tagged(
            simplified_paths(traced_paths(layers[i as int].0@), simplify_level),
            color,
        );
        proof {
            let next = layer_views(layers@).take(i + 1);
            assert(next.drop_last() =~= layer_views(layers@).take(i as int));
            assert(next.last() == (layers[i as int].0@, color));
        }
        let mut j: usize = 0;
        while j < simplified.len()
            invariant
                j <= simplified.len(),
                texts(simplified@) == simplified_paths(
                    traced_paths(layers[i as int].0@),
                    simplify_level,
                ),
                added == tagged(texts(simplified@), color),
                shape_views(shapes@) == before + added.take(j as int),
            decreases simplified.len() - j,
        {
            let ghost so_far = shape_views(shapes@);
            shapes.push((simplified[j].clone(), color));
            proof {
                assert(added[j as int] == (simplified[j as int]@, color));
                assert(shape_views(shapes@) =~= so_far.push((simplified[j as int]@, color)));
                assert(added.take(j + 1) =~= added.take(j as int).push(added[j as int]));
                assert(shape_views(shapes@) =~= before + added.take(j + 1));
            }
            j += 1;
        }
        proof {
            assert(added.take(simplified.len() as int) =~= added);
        }
        i += 1;
    }
    proof {
        assert(layer_views(layers@).take(layers.len() as int) =~= layer_views(layers@));
    }
    shapes
}

} // verus!
