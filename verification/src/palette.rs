//! Colour quantization: the most frequent colours of an image, after each
//! channel is reduced to a multiple of sixteen.
use crate::raster::{Rgba, RgbaImage};
use std::collections::HashMap;
use vstd::prelude::*;

verus! {

/// A pixel counts from this alpha on.
pub const OPACITY_THRESHOLD: u8 = 128;

/// Channels are reduced to multiples of this step.
pub const CHANNEL_STEP: u8 = 16;

/// Whether a pixel is opaque enough to count.
pub open spec fn is_counted(p: Rgba) -> bool {
    p[3] >= OPACITY_THRESHOLD
}

/// The colour a pixel counts for: each of red, green and blue reduced to the
/// next lower multiple of [`CHANNEL_STEP`], and full alpha.
pub open spec fn quantized(p: Rgba) -> Rgba {
    [
        (p[0] / CHANNEL_STEP * CHANNEL_STEP) as u8,
        (p[1] / CHANNEL_STEP * CHANNEL_STEP) as u8,
        (p[2] / CHANNEL_STEP * CHANNEL_STEP) as u8,
        255u8,
    ]
}

/// Whether the pixel counts for the colour `c`.
pub open spec fn counts_for(p: Rgba, c: Rgba) -> bool {
    is_counted(p) && quantized(p) == c
}

/// The number of pixels that count for `c`.
pub open spec fn count_of(pixels: Seq<Rgba>, c: Rgba) -> nat
    decreases pixels.len(),
{
    if pixels.len() == 0 {
        0
    } else if counts_for(pixels.last(), c) {
        count_of(pixels.drop_last(), c) + 1
    } else {
        count_of(pixels.drop_last(), c)
    }
}

/// The index of the first pixel that counts for `c`, where there is one.
pub open spec fn first_seen(pixels: Seq<Rgba>, c: Rgba) -> int
    decreases pixels.len(),
{
    if pixels.len() == 0 {
        0
    } else if count_of(pixels.drop_last(), c) > 0 {
        first_seen(pixels.drop_last(), c)
    } else {
        pixels.len() - 1
    }
}

/// Whether `a` stands before `b` in the ranking: the more frequent colour
/// first, and of two equally frequent colours the one seen first.
pub open spec fn ranks_before(pixels: Seq<Rgba>, a: Rgba, b: Rgba) -> bool {
    ||| count_of(pixels, a) > count_of(pixels, b)
    ||| (count_of(pixels, a) == count_of(pixels, b) && first_seen(pixels, a) < first_seen(
        pixels,
        b,
    ))
}

/// Whether `palette` is the palette of at most `max_colors` colours of the
/// pixels: it holds only colours that pixels count for, in ranking order,
/// and a colour that pixels count for is missing only when the palette is
/// full and all of its colours rank before the missing one.
pub open spec fn is_palette(pixels: Seq<Rgba>, max_colors: nat, palette: Seq<Rgba>) -> bool {
    &&& palette.len() <= max_colors
    &&& forall|i: int| 0 <= i < palette.len() ==> count_of(pixels, #[trigger] palette[i]) > 0
    &&& forall|i: int, j: int|
        0 <= i < j < palette.len() ==> ranks_before(pixels, #[trigger] palette[i], #[trigger] palette[j])
    &&& forall|c: Rgba| #[trigger]
        count_of(pixels, c) > 0 && !palette.contains(c) ==> palette.len() == max_colors && forall|
            i: int,
        |
            0 <= i < palette.len() ==> ranks_before(pixels, #[trigger] palette[i], c)
}

/// Whether `c` is a colour that a pixel can count for.
pub open spec fn is_quantized(c: Rgba) -> bool {
    &&& c[0] % CHANNEL_STEP == 0
    &&& c[1] % CHANNEL_STEP == 0
    &&& c[2] % CHANNEL_STEP == 0
    &&& c[3] == 255
}

/// The key of a quantized colour: a number that tells it from every other.
pub open spec fn color_key(c: Rgba) -> int {
    (c[0] / CHANNEL_STEP) * 256 + (c[1] / CHANNEL_STEP) * 16 + c[2] / CHANNEL_STEP
}

/// The number of quantized colours.
pub const COLOR_KEYS: usize = 4096;

/// No more pixels count for a colour than there are pixels, and only for
/// quantized colours.
pub proof fn lemma_count_bounds(pixels: Seq<Rgba>, c: Rgba)
    ensures
        count_of(pixels, c) <= pixels.len(),
        count_of(pixels, c) > 0 ==> is_quantized(c),
        count_of(pixels, c) > 0 ==> 0 <= first_seen(pixels, c) < pixels.len(),
    decreases pixels.len(),
{
    if pixels.len() > 0 {
        lemma_count_bounds(pixels.drop_last(), c);
        if counts_for(pixels.last(), c) {
            lemma_quantized_is_quantized(pixels.last());
        }
    }
}

/// A quantized pixel is a quantized colour.
pub proof fn lemma_quantized_is_quantized(p: Rgba)
    ensures
        is_quantized(quantized(p)),
        0 <= color_key(quantized(p)) < COLOR_KEYS,
{
    let q = quantized(p);
    assert(q[0] == (p[0] / 16 * 16) as u8);
    assert(q[1] == (p[1] / 16 * 16) as u8);
    assert(q[2] == (p[2] / 16 * 16) as u8);
    assert(q[3] == 255);
}

/// Two quantized colours with the same key are the same colour.
pub proof fn lemma_key_names_color(a: Rgba, b: Rgba)
    requires
        is_quantized(a),
        is_quantized(b),
        color_key(a) == color_key(b),
    ensures
        a == b,
{
    assert(a =~= b);
}

/// A colour that pixels count for is the quantized colour of a counted pixel.
pub proof fn lemma_counted_pixel_exists(pixels: Seq<Rgba>, c: Rgba)
    requires
        count_of(pixels, c) > 0,
    ensures
        exists|i: int| 0 <= i < pixels.len() && counts_for(#[trigger] pixels[i], c),
    decreases pixels.len(),
{
    if counts_for(pixels.last(), c) {
        assert(counts_for(pixels[pixels.len() - 1], c));
    } else {
        lemma_counted_pixel_exists(pixels.drop_last(), c);
        let i = choose|i: int|
            0 <= i < pixels.drop_last().len() && counts_for(#[trigger] pixels.drop_last()[i], c);
        assert(counts_for(pixels[i], c));
    }
}

/// A pixel that counts for a colour gives it a positive count.
pub proof fn lemma_counted_pixel_counts(pixels: Seq<Rgba>, i: int, c: Rgba)
    requires
        0 <= i < pixels.len(),
        counts_for(pixels[i], c),
    ensures
        count_of(pixels, c) > 0,
    decreases pixels.len(),
{
    if i < pixels.len() - 1 {
        lemma_counted_pixel_counts(pixels.drop_last(), i, c);
    }
}

/// The number of pixels that count.
pub open spec fn counted_pixels(pixels: Seq<Rgba>) -> nat
    decreases pixels.len(),
{
    if pixels.len() == 0 {
        0
    } else if is_counted(pixels.last()) {
        counted_pixels(pixels.drop_last()) + 1
    } else {
        counted_pixels(pixels.drop_last())
    }
}

/// Where all pixels that count have the colour `c`, every one of them counts
/// for `c`.
proof fn lemma_single_color_count(pixels: Seq<Rgba>, c: Rgba)
    requires
        forall|i: int|
            0 <= i < pixels.len() && is_counted(#[trigger] pixels[i]) ==> quantized(pixels[i]) == c,
    ensures
        count_of(pixels, c) == counted_pixels(pixels),
    decreases pixels.len(),
{
    if pixels.len() > 0 {
        let rest = pixels.drop_last();
        assert forall|i: int| 0 <= i < rest.len() && is_counted(#[trigger] rest[i]) implies quantized(
            rest[i],
        ) == c by {
            assert(rest[i] == pixels[i]);
        }
        lemma_single_color_count(rest, c);
        assert(pixels.last() == pixels[pixels.len() - 1]);
    }
}

/// An image whose counted pixels all have one quantized colour has exactly
/// that colour as its palette, and all counted pixels count for it.
pub proof fn lemma_single_color_palette(
    pixels: Seq<Rgba>,
    max_colors: nat,
    palette: Seq<Rgba>,
    c: Rgba,
)
    requires
        is_palette(pixels, max_colors, palette),
        max_colors >= 1,
        exists|i: int| 0 <= i < pixels.len() && is_counted(#[trigger] pixels[i]),
        forall|i: int|
            0 <= i < pixels.len() && is_counted(#[trigger] pixels[i]) ==> quantized(pixels[i]) == c,
    ensures
        palette == seq![c],
        count_of(pixels, c) == counted_pixels(pixels),
{
    lemma_single_color_count(pixels, c);
    let w = choose|i: int| 0 <= i < pixels.len() && is_counted(#[trigger] pixels[i]);
    lemma_counted_pixel_counts(pixels, w, c);
    assert forall|i: int| 0 <= i < palette.len() implies #[trigger] palette[i] == c by {
        assert(count_of(pixels, palette[i]) > 0);
        lemma_counted_pixel_exists(pixels, palette[i]);
    }
    if palette.len() >= 2 {
        assert(ranks_before(pixels, palette[0], palette[1]));
    }
    if palette.len() == 0 {
        assert(!palette.contains(c));
        assert(count_of(pixels, c) > 0);
    }
    assert(palette =~= seq![c]);
}

/// An image without a pixel that counts has the empty palette.
pub proof fn lemma_uncounted_pixels_have_empty_palette(
    pixels: Seq<Rgba>,
    max_colors: nat,
    palette: Seq<Rgba>,
)
    requires
        is_palette(pixels, max_colors, palette),
        forall|i: int| 0 <= i < pixels.len() ==> !is_counted(#[trigger] pixels[i]),
    ensures
        palette.len() == 0,
{
    if palette.len() > 0 {
        assert(count_of(pixels, palette[0]) > 0);
        lemma_counted_pixel_exists(pixels, palette[0]);
    }
}

/// The pixels, the size and the ranking determine the palette: there is only
/// one.
pub proof fn lemma_palette_is_unique(
    pixels: Seq<Rgba>,
    max_colors: nat,
    first: Seq<Rgba>,
    second: Seq<Rgba>,
)
    requires
        is_palette(pixels, max_colors, first),
        is_palette(pixels, max_colors, second),
    ensures
        first == second,
{
    lemma_palettes_agree(pixels, max_colors, first, second, first.len() as int);
    lemma_palettes_agree(pixels, max_colors, second, first, second.len() as int);
    assert(first =~= second);
}

/// Two palettes of the same pixels and size agree on the first `n` colours
/// of the first, and the second has that many.
proof fn lemma_palettes_agree(
    pixels: Seq<Rgba>,
    max_colors: nat,
    first: Seq<Rgba>,
    second: Seq<Rgba>,
    n: int,
)
    requires
        is_palette(pixels, max_colors, first),
        is_palette(pixels, max_colors, second),
        0 <= n <= first.len(),
    ensures
        n <= second.len(),
        forall|i: int| 0 <= i < n ==> first[i] == second[i],
    decreases n,
{
    if n > 0 {
        lemma_palettes_agree(pixels, max_colors, first, second, n - 1);
        let i = n - 1;
        let a = first[i];
        assert(count_of(pixels, a) > 0);
        if second.len() <= i {
            // The second palette is not full, so it holds `a`: at a place
            // where the first holds the same colour, before `a`.
            assert(second.contains(a));
            let m = choose|m: int| 0 <= m < second.len() && second[m] == a;
            assert(first[m] == second[m]);
            assert(ranks_before(pixels, first[m], first[i]));
        } else {
            let b = second[i];
            assert(count_of(pixels, b) > 0);
            if a != b {
                // Each of the two ranks before the other.
                assert(ranks_before(pixels, b, a)) by {
                    if second.contains(a) {
                        let m = choose|m: int| 0 <= m < second.len() && second[m] == a;
                        if m < i {
                            assert(first[m] == second[m]);
                            assert(ranks_before(pixels, first[m], first[i]));
                        } else {
                            assert(ranks_before(pixels, second[i], second[m]));
                        }
                    }
                }
                assert(ranks_before(pixels, a, b)) by {
                    if first.contains(b) {
                        let m = choose|m: int| 0 <= m < first.len() && first[m] == b;
                        if m < i {
                            assert(first[m] == second[m]);
                            assert(ranks_before(pixels, second[m], second[i]));
                        } else {
                            assert(ranks_before(pixels, first[i], first[m]));
                        }
                    }
                }
            }
        }
    }
}

/// The colour a pixel counts for.
fn quantize(p: Rgba) -> (c: Rgba)
    ensures
        c == quantized(p),
{
    let c: Rgba = [
        p[0] / CHANNEL_STEP * CHANNEL_STEP,
        p[1] / CHANNEL_STEP * CHANNEL_STEP,
        p[2] / CHANNEL_STEP * CHANNEL_STEP,
        255,
    ];
    proof {
        assert(c =~= quantized(p));
    }
    c
}

/// The key of a quantized colour.
fn key_of(c: Rgba) -> (key: u32)
    ensures
        key == color_key(c),
        key < COLOR_KEYS,
{
    (c[0] / CHANNEL_STEP) as u32 * 256 + (c[1] / CHANNEL_STEP) as u32 * 16 + (c[2]
        / CHANNEL_STEP) as u32
}

/// Whether the entry at `a` stands before the entry at `b`: the greater
/// count first, and of equal counts the lower index.
spec fn entry_before(counts: Seq<usize>, a: int, b: int) -> bool {
    counts[a] > counts[b] || (counts[a] == counts[b] && a < b)
}

/// Whether `entries`, `counts` and `slots` are the tally of the pixels: the
/// colours that pixels count for in the order in which they are first seen,
/// the count of each, and a map from the key of each of these colours to the
/// index of its entry.
spec fn is_tally(
    pixels: Seq<Rgba>,
    entries: Seq<Rgba>,
    counts: Seq<usize>,
    slots: Map<u32, usize>,
) -> bool {
    &&& entries.len() == counts.len()
    &&& forall|j: int|
        0 <= j < entries.len() ==> (#[trigger] counts[j]) == count_of(pixels, entries[j])
            && counts[j] > 0
    &&& forall|j: int|
        0 <= j < entries.len() ==> is_quantized(#[trigger] entries[j]) && slots.contains_key(
            color_key(entries[j]) as u32,
        ) && slots[color_key(entries[j]) as u32] == j
    &&& forall|i: int, j: int|
        0 <= i < j < entries.len() ==> first_seen(pixels, #[trigger] entries[i]) < first_seen(
            pixels,
            #[trigger] entries[j],
        )
    &&& forall|k: u32| #[trigger]
        slots.contains_key(k) ==> slots[k] < entries.len() && color_key(entries[slots[k] as int])
            == k
    &&& forall|c: Rgba| #[trigger]
        count_of(pixels, c) > 0 ==> slots.contains_key(color_key(c) as u32)
}

/// How one more pixel changes a count and a first sighting.
proof fn lemma_one_more_pixel(before: Seq<Rgba>, p: Rgba, c: Rgba)
    ensures
        count_of(before.push(p), c) == count_of(before, c) + if counts_for(p, c) {
            1nat
        } else {
            0nat
        },
        count_of(before, c) > 0 ==> first_seen(before.push(p), c) == first_seen(before, c),
        count_of(before, c) == 0 ==> first_seen(before.push(p), c) == before.len(),
{
    assert(before.push(p).drop_last() =~= before);
}

/// A pixel that does not count leaves the tally as it is.
proof fn lemma_tally_skips(
    before: Seq<Rgba>,
    p: Rgba,
    entries: Seq<Rgba>,
    counts: Seq<usize>,
    slots: Map<u32, usize>,
)
    requires
        is_tally(before, entries, counts, slots),
        !is_counted(p),
    ensures
        is_tally(before.push(p), entries, counts, slots),
{
    let after = before.push(p);
    assert forall|c: Rgba| #[trigger]
        count_of(after, c) == count_of(before, c) && (count_of(before, c) > 0 ==> first_seen(
            after,
            c,
        ) == first_seen(before, c)) by {
        lemma_one_more_pixel(before, p, c);
    }
    assert forall|i: int, j: int| 0 <= i < j < entries.len() implies first_seen(
        after,
        #[trigger] entries[i],
    ) < first_seen(after, #[trigger] entries[j]) by {
        assert(counts[i] > 0 && counts[j] > 0);
        lemma_one_more_pixel(before, p, entries[i]);
        lemma_one_more_pixel(before, p, entries[j]);
    }
}

/// A pixel that counts for the colour of the entry `j` adds one to the
/// count of that entry.
proof fn lemma_tally_counts(
    before: Seq<Rgba>,
    p: Rgba,
    entries: Seq<Rgba>,
    counts: Seq<usize>,
    slots: Map<u32, usize>,
    j: int,
)
    requires
        is_tally(before, entries, counts, slots),
        is_counted(p),
        slots.contains_key(color_key(quantized(p)) as u32),
        slots[color_key(quantized(p)) as u32] == j,
    ensures
        0 <= j < entries.len(),
        entries[j] == quantized(p),
        counts[j] < before.len() + 1,
        counts[j] + 1 <= usize::MAX ==> is_tally(
            before.push(p),
            entries,
            counts.update(j, (counts[j] + 1) as usize),
            slots,
        ),
{
    let after = before.push(p);
    let c = quantized(p);
    let grown = counts.update(j, #[verifier::truncate] ((counts[j] + 1) as usize));
    lemma_quantized_is_quantized(p);
    lemma_key_names_color(entries[j], c);
    lemma_count_bounds(before, c);
    assert(counts[j] == count_of(before, entries[j]));
    if counts[j] + 1 <= usize::MAX {
        assert forall|d: Rgba| #[trigger]
            count_of(after, d) == count_of(before, d) + if d == c {
                1nat
            } else {
                0nat
            } && (count_of(before, d) > 0 ==> first_seen(after, d) == first_seen(before, d)) by {
            lemma_one_more_pixel(before, p, d);
        }
        assert forall|i: int| 0 <= i < entries.len() implies (#[trigger] grown[i]) == count_of(
            after,
            entries[i],
        ) && grown[i] > 0 by {
            assert(counts[i] > 0);
            if i != j && entries[i] == c {
                assert(slots[color_key(entries[i]) as u32] == i);
            }
        }
        assert forall|i: int, k: int| 0 <= i < k < entries.len() implies first_seen(
            after,
            #[trigger] entries[i],
        ) < first_seen(after, #[trigger] entries[k]) by {
            assert(counts[i] > 0 && counts[k] > 0);
            lemma_one_more_pixel(before, p, entries[i]);
            lemma_one_more_pixel(before, p, entries[k]);
        }
        assert forall|d: Rgba| #[trigger] count_of(after, d) > 0 implies slots.contains_key(
            color_key(d) as u32,
        ) by {
            if d != c {
                assert(count_of(before, d) > 0);
            }
        }
    }
}

/// A pixel that counts for a colour without an entry adds an entry for it.
proof fn lemma_tally_grows(
    before: Seq<Rgba>,
    p: Rgba,
    entries: Seq<Rgba>,
    counts: Seq<usize>,
    slots: Map<u32, usize>,
)
    requires
        is_tally(before, entries, counts, slots),
        is_counted(p),
        !slots.contains_key(color_key(quantized(p)) as u32),
        entries.len() < usize::MAX,
    ensures
        is_tally(
            before.push(p),
            entries.push(quantized(p)),
            counts.push(1),
            slots.insert(color_key(quantized(p)) as u32, entries.len() as usize),
        ),
{
    let after = before.push(p);
    let c = quantized(p);
    let key = color_key(c) as u32;
    let more = entries.push(c);
    let grown = counts.push(1);
    let filled = slots.insert(key, entries.len() as usize);
    lemma_quantized_is_quantized(p);
    assert(count_of(before, c) == 0) by {
        if count_of(before, c) > 0 {
            assert(slots.contains_key(color_key(c) as u32));
        }
    }
    assert forall|d: Rgba| #[trigger]
        count_of(after, d) == count_of(before, d) + if d == c {
            1nat
        } else {
            0nat
        } && (count_of(before, d) > 0 ==> first_seen(after, d) == first_seen(before, d)) && (
        count_of(before, d) == 0 ==> first_seen(after, d) == before.len()) by {
        lemma_one_more_pixel(before, p, d);
    }
    assert forall|i: int| 0 <= i < entries.len() implies #[trigger] entries[i] != c && color_key(
        entries[i],
    ) as u32 != key && first_seen(before, entries[i]) < before.len() by {
        assert(slots.contains_key(color_key(entries[i]) as u32));
        assert(counts[i] > 0);
        lemma_count_bounds(before, entries[i]);
    }
    assert forall|i: int| 0 <= i < more.len() implies (#[trigger] grown[i]) == count_of(
        after,
        more[i],
    ) && grown[i] > 0 by {
        if i < entries.len() {
            assert(counts[i] > 0);
            assert(entries[i] != c);
        }
    }
    assert forall|i: int| 0 <= i < more.len() implies is_quantized(#[trigger] more[i])
        && filled.contains_key(color_key(more[i]) as u32) && filled[color_key(more[i]) as u32]
        == i by {
        if i < entries.len() {
            assert(entries[i] != c);
        }
    }
    assert forall|i: int, k: int| 0 <= i < k < more.len() implies first_seen(
        after,
        #[trigger] more[i],
    ) < first_seen(after, #[trigger] more[k]) by {
        assert(counts[i] > 0);
        assert(entries[i] != c);
        lemma_one_more_pixel(before, p, more[i]);
        lemma_one_more_pixel(before, p, more[k]);
        if k < entries.len() {
            assert(counts[k] > 0);
            assert(entries[k] != c);
        }
    }
    assert forall|k: u32| #[trigger] filled.contains_key(k) implies filled[k] < more.len()
        && color_key(more[filled[k] as int]) == k by {
        if k != key {
            assert(slots.contains_key(k));
        }
    }
    assert forall|d: Rgba| #[trigger] count_of(after, d) > 0 implies filled.contains_key(
        color_key(d) as u32,
    ) by {
        if d != c {
            assert(count_of(before, d) > 0);
            assert(slots.contains_key(color_key(d) as u32));
        }
    }
}

/// What a tally of all pixels says of the colours.
proof fn lemma_tally_is_complete(
    pixels: Seq<Rgba>,
    entries: Seq<Rgba>,
    counts: Seq<usize>,
    slots: Map<u32, usize>,
)
    requires
        is_tally(pixels, entries, counts, slots),
    ensures
        entries.len() == counts.len(),
        forall|j: int|
            0 <= j < entries.len() ==> (#[trigger] counts[j]) == count_of(pixels, entries[j])
                && counts[j] > 0,
        forall|i: int, j: int|
            0 <= i < j < entries.len() ==> first_seen(pixels, #[trigger] entries[i]) < first_seen(
                pixels,
                #[trigger] entries[j],
            ),
        forall|c: Rgba| #[trigger] count_of(pixels, c) > 0 ==> entries.contains(c),
{
    assert forall|c: Rgba| #[trigger] count_of(pixels, c) > 0 implies entries.contains(c) by {
        lemma_count_bounds(pixels, c);
        let j = slots[color_key(c) as u32] as int;
        lemma_key_names_color(entries[j], c);
    }
}

/// The distinct colours of the pixels in the order in which they are first
/// seen, each with the number of pixels that count for it. A hash map from
/// the key of a colour to the index of its entry finds the entry of a pixel.
fn count_colors(pixels: &Vec<Rgba>) -> (found: (Vec<Rgba>, Vec<usize>))
    ensures
        found.0.len() == found.1.len(),
        forall|j: int|
            0 <= j < found.0.len() ==> (#[trigger] found.1[j]) == count_of(pixels@, found.0[j])
                && found.1[j] > 0,
        forall|i: int, j: int|
            0 <= i < j < found.0.len() ==> first_seen(pixels@, #[trigger] found.0[i]) < first_seen(
                pixels@,
                #[trigger] found.0[j],
            ),
        forall|c: Rgba| #[trigger] count_of(pixels@, c) > 0 ==> found.0@.contains(c),
{
    broadcast use vstd::std_specs::hash::group_hash_axioms;

    let mut entries: Vec<Rgba> = Vec::new();
    let mut counts: Vec<usize> = Vec::new();
    let mut slots: HashMap<u32, usize> = HashMap::new();
    let mut n: usize = 0;
    proof {
        assert(pixels@.take(0) =~= Seq::<Rgba>::empty());
        assert forall|c: Rgba| #[trigger]
            count_of(pixels@.take(0), c) > 0 implies slots@.contains_key(color_key(c) as u32) by {}
    }
    while n < pixels.len()
        invariant
            n <= pixels.len(),
            entries.len() <= n,
            is_tally(pixels@.take(n as int), entries@, counts@, slots@),
        decreases pixels.len() - n,
    {
        let p = pixels[n];
        let ghost before = pixels@.take(n as int);
        proof {
            assert(pixels@.take(n + 1) =~= before.push(p));
        }
        if p[3] >= OPACITY_THRESHOLD {
            let c = quantize(p);
            let key = key_of(c);
            let slot = match slots.get(&key) {
                Some(index) => Some(*index),
                None => None,
            };
            match slot {
                Some(index) => {
                    proof {
                        lemma_tally_counts(before, p, entries@, counts@, slots@, index as int);
                    }
                    let seen: usize = counts[index];
                    counts.set(index, seen + 1);
                },
                None => {
                    proof {
                        lemma_tally_grows(before, p, entries@, counts@, slots@);
                    }
                    slots.insert(key, entries.len());
                    entries.push(c);
                    counts.push(1);
                },
            }
        } else {
            proof {
                lemma_tally_skips(before, p, entries@, counts@, slots@);
            }
        }
        n += 1;
    }
    proof {
        assert(pixels@.take(pixels.len() as int) =~= pixels@);
        lemma_tally_is_complete(pixels@, entries@, counts@, slots@);
    }
    (entries, counts)
}

/// The index of the entry that stands before all others not yet taken, if
/// one is left.
fn best_entry(counts: &Vec<usize>, taken: &Vec<bool>) -> (best: Option<usize>)
    requires
        taken.len() == counts.len(),
    ensures
        best is None ==> forall|t: int| 0 <= t < counts.len() ==> taken[t],
        best is Some ==> best->0 < counts.len() && !taken[best->0 as int] && forall|t: int|
            0 <= t < counts.len() && !taken[t] && t != best->0 ==> entry_before(
                counts@,
                best->0 as int,
                t,
            ),
{
    let mut best: Option<usize> = None;
    let mut j: usize = 0;
    while j < counts.len()
        invariant
            j <= counts.len(),
            taken.len() == counts.len(),
            best is None ==> forall|t: int| 0 <= t < j ==> taken[t],
            best is Some ==> best->0 < j && !taken[best->0 as int] && forall|t: int|
                0 <= t < j && !taken[t] && t != best->0 ==> entry_before(
                    counts@,
                    best->0 as int,
                    t,
                ),
        decreases counts.len() - j,
    {
        if !taken[j] {
            match best {
                None => {
                    best = Some(j);
                },
                Some(b) => {
                    if counts[j] > counts[b] {
                        best = Some(j);
                    }
                },
            }
        }
        j += 1;
    }
    best
}

/// Reduces an image to its most frequent colours. Only pixels with an alpha
/// of at least [`OPACITY_THRESHOLD`] count. Each counts for its colour with
/// red, green and blue reduced to the next lower multiple of
/// [`CHANNEL_STEP`] and with full alpha. The palette holds the `max_colors`
/// most frequent of these colours, the most frequent first; of two equally
/// frequent colours the one that the row-by-row scan meets first stands
/// first.
pub fn quantize_colors(img: &RgbaImage, max_colors: usize) -> (palette: Vec<Rgba>)
    ensures
        is_palette(img@.cells, max_colors as nat, palette@),
        palette.len() <= max_colors,
{
    let pixels = img.cells();
    let (entries, counts) = count_colors(pixels);
    let mut taken: Vec<bool> = Vec::new();
    let mut k: usize = 0;
    while k < entries.len()
        invariant
            k <= entries.len(),
            taken.len() == k,
            forall|t: int| 0 <= t < k ==> !taken[t],
        decreases entries.len() - k,
    {
        taken.push(false);
        k += 1;
    }
    let mut palette: Vec<Rgba> = Vec::new();
    let ghost mut picked: Seq<int> = Seq::empty();
    let ghost all = pixels@;
    loop
        invariant
            all == pixels@,
            all == img@.cells,
            entries.len() == counts.len(),
            taken.len() == entries.len(),
            palette.len() == picked.len(),
            palette.len() <= max_colors,
            forall|j: int|
                0 <= j < entries.len() ==> (#[trigger] counts[j]) == count_of(all, entries[j])
                    && counts[j] > 0,
            forall|i: int, j: int|
                0 <= i < j < entries.len() ==> first_seen(all, #[trigger] entries[i]) < first_seen(
                    all,
                    #[trigger] entries[j],
                ),
            forall|c: Rgba| #[trigger] count_of(all, c) > 0 ==> entries@.contains(c),
            forall|i: int|
                0 <= i < picked.len() ==> 0 <= #[trigger] picked[i] < entries.len()
                    && taken[picked[i]] && palette[i] == entries[picked[i]],
            forall|t: int|
                0 <= t < entries.len() && #[trigger] taken[t] ==> palette@.contains(entries[t]),
            forall|i: int, j: int|
                0 <= i < j < picked.len() ==> entry_before(
                    counts@,
                    #[trigger] picked[i],
                    #[trigger] picked[j],
                ),
            forall|i: int, t: int|
                0 <= i < picked.len() && 0 <= t < entries.len() && !#[trigger] taken[t]
                    ==> entry_before(counts@, #[trigger] picked[i], t),
        ensures
            is_palette(all, max_colors as nat, palette@),
            palette.len() <= max_colors,
        decreases max_colors - palette.len(),
    {
        let best = if palette.len() < max_colors {
            best_entry(&counts, &taken)
        } else {
            None
        };
        match best {
            Some(b) => {
                let ghost old_palette = palette@;
                let ghost old_taken = taken@;
                palette.push(entries[b]);
                taken.set(b, true);
                proof {
                    picked = picked.push(b as int);
                    assert forall|t: int|
                        0 <= t < entries.len() && #[trigger] taken[t] implies palette@.contains(
                        entries[t],
                    ) by {
                        if t == b {
                            assert(palette@[palette.len() - 1] == entries[t]);
                        } else {
                            assert(old_taken[t]);
                            let i = choose|i: int|
                                0 <= i < old_palette.len() && old_palette[i] == entries[t];
                            assert(palette@[i] == entries[t]);
                        }
                    }
                    assert forall|i: int, j: int| 0 <= i < j < picked.len() implies entry_before(
                        counts@,
                        #[trigger] picked[i],
                        #[trigger] picked[j],
                    ) by {
                        if j == picked.len() - 1 {
                            assert(!old_taken[b as int]);
                        }
                    }
                    assert forall|i: int, t: int|
                        0 <= i < picked.len() && 0 <= t < entries.len() && !#[trigger] taken[t]
                        implies entry_before(counts@, #[trigger] picked[i], t) by {
                        assert(!old_taken[t]);
                    }
                }
            },
            None => {
                proof {
                    lemma_selection_is_palette(
                        all,
                        max_colors as nat,
                        entries@,
                        counts@,
                        taken@,
                        picked,
                        palette@,
                    );
                }
                break;
            },
        }
    }
    palette
}

/// What the selection has picked is the palette once it has picked
/// `max_colors` entries or none is left.
proof fn lemma_selection_is_palette(
    all: Seq<Rgba>,
    max_colors: nat,
    entries: Seq<Rgba>,
    counts: Seq<usize>,
    taken: Seq<bool>,
    picked: Seq<int>,
    palette: Seq<Rgba>,
)
    requires
        entries.len() == counts.len(),
        taken.len() == entries.len(),
        palette.len() == picked.len(),
        palette.len() <= max_colors,
        palette.len() == max_colors || forall|t: int| 0 <= t < entries.len() ==> taken[t],
        forall|j: int|
            0 <= j < entries.len() ==> (#[trigger] counts[j]) == count_of(all, entries[j])
                && counts[j] > 0,
        forall|i: int, j: int|
            0 <= i < j < entries.len() ==> first_seen(all, #[trigger] entries[i]) < first_seen(
                all,
                #[trigger] entries[j],
            ),
        forall|c: Rgba| #[trigger] count_of(all, c) > 0 ==> entries.contains(c),
        forall|i: int|
            0 <= i < picked.len() ==> 0 <= #[trigger] picked[i] < entries.len() && taken[picked[i]]
                && palette[i] == entries[picked[i]],
        forall|t: int|
            0 <= t < entries.len() && #[trigger] taken[t] ==> palette.contains(entries[t]),
        forall|i: int, j: int|
            0 <= i < j < picked.len() ==> entry_before(
                counts,
                #[trigger] picked[i],
                #[trigger] picked[j],
            ),
        forall|i: int, t: int|
            0 <= i < picked.len() && 0 <= t < entries.len() && !#[trigger] taken[t]
                ==> entry_before(counts, #[trigger] picked[i], t),
    ensures
        is_palette(all, max_colors, palette),
{
    assert forall|i: int| 0 <= i < palette.len() implies count_of(all, #[trigger] palette[i])
        > 0 by {
        assert(counts[picked[i]] > 0);
    }
    assert forall|i: int, j: int| 0 <= i < j < palette.len() implies ranks_before(
        all,
        #[trigger] palette[i],
        #[trigger] palette[j],
    ) by {
        lemma_entry_order_is_ranking(all, entries, counts, picked[i], picked[j]);
    }
    assert forall|c: Rgba| #[trigger] count_of(all, c) > 0 && !palette.contains(c) implies (
    palette.len() == max_colors && forall|i: int|
        0 <= i < palette.len() ==> ranks_before(all, #[trigger] palette[i], c)) by {
        let t = choose|t: int| 0 <= t < entries.len() && entries[t] == c;
        assert(!taken[t]);
        assert forall|i: int| 0 <= i < palette.len() implies ranks_before(
            all,
            #[trigger] palette[i],
            c,
        ) by {
            assert(entry_before(counts, picked[i], t));
            lemma_entry_order_is_ranking(all, entries, counts, picked[i], t);
        }
    }
}

/// The order of the entries is the ranking of their colours.
proof fn lemma_entry_order_is_ranking(
    all: Seq<Rgba>,
    entries: Seq<Rgba>,
    counts: Seq<usize>,
    a: int,
    b: int,
)
    requires
        entries.len() == counts.len(),
        0 <= a < entries.len(),
        0 <= b < entries.len(),
        entry_before(counts, a, b),
        forall|j: int|
            0 <= j < entries.len() ==> (#[trigger] counts[j]) == count_of(all, entries[j])
                && counts[j] > 0,
        forall|i: int, j: int|
            0 <= i < j < entries.len() ==> first_seen(all, #[trigger] entries[i]) < first_seen(
                all,
                #[trigger] entries[j],
            ),
    ensures
        ranks_before(all, entries[a], entries[b]),
{
    assert(counts[a] == count_of(all, entries[a]));
    assert(counts[b] == count_of(all, entries[b]));
}

} // verus!
