//! Path command strings: `M x,y L x,y ... Z`, every coordinate written with
//! one decimal place.
use crate::contour::{
    contours, in_scan_order, is_chain, no_point_twice, trace_contour_points, Point,
    MIN_CONTOUR_POINTS,
};
use crate::raster::{GrayImage, Grid};
use crate::text::{text_of, texts};
use vstd::prelude::*;

verus! {

/// A path is kept only when its text is longer than this.
pub const MIN_PATH_LENGTH: usize = 20;

/// The character of a decimal digit.
pub open spec fn digit_char(d: int) -> char {
    if d == 0 {
        '0'
    } else if d == 1 {
        '1'
    } else if d == 2 {
        '2'
    } else if d == 3 {
        '3'
    } else if d == 4 {
        '4'
    } else if d == 5 {
        '5'
    } else if d == 6 {
        '6'
    } else if d == 7 {
        '7'
    } else if d == 8 {
        '8'
    } else {
        '9'
    }
}

/// The decimal digits of `n`, without leading zeros.
pub open spec fn decimal(n: nat) -> Seq<char>
    decreases n,
{
    if n < 10 {
        seq![digit_char(n as int)]
    } else {
        decimal(n / 10).push(digit_char((n % 10) as int))
    }
}

/// A pixel coordinate with one decimal place, such as `12.0`.
pub open spec fn coordinate_text(v: nat) -> Seq<char> {
    decimal(v) + seq!['.', '0']
}

/// A point as `x,y`.
pub open spec fn point_text(p: Point) -> Seq<char> {
    coordinate_text(p.x as nat) + seq![','] + coordinate_text(p.y as nat)
}

/// One ` Lx,y` command for each point.
pub open spec fn line_commands(points: Seq<Point>) -> Seq<char>
    decreases points.len(),
{
    if points.len() == 0 {
        Seq::empty()
    } else {
        line_commands(points.drop_last()) + seq![' ', 'L'] + point_text(points.last())
    }
}

/// The closed path through the points: a move to the first, a line to each
/// of the others, and the closing command.
pub open spec fn path_text(points: Seq<Point>) -> Seq<char>
    recommends
        points.len() >= 1,
{
    seq!['M'] + point_text(points[0]) + line_commands(points.skip(1)) + seq!['Z']
}

/// The path texts of the contours of an edge map, in the order of the
/// contours.
pub open spec fn contour_paths(edges: Grid<u8>) -> Seq<Seq<char>> {
    contours(edges).map_values(|c: Seq<Point>| path_text(c))
}

/// The texts that are longer than [`MIN_PATH_LENGTH`] characters, in their
/// order.
pub open spec fn long_paths(paths: Seq<Seq<char>>) -> Seq<Seq<char>>
    decreases paths.len(),
{
    if paths.len() == 0 {
        Seq::empty()
    } else if paths.last().len() > MIN_PATH_LENGTH {
        long_paths(paths.drop_last()).push(paths.last())
    } else {
        long_paths(paths.drop_last())
    }
}

/// A number has at least one digit.
proof fn lemma_decimal_is_not_empty(n: nat)
    ensures
        decimal(n).len() >= 1,
    decreases n,
{
    if n >= 10 {
        lemma_decimal_is_not_empty(n / 10);
    }
}

/// A point takes at least seven characters.
proof fn lemma_point_text_len(p: Point)
    ensures
        point_text(p).len() >= 7,
{
    lemma_decimal_is_not_empty(p.x as nat);
    lemma_decimal_is_not_empty(p.y as nat);
}

/// Each line command takes at least nine characters.
proof fn lemma_line_commands_len(points: Seq<Point>)
    ensures
        line_commands(points).len() >= 9 * points.len(),
    decreases points.len(),
{
    if points.len() > 0 {
        lemma_line_commands_len(points.drop_last());
        lemma_point_text_len(points.last());
    }
}

/// A path takes at least nine characters for each of its points.
pub proof fn lemma_path_text_len(points: Seq<Point>)
    requires
        points.len() >= 1,
    ensures
        path_text(points).len() >= 9 * points.len(),
{
    lemma_point_text_len(points[0]);
    lemma_line_commands_len(points.skip(1));
}

/// Texts that are all long are all kept.
proof fn lemma_long_paths_keeps_long(paths: Seq<Seq<char>>)
    requires
        forall|i: int| 0 <= i < paths.len() ==> (#[trigger] paths[i]).len() > MIN_PATH_LENGTH,
    ensures
        long_paths(paths) == paths,
    decreases paths.len(),
{
    if paths.len() > 0 {
        let rest = paths.drop_last();
        assert forall|i: int| 0 <= i < rest.len() implies (#[trigger] rest[i]).len()
            > MIN_PATH_LENGTH by {
            assert(rest[i] == paths[i]);
        }
        lemma_long_paths_keeps_long(rest);
        assert(paths.last() == paths[paths.len() - 1]);
        assert(rest.push(paths.last()) =~= paths);
    } else {
        assert(paths =~= Seq::<Seq<char>>::empty());
    }
}

/// No path of a contour is too short to keep: a contour has at least three
/// points, and its path then has at least twenty-seven characters. So
/// dropping the short paths leaves the paths of an edge map as they are.
pub proof fn lemma_no_contour_path_is_short(edges: Grid<u8>)
    ensures
        long_paths(contour_paths(edges)) == contour_paths(edges),
{
    let paths = contour_paths(edges);
    crate::contour::lemma_contours_have_min_points(edges);
    assert forall|i: int| 0 <= i < paths.len() implies (#[trigger] paths[i]).len()
        > MIN_PATH_LENGTH by {
        let c = contours(edges)[i];
        assert(c.len() >= MIN_CONTOUR_POINTS);
        lemma_path_text_len(c);
    }
    lemma_long_paths_keeps_long(paths);
}

/// The character of a decimal digit.
pub(crate) fn digit_of(d: u8) -> (c: char)
    requires
        d < 10,
    ensures
        c == digit_char(d as int),
{
    if d == 0 {
        '0'
    } else if d == 1 {
        '1'
    } else if d == 2 {
        '2'
    } else if d == 3 {
        '3'
    } else if d == 4 {
        '4'
    } else if d == 5 {
        '5'
    } else if d == 6 {
        '6'
    } else if d == 7 {
        '7'
    } else if d == 8 {
        '8'
    } else {
        '9'
    }
}

/// Appends the decimal digits of `n`.
fn push_decimal(out: &mut Vec<char>, n: u32)
    ensures
        final(out)@ == old(out)@ + decimal(n as nat),
    decreases n,
{
    if n >= 10 {
        push_decimal(out, n / 10);
    }
    out.push(digit_of((n % 10) as u8));
    proof {
        assert(final(out)@ =~= old(out)@ + decimal(n as nat));
    }
}

/// Appends a point as `x,y`.
fn push_point(out: &mut Vec<char>, p: Point)
    ensures
        final(out)@ == old(out)@ + point_text(p),
{
    push_decimal(out, p.x);
    out.push('.');
    out.push('0');
    out.push(',');
    push_decimal(out, p.y);
    out.push('.');
    out.push('0');
    proof {
        assert(final(out)@ =~= old(out)@ + point_text(p));
    }
}

/// Writes a contour as a closed path: `M` and the first point, ` L` and each
/// further point, then `Z`.
pub fn contour_path(points: &Vec<Point>) -> (path: String)
    requires
        points.len() >= 1,
    ensures
        path@ == path_text(points@),
{
    let mut out: Vec<char> = Vec::new();
    out.push('M');
    push_point(&mut out, points[0]);
    let mut i: usize = 1;
    assert(points@.skip(1).take(0) =~= Seq::<Point>::empty());
    while i < points.len()
        invariant
            1 <= i <= points.len(),
            out@ == seq!['M'] + point_text(points[0]) + line_commands(
                points@.skip(1).take(i - 1),
            ),
        decreases points.len() - i,
    {
        let ghost before = out@;
        out.push(' ');
        out.push('L');
        push_point(&mut out, points[i]);
        proof {
            let done = points@.skip(1).take(i - 1);
            let next = points@.skip(1).take(i as int);
            assert(next.drop_last() =~= done);
            assert(next.last() == points[i as int]);
            assert(out@ =~= seq!['M'] + point_text(points[0]) + line_commands(next));
        }
        i += 1;
    }
    out.push('Z');
    proof {
        assert(points@.skip(1).take(points.len() - 1) =~= points@.skip(1));
        assert(out@ =~= path_text(points@));
    }
    text_of(&out)
}

/// Traces the contours of an edge map and writes each as a closed path. No
/// point occurs twice, neither within a contour nor in two of them; each
/// point is a neighbour of the point before it; and the contours stand in
/// the order in which the scan meets their starts.
pub fn trace_contours(edges: &GrayImage) -> (paths: Vec<String>)
    ensures
        texts(paths@) == contour_paths(edges@),
        no_point_twice(contours(edges@)),
        in_scan_order(contours(edges@)),
        forall|i: int| 0 <= i < contours(edges@).len() ==> is_chain(#[trigger] contours(edges@)[i]),
{
    let found = trace_contour_points(edges);
    let mut paths: Vec<String> = Vec::new();
    let mut i: usize = 0;
    while i < found.len()
        invariant
            i <= found.len(),
            paths.len() == i,
            found.len() == contours(edges@).len(),
            forall|j: int| 0 <= j < found.len() ==> (#[trigger] found[j])@ == contours(edges@)[j],
            forall|j: int|
                0 <= j < found.len() ==> MIN_CONTOUR_POINTS <= (#[trigger] found[j]).len(),
            forall|j: int| 0 <= j < i ==> (#[trigger] paths[j])@ == path_text(contours(edges@)[j]),
        decreases found.len() - i,
    {
        let path = contour_path(&found[i]);
        paths.push(path);
        i += 1;
    }
    proof {
        assert(texts(paths@) =~= contour_paths(edges@));
    }
    paths
}

/// Keeps the paths whose text is longer than [`MIN_PATH_LENGTH`] characters.
pub fn prune_short_paths(paths: &Vec<String>) -> (kept: Vec<String>)
    ensures
        texts(kept@) == long_paths(texts(paths@)),
{
    let mut kept: Vec<String> = Vec::new();
    let mut i: usize = 0;
    assert(texts(paths@).take(0) =~= Seq::<Seq<char>>::empty());
    while i < paths.len()
        invariant
            i <= paths.len(),
            texts(kept@) == long_paths(texts(paths@).take(i as int)),
        decreases paths.len() - i,
    {
        let ghost before = texts(kept@);
        proof {
            let next = texts(paths@).take(i + 1);
            assert(next.drop_last() =~= texts(paths@).take(i as int));
            assert(next.last() == paths[i as int]@);
        }
        if paths[i].as_str().unicode_len() > MIN_PATH_LENGTH {
            kept.push(paths[i].clone());
            proof {
                assert(texts(kept@) =~= before.push(paths[i as int]@));
            }
        }
        i += 1;
    }
    proof {
        assert(texts(paths@).take(paths.len() as int) =~= texts(paths@));
    }
    kept
}

} // verus!
