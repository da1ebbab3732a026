//! What simplification does to a traced path: the path stays a path. The
//! move keeps the first point, each kept point keeps its line command, and a
//! point that is not kept leaves nothing behind.
use crate::contour::{contours, lemma_contours_have_min_points, Point};
use crate::number::{
    digit_value, grid_coordinate, is_digit, parse_decimal, read_unsigned, rounded_text, Decimal,
    Reading,
};
use crate::pathtext::{
    contour_paths, coordinate_text, decimal, digit_char, line_commands, path_text, point_text,
};
use crate::raster::Grid;
use crate::simplify::{
    after_command, fresh_pen, is_kept, is_number_char, is_separator, is_whitespace,
    level_precision_tenths, operands, simplified, simplified_paths, simplify_from, skip_number,
    skip_separators, skip_whitespace, KeptPoint, Pen,
};
use vstd::prelude::*;

verus! {

/// The number that a traced coordinate stands for.
pub open spec fn traced_decimal(v: u32) -> Decimal {
    Decimal { negative: false, value: 10 * (v as nat), scale: 1 }
}

/// A traced point on the grid of a precision.
pub open spec fn grid_point(p: Point, is_move: bool, precision_tenths: int) -> KeptPoint {
    KeptPoint {
        x: grid_coordinate(traced_decimal(p.x), precision_tenths),
        y: grid_coordinate(traced_decimal(p.y), precision_tenths),
        is_move,
    }
}

/// A traced point rounded to a precision and written as `x,y`.
pub open spec fn rounded_point_text(p: Point, precision_tenths: int) -> Seq<char> {
    rounded_text(traced_decimal(p.x), precision_tenths) + seq![','] + rounded_text(
        traced_decimal(p.y),
        precision_tenths,
    )
}

/// The line commands of the points that are kept behind the points `kept`,
/// and the closing command.
pub open spec fn thinned_tail(points: Seq<Point>, kept: Seq<KeptPoint>, precision_tenths: int) -> Seq<
    char,
>
    decreases points.len(),
{
    if points.len() == 0 {
        seq!['Z']
    } else {
        let g = grid_point(points[0], false, precision_tenths);
        if is_kept(false, g.x, g.y, kept, precision_tenths) {
            seq![' ', 'L'] + rounded_point_text(points[0], precision_tenths) + thinned_tail(
                points.skip(1),
                kept.push(g),
                precision_tenths,
            )
        } else {
            thinned_tail(points.skip(1), kept, precision_tenths)
        }
    }
}

/// The path through the points that simplification keeps: the move to the
/// first point, a line to each further point that is far from the point kept
/// before it, and the closing command, all rounded to the precision.
pub open spec fn thinned_path_text(points: Seq<Point>, precision_tenths: int) -> Seq<char>
    recommends
        points.len() >= 1,
{
    seq!['M'] + rounded_point_text(points[0], precision_tenths) + thinned_tail(
        points.skip(1),
        seq![grid_point(points[0], true, precision_tenths)],
        precision_tenths,
    )
}

/// The line commands of the points and the closing command, read from the
/// front.
pub open spec fn traced_tail(points: Seq<Point>) -> Seq<char>
    decreases points.len(),
{
    if points.len() == 0 {
        seq!['Z']
    } else {
        seq![' ', 'L'] + point_text(points[0]) + traced_tail(points.skip(1))
    }
}

/// A digit character is a digit with the value it was written for.
proof fn lemma_digit_char(d: int)
    requires
        0 <= d <= 9,
    ensures
        is_digit(digit_char(d)),
        digit_value(digit_char(d)) == d,
        is_number_char(digit_char(d)),
        !is_whitespace(digit_char(d)),
        !is_separator(digit_char(d)),
        digit_char(d) != '-',
        digit_char(d) != '.',
{
}

/// Reading the digits of a number gives the number.
proof fn lemma_read_decimal(n: nat)
    ensures
        read_unsigned(decimal(n)) == (Reading {
            digits: decimal(n).len(),
            dots: 0,
            value: n,
            scale: 0,
            clean: true,
        }),
        decimal(n).len() >= 1,
        is_digit(decimal(n)[0]),
        forall|k: int| 0 <= k < decimal(n).len() ==> is_digit(#[trigger] decimal(n)[k]),
    decreases n,
{
    if n < 10 {
        lemma_digit_char(n as int);
        let s = decimal(n);
        assert(s =~= seq![digit_char(n as int)]);
        assert(s.drop_last() =~= Seq::<char>::empty());
        assert(read_unsigned(s.drop_last()) == (Reading {
            digits: 0,
            dots: 0,
            value: 0,
            scale: 0,
            clean: true,
        }));
    } else {
        lemma_read_decimal(n / 10);
        lemma_digit_char((n % 10) as int);
        let s = decimal(n);
        assert(s.drop_last() =~= decimal(n / 10));
        assert(s.last() == digit_char((n % 10) as int));
        assert(s[0] == decimal(n / 10)[0]);
        assert forall|k: int| 0 <= k < s.len() implies is_digit(#[trigger] s[k]) by {
            if k < s.len() - 1 {
                assert(s[k] == decimal(n / 10)[k]);
            }
        }
    }
}

/// A traced coordinate is read as the number it was written for, and all of
/// its characters may stand in a coordinate.
proof fn lemma_parse_coordinate(v: u32)
    ensures
        parse_decimal(coordinate_text(v as nat)) == Some(traced_decimal(v)),
        coordinate_text(v as nat).len() >= 3,
        is_digit(coordinate_text(v as nat)[0]),
        forall|k: int|
            0 <= k < coordinate_text(v as nat).len() ==> is_number_char(
                #[trigger] coordinate_text(v as nat)[k],
            ),
{
    let n = v as nat;
    let digits = decimal(n);
    let text = coordinate_text(n);
    lemma_read_decimal(n);
    let with_dot = digits.push('.');
    assert(text =~= with_dot.push('0'));
    assert(with_dot.drop_last() =~= digits);
    assert(text.drop_last() =~= with_dot);
    assert(read_unsigned(with_dot) == (Reading {
        digits: digits.len(),
        dots: 1,
        value: n,
        scale: 0,
        clean: true,
    }));
    lemma_digit_char(0);
    assert(text.last() == '0');
    assert(read_unsigned(text) == (Reading {
        digits: digits.len() + 1,
        dots: 1,
        value: n * 10,
        scale: 1,
        clean: true,
    }));
    assert(text[0] == digits[0]);
    assert(text[0] != '-');
    assert forall|k: int| 0 <= k < text.len() implies is_number_char(#[trigger] text[k]) by {
        if k < digits.len() {
            assert(text[k] == digits[k]);
        }
    }
}

/// A run of coordinate characters that ends before another character or at
/// the end of the text is skipped as a whole.
proof fn lemma_skip_number_run(s: Seq<char>, i: int, j: int)
    requires
        0 <= i <= j <= s.len(),
        forall|k: int| i <= k < j ==> is_number_char(#[trigger] s[k]),
        j == s.len() || !is_number_char(s[j]),
    ensures
        skip_number(s, i) == j,
    decreases j - i,
{
    if i < j {
        assert(is_number_char(s[i]));
        lemma_skip_number_run(s, i + 1, j);
    }
}

/// Where the text of a traced point stands behind a command letter, the
/// tokens of the command are the coordinates of the point.
proof fn lemma_operands_of_point(s: Seq<char>, j: int, p: Point)
    requires
        0 <= j,
        j + 1 + point_text(p).len() <= s.len(),
        s.subrange(j + 1, j + 1 + point_text(p).len()) == point_text(p),
        j + 1 + point_text(p).len() == s.len() || !is_number_char(
            s[j + 1 + point_text(p).len()],
        ),
    ensures
        operands(s, j).y_to == j + 1 + point_text(p).len(),
        s.subrange(operands(s, j).x_from, operands(s, j).x_to) == coordinate_text(p.x as nat),
        s.subrange(operands(s, j).y_from, operands(s, j).y_to) == coordinate_text(p.y as nat),
{
    let cx = coordinate_text(p.x as nat);
    let cy = coordinate_text(p.y as nat);
    let text = point_text(p);
    let a = j + 1;
    let b = a + cx.len();
    let c = b + 1;
    let d = c + cy.len();
    lemma_parse_coordinate(p.x);
    lemma_parse_coordinate(p.y);
    assert(text.len() == cx.len() + 1 + cy.len());
    assert forall|k: int| 0 <= k < text.len() implies s[a + k] == #[trigger] text[k] by {
        assert(s.subrange(a, a + text.len())[k] == s[a + k]);
    }
    assert forall|k: int| a <= k < b implies is_number_char(#[trigger] s[k]) by {
        assert(s[k] == text[k - a]);
        assert(text[k - a] == cx[k - a]);
    }
    assert(s[b] == ',') by {
        assert(s[b] == text[b - a]);
    }
    assert forall|k: int| c <= k < d implies is_number_char(#[trigger] s[k]) by {
        assert(s[k] == text[k - a]);
        assert(text[k - a] == cy[k - c]);
    }
    assert(s[a] == cx[0]) by {
        assert(s[a] == text[0]);
    }
    assert(s[c] == cy[0]) by {
        assert(s[c] == text[c - a]);
    }
    assert(skip_whitespace(s, a) == a);
    lemma_skip_number_run(s, a, b);
    assert(skip_separators(s, c) == c);
    assert(skip_separators(s, b) == c);
    lemma_skip_number_run(s, c, d);
    assert(s.subrange(a, b) =~= cx) by {
        assert forall|k: int| 0 <= k < cx.len() implies s.subrange(a, b)[k] == cx[k] by {
            assert(s[a + k] == text[k]);
            assert(text[k] == cx[k]);
        }
    }
    assert(s.subrange(c, d) =~= cy) by {
        assert forall|k: int| 0 <= k < cy.len() implies s.subrange(c, d)[k] == cy[k] by {
            assert(s[a + (c - a + k)] == text[c - a + k]);
            assert(text[c - a + k] == cy[k]);
        }
    }
}

/// The line commands of points begin with the command of the first point.
proof fn lemma_line_commands_front(points: Seq<Point>)
    requires
        points.len() >= 1,
    ensures
        line_commands(points) == seq![' ', 'L'] + point_text(points[0]) + line_commands(
            points.skip(1),
        ),
    decreases points.len(),
{
    let init = points.drop_last();
    if points.len() == 1 {
        assert(init =~= Seq::<Point>::empty());
        assert(points.skip(1) =~= Seq::<Point>::empty());
        assert(line_commands(points) =~= seq![' ', 'L'] + point_text(points[0]) + line_commands(
            points.skip(1),
        ));
    } else {
        lemma_line_commands_front(init);
        let rest = points.skip(1);
        assert(rest.drop_last() =~= init.skip(1));
        assert(rest.last() == points.last());
        assert(init[0] == points[0]);
        assert(line_commands(points) =~= seq![' ', 'L'] + point_text(points[0]) + line_commands(
            rest,
        ));
    }
}

/// The line commands of points and the closing command, read from the
/// front.
proof fn lemma_traced_tail(points: Seq<Point>)
    ensures
        line_commands(points) + seq!['Z'] == traced_tail(points),
        traced_tail(points).len() >= 1,
        !is_number_char(traced_tail(points)[0]),
    decreases points.len(),
{
    if points.len() == 0 {
        assert(line_commands(points) + seq!['Z'] =~= traced_tail(points));
    } else {
        lemma_line_commands_front(points);
        lemma_traced_tail(points.skip(1));
        assert(line_commands(points) + seq!['Z'] =~= seq![' ', 'L'] + point_text(points[0]) + (
        line_commands(points.skip(1)) + seq!['Z']));
        assert(traced_tail(points)[0] == ' ');
    }
}

/// Simplification of the line commands of a traced path: from the place
/// where they stand, exactly the commands of the kept points are written,
/// and the closing command.
proof fn lemma_simplify_traced_tail(
    s: Seq<char>,
    i: int,
    pen: Pen,
    precision_tenths: int,
    points: Seq<Point>,
)
    requires
        0 <= i <= s.len(),
        s.skip(i) == traced_tail(points),
    ensures
        simplify_from(s, i, pen, precision_tenths).out == pen.out + thinned_tail(
            points,
            pen.kept,
            precision_tenths,
        ),
    decreases points.len(),
{
    let tail = traced_tail(points);
    assert forall|k: int| 0 <= k < tail.len() implies s[i + k] == #[trigger] tail[k] by {
        assert(s.skip(i)[k] == s[i + k]);
    }
    assert(s.len() == i + tail.len()) by {
        assert(s.skip(i).len() == tail.len());
    }
    if points.len() == 0 {
        assert(tail[0] == 'Z');
        assert(s[i] == 'Z');
        assert(skip_separators(s, i) == i);
        let last = Pen { out: pen.out.push(s[i]), ..pen };
        assert(simplify_from(s, i + 1, last, precision_tenths) == last);
        assert(simplify_from(s, i, pen, precision_tenths) == last);
        assert(last.out =~= pen.out + thinned_tail(points, pen.kept, precision_tenths));
    } else {
        let p = points[0];
        let rest = points.skip(1);
        let text = point_text(p);
        let after = traced_tail(rest);
        let n = text.len() as int;
        let j = i + 1;
        let end = j + 1 + n;
        lemma_traced_tail(rest);
        assert(tail == seq![' ', 'L'] + text + after);
        assert(tail.len() == 2 + text.len() + after.len());
        assert(s[i] == ' ') by {
            assert(tail[0] == ' ');
        }
        assert(s[j] == 'L') by {
            assert(tail[1] == 'L');
        }
        assert(skip_separators(s, j) == j);
        assert(skip_separators(s, i) == j);
        assert(s.subrange(j + 1, end) =~= text) by {
            assert forall|k: int| 0 <= k < text.len() implies s.subrange(j + 1, end)[k]
                == text[k] by {
                assert(s[i + (2 + k)] == tail[2 + k]);
            }
        }
        assert(!is_number_char(s[end])) by {
            assert(s[i + (2 + n)] == tail[2 + n]);
            assert(tail[2 + n] == after[0]);
        }
        lemma_operands_of_point(s, j, p);
        lemma_parse_coordinate(p.x);
        lemma_parse_coordinate(p.y);
        let next = after_command(s, i, j, pen, precision_tenths);
        let g = grid_point(p, false, precision_tenths);
        assert(s.subrange(i, j) =~= seq![' ']);
        assert(s.skip(end) =~= after) by {
            assert forall|k: int| 0 <= k < after.len() implies s.skip(end)[k] == after[k] by {
                assert(s[i + (2 + n + k)] == tail[2 + n + k]);
            }
        }
        lemma_simplify_traced_tail(s, end, next, precision_tenths, rest);
        assert(simplify_from(s, i, pen, precision_tenths) == simplify_from(
            s,
            end,
            next,
            precision_tenths,
        ));
        if is_kept(false, g.x, g.y, pen.kept, precision_tenths) {
            assert(next.kept == pen.kept.push(g));
            assert(next.out =~= pen.out + seq![' ', 'L'] + rounded_point_text(
                p,
                precision_tenths,
            ));
            assert(next.out + thinned_tail(rest, next.kept, precision_tenths) =~= pen.out
                + thinned_tail(points, pen.kept, precision_tenths));
        } else {
            assert(next == pen);
        }
    }
}

/// A traced path stays a path under simplification: the result holds the
/// move to the rounded first point, one line command with its rounded point
/// for each point that is kept, and the closing command, and nothing is
/// left of a point that is not kept.
pub proof fn lemma_simplified_traced_path(points: Seq<Point>, precision_tenths: int)
    requires
        points.len() >= 1,
    ensures
        simplified(path_text(points), precision_tenths) == thinned_path_text(
            points,
            precision_tenths,
        ),
{
    let s = path_text(points);
    let p = points[0];
    let rest = points.skip(1);
    let text = point_text(p);
    let after = traced_tail(rest);
    let end = 1 + text.len() as int;
    lemma_traced_tail(rest);
    assert(s =~= seq!['M'] + text + after);
    assert forall|k: int| 0 <= k < s.len() implies s[k] == #[trigger] (seq!['M'] + text
        + after)[k] by {}
    assert(s[0] == 'M');
    assert(skip_separators(s, 0) == 0);
    assert(s.subrange(1, end) =~= text);
    assert(!is_number_char(s[end])) by {
        assert(s[end] == after[0]);
    }
    lemma_operands_of_point(s, 0, p);
    lemma_parse_coordinate(p.x);
    lemma_parse_coordinate(p.y);
    let next = after_command(s, 0, 0, fresh_pen(), precision_tenths);
    let g = grid_point(p, true, precision_tenths);
    assert(s.subrange(0, 0) =~= Seq::<char>::empty());
    assert(next.kept =~= seq![g]);
    assert(next.out =~= seq!['M'] + rounded_point_text(p, precision_tenths));
    assert(s.skip(end) =~= after);
    lemma_simplify_traced_tail(s, end, next, precision_tenths, rest);
    assert(simplify_from(s, 0, fresh_pen(), precision_tenths) == simplify_from(
        s,
        end,
        next,
        precision_tenths,
    ));
}

/// The traced paths of an edge map stay paths under simplification: at a
/// level above 0 each is simplified to the thinned path of its contour.
pub proof fn lemma_simplified_contour_paths(edges: Grid<u8>, simplify_level: u8)
    requires
        simplify_level > 0,
    ensures
        simplified_paths(contour_paths(edges), simplify_level).len() == contours(edges).len(),
        forall|k: int|
            0 <= k < contours(edges).len() ==> #[trigger] simplified_paths(
                contour_paths(edges),
                simplify_level,
            )[k] == thinned_path_text(contours(edges)[k], level_precision_tenths(simplify_level)),
{
    lemma_contours_have_min_points(edges);
    assert forall|k: int| 0 <= k < contours(edges).len() implies #[trigger] simplified_paths(
        contour_paths(edges),
        simplify_level,
    )[k] == thinned_path_text(contours(edges)[k], level_precision_tenths(simplify_level)) by {
        lemma_simplified_traced_path(contours(edges)[k], level_precision_tenths(simplify_level));
    }
}

} // verus!
