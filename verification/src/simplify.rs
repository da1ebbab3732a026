//! Path simplification: every point of a move or line command is rounded to
//! a grid whose step is `1 / precision`. A line point that lies within one
//! step of the point kept before it is dropped with its command and with the
//! white space and commas before it; everything else is written: kept points
//! in one form, all other text as it stands.
use crate::number::{
    grid_coordinate, is_digit, parse_decimal, parse_number, rounded_text, Decimal, Steps,
};
use crate::text::{chars_of, text_of, texts};
use vstd::prelude::*;

verus! {

/// Whether `c` is white space: a character with the Unicode property
/// `White_Space`.
pub open spec fn is_whitespace(c: char) -> bool {
    let code = c as u32;
    ||| 0x09 <= code <= 0x0D
    ||| code == 0x20
    ||| code == 0x85
    ||| code == 0xA0
    ||| code == 0x1680
    ||| 0x2000 <= code <= 0x200A
    ||| code == 0x2028
    ||| code == 0x2029
    ||| code == 0x202F
    ||| code == 0x205F
    ||| code == 0x3000
}

/// Whether `c` may stand in a coordinate token.
pub open spec fn is_number_char(c: char) -> bool {
    is_digit(c) || c == '.' || c == '-'
}

/// Whether `c` is a separator, which may stand between the two coordinates
/// of a point and before a command: white space or a comma.
pub open spec fn is_separator(c: char) -> bool {
    is_whitespace(c) || c == ','
}

/// The first index from `i` on that holds no white space.
pub open spec fn skip_whitespace(s: Seq<char>, i: int) -> int
    decreases s.len() - i,
{
    if 0 <= i < s.len() && is_whitespace(s[i]) {
        skip_whitespace(s, i + 1)
    } else {
        i
    }
}

/// The first index from `i` on that holds no character of a coordinate.
pub open spec fn skip_number(s: Seq<char>, i: int) -> int
    decreases s.len() - i,
{
    if 0 <= i < s.len() && is_number_char(s[i]) {
        skip_number(s, i + 1)
    } else {
        i
    }
}

/// The first index from `i` on that holds no separator.
pub open spec fn skip_separators(s: Seq<char>, i: int) -> int
    decreases s.len() - i,
{
    if 0 <= i < s.len() && is_separator(s[i]) {
        skip_separators(s, i + 1)
    } else {
        i
    }
}

/// Where the two coordinate tokens of a command stand.
pub struct Operands {
    pub x_from: int,
    pub x_to: int,
    pub y_from: int,
    pub y_to: int,
}

/// The coordinate tokens behind the command letter at `i`: white space, the
/// first token, separators, the second token. A token is the longest run of
/// digits, decimal points and minus signs, and may be empty.
pub open spec fn operands(s: Seq<char>, i: int) -> Operands {
    let x_from = skip_whitespace(s, i + 1);
    let x_to = skip_number(s, x_from);
    let y_from = skip_separators(s, x_to);
    let y_to = skip_number(s, y_from);
    Operands { x_from, x_to, y_from, y_to }
}

/// A point that the simplifier has written, as grid coordinates.
pub struct KeptPoint {
    pub x: int,
    pub y: int,
    /// Whether a move command wrote it.
    pub is_move: bool,
}

/// The state of a simplification: the text written and the points written.
pub struct Pen {
    pub out: Seq<char>,
    pub kept: Seq<KeptPoint>,
}

/// Whether `c` is the letter of a move or line command.
pub open spec fn is_command(c: char) -> bool {
    c == 'M' || c == 'L'
}

/// Whether the grid point `(x, y)` differs from `(from_x, from_y)` by more
/// than the threshold `1 / precision` along some axis. Grid coordinates count
/// steps of `1 / |precision|`, so for a positive precision that is a
/// difference of more than one step; a negative precision gives a negative
/// threshold, which every difference exceeds.
pub open spec fn is_far(x: int, y: int, from_x: int, from_y: int, precision_tenths: int) -> bool {
    ||| precision_tenths < 0
    ||| x - from_x > 1
    ||| from_x - x > 1
    ||| y - from_y > 1
    ||| from_y - y > 1
}

/// Whether the point `(x, y)` of a command is kept: the point of a move
/// always, the first point always, and any other point if it is far from the
/// point kept last.
pub open spec fn is_kept(
    is_move: bool,
    x: int,
    y: int,
    kept: Seq<KeptPoint>,
    precision_tenths: int,
) -> bool {
    ||| is_move
    ||| kept.len() == 0
    ||| is_far(x, y, kept.last().x, kept.last().y, precision_tenths)
}

/// The state after the move or line command at `i`, before which the
/// separators from `lead` on stand. Where both tokens are numbers, the point
/// is rounded. A kept point is written behind the separators as the letter,
/// the rounded coordinates and a comma between them; a point that is not kept
/// leaves nothing, neither the letter nor the separators before it. Where a
/// token is no number, the separators and the command are written as they
/// stand, up to the end of the second token.
pub open spec fn after_command(
    s: Seq<char>,
    lead: int,
    i: int,
    pen: Pen,
    precision_tenths: int,
) -> Pen {
    let at = operands(s, i);
    let x_token = s.subrange(at.x_from, at.x_to);
    let y_token = s.subrange(at.y_from, at.y_to);
    match (parse_decimal(x_token), parse_decimal(y_token)) {
        (Some(x), Some(y)) => {
            let gx = grid_coordinate(x, precision_tenths);
            let gy = grid_coordinate(y, precision_tenths);
            if is_kept(s[i] == 'M', gx, gy, pen.kept, precision_tenths) {
                Pen {
                    out: pen.out + s.subrange(lead, i) + seq![s[i]] + rounded_text(
                        x,
                        precision_tenths,
                    ) + seq![','] + rounded_text(y, precision_tenths),
                    kept: pen.kept.push(KeptPoint { x: gx, y: gy, is_move: s[i] == 'M' }),
                }
            } else {
                pen
            }
        },
        _ => Pen { out: pen.out + s.subrange(lead, at.y_to), ..pen },
    }
}

/// The state after the rest of the path from `i` on. A move or line command
/// is handled with the separators before it and its coordinates; every
/// other character, separators between other characters included, is
/// written as it stands.
pub open spec fn simplify_from(s: Seq<char>, i: int, pen: Pen, precision_tenths: int) -> Pen
    decreases s.len() - i,
    via simplify_from_ends
{
    if i < 0 || i >= s.len() {
        pen
    } else {
        let j = skip_separators(s, i);
        if j < s.len() && is_command(s[j]) {
            simplify_from(
                s,
                operands(s, j).y_to,
                after_command(s, i, j, pen, precision_tenths),
                precision_tenths,
            )
        } else if j > i {
            simplify_from(s, j, Pen { out: pen.out + s.subrange(i, j), ..pen }, precision_tenths)
        } else {
            simplify_from(s, i + 1, Pen { out: pen.out.push(s[i]), ..pen }, precision_tenths)
        }
    }
}

#[via_fn]
proof fn simplify_from_ends(s: Seq<char>, i: int, pen: Pen, precision_tenths: int) {
    if 0 <= i < s.len() {
        lemma_skips_in_order(s, i);
        let j = skip_separators(s, i);
        if j < s.len() {
            lemma_operands_in_order(s, j);
        }
    }
}

/// The state in which every simplification starts.
pub open spec fn fresh_pen() -> Pen {
    Pen { out: Seq::empty(), kept: Seq::empty() }
}

/// The simplified text of a path at the precision `precision_tenths / 10`.
pub open spec fn simplified(s: Seq<char>, precision_tenths: int) -> Seq<char> {
    simplify_from(s, 0, fresh_pen(), precision_tenths).out
}

/// The points that the simplifier writes for a path, in order.
pub open spec fn kept_points(s: Seq<char>, precision_tenths: int) -> Seq<KeptPoint> {
    simplify_from(s, 0, fresh_pen(), precision_tenths).kept
}

/// The precision of a simplification level, in tenths: `10 - 0.9 * level`.
pub open spec fn level_precision_tenths(simplify_level: u8) -> int {
    100 - 9 * simplify_level
}

/// The paths after simplification at the given level: unchanged at level 0,
/// each simplified at the level's precision otherwise.
pub open spec fn simplified_paths(paths: Seq<Seq<char>>, simplify_level: u8) -> Seq<Seq<char>> {
    if simplify_level == 0 {
        paths
    } else {
        paths.map_values(|p: Seq<char>| simplified(p, level_precision_tenths(simplify_level)))
    }
}

/// Skipping never goes back and never leaves the text.
pub proof fn lemma_skips_in_order(s: Seq<char>, i: int)
    requires
        0 <= i <= s.len(),
    ensures
        i <= skip_whitespace(s, i) <= s.len(),
        i <= skip_number(s, i) <= s.len(),
        i <= skip_separators(s, i) <= s.len(),
    decreases s.len() - i,
{
    if i < s.len() {
        lemma_skips_in_order(s, i + 1);
    }
}

/// The tokens of a command stand behind its letter, in order, inside the
/// text.
pub proof fn lemma_operands_in_order(s: Seq<char>, i: int)
    requires
        0 <= i < s.len(),
    ensures
        i + 1 <= operands(s, i).x_from <= operands(s, i).x_to <= operands(s, i).y_from <= operands(
            s,
            i,
        ).y_to <= s.len(),
{
    let at = operands(s, i);
    lemma_skips_in_order(s, i + 1);
    lemma_skips_in_order(s, at.x_from);
    lemma_skips_in_order(s, at.x_to);
    lemma_skips_in_order(s, at.y_from);
}

/// Whether every line point among the kept points is far from the point
/// kept before it.
pub open spec fn well_spaced(kept: Seq<KeptPoint>, precision_tenths: int) -> bool {
    forall|j: int|
        1 <= j < kept.len() && !(#[trigger] kept[j]).is_move ==> is_far(
            kept[j].x,
            kept[j].y,
            kept[j - 1].x,
            kept[j - 1].y,
            precision_tenths,
        )
}

/// Simplifying on keeps the kept points well spaced.
proof fn lemma_simplify_keeps_spacing(s: Seq<char>, i: int, pen: Pen, precision_tenths: int)
    requires
        well_spaced(pen.kept, precision_tenths),
    ensures
        well_spaced(simplify_from(s, i, pen, precision_tenths).kept, precision_tenths),
    decreases s.len() - i,
{
    if 0 <= i < s.len() {
        lemma_skips_in_order(s, i);
        let j = skip_separators(s, i);
        if j < s.len() && is_command(s[j]) {
            lemma_operands_in_order(s, j);
            let next = after_command(s, i, j, pen, precision_tenths);
            assert(well_spaced(next.kept, precision_tenths)) by {
                if next.kept.len() > pen.kept.len() {
                    assert forall|k: int|
                        1 <= k < next.kept.len() && !(#[trigger] next.kept[k]).is_move implies is_far(
                        next.kept[k].x,
                        next.kept[k].y,
                        next.kept[k - 1].x,
                        next.kept[k - 1].y,
                        precision_tenths,
                    ) by {
                        if k < pen.kept.len() {
                            assert(next.kept[k] == pen.kept[k]);
                            assert(next.kept[k - 1] == pen.kept[k - 1]);
                        } else {
                            assert(next.kept[k - 1] == pen.kept.last());
                        }
                    }
                }
            }
            lemma_simplify_keeps_spacing(s, operands(s, j).y_to, next, precision_tenths);
        } else if j > i {
            lemma_simplify_keeps_spacing(
                s,
                j,
                Pen { out: pen.out + s.subrange(i, j), ..pen },
                precision_tenths,
            );
        } else {
            lemma_simplify_keeps_spacing(
                s,
                i + 1,
                Pen { out: pen.out.push(s[i]), ..pen },
                precision_tenths,
            );
        }
    }
}

/// Simplifying on only adds to the text and to the kept points.
proof fn lemma_simplify_only_appends(s: Seq<char>, i: int, pen: Pen, precision_tenths: int)
    ensures
        pen.out.is_prefix_of(simplify_from(s, i, pen, precision_tenths).out),
        pen.kept.is_prefix_of(simplify_from(s, i, pen, precision_tenths).kept),
    decreases s.len() - i,
{
    if 0 <= i < s.len() {
        lemma_skips_in_order(s, i);
        let j = skip_separators(s, i);
        if j < s.len() && is_command(s[j]) {
            lemma_operands_in_order(s, j);
            let next = after_command(s, i, j, pen, precision_tenths);
            assert(pen.out.is_prefix_of(next.out));
            assert(pen.kept.is_prefix_of(next.kept));
            lemma_simplify_only_appends(s, operands(s, j).y_to, next, precision_tenths);
        } else if j > i {
            lemma_simplify_only_appends(
                s,
                j,
                Pen { out: pen.out + s.subrange(i, j), ..pen },
                precision_tenths,
            );
        } else {
            lemma_simplify_only_appends(
                s,
                i + 1,
                Pen { out: pen.out.push(s[i]), ..pen },
                precision_tenths,
            );
        }
    }
}

/// No two consecutive kept points are close: every point that a line command
/// writes differs from the point written before it by more than the
/// threshold `1 / precision` along some axis.
pub proof fn lemma_kept_points_are_far_apart(path: Seq<char>, precision_tenths: int, j: int)
    requires
        1 <= j < kept_points(path, precision_tenths).len(),
        !kept_points(path, precision_tenths)[j].is_move,
    ensures
        is_far(
            kept_points(path, precision_tenths)[j].x,
            kept_points(path, precision_tenths)[j].y,
            kept_points(path, precision_tenths)[j - 1].x,
            kept_points(path, precision_tenths)[j - 1].y,
            precision_tenths,
        ),
{
    lemma_simplify_keeps_spacing(path, 0, fresh_pen(), precision_tenths);
}

/// The first point of a path is always kept, whichever command gives it: a
/// path that begins with a move or line command whose coordinates are
/// numbers is simplified to a text that begins with that command and the
/// rounded point, and that point is the first kept point.
pub proof fn lemma_first_point_is_kept(
    path: Seq<char>,
    precision_tenths: int,
    x: Decimal,
    y: Decimal,
)
    requires
        path.len() > 0,
        is_command(path[0]),
        parse_decimal(path.subrange(operands(path, 0).x_from, operands(path, 0).x_to)) == Some(x),
        parse_decimal(path.subrange(operands(path, 0).y_from, operands(path, 0).y_to)) == Some(y),
    ensures
        (seq![path[0]] + rounded_text(x, precision_tenths) + seq![','] + rounded_text(
            y,
            precision_tenths,
        )).is_prefix_of(simplified(path, precision_tenths)),
        kept_points(path, precision_tenths).len() > 0,
        kept_points(path, precision_tenths)[0] == (KeptPoint {
            x: grid_coordinate(x, precision_tenths),
            y: grid_coordinate(y, precision_tenths),
            is_move: path[0] == 'M',
        }),
{
    let next = after_command(path, 0, 0, fresh_pen(), precision_tenths);
    let start = seq![path[0]] + rounded_text(x, precision_tenths) + seq![','] + rounded_text(
        y,
        precision_tenths,
    );
    assert(skip_separators(path, 0) == 0);
    lemma_operands_in_order(path, 0);
    lemma_simplify_only_appends(path, operands(path, 0).y_to, next, precision_tenths);
    assert(path.subrange(0, 0) =~= Seq::<char>::empty());
    assert(next.out =~= start);
    assert(next.kept.len() == 1);
    assert(next.kept[0] == simplify_from(path, 0, fresh_pen(), precision_tenths).kept[0]);
}

/// A line point that is not kept leaves nothing behind: where the command at
/// `i` is a line whose coordinates are numbers and whose point is close to
/// the point kept last, the state after it is the state before it.
pub proof fn lemma_dropped_point_leaves_nothing(
    s: Seq<char>,
    lead: int,
    i: int,
    pen: Pen,
    precision_tenths: int,
    x: Decimal,
    y: Decimal,
)
    requires
        0 <= i < s.len(),
        s[i] == 'L',
        parse_decimal(s.subrange(operands(s, i).x_from, operands(s, i).x_to)) == Some(x),
        parse_decimal(s.subrange(operands(s, i).y_from, operands(s, i).y_to)) == Some(y),
        pen.kept.len() > 0,
        !is_far(
            grid_coordinate(x, precision_tenths),
            grid_coordinate(y, precision_tenths),
            pen.kept.last().x,
            pen.kept.last().y,
            precision_tenths,
        ),
    ensures
        after_command(s, lead, i, pen, precision_tenths) == pen,
{
}

/// Whether `c` is white space.
fn is_space(c: char) -> (b: bool)
    ensures
        b == is_whitespace(c),
{
    let code: u32 = c as u32;
    (0x09 <= code && code <= 0x0D) || code == 0x20 || code == 0x85 || code == 0xA0 || code
        == 0x1680 || (0x2000 <= code && code <= 0x200A) || code == 0x2028 || code == 0x2029
        || code == 0x202F || code == 0x205F || code == 0x3000
}

/// Whether `c` may stand in a coordinate token.
fn is_number_part(c: char) -> (b: bool)
    ensures
        b == is_number_char(c),
{
    let code: u32 = c as u32;
    (48 <= code && code <= 57) || c == '.' || c == '-'
}

/// The first index from `i` on that holds no white space.
fn skip_whitespace_at(chars: &Vec<char>, i: usize) -> (j: usize)
    requires
        i <= chars.len(),
    ensures
        j == skip_whitespace(chars@, i as int),
        i <= j <= chars.len(),
{
    let mut j: usize = i;
    while j < chars.len() && is_space(chars[j])
        invariant
            i <= j <= chars.len(),
            skip_whitespace(chars@, i as int) == skip_whitespace(chars@, j as int),
        decreases chars.len() - j,
    {
        j += 1;
    }
    j
}

/// The first index from `i` on that holds no character of a coordinate.
fn skip_number_at(chars: &Vec<char>, i: usize) -> (j: usize)
    requires
        i <= chars.len(),
    ensures
        j == skip_number(chars@, i as int),
        i <= j <= chars.len(),
{
    let mut j: usize = i;
    while j < chars.len() && is_number_part(chars[j])
        invariant
            i <= j <= chars.len(),
            skip_number(chars@, i as int) == skip_number(chars@, j as int),
        decreases chars.len() - j,
    {
        j += 1;
    }
    j
}

/// The first index from `i` on that holds no separator.
fn skip_separators_at(chars: &Vec<char>, i: usize) -> (j: usize)
    requires
        i <= chars.len(),
    ensures
        j == skip_separators(chars@, i as int),
        i <= j <= chars.len(),
{
    let mut j: usize = i;
    while j < chars.len() && (is_space(chars[j]) || chars[j] == ',')
        invariant
            i <= j <= chars.len(),
            skip_separators(chars@, i as int) == skip_separators(chars@, j as int),
        decreases chars.len() - j,
    {
        j += 1;
    }
    j
}

/// Appends `chars[from..to]`.
fn push_range(out: &mut Vec<char>, chars: &Vec<char>, from: usize, to: usize)
    requires
        from <= to <= chars.len(),
    ensures
        final(out)@ == old(out)@ + chars@.subrange(from as int, to as int),
{
    let mut i: usize = from;
    assert(chars@.subrange(from as int, from as int) =~= Seq::<char>::empty());
    while i < to
        invariant
            from <= i <= to <= chars.len(),
            out@ == old(out)@ + chars@.subrange(from as int, i as int),
        decreases to - i,
    {
        out.push(chars[i]);
        proof {
            assert(chars@.subrange(from as int, i + 1) =~= chars@.subrange(
                from as int,
                i as int,
            ).push(chars[i as int]));
        }
        i += 1;
    }
}

/// Simplifies one path at the precision `precision_tenths / 10`. Each point
/// of a move or line command is rounded to the nearest multiple of
/// `1 / precision`. The point of a move and the first point are always kept;
/// any other point only if it differs from the point kept last by more than
/// `1 / precision` along some axis. A kept point is written as the command
/// letter and the rounded coordinates with one decimal place, a comma
/// between them. A point that is not kept leaves nothing behind, neither
/// its letter nor the spaces and commas before it. A command whose
/// coordinates are no numbers is copied as it stands, and so is every
/// character outside the commands.
pub fn simplify_svg_path(path: &str, precision_tenths: i32) -> (out: String)
    requires
        precision_tenths != 0,
    ensures
        out@ == simplified(path@, precision_tenths as int),
{
    let chars = chars_of(path);
    let mut out: Vec<char> = Vec::new();
    let mut has_last: bool = false;
    let mut last_x = Steps::zero();
    let mut last_y = Steps::zero();
    let ghost mut kept: Seq<KeptPoint> = Seq::empty();
    let ghost q = precision_tenths as int;
    let mut i: usize = 0;
    while i < chars.len()
        invariant
            i <= chars.len(),
            chars@ == path@,
            q == precision_tenths as int,
            precision_tenths != 0,
            has_last == (kept.len() > 0),
            has_last ==> last_x.signed() == kept.last().x && last_y.signed() == kept.last().y,
            simplify_from(path@, 0, fresh_pen(), q) == simplify_from(
                path@,
                i as int,
                Pen { out: out@, kept },
                q,
            ),
        decreases chars.len() - i,
    {
        let ghost pen = Pen { out: out@, kept };
        let j = skip_separators_at(&chars, i);
        if j < chars.len() && (chars[j] == 'M' || chars[j] == 'L') {
            let c = chars[j];
            proof {
                lemma_operands_in_order(chars@, j as int);
            }
            let x_from = skip_whitespace_at(&chars, j + 1);
            let x_to = skip_number_at(&chars, x_from);
            let y_from = skip_separators_at(&chars, x_to);
            let y_to = skip_number_at(&chars, y_from);
            let x = parse_number(&chars, x_from, x_to);
            let y = parse_number(&chars, y_from, y_to);
            if x.is_some() && y.is_some() {
                let x = x.unwrap();
                let y = y.unwrap();
                let gx = x.grid_coordinate(precision_tenths);
                let gy = y.grid_coordinate(precision_tenths);
                if c == 'M' || !has_last || precision_tenths < 0 || gx.differs_by_more_than_one(
                    &last_x,
                ) || gy.differs_by_more_than_one(&last_y) {
                    push_range(&mut out, &chars, i, j);
                    out.push(c);
                    gx.push_rounded(&mut out, precision_tenths);
                    out.push(',');
                    gy.push_rounded(&mut out, precision_tenths);
                    proof {
                        kept = kept.push(
                            KeptPoint { x: gx.signed(), y: gy.signed(), is_move: c == 'M' },
                        );
                        assert(out@ =~= after_command(path@, i as int, j as int, pen, q).out);
                    }
                    has_last = true;
                    last_x = gx;
                    last_y = gy;
                }
            } else {
                push_range(&mut out, &chars, i, y_to);
            }
            proof {
                assert(Pen { out: out@, kept } == after_command(
                    path@,
                    i as int,
                    j as int,
                    pen,
                    q,
                ));
            }
            i = y_to;
        } else if j > i {
            push_range(&mut out, &chars, i, j);
            i = j;
        } else {
            out.push(chars[i]);
            i += 1;
        }
    }
    text_of(&out)
}

/// Simplifies every path at the given level. Level 0 leaves the paths as
/// they are; a level above 0 simplifies each at the precision
/// `10 - 0.9 * level`.
pub fn simplify_paths(paths: &[String], simplify_level: u8) -> (out: Vec<String>)
    ensures
        texts(out@) == simplified_paths(texts(paths@), simplify_level),
        simplify_level == 0 ==> texts(out@) == texts(paths@),
{
    let precision_tenths: i32 = 100 - 9 * (simplify_level as i32);
    let mut out: Vec<String> = Vec::new();
    let mut i: usize = 0;
    while i < paths.len()
        invariant
            i <= paths.len(),
            out.len() == i,
            precision_tenths == level_precision_tenths(simplify_level),
            precision_tenths != 0,
            forall|j: int|
                0 <= j < i ==> (#[trigger] out[j])@ == if simplify_level == 0 {
                    paths[j]@
                } else {
                    simplified(paths[j]@, precision_tenths as int)
                },
        decreases paths.len() - i,
    {
        if simplify_level == 0 {
            out.push(paths[i].clone());
        } else {
            out.push(simplify_svg_path(paths[i].as_str(), precision_tenths));
        }
        i += 1;
    }
    proof {
        assert(texts(out@) =~= simplified_paths(texts(paths@), simplify_level));
    }
    out
}

} // verus!
