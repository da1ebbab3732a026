//! Contour tracing: a greedy walk over the strong pixels of an edge map.
//!
//! The pixels are scanned row by row. Each strong pixel that no earlier walk
//! has visited starts a walk, which repeatedly steps to the first unvisited
//! strong neighbour in scan order until there is none or the walk is capped.
use crate::edges::STRONG_EDGE;
use crate::raster::{lemma_cell_index, GrayImage, Grid};
use vstd::prelude::*;

verus! {

/// A pixel position: column `x` of row `y`.
#[derive(Clone, Copy, PartialEq, Eq, Debug, Structural)]
pub struct Point {
    pub x: u32,
    pub y: u32,
}

/// A walk stops once it holds more than this many points.
pub const WALK_CAP: usize = 10000;

/// A contour with fewer points than this is dropped.
pub const MIN_CONTOUR_POINTS: usize = 3;

/// The row-major index of `(x, y)`.
pub open spec fn cell_index(edges: Grid<u8>, x: int, y: int) -> int {
    y * edges.width + x
}

/// Whether `(x, y)` is a strong pixel of the grid that is not yet visited.
pub open spec fn is_open_edge(edges: Grid<u8>, visited: Seq<bool>, x: int, y: int) -> bool {
    &&& edges.contains(x, y)
    &&& edges.at(x, y) == STRONG_EDGE
    &&& !visited[cell_index(edges, x, y)]
}

/// The `k`-th position of the three by three window around `(x, y)`, row by
/// row; the fifth (`k == 4`) is `(x, y)` itself.
pub open spec fn candidate(x: int, y: int, k: int) -> (int, int) {
    (x + k % 3 - 1, y + k / 3 - 1)
}

/// The first open edge among the neighbours of `(x, y)` from the `k`-th
/// window position on.
pub open spec fn next_from(edges: Grid<u8>, visited: Seq<bool>, x: int, y: int, k: int) -> Option<
    (int, int),
>
    decreases 9 - k,
{
    if k < 0 || k >= 9 {
        None
    } else if k != 4 && is_open_edge(edges, visited, candidate(x, y, k).0, candidate(x, y, k).1) {
        Some(candidate(x, y, k))
    } else {
        next_from(edges, visited, x, y, k + 1)
    }
}

/// The neighbour a walk at `(x, y)` steps to: the first open edge among the
/// eight neighbours in scan order, if there is one.
pub open spec fn next_step(edges: Grid<u8>, visited: Seq<bool>, x: int, y: int) -> Option<
    (int, int),
> {
    next_from(edges, visited, x, y, 0)
}

/// The rest of a walk that stands at `(x, y)` and already holds `taken`
/// points: it visits `(x, y)`, then goes on from the next step unless there
/// is none or the walk then holds more than [`WALK_CAP`] points.
pub open spec fn walk(edges: Grid<u8>, visited: Seq<bool>, x: int, y: int, taken: nat) -> Seq<
    Point,
>
    decreases WALK_CAP + 1 - taken,
{
    let marked = visited.update(cell_index(edges, x, y), true);
    let here = seq![Point { x: x as u32, y: y as u32 }];
    match next_step(edges, marked, x, y) {
        Some(next) => if taken + 1 <= WALK_CAP {
            here + walk(edges, marked, next.0, next.1, taken + 1)
        } else {
            here
        },
        None => here,
    }
}

/// The visited flags after the given points have been visited.
pub open spec fn mark_all(edges: Grid<u8>, visited: Seq<bool>, points: Seq<Point>) -> Seq<bool>
    decreases points.len(),
{
    if points.len() == 0 {
        visited
    } else {
        mark_all(edges, visited, points.drop_last()).update(
            cell_index(edges, points.last().x as int, points.last().y as int),
            true,
        )
    }
}

/// The contours found from the `i`-th pixel on, in the order in which their
/// walks start. Walks of fewer than [`MIN_CONTOUR_POINTS`] points leave their
/// pixels visited and yield no contour.
pub open spec fn scan(edges: Grid<u8>, visited: Seq<bool>, i: nat) -> Seq<Seq<Point>>
    decreases edges.cells.len() - i,
{
    if i >= edges.cells.len() {
        Seq::empty()
    } else if edges.cells[i as int] == STRONG_EDGE && !visited[i as int] {
        let contour = walk(edges, visited, i as int % edges.width as int, i as int / edges.width as int, 0);
        let rest = scan(edges, mark_all(edges, visited, contour), i + 1);
        if contour.len() >= MIN_CONTOUR_POINTS {
            seq![contour] + rest
        } else {
            rest
        }
    } else {
        scan(edges, visited, i + 1)
    }
}

/// The contours of an edge map.
pub open spec fn contours(edges: Grid<u8>) -> Seq<Seq<Point>> {
    scan(edges, Seq::new(edges.cells.len(), |i: int| false), 0)
}

/// No point occurs twice, neither within a contour nor in two of them.
pub open spec fn no_point_twice(contours: Seq<Seq<Point>>) -> bool {
    forall|i: int, a: int, j: int, b: int|
        0 <= i < contours.len() && 0 <= a < contours[i].len() && 0 <= j < contours.len() && 0 <= b
            < contours[j].len() && (i != j || a != b) ==> #[trigger] contours[i][a]
            != #[trigger] contours[j][b]
}

/// Whether `q` is one of the eight neighbours of `p`.
pub open spec fn is_neighbour(p: Point, q: Point) -> bool {
    &&& p != q
    &&& p.x - q.x <= 1
    &&& q.x - p.x <= 1
    &&& p.y - q.y <= 1
    &&& q.y - p.y <= 1
}

/// Whether each point of the contour is a neighbour of the point before it.
pub open spec fn is_chain(contour: Seq<Point>) -> bool {
    forall|a: int| 1 <= a < contour.len() ==> is_neighbour(contour[a - 1], #[trigger] contour[a])
}

/// Whether the row-by-row scan meets `p` before `q`.
pub open spec fn scans_before(p: Point, q: Point) -> bool {
    p.y < q.y || (p.y == q.y && p.x < q.x)
}

/// Whether the contours stand in the order of the scan: each starts at the
/// point of it that the scan meets first, and the starts follow each other
/// in scan order.
pub open spec fn in_scan_order(contours: Seq<Seq<Point>>) -> bool {
    &&& forall|i: int, a: int|
        0 <= i < contours.len() && 1 <= a < contours[i].len() ==> scans_before(
            contours[i][0],
            #[trigger] contours[i][a],
        )
    &&& forall|i: int, j: int|
        0 <= i < j < contours.len() && contours[i].len() > 0 && contours[j].len() > 0
            ==> scans_before(#[trigger] contours[i][0], #[trigger] contours[j][0])
}

/// A walk that already holds `taken` points adds at least one point and, with
/// them, holds at most one more than [`WALK_CAP`].
proof fn lemma_walk_is_capped(edges: Grid<u8>, visited: Seq<bool>, x: int, y: int, taken: nat)
    requires
        taken <= WALK_CAP,
    ensures
        1 <= walk(edges, visited, x, y, taken).len() <= WALK_CAP + 1 - taken,
    decreases WALK_CAP + 1 - taken,
{
    let marked = visited.update(cell_index(edges, x, y), true);
    match next_step(edges, marked, x, y) {
        Some(next) => {
            if taken + 1 <= WALK_CAP {
                lemma_walk_is_capped(edges, marked, next.0, next.1, taken + 1);
            }
        },
        None => {},
    }
}

/// A scan yields only contours of at most one point more than [`WALK_CAP`].
proof fn lemma_scan_caps_walks(edges: Grid<u8>, visited: Seq<bool>, i: nat)
    ensures
        forall|k: int|
            0 <= k < scan(edges, visited, i).len() ==> (#[trigger] scan(edges, visited, i)[k]).len()
                <= WALK_CAP + 1,
    decreases edges.cells.len() - i,
{
    if i < edges.cells.len() {
        if edges.cells[i as int] == STRONG_EDGE && !visited[i as int] {
            let x = i as int % edges.width as int;
            let y = i as int / edges.width as int;
            let contour = walk(edges, visited, x, y, 0);
            let rest = scan(edges, mark_all(edges, visited, contour), i + 1);
            lemma_walk_is_capped(edges, visited, x, y, 0);
            lemma_scan_caps_walks(edges, mark_all(edges, visited, contour), i + 1);
            assert forall|k: int| 0 <= k < scan(edges, visited, i).len() implies (#[trigger] scan(
                edges,
                visited,
                i,
            )[k]).len() <= WALK_CAP + 1 by {
                if contour.len() >= MIN_CONTOUR_POINTS {
                    if k > 0 {
                        assert(scan(edges, visited, i)[k] == rest[k - 1]);
                    }
                } else {
                    assert(scan(edges, visited, i)[k] == rest[k]);
                }
            }
        } else {
            lemma_scan_caps_walks(edges, visited, i + 1);
            assert(scan(edges, visited, i) == scan(edges, visited, i + 1));
        }
    } else {
        assert(scan(edges, visited, i).len() == 0);
    }
}

/// No walk runs away: every contour of an edge map has at most one point more
/// than [`WALK_CAP`].
pub proof fn lemma_contours_are_capped(edges: Grid<u8>)
    ensures
        forall|k: int|
            0 <= k < contours(edges).len() ==> (#[trigger] contours(edges)[k]).len() <= WALK_CAP
                + 1,
{
    lemma_scan_caps_walks(edges, Seq::new(edges.cells.len(), |i: int| false), 0);
}

/// Of two positions of a grid, the scan meets first the one with the lower
/// index.
proof fn lemma_index_order(width: int, height: int, p: Point, q: Point)
    requires
        0 <= p.x < width,
        0 <= q.x < width,
        p.y * width + p.x < q.y * width + q.x,
    ensures
        scans_before(p, q),
{
    if p.y > q.y {
        assert(p.y * width >= (q.y + 1) * width) by (nonlinear_arith)
            requires
                p.y >= q.y + 1,
                width > 0,
        ;
        assert((q.y + 1) * width == q.y * width + width) by (nonlinear_arith);
    }
}

/// A scan yields only contours of at least [`MIN_CONTOUR_POINTS`] points.
proof fn lemma_scan_drops_short_walks(edges: Grid<u8>, visited: Seq<bool>, i: nat)
    ensures
        forall|k: int|
            0 <= k < scan(edges, visited, i).len() ==> (#[trigger] scan(edges, visited, i)[k]).len()
                >= MIN_CONTOUR_POINTS,
    decreases edges.cells.len() - i,
{
    if i < edges.cells.len() {
        if edges.cells[i as int] == STRONG_EDGE && !visited[i as int] {
            let contour = walk(
                edges,
                visited,
                i as int % edges.width as int,
                i as int / edges.width as int,
                0,
            );
            let rest = scan(edges, mark_all(edges, visited, contour), i + 1);
            lemma_scan_drops_short_walks(edges, mark_all(edges, visited, contour), i + 1);
            assert forall|k: int| 0 <= k < scan(edges, visited, i).len() implies (#[trigger] scan(
                edges,
                visited,
                i,
            )[k]).len() >= MIN_CONTOUR_POINTS by {
                if contour.len() >= MIN_CONTOUR_POINTS {
                    if k > 0 {
                        assert(scan(edges, visited, i)[k] == rest[k - 1]);
                    }
                } else {
                    assert(scan(edges, visited, i)[k] == rest[k]);
                }
            }
        } else {
            lemma_scan_drops_short_walks(edges, visited, i + 1);
            assert(scan(edges, visited, i) == scan(edges, visited, i + 1));
        }
    } else {
        assert(scan(edges, visited, i).len() == 0);
    }
}

/// Every contour of an edge map has at least [`MIN_CONTOUR_POINTS`] points.
pub proof fn lemma_contours_have_min_points(edges: Grid<u8>)
    ensures
        forall|k: int|
            0 <= k < contours(edges).len() ==> (#[trigger] contours(edges)[k]).len()
                >= MIN_CONTOUR_POINTS,
{
    lemma_scan_drops_short_walks(edges, Seq::new(edges.cells.len(), |i: int| false), 0);
}

/// A scan over an edge map without a strong pixel finds nothing.
proof fn lemma_scan_finds_nothing(edges: Grid<u8>, visited: Seq<bool>, i: nat)
    requires
        forall|j: int| 0 <= j < edges.cells.len() ==> edges.cells[j] != STRONG_EDGE,
    ensures
        scan(edges, visited, i).len() == 0,
    decreases edges.cells.len() - i,
{
    if i < edges.cells.len() {
        lemma_scan_finds_nothing(edges, visited, i + 1);
        assert(scan(edges, visited, i) == scan(edges, visited, i + 1));
    }
}

/// An edge map without a strong pixel, such as an all-zero one, has no
/// contours.
pub proof fn lemma_blank_edge_map_has_no_contours(edges: Grid<u8>)
    requires
        forall|j: int| 0 <= j < edges.cells.len() ==> edges.cells[j] != STRONG_EDGE,
    ensures
        contours(edges).len() == 0,
{
    lemma_scan_finds_nothing(edges, Seq::new(edges.cells.len(), |i: int| false), 0);
}

/// What holds of the contours found while the scan has passed the pixels
/// below `upto`: every strong pixel passed is visited, and every contour is a
/// chain that starts at a pixel passed, stands behind the contours found
/// before it and starts at its own first pixel in scan order.
spec fn scanned_in_order(
    edges: Grid<u8>,
    found: Seq<Seq<Point>>,
    visited: Seq<bool>,
    upto: int,
) -> bool {
    &&& forall|j: int|
        0 <= j < upto && j < edges.cells.len() && edges.cells[j] == STRONG_EDGE ==> visited[j]
    &&& forall|k: int|
        0 <= k < found.len() ==> {
            let c = #[trigger] found[k];
            &&& c.len() > 0
            &&& is_chain(c)
            &&& edges.contains(c[0].x as int, c[0].y as int)
            &&& cell_index(edges, c[0].x as int, c[0].y as int) < upto
        }
    &&& in_scan_order(found)
}

/// Passing a pixel that starts no walk keeps the contours in order.
proof fn lemma_order_after_pass(
    edges: Grid<u8>,
    found: Seq<Seq<Point>>,
    visited: Seq<bool>,
    upto: int,
)
    requires
        scanned_in_order(edges, found, visited, upto),
        0 <= upto < edges.cells.len(),
        edges.cells[upto] == STRONG_EDGE ==> visited[upto],
    ensures
        scanned_in_order(edges, found, visited, upto + 1),
{
}

/// A walk from the pixel that the scan has reached keeps the contours in
/// order, whether it is kept as a contour or not.
proof fn lemma_order_after_walk(
    edges: Grid<u8>,
    found: Seq<Seq<Point>>,
    before: Seq<bool>,
    after: Seq<bool>,
    contour: Seq<Point>,
    start: Point,
    keep: bool,
)
    requires
        edges.wf(),
        edges.contains(start.x as int, start.y as int),
        before.len() == edges.cells.len(),
        after.len() == edges.cells.len(),
        scanned_in_order(edges, found, before, cell_index(edges, start.x as int, start.y as int)),
        forall|j: int| 0 <= j < before.len() && before[j] ==> after[j],
        contour.len() > 0,
        contour[0] == start,
        is_chain(contour),
        forall|a: int|
            0 <= a < contour.len() ==> {
                let p = #[trigger] contour[a];
                &&& edges.contains(p.x as int, p.y as int)
                &&& edges.at(p.x as int, p.y as int) == STRONG_EDGE
                &&& !before[cell_index(edges, p.x as int, p.y as int)]
                &&& after[cell_index(edges, p.x as int, p.y as int)]
            },
        forall|a: int, b: int|
            0 <= a < b < contour.len() ==> #[trigger] contour[a] != #[trigger] contour[b],
    ensures
        scanned_in_order(
            edges,
            if keep {
                found.push(contour)
            } else {
                found
            },
            after,
            cell_index(edges, start.x as int, start.y as int) + 1,
        ),
{
    let w = edges.width as int;
    let h = edges.height as int;
    let at = cell_index(edges, start.x as int, start.y as int);
    lemma_cell_index(w, h, start.x as int, start.y as int);
    assert(after[at]) by {
        assert(contour[0] == start);
    }
    if keep {
        let all = found.push(contour);
        assert forall|i: int, a: int| 0 <= i < all.len() && 1 <= a < all[i].len() implies scans_before(
            all[i][0],
            #[trigger] all[i][a],
        ) by {
            if i < found.len() {
                assert(all[i] == found[i]);
            } else {
                let p = contour[a];
                lemma_cell_index(w, h, p.x as int, p.y as int);
                let ip = cell_index(edges, p.x as int, p.y as int);
                assert(edges.cells[ip] == STRONG_EDGE);
                assert(!before[ip]);
                assert(contour[0] != contour[a]);
                assert(ip != at);
                lemma_index_order(w, h, start, p);
            }
        }
        assert forall|i: int, j: int|
            0 <= i < j < all.len() && all[i].len() > 0 && all[j].len() > 0 implies scans_before(
            #[trigger] all[i][0],
            #[trigger] all[j][0],
        ) by {
            assert(all[i] == found[i]);
            if j < found.len() {
                assert(all[j] == found[j]);
            } else {
                let p = found[i][0];
                lemma_cell_index(w, h, p.x as int, p.y as int);
                lemma_index_order(w, h, p, start);
            }
        }
        assert forall|k: int| 0 <= k < all.len() implies {
            let c = #[trigger] all[k];
            &&& c.len() > 0
            &&& is_chain(c)
            &&& edges.contains(c[0].x as int, c[0].y as int)
            &&& cell_index(edges, c[0].x as int, c[0].y as int) < at + 1
        } by {
            if k < found.len() {
                assert(all[k] == found[k]);
            }
        }
    }
}

/// The first open edge among the neighbours of `(x, y)`.
fn next_step_at(edges: &GrayImage, visited: &Vec<bool>, x: u32, y: u32) -> (next: Option<Point>)
    requires
        visited.len() == edges@.cells.len(),
        edges@.contains(x as int, y as int),
    ensures
        next is Some <==> next_step(edges@, visited@, x as int, y as int) is Some,
        next is Some ==> next_step(edges@, visited@, x as int, y as int) == Some(
            (next->0.x as int, next->0.y as int),
        ) && is_open_edge(edges@, visited@, next->0.x as int, next->0.y as int),
        next is Some ==> is_neighbour(Point { x, y }, next->0),
{
    let (w, h) = edges.dimensions();
    let cells = edges.cells();
    let mut k: u8 = 0;
    while k < 9
        invariant
            k <= 9,
            w == edges@.width,
            h == edges@.height,
            edges@.wf(),
            cells@ == edges@.cells,
            x < w,
            y < h,
            visited.len() == edges@.cells.len(),
            next_step(edges@, visited@, x as int, y as int) == next_from(
                edges@,
                visited@,
                x as int,
                y as int,
                k as int,
            ),
        decreases 9 - k,
    {
        if k != 4 {
            let nx: i64 = x as i64 + (k % 3) as i64 - 1;
            let ny: i64 = y as i64 + (k / 3) as i64 - 1;
            if 0 <= nx && nx < w as i64 && 0 <= ny && ny < h as i64 {
                proof {
                    lemma_cell_index(w as int, h as int, nx as int, ny as int);
                }
                let i: usize = (ny as usize) * (w as usize) + (nx as usize);
                if cells[i] == STRONG_EDGE && !visited[i] {
                    return Some(Point { x: nx as u32, y: ny as u32 });
                }
            }
        }
        k += 1;
    }
    None
}

/// Walks from the open edge `(x, y)` and marks every point of the walk as
/// visited.
fn walk_from(edges: &GrayImage, visited: &mut Vec<bool>, x: u32, y: u32) -> (contour: Vec<Point>)
    requires
        old(visited).len() == edges@.cells.len(),
        is_open_edge(edges@, old(visited)@, x as int, y as int),
    ensures
        contour@ == walk(edges@, old(visited)@, x as int, y as int, 0),
        final(visited)@ == mark_all(edges@, old(visited)@, contour@),
        final(visited).len() == old(visited).len(),
        1 <= contour.len() <= WALK_CAP + 1,
        forall|j: int| 0 <= j < old(visited).len() && old(visited)[j] ==> final(visited)[j],
        forall|a: int|
            0 <= a < contour.len() ==> {
                let p = #[trigger] contour[a];
                &&& edges@.contains(p.x as int, p.y as int)
                &&& edges@.at(p.x as int, p.y as int) == STRONG_EDGE
                &&& !old(visited)[cell_index(edges@, p.x as int, p.y as int)]
                &&& final(visited)[cell_index(edges@, p.x as int, p.y as int)]
            },
        forall|a: int, b: int|
            0 <= a < b < contour.len() ==> #[trigger] contour[a] != #[trigger] contour[b],
        contour[0] == (Point { x, y }),
        is_chain(contour@),
{
    let (w, h) = edges.dimensions();
    let mut contour: Vec<Point> = Vec::new();
    let mut cx: u32 = x;
    let mut cy: u32 = y;
    let ghost start = visited@;
    assert(mark_all(edges@, start, contour@) == start);
    loop
        invariant_except_break
            is_open_edge(edges@, visited@, cx as int, cy as int),
            contour.len() <= WALK_CAP,
            contour.len() == 0 ==> cx == x && cy == y,
            contour.len() > 0 ==> is_neighbour(contour[contour.len() - 1], Point { x: cx, y: cy }),
            walk(edges@, start, x as int, y as int, 0) == contour@ + walk(
                edges@,
                visited@,
                cx as int,
                cy as int,
                contour.len() as nat,
            ),
        invariant
            w == edges@.width,
            h == edges@.height,
            edges@.wf(),
            contour.len() > 0 ==> contour[0] == (Point { x, y }),
            is_chain(contour@),
            start == old(visited)@,
            visited.len() == start.len(),
            start.len() == edges@.cells.len(),
            visited@ == mark_all(edges@, start, contour@),
            forall|j: int| 0 <= j < start.len() && start[j] ==> visited[j],
            forall|a: int|
                0 <= a < contour.len() ==> {
                    let p = #[trigger] contour[a];
                    &&& edges@.contains(p.x as int, p.y as int)
                    &&& edges@.at(p.x as int, p.y as int) == STRONG_EDGE
                    &&& !start[cell_index(edges@, p.x as int, p.y as int)]
                    &&& visited[cell_index(edges@, p.x as int, p.y as int)]
                },
            forall|a: int, b: int|
                0 <= a < b < contour.len() ==> #[trigger] contour[a] != #[trigger] contour[b],
        ensures
            contour@ == walk(edges@, start, x as int, y as int, 0),
            1 <= contour.len() <= WALK_CAP + 1,
        decreases WALK_CAP + 1 - contour.len(),
    {
        proof {
            lemma_cell_index(w as int, h as int, cx as int, cy as int);
        }
        let ghost before = visited@;
        let ghost taken = contour@;
        let i: usize = (cy as usize) * (w as usize) + (cx as usize);
        visited.set(i, true);
        let here = Point { x: cx, y: cy };
        contour.push(here);
        proof {
            assert(i == cell_index(edges@, cx as int, cy as int));
            assert(contour@.drop_last() =~= taken);
            assert(contour@ =~= taken + seq![here]);
            assert forall|a: int| 0 <= a < contour.len() implies {
                let p = #[trigger] contour[a];
                &&& edges@.contains(p.x as int, p.y as int)
                &&& edges@.at(p.x as int, p.y as int) == STRONG_EDGE
                &&& !start[cell_index(edges@, p.x as int, p.y as int)]
                &&& visited[cell_index(edges@, p.x as int, p.y as int)]
            } by {
                if a < taken.len() {
                    let p = taken[a];
                    lemma_cell_index(w as int, h as int, p.x as int, p.y as int);
                    assert(before[cell_index(edges@, p.x as int, p.y as int)]);
                }
            }
            assert forall|a: int, b: int| 0 <= a < b < contour.len() implies #[trigger] contour[a]
                != #[trigger] contour[b] by {
                if b == contour.len() - 1 {
                    let p = taken[a];
                    lemma_cell_index(w as int, h as int, p.x as int, p.y as int);
                    assert(before[cell_index(edges@, p.x as int, p.y as int)]);
                } else {
                    assert(taken[a] != taken[b]);
                }
            }
        }
        let next = next_step_at(edges, visited, cx, cy);
        match next {
            Some(p) => {
                if contour.len() > WALK_CAP {
                    proof {
                        assert(walk(edges@, before, cx as int, cy as int, taken.len()) == seq![
                            here,
                        ]);
                    }
                    break;
                }
                proof {
                    assert(walk(edges@, before, cx as int, cy as int, taken.len()) == seq![here]
                        + walk(edges@, visited@, p.x as int, p.y as int, taken.len() + 1));
                    assert(taken + (seq![here] + walk(
                        edges@,
                        visited@,
                        p.x as int,
                        p.y as int,
                        taken.len() + 1,
                    )) =~= contour@ + walk(
                        edges@,
                        visited@,
                        p.x as int,
                        p.y as int,
                        taken.len() + 1,
                    ));
                }
                cx = p.x;
                cy = p.y;
            },
            None => {
                proof {
                    assert(walk(edges@, before, cx as int, cy as int, taken.len()) == seq![
                        here,
                    ]);
                }
                break;
            },
        }
    }
    contour
}

/// Traces the contours of an edge map as point sequences. The pixels are
/// scanned row by row; each strong pixel not yet visited starts a walk that
/// visits it and then keeps stepping to the first unvisited strong neighbour
/// in scan order, until there is none or the walk holds more than
/// [`WALK_CAP`] points. Walks of at least [`MIN_CONTOUR_POINTS`] points are
/// the contours. No pixel is visited twice, so no point occurs twice. Each
/// point of a contour is a neighbour of the point before it; each contour
/// starts at the point of it that the scan meets first, and the contours
/// stand in the scan order of their starts.
pub fn trace_contour_points(edges: &GrayImage) -> (out: Vec<Vec<Point>>)
    ensures
        out.len() == contours(edges@).len(),
        forall|i: int| 0 <= i < out.len() ==> (#[trigger] out[i])@ == contours(edges@)[i],
        no_point_twice(contours(edges@)),
        in_scan_order(contours(edges@)),
        forall|i: int| 0 <= i < contours(edges@).len() ==> is_chain(#[trigger] contours(edges@)[i]),
        forall|i: int, a: int|
            0 <= i < out.len() && 0 <= a < out[i].len() ==> {
                let p = #[trigger] out[i][a];
                edges@.contains(p.x as int, p.y as int) && edges@.at(p.x as int, p.y as int)
                    == STRONG_EDGE
            },
        forall|i: int|
            0 <= i < out.len() ==> MIN_CONTOUR_POINTS <= (#[trigger] out[i]).len() <= WALK_CAP + 1,
{
    let (w, h) = edges.dimensions();
    let cells = edges.cells();
    let area: usize = cells.len();
    let mut visited: Vec<bool> = Vec::new();
    let mut n: usize = 0;
    while n < area
        invariant
            n <= area,
            visited.len() == n,
            forall|j: int| 0 <= j < n ==> !visited[j],
        decreases area - n,
    {
        visited.push(false);
        n += 1;
    }
    assert(visited@ =~= Seq::new(edges@.cells.len(), |i: int| false));
    let mut out: Vec<Vec<Point>> = Vec::new();
    let ghost mut found: Seq<Seq<Point>> = Seq::empty();
    let mut y: u32 = 0;
    while y < h
        invariant
            y <= h,
            w == edges@.width,
            h == edges@.height,
            edges@.wf(),
            cells@ == edges@.cells,
            visited.len() == edges@.cells.len(),
            out.len() == found.len(),
            forall|i: int| 0 <= i < out.len() ==> (#[trigger] out[i])@ == found[i],
            contours(edges@) == found + scan(edges@, visited@, (y * w) as nat),
            scanned_in_order(edges@, found, visited@, y * w),
            no_point_twice(found),
            forall|i: int, a: int|
                0 <= i < found.len() && 0 <= a < found[i].len() ==> {
                    let p = #[trigger] found[i][a];
                    &&& edges@.contains(p.x as int, p.y as int)
                    &&& edges@.at(p.x as int, p.y as int) == STRONG_EDGE
                    &&& visited[cell_index(edges@, p.x as int, p.y as int)]
                },
            forall|i: int|
                0 <= i < found.len() ==> MIN_CONTOUR_POINTS <= (#[trigger] found[i]).len()
                    <= WALK_CAP + 1,
        decreases h - y,
    {
        let mut x: u32 = 0;
        while x < w
            invariant
                x <= w,
                y < h,
                w == edges@.width,
                h == edges@.height,
                edges@.wf(),
                cells@ == edges@.cells,
                visited.len() == edges@.cells.len(),
                out.len() == found.len(),
                forall|i: int| 0 <= i < out.len() ==> (#[trigger] out[i])@ == found[i],
                contours(edges@) == found + scan(edges@, visited@, (y * w + x) as nat),
                scanned_in_order(edges@, found, visited@, y * w + x),
                no_point_twice(found),
                forall|i: int, a: int|
                    0 <= i < found.len() && 0 <= a < found[i].len() ==> {
                        let p = #[trigger] found[i][a];
                        &&& edges@.contains(p.x as int, p.y as int)
                        &&& edges@.at(p.x as int, p.y as int) == STRONG_EDGE
                        &&& visited[cell_index(edges@, p.x as int, p.y as int)]
                    },
                forall|i: int|
                    0 <= i < found.len() ==> MIN_CONTOUR_POINTS <= (#[trigger] found[i]).len()
                        <= WALK_CAP + 1,
            decreases w - x,
        {
            proof {
                lemma_cell_index(w as int, h as int, x as int, y as int);
            }
            let i: usize = (y as usize) * (w as usize) + (x as usize);
            if cells[i] == STRONG_EDGE && !visited[i] {
                let ghost before = visited@;
                let contour = walk_from(edges, &mut visited, x, y);
                proof {
                    let rest = scan(edges@, visited@, (i + 1) as nat);
                    lemma_order_after_walk(
                        edges@,
                        found,
                        before,
                        visited@,
                        contour@,
                        Point { x, y },
                        contour.len() >= MIN_CONTOUR_POINTS,
                    );
                    assert forall|i1: int, a: int|
                        0 <= i1 < found.len() && 0 <= a < found[i1].len() implies visited[cell_index(
                        edges@,
                        (#[trigger] found[i1][a]).x as int,
                        found[i1][a].y as int,
                    )] by {
                        let p = found[i1][a];
                        lemma_cell_index(w as int, h as int, p.x as int, p.y as int);
                        assert(before[cell_index(edges@, p.x as int, p.y as int)]);
                    }
                    if contour.len() >= MIN_CONTOUR_POINTS {
                        assert(found + (seq![contour@] + rest) =~= found.push(contour@) + rest);
                        assert forall|i1: int, a: int, j1: int, b: int|
                            0 <= i1 < found.push(contour@).len() && 0 <= a < found.push(
                                contour@,
                            )[i1].len() && 0 <= j1 < found.push(contour@).len() && 0 <= b
                                < found.push(contour@)[j1].len() && (i1 != j1 || a
                                != b) implies #[trigger] found.push(contour@)[i1][a]
                            != #[trigger] found.push(contour@)[j1][b] by {
                            let all = found.push(contour@);
                            let p = all[i1][a];
                            let q = all[j1][b];
                            if i1 < found.len() && j1 < found.len() {
                                assert(found[i1][a] != found[j1][b]);
                            } else if i1 < found.len() {
                                lemma_cell_index(w as int, h as int, p.x as int, p.y as int);
                                lemma_cell_index(w as int, h as int, q.x as int, q.y as int);
                                assert(p == found[i1][a] && q == contour[b]);
                                assert(before[cell_index(edges@, p.x as int, p.y as int)]);
                                assert(!before[cell_index(edges@, q.x as int, q.y as int)]);
                            } else if j1 < found.len() {
                                lemma_cell_index(w as int, h as int, p.x as int, p.y as int);
                                lemma_cell_index(w as int, h as int, q.x as int, q.y as int);
                                assert(q == found[j1][b] && p == contour[a]);
                                assert(before[cell_index(edges@, q.x as int, q.y as int)]);
                                assert(!before[cell_index(edges@, p.x as int, p.y as int)]);
                            } else {
                                if a < b {
                                    assert(contour[a] != contour[b]);
                                } else {
                                    assert(contour[b] != contour[a]);
                                }
                            }
                        }
                        found = found.push(contour@);
                    }
                }
                if contour.len() >= MIN_CONTOUR_POINTS {
                    out.push(contour);
                }
            } else {
                proof {
                    lemma_order_after_pass(edges@, found, visited@, i as int);
                }
            }
            x += 1;
        }
        proof {
            assert((y + 1) * w == y * w + w) by (nonlinear_arith);
        }
        y += 1;
    }
    proof {
        assert(h * w == w * h) by (nonlinear_arith);
        assert(contours(edges@) =~= found);
        assert forall|i: int| 0 <= i < found.len() implies is_chain(#[trigger] found[i]) by {}
    }
    out
}

} // verus!
