use vstd::prelude::*;

verus! {

/// A polygon vertex in pixel space: `(x, y)`.
pub type Point = (i32, i32);

/// What an edge record stands for at one scanline: its exact x-intercept is
/// `num / den`, where `den` is the edge's height and `dx` its horizontal run.
pub struct EdgeView {
    pub y_max: int,
    pub num: int,
    pub den: int,
    pub dx: int,
}

/// Edge `i` runs from vertex `i` to vertex `i + 1`, the last one closing the polygon.
pub open spec fn edge_from(p: Seq<Point>, i: int) -> Point {
    p[i]
}

pub open spec fn edge_to(p: Seq<Point>, i: int) -> Point {
    p[(i + 1) % (p.len() as int)]
}

/// The endpoint of edge `i` with the smaller y (the second one when both share it).
pub open spec fn lower(p: Seq<Point>, i: int) -> Point {
    if edge_from(p, i).1 < edge_to(p, i).1 {
        edge_from(p, i)
    } else {
        edge_to(p, i)
    }
}

/// The endpoint of edge `i` with the larger y.
pub open spec fn upper(p: Seq<Point>, i: int) -> Point {
    if edge_from(p, i).1 < edge_to(p, i).1 {
        edge_to(p, i)
    } else {
        edge_from(p, i)
    }
}

/// A horizontal edge has no height and never takes part in a fill.
pub open spec fn is_horizontal(p: Seq<Point>, i: int) -> bool {
    edge_from(p, i).1 == edge_to(p, i).1
}

/// Edge `i` is active on scanline `y`: from its lower end up to, not including, its upper end.
pub open spec fn crosses(p: Seq<Point>, i: int, y: int) -> bool {
    lower(p, i).1 <= y < upper(p, i).1
}

/// The record of edge `i` on scanline `y`: its intercept is
/// `lower.x + (y - lower.y) * dx / dy`, kept as a numerator over `dy`.
pub open spec fn edge_at(p: Seq<Point>, i: int, y: int) -> EdgeView {
    let lo = lower(p, i);
    let hi = upper(p, i);
    EdgeView {
        y_max: hi.1 as int,
        num: lo.0 * (hi.1 - lo.1) + (y - lo.1) * (hi.0 - lo.0),
        den: hi.1 - lo.1,
        dx: hi.0 - lo.0,
    }
}

/// The column of a record's intercept, rounded down.
pub open spec fn floor_x(e: EdgeView) -> int {
    e.num / e.den
}

/// The record one scanline further up.
pub open spec fn advance(e: EdgeView) -> EdgeView {
    EdgeView { num: e.num + e.dx, ..e }
}

/// Records, in edge order, of the edges among the first `k` that are active on `y`.
pub open spec fn active_upto(p: Seq<Point>, y: int, k: int) -> Seq<EdgeView>
    decreases k,
{
    if k <= 0 {
        Seq::empty()
    } else if crosses(p, k - 1, y) {
        active_upto(p, y, k - 1).push(edge_at(p, k - 1, y))
    } else {
        active_upto(p, y, k - 1)
    }
}

/// Records of the edges among the first `k` that were already active below `y` and still are.
pub open spec fn carried_upto(p: Seq<Point>, y: int, k: int) -> Seq<EdgeView>
    decreases k,
{
    if k <= 0 {
        Seq::empty()
    } else if lower(p, k - 1).1 < y < upper(p, k - 1).1 {
        carried_upto(p, y, k - 1).push(edge_at(p, k - 1, y))
    } else {
        carried_upto(p, y, k - 1)
    }
}

/// Records of the edges among the first `k` whose lower end lies on `y`.
pub open spec fn starting_upto(p: Seq<Point>, y: int, k: int) -> Seq<EdgeView>
    decreases k,
{
    if k <= 0 {
        Seq::empty()
    } else if lower(p, k - 1).1 == y < upper(p, k - 1).1 {
        starting_upto(p, y, k - 1).push(edge_at(p, k - 1, y))
    } else {
        starting_upto(p, y, k - 1)
    }
}

/// The edge table of the first `k` edges: for each edge that is not horizontal,
/// in edge order, its lower y and its record there.
pub open spec fn table_upto(p: Seq<Point>, k: int) -> Seq<(int, EdgeView)>
    decreases k,
{
    if k <= 0 {
        Seq::empty()
    } else if !is_horizontal(p, k - 1) {
        table_upto(p, k - 1).push((lower(p, k - 1).1 as int, edge_at(p, k - 1, lower(p, k - 1).1 as int)))
    } else {
        table_upto(p, k - 1)
    }
}

/// The records of the table entries keyed at `y`, in table order.
pub open spec fn keyed_at(t: Seq<(int, EdgeView)>, y: int) -> Seq<EdgeView>
    decreases t.len(),
{
    if t.len() == 0 {
        Seq::empty()
    } else if t.last().0 == y {
        keyed_at(t.drop_last(), y).push(t.last().1)
    } else {
        keyed_at(t.drop_last(), y)
    }
}

/// What stays active after moving up to scanline `y`, moved up by one scanline, in order.
pub open spec fn keep_advance(s: Seq<EdgeView>, y: int) -> Seq<EdgeView>
    decreases s.len(),
{
    if s.len() == 0 {
        Seq::empty()
    } else if s.last().y_max > y {
        keep_advance(s.drop_last(), y).push(advance(s.last()))
    } else {
        keep_advance(s.drop_last(), y)
    }
}

/// The records of the edges active on scanline `y`, in edge order.
pub open spec fn row_edges(p: Seq<Point>, y: int) -> Seq<EdgeView> {
    active_upto(p, y, p.len() as int)
}

/// The order in which a scanline's crossings are sorted.
pub open spec fn int_leq() -> spec_fn(int, int) -> bool {
    |a: int, b: int| a <= b
}

/// The rounded-down intercepts of scanline `y` with the polygon's edges, in ascending order.
pub open spec fn row_crossings(p: Seq<Point>, y: int) -> Seq<int> {
    row_edges(p, y).map_values(|e: EdgeView| floor_x(e)).sort_by(int_leq())
}

/// Column `x` lies in a span of the even-odd pairing of the sorted crossings `s`:
/// between the first and second, the third and fourth, and so on, both ends included.
pub open spec fn in_span(s: Seq<int>, x: int) -> bool {
    exists|j: int| 0 <= j && 2 * j + 1 < s.len() && (#[trigger] s[2 * j]) <= x && x <= s[2 * j + 1]
}

/// Cell `(x, y)` is filled by the polygon: it has at least three vertices, and `x`
/// lies in one of the spans of scanline `y`.
pub open spec fn covered(p: Seq<Point>, y: int, x: int) -> bool {
    p.len() >= 3 && in_span(row_crossings(p, y), x)
}

/// `after` is `before` with the cells that the polygon covers set, and nothing else changed.
pub open spec fn filled_from(before: Seq<Vec<bool>>, after: Seq<Vec<bool>>, p: Seq<Point>) -> bool {
    &&& after.len() == before.len()
    &&& forall|y: int| 0 <= y < before.len() ==> #[trigger] after[y]@.len() == before[y]@.len()
    &&& forall|y: int, x: int|
        0 <= y < before.len() && 0 <= x < before[y]@.len() ==> #[trigger] after[y]@[x] == (before[y]@[x]
            || covered(p, y, x))
}

/// `after` is `before` with the cells that the polygon covers cleared, and nothing else changed.
pub open spec fn punched_from(before: Seq<Vec<bool>>, after: Seq<Vec<bool>>, p: Seq<Point>) -> bool {
    &&& after.len() == before.len()
    &&& forall|y: int| 0 <= y < before.len() ==> #[trigger] after[y]@.len() == before[y]@.len()
    &&& forall|y: int, x: int|
        0 <= y < before.len() && 0 <= x < before[y]@.len() ==> #[trigger] after[y]@[x] == (before[y]@[x]
            && !covered(p, y, x))
}

} // verus!
