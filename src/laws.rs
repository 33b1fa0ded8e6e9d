use vstd::prelude::*;
use vstd::seq_lib::*;
use vstd::relations::sorted_by;
use crate::model::{
    covered, crosses, filled_from, floor_x, in_span, int_leq, punched_from, row_crossings,
    row_edges, EdgeView, Point,
};
use crate::lemmas::lemma_total_int_leq;
use crate::raster::lemma_row_uncovered;
use crate::hole::blank_like;

verus! {

broadcast use group_to_multiset_ensures;

/// A polygon of fewer than three vertices covers no cell, so filling it or cutting it
/// out leaves every cell of the grid as it was.
pub proof fn lemma_degenerate_changes_nothing(
    p: Seq<Point>,
    before: Seq<Vec<bool>>,
    filled: Seq<Vec<bool>>,
    punched: Seq<Vec<bool>>,
)
    requires
        p.len() < 3,
        filled_from(before, filled, p),
        punched_from(before, punched, p),
    ensures
        forall|y: int| 0 <= y < before.len() ==> #[trigger] filled[y]@ == before[y]@,
        forall|y: int| 0 <= y < before.len() ==> #[trigger] punched[y]@ == before[y]@,
{
    assert forall|y: int| 0 <= y < before.len() implies #[trigger] filled[y]@ == before[y]@
        && punched[y]@ == before[y]@ by {
        assert(filled[y]@ =~= before[y]@);
        assert(punched[y]@ =~= before[y]@);
    };
}

/// A polygon whose vertices all lie on one scanline has only horizontal edges and
/// covers no cell.
pub proof fn lemma_flat_polygon_covers_nothing(p: Seq<Point>)
    requires
        forall|i: int| 0 <= i < p.len() ==> (#[trigger] p[i]).1 == p[0].1,
    ensures
        forall|y: int, x: int| !covered(p, y, x),
{
    assert forall|y: int, x: int| !covered(p, y, x) by {
        assert forall|i: int| 0 <= i < p.len() implies !crosses(p, i, y) by {
            assert(p[(i + 1) % (p.len() as int)].1 == p[0].1);
        };
        lemma_row_uncovered(p, y);
    };
}

/// Filling a polygon a second time changes nothing: fill only sets cells.
pub proof fn lemma_fill_idempotent(
    p: Seq<Point>,
    g0: Seq<Vec<bool>>,
    g1: Seq<Vec<bool>>,
    g2: Seq<Vec<bool>>,
)
    requires
        filled_from(g0, g1, p),
        filled_from(g1, g2, p),
    ensures
        g2.len() == g1.len(),
        forall|y: int| 0 <= y < g1.len() ==> #[trigger] g2[y]@ == g1[y]@,
{
    assert forall|y: int| 0 <= y < g1.len() implies #[trigger] g2[y]@ == g1[y]@ by {
        assert forall|x: int| 0 <= x < g1[y]@.len() implies g2[y]@[x] == g1[y]@[x] by {
            assert(g1[y]@[x] == (g0[y]@[x] || covered(p, y, x)));
        };
        assert(g2[y]@ =~= g1[y]@);
    };
}

/// Cutting a polygon out clears exactly the cells that filling it into a cleared grid
/// of the same shape sets, and keeps every other cell.
pub proof fn lemma_hole_subtracts_fill(
    p: Seq<Point>,
    grid: Seq<Vec<bool>>,
    punched: Seq<Vec<bool>>,
    blank: Seq<Vec<bool>>,
    scratch: Seq<Vec<bool>>,
)
    requires
        punched_from(grid, punched, p),
        blank_like(grid, blank),
        filled_from(blank, scratch, p),
    ensures
        forall|y: int, x: int|
            0 <= y < grid.len() && 0 <= x < grid[y]@.len() ==> #[trigger] punched[y]@[x] == (
            grid[y]@[x] && !scratch[y]@[x]),
{
    assert forall|y: int, x: int| 0 <= y < grid.len() && 0 <= x < grid[y]@.len() implies #[trigger] punched[y]@[x]
        == (grid[y]@[x] && !scratch[y]@[x]) by {
        assert(!blank[y]@[x]);
        assert(scratch[y]@[x] == (blank[y]@[x] || covered(p, y, x)));
    };
}

/// A scanline met by exactly two edges, as each scanline through a convex polygon is,
/// is filled in a single run of columns: from the lower crossing to the higher one.
pub proof fn lemma_two_crossings_single_run(p: Seq<Point>, y: int)
    requires
        p.len() >= 3,
        row_edges(p, y).len() == 2,
    ensures
        row_crossings(p, y).len() == 2,
        row_crossings(p, y)[0] <= row_crossings(p, y)[1],
        forall|x: int| #[trigger] covered(p, y, x) <==> row_crossings(p, y)[0] <= x <= row_crossings(p, y)[1],
{
    let f = row_edges(p, y).map_values(|e: EdgeView| floor_x(e));
    let c = row_crossings(p, y);
    lemma_total_int_leq();
    f.lemma_sort_by_ensures(int_leq());
    assert(c.to_multiset().len() == f.to_multiset().len());
    assert(c.len() == 2);
    assert(sorted_by(c, int_leq()));
    assert(int_leq()(c[0], c[1]));
    assert forall|x: int| #[trigger] covered(p, y, x) <==> c[0] <= x <= c[1] by {
        if c[0] <= x <= c[1] {
            let z: int = 0;
            assert(c[2 * z] <= x && x <= c[2 * z + 1]);
        }
        if in_span(c, x) {
            let j = choose|j: int| 0 <= j && 2 * j + 1 < c.len() && (#[trigger] c[2 * j]) <= x && x <= c[2 * j + 1];
            assert(j == 0);
        }
    };
}

} // verus!
