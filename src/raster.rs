use vstd::prelude::*;
use vstd::seq_lib::*;
use vstd::multiset::*;
use vstd::relations::*;
use crate::model::{
    carried_upto, covered, crosses, edge_at, filled_from, floor_x, in_span, int_leq, is_horizontal,
    keep_advance, keyed_at, lower, row_crossings, row_edges, table_upto, upper,
    EdgeView, Point,
};
use crate::lemmas::{
    fits, lemma_active_fits, lemma_active_split, lemma_carried_below_top, lemma_carried_empty,
    lemma_carry_up, lemma_floor_multiset, lemma_keep_advance_multiset, lemma_keyed_all,
    lemma_keyed_append, lemma_keyed_multiset, lemma_keyed_none, lemma_no_active, lemma_table_has,
    lemma_table_keyed, lemma_table_keys, lemma_total_int_leq,
};
use crate::edges::{
    advanced, edge_entry, fill_span, lemma_floor_is_x, lemma_insert_multiset, sort_by_column, views,
    ActiveEdge,
};

verus! {

broadcast use {group_to_multiset_ensures, group_multiset_axioms};

/// The columns of the records, in their order.
pub open spec fn columns(s: Seq<ActiveEdge>) -> Seq<int> {
    s.map_values(|r: ActiveEdge| r.x as int)
}

/// What each edge table entry stands for: its key and its record.
pub open spec fn table_views(t: Seq<(i64, ActiveEdge)>) -> Seq<(int, EdgeView)> {
    t.map_values(|e: (i64, ActiveEdge)| (e.0 as int, e.1@))
}

/// A scanline that no edge is active on has nothing covered.
pub proof fn lemma_row_uncovered(p: Seq<Point>, y: int)
    requires
        forall|i: int| 0 <= i < p.len() ==> !crosses(p, i, y),
    ensures
        forall|x: int| !covered(p, y, x),
{
    lemma_no_active(p, y, p.len() as int);
    let f = row_edges(p, y).map_values(|e: EdgeView| floor_x(e));
    lemma_total_int_leq();
    f.lemma_sort_by_ensures(int_leq());
    assert(f.len() == 0);
    assert(f.sort_by(int_leq()).to_multiset().len() == 0);
    assert(row_crossings(p, y).len() == 0);
}

/// Below the lowest key, no edge is carried.
proof fn lemma_nothing_carried(p: Seq<Point>, y: int, k: int)
    requires
        forall|i: int| 0 <= i < k && !is_horizontal(p, i) ==> y <= lower(p, i).1,
    ensures
        carried_upto(p, y, k).len() == 0,
    decreases k,
{
    if k > 0 {
        lemma_nothing_carried(p, y, k - 1);
        if !is_horizontal(p, k - 1) {
            assert(y <= lower(p, k - 1).1);
        }
        assert(!(lower(p, k - 1).1 < y < upper(p, k - 1).1));
    }
}

/// Records with the elements of a row's records, ordered by column, have its crossings
/// as their columns.
proof fn lemma_columns_are_crossings(p: Seq<Point>, y: int, s: Seq<ActiveEdge>)
    requires
        views(s).to_multiset() == row_edges(p, y).to_multiset(),
        forall|k: int| 0 <= k < s.len() ==> (#[trigger] s[k]).wf(),
        forall|a: int, b: int| 0 <= a < b < s.len() ==> s[a].x <= s[b].x,
    ensures
        columns(s) == row_crossings(p, y),
        forall|k: int| 0 <= k < s.len() ==> i32::MIN <= #[trigger] s[k].x <= i32::MAX,
        forall|k: int| 0 <= k < s.len() ==> fits(#[trigger] s[k]@, y),
{
    let f = row_edges(p, y).map_values(|e: EdgeView| floor_x(e));
    let g = views(s).map_values(|e: EdgeView| floor_x(e));
    assert forall|k: int| 0 <= k < s.len() implies fits((#[trigger] s[k])@, y) && i32::MIN <= s[k].x
        <= i32::MAX by {
        lemma_floor_is_x(s[k]);
        assert(views(s)[k] == s[k]@);
        assert(views(s).contains(s[k]@));
        assert(row_edges(p, y).to_multiset().contains(s[k]@));
        lemma_active_fits(p, y, p.len() as int);
    };
    assert forall|k: int| 0 <= k < s.len() implies #[trigger] columns(s)[k] == g[k] by {
        lemma_floor_is_x(s[k]);
    };
    assert(columns(s) =~= g);
    lemma_floor_multiset(views(s), row_edges(p, y));
    lemma_total_int_leq();
    f.lemma_sort_by_ensures(int_leq());
    assert(sorted_by(columns(s), int_leq()));
    lemma_sorted_unique(columns(s), f.sort_by(int_leq()), int_leq());
}

/// Sets, in `row`, the spans between the first and second column of `ael`, the third
/// and fourth, and so on; an unpaired last record sets nothing.
fn fill_pairs(row: &mut Vec<bool>, ael: &Vec<ActiveEdge>)
    requires
        forall|k: int| 0 <= k < ael@.len() ==> i32::MIN <= #[trigger] ael@[k].x <= i32::MAX,
    ensures
        final(row)@.len() == old(row)@.len(),
        forall|x: int|
            0 <= x < old(row)@.len() ==> #[trigger] final(row)@[x] == (old(row)@[x] || in_span(
                columns(ael@),
                x,
            )),
{
    let ghost f = columns(ael@);
    let mut i: usize = 0;
    while i < ael.len() && i + 1 < ael.len()
        invariant
            i % 2 == 0,
            i <= ael@.len(),
            row@.len() == old(row)@.len(),
            f == columns(ael@),
            forall|k: int| 0 <= k < ael@.len() ==> i32::MIN <= #[trigger] ael@[k].x <= i32::MAX,
            forall|x: int|
                0 <= x < old(row)@.len() ==> #[trigger] row@[x] == (old(row)@[x] || exists|q: int|
                    0 <= q && 2 * q < i && 2 * q + 1 < f.len() && (#[trigger] f[2 * q]) <= x && x
                        <= f[2 * q + 1]),
        decreases ael@.len() - i,
    {
        let lo = ael[i].x;
        let hi = ael[i + 1].x;
        fill_span(row, lo, hi);
        proof {
            let q0: int = i as int / 2;
            assert(2 * q0 == i);
            assert(f[2 * q0] == lo && f[2 * q0 + 1] == hi);
            assert forall|x: int| 0 <= x < old(row)@.len() implies #[trigger] row@[x] == (old(
                row,
            )@[x] || exists|q: int|
                0 <= q && 2 * q < i + 2 && 2 * q + 1 < f.len() && (#[trigger] f[2 * q]) <= x
                    && x <= f[2 * q + 1]) by {
                if lo <= x <= hi {
                    assert(f[2 * q0] <= x && x <= f[2 * q0 + 1]);
                }
                if exists|q: int|
                    0 <= q && 2 * q < i + 2 && 2 * q + 1 < f.len() && (#[trigger] f[2 * q]) <= x
                        && x <= f[2 * q + 1] {
                    let q = choose|q: int|
                        0 <= q && 2 * q < i + 2 && 2 * q + 1 < f.len() && (#[trigger] f[2 * q])
                            <= x && x <= f[2 * q + 1];
                    if 2 * q >= i {
                        assert(q == q0);
                    }
                }
            };
        }
        i = i + 2;
    }
}

/// Moves the records of the table entries keyed at `y`, which start at `cursor`, to the
/// end of `ael`, and returns the position after them.
fn take_keyed(table: &Vec<(i64, ActiveEdge)>, cursor: usize, y: i64, ael: &mut Vec<ActiveEdge>) -> (c: usize)
    requires
        cursor <= table@.len(),
        forall|a: int, b: int| 0 <= a < b < table@.len() ==> table@[a].0 <= table@[b].0,
        forall|j: int| 0 <= j < cursor ==> table@[j].0 < y,
        forall|j: int| cursor <= j < table@.len() ==> table@[j].0 >= y,
        forall|k: int| 0 <= k < table@.len() ==> (#[trigger] table@[k]).1.wf(),
        forall|k: int| 0 <= k < old(ael)@.len() ==> (#[trigger] old(ael)@[k]).wf(),
    ensures
        cursor <= c <= table@.len(),
        forall|j: int| 0 <= j < c ==> table@[j].0 <= y,
        forall|j: int| c <= j < table@.len() ==> table@[j].0 > y,
        views(final(ael)@) == views(old(ael)@) + keyed_at(table_views(table@), y as int),
        forall|k: int| 0 <= k < final(ael)@.len() ==> (#[trigger] final(ael)@[k]).wf(),
{
    let ghost tv = table_views(table@);
    let ghost ael0 = views(ael@);
    let mut c = cursor;
    while c < table.len() && table[c].0 == y
        invariant
            cursor <= c <= table@.len(),
            tv == table_views(table@),
            forall|j: int| cursor <= j < c ==> table@[j].0 == y,
            views(ael@) == ael0 + tv.subrange(cursor as int, c as int).map_values(
                |e: (int, EdgeView)| e.1,
            ),
            forall|k: int| 0 <= k < table@.len() ==> (#[trigger] table@[k]).1.wf(),
            forall|k: int| 0 <= k < ael@.len() ==> (#[trigger] ael@[k]).wf(),
        decreases table@.len() - c,
    {
        proof {
            assert(tv[c as int].1 == table@[c as int].1@);
            assert(tv.subrange(cursor as int, c + 1).map_values(|e: (int, EdgeView)| e.1) =~= tv.subrange(
                cursor as int,
                c as int,
            ).map_values(|e: (int, EdgeView)| e.1).push(table@[c as int].1@));
            assert(views(ael@.push(table@[c as int].1)) =~= views(ael@).push(table@[c as int].1@));
        }
        ael.push(table[c].1);
        c = c + 1;
    }
    proof {
        let pre = tv.subrange(0, cursor as int);
        let run = tv.subrange(cursor as int, c as int);
        let post = tv.subrange(c as int, tv.len() as int);
        assert(tv =~= pre + (run + post));
        assert forall|j: int| 0 <= j < pre.len() implies (#[trigger] pre[j]).0 != y by {
            assert(pre[j] == tv[j]);
        };
        assert forall|j: int| 0 <= j < run.len() implies (#[trigger] run[j]).0 == y by {
            assert(run[j] == tv[cursor + j]);
        };
        assert forall|j: int| 0 <= j < post.len() implies (#[trigger] post[j]).0 != y by {
            assert(post[j] == tv[c + j]);
            assert(table@[c as int].0 <= table@[c + j].0);
        };
        lemma_keyed_none(pre, y as int);
        lemma_keyed_all(run, y as int);
        lemma_keyed_none(post, y as int);
        lemma_keyed_append(pre, run + post, y as int);
        lemma_keyed_append(run, post, y as int);
        assert(keyed_at(tv, y as int) =~= run.map_values(|e: (int, EdgeView)| e.1));
        assert forall|j: int| c <= j < table@.len() implies table@[j].0 > y by {
            assert(table@[c as int].0 <= table@[j].0);
        };
    }
    c
}

/// The records that stay active on scanline `y + 1`, each moved up to it.
fn step_up(sorted: &Vec<ActiveEdge>, y: i64) -> (next: Vec<ActiveEdge>)
    requires
        y < i32::MAX,
        forall|j: int| 0 <= j < sorted@.len() ==> (#[trigger] sorted@[j]).wf(),
        forall|j: int| 0 <= j < sorted@.len() ==> i32::MIN <= #[trigger] sorted@[j].x <= i32::MAX,
    ensures
        views(next@) == keep_advance(views(sorted@), y + 1),
        forall|j: int| 0 <= j < next@.len() ==> (#[trigger] next@[j]).wf(),
{
    let ghost sv = views(sorted@);
    let mut next: Vec<ActiveEdge> = Vec::new();
    let mut k: usize = 0;
    while k < sorted.len()
        invariant
            k <= sorted@.len(),
            sv == views(sorted@),
            y < i32::MAX,
            views(next@) == keep_advance(sv.subrange(0, k as int), y + 1),
            forall|j: int| 0 <= j < next@.len() ==> (#[trigger] next@[j]).wf(),
            forall|j: int| 0 <= j < sorted@.len() ==> (#[trigger] sorted@[j]).wf(),
            forall|j: int| 0 <= j < sorted@.len() ==> i32::MIN <= #[trigger] sorted@[j].x <= i32::MAX,
        decreases sorted@.len() - k,
    {
        let r = sorted[k];
        proof {
            assert(sv.subrange(0, k + 1).drop_last() =~= sv.subrange(0, k as int));
            assert(sv.subrange(0, k + 1).last() == r@);
        }
        if r.y_max > y + 1 {
            let s = advanced(&r);
            proof {
                assert(views(next@.push(s)) =~= views(next@).push(s@));
            }
            next.push(s);
        }
        k = k + 1;
    }
    proof {
        assert(sv.subrange(0, sv.len() as int) =~= sv);
    }
    next
}

/// Fills the polygon into `pixels` by scanlines: each row `y` of the grid gets its cells
/// set between the first and second, third and fourth, ... of the polygon's crossings
/// with that row, rounded down and sorted. Cells are only ever set; those outside the
/// grid are skipped. A polygon of fewer than three vertices leaves the grid as it is.
pub fn fill_polygon(polygon: &[Point], pixels: &mut Vec<Vec<bool>>)
    ensures
        filled_from(old(pixels)@, final(pixels)@, polygon@),
{
    let ghost p = polygon@;
    let ghost before = pixels@;
    let n = polygon.len();
    if n < 3 {
        return;
    }
    // The edge table: each edge that is not horizontal, by ascending lower y.
    let mut table: Vec<(i64, ActiveEdge)> = Vec::new();
    let ghost mut y_end: int = i32::MIN as int;
    let mut i: usize = 0;
    while i < n
        invariant
            n == p.len(),
            p == polygon@,
            i <= n,
            table_views(table@).to_multiset() == table_upto(p, i as int).to_multiset(),
            forall|a: int, b: int| 0 <= a < b < table@.len() ==> table@[a].0 <= table@[b].0,
            forall|k: int| 0 <= k < table@.len() ==> (#[trigger] table@[k]).1.wf(),
            i32::MIN <= y_end <= i32::MAX,
            forall|k: int| 0 <= k < i && !is_horizontal(p, k) ==> #[trigger] upper(p, k).1 <= y_end,
        decreases n - i,
    {
        if polygon[i].1 != polygon[(i + 1) % n].1 {
            let entry = edge_entry(polygon, i);
            let mut pos: usize = table.len();
            while pos > 0 && table[pos - 1].0 > entry.0
                invariant
                    pos <= table@.len(),
                    forall|j: int| pos <= j < table@.len() ==> table@[j].0 > entry.0,
                decreases pos,
            {
                pos = pos - 1;
            }
            proof {
                if entry.1.y_max > y_end {
                    y_end = entry.1.y_max as int;
                }
                assert(table_views(table@.insert(pos as int, entry)) =~= table_views(table@).insert(
                    pos as int,
                    (entry.0 as int, entry.1@),
                ));
                lemma_insert_multiset(table_views(table@), pos as int, (entry.0 as int, entry.1@));
            }
            table.insert(pos, entry);
        }
        i = i + 1;
    }
    let ghost tv = table_views(table@);
    let mut y: i64 = if table.len() > 0 {
        table[0].0
    } else {
        0
    };
    let ghost y_start = y as int;
    proof {
        lemma_table_keys(p, n as int, y_end);
        assert forall|j: int| 0 <= j < tv.len() implies i32::MIN <= #[trigger] tv[j].0 < y_end by {
            assert(tv.contains(tv[j]));
            assert(tv.to_multiset().contains(tv[j]));
            assert(table_upto(p, n as int).contains(tv[j]));
        };
        if table@.len() > 0 {
            assert(tv[0].0 == table@[0].0);
            assert(i32::MIN <= tv[0].0 < y_end);
        }
        assert forall|k: int| 0 <= k < n && !is_horizontal(p, k) implies y_start <= #[trigger] lower(
            p,
            k,
        ).1 by {
            let e = (lower(p, k).1 as int, edge_at(p, k, lower(p, k).1 as int));
            lemma_table_has(p, n as int, k);
            assert(tv.to_multiset().contains(e));
            let j = choose|j: int| 0 <= j < tv.len() && tv[j] == e;
            assert(tv[0].0 <= tv[j].0);
        };
        assert forall|r: int, x: int| r < y_start implies !covered(p, r, x) by {
            lemma_row_uncovered(p, r);
        };
        lemma_nothing_carried(p, y_start, n as int);
    }
    // The active edge list, scanline by scanline.
    let mut ael: Vec<ActiveEdge> = Vec::new();
    let mut cursor: usize = 0;
    while ael.len() > 0 || cursor < table.len()
        invariant
            n == p.len(),
            p == polygon@,
            n >= 3,
            tv == table_views(table@),
            tv.to_multiset() == table_upto(p, n as int).to_multiset(),
            forall|a: int, b: int| 0 <= a < b < table@.len() ==> table@[a].0 <= table@[b].0,
            forall|k: int| 0 <= k < table@.len() ==> (#[trigger] table@[k]).1.wf(),
            forall|j: int| 0 <= j < tv.len() ==> i32::MIN <= #[trigger] tv[j].0 < y_end,
            y_end <= i32::MAX,
            i32::MIN <= y_start <= y <= i32::MAX,
            cursor <= table@.len(),
            forall|j: int| 0 <= j < cursor ==> table@[j].0 < y,
            forall|j: int| cursor <= j < table@.len() ==> table@[j].0 >= y,
            forall|k: int|
                0 <= k < n && !is_horizontal(p, k) ==> y_start <= #[trigger] lower(p, k).1 && upper(
                    p,
                    k,
                ).1 <= y_end,
            views(ael@).to_multiset() == carried_upto(p, y as int, n as int).to_multiset(),
            forall|k: int| 0 <= k < ael@.len() ==> (#[trigger] ael@[k]).wf(),
            pixels@.len() == before.len(),
            forall|r: int| 0 <= r < before.len() ==> #[trigger] pixels@[r]@.len() == before[r]@.len(),
            forall|r: int, x: int|
                0 <= r < before.len() && 0 <= x < before[r]@.len() ==> #[trigger] pixels@[r]@[x] == (
                if r < y_start {
                    before[r]@[x]
                } else if r < y {
                    before[r]@[x] || covered(p, r, x)
                } else {
                    before[r]@[x]
                }),
            forall|r: int, x: int| r < y_start ==> !covered(p, r, x),
        decreases y_end - y,
    {
        proof {
            if ael.len() > 0 {
                assert(views(ael@).len() > 0);
                assert(views(ael@).to_multiset().len() > 0);
                assert(carried_upto(p, y as int, n as int).len() > 0);
                assert forall|k: int| 0 <= k < n && !is_horizontal(p, k) implies #[trigger] upper(p, k).1
                    <= y_end by {
                    assert(y_start <= lower(p, k).1);
                };
                lemma_carried_below_top(p, y as int, n as int, y_end);
            } else {
                assert(tv[cursor as int].0 < y_end);
            }
        }
        // Move the table entries keyed at this scanline into the active list.
        let ghost ael0 = views(ael@);
        cursor = take_keyed(&table, cursor, y, &mut ael);
        proof {
            lemma_keyed_multiset(tv, table_upto(p, n as int), y as int);
            lemma_table_keyed(p, y as int, n as int);
            lemma_multiset_commutative(ael0, keyed_at(tv, y as int));
            lemma_active_split(p, y as int, n as int);
            assert(views(ael@).to_multiset() =~= row_edges(p, y as int).to_multiset());
        }
        // Order by column and fill the spans of this scanline.
        let sorted = sort_by_column(ael);
        proof {
            lemma_columns_are_crossings(p, y as int, sorted@);
        }
        if y >= 0 {
            let yu = y as usize;
            if yu < pixels.len() {
                let mut row: Vec<bool> = Vec::new();
                std::mem::swap(&mut row, &mut pixels[yu]);
                fill_pairs(&mut row, &sorted);
                pixels.set(yu, row);
            }
        }
        // Move up: drop the edges that end here, advance the others.
        let next = step_up(&sorted, y);
        proof {
            lemma_keep_advance_multiset(views(sorted@), row_edges(p, y as int), y + 1);
            lemma_carry_up(p, y as int, n as int);
        }
        ael = next;
        y = y + 1;
    }
    proof {
        assert(views(ael@).len() == 0);
        assert(views(ael@).to_multiset().len() == 0);
        assert(carried_upto(p, y as int, n as int).len() == 0);
        lemma_carried_empty(p, y as int, n as int);
        assert forall|r: int, x: int| r >= y implies !covered(p, r, x) by {
            assert forall|i: int| 0 <= i < p.len() implies !crosses(p, i, r) by {
                if crosses(p, i, r) && lower(p, i).1 >= y {
                    let e = (lower(p, i).1 as int, edge_at(p, i, lower(p, i).1 as int));
                    lemma_table_has(p, n as int, i);
                    assert(tv.to_multiset().contains(e));
                    let j = choose|j: int| 0 <= j < tv.len() && tv[j] == e;
                    assert(table@[j].0 < y);
                }
            };
            lemma_row_uncovered(p, r);
        };
    }
}

} // verus!
