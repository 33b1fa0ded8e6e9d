use vstd::prelude::*;
use vstd::seq_lib::*;
use vstd::multiset::*;
use vstd::relations::*;
use crate::model::{
    active_upto, advance, carried_upto, crosses, edge_at, floor_x, int_leq, is_horizontal, keep_advance,
    keyed_at, lower, starting_upto, table_upto, upper, EdgeView, Point,
};

verus! {

broadcast use {group_to_multiset_ensures, group_multiset_axioms};

/// Bounds that every active record keeps, enough to run it in 64-bit integers.
pub open spec fn fits(e: EdgeView, y: int) -> bool {
    &&& 0 < e.den < 0x1_0000_0000
    &&& -0x1_0000_0000 < e.dx < 0x1_0000_0000
    &&& y < e.y_max <= i32::MAX
    &&& i32::MIN <= floor_x(e) <= i32::MAX
}

/// `<=` on integers is a total order.
pub proof fn lemma_total_int_leq()
    ensures
        total_ordering(int_leq()),
{
}

/// Moving an active edge up one scanline gives its record there.
pub proof fn lemma_edge_at_step(p: Seq<Point>, i: int, y: int)
    ensures
        advance(edge_at(p, i, y)) == edge_at(p, i, y + 1),
{
    let lo = lower(p, i);
    let hi = upper(p, i);
    let dx: int = hi.0 - lo.0;
    assert((y + 1 - lo.1) * dx == (y - lo.1) * dx + dx) by (nonlinear_arith);
}

/// The intercept of an active edge stays between the columns of its ends.
pub proof fn lemma_edge_fits(p: Seq<Point>, i: int, y: int)
    requires
        crosses(p, i, y),
    ensures
        fits(edge_at(p, i, y), y),
{
    let lo = lower(p, i);
    let hi = upper(p, i);
    let e = edge_at(p, i, y);
    let lx: int = lo.0 as int;
    let hx: int = hi.0 as int;
    let dy: int = hi.1 - lo.1;
    let dx: int = hx - lx;
    let k: int = y - lo.1;
    let q = e.num / dy;
    assert(e.num == lx * dy + k * dx);
    assert(q * dy <= e.num < q * dy + dy) by {
        vstd::arithmetic::div_mod::lemma_fundamental_div_mod(e.num, dy);
        vstd::arithmetic::div_mod::lemma_mod_bound(e.num, dy);
        assert(e.num == dy * q + e.num % dy);
        assert(dy * q == q * dy) by (nonlinear_arith);
    };
    if dx >= 0 {
        assert(lx * dy <= e.num <= hx * dy) by (nonlinear_arith)
            requires
                e.num == lx * dy + k * dx,
                0 <= k < dy,
                dx >= 0,
                hx == lx + dx,
        ;
        assert(lx <= q) by (nonlinear_arith)
            requires
                lx * dy <= e.num,
                e.num < q * dy + dy,
                dy > 0,
        ;
        assert(q <= hx) by (nonlinear_arith)
            requires
                q * dy <= e.num,
                e.num <= hx * dy,
                dy > 0,
        ;
    } else {
        assert(hx * dy <= e.num <= lx * dy) by (nonlinear_arith)
            requires
                e.num == lx * dy + k * dx,
                0 <= k < dy,
                dx < 0,
                hx == lx + dx,
        ;
        assert(hx <= q) by (nonlinear_arith)
            requires
                hx * dy <= e.num,
                e.num < q * dy + dy,
                dy > 0,
        ;
        assert(q <= lx) by (nonlinear_arith)
            requires
                q * dy <= e.num,
                e.num <= lx * dy,
                dy > 0,
        ;
    }
}

/// Every record active on `y` keeps the bounds of `fits`.
pub proof fn lemma_active_fits(p: Seq<Point>, y: int, k: int)
    ensures
        forall|e: EdgeView| active_upto(p, y, k).contains(e) ==> fits(e, y),
    decreases k,
{
    if k > 0 {
        lemma_active_fits(p, y, k - 1);
        if crosses(p, k - 1, y) {
            lemma_edge_fits(p, k - 1, y);
            let s = active_upto(p, y, k - 1);
            assert forall|e: EdgeView| s.push(edge_at(p, k - 1, y)).contains(e) implies fits(e, y) by {
                if e != edge_at(p, k - 1, y) {
                    let j = choose|j: int| 0 <= j < s.len() + 1 && #[trigger] s.push(edge_at(p, k - 1, y))[j] == e;
                    assert(s.contains(e) && s[j] == e);
                }
            };
        }
    }
}

/// With no edge active on `y`, the row has no records.
pub proof fn lemma_no_active(p: Seq<Point>, y: int, k: int)
    requires
        forall|i: int| 0 <= i < k ==> !crosses(p, i, y),
    ensures
        active_upto(p, y, k).len() == 0,
    decreases k,
{
    if k > 0 {
        lemma_no_active(p, y, k - 1);
    }
}

/// The edges active on `y` are those carried from below and those starting on `y`.
pub proof fn lemma_active_split(p: Seq<Point>, y: int, k: int)
    ensures
        active_upto(p, y, k).to_multiset() =~= carried_upto(p, y, k).to_multiset().add(
            starting_upto(p, y, k).to_multiset(),
        ),
    decreases k,
{
    if k > 0 {
        lemma_active_split(p, y, k - 1);
    }
}

/// Keeping and advancing the records of `y` gives the records carried to `y + 1`.
pub proof fn lemma_carry_up(p: Seq<Point>, y: int, k: int)
    ensures
        keep_advance(active_upto(p, y, k), y + 1) == carried_upto(p, y + 1, k),
    decreases k,
{
    if k > 0 {
        lemma_carry_up(p, y, k - 1);
        let s = active_upto(p, y, k - 1);
        if crosses(p, k - 1, y) {
            let e = edge_at(p, k - 1, y);
            assert(s.push(e).drop_last() =~= s);
            lemma_edge_at_step(p, k - 1, y);
        }
    }
}

/// The table entries keyed at `y` are the records of the edges starting on `y`.
pub proof fn lemma_table_keyed(p: Seq<Point>, y: int, k: int)
    ensures
        keyed_at(table_upto(p, k), y) == starting_upto(p, y, k),
    decreases k,
{
    if k > 0 {
        lemma_table_keyed(p, y, k - 1);
        let t = table_upto(p, k - 1);
        if !is_horizontal(p, k - 1) {
            let entry = (lower(p, k - 1).1 as int, edge_at(p, k - 1, lower(p, k - 1).1 as int));
            assert(t.push(entry).drop_last() =~= t);
        }
    }
}

/// Keeping and advancing works element by element, so it splits over concatenation.
pub proof fn lemma_keep_advance_append(a: Seq<EdgeView>, b: Seq<EdgeView>, y: int)
    ensures
        keep_advance(a + b, y) == keep_advance(a, y) + keep_advance(b, y),
    decreases b.len(),
{
    if b.len() == 0 {
        assert(a + b =~= a);
        assert(keep_advance(a, y) + keep_advance(b, y) =~= keep_advance(a, y));
    } else {
        lemma_keep_advance_append(a, b.drop_last(), y);
        assert((a + b).drop_last() =~= a + b.drop_last());
        assert((a + b).last() == b.last());
        if b.last().y_max > y {
            assert(keep_advance(a, y) + keep_advance(b.drop_last(), y).push(advance(b.last()))
                =~= (keep_advance(a, y) + keep_advance(b.drop_last(), y)).push(advance(b.last())));
        }
    }
}

/// A map from sequences to sequences that sends concatenation to concatenation
/// sends sequences with equal elements to sequences with equal elements.
pub proof fn lemma_additive_multiset<A, B>(a: Seq<A>, b: Seq<A>, g: spec_fn(Seq<A>) -> Seq<B>)
    requires
        a.to_multiset() == b.to_multiset(),
        forall|s: Seq<A>, t: Seq<A>| #[trigger] g(s + t) == g(s) + g(t),
    ensures
        g(a).to_multiset() == g(b).to_multiset(),
    decreases a.len(),
{
    if a.len() == 0 {
        to_multiset_len(a);
        to_multiset_len(b);
        assert(b.len() == 0);
        assert(a =~= b);
    } else {
        let x = a.last();
        let a1 = a.drop_last();
        assert(a.to_multiset().contains(x)) by {
            assert(a.contains(x) && a[a.len() - 1] == x);
        };
        assert(b.contains(x));
        let k = choose|k: int| 0 <= k < b.len() && b[k] == x;
        let b1 = b.remove(k);
        assert(b1.to_multiset() == b.to_multiset().remove(x));
        assert(a1.to_multiset() == a.to_multiset().remove(x)) by {
            assert(a =~= a1.push(x));
            assert(a1.push(x).to_multiset() == a1.to_multiset().insert(x));
        };
        lemma_additive_multiset(a1, b1, g);
        let single = seq![x];
        assert(a =~= a1 + single);
        let lo = b.subrange(0, k);
        let hi = b.subrange(k + 1, b.len() as int);
        assert(b =~= lo + (single + hi));
        assert(b1 =~= lo + hi);
        assert(g(a) == g(a1) + g(single));
        assert(g(b) == g(lo) + (g(single) + g(hi)));
        assert(g(b1) == g(lo) + g(hi));
        lemma_multiset_commutative(g(a1), g(single));
        lemma_multiset_commutative(g(lo), g(single) + g(hi));
        lemma_multiset_commutative(g(single), g(hi));
        lemma_multiset_commutative(g(lo), g(hi));
        assert(g(b).to_multiset() =~= g(b1).to_multiset().add(g(single).to_multiset()));
    }
}

/// Equal elements stay equal elements after keeping and advancing.
pub proof fn lemma_keep_advance_multiset(a: Seq<EdgeView>, b: Seq<EdgeView>, y: int)
    requires
        a.to_multiset() == b.to_multiset(),
    ensures
        keep_advance(a, y).to_multiset() == keep_advance(b, y).to_multiset(),
{
    let g = |s: Seq<EdgeView>| keep_advance(s, y);
    assert forall|s: Seq<EdgeView>, t: Seq<EdgeView>| #[trigger] g(s + t) == g(s) + g(t) by {
        lemma_keep_advance_append(s, t, y);
    };
    lemma_additive_multiset(a, b, g);
}

/// Equal elements give equal intercept columns.
pub proof fn lemma_floor_multiset(a: Seq<EdgeView>, b: Seq<EdgeView>)
    requires
        a.to_multiset() == b.to_multiset(),
    ensures
        a.map_values(|e: EdgeView| floor_x(e)).to_multiset() == b.map_values(
            |e: EdgeView| floor_x(e),
        ).to_multiset(),
{
    let g = |s: Seq<EdgeView>| s.map_values(|e: EdgeView| floor_x(e));
    assert forall|s: Seq<EdgeView>, t: Seq<EdgeView>| #[trigger] g(s + t) == g(s) + g(t) by {
        assert((s + t).map_values(|e: EdgeView| floor_x(e)) =~= s.map_values(|e: EdgeView| floor_x(e))
            + t.map_values(|e: EdgeView| floor_x(e)));
    };
    lemma_additive_multiset(a, b, g);
}

/// Picking the records at a key splits over concatenation.
pub proof fn lemma_keyed_append(a: Seq<(int, EdgeView)>, b: Seq<(int, EdgeView)>, y: int)
    ensures
        keyed_at(a + b, y) == keyed_at(a, y) + keyed_at(b, y),
    decreases b.len(),
{
    if b.len() == 0 {
        assert(a + b =~= a);
        assert(keyed_at(a, y) + keyed_at(b, y) =~= keyed_at(a, y));
    } else {
        lemma_keyed_append(a, b.drop_last(), y);
        assert((a + b).drop_last() =~= a + b.drop_last());
        assert((a + b).last() == b.last());
        if b.last().0 == y {
            assert(keyed_at(a, y) + keyed_at(b.drop_last(), y).push(b.last().1) =~= (keyed_at(a, y)
                + keyed_at(b.drop_last(), y)).push(b.last().1));
        }
    }
}

/// Tables with equal entries have equal records at each key.
pub proof fn lemma_keyed_multiset(a: Seq<(int, EdgeView)>, b: Seq<(int, EdgeView)>, y: int)
    requires
        a.to_multiset() == b.to_multiset(),
    ensures
        keyed_at(a, y).to_multiset() == keyed_at(b, y).to_multiset(),
{
    let g = |s: Seq<(int, EdgeView)>| keyed_at(s, y);
    assert forall|s: Seq<(int, EdgeView)>, t: Seq<(int, EdgeView)>| #[trigger] g(s + t) == g(s) + g(t) by {
        lemma_keyed_append(s, t, y);
    };
    lemma_additive_multiset(a, b, g);
}

/// A table with no entry at key `y` has no records there.
pub proof fn lemma_keyed_none(t: Seq<(int, EdgeView)>, y: int)
    requires
        forall|j: int| 0 <= j < t.len() ==> (#[trigger] t[j]).0 != y,
    ensures
        keyed_at(t, y).len() == 0,
    decreases t.len(),
{
    if t.len() > 0 {
        lemma_keyed_none(t.drop_last(), y);
    }
}

/// A table whose entries all sit at key `y` has all its records there, in order.
pub proof fn lemma_keyed_all(t: Seq<(int, EdgeView)>, y: int)
    requires
        forall|j: int| 0 <= j < t.len() ==> (#[trigger] t[j]).0 == y,
    ensures
        keyed_at(t, y) == t.map_values(|e: (int, EdgeView)| e.1),
    decreases t.len(),
{
    if t.len() > 0 {
        lemma_keyed_all(t.drop_last(), y);
        assert(t.map_values(|e: (int, EdgeView)| e.1) =~= t.drop_last().map_values(
            |e: (int, EdgeView)| e.1,
        ).push(t.last().1));
    } else {
        assert(t.map_values(|e: (int, EdgeView)| e.1) =~= Seq::<EdgeView>::empty());
    }
}

/// Each edge that is not horizontal has its entry in the table.
pub proof fn lemma_table_has(p: Seq<Point>, k: int, i: int)
    requires
        0 <= i < k,
        !is_horizontal(p, i),
    ensures
        table_upto(p, k).contains((lower(p, i).1 as int, edge_at(p, i, lower(p, i).1 as int))),
    decreases k,
{
    let t = table_upto(p, k - 1);
    if i < k - 1 {
        lemma_table_has(p, k - 1, i);
        if !is_horizontal(p, k - 1) {
            let e = (lower(p, i).1 as int, edge_at(p, i, lower(p, i).1 as int));
            let j = choose|j: int| 0 <= j < t.len() && t[j] == e;
            assert(table_upto(p, k)[j] == e);
        }
    } else {
        assert(table_upto(p, k).last() == (lower(p, i).1 as int, edge_at(p, i, lower(p, i).1 as int)));
    }
}

/// Every table entry is keyed at the lower end of an edge, below that edge's upper end.
pub proof fn lemma_table_keys(p: Seq<Point>, k: int, top: int)
    requires
        forall|i: int| 0 <= i < k && !is_horizontal(p, i) ==> #[trigger] upper(p, i).1 <= top,
    ensures
        forall|j: int|
            0 <= j < table_upto(p, k).len() ==> i32::MIN <= #[trigger] table_upto(p, k)[j].0 < top,
    decreases k,
{
    if k > 0 {
        lemma_table_keys(p, k - 1, top);
        let t = table_upto(p, k - 1);
        if !is_horizontal(p, k - 1) {
            assert(upper(p, k - 1).1 <= top);
            let e = (lower(p, k - 1).1 as int, edge_at(p, k - 1, lower(p, k - 1).1 as int));
            assert forall|j: int| 0 <= j < t.push(e).len() implies i32::MIN <= #[trigger] t.push(e)[j].0 < top by {
                if j < t.len() {
                    assert(t.push(e)[j] == t[j]);
                }
            };
        }
    }
}

/// Edges carried to `y` end above `y`.
pub proof fn lemma_carried_below_top(p: Seq<Point>, y: int, k: int, top: int)
    requires
        forall|i: int| 0 <= i < k && !is_horizontal(p, i) ==> #[trigger] upper(p, i).1 <= top,
        carried_upto(p, y, k).len() > 0,
    ensures
        y < top,
    decreases k,
{
    if k > 0 && !(lower(p, k - 1).1 < y < upper(p, k - 1).1) {
        lemma_carried_below_top(p, y, k - 1, top);
    } else if k > 0 {
        assert(upper(p, k - 1).1 <= top);
    }
}

/// With nothing carried to `y`, no edge reaches from below `y` to above it.
pub proof fn lemma_carried_empty(p: Seq<Point>, y: int, k: int)
    requires
        carried_upto(p, y, k).len() == 0,
    ensures
        forall|i: int| 0 <= i < k ==> !(lower(p, i).1 < y < #[trigger] upper(p, i).1),
    decreases k,
{
    if k > 0 {
        lemma_carried_empty(p, y, k - 1);
    }
}

} // verus!
