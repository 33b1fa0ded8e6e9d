use vstd::prelude::*;
use vstd::seq_lib::*;
use vstd::multiset::*;
use vstd::arithmetic::div_mod::{lemma_fundamental_div_mod, lemma_fundamental_div_mod_converse, lemma_mod_bound};
use crate::model::{edge_at, floor_x, advance, is_horizontal, lower, upper, edge_from, edge_to, EdgeView, Point};

verus! {

broadcast use {group_to_multiset_ensures, group_multiset_axioms};

/// An edge record of the active edge list. Its intercept with the current scanline is
/// exactly `x + rem / den`; each scanline up adds `step + step_rem / den`.
#[derive(Clone, Copy)]
pub struct ActiveEdge {
    pub y_max: i64,
    pub x: i64,
    pub rem: i64,
    pub den: i64,
    pub step: i64,
    pub step_rem: i64,
}

impl View for ActiveEdge {
    type V = EdgeView;

    open spec fn view(&self) -> EdgeView {
        EdgeView {
            y_max: self.y_max as int,
            num: self.x * self.den + self.rem,
            den: self.den as int,
            dx: self.step * self.den + self.step_rem,
        }
    }
}

impl ActiveEdge {
    /// The fractional parts are proper fractions of a positive height.
    pub open spec fn wf(&self) -> bool {
        &&& 0 < self.den < 0x1_0000_0000
        &&& 0 <= self.rem < self.den
        &&& 0 <= self.step_rem < self.den
        &&& -0x1_0000_0000 <= self.step <= 0x1_0000_0000
    }
}

/// What each record stands for, in order.
pub open spec fn views(s: Seq<ActiveEdge>) -> Seq<EdgeView> {
    s.map_values(|r: ActiveEdge| r@)
}

/// The whole part of a record's intercept is its column.
pub proof fn lemma_floor_is_x(r: ActiveEdge)
    requires
        r.wf(),
    ensures
        floor_x(r@) == r.x,
{
    assert(r.x * r.den == r.x as int * r.den as int);
    lemma_fundamental_div_mod_converse(r@.num, r.den as int, r.x as int, r.rem as int);
}

/// Splits `dx / dy` into a whole part rounded down and a remainder.
fn split_step(dx: i64, dy: i64) -> (r: (i64, i64))
    requires
        0 < dy < 0x1_0000_0000,
        -0x1_0000_0000 < dx < 0x1_0000_0000,
    ensures
        r.0 * dy + r.1 == dx,
        0 <= r.1 < dy,
        -0x1_0000_0000 <= r.0 <= 0x1_0000_0000,
{
    let d = dy as u64;
    if dx >= 0 {
        let a = dx as u64;
        let q = a / d;
        let m = a % d;
        proof {
            lemma_fundamental_div_mod(a as int, d as int);
            lemma_mod_bound(a as int, d as int);
            assert(q * d <= a) by (nonlinear_arith)
                requires
                    a == d * q + m,
                    m >= 0,
            ;
            assert(q <= a) by (nonlinear_arith)
                requires
                    q * d <= a,
                    d >= 1,
                    q >= 0,
            ;
        }
        (q as i64, m as i64)
    } else {
        let a = (-dx) as u64;
        let q = a / d;
        let m = a % d;
        proof {
            lemma_fundamental_div_mod(a as int, d as int);
            lemma_mod_bound(a as int, d as int);
            assert(q * d <= a) by (nonlinear_arith)
                requires
                    a == d * q + m,
                    m >= 0,
            ;
            assert(q <= a) by (nonlinear_arith)
                requires
                    q * d <= a,
                    d >= 1,
                    q >= 0,
            ;
        }
        if m == 0 {
            proof {
                assert((-(q as int)) * d == -(d * q)) by (nonlinear_arith);
            }
            (-(q as i64), 0)
        } else {
            proof {
                assert((-(q as int) - 1) * d == -(d * q) - d) by (nonlinear_arith);
            }
            (-(q as i64) - 1, dy - m as i64)
        }
    }
}

/// The edge table entry of edge `i`: its lower y, and its record on that scanline.
pub fn edge_entry(polygon: &[Point], i: usize) -> (r: (i64, ActiveEdge))
    requires
        i < polygon@.len(),
        !is_horizontal(polygon@, i as int),
    ensures
        r.0 == lower(polygon@, i as int).1,
        r.1.wf(),
        r.1@ == edge_at(polygon@, i as int, lower(polygon@, i as int).1 as int),
{
    let p1 = polygon[i];
    let p2 = polygon[(i + 1) % polygon.len()];
    proof {
        assert(p1 == edge_from(polygon@, i as int));
        assert(p2 == edge_to(polygon@, i as int));
    }
    let (lo, hi) = if p1.1 < p2.1 {
        (p1, p2)
    } else {
        (p2, p1)
    };
    let dy: i64 = hi.1 as i64 - lo.1 as i64;
    let dx: i64 = hi.0 as i64 - lo.0 as i64;
    let (step, step_rem) = split_step(dx, dy);
    let rec = ActiveEdge { y_max: hi.1 as i64, x: lo.0 as i64, rem: 0, den: dy, step, step_rem };
    proof {
        assert(upper(polygon@, i as int) == hi);
        assert(rec@.num == lo.0 * dy + 0 * dx);
    }
    (lo.1 as i64, rec)
}

/// The record one scanline up.
pub fn advanced(r: &ActiveEdge) -> (s: ActiveEdge)
    requires
        r.wf(),
        i32::MIN <= r.x <= i32::MAX,
    ensures
        s.wf(),
        s@ == advance(r@),
{
    let d = r.den;
    let mut x = r.x + r.step;
    let mut rem = r.rem + r.step_rem;
    if rem >= d {
        proof {
            assert((r.x + r.step + 1) * d == r.x * d + r.step * d + d) by (nonlinear_arith);
        }
        x = x + 1;
        rem = rem - d;
    } else {
        proof {
            assert((r.x + r.step) * d == r.x * d + r.step * d) by (nonlinear_arith);
        }
    }
    ActiveEdge { y_max: r.y_max, x, rem, den: d, step: r.step, step_rem: r.step_rem }
}

/// Inserting anywhere in a sequence adds one element to its multiset.
pub proof fn lemma_insert_multiset<A>(s: Seq<A>, k: int, a: A)
    requires
        0 <= k <= s.len(),
    ensures
        s.insert(k, a).to_multiset() == s.to_multiset().insert(a),
{
    let lo = s.subrange(0, k);
    let hi = s.subrange(k, s.len() as int);
    assert(s =~= lo + hi);
    assert(s.insert(k, a) =~= lo + (seq![a] + hi));
    lemma_multiset_commutative(lo, hi);
    lemma_multiset_commutative(lo, seq![a] + hi);
    lemma_multiset_commutative(seq![a], hi);
    assert(seq![a].to_multiset() =~= Multiset::empty().insert(a)) by {
        assert(seq![a] =~= Seq::<A>::empty().push(a));
    };
}

/// Orders the records by column, ascending; equal columns in no promised order.
pub fn sort_by_column(v: Vec<ActiveEdge>) -> (out: Vec<ActiveEdge>)
    requires
        forall|k: int| 0 <= k < v@.len() ==> (#[trigger] v@[k]).wf(),
    ensures
        views(out@).to_multiset() == views(v@).to_multiset(),
        forall|k: int| 0 <= k < out@.len() ==> (#[trigger] out@[k]).wf(),
        forall|a: int, b: int| 0 <= a < b < out@.len() ==> out@[a].x <= out@[b].x,
{
    let mut out: Vec<ActiveEdge> = Vec::new();
    let mut k: usize = 0;
    while k < v.len()
        invariant
            k <= v@.len(),
            forall|j: int| 0 <= j < v@.len() ==> (#[trigger] v@[j]).wf(),
            views(out@).to_multiset() == views(v@.subrange(0, k as int)).to_multiset(),
            forall|j: int| 0 <= j < out@.len() ==> (#[trigger] out@[j]).wf(),
            forall|a: int, b: int| 0 <= a < b < out@.len() ==> out@[a].x <= out@[b].x,
        decreases v@.len() - k,
    {
        let e = v[k];
        let mut pos: usize = out.len();
        while pos > 0 && out[pos - 1].x > e.x
            invariant
                pos <= out@.len(),
                forall|j: int| pos <= j < out@.len() ==> out@[j].x > e.x,
            decreases pos,
        {
            pos = pos - 1;
        }
        proof {
            assert(views(out@.insert(pos as int, e)) =~= views(out@).insert(pos as int, e@));
            lemma_insert_multiset(views(out@), pos as int, e@);
            assert(views(v@.subrange(0, k + 1)) =~= views(v@.subrange(0, k as int)).push(e@));
        }
        out.insert(pos, e);
        k = k + 1;
    }
    proof {
        assert(v@.subrange(0, v@.len() as int) =~= v@);
    }
    out
}

/// Sets the cells of `row` from column `lo` to column `hi`, both included, that lie in it.
pub fn fill_span(row: &mut Vec<bool>, lo: i64, hi: i64)
    requires
        i32::MIN <= lo <= i32::MAX,
        i32::MIN <= hi <= i32::MAX,
    ensures
        final(row)@.len() == old(row)@.len(),
        forall|x: int|
            0 <= x < old(row)@.len() ==> #[trigger] final(row)@[x] == (old(row)@[x] || (lo <= x
                <= hi)),
{
    if hi < 0 || lo > hi {
        return;
    }
    let start: usize = if lo < 0 {
        0
    } else {
        lo as usize
    };
    let last = hi as usize;
    let end: usize = if last >= row.len() {
        row.len()
    } else {
        last + 1
    };
    let mut x: usize = start;
    while x < end
        invariant
            row@.len() == old(row)@.len(),
            start <= x,
            end <= row@.len(),
            start == (if lo < 0 { 0 } else { lo as int }),
            end == (if hi as int >= row@.len() { row@.len() as int } else { hi + 1 }),
            forall|c: int|
                0 <= c < old(row)@.len() ==> #[trigger] row@[c] == (old(row)@[c] || (start <= c
                    < x && c < end)),
        decreases end - x,
    {
        row.set(x, true);
        x = x + 1;
    }
}

} // verus!
