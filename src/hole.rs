use vstd::prelude::*;
use crate::model::{covered, filled_from, punched_from, Point};
use crate::raster::fill_polygon;

verus! {

/// A row of `len` cleared cells.
pub fn blank_row(len: usize) -> (r: Vec<bool>)
    ensures
        r@.len() == len,
        forall|x: int| 0 <= x < len ==> !(#[trigger] r@[x]),
{
    let mut r: Vec<bool> = Vec::new();
    let mut i: usize = 0;
    while i < len
        invariant
            i <= len,
            r@.len() == i,
            forall|x: int| 0 <= x < i ==> !(#[trigger] r@[x]),
        decreases len - i,
    {
        r.push(false);
        i = i + 1;
    }
    r
}

/// A grid of cleared cells with the shape of `pixels`.
pub open spec fn blank_like(pixels: Seq<Vec<bool>>, scratch: Seq<Vec<bool>>) -> bool {
    &&& scratch.len() == pixels.len()
    &&& forall|y: int| 0 <= y < pixels.len() ==> #[trigger] scratch[y]@.len() == pixels[y]@.len()
    &&& forall|y: int, x: int|
        0 <= y < pixels.len() && 0 <= x < pixels[y]@.len() ==> !(#[trigger] scratch[y]@[x])
}

/// A grid of cleared cells with the shape of `pixels`.
pub fn blank_grid(pixels: &Vec<Vec<bool>>) -> (r: Vec<Vec<bool>>)
    ensures
        blank_like(pixels@, r@),
{
    let mut r: Vec<Vec<bool>> = Vec::new();
    let mut y: usize = 0;
    while y < pixels.len()
        invariant
            y <= pixels@.len(),
            r@.len() == y,
            forall|j: int| 0 <= j < y ==> #[trigger] r@[j]@.len() == pixels@[j]@.len(),
            forall|j: int, x: int| 0 <= j < y && 0 <= x < pixels@[j]@.len() ==> !(#[trigger] r@[j]@[x]),
        decreases pixels@.len() - y,
    {
        let row = blank_row(pixels[y].len());
        r.push(row);
        y = y + 1;
    }
    r
}

/// Cuts the polygon out of `pixels`: the polygon is filled into a cleared grid of the
/// same shape, and every cell set there is cleared here. Other cells keep their value.
/// A polygon of fewer than three vertices cuts nothing.
pub fn create_hole(polygon: &[Point], pixels: &mut Vec<Vec<bool>>)
    ensures
        punched_from(old(pixels)@, final(pixels)@, polygon@),
{
    let ghost before = pixels@;
    if polygon.len() < 3 {
        return;
    }
    let mut scratch = blank_grid(pixels);
    let ghost blank = scratch@;
    fill_polygon(polygon, &mut scratch);
    assert(filled_from(blank, scratch@, polygon@));
    let mut y: usize = 0;
    while y < pixels.len()
        invariant
            y <= pixels@.len(),
            pixels@.len() == before.len(),
            blank_like(before, blank),
            filled_from(blank, scratch@, polygon@),
            forall|r: int| 0 <= r < before.len() ==> #[trigger] pixels@[r]@.len() == before[r]@.len(),
            forall|r: int, x: int|
                0 <= r < before.len() && 0 <= x < before[r]@.len() ==> #[trigger] pixels@[r]@[x] == (
                if r < y {
                    before[r]@[x] && !covered(polygon@, r, x)
                } else {
                    before[r]@[x]
                }),
        decreases pixels@.len() - y,
    {
        let mut row: Vec<bool> = Vec::new();
        std::mem::swap(&mut row, &mut pixels[y]);
        let ghost orig = row@;
        let mut x: usize = 0;
        while x < row.len()
            invariant
                x <= row@.len(),
                row@.len() == orig.len(),
                orig == before[y as int]@,
                y < before.len(),
                blank_like(before, blank),
                filled_from(blank, scratch@, polygon@),
                forall|c: int|
                    0 <= c < orig.len() ==> #[trigger] row@[c] == (if c < x {
                        orig[c] && !covered(polygon@, y as int, c)
                    } else {
                        orig[c]
                    }),
            decreases row@.len() - x,
        {
            if scratch[y][x] {
                row.set(x, false);
            }
            x = x + 1;
        }
        pixels.set(y, row);
        y = y + 1;
    }
}

} // verus!
