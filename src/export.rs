use vstd::prelude::*;
use vstd::arithmetic::div_mod::lemma_fundamental_div_mod_converse;

verus! {

/// The width of a grid: the length of its first row, or 0 when it has none.
pub open spec fn grid_width(pixels: Seq<Vec<bool>>) -> int {
    if pixels.len() == 0 {
        0
    } else {
        pixels[0]@.len() as int
    }
}

/// Byte `i` of the RGB image of a grid of width `w`. Image row `r` shows grid row
/// `height - 1 - r`, so that the largest y is at the top; a set cell is black, a
/// cleared one white, in all three channels.
pub open spec fn rgb_byte(pixels: Seq<Vec<bool>>, w: int, i: int) -> u8 {
    let cell = i / 3;
    if pixels[pixels.len() - 1 - cell / w]@[cell % w] {
        0
    } else {
        255
    }
}

/// The RGB image of a rectangular grid, three bytes per cell, row by row from the
/// highest grid row down.
pub fn rgb_buffer(pixels: &Vec<Vec<bool>>) -> (buf: Vec<u8>)
    requires
        forall|y: int| 0 <= y < pixels@.len() ==> (#[trigger] pixels@[y])@.len() == grid_width(pixels@),
    ensures
        buf@.len() == 3 * grid_width(pixels@) * pixels@.len(),
        forall|i: int| 0 <= i < buf@.len() ==> #[trigger] buf@[i] == rgb_byte(pixels@, grid_width(pixels@), i),
{
    let h = pixels.len();
    let mut buf: Vec<u8> = Vec::new();
    if h == 0 {
        return buf;
    }
    let w = pixels[0].len();
    let ghost wi = w as int;
    let mut y: usize = 0;
    while y < h
        invariant
            h == pixels@.len(),
            w == grid_width(pixels@),
            wi == w,
            y <= h,
            forall|r: int| 0 <= r < pixels@.len() ==> (#[trigger] pixels@[r])@.len() == w,
            buf@.len() == 3 * (y * wi),
            forall|i: int| 0 <= i < buf@.len() ==> #[trigger] buf@[i] == rgb_byte(pixels@, wi, i),
        decreases h - y,
    {
        let src = &pixels[h - 1 - y];
        let mut x: usize = 0;
        while x < w
            invariant
                h == pixels@.len(),
                wi == w,
                y < h,
                x <= w,
                src@ == pixels@[h - 1 - y]@,
                src@.len() == w,
                buf@.len() == 3 * (y * wi + x),
                forall|i: int| 0 <= i < buf@.len() ==> #[trigger] buf@[i] == rgb_byte(pixels@, wi, i),
            decreases w - x,
        {
            let v: u8 = if src[x] {
                0
            } else {
                255
            };
            let ghost cell = y * wi + x;
            proof {
                lemma_fundamental_div_mod_converse(cell, wi, y as int, x as int);
                lemma_fundamental_div_mod_converse(3 * cell + 0, 3, cell, 0);
                lemma_fundamental_div_mod_converse(3 * cell + 1, 3, cell, 1);
                lemma_fundamental_div_mod_converse(3 * cell + 2, 3, cell, 2);
                assert(rgb_byte(pixels@, wi, 3 * cell + 0) == v);
                assert(rgb_byte(pixels@, wi, 3 * cell + 1) == v);
                assert(rgb_byte(pixels@, wi, 3 * cell + 2) == v);
            }
            buf.push(v);
            buf.push(v);
            buf.push(v);
            x = x + 1;
        }
        proof {
            assert(y * wi + wi == (y + 1) * wi) by (nonlinear_arith);
        }
        y = y + 1;
    }
    proof {
        assert(3 * (h * wi) == 3 * wi * h) by (nonlinear_arith);
    }
    buf
}

} // verus!
