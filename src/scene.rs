use vstd::prelude::*;
use crate::model::{covered, filled_from, punched_from, Point};
use crate::raster::fill_polygon;
use crate::hole::{blank_row, create_hole};

verus! {

pub const SCENE_WIDTH: usize = 800;

pub const SCENE_HEIGHT: usize = 600;

pub open spec fn star() -> Seq<Point> {
    seq![
        (165, 380), (185, 360), (180, 330), (207, 345), (233, 330),
        (230, 360), (250, 380), (220, 385), (205, 410), (193, 383),
    ]
}

pub open spec fn quad() -> Seq<Point> {
    seq![(321, 335), (288, 286), (339, 251), (374, 302)]
}

pub open spec fn triangle() -> Seq<Point> {
    seq![(377, 249), (411, 197), (436, 249)]
}

pub open spec fn outline() -> Seq<Point> {
    seq![
        (413, 177), (448, 159), (502, 88), (553, 53), (535, 36),
        (676, 37), (660, 52), (750, 145), (761, 179), (672, 192),
        (659, 214), (615, 214), (632, 230), (580, 230), (597, 215),
        (552, 214), (517, 144), (466, 180),
    ]
}

/// The part cut out of `outline`.
pub open spec fn cutout() -> Seq<Point> {
    seq![(682, 175), (708, 120), (735, 148), (739, 170)]
}

/// A cell of the scene is set when one of the four filled shapes covers it and the
/// cut-out does not.
pub open spec fn scene_cell(y: int, x: int) -> bool {
    (covered(star(), y, x) || covered(quad(), y, x) || covered(triangle(), y, x) || covered(
        outline(),
        y,
        x,
    )) && !covered(cutout(), y, x)
}

/// Draws the sample scene on an 800 by 600 grid: four filled shapes, then a part cut
/// out of the last one.
pub fn draw_polygons() -> (canvas: Vec<Vec<bool>>)
    ensures
        canvas@.len() == SCENE_HEIGHT,
        forall|y: int| 0 <= y < SCENE_HEIGHT ==> #[trigger] canvas@[y]@.len() == SCENE_WIDTH,
        forall|y: int, x: int|
            0 <= y < SCENE_HEIGHT && 0 <= x < SCENE_WIDTH ==> #[trigger] canvas@[y]@[x] == scene_cell(y, x),
{
    let mut canvas: Vec<Vec<bool>> = Vec::new();
    let mut y: usize = 0;
    while y < SCENE_HEIGHT
        invariant
            y <= SCENE_HEIGHT,
            canvas@.len() == y,
            forall|j: int| 0 <= j < y ==> #[trigger] canvas@[j]@.len() == SCENE_WIDTH,
            forall|j: int, x: int| 0 <= j < y && 0 <= x < SCENE_WIDTH ==> !(#[trigger] canvas@[j]@[x]),
        decreases SCENE_HEIGHT - y,
    {
        canvas.push(blank_row(SCENE_WIDTH));
        y = y + 1;
    }
    let polygon1: Vec<Point> = vec![
        (165, 380), (185, 360), (180, 330), (207, 345), (233, 330),
        (230, 360), (250, 380), (220, 385), (205, 410), (193, 383),
    ];
    let polygon2: Vec<Point> = vec![(321, 335), (288, 286), (339, 251), (374, 302)];
    let polygon3: Vec<Point> = vec![(377, 249), (411, 197), (436, 249)];
    let polygon4: Vec<Point> = vec![
        (413, 177), (448, 159), (502, 88), (553, 53), (535, 36),
        (676, 37), (660, 52), (750, 145), (761, 179), (672, 192),
        (659, 214), (615, 214), (632, 230), (580, 230), (597, 215),
        (552, 214), (517, 144), (466, 180),
    ];
    let polygon5: Vec<Point> = vec![(682, 175), (708, 120), (735, 148), (739, 170)];
    proof {
        assert(polygon1@ =~= star());
        assert(polygon2@ =~= quad());
        assert(polygon3@ =~= triangle());
        assert(polygon4@ =~= outline());
        assert(polygon5@ =~= cutout());
    }
    let ghost g0 = canvas@;
    fill_polygon(polygon1.as_slice(), &mut canvas);
    let ghost g1 = canvas@;
    fill_polygon(polygon2.as_slice(), &mut canvas);
    let ghost g2 = canvas@;
    fill_polygon(polygon3.as_slice(), &mut canvas);
    let ghost g3 = canvas@;
    fill_polygon(polygon4.as_slice(), &mut canvas);
    let ghost g4 = canvas@;
    create_hole(polygon5.as_slice(), &mut canvas);
    proof {
        assert(filled_from(g0, g1, star()));
        assert(filled_from(g1, g2, quad()));
        assert(filled_from(g2, g3, triangle()));
        assert(filled_from(g3, g4, outline()));
        assert(punched_from(g4, canvas@, cutout()));
        assert forall|y: int, x: int|
            0 <= y < SCENE_HEIGHT && 0 <= x < SCENE_WIDTH implies #[trigger] canvas@[y]@[x] == scene_cell(y, x) by {
            assert(!g0[y]@[x]);
            assert(g1[y]@[x] == (g0[y]@[x] || covered(star(), y, x)));
            assert(g2[y]@[x] == (g1[y]@[x] || covered(quad(), y, x)));
            assert(g3[y]@[x] == (g2[y]@[x] || covered(triangle(), y, x)));
            assert(g4[y]@[x] == (g3[y]@[x] || covered(outline(), y, x)));
        };
    }
    canvas
}

} // verus!
