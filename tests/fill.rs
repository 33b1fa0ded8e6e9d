use scanline_fill::{create_hole, draw_polygons, fill_polygon, rgb_buffer, Point};

fn grid(w: usize, h: usize) -> Vec<Vec<bool>> {
    vec![vec![false; w]; h]
}

fn row_cols(g: &Vec<Vec<bool>>, y: usize) -> Vec<usize> {
    (0..g[y].len()).filter(|&x| g[y][x]).collect()
}

#[test]
fn triangle_scenario() {
    let tri: Vec<Point> = vec![(0, 0), (4, 0), (0, 4)];
    let mut g = grid(5, 5);
    fill_polygon(&tri, &mut g);
    assert_eq!(row_cols(&g, 0), vec![0, 1, 2, 3, 4]);
    assert_eq!(row_cols(&g, 1), vec![0, 1, 2, 3]);
    assert_eq!(row_cols(&g, 2), vec![0, 1, 2]);
    assert_eq!(row_cols(&g, 3), vec![0, 1]);
    assert_eq!(row_cols(&g, 4), Vec::<usize>::new());
    for y in 1..5 {
        assert!(row_cols(&g, y).len() < row_cols(&g, y - 1).len());
    }
}

#[test]
fn square_with_hole() {
    let square: Vec<Point> = vec![(0, 0), (10, 0), (10, 10), (0, 10)];
    let inner: Vec<Point> = vec![(3, 3), (7, 3), (7, 7), (3, 7)];
    let mut g = grid(10, 10);
    fill_polygon(&square, &mut g);
    for y in 0..10 {
        for x in 0..10 {
            assert!(g[y][x]);
        }
    }
    create_hole(&inner, &mut g);
    for y in 0..10 {
        for x in 0..10 {
            let in_hole = (3..=6).contains(&y) && (3..=7).contains(&x);
            assert_eq!(g[y][x], !in_hole, "cell ({}, {})", x, y);
        }
    }
}

#[test]
fn too_few_vertices_change_nothing() {
    let mut g = grid(6, 6);
    g[2][3] = true;
    let before = g.clone();
    fill_polygon(&[], &mut g);
    fill_polygon(&[(0, 0)], &mut g);
    fill_polygon(&[(0, 0), (5, 5)], &mut g);
    assert_eq!(g, before);
    create_hole(&[(0, 0), (5, 5)], &mut g);
    assert_eq!(g, before);
}

#[test]
fn flat_polygon_fills_nothing() {
    let mut g = grid(8, 8);
    fill_polygon(&[(1, 2), (6, 2), (3, 2), (0, 2)], &mut g);
    assert_eq!(g, grid(8, 8));
}

#[test]
fn convex_rows_are_single_runs() {
    let diamond: Vec<Point> = vec![(5, 0), (9, 5), (5, 9), (1, 5)];
    let mut g = grid(12, 12);
    fill_polygon(&diamond, &mut g);
    for y in 0..12 {
        let cols = row_cols(&g, y);
        for w in cols.windows(2) {
            assert_eq!(w[1], w[0] + 1, "row {} is not one run", y);
        }
    }
    assert_eq!(row_cols(&g, 0), vec![5]);
    assert_eq!(row_cols(&g, 5), vec![1, 2, 3, 4, 5, 6, 7, 8, 9]);
    assert_eq!(row_cols(&g, 9), Vec::<usize>::new());
}

#[test]
fn fill_twice_is_fill_once() {
    let shape: Vec<Point> = vec![(1, 1), (8, 2), (6, 7), (3, 5), (2, 8)];
    let mut once = grid(10, 10);
    fill_polygon(&shape, &mut once);
    let mut twice = once.clone();
    fill_polygon(&shape, &mut twice);
    assert_eq!(once, twice);
}

#[test]
fn hole_is_subtraction() {
    let shape: Vec<Point> = vec![(2, 1), (9, 4), (4, 8)];
    let mut g = grid(10, 10);
    for y in 0..10 {
        for x in 0..10 {
            g[y][x] = (x + y) % 3 != 0;
        }
    }
    let before = g.clone();
    let mut scratch = grid(10, 10);
    fill_polygon(&shape, &mut scratch);
    assert!(scratch.iter().flatten().any(|&c| c));
    create_hole(&shape, &mut g);
    for y in 0..10 {
        for x in 0..10 {
            assert_eq!(g[y][x], before[y][x] && !scratch[y][x]);
        }
    }
}

#[test]
fn out_of_bounds_polygon_is_clipped() {
    let mut g = grid(6, 4);
    fill_polygon(&[(-5, -5), (20, -5), (20, 20), (-5, 20)], &mut g);
    assert_eq!(g.len(), 4);
    assert!(g.iter().all(|r| r.len() == 6 && r.iter().all(|&c| c)));

    let mut h = grid(6, 4);
    fill_polygon(&[(100, 100), (110, 100), (105, 110)], &mut h);
    fill_polygon(&[(-30, -30), (-10, -30), (-20, -10)], &mut h);
    assert_eq!(h, grid(6, 4));
}

#[test]
fn partly_outside_polygon_sets_only_inside_cells() {
    let mut g = grid(4, 4);
    fill_polygon(&[(-2, 1), (2, 1), (2, 3), (-2, 3)], &mut g);
    assert_eq!(row_cols(&g, 0), Vec::<usize>::new());
    assert_eq!(row_cols(&g, 1), vec![0, 1, 2]);
    assert_eq!(row_cols(&g, 2), vec![0, 1, 2]);
    assert_eq!(row_cols(&g, 3), Vec::<usize>::new());
}

#[test]
fn empty_grid_is_left_alone() {
    let mut g: Vec<Vec<bool>> = Vec::new();
    fill_polygon(&[(0, 0), (3, 0), (0, 3)], &mut g);
    create_hole(&[(0, 0), (3, 0), (0, 3)], &mut g);
    assert!(g.is_empty());
}

#[test]
fn sloped_edges_round_down() {
    // Left edge from (0,0) to (3,6): x = y / 2; right edge x = 6.
    let mut g = grid(8, 7);
    fill_polygon(&[(0, 0), (6, 0), (6, 6), (3, 6)], &mut g);
    assert_eq!(row_cols(&g, 1), vec![0, 1, 2, 3, 4, 5, 6]);
    assert_eq!(row_cols(&g, 3), vec![1, 2, 3, 4, 5, 6]);
    assert_eq!(row_cols(&g, 5), vec![2, 3, 4, 5, 6]);
    assert_eq!(row_cols(&g, 6), Vec::<usize>::new());
}

#[test]
fn negative_crossings_round_down() {
    // On row 1 the right edge crosses at x = -0.5, which rounds down to -1:
    // the span ends left of the grid and sets nothing.
    let mut g = grid(4, 3);
    fill_polygon(&[(-4, 0), (0, 0), (-1, 2), (-4, 2)], &mut g);
    assert_eq!(row_cols(&g, 0), vec![0]);
    assert_eq!(row_cols(&g, 1), Vec::<usize>::new());
    assert_eq!(row_cols(&g, 2), Vec::<usize>::new());
}

#[test]
fn scene_has_its_shapes_and_cutout() {
    let c = draw_polygons();
    assert_eq!(c.len(), 600);
    assert!(c.iter().all(|r| r.len() == 800));
    // Row 220 through the small triangle: crossings at 395.96 and 422.06.
    assert!(!c[220][394]);
    assert!(c[220][395]);
    assert!(c[220][422]);
    assert!(!c[220][423]);
    // Row 150 through the cut-out: crossings at 693.8 and 735.4.
    for x in 693..=735 {
        assert!(!c[150][x]);
    }
    assert!(!c[0][0]);
}

#[test]
fn rgb_buffer_flips_rows() {
    let g = vec![vec![true, false], vec![false, false]];
    let buf = rgb_buffer(&g);
    assert_eq!(
        buf,
        vec![255, 255, 255, 255, 255, 255, 0, 0, 0, 255, 255, 255]
    );
    assert!(rgb_buffer(&Vec::new()).is_empty());
}
