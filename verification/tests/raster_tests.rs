use ai_isochrone::line::{line_path, route_line_pixels, thick_line_pixels};
use ai_isochrone::raster::{disc_pixels, point_in_tri, rect_pixels, triangle_pixels};

#[test]
fn point_in_triangle_cases() {
    let (a, b, c) = ((0, 0), (10, 0), (0, 10));
    assert!(point_in_tri((2, 2), a, b, c));
    assert!(point_in_tri((5, 5), a, b, c));
    assert!(point_in_tri(a, a, b, c));
    assert!(!point_in_tri((6, 6), a, b, c));
    assert!(!point_in_tri((-1, 0), a, b, c));
    // orientation does not matter
    assert!(point_in_tri((2, 2), a, c, b));
}

#[test]
fn degenerate_triangle_contains_its_line() {
    assert!(point_in_tri((3, 3), (0, 0), (5, 5), (5, 5)));
    assert!(point_in_tri((9, 1), (0, 0), (0, 0), (0, 0)));
}

#[test]
fn triangle_fill_is_row_major_and_exact() {
    let px = triangle_pixels((0, 0), (4, 0), (0, 4), 10, 10);
    let mut expected = Vec::new();
    for y in 0..=4u32 {
        for x in 0..=4u32 {
            if x + y <= 4 {
                expected.push((x, y));
            }
        }
    }
    assert_eq!(px, expected);
    assert_eq!(px.len(), 15);
}

#[test]
fn triangle_fill_is_clipped() {
    let px = triangle_pixels((-5, -5), (9, -5), (-5, 9), 10, 10);
    assert_eq!(px, triangle_pixels((0, 0), (4, 0), (0, 4), 10, 10));
    assert!(triangle_pixels((-5, -5), (3, -5), (-5, 3), 10, 10).is_empty());
    assert!(triangle_pixels((20, 20), (30, 20), (20, 30), 10, 10).is_empty());
}

#[test]
fn rect_fill_clips_and_saturates() {
    assert_eq!(rect_pixels(1, 1, 2, 2, 10, 10), vec![(1, 1), (2, 1), (1, 2), (2, 2)]);
    assert_eq!(rect_pixels(8, 0, 5, 1, 10, 10), vec![(8, 0), (9, 0)]);
    assert_eq!(rect_pixels(u32::MAX - 1, 0, 5, 1, 10, 10), Vec::<(u32, u32)>::new());
    assert_eq!(rect_pixels(0, 0, 0, 3, 10, 10), Vec::<(u32, u32)>::new());
}

#[test]
fn disc_shapes() {
    assert_eq!(disc_pixels(5, 5, 0, 20, 20), vec![(5, 5)]);
    assert_eq!(disc_pixels(5, 5, 1, 20, 20), vec![(5, 4), (4, 5), (5, 5), (6, 5), (5, 6)]);
    assert_eq!(disc_pixels(5, 5, 2, 20, 20).len(), 13);
    assert_eq!(disc_pixels(0, 0, 1, 20, 20), vec![(0, 0), (1, 0), (0, 1)]);
    assert!(disc_pixels(5, 5, -1, 20, 20).is_empty());
}

#[test]
fn line_path_strict_and_inclusive_ties() {
    assert_eq!(line_path((0, 0), (3, 1), false), vec![(0, 0), (1, 0), (2, 1), (3, 1)]);
    assert_eq!(line_path((0, 0), (2, 1), false), vec![(0, 0), (1, 0), (2, 1)]);
    assert_eq!(line_path((0, 0), (2, 1), true), vec![(0, 0), (1, 1), (2, 1)]);
    assert_eq!(line_path((3, 3), (3, 3), false), vec![(3, 3)]);
    assert_eq!(line_path((2, 0), (0, 0), true), vec![(2, 0), (1, 0), (0, 0)]);
    assert_eq!(line_path((0, 0), (-2, -2), false), vec![(0, 0), (-1, -1), (-2, -2)]);
    assert_eq!(line_path((0, 0), (1, 3), false), vec![(0, 0), (0, 1), (1, 2), (1, 3)]);
}

#[test]
fn long_line_has_one_pixel_per_major_step() {
    let p = line_path((0, 0), (100, 37), false);
    assert_eq!(p.len(), 101);
    assert_eq!(p[0], (0, 0));
    assert_eq!(p[100], (100, 37));
    for w in p.windows(2) {
        assert_eq!(w[1].0 - w[0].0, 1);
        assert!(w[1].1 - w[0].1 == 0 || w[1].1 - w[0].1 == 1);
    }
}

#[test]
fn thin_line_paints_its_path() {
    let mut px = thick_line_pixels((0, 2), (4, 2), 0, 10, 10);
    px.sort();
    assert_eq!(px, vec![(0, 2), (1, 2), (2, 2), (3, 2), (4, 2)]);
}

#[test]
fn thick_line_is_clipped_square_brush() {
    let mut px = thick_line_pixels((0, 0), (0, 0), 1, 10, 10);
    px.sort();
    px.dedup();
    assert_eq!(px, vec![(0, 0), (0, 1), (1, 0), (1, 1)]);
}

#[test]
fn route_line_skips_off_canvas_centres() {
    assert!(route_line_pixels((-5, -5), (-3, -5), 10, 10).is_empty());
    let mut px = route_line_pixels((-1, 0), (0, 0), 10, 10);
    px.sort();
    px.dedup();
    assert_eq!(px, vec![(0, 0), (0, 1), (1, 0), (1, 1)]);
}

#[test]
fn drawn_lines_pass_through_their_ends() {
    let px = thick_line_pixels((1, 1), (8, 5), 1, 10, 10);
    assert!(px.contains(&(1, 1)));
    assert!(px.contains(&(8, 5)));
    let px = route_line_pixels((2, 7), (9, 0), 10, 10);
    assert!(px.contains(&(2, 7)));
    assert!(px.contains(&(9, 0)));
    // an end off the canvas is simply not drawn
    let px = thick_line_pixels((-4, 3), (3, 3), 0, 10, 10);
    let mut row: Vec<(u32, u32)> = px.clone();
    row.sort();
    assert_eq!(row, vec![(0, 3), (1, 3), (2, 3), (3, 3)]);
}
