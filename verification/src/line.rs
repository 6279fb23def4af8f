use vstd::prelude::*;
use crate::raster::{fits_i32, pt};
use crate::scan::on_canvas;

verus! {

pub open spec fn abs(v: int) -> int {
    if v < 0 { -v } else { v }
}

pub open spec fn max2(a: int, b: int) -> int {
    if a >= b { a } else { b }
}

/// `v` lies between `u` and `w` (inclusive), whichever is smaller.
pub open spec fn between(u: int, v: int, w: int) -> bool {
    (u <= v <= w) || (w <= v <= u)
}

/// Number of steps of the line from `a` to `b`: the larger coordinate distance.
pub open spec fn line_steps(a: (int, int), b: (int, int)) -> int {
    max2(abs(b.0 - a.0), abs(b.1 - a.1))
}

/// How a point at equal distance from two pixel centres is resolved: `true` when the
/// path keeps to the side where the cross term `X*dy - Y*dx` is positive.
pub open spec fn tie_positive(a: (int, int), b: (int, int), inclusive: bool) -> bool {
    (abs(b.0 - a.0) > abs(b.1 - a.1)) != inclusive
}

/// Pixel `p`, reached after `X = |p.x - a.x|` steps across and `Y = |p.y - a.y|` steps down,
/// lies between `a` and `b` and as close to the ideal segment as a grid point can:
/// the cross term `D = X*dy - Y*dx` satisfies `|2D| <= max(dx, dy)`, ties being resolved
/// by `tie_positive`.
pub open spec fn near_segment(a: (int, int), b: (int, int), inclusive: bool, p: (int, int)) -> bool {
    let dx = abs(b.0 - a.0);
    let dy = abs(b.1 - a.1);
    let m = max2(dx, dy);
    let d = abs(p.0 - a.0) * dy - abs(p.1 - a.1) * dx;
    &&& between(a.0, p.0, b.0)
    &&& between(a.1, p.1, b.1)
    &&& -m <= 2 * d <= m
    &&& (m > 0 && abs(2 * d) == m) ==> ((2 * d == m) == tie_positive(a, b, inclusive))
}

/// Consecutive path pixels are neighbours (king moves) that never step back.
pub open spec fn forward_step(a: (int, int), p: (int, int), q: (int, int)) -> bool {
    &&& 0 <= abs(q.0 - a.0) - abs(p.0 - a.0) <= 1
    &&& 0 <= abs(q.1 - a.1) - abs(p.1 - a.1) <= 1
}

/// `path` is the rasterised segment from `a` to `b`: one pixel per step of the major axis,
/// from `a` to `b`, each step a forward neighbour move, every pixel nearest to the ideal
/// segment (see `near_segment`).
pub open spec fn is_line_path(a: (int, int), b: (int, int), inclusive: bool, path: Seq<(i32, i32)>) -> bool {
    &&& path.len() == line_steps(a, b) + 1
    &&& pt(path[0]) == a
    &&& pt(path[path.len() - 1]) == b
    &&& forall|k: int| 0 <= k < path.len() ==> #[trigger] near_segment(a, b, inclusive, pt(path[k]))
    &&& forall|i: int, j: int|
        #![trigger path[i], path[j]]
        0 <= i && j == i + 1 && j < path.len() ==> forward_step(a, pt(path[i]), pt(path[j]))
}

/// Three times the number of steps fits in `i32`, which keeps the error term of the
/// stepping, and its double, inside `i32`.
pub open spec fn line_fits(a: (int, int), b: (int, int)) -> bool {
    3 * line_steps(a, b) <= i32::MAX
}

/// The error-term invariant of the stepping: bounded cross term with the tie rule, and a
/// zero cross term on diagonals.
spec fn cross_ok(dx: int, dy: int, d: int, inclusive: bool) -> bool {
    let m = max2(dx, dy);
    &&& -m <= 2 * d <= m
    &&& (m > 0 && abs(2 * d) == m) ==> ((2 * d == m) == ((dx > dy) != inclusive))
    &&& dx == dy ==> d == 0
}

/// Range of the error term `dx - dy - d` and of its updates while the cross term is bounded.
proof fn lemma_err_range(dx: int, dy: int, d: int, inclusive: bool)
    requires
        dx >= 0,
        dy >= 0,
        cross_ok(dx, dy, d, inclusive),
    ensures
        -3 * max2(dx, dy) <= 2 * (dx - dy - d) <= 3 * max2(dx, dy),
        -3 * max2(dx, dy) <= dx - dy - d - dy,
        dx - dy - d - dy + dx <= 3 * max2(dx, dy),
        dx - dy - d + dx <= 3 * max2(dx, dy),
{
}

proof fn lemma_cross_step(dx: int, dy: int, d: int, inclusive: bool, xs: bool, ys: bool)
    requires
        dx >= 0,
        dy >= 0,
        dx + dy > 0,
        cross_ok(dx, dy, d, inclusive),
        xs == (if inclusive { 2 * (dx - dy - d) >= -dy } else { 2 * (dx - dy - d) > -dy }),
        ys == (if inclusive { 2 * (dx - dy - d) <= dx } else { 2 * (dx - dy - d) < dx }),
    ensures
        cross_ok(dx, dy, d + (if xs { dy } else { 0 }) - (if ys { dx } else { 0 }), inclusive),
        xs || ys,
        dx >= dy ==> xs,
        dy >= dx ==> ys,
{
}

/// Pixels of the segment from `a` to `b` in drawing order (Bresenham stepping).
/// `inclusive` selects how ties of the error term are stepped: `false` steps only on a
/// strict comparison (the polar diagram's lines), `true` also on equality (the route
/// snapshot's lines).
pub fn line_path(a: (i32, i32), b: (i32, i32), inclusive: bool) -> (path: Vec<(i32, i32)>)
    requires
        line_fits(pt(a), pt(b)),
    ensures
        is_line_path(pt(a), pt(b), inclusive, path@),
{
    let (x0, y0) = a;
    let (x1, y1) = b;
    let dx: i32 = if x1 >= x0 { x1 - x0 } else { x0 - x1 };
    let dy: i32 = if y1 >= y0 { y1 - y0 } else { y0 - y1 };
    let sx: i32 = if x0 < x1 { 1 } else { -1 };
    let sy: i32 = if y0 < y1 { 1 } else { -1 };
    let mut err: i32 = dx - dy;
    let mut x = x0;
    let mut y = y0;
    let mut path: Vec<(i32, i32)> = Vec::new();
    let ghost mut gx: int = 0;
    let ghost mut gy: int = 0;
    let ghost mut d: int = 0;
    let ghost ga = pt(a);
    let ghost gb = pt(b);
    loop
        invariant_except_break
            dx == abs(x1 - x0),
            dy == abs(y1 - y0),
            0 <= dx,
            0 <= dy,
            3 * dx <= i32::MAX,
            3 * dy <= i32::MAX,
            sx == (if x0 < x1 { 1int } else { -1int }),
            sy == (if y0 < y1 { 1int } else { -1int }),
            ga == pt(a),
            gb == pt(b),
            a == (x0, y0),
            b == (x1, y1),
            0 <= gx <= dx,
            0 <= gy <= dy,
            x == (if x0 < x1 { x0 + gx } else { x0 - gx }),
            y == (if y0 < y1 { y0 + gy } else { y0 - gy }),
            d == gx * dy - gy * dx,
            err == dx - dy - d,
            cross_ok(dx as int, dy as int, d, inclusive),
            path@.len() == (if dx >= dy { gx } else { gy }),
            path@.len() > 0 ==> pt(path@[0]) == ga,
            path@.len() == 0 ==> gx == 0 && gy == 0,
            path@.len() > 0 ==> forward_step(ga, pt(path@[path@.len() - 1]), (x as int, y as int)),
            forall|k: int| 0 <= k < path@.len() ==> #[trigger] near_segment(ga, gb, inclusive, pt(path@[k])),
            forall|i: int, j: int|
                #![trigger path@[i], path@[j]]
                0 <= i && j == i + 1 && j < path@.len() ==> forward_step(ga, pt(path@[i]), pt(path@[j])),
        ensures
            is_line_path(ga, gb, inclusive, path@),
        decreases (dx - gx) + (dy - gy),
    {
        assert(abs(x - x0) == gx && abs(y - y0) == gy);
        assert(near_segment(ga, gb, inclusive, (x as int, y as int)));
        let ghost prev = path@;
        path.push((x, y));
        assert forall|k: int| 0 <= k < path@.len() implies #[trigger] near_segment(ga, gb, inclusive, pt(path@[k])) by {
            if k < prev.len() {
                assert(path@[k] == prev[k]);
            }
        }
        assert forall|i: int, j: int|
            #![trigger path@[i], path@[j]]
            0 <= i && j == i + 1 && j < path@.len() implies forward_step(ga, pt(path@[i]), pt(path@[j])) by {
            assert(path@[i] == prev[i]);
            if j < prev.len() {
                assert(path@[j] == prev[j]);
            }
        }
        if x == x1 && y == y1 {
            assert(gx == dx && gy == dy);
            break;
        }
        proof {
            lemma_err_range(dx as int, dy as int, d, inclusive);
        }
        let e2 = 2 * err;
        let xs = if inclusive { e2 >= -dy } else { e2 > -dy };
        let ys = if inclusive { e2 <= dx } else { e2 < dx };
        proof {
            lemma_cross_step(dx as int, dy as int, d, inclusive, xs, ys);
            if xs && gx == dx {
                assert(gy < dy);
                assert(d >= dx) by (nonlinear_arith)
                    requires
                        d == gx * dy - gy * dx,
                        gx == dx,
                        gy < dy,
                        dx >= 0,
                ;
            }
            if ys && gy == dy {
                assert(gx < dx);
                assert(d <= -dy) by (nonlinear_arith)
                    requires
                        d == gx * dy - gy * dx,
                        gy == dy,
                        gx < dx,
                        dy >= 0,
                ;
            }
        }
        if xs {
            err = err - dy;
            x = x + sx;
            proof {
                assert((gx + 1) * dy == gx * dy + dy) by (nonlinear_arith);
                gx = gx + 1;
                d = d + dy;
            }
        }
        if ys {
            err = err + dx;
            y = y + sy;
            proof {
                assert((gy + 1) * dx == gy * dx + dx) by (nonlinear_arith);
                gy = gy + 1;
                d = d - dx;
            }
        }
    }
    path
}

} // verus!

verus! {

/// Pixel `q` lies in the square of half-side `t` centred on `c`.
pub open spec fn in_square(q: (int, int), c: (int, int), t: int) -> bool {
    abs(q.0 - c.0) <= t && abs(q.1 - c.1) <= t
}

/// `centre` is a pixel of `path` whose brush is painted: any pixel of the path, or only
/// those on the canvas when `centre_on_canvas` is set.
pub open spec fn painted_centre(
    path: Seq<(i32, i32)>,
    i: int,
    centre_on_canvas: bool,
    width: int,
    height: int,
) -> bool {
    0 <= i < path.len() && (centre_on_canvas ==> on_canvas(
        path[i].0 as int,
        path[i].1 as int,
        width,
        height,
    ))
}

/// Some painted centre of `path` has `q` in its brush square.
pub open spec fn covered(
    q: (int, int),
    path: Seq<(i32, i32)>,
    t: int,
    centre_on_canvas: bool,
    width: int,
    height: int,
) -> bool {
    exists|i: int| painted_centre(path, i, centre_on_canvas, width, height) && #[trigger] in_square(q, pt(path[i]), t)
}

/// Canvas pixel `q` is covered by the brush along `path`.
pub open spec fn paints(
    q: (u32, u32),
    path: Seq<(i32, i32)>,
    t: int,
    centre_on_canvas: bool,
    width: int,
    height: int,
) -> bool {
    on_canvas(q.0 as int, q.1 as int, width, height) && covered(
        (q.0 as int, q.1 as int),
        path,
        t,
        centre_on_canvas,
        width,
        height,
    )
}

/// `px` holds exactly the canvas pixels covered by a square brush of half-side `t`
/// moved along `path` (a pixel may be listed more than once).
pub open spec fn brushed(
    px: Seq<(u32, u32)>,
    path: Seq<(i32, i32)>,
    t: int,
    centre_on_canvas: bool,
    width: int,
    height: int,
) -> bool {
    &&& forall|k: int|
        0 <= k < px.len() ==> #[trigger] paints(px[k], path, t, centre_on_canvas, width, height)
    &&& forall|i: int, x: int, y: int|
        painted_centre(path, i, centre_on_canvas, width, height) && on_canvas(x, y, width, height)
            && #[trigger] in_square((x, y), pt(path[i]), t) ==> px.contains((x as u32, y as u32))
}

/// Brush offsets around both ends of the segment stay in `i32`.
pub open spec fn brush_fits(a: (int, int), b: (int, int), t: int) -> bool {
    &&& i32::MIN < t < i32::MAX
    &&& t >= 0 ==> fits_i32(a.0 - t) && fits_i32(a.0 + t) && fits_i32(a.1 - t) && fits_i32(a.1 + t)
        && fits_i32(b.0 - t) && fits_i32(b.0 + t) && fits_i32(b.1 - t) && fits_i32(b.1 + t)
}

/// Pixels painted by a line of half-width `thickness` from `a` to `b`: a square brush
/// stamped on every pixel of the strict-tie path, clipped to the canvas.
pub fn thick_line_pixels(a: (i32, i32), b: (i32, i32), thickness: i32, width: u32, height: u32) -> (px:
    Vec<(u32, u32)>)
    requires
        line_fits(pt(a), pt(b)),
        brush_fits(pt(a), pt(b), thickness as int),
    ensures
        exists|path: Seq<(i32, i32)>|
            is_line_path(pt(a), pt(b), false, path) && brushed(
                px@,
                path,
                thickness as int,
                false,
                width as int,
                height as int,
            ),
{
    let path = line_path(a, b, false);
    let t = thickness;
    let mut out: Vec<(u32, u32)> = Vec::new();
    let mut i: usize = 0;
    while i < path.len()
        invariant
            0 <= i <= path@.len(),
            is_line_path(pt(a), pt(b), false, path@),
            brush_fits(pt(a), pt(b), t as int),
            t == thickness,
            forall|k: int|
                0 <= k < out@.len() ==> #[trigger] paints(out@[k], path@, t as int, false, width as int, height as int),
            forall|j: int, x: int, y: int|
                0 <= j < i && on_canvas(x, y, width as int, height as int)
                    && #[trigger] in_square((x, y), pt(path@[j]), t as int) ==> out@.contains((x as u32, y as u32)),
        decreases path@.len() - i,
    {
        let (cx, cy) = path[i];
        assert(near_segment(pt(a), pt(b), false, pt(path@[i as int])));
        let ghost gi = i as int;
        let mut tx: i32 = -t;
        while tx <= t
            invariant
                0 <= i < path@.len(),
                gi == i,
                (cx, cy) == path@[gi],
                -t <= tx,
                tx <= t + 1 || tx == -t,
                is_line_path(pt(a), pt(b), false, path@),
                near_segment(pt(a), pt(b), false, pt(path@[gi])),
                brush_fits(pt(a), pt(b), t as int),
                t == thickness,
                forall|k: int|
                    0 <= k < out@.len() ==> #[trigger] paints(out@[k], path@, t as int, false, width as int, height as int),
                forall|j: int, x: int, y: int|
                    0 <= j < i && on_canvas(x, y, width as int, height as int)
                        && #[trigger] in_square((x, y), pt(path@[j]), t as int) ==> out@.contains((x as u32, y as u32)),
                forall|x: int, y: int|
                    x < cx + tx && on_canvas(x, y, width as int, height as int)
                        && #[trigger] in_square((x, y), pt(path@[gi]), t as int) ==> out@.contains((x as u32, y as u32)),
            decreases t + 1 - tx,
        {
            let mut ty: i32 = -t;
            while ty <= t
                invariant
                    0 <= i < path@.len(),
                    gi == i,
                    (cx, cy) == path@[gi],
                    -t <= tx <= t,
                    -t <= ty,
                    ty <= t + 1 || ty == -t,
                    is_line_path(pt(a), pt(b), false, path@),
                    near_segment(pt(a), pt(b), false, pt(path@[gi])),
                    brush_fits(pt(a), pt(b), t as int),
                    t == thickness,
                    forall|k: int|
                        0 <= k < out@.len() ==> #[trigger] paints(out@[k], path@, t as int, false, width as int, height as int),
                    forall|j: int, x: int, y: int|
                        0 <= j < i && on_canvas(x, y, width as int, height as int)
                            && #[trigger] in_square((x, y), pt(path@[j]), t as int) ==> out@.contains((x as u32, y as u32)),
                    forall|x: int, y: int|
                        (x < cx + tx || (x == cx + tx && y < cy + ty)) && on_canvas(x, y, width as int, height as int)
                            && #[trigger] in_square((x, y), pt(path@[gi]), t as int) ==> out@.contains((x as u32, y as u32)),
                decreases t + 1 - ty,
            {
                let px = cx + tx;
                let py = cy + ty;
                let ghost prev = out@;
                if px >= 0 && py >= 0 && (px as u32) < width && (py as u32) < height {
                    out.push((px as u32, py as u32));
                    assert forall|k: int|
                        0 <= k < out@.len() implies #[trigger] paints(out@[k], path@, t as int, false, width as int, height as int) by {
                        if k < prev.len() {
                            assert(out@[k] == prev[k]);
                        } else {
                            assert(in_square((out@[k].0 as int, out@[k].1 as int), pt(path@[gi]), t as int));
                            assert(painted_centre(path@, gi, false, width as int, height as int));
                        }
                    }
                    assert forall|q: (u32, u32)| prev.contains(q) implies out@.contains(q) by {
                        let k = choose|k: int| 0 <= k < prev.len() && prev[k] == q;
                        assert(out@[k] == prev[k]);
                    }
                    assert(out@[prev.len() as int] == (px as u32, py as u32));
                }
                ty = ty + 1;
            }
            tx = tx + 1;
        }
        i = i + 1;
    }
    assert(brushed(out@, path@, t as int, false, width as int, height as int));
    out
}

} // verus!

verus! {

/// Pixels painted by a route segment from `a` to `b` on the snapshot map: along the
/// inclusive-tie path, every pixel of the canvas gets its 3 x 3 neighbourhood painted
/// (clipped to the canvas); path pixels off the canvas paint nothing.
pub fn route_line_pixels(a: (i32, i32), b: (i32, i32), width: u32, height: u32) -> (px: Vec<(u32, u32)>)
    requires
        line_fits(pt(a), pt(b)),
        brush_fits(pt(a), pt(b), 1),
    ensures
        exists|path: Seq<(i32, i32)>|
            is_line_path(pt(a), pt(b), true, path) && brushed(px@, path, 1, true, width as int, height as int),
{
    let path = line_path(a, b, true);
    let mut out: Vec<(u32, u32)> = Vec::new();
    let mut i: usize = 0;
    while i < path.len()
        invariant
            0 <= i <= path@.len(),
            is_line_path(pt(a), pt(b), true, path@),
            brush_fits(pt(a), pt(b), 1),
            forall|k: int|
                0 <= k < out@.len() ==> #[trigger] paints(out@[k], path@, 1, true, width as int, height as int),
            forall|j: int, x: int, y: int|
                0 <= j < i && painted_centre(path@, j, true, width as int, height as int) && on_canvas(
                    x,
                    y,
                    width as int,
                    height as int,
                ) && #[trigger] in_square((x, y), pt(path@[j]), 1) ==> out@.contains((x as u32, y as u32)),
        decreases path@.len() - i,
    {
        let (cx, cy) = path[i];
        let ghost gi = i as int;
        assert(near_segment(pt(a), pt(b), true, pt(path@[gi])));
        if cx >= 0 && cy >= 0 && (cx as u32) < width && (cy as u32) < height {
            assert(painted_centre(path@, gi, true, width as int, height as int));
            let mut ty: i32 = -1;
            while ty <= 1
                invariant
                    0 <= i < path@.len(),
                    gi == i,
                    (cx, cy) == path@[gi],
                    -1 <= ty <= 2,
                    painted_centre(path@, gi, true, width as int, height as int),
                    is_line_path(pt(a), pt(b), true, path@),
                    near_segment(pt(a), pt(b), true, pt(path@[gi])),
                    brush_fits(pt(a), pt(b), 1),
                    forall|k: int|
                        0 <= k < out@.len() ==> #[trigger] paints(out@[k], path@, 1, true, width as int, height as int),
                    forall|j: int, x: int, y: int|
                        0 <= j < i && painted_centre(path@, j, true, width as int, height as int) && on_canvas(
                            x,
                            y,
                            width as int,
                            height as int,
                        ) && #[trigger] in_square((x, y), pt(path@[j]), 1) ==> out@.contains((x as u32, y as u32)),
                    forall|x: int, y: int|
                        y < cy + ty && on_canvas(x, y, width as int, height as int)
                            && #[trigger] in_square((x, y), pt(path@[gi]), 1) ==> out@.contains((x as u32, y as u32)),
                decreases 2 - ty,
            {
                let mut tx: i32 = -1;
                while tx <= 1
                    invariant
                        0 <= i < path@.len(),
                        gi == i,
                        (cx, cy) == path@[gi],
                        -1 <= ty <= 1,
                        -1 <= tx <= 2,
                        painted_centre(path@, gi, true, width as int, height as int),
                        is_line_path(pt(a), pt(b), true, path@),
                        near_segment(pt(a), pt(b), true, pt(path@[gi])),
                        brush_fits(pt(a), pt(b), 1),
                        forall|k: int|
                            0 <= k < out@.len() ==> #[trigger] paints(out@[k], path@, 1, true, width as int, height as int),
                        forall|j: int, x: int, y: int|
                            0 <= j < i && painted_centre(path@, j, true, width as int, height as int) && on_canvas(
                                x,
                                y,
                                width as int,
                                height as int,
                            ) && #[trigger] in_square((x, y), pt(path@[j]), 1) ==> out@.contains((x as u32, y as u32)),
                        forall|x: int, y: int|
                            (y < cy + ty || (y == cy + ty && x < cx + tx)) && on_canvas(x, y, width as int, height as int)
                                && #[trigger] in_square((x, y), pt(path@[gi]), 1) ==> out@.contains((x as u32, y as u32)),
                    decreases 2 - tx,
                {
                    let px = cx + tx;
                    let py = cy + ty;
                    let ghost prev = out@;
                    if px >= 0 && py >= 0 && (px as u32) < width && (py as u32) < height {
                        out.push((px as u32, py as u32));
                        assert forall|k: int|
                            0 <= k < out@.len() implies #[trigger] paints(out@[k], path@, 1, true, width as int, height as int) by {
                            if k < prev.len() {
                                assert(out@[k] == prev[k]);
                            } else {
                                assert(in_square((out@[k].0 as int, out@[k].1 as int), pt(path@[gi]), 1));
                            }
                        }
                        assert forall|q: (u32, u32)| prev.contains(q) implies out@.contains(q) by {
                            let k = choose|k: int| 0 <= k < prev.len() && prev[k] == q;
                            assert(out@[k] == prev[k]);
                        }
                        assert(out@[prev.len() as int] == (px as u32, py as u32));
                    }
                    tx = tx + 1;
                }
                ty = ty + 1;
            }
        }
        i = i + 1;
    }
    assert(brushed(out@, path@, 1, true, width as int, height as int));
    out
}

} // verus!

verus! {

/// A drawn line passes through its ends: with a non-negative half-width, each end that
/// lies on the canvas is painted (for the route brush, too).
pub proof fn lemma_line_ends_painted(
    a: (i32, i32),
    b: (i32, i32),
    inclusive: bool,
    path: Seq<(i32, i32)>,
    px: Seq<(u32, u32)>,
    t: int,
    centre_on_canvas: bool,
    width: int,
    height: int,
)
    requires
        is_line_path(pt(a), pt(b), inclusive, path),
        brushed(px, path, t, centre_on_canvas, width, height),
        t >= 0,
    ensures
        on_canvas(a.0 as int, a.1 as int, width, height) ==> px.contains((a.0 as u32, a.1 as u32)),
        on_canvas(b.0 as int, b.1 as int, width, height) ==> px.contains((b.0 as u32, b.1 as u32)),
{
    let last = path.len() - 1;
    if on_canvas(a.0 as int, a.1 as int, width, height) {
        assert(painted_centre(path, 0, centre_on_canvas, width, height));
        assert(in_square((a.0 as int, a.1 as int), pt(path[0]), t));
    }
    if on_canvas(b.0 as int, b.1 as int, width, height) {
        assert(painted_centre(path, last, centre_on_canvas, width, height));
        assert(in_square((b.0 as int, b.1 as int), pt(path[last]), t));
    }
}

/// The brush is centred on the path: every canvas pixel within `t` of a painted path
/// pixel, on either side along both axes, is painted, and every painted pixel is a
/// canvas pixel within `t` of one.
pub proof fn lemma_brush_centred(
    px: Seq<(u32, u32)>,
    path: Seq<(i32, i32)>,
    t: int,
    centre_on_canvas: bool,
    width: int,
    height: int,
)
    requires
        brushed(px, path, t, centre_on_canvas, width, height),
    ensures
        forall|i: int, x: int, y: int|
            #![trigger painted_centre(path, i, centre_on_canvas, width, height), on_canvas(x, y, width, height)]
            painted_centre(path, i, centre_on_canvas, width, height) && on_canvas(x, y, width, height)
                && path[i].0 - t <= x <= path[i].0 + t && path[i].1 - t <= y <= path[i].1 + t
                ==> px.contains((x as u32, y as u32)),
        forall|k: int|
            0 <= k < px.len() ==> on_canvas(#[trigger] px[k].0 as int, px[k].1 as int, width, height)
                && exists|i: int|
                #![trigger painted_centre(path, i, centre_on_canvas, width, height)]
                painted_centre(path, i, centre_on_canvas, width, height) && path[i].0 - t <= px[k].0
                    <= path[i].0 + t && path[i].1 - t <= px[k].1 <= path[i].1 + t,
{
    assert forall|i: int, x: int, y: int|
        painted_centre(path, i, centre_on_canvas, width, height) && on_canvas(x, y, width, height)
            && path[i].0 - t <= x <= path[i].0 + t && path[i].1 - t <= y <= path[i].1
            + t implies px.contains((x as u32, y as u32)) by {
        assert(in_square((x, y), pt(path[i]), t));
    }
    assert forall|k: int| 0 <= k < px.len() implies on_canvas(
        #[trigger] px[k].0 as int,
        px[k].1 as int,
        width,
        height,
    ) && exists|i: int|
        #![trigger painted_centre(path, i, centre_on_canvas, width, height)]
        painted_centre(path, i, centre_on_canvas, width, height) && path[i].0 - t <= px[k].0
            <= path[i].0 + t && path[i].1 - t <= px[k].1 <= path[i].1 + t by {
        assert(paints(px[k], path, t, centre_on_canvas, width, height));
        let q = (px[k].0 as int, px[k].1 as int);
        let i = choose|i: int|
            painted_centre(path, i, centre_on_canvas, width, height) && #[trigger] in_square(
                q,
                pt(path[i]),
                t,
            );
        assert(painted_centre(path, i, centre_on_canvas, width, height));
    }
}

/// A drawn line is as wide on every side of its ends: each pixel of the canvas within `t`
/// of an end, in any direction, is painted (for the route brush, when the end lies on the
/// canvas).
pub proof fn lemma_line_ends_brushed(
    a: (i32, i32),
    b: (i32, i32),
    inclusive: bool,
    path: Seq<(i32, i32)>,
    px: Seq<(u32, u32)>,
    t: int,
    centre_on_canvas: bool,
    width: int,
    height: int,
)
    requires
        is_line_path(pt(a), pt(b), inclusive, path),
        brushed(px, path, t, centre_on_canvas, width, height),
    ensures
        forall|x: int, y: int|
            #![trigger on_canvas(x, y, width, height)]
            on_canvas(x, y, width, height) && a.0 - t <= x <= a.0 + t && a.1 - t <= y <= a.1 + t
                && (centre_on_canvas ==> on_canvas(a.0 as int, a.1 as int, width, height))
                ==> px.contains((x as u32, y as u32)),
        forall|x: int, y: int|
            #![trigger on_canvas(x, y, width, height)]
            on_canvas(x, y, width, height) && b.0 - t <= x <= b.0 + t && b.1 - t <= y <= b.1 + t
                && (centre_on_canvas ==> on_canvas(b.0 as int, b.1 as int, width, height))
                ==> px.contains((x as u32, y as u32)),
{
    lemma_brush_centred(px, path, t, centre_on_canvas, width, height);
    let last = path.len() - 1;
    assert(path[0] == a);
    assert(path[last] == b);
    assert forall|x: int, y: int|
        #![trigger on_canvas(x, y, width, height)]
        on_canvas(x, y, width, height) && a.0 - t <= x <= a.0 + t && a.1 - t <= y <= a.1 + t && (
        centre_on_canvas ==> on_canvas(a.0 as int, a.1 as int, width, height)) implies px.contains(
        (x as u32, y as u32),
    ) by {
        assert(painted_centre(path, 0, centre_on_canvas, width, height));
    }
    assert forall|x: int, y: int|
        #![trigger on_canvas(x, y, width, height)]
        on_canvas(x, y, width, height) && b.0 - t <= x <= b.0 + t && b.1 - t <= y <= b.1 + t && (
        centre_on_canvas ==> on_canvas(b.0 as int, b.1 as int, width, height)) implies px.contains(
        (x as u32, y as u32),
    ) by {
        assert(painted_centre(path, last, centre_on_canvas, width, height));
    }
}

/// How the two paths settle a tie, where the ideal segment passes exactly halfway between
/// two pixels across its major axis: the strict-tie path takes the pixel nearer the start
/// along the minor axis, the inclusive one the pixel farther along.
pub proof fn lemma_line_tie_sides(a: (i32, i32), b: (i32, i32), inclusive: bool, path: Seq<(i32, i32)>, k: int)
    requires
        is_line_path(pt(a), pt(b), inclusive, path),
        0 <= k < path.len(),
    ensures
        ({
            let dx = abs(b.0 - a.0);
            let dy = abs(b.1 - a.1);
            let across = abs(path[k].0 - a.0);
            let down = abs(path[k].1 - a.1);
            &&& dx > dy && !inclusive ==> 2 * (across * dy - down * dx) != -dx
            &&& dx > dy && inclusive ==> 2 * (across * dy - down * dx) != dx
            &&& dy > dx && !inclusive ==> 2 * (down * dx - across * dy) != -dy
            &&& dy > dx && inclusive ==> 2 * (down * dx - across * dy) != dy
        }),
{
    assert(near_segment(pt(a), pt(b), inclusive, pt(path[k])));
}

/// Horizontal segments stay on their row and vertical ones on their column.
pub proof fn lemma_axis_aligned_path(a: (i32, i32), b: (i32, i32), inclusive: bool, path: Seq<(i32, i32)>, k: int)
    requires
        is_line_path(pt(a), pt(b), inclusive, path),
        0 <= k < path.len(),
    ensures
        a.1 == b.1 ==> path[k].1 == a.1,
        a.0 == b.0 ==> path[k].0 == a.0,
{
    assert(near_segment(pt(a), pt(b), inclusive, pt(path[k])));
}

} // verus!

verus! {

/// Progress of `p` along the major axis of the segment from `a` to `b`.
pub open spec fn major_progress(a: (int, int), b: (int, int), p: (int, int)) -> int {
    if abs(b.0 - a.0) >= abs(b.1 - a.1) { abs(p.0 - a.0) } else { abs(p.1 - a.1) }
}

proof fn lemma_progress_upper(a: (i32, i32), b: (i32, i32), inclusive: bool, path: Seq<(i32, i32)>, k: int)
    requires
        is_line_path(pt(a), pt(b), inclusive, path),
        0 <= k < path.len(),
    ensures
        major_progress(pt(a), pt(b), pt(path[k])) <= k,
    decreases k,
{
    if k > 0 {
        lemma_progress_upper(a, b, inclusive, path, k - 1);
        assert(forward_step(pt(a), pt(path[k - 1]), pt(path[k])));
    }
}

proof fn lemma_progress_lower(a: (i32, i32), b: (i32, i32), inclusive: bool, path: Seq<(i32, i32)>, k: int)
    requires
        is_line_path(pt(a), pt(b), inclusive, path),
        0 <= k < path.len(),
    ensures
        major_progress(pt(a), pt(b), pt(path[k])) >= k,
    decreases path.len() - k,
{
    if k < path.len() - 1 {
        lemma_progress_lower(a, b, inclusive, path, k + 1);
        assert(forward_step(pt(a), pt(path[k]), pt(path[k + 1])));
    }
}

/// At a given progress along the major axis, at most one offset across it satisfies the
/// closeness bound with the tie rule.
proof fn lemma_cross_unique(major: int, minor: int, u: int, v1: int, v2: int, pos: bool)
    requires
        0 <= minor <= major,
        major > 0,
        -major <= 2 * (u * minor - v1 * major) <= major,
        -major <= 2 * (u * minor - v2 * major) <= major,
        abs(2 * (u * minor - v1 * major)) == major ==> ((2 * (u * minor - v1 * major) == major) == pos),
        abs(2 * (u * minor - v2 * major)) == major ==> ((2 * (u * minor - v2 * major) == major) == pos),
    ensures
        v1 == v2,
{
    let d1 = u * minor - v1 * major;
    let d2 = u * minor - v2 * major;
    assert(d1 - d2 == (v2 - v1) * major) by (nonlinear_arith)
        requires
            d1 == u * minor - v1 * major,
            d2 == u * minor - v2 * major,
    ;
    if v1 != v2 {
        assert(v2 - v1 >= 1 || v2 - v1 <= -1);
        if v2 - v1 >= 2 || v2 - v1 <= -2 {
            assert(abs((v2 - v1) * major) >= 2 * major) by (nonlinear_arith)
                requires
                    v2 - v1 >= 2 || v2 - v1 <= -2,
                    major > 0,
            ;
        } else {
            assert((v2 - v1) * major == major || (v2 - v1) * major == -major) by (nonlinear_arith)
                requires
                    v2 - v1 == 1 || v2 - v1 == -1,
            ;
        }
    }
}

/// The contract of `line_path` determines the path: two paths that both satisfy it for
/// the same ends and tie rule are equal.
pub proof fn lemma_line_path_unique(
    a: (i32, i32),
    b: (i32, i32),
    inclusive: bool,
    p1: Seq<(i32, i32)>,
    p2: Seq<(i32, i32)>,
)
    requires
        is_line_path(pt(a), pt(b), inclusive, p1),
        is_line_path(pt(a), pt(b), inclusive, p2),
    ensures
        p1 == p2,
{
    let dx = abs(b.0 - a.0);
    let dy = abs(b.1 - a.1);
    assert forall|k: int| 0 <= k < p1.len() implies p1[k] == p2[k] by {
        lemma_progress_upper(a, b, inclusive, p1, k);
        lemma_progress_lower(a, b, inclusive, p1, k);
        lemma_progress_upper(a, b, inclusive, p2, k);
        lemma_progress_lower(a, b, inclusive, p2, k);
        let q1 = pt(p1[k]);
        let q2 = pt(p2[k]);
        assert(near_segment(pt(a), pt(b), inclusive, q1));
        assert(near_segment(pt(a), pt(b), inclusive, q2));
        if dx >= dy {
            assert(abs(q1.0 - a.0) == abs(q2.0 - a.0));
            if dx > 0 {
                lemma_cross_unique(
                    dx,
                    dy,
                    abs(q1.0 - a.0),
                    abs(q1.1 - a.1),
                    abs(q2.1 - a.1),
                    tie_positive(pt(a), pt(b), inclusive),
                );
            }
        } else {
            assert(abs(q1.1 - a.1) == abs(q2.1 - a.1));
            // With the roles of the axes exchanged the cross term changes sign.
            lemma_cross_unique(
                dy,
                dx,
                abs(q1.1 - a.1),
                abs(q1.0 - a.0),
                abs(q2.0 - a.0),
                !tie_positive(pt(a), pt(b), inclusive),
            );
        }
        assert(q1 == q2);
    }
    assert(p1 =~= p2);
}

} // verus!
