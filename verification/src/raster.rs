use vstd::prelude::*;
use crate::scan::{
    hits_within, lemma_lists_exactly_unique, lemma_scan_done, lemma_scan_next_row,
    lemma_scan_start, lemma_scan_step, lists_exactly, on_canvas, scanned_before,
};

verus! {

/// Twice the signed area of the triangle `(p1, p2, p3)` (positive when counter-clockwise
/// in a y-up frame).
pub open spec fn edge_sign(p1: (int, int), p2: (int, int), p3: (int, int)) -> int {
    (p1.0 - p3.0) * (p2.1 - p3.1) - (p2.0 - p3.0) * (p1.1 - p3.1)
}

/// `p` is inside or on the boundary of triangle `abc`: the three edge signs never
/// disagree in sign.  A degenerate (flat) triangle contains every point of its line.
pub open spec fn in_triangle(p: (int, int), a: (int, int), b: (int, int), c: (int, int)) -> bool {
    let d1 = edge_sign(p, a, b);
    let d2 = edge_sign(p, b, c);
    let d3 = edge_sign(p, c, a);
    !((d1 < 0 || d2 < 0 || d3 < 0) && (d1 > 0 || d2 > 0 || d3 > 0))
}

pub open spec fn fits_i32(v: int) -> bool {
    i32::MIN <= v <= i32::MAX
}

/// Integer view of a pixel pair.
pub open spec fn pt(p: (i32, i32)) -> (int, int) {
    (p.0 as int, p.1 as int)
}

/// Both coordinate differences `u - v` fit in `i32`.
pub open spec fn diff_fits(u: (int, int), v: (int, int)) -> bool {
    fits_i32(u.0 - v.0) && fits_i32(u.1 - v.1)
}

/// The coordinate differences that the containment test subtracts fit in `i32`.
pub open spec fn tri_test_fits(p: (int, int), a: (int, int), b: (int, int), c: (int, int)) -> bool {
    &&& diff_fits(p, a)
    &&& diff_fits(p, b)
    &&& diff_fits(p, c)
    &&& diff_fits(a, b)
    &&& diff_fits(b, c)
    &&& diff_fits(c, a)
}

proof fn lemma_product_bound(u: int, v: int)
    requires
        fits_i32(u),
        fits_i32(v),
    ensures
        -0x3fff_ffff_8000_0000 <= u * v <= 0x4000_0000_0000_0000,
{
    assert(-0x3fff_ffff_8000_0000 <= u * v <= 0x4000_0000_0000_0000) by (nonlinear_arith)
        requires
            -0x8000_0000 <= u <= 0x7fff_ffff,
            -0x8000_0000 <= v <= 0x7fff_ffff,
    ;
}

fn edge_sign_exec(p1: (i32, i32), p2: (i32, i32), p3: (i32, i32)) -> (s: i64)
    requires
        diff_fits(pt(p1), pt(p3)),
        diff_fits(pt(p2), pt(p3)),
    ensures
        s == edge_sign(pt(p1), pt(p2), pt(p3)),
{
    let u1 = p1.0 - p3.0;
    let v1 = p2.1 - p3.1;
    let u2 = p2.0 - p3.0;
    let v2 = p1.1 - p3.1;
    proof {
        lemma_product_bound(u1 as int, v1 as int);
        lemma_product_bound(u2 as int, v2 as int);
    }
    u1 as i64 * v1 as i64 - u2 as i64 * v2 as i64
}

/// Whether pixel `p` lies in the triangle `abc` (edges included).
pub fn point_in_tri(p: (i32, i32), a: (i32, i32), b: (i32, i32), c: (i32, i32)) -> (r: bool)
    requires
        tri_test_fits(pt(p), pt(a), pt(b), pt(c)),
    ensures
        r == in_triangle(pt(p), pt(a), pt(b), pt(c)),
{
    let d1 = edge_sign_exec(p, a, b);
    let d2 = edge_sign_exec(p, b, c);
    let d3 = edge_sign_exec(p, c, a);
    let has_neg = (d1 < 0) || (d2 < 0) || (d3 < 0);
    let has_pos = (d1 > 0) || (d2 > 0) || (d3 > 0);
    !(has_neg && has_pos)
}

/// Containment does not depend on which corner is named first.
pub proof fn lemma_in_triangle_rotation(p: (int, int), a: (int, int), b: (int, int), c: (int, int))
    ensures
        in_triangle(p, a, b, c) == in_triangle(p, b, c, a),
{
}

/// Edge sign changes sign when two corners are swapped.
proof fn lemma_edge_sign_swap(p1: (int, int), p2: (int, int), p3: (int, int))
    ensures
        edge_sign(p1, p2, p3) == -edge_sign(p1, p3, p2),
        edge_sign(p1, p2, p3) == edge_sign(p2, p3, p1),
{
    let (x1, y1, x2, y2, x3, y3) = (p1.0, p1.1, p2.0, p2.1, p3.0, p3.1);
    assert((x1 - x3) * (y2 - y3) - (x2 - x3) * (y1 - y3) == -((x1 - x2) * (y3 - y2) - (x3 - x2) * (
    y1 - y2))) by (nonlinear_arith);
    assert((x1 - x3) * (y2 - y3) - (x2 - x3) * (y1 - y3) == (x2 - x1) * (y3 - y1) - (x3 - x1) * (y2
        - y1)) by (nonlinear_arith);
}

/// Containment does not depend on the orientation (clockwise or not) of the corners.
pub proof fn lemma_in_triangle_reversal(p: (int, int), a: (int, int), b: (int, int), c: (int, int))
    ensures
        in_triangle(p, a, b, c) == in_triangle(p, a, c, b),
{
    lemma_edge_sign_swap(p, a, c);
    lemma_edge_sign_swap(p, c, b);
    lemma_edge_sign_swap(p, b, a);
    lemma_edge_sign_swap(a, c, p);
    lemma_edge_sign_swap(c, b, p);
    lemma_edge_sign_swap(b, a, p);
    lemma_edge_sign_swap(p, a, b);
    lemma_edge_sign_swap(p, b, c);
    lemma_edge_sign_swap(p, c, a);
}

/// Every corner of a triangle is inside it.
pub proof fn lemma_corners_in_triangle(a: (int, int), b: (int, int), c: (int, int))
    ensures
        in_triangle(a, a, b, c),
        in_triangle(b, a, b, c),
        in_triangle(c, a, b, c),
{
    assert(edge_sign(a, a, b) == 0) by (nonlinear_arith);
    assert(edge_sign(a, c, a) == 0) by (nonlinear_arith);
    assert(edge_sign(b, a, b) == 0) by (nonlinear_arith);
    assert(edge_sign(b, b, c) == 0) by (nonlinear_arith);
    assert(edge_sign(c, b, c) == 0) by (nonlinear_arith);
    assert(edge_sign(c, c, a) == 0) by (nonlinear_arith);
}

} // verus!

verus! {

pub open spec fn min3(a: int, b: int, c: int) -> int {
    if a <= b && a <= c { a } else if b <= c { b } else { c }
}

pub open spec fn max3(a: int, b: int, c: int) -> int {
    if a >= b && a >= c { a } else if b >= c { b } else { c }
}

/// First column scanned for triangle `abc`: its leftmost corner, but not left of the canvas.
pub open spec fn tri_x_lo(a: (int, int), b: (int, int), c: (int, int)) -> int {
    if min3(a.0, b.0, c.0) < 0 { 0 } else { min3(a.0, b.0, c.0) }
}

pub open spec fn tri_x_hi(a: (int, int), b: (int, int), c: (int, int), width: int) -> int {
    if max3(a.0, b.0, c.0) > width - 1 { width - 1 } else { max3(a.0, b.0, c.0) }
}

pub open spec fn tri_y_lo(a: (int, int), b: (int, int), c: (int, int)) -> int {
    if min3(a.1, b.1, c.1) < 0 { 0 } else { min3(a.1, b.1, c.1) }
}

pub open spec fn tri_y_hi(a: (int, int), b: (int, int), c: (int, int), height: int) -> int {
    if max3(a.1, b.1, c.1) > height - 1 { height - 1 } else { max3(a.1, b.1, c.1) }
}

/// The pixels painted when filling triangle `abc`: pixels of the canvas inside the
/// corners' bounding box that pass the containment test.
pub open spec fn triangle_hit(
    a: (int, int),
    b: (int, int),
    c: (int, int),
    width: int,
    height: int,
) -> spec_fn(int, int) -> bool {
    |x: int, y: int|
        on_canvas(x, y, width, height) && min3(a.0, b.0, c.0) <= x <= max3(a.0, b.0, c.0) && min3(
            a.1,
            b.1,
            c.1,
        ) <= y <= max3(a.1, b.1, c.1) && in_triangle((x, y), a, b, c)
}

/// The containment test of every scanned pixel computes without overflow.
pub open spec fn triangle_scan_fits(
    a: (int, int),
    b: (int, int),
    c: (int, int),
    width: int,
    height: int,
) -> bool {
    forall|x: int, y: int|
        tri_x_lo(a, b, c) <= x <= tri_x_hi(a, b, c, width) && tri_y_lo(a, b, c) <= y <= tri_y_hi(
            a,
            b,
            c,
            height,
        ) ==> #[trigger] tri_test_fits((x, y), a, b, c)
}

fn min_i32(a: i32, b: i32) -> (m: i32)
    ensures
        m == (if a <= b { a } else { b }),
{
    if a <= b { a } else { b }
}

fn max_i32(a: i32, b: i32) -> (m: i32)
    ensures
        m == (if a >= b { a } else { b }),
{
    if a >= b { a } else { b }
}

/// Pixels that filling triangle `abc` paints on a `width` x `height` canvas, in
/// row-major order.
pub fn triangle_pixels(a: (i32, i32), b: (i32, i32), c: (i32, i32), width: u32, height: u32) -> (px:
    Vec<(u32, u32)>)
    requires
        width <= i32::MAX,
        height <= i32::MAX,
        triangle_scan_fits(pt(a), pt(b), pt(c), width as int, height as int),
    ensures
        lists_exactly(px@, triangle_hit(pt(a), pt(b), pt(c), width as int, height as int)),
{
    let ghost hit = triangle_hit(pt(a), pt(b), pt(c), width as int, height as int);
    let min_x = max_i32(min_i32(min_i32(a.0, b.0), c.0), 0);
    let max_x = min_i32(max_i32(max_i32(a.0, b.0), c.0), width as i32 - 1);
    let min_y = max_i32(min_i32(min_i32(a.1, b.1), c.1), 0);
    let max_y = min_i32(max_i32(max_i32(a.1, b.1), c.1), height as i32 - 1);
    assert(min_x == tri_x_lo(pt(a), pt(b), pt(c)));
    assert(max_x == tri_x_hi(pt(a), pt(b), pt(c), width as int));
    assert(min_y == tri_y_lo(pt(a), pt(b), pt(c)));
    assert(max_y == tri_y_hi(pt(a), pt(b), pt(c), height as int));
    let mut out: Vec<(u32, u32)> = Vec::new();
    proof {
        lemma_scan_start(hit, min_x as int, max_x as int, min_y as int, max_y as int);
    }
    if min_y > max_y {
        proof {
            lemma_scan_done(out@, hit, min_x as int, min_y as int, min_x as int, max_x as int, min_y as int, max_y as int);
        }
        return out;
    }
    let mut y = min_y;
    while y <= max_y
        invariant
            min_y <= y <= max_y + 1,
            max_y < i32::MAX,
            max_x < i32::MAX,
            min_x >= 0,
            hits_within(hit, min_x as int, max_x as int, min_y as int, max_y as int),
            scanned_before(out@, hit, min_x as int, y as int),
            hit == triangle_hit(pt(a), pt(b), pt(c), width as int, height as int),
            triangle_scan_fits(pt(a), pt(b), pt(c), width as int, height as int),
            min_x == tri_x_lo(pt(a), pt(b), pt(c)),
            max_x == tri_x_hi(pt(a), pt(b), pt(c), width as int),
            min_y == tri_y_lo(pt(a), pt(b), pt(c)),
            max_y == tri_y_hi(pt(a), pt(b), pt(c), height as int),
        decreases max_y + 1 - y,
    {
        let mut x = min_x;
        while x <= max_x
            invariant
                min_x <= x,
                x <= max_x + 1 || x == min_x,
                max_x < i32::MAX,
                min_y <= y <= max_y,
                min_x >= 0,
                scanned_before(out@, hit, x as int, y as int),
                hit == triangle_hit(pt(a), pt(b), pt(c), width as int, height as int),
                triangle_scan_fits(pt(a), pt(b), pt(c), width as int, height as int),
                min_x == tri_x_lo(pt(a), pt(b), pt(c)),
                max_x == tri_x_hi(pt(a), pt(b), pt(c), width as int),
                min_y == tri_y_lo(pt(a), pt(b), pt(c)),
                max_y == tri_y_hi(pt(a), pt(b), pt(c), height as int),
            decreases max_x + 1 - x,
        {
            assert(tri_test_fits((x as int, y as int), pt(a), pt(b), pt(c)));
            let inside = point_in_tri((x, y), a, b, c);
            proof {
                lemma_scan_step(out@, hit, x as int, y as int);
            }
            if inside {
                out.push((x as u32, y as u32));
            }
            x = x + 1;
        }
        proof {
            lemma_scan_next_row(out@, hit, x as int, min_x as int, max_x as int, y as int, min_y as int, max_y as int);
        }
        y = y + 1;
    }
    proof {
        lemma_scan_done(out@, hit, min_x as int, y as int, min_x as int, max_x as int, min_y as int, max_y as int);
    }
    out
}

/// The signed areas cut out by `p` add up to that of `abc` and weight its corners to `p`
/// (barycentric coordinates, scaled by twice the area).
proof fn lemma_expand(x1: int, x2: int, y1: int, y2: int)
    ensures
        (x1 - x2) * (y1 - y2) == x1 * y1 - x1 * y2 - x2 * y1 + x2 * y2,
{
    assert((x1 - x2) * (y1 - y2) == x1 * y1 - x1 * y2 - x2 * y1 + x2 * y2) by (nonlinear_arith);
}

proof fn lemma_barycentric(p: (int, int), a: (int, int), b: (int, int), c: (int, int))
    ensures
        edge_sign(p, a, b) + edge_sign(p, b, c) + edge_sign(p, c, a) == edge_sign(a, b, c),
        edge_sign(a, b, c) * p.0 == edge_sign(p, b, c) * a.0 + edge_sign(p, c, a) * b.0
            + edge_sign(p, a, b) * c.0,
        edge_sign(a, b, c) * p.1 == edge_sign(p, b, c) * a.1 + edge_sign(p, c, a) * b.1
            + edge_sign(p, a, b) * c.1,
{
    lemma_expand(p.0, b.0, a.1, b.1);
    lemma_expand(a.0, b.0, p.1, b.1);
    lemma_expand(p.0, c.0, b.1, c.1);
    lemma_expand(b.0, c.0, p.1, c.1);
    lemma_expand(p.0, a.0, c.1, a.1);
    lemma_expand(c.0, a.0, p.1, a.1);
    lemma_expand(a.0, c.0, b.1, c.1);
    lemma_expand(b.0, c.0, a.1, c.1);
    assert(edge_sign(p, a, b) + edge_sign(p, b, c) + edge_sign(p, c, a) == edge_sign(a, b, c));
    lemma_edge_sign_swap(a, p, c);
    lemma_weights_at_origin(p.0 - c.0, p.1 - c.1, a.0 - c.0, a.1 - c.1, b.0 - c.0, b.1 - c.1);
    let (s, d1, d2, d3) = (edge_sign(a, b, c), edge_sign(p, a, b), edge_sign(p, b, c), edge_sign(
        p,
        c,
        a,
    ));
    lemma_shift_weights(s, d1, d2, d3, p.0, a.0, b.0, c.0);
    lemma_shift_weights(s, d1, d2, d3, p.1, a.1, b.1, c.1);
}

/// Barycentric weights with the third corner at the origin.
proof fn lemma_weights_at_origin(qx: int, qy: int, ux: int, uy: int, vx: int, vy: int)
    ensures
        (ux * vy - vx * uy) * qx == (qx * vy - vx * qy) * ux + (ux * qy - qx * uy) * vx,
        (ux * vy - vx * uy) * qy == (qx * vy - vx * qy) * uy + (ux * qy - qx * uy) * vy,
{
    assert((ux * vy - vx * uy) * qx == (qx * vy - vx * qy) * ux + (ux * qy - qx * uy) * vx) by (
    nonlinear_arith);
    assert((ux * vy - vx * uy) * qy == (qx * vy - vx * qy) * uy + (ux * qy - qx * uy) * vy) by (
    nonlinear_arith);
}

/// Moving the origin back from the third corner.
proof fn lemma_shift_weights(s: int, d1: int, d2: int, d3: int, p: int, a: int, b: int, c: int)
    requires
        s == d1 + d2 + d3,
        s * (p - c) == d2 * (a - c) + d3 * (b - c),
    ensures
        s * p == d2 * a + d3 * b + d1 * c,
{
    assert(s * p == d2 * a + d3 * b + d1 * c) by (nonlinear_arith)
        requires
            s == d1 + d2 + d3,
            s * (p - c) == d2 * (a - c) + d3 * (b - c),
    ;
}

/// A value that non-negative weights average out of three values in `[lo, hi]` is in
/// `[lo, hi]` too.
proof fn lemma_weighted_between(
    w1: int,
    w2: int,
    w3: int,
    v1: int,
    v2: int,
    v3: int,
    v: int,
    lo: int,
    hi: int,
)
    requires
        0 <= w1,
        0 <= w2,
        0 <= w3,
        0 < w1 + w2 + w3,
        (w1 + w2 + w3) * v == w1 * v1 + w2 * v2 + w3 * v3,
        lo <= v1 <= hi,
        lo <= v2 <= hi,
        lo <= v3 <= hi,
    ensures
        lo <= v <= hi,
{
    assert(w1 * lo <= w1 * v1 <= w1 * hi) by (nonlinear_arith)
        requires
            0 <= w1,
            lo <= v1 <= hi,
    ;
    assert(w2 * lo <= w2 * v2 <= w2 * hi) by (nonlinear_arith)
        requires
            0 <= w2,
            lo <= v2 <= hi,
    ;
    assert(w3 * lo <= w3 * v3 <= w3 * hi) by (nonlinear_arith)
        requires
            0 <= w3,
            lo <= v3 <= hi,
    ;
    let s = w1 + w2 + w3;
    assert(s * lo == w1 * lo + w2 * lo + w3 * lo) by (nonlinear_arith)
        requires
            s == w1 + w2 + w3,
    ;
    assert(s * hi == w1 * hi + w2 * hi + w3 * hi) by (nonlinear_arith)
        requires
            s == w1 + w2 + w3,
    ;
    assert(lo <= v <= hi) by (nonlinear_arith)
        requires
            0 < s,
            s * lo <= s * v,
            s * v <= s * hi,
    ;
}

/// A point of a proper (non-flat) triangle lies within the bounding box of its corners.
proof fn lemma_in_triangle_bbox(p: (int, int), a: (int, int), b: (int, int), c: (int, int))
    requires
        edge_sign(a, b, c) != 0,
        in_triangle(p, a, b, c),
    ensures
        min3(a.0, b.0, c.0) <= p.0 <= max3(a.0, b.0, c.0),
        min3(a.1, b.1, c.1) <= p.1 <= max3(a.1, b.1, c.1),
{
    lemma_barycentric(p, a, b, c);
    let d1 = edge_sign(p, a, b);
    let d2 = edge_sign(p, b, c);
    let d3 = edge_sign(p, c, a);
    let s = edge_sign(a, b, c);
    let (lx, hx, ly, hy) = (min3(a.0, b.0, c.0), max3(a.0, b.0, c.0), min3(a.1, b.1, c.1), max3(
        a.1,
        b.1,
        c.1,
    ));
    if s > 0 {
        lemma_weighted_between(d2, d3, d1, a.0, b.0, c.0, p.0, lx, hx);
        lemma_weighted_between(d2, d3, d1, a.1, b.1, c.1, p.1, ly, hy);
    } else {
        assert((-d2 + -d3 + -d1) * p.0 == (-d2) * a.0 + (-d3) * b.0 + (-d1) * c.0) by (
        nonlinear_arith)
            requires
                s * p.0 == d2 * a.0 + d3 * b.0 + d1 * c.0,
                s == d1 + d2 + d3,
        ;
        assert((-d2 + -d3 + -d1) * p.1 == (-d2) * a.1 + (-d3) * b.1 + (-d1) * c.1) by (
        nonlinear_arith)
            requires
                s * p.1 == d2 * a.1 + d3 * b.1 + d1 * c.1,
                s == d1 + d2 + d3,
        ;
        lemma_weighted_between(-d2, -d3, -d1, a.0, b.0, c.0, p.0, lx, hx);
        lemma_weighted_between(-d2, -d3, -d1, a.1, b.1, c.1, p.1, ly, hy);
    }
}

/// Filling a proper (non-flat) triangle paints exactly the canvas pixels that lie in it:
/// a pixel of the canvas is listed if and only if it passes the containment test.
pub proof fn lemma_triangle_fill_exact(
    px: Seq<(u32, u32)>,
    a: (int, int),
    b: (int, int),
    c: (int, int),
    width: int,
    height: int,
)
    requires
        0 <= width <= u32::MAX,
        0 <= height <= u32::MAX,
        edge_sign(a, b, c) != 0,
        lists_exactly(px, triangle_hit(a, b, c, width, height)),
    ensures
        forall|x: int, y: int|
            #![trigger on_canvas(x, y, width, height)]
            on_canvas(x, y, width, height) ==> (px.contains((x as u32, y as u32)) <==> in_triangle(
                (x, y),
                a,
                b,
                c,
            )),
{
    let hit = triangle_hit(a, b, c, width, height);
    assert forall|x: int, y: int| on_canvas(x, y, width, height) implies (px.contains(
        (x as u32, y as u32),
    ) <==> in_triangle((x, y), a, b, c)) by {
        if in_triangle((x, y), a, b, c) {
            lemma_in_triangle_bbox((x, y), a, b, c);
            assert(hit(x, y));
        }
        if px.contains((x as u32, y as u32)) {
            let k = choose|k: int| 0 <= k < px.len() && px[k] == (x as u32, y as u32);
            assert(hit(px[k].0 as int, px[k].1 as int));
            assert(px[k].0 as int == x && px[k].1 as int == y);
        }
    }
}

/// Every corner of the triangle that lies on the canvas is painted, whatever the shape.
pub proof fn lemma_triangle_fill_corners(
    px: Seq<(u32, u32)>,
    a: (int, int),
    b: (int, int),
    c: (int, int),
    width: int,
    height: int,
)
    requires
        lists_exactly(px, triangle_hit(a, b, c, width, height)),
    ensures
        on_canvas(a.0, a.1, width, height) ==> px.contains((a.0 as u32, a.1 as u32)),
        on_canvas(b.0, b.1, width, height) ==> px.contains((b.0 as u32, b.1 as u32)),
        on_canvas(c.0, c.1, width, height) ==> px.contains((c.0 as u32, c.1 as u32)),
{
    let hit = triangle_hit(a, b, c, width, height);
    lemma_corners_in_triangle(a, b, c);
    if on_canvas(a.0, a.1, width, height) {
        assert(hit(a.0, a.1));
    }
    if on_canvas(b.0, b.1, width, height) {
        assert(hit(b.0, b.1));
    }
    if on_canvas(c.0, c.1, width, height) {
        assert(hit(c.0, c.1));
    }
}

/// The filled pixels do not depend on the order in which the corners are named: rotating
/// or reversing the corners gives the same listing.
pub proof fn lemma_triangle_fill_corner_order(
    s1: Seq<(u32, u32)>,
    s2: Seq<(u32, u32)>,
    s3: Seq<(u32, u32)>,
    a: (int, int),
    b: (int, int),
    c: (int, int),
    width: int,
    height: int,
)
    requires
        lists_exactly(s1, triangle_hit(a, b, c, width, height)),
        lists_exactly(s2, triangle_hit(c, a, b, width, height)),
        lists_exactly(s3, triangle_hit(a, c, b, width, height)),
    ensures
        s1 == s2,
        s1 == s3,
{
    let h1 = triangle_hit(a, b, c, width, height);
    let h2 = triangle_hit(c, a, b, width, height);
    let h3 = triangle_hit(a, c, b, width, height);
    assert forall|x: int, y: int|
        #![trigger h1(x, y)]
        #![trigger h2(x, y)]
        0 <= x <= u32::MAX && 0 <= y <= u32::MAX implies h1(x, y) == h2(x, y) by {
        lemma_in_triangle_rotation((x, y), c, a, b);
    }
    assert forall|x: int, y: int|
        #![trigger h1(x, y)]
        #![trigger h3(x, y)]
        0 <= x <= u32::MAX && 0 <= y <= u32::MAX implies h1(x, y) == h3(x, y) by {
        lemma_in_triangle_reversal((x, y), a, b, c);
    }
    lemma_lists_exactly_unique(s1, h1, s2, h2);
    lemma_lists_exactly_unique(s1, h1, s3, h3);
}

} // verus!

verus! {

/// The pixels painted by a dot of radius `r` centred on `(cx, cy)`: canvas pixels whose
/// offsets from the centre lie in `[-r, r]` and within distance `r`.
pub open spec fn disc_hit(cx: int, cy: int, r: int, width: int, height: int) -> spec_fn(
    int,
    int,
) -> bool {
    |x: int, y: int|
        on_canvas(x, y, width, height) && -r <= x - cx <= r && -r <= y - cy <= r && (x - cx) * (x
            - cx) + (y - cy) * (y - cy) <= r * r
}

/// Offsets up to `r` around `(cx, cy)` stay in `i32`, and `2 r^2` too.
pub open spec fn disc_fits(cx: int, cy: int, r: int) -> bool {
    &&& i32::MIN < r <= 32767
    &&& r >= 0 ==> fits_i32(cx - r) && fits_i32(cx + r) && fits_i32(cy - r) && fits_i32(cy + r)
}

/// Pixels of a filled dot of radius `r` centred on `(cx, cy)`, in row-major order
/// (each painted once).
pub fn disc_pixels(cx: i32, cy: i32, r: i32, width: u32, height: u32) -> (px: Vec<(u32, u32)>)
    requires
        disc_fits(cx as int, cy as int, r as int),
    ensures
        lists_exactly(px@, disc_hit(cx as int, cy as int, r as int, width as int, height as int)),
{
    let ghost hit = disc_hit(cx as int, cy as int, r as int, width as int, height as int);
    let mut out: Vec<(u32, u32)> = Vec::new();
    if r < 0 {
        proof {
            assert(hits_within(hit, 0, -1, 0, -1));
            lemma_scan_start(hit, 0, -1, 0, -1);
            lemma_scan_done(out@, hit, 0, 0, 0, -1, 0, -1);
        }
        return out;
    }
    let ghost (x_lo, x_hi, y_lo, y_hi) = (cx - r, cx + r, cy - r, cy + r);
    assert(hits_within(hit, x_lo, x_hi, y_lo, y_hi));
    proof {
        lemma_scan_start(hit, x_lo, x_hi, y_lo, y_hi);
    }
    let mut dy: i32 = -r;
    while dy <= r
        invariant
            0 <= r <= 32767,
            -r <= dy <= r + 1,
            disc_fits(cx as int, cy as int, r as int),
            hits_within(hit, x_lo, x_hi, y_lo, y_hi),
            x_lo == cx - r,
            x_hi == cx + r,
            y_lo == cy - r,
            y_hi == cy + r,
            hit == disc_hit(cx as int, cy as int, r as int, width as int, height as int),
            scanned_before(out@, hit, x_lo, cy + dy),
        decreases r + 1 - dy,
    {
        let mut dx: i32 = -r;
        while dx <= r
            invariant
                0 <= r <= 32767,
                -r <= dy <= r,
                -r <= dx <= r + 1,
                disc_fits(cx as int, cy as int, r as int),
                hit == disc_hit(cx as int, cy as int, r as int, width as int, height as int),
                scanned_before(out@, hit, cx + dx, cy + dy),
            decreases r + 1 - dx,
        {
            assert(0 <= dx * dx <= 32767 * 32767 && 0 <= dy * dy <= 32767 * 32767
                && r * r <= 32767 * 32767) by (nonlinear_arith)
                requires
                    -32767 <= dx <= 32767,
                    -32767 <= dy <= 32767,
                    0 <= r <= 32767,
            ;
            let ghost gx = cx + dx;
            let ghost gy = cy + dy;
            proof {
                lemma_scan_step(out@, hit, gx, gy);
            }
            if dx * dx + dy * dy <= r * r {
                let x = cx + dx;
                let y = cy + dy;
                if x >= 0 && y >= 0 && (x as u32) < width && (y as u32) < height {
                    out.push((x as u32, y as u32));
                } else {
                    assert(!hit(gx, gy));
                }
            } else {
                assert(!hit(gx, gy));
            }
            dx = dx + 1;
        }
        proof {
            lemma_scan_next_row(out@, hit, cx + dx, x_lo, x_hi, cy + dy, y_lo, y_hi);
        }
        dy = dy + 1;
    }
    proof {
        lemma_scan_done(out@, hit, x_lo, cy + dy, x_lo, x_hi, y_lo, y_hi);
    }
    out
}

/// A square no larger than `r^2` has a root within `[-r, r]`.
proof fn lemma_square_bound(d: int, e: int, r: int)
    requires
        r >= 0,
        d * d + e * e <= r * r,
    ensures
        -r <= d <= r,
{
    assert(e * e >= 0) by (nonlinear_arith);
    if d > r {
        assert(d * d > r * r) by (nonlinear_arith)
            requires
                d > r,
                r >= 0,
        ;
    }
    if d < -r {
        assert(d * d > r * r) by (nonlinear_arith)
            requires
                d < -r,
                r >= 0,
        ;
    }
}

/// A dot is round: a pixel of the canvas is painted exactly when its squared Euclidean
/// distance from the centre is at most `r^2`.
pub proof fn lemma_disc_is_round(
    px: Seq<(u32, u32)>,
    cx: int,
    cy: int,
    r: int,
    width: int,
    height: int,
)
    requires
        r >= 0,
        0 <= width <= u32::MAX,
        0 <= height <= u32::MAX,
        lists_exactly(px, disc_hit(cx, cy, r, width, height)),
    ensures
        forall|x: int, y: int|
            #![trigger on_canvas(x, y, width, height)]
            on_canvas(x, y, width, height) ==> (px.contains((x as u32, y as u32)) <==> (x - cx) * (x
                - cx) + (y - cy) * (y - cy) <= r * r),
{
    let hit = disc_hit(cx, cy, r, width, height);
    assert forall|x: int, y: int| on_canvas(x, y, width, height) implies (px.contains(
        (x as u32, y as u32),
    ) <==> (x - cx) * (x - cx) + (y - cy) * (y - cy) <= r * r) by {
        if (x - cx) * (x - cx) + (y - cy) * (y - cy) <= r * r {
            lemma_square_bound(x - cx, y - cy, r);
            lemma_square_bound(y - cy, x - cx, r);
            assert(hit(x, y));
        }
        if px.contains((x as u32, y as u32)) {
            let k = choose|k: int| 0 <= k < px.len() && px[k] == (x as u32, y as u32);
            assert(hit(px[k].0 as int, px[k].1 as int));
            assert(px[k].0 as int == x && px[k].1 as int == y);
        }
    }
}

/// A dot of negative radius paints nothing.
pub proof fn lemma_disc_negative_radius_empty(
    px: Seq<(u32, u32)>,
    cx: int,
    cy: int,
    r: int,
    width: int,
    height: int,
)
    requires
        r < 0,
        lists_exactly(px, disc_hit(cx, cy, r, width, height)),
    ensures
        px.len() == 0,
{
    if px.len() > 0 {
        assert(disc_hit(cx, cy, r, width, height)(px[0].0 as int, px[0].1 as int));
    }
}

/// The pixels painted by filling the `w` x `h` rectangle whose top-left corner is
/// `(x0, y0)`: those of the rectangle that lie on the canvas.
pub open spec fn rect_hit(x0: int, y0: int, w: int, h: int, width: int, height: int) -> spec_fn(
    int,
    int,
) -> bool {
    |x: int, y: int| on_canvas(x, y, width, height) && x0 <= x < x0 + w && y0 <= y < y0 + h
}

/// Pixels of the `w` x `h` rectangle at `(x0, y0)` that lie on the canvas, in row-major order.
pub fn rect_pixels(x0: u32, y0: u32, w: u32, h: u32, width: u32, height: u32) -> (px: Vec<
    (u32, u32),
>)
    ensures
        lists_exactly(
            px@,
            rect_hit(x0 as int, y0 as int, w as int, h as int, width as int, height as int),
        ),
{
    let ghost hit = rect_hit(x0 as int, y0 as int, w as int, h as int, width as int, height as int);
    let x_end = if x0.checked_add(w).is_some() && x0 + w < width { x0 + w } else { width };
    let y_end = if y0.checked_add(h).is_some() && y0 + h < height { y0 + h } else { height };
    let mut out: Vec<(u32, u32)> = Vec::new();
    assert(hits_within(hit, x0 as int, x_end - 1, y0 as int, y_end - 1));
    proof {
        lemma_scan_start(hit, x0 as int, x_end - 1, y0 as int, y_end - 1);
    }
    let mut y = y0;
    while y < y_end
        invariant
            y0 <= y,
            y <= y_end || y == y0,
            y_end <= height,
            x_end <= width,
            x_end as int == (if x0 + w < width { x0 + w } else { width as int }),
            y_end as int == (if y0 + h < height { y0 + h } else { height as int }),
            hits_within(hit, x0 as int, x_end - 1, y0 as int, y_end - 1),
            hit == rect_hit(x0 as int, y0 as int, w as int, h as int, width as int, height as int),
            scanned_before(out@, hit, x0 as int, y as int),
        decreases y_end - y,
    {
        let mut x = x0;
        while x < x_end
            invariant
                x0 <= x,
                x <= x_end || x == x0,
                y0 <= y < y_end,
                y_end <= height,
                x_end <= width,
                x_end as int == (if x0 + w < width { x0 + w } else { width as int }),
                y_end as int == (if y0 + h < height { y0 + h } else { height as int }),
                hit == rect_hit(x0 as int, y0 as int, w as int, h as int, width as int, height as int),
                scanned_before(out@, hit, x as int, y as int),
            decreases x_end - x,
        {
            proof {
                lemma_scan_step(out@, hit, x as int, y as int);
            }
            out.push((x, y));
            x = x + 1;
        }
        proof {
            lemma_scan_next_row(out@, hit, x as int, x0 as int, x_end - 1, y as int, y0 as int, y_end - 1);
        }
        y = y + 1;
    }
    proof {
        lemma_scan_done(out@, hit, x0 as int, y as int, x0 as int, x_end - 1, y0 as int, y_end - 1);
    }
    out
}

/// A filled rectangle covers exactly its own pixels: a pixel of the canvas is painted if
/// and only if it lies at most `w - 1` columns right of `x0` and `h - 1` rows below `y0`.
pub proof fn lemma_rect_fill_exact(
    px: Seq<(u32, u32)>,
    x0: int,
    y0: int,
    w: int,
    h: int,
    width: int,
    height: int,
)
    requires
        0 <= width <= u32::MAX,
        0 <= height <= u32::MAX,
        lists_exactly(px, rect_hit(x0, y0, w, h, width, height)),
    ensures
        forall|x: int, y: int|
            #![trigger on_canvas(x, y, width, height)]
            on_canvas(x, y, width, height) ==> (px.contains((x as u32, y as u32)) <==> (0 <= x - x0
                < w && 0 <= y - y0 < h)),
{
    let hit = rect_hit(x0, y0, w, h, width, height);
    assert forall|x: int, y: int| on_canvas(x, y, width, height) implies (px.contains(
        (x as u32, y as u32),
    ) <==> (0 <= x - x0 < w && 0 <= y - y0 < h)) by {
        if 0 <= x - x0 < w && 0 <= y - y0 < h {
            assert(hit(x, y));
        }
        if px.contains((x as u32, y as u32)) {
            let k = choose|k: int| 0 <= k < px.len() && px[k] == (x as u32, y as u32);
            assert(hit(px[k].0 as int, px[k].1 as int));
            assert(px[k].0 as int == x && px[k].1 as int == y);
        }
    }
}

} // verus!
