use vstd::prelude::*;

verus! {

/// Pixel `(x, y)` lies on a `width` x `height` canvas.
pub open spec fn on_canvas(x: int, y: int, width: int, height: int) -> bool {
    0 <= x < width && 0 <= y < height
}

/// Pixel `(px, py)` comes strictly before `(x, y)` in row-major order
/// (by row first, then by column).
pub open spec fn before(px: int, py: int, x: int, y: int) -> bool {
    py < y || (py == y && px < x)
}

/// The pixels of `s` are listed in strictly increasing row-major order,
/// so no pixel occurs twice.
pub open spec fn row_major(s: Seq<(u32, u32)>) -> bool {
    forall|i: int, j: int|
        #![trigger s[i], s[j]]
        0 <= i < j < s.len() ==> before(s[i].0 as int, s[i].1 as int, s[j].0 as int, s[j].1 as int)
}

/// `s` lists, once each and in row-major order, exactly the pixels that satisfy `hit`.
pub open spec fn lists_exactly(s: Seq<(u32, u32)>, hit: spec_fn(int, int) -> bool) -> bool {
    &&& row_major(s)
    &&& forall|k: int| 0 <= k < s.len() ==> #[trigger] hit(s[k].0 as int, s[k].1 as int)
    &&& forall|x: int, y: int|
        #![trigger hit(x, y)]
        hit(x, y) ==> s.contains((x as u32, y as u32))
}

/// Loop state of a row-major scan that has visited every pixel before `(x, y)`.
pub open spec fn scanned_before(
    s: Seq<(u32, u32)>,
    hit: spec_fn(int, int) -> bool,
    x: int,
    y: int,
) -> bool {
    &&& row_major(s)
    &&& forall|k: int|
        0 <= k < s.len() ==> #[trigger] hit(s[k].0 as int, s[k].1 as int) && before(
            s[k].0 as int,
            s[k].1 as int,
            x,
            y,
        )
    &&& forall|px: int, py: int|
        #![trigger hit(px, py)]
        hit(px, py) && before(px, py, x, y) ==> s.contains((px as u32, py as u32))
}

/// Every pixel satisfying `hit` lies in the window `[x_lo, x_hi] x [y_lo, y_hi]` and has
/// coordinates that fit in `u32`.
pub open spec fn hits_within(
    hit: spec_fn(int, int) -> bool,
    x_lo: int,
    x_hi: int,
    y_lo: int,
    y_hi: int,
) -> bool {
    forall|x: int, y: int|
        #![trigger hit(x, y)]
        hit(x, y) ==> x_lo <= x <= x_hi && y_lo <= y <= y_hi && 0 <= x <= u32::MAX && 0 <= y
            <= u32::MAX
}

/// Nothing has been scanned yet at the first pixel of the window.
pub(crate) proof fn lemma_scan_start(hit: spec_fn(int, int) -> bool, x_lo: int, x_hi: int, y_lo: int, y_hi: int)
    requires
        hits_within(hit, x_lo, x_hi, y_lo, y_hi),
    ensures
        scanned_before(Seq::empty(), hit, x_lo, y_lo),
{
}

/// Visiting pixel `(x, y)`: it is appended exactly when it is a hit.
pub(crate) proof fn lemma_scan_step(
    s: Seq<(u32, u32)>,
    hit: spec_fn(int, int) -> bool,
    x: int,
    y: int,
)
    requires
        scanned_before(s, hit, x, y),
        hit(x, y) ==> 0 <= x <= u32::MAX && 0 <= y <= u32::MAX,
    ensures
        hit(x, y) ==> scanned_before(s.push((x as u32, y as u32)), hit, x + 1, y),
        !hit(x, y) ==> scanned_before(s, hit, x + 1, y),
{
    if hit(x, y) {
        let t = s.push((x as u32, y as u32));
        assert forall|px: int, py: int|
            #![trigger hit(px, py)]
            hit(px, py) && before(px, py, x + 1, y) implies t.contains((px as u32, py as u32)) by {
            if before(px, py, x, y) {
                let k = choose|k: int| 0 <= k < s.len() && s[k] == (px as u32, py as u32);
                assert(t[k] == s[k]);
            } else {
                assert(px == x && py == y);
                assert(t[s.len() as int] == (x as u32, y as u32));
            }
        }
        assert forall|k: int| 0 <= k < t.len() implies #[trigger] hit(t[k].0 as int, t[k].1 as int)
            && before(t[k].0 as int, t[k].1 as int, x + 1, y) by {
            if k < s.len() {
                assert(t[k] == s[k]);
                assert(hit(s[k].0 as int, s[k].1 as int));
                assert(before(s[k].0 as int, s[k].1 as int, x, y));
            } else {
                assert(t[k] == (x as u32, y as u32));
                assert(t[k].0 as int == x);
                assert(t[k].1 as int == y);
            }
        }
        assert forall|i: int, j: int| 0 <= i < j < t.len() implies #[trigger] before(
            t[i].0 as int,
            t[i].1 as int,
            t[j].0 as int,
            t[j].1 as int,
        ) by {
            assert(t[i] == s[i]);
            assert(hit(s[i].0 as int, s[i].1 as int));
            if j < s.len() {
                assert(t[j] == s[j]);
            }
        }
    } else {
        assert forall|px: int, py: int|
            #![trigger hit(px, py)]
            hit(px, py) && before(px, py, x + 1, y) implies s.contains((px as u32, py as u32)) by {
            if !before(px, py, x, y) {
                assert(px == x && py == y);
            }
        }
    }
}

/// Moving from the end of row `y` (any column past the window) to the start of row `y + 1`.
pub(crate) proof fn lemma_scan_next_row(
    s: Seq<(u32, u32)>,
    hit: spec_fn(int, int) -> bool,
    x_end: int,
    x_lo: int,
    x_hi: int,
    y: int,
    y_lo: int,
    y_hi: int,
)
    requires
        scanned_before(s, hit, x_end, y),
        hits_within(hit, x_lo, x_hi, y_lo, y_hi),
        x_end > x_hi,
    ensures
        scanned_before(s, hit, x_lo, y + 1),
{
    assert forall|px: int, py: int|
        #![trigger hit(px, py)]
        hit(px, py) && before(px, py, x_lo, y + 1) implies s.contains((px as u32, py as u32)) by {
        assert(before(px, py, x_end, y));
    }
}

/// A scan that has passed the last row of the window lists exactly the hits.
pub(crate) proof fn lemma_scan_done(
    s: Seq<(u32, u32)>,
    hit: spec_fn(int, int) -> bool,
    x: int,
    y: int,
    x_lo: int,
    x_hi: int,
    y_lo: int,
    y_hi: int,
)
    requires
        scanned_before(s, hit, x, y),
        hits_within(hit, x_lo, x_hi, y_lo, y_hi),
        y > y_hi,
    ensures
        lists_exactly(s, hit),
{
}

} // verus!

verus! {

proof fn lemma_before_strict_order(p: (u32, u32), q: (u32, u32), r: (u32, u32))
    ensures
        !(before(p.0 as int, p.1 as int, q.0 as int, q.1 as int) && before(
            q.0 as int,
            q.1 as int,
            p.0 as int,
            p.1 as int,
        )),
        before(p.0 as int, p.1 as int, q.0 as int, q.1 as int) && before(
            q.0 as int,
            q.1 as int,
            r.0 as int,
            r.1 as int,
        ) ==> before(p.0 as int, p.1 as int, r.0 as int, r.1 as int),
        before(p.0 as int, p.1 as int, q.0 as int, q.1 as int) ==> p != q,
        p != q ==> before(p.0 as int, p.1 as int, q.0 as int, q.1 as int) || before(
            q.0 as int,
            q.1 as int,
            p.0 as int,
            p.1 as int,
        ),
{
}

/// Two row-major listings of the same pixels are the same listing.
pub proof fn lemma_row_major_unique(s1: Seq<(u32, u32)>, s2: Seq<(u32, u32)>)
    requires
        row_major(s1),
        row_major(s2),
        forall|q: (u32, u32)| s1.contains(q) <==> s2.contains(q),
    ensures
        s1 == s2,
    decreases s1.len(),
{
    if s1.len() == 0 {
        if s2.len() > 0 {
            assert(s2.contains(s2[0]));
        }
        assert(s1 =~= s2);
    } else {
        assert(s1.contains(s1[0]));
        assert(s2.len() > 0);
        assert(s2.contains(s2[0]));
        let j = choose|j: int| 0 <= j < s2.len() && s2[j] == s1[0];
        let i = choose|i: int| 0 <= i < s1.len() && s1[i] == s2[0];
        if s1[0] != s2[0] {
            assert(j > 0);
            assert(i > 0);
            assert(before(s2[0].0 as int, s2[0].1 as int, s2[j].0 as int, s2[j].1 as int));
            assert(before(s1[0].0 as int, s1[0].1 as int, s1[i].0 as int, s1[i].1 as int));
            lemma_before_strict_order(s1[0], s2[0], s2[0]);
        }
        let t1 = s1.drop_first();
        let t2 = s2.drop_first();
        assert forall|q: (u32, u32)| t1.contains(q) <==> t2.contains(q) by {
            if t1.contains(q) {
                let k = choose|k: int| 0 <= k < t1.len() && t1[k] == q;
                assert(s1[k + 1] == q);
                assert(before(s1[0].0 as int, s1[0].1 as int, s1[k + 1].0 as int, s1[k + 1].1 as int));
                lemma_before_strict_order(s1[0], q, q);
                assert(s1.contains(q));
                let m = choose|m: int| 0 <= m < s2.len() && s2[m] == q;
                assert(m != 0);
                assert(t2[m - 1] == q);
            }
            if t2.contains(q) {
                let k = choose|k: int| 0 <= k < t2.len() && t2[k] == q;
                assert(s2[k + 1] == q);
                assert(before(s2[0].0 as int, s2[0].1 as int, s2[k + 1].0 as int, s2[k + 1].1 as int));
                lemma_before_strict_order(s2[0], q, q);
                assert(s2.contains(q));
                let m = choose|m: int| 0 <= m < s1.len() && s1[m] == q;
                assert(m != 0);
                assert(t1[m - 1] == q);
            }
        }
        assert forall|a: int, b: int| 0 <= a < b < t1.len() implies #[trigger] before(
            t1[a].0 as int,
            t1[a].1 as int,
            t1[b].0 as int,
            t1[b].1 as int,
        ) by {
            assert(t1[a] == s1[a + 1] && t1[b] == s1[b + 1]);
        }
        assert forall|a: int, b: int| 0 <= a < b < t2.len() implies #[trigger] before(
            t2[a].0 as int,
            t2[a].1 as int,
            t2[b].0 as int,
            t2[b].1 as int,
        ) by {
            assert(t2[a] == s2[a + 1] && t2[b] == s2[b + 1]);
        }
        lemma_row_major_unique(t1, t2);
        assert(s1 =~= s2) by {
            assert forall|k: int| 0 <= k < s1.len() implies s1[k] == s2[k] by {
                if k > 0 {
                    assert(s1[k] == t1[k - 1]);
                    assert(s2[k] == t2[k - 1]);
                }
            }
        }
    }
}

/// Listings of the same pixel predicate are equal: a row-major listing of exactly the
/// pixels satisfying `hit` is unique.
pub proof fn lemma_lists_exactly_unique(
    s1: Seq<(u32, u32)>,
    h1: spec_fn(int, int) -> bool,
    s2: Seq<(u32, u32)>,
    h2: spec_fn(int, int) -> bool,
)
    requires
        lists_exactly(s1, h1),
        lists_exactly(s2, h2),
        forall|x: int, y: int|
            #![trigger h1(x, y)]
            #![trigger h2(x, y)]
            0 <= x <= u32::MAX && 0 <= y <= u32::MAX ==> h1(x, y) == h2(x, y),
    ensures
        s1 == s2,
{
    assert forall|q: (u32, u32)| s1.contains(q) <==> s2.contains(q) by {
        if s1.contains(q) {
            let k = choose|k: int| 0 <= k < s1.len() && s1[k] == q;
            assert(h1(s1[k].0 as int, s1[k].1 as int));
            assert(h2(q.0 as int, q.1 as int));
        }
        if s2.contains(q) {
            let k = choose|k: int| 0 <= k < s2.len() && s2[k] == q;
            assert(h2(s2[k].0 as int, s2[k].1 as int));
            assert(h1(q.0 as int, q.1 as int));
        }
    }
    lemma_row_major_unique(s1, s2);
}

} // verus!
