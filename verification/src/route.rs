use std::collections::BTreeMap;
use vstd::prelude::*;

verus! {

broadcast use {vstd::std_specs::btree::group_btree_axioms, vstd::laws_cmp::group_laws_cmp};

/// Most parent links that route reconstruction follows (a guard against cycles).
pub const MAX_BACKTRACK_LINKS: usize = 50_001;

/// Grid cell key.
pub type CellKey = (i32, i32);

/// The keys reached from `cur` by following at most `budget` parent links, stopping at
/// the first key without a parent (`cur` itself excluded).
pub open spec fn ancestors(parent: Map<CellKey, CellKey>, cur: CellKey, budget: nat) -> Seq<CellKey>
    decreases budget,
{
    if budget == 0 || !parent.contains_key(cur) {
        Seq::empty()
    } else {
        seq![parent[cur]] + ancestors(parent, parent[cur], (budget - 1) as nat)
    }
}

/// Point recorded for cell `k`, if any.
pub open spec fn point_of<P>(points: Map<CellKey, P>, k: CellKey) -> Option<P> {
    if points.contains_key(k) {
        Some(points[k])
    } else {
        None
    }
}

/// The route to `arrival`: the chain of cells from the farthest ancestor reached down to
/// `arrival`, each replaced by its recorded point (cells without a point are skipped).
pub open spec fn backtrack_spec<P>(
    parent: Map<CellKey, CellKey>,
    points: Map<CellKey, P>,
    arrival: CellKey,
) -> Seq<P> {
    (seq![arrival] + ancestors(parent, arrival, MAX_BACKTRACK_LINKS as nat)).reverse().filter_map(
        |k: CellKey| point_of(points, k),
    )
}

/// Rebuilds the route ending in cell `arrival_key` by following `parent_map` back towards
/// the start (at most 50 001 links), and returns the recorded points from the start end.
pub fn backtrack_route<P: Copy>(
    _start: P,
    arrival_key: CellKey,
    parent_map: &BTreeMap<CellKey, CellKey>,
    point_map: &BTreeMap<CellKey, P>,
) -> (route: Vec<P>)
    ensures
        route@ == backtrack_spec(parent_map@, point_map@, arrival_key),
{
    let ghost target = seq![arrival_key] + ancestors(parent_map@, arrival_key, MAX_BACKTRACK_LINKS as nat);
    let mut keys: Vec<CellKey> = Vec::new();
    keys.push(arrival_key);
    let mut current = arrival_key;
    let mut guard: usize = 0;
    assert(keys@ =~= seq![arrival_key]);
    loop
        invariant_except_break
            guard < MAX_BACKTRACK_LINKS,
            keys@ + ancestors(parent_map@, current, (MAX_BACKTRACK_LINKS - guard) as nat) == target,
        ensures
            keys@ == target,
        decreases MAX_BACKTRACK_LINKS - guard,
    {
        match parent_map.get(&current) {
            Some(p) => {
                let parent = *p;
                let ghost before = keys@;
                let ghost budget = (MAX_BACKTRACK_LINKS - guard) as nat;
                assert(budget > 0);
                assert(ancestors(parent_map@, current, budget) == seq![parent] + ancestors(
                    parent_map@,
                    parent,
                    (budget - 1) as nat,
                ));
                keys.push(parent);
                current = parent;
                guard = guard + 1;
                assert(keys@ + ancestors(parent_map@, current, (MAX_BACKTRACK_LINKS - guard) as nat)
                    =~= before + (seq![parent] + ancestors(parent_map@, parent, (budget - 1) as nat)));
                if guard > 50_000 {
                    assert(ancestors(parent_map@, current, 0) =~= Seq::<CellKey>::empty());
                    assert(keys@ =~= target);
                    break ;
                }
            },
            None => {
                assert(keys@ =~= target);
                break ;
            },
        }
    }
    let ghost rev = keys@.reverse();
    let ghost f = |k: CellKey| point_of(point_map@, k);
    let mut route: Vec<P> = Vec::new();
    let n = keys.len();
    let mut j: usize = 0;
    while j < n
        invariant
            n == keys@.len(),
            rev == keys@.reverse(),
            f == (|k: CellKey| point_of(point_map@, k)),
            j <= n,
            route@ == rev.take(j as int).filter_map(f),
        decreases n - j,
    {
        let k = keys[n - 1 - j];
        assert(rev[j as int] == k);
        assert(rev.take(j as int + 1).drop_last() =~= rev.take(j as int));
        assert(rev.take(j as int + 1).last() == k);
        match point_map.get(&k) {
            Some(p) => {
                route.push(*p);
            },
            None => {},
        }
        j = j + 1;
    }
    assert(rev.take(n as int) =~= rev);
    route
}

} // verus!

verus! {

/// The points of `s` at indices `from`, `from + step`, `from + 2 step`, ... that lie
/// before the last point.
pub open spec fn every_step<P>(s: Seq<P>, from: int, step: int) -> Seq<P>
    decreases (if from < s.len() { s.len() - from } else { 0 }),
{
    if step <= 0 || from >= s.len() - 1 || from < 0 {
        Seq::empty()
    } else {
        seq![s[from]] + every_step(s, from + step, step)
    }
}

/// Stride used to thin a route of `n` points down towards `max_points`.
pub open spec fn simplify_stride(n: int, max_points: int) -> int {
    (n - 1) / (if max_points - 1 > 1 { max_points - 1 } else { 1 })
}

/// The thinned route: unchanged when it already has at most `max_points` points; otherwise
/// its first point, every `stride`-th point after it, and its last point.
pub open spec fn simplify_spec<P>(points: Seq<P>, max_points: int) -> Seq<P> {
    if points.len() <= max_points {
        points
    } else {
        let step = simplify_stride(points.len() as int, max_points);
        seq![points[0]] + every_step(points, step, step) + seq![points.last()]
    }
}

/// Thins a route by keeping its endpoints and every N-th point in between.
pub fn simplify_route<P: Copy>(points: &[P], max_points: usize) -> (out: Vec<P>)
    requires
        points@.len() <= max_points || max_points >= 1,
    ensures
        out@ == simplify_spec(points@, max_points as int),
{
    if points.len() <= max_points {
        return vstd::slice::slice_to_vec(points);
    }
    let n = points.len();
    let denom = if max_points - 1 > 1 { max_points - 1 } else { 1 };
    let step = (n - 1) / denom;
    assert(step >= 1) by (nonlinear_arith)
        requires
            n - 1 >= denom,
            denom >= 1,
            step as int == (n as int - 1) / (denom as int),
    ;
    let ghost target = every_step(points@, step as int, step as int);
    let mut out: Vec<P> = Vec::new();
    out.push(points[0]);
    let mut i = step;
    assert(out@ + every_step(points@, i as int, step as int) =~= seq![points@[0]] + target);
    while i < n - 1
        invariant
            n == points@.len(),
            n >= 2,
            step >= 1,
            i >= 1,
            target == every_step(points@, step as int, step as int),
            out@ + every_step(points@, i as int, step as int) == seq![points@[0]] + target,
        decreases n - i,
    {
        let ghost before = out@;
        assert(every_step(points@, i as int, step as int) == seq![points@[i as int]] + every_step(
            points@,
            i + step,
            step as int,
        ));
        out.push(points[i]);
        if step >= (n - 1) - i {
            assert(every_step(points@, i + step, step as int) =~= Seq::<P>::empty());
            assert(out@ =~= before + (seq![points@[i as int]] + every_step(points@, i + step, step as int)));
            i = n - 1;
            assert(every_step(points@, i as int, step as int) =~= Seq::<P>::empty());
            assert(out@ + every_step(points@, i as int, step as int) =~= out@);
        } else {
            i = i + step;
            assert(out@ + every_step(points@, i as int, step as int) =~= before + (seq![points@[i - step]]
                + every_step(points@, i as int, step as int)));
        }
    }
    assert(every_step(points@, i as int, step as int) =~= Seq::<P>::empty());
    assert(out@ =~= seq![points@[0]] + target);
    out.push(points[n - 1]);
    out
}

} // verus!

verus! {

/// The cells visited when backtracking from `arrival`: `arrival` and its ancestors.
pub open spec fn backtrack_chain(parent: Map<CellKey, CellKey>, arrival: CellKey) -> Seq<CellKey> {
    seq![arrival] + ancestors(parent, arrival, MAX_BACKTRACK_LINKS as nat)
}

proof fn lemma_filter_map_all_some<P>(s: Seq<CellKey>, points: Map<CellKey, P>)
    requires
        forall|i: int| 0 <= i < s.len() ==> points.contains_key(#[trigger] s[i]),
    ensures
        s.filter_map(|k: CellKey| point_of(points, k)) == s.map_values(|k: CellKey| points[k]),
    decreases s.len(),
{
    if s.len() > 0 {
        let r = s.drop_last();
        assert forall|i: int| 0 <= i < r.len() implies points.contains_key(#[trigger] r[i]) by {
            assert(r[i] == s[i]);
        }
        lemma_filter_map_all_some(r, points);
        assert(s.map_values(|k: CellKey| points[k]) =~= r.map_values(|k: CellKey| points[k]).push(
            points[s.last()],
        ));
        assert(point_of(points, s.last()) == Some(points[s.last()]));
    } else {
        assert(s.filter_map(|k: CellKey| point_of(points, k)) =~= Seq::<P>::empty());
    }
}

proof fn lemma_ancestors_stop(parent: Map<CellKey, CellKey>, cur: CellKey, budget: nat)
    ensures
        ancestors(parent, cur, budget).len() <= budget,
        ancestors(parent, cur, budget).len() < budget ==> !parent.contains_key(
            (seq![cur] + ancestors(parent, cur, budget)).last(),
        ),
    decreases budget,
{
    if budget > 0 && parent.contains_key(cur) {
        let p = parent[cur];
        lemma_ancestors_stop(parent, p, (budget - 1) as nat);
        let rest = ancestors(parent, p, (budget - 1) as nat);
        assert((seq![cur] + ancestors(parent, cur, budget)).last() == (seq![p] + rest).last());
    }
}

/// Backtracking reaches the start: when every visited cell has a recorded point, the
/// route has one point per visited cell, ends at the arrival point, and begins at the
/// point of the last cell reached, which has no parent unless the link budget ran out.
pub proof fn lemma_backtrack_reaches_start<P>(
    parent: Map<CellKey, CellKey>,
    points: Map<CellKey, P>,
    arrival: CellKey,
)
    requires
        forall|i: int|
            0 <= i < backtrack_chain(parent, arrival).len() ==> points.contains_key(
                #[trigger] backtrack_chain(parent, arrival)[i],
            ),
    ensures
        ({
            let chain = backtrack_chain(parent, arrival);
            let route = backtrack_spec(parent, points, arrival);
            &&& route.len() == chain.len()
            &&& route.last() == points[arrival]
            &&& route[0] == points[chain.last()]
            &&& (chain.len() <= MAX_BACKTRACK_LINKS ==> !parent.contains_key(chain.last()))
        }),
{
    let chain = backtrack_chain(parent, arrival);
    let rev = chain.reverse();
    assert forall|i: int| 0 <= i < rev.len() implies points.contains_key(#[trigger] rev[i]) by {
        assert(rev[i] == chain[chain.len() - 1 - i]);
    }
    lemma_filter_map_all_some(rev, points);
    lemma_ancestors_stop(parent, arrival, MAX_BACKTRACK_LINKS as nat);
    assert(rev[rev.len() - 1] == chain[0]);
    assert(rev[0] == chain.last());
}

/// Thinning keeps the endpoints: a route that is too long keeps its first and last
/// points; a short route is returned unchanged.
pub proof fn lemma_simplify_keeps_endpoints<P>(points: Seq<P>, max_points: int)
    requires
        points.len() <= max_points || max_points >= 1,
    ensures
        points.len() <= max_points ==> simplify_spec(points, max_points) == points,
        points.len() > max_points ==> ({
            let out = simplify_spec(points, max_points);
            &&& out.len() >= 2
            &&& out[0] == points[0]
            &&& out.last() == points.last()
        }),
{
    if points.len() > max_points {
        let step = simplify_stride(points.len() as int, max_points);
        let out = simplify_spec(points, max_points);
        let mid = every_step(points, step, step);
        assert(out == seq![points[0]] + mid + seq![points.last()]);
        assert(out[0] == points[0]);
        assert(out.last() == points.last());
    }
}

/// The points picked every `step` positions from `from` up to (not including) the last one.
proof fn lemma_every_step_picks<P>(s: Seq<P>, from: int, step: int)
    requires
        step >= 1,
        from >= 1,
    ensures
        every_step(s, from, step).len() == (if from <= s.len() - 2 {
            (s.len() - 2 - from) / step + 1
        } else {
            0
        }),
        forall|j: int|
            0 <= j < every_step(s, from, step).len() ==> #[trigger] every_step(s, from, step)[j]
                == s[from + j * step],
    decreases (if from < s.len() { s.len() - from } else { 0 }),
{
    if from <= s.len() - 2 {
        lemma_every_step_picks(s, from + step, step);
        let rest = every_step(s, from + step, step);
        let e = every_step(s, from, step);
        assert(e == seq![s[from]] + rest);
        let a = s.len() - 2 - from;
        if from + step <= s.len() - 2 {
            assert((a - step) / step + 1 == a / step) by (nonlinear_arith)
                requires
                    step >= 1,
                    a >= step,
            ;
        } else {
            assert(a / step == 0) by (nonlinear_arith)
                requires
                    step >= 1,
                    0 <= a < step,
            ;
        }
        assert forall|j: int| 0 <= j < e.len() implies #[trigger] e[j] == s[from + j * step] by {
            if j > 0 {
                assert(e[j] == rest[j - 1]);
                assert(rest[j - 1] == s[from + step + (j - 1) * step]);
                assert(from + step + (j - 1) * step == from + j * step) by (nonlinear_arith);
            } else {
                assert(j * step == 0) by (nonlinear_arith)
                    requires
                        j == 0,
                ;
                assert(e[0] == s[from]);
            }
        }
    }
}

/// Thinning a route that is too long keeps its first point, then every `stride`-th point,
/// then its last point, where `stride` is the whole number of times `max_points - 1`
/// (at least 1) goes into the number of steps `n - 1` of the route.
pub proof fn lemma_simplify_picks_every_stride<P>(points: Seq<P>, max_points: int)
    requires
        points.len() > max_points,
        max_points >= 1,
    ensures
        ({
            let n = points.len() as int;
            let d = if max_points - 1 > 1 { max_points - 1 } else { 1 };
            let stride = simplify_stride(n, max_points);
            let out = simplify_spec(points, max_points);
            &&& stride >= 1
            &&& stride * d <= n - 1 < (stride + 1) * d
            &&& out.len() == (n - 2) / stride + 2
            &&& forall|j: int| 0 <= j < out.len() - 1 ==> #[trigger] out[j] == points[j * stride]
            &&& out.last() == points.last()
        }),
{
    let n = points.len() as int;
    let d = if max_points - 1 > 1 { max_points - 1 } else { 1 };
    let stride = simplify_stride(n, max_points);
    assert(stride == (n - 1) / d);
    assert(stride * d <= n - 1 < (stride + 1) * d && stride >= 1) by (nonlinear_arith)
        requires
            d >= 1,
            n - 1 >= d,
            stride == (n - 1) / d,
    ;
    let out = simplify_spec(points, max_points);
    let mid = every_step(points, stride, stride);
    lemma_every_step_picks(points, stride, stride);
    assert(out == seq![points[0]] + mid + seq![points.last()]);
    if stride <= n - 2 {
        assert((n - 2 - stride) / stride + 1 == (n - 2) / stride) by (nonlinear_arith)
            requires
                stride >= 1,
                n - 2 >= stride,
        ;
    } else {
        assert((n - 2) / stride == 0) by (nonlinear_arith)
            requires
                stride >= 1,
                0 <= n - 2 < stride,
        ;
    }
    assert forall|j: int| 0 <= j < out.len() - 1 implies #[trigger] out[j] == points[j * stride] by {
        if j == 0 {
            assert(j * stride == 0) by (nonlinear_arith)
                requires
                    j == 0,
            ;
        } else {
            assert(out[j] == mid[j - 1]);
            assert(stride + (j - 1) * stride == j * stride) by (nonlinear_arith);
        }
    }
}

} // verus!
