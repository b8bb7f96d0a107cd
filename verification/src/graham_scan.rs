use crate::point::Point;
use crate::point::lex_le;
use crate::point::lex_lt;
use crate::util::angle_eq;
use crate::util::angle_lt;
use crate::util::ccw;
use crate::util::cross;
use crate::util::dist2;
use crate::util::l2_norm_squared;
use crate::util::polar_angle;
use crate::util::spec_angle_eq;
use crate::util::spec_angle_lt;
use vstd::prelude::*;

verus! {

/// The one way the scan can fail: the input held no points, so no pivot
/// exists.
#[derive(Clone, Copy, PartialEq, Eq, Debug)]
pub enum HullError {
    EmptyInput,
}

/// `i` is the index the pivot selection picks: its point is lowest, then
/// leftmost, and it is the first index among points with equal coordinates.
pub open spec fn is_lex_min_at(s: Seq<Point>, i: int) -> bool {
    &&& 0 <= i < s.len()
    &&& forall|j: int| 0 <= j < s.len() ==> lex_le(s[i], s[j])
    &&& forall|j: int| 0 <= j < i ==> lex_lt(s[i], s[j])
}

/// The index of the lowest-then-leftmost point, the first one when several
/// points coincide.
pub open spec fn pivot_idx(s: Seq<Point>) -> int
    decreases s.len(),
{
    if s.len() <= 1 {
        0
    } else {
        let r = pivot_idx(s.drop_last());
        if lex_lt(s.last(), s[r]) {
            s.len() - 1
        } else {
            r
        }
    }
}

/// The pivot really is a lowest-then-leftmost point, and the first one.
pub proof fn lemma_pivot_idx_is_min(s: Seq<Point>)
    requires
        s.len() > 0,
    ensures
        is_lex_min_at(s, pivot_idx(s)),
    decreases s.len(),
{
    if s.len() > 1 {
        let pre = s.drop_last();
        lemma_pivot_idx_is_min(pre);
        assert(forall|j: int| 0 <= j < pre.len() ==> pre[j] == s[j]);
    }
}

/// The pivot characterisation picks out a single index.
pub proof fn lemma_lex_min_unique(s: Seq<Point>, i: int)
    requires
        is_lex_min_at(s, i),
    ensures
        i == pivot_idx(s),
{
    lemma_pivot_idx_is_min(s);
    let p = pivot_idx(s);
    if i < p {
        assert(lex_lt(s[p], s[i]));
        assert(lex_le(s[i], s[p]));
    }
    if p < i {
        assert(lex_lt(s[i], s[p]));
        assert(lex_le(s[p], s[i]));
    }
}

/// Seen from `p`, the points `a` and `b` lie at the same polar angle: the
/// three points are collinear. For points strictly above `p` in the
/// lowest-then-leftmost order this is exactly lying on one ray out of `p`.
pub open spec fn same_angle(p: Point, a: Point, b: Point) -> bool {
    cross(p, a, b) == 0
}

/// Seen from `p`, the point `a` lies at a strictly smaller polar angle
/// than `b`: the sign of the orientation test decides.
pub open spec fn angle_before(p: Point, a: Point, b: Point) -> bool {
    cross(p, a, b) > 0
}

/// Among points at one polar angle from the pivot, `i` outranks `j`: it is
/// farther from the pivot, or equally far (the same point) and earlier in
/// the input.
pub open spec fn beats(s: Seq<Point>, piv: int, i: int, j: int) -> bool {
    ||| dist2(s[piv], s[i]) > dist2(s[piv], s[j])
    ||| dist2(s[piv], s[i]) == dist2(s[piv], s[j]) && i < j
}

/// `i` survives the candidate selection: it is not the pivot, its point
/// does not coincide with the pivot's, and it outranks every other index
/// at its polar angle — the farthest point of each ray is kept, and among
/// duplicates of it the first.
pub open spec fn kept(s: Seq<Point>, piv: int, i: int) -> bool {
    &&& 0 <= i < s.len()
    &&& i != piv
    &&& s[i] != s[piv]
    &&& forall|j: int|
        0 <= j < s.len() && j != piv && j != i && #[trigger] same_angle(s[piv], s[j], s[i])
            ==> beats(s, piv, i, j)
}

/// The candidate indices the sweep considers, in input order: the indices
/// that survive the selection.
pub open spec fn cand_list(s: Seq<Point>, piv: int, n: int) -> Seq<usize>
    decreases n,
{
    if n <= 0 {
        Seq::empty()
    } else if kept(s, piv, n - 1) {
        cand_list(s, piv, n - 1).push((n - 1) as usize)
    } else {
        cand_list(s, piv, n - 1)
    }
}

/// The sweep order on candidate indices: ascending polar angle around the
/// pivot, and on equal angles the farther point first.
pub open spec fn cand_before(s: Seq<Point>, piv: int, i: int, j: int) -> bool {
    ||| angle_before(s[piv], s[i], s[j])
    ||| same_angle(s[piv], s[i], s[j]) && dist2(s[piv], s[i]) > dist2(s[piv], s[j])
}

/// Insertion of one candidate into an already sorted run: `x` goes in
/// front of the first entry it must precede.
pub open spec fn insert_cand(s: Seq<Point>, piv: int, sorted: Seq<usize>, x: usize) -> Seq<usize>
    decreases sorted.len(),
{
    if sorted.len() == 0 {
        seq![x]
    } else if cand_before(s, piv, x as int, sorted[0] as int) {
        seq![x] + sorted
    } else {
        seq![sorted[0]] + insert_cand(s, piv, sorted.drop_first(), x)
    }
}

/// Insertion sort of the candidate list under the sweep order.
pub open spec fn sort_cands(s: Seq<Point>, piv: int, l: Seq<usize>) -> Seq<usize>
    decreases l.len(),
{
    if l.len() == 0 {
        l
    } else {
        insert_cand(s, piv, sort_cands(s, piv, l.drop_last()), l.last())
    }
}

/// The popping phase of one sweep step: while the stack holds two entries
/// whose turn towards `x` is clockwise or straight, drop the top.
pub open spec fn pop_stack(s: Seq<Point>, st: Seq<usize>, x: usize) -> Seq<usize>
    decreases st.len(),
{
    if st.len() >= 2 && cross(
        s[st[st.len() - 2] as int],
        s[st[st.len() - 1] as int],
        s[x as int],
    ) <= 0 {
        pop_stack(s, st.drop_last(), x)
    } else {
        st
    }
}

/// The whole sweep: fold every candidate, in order, into the stack by
/// popping and then pushing it.
pub open spec fn sweep(s: Seq<Point>, st: Seq<usize>, cands: Seq<usize>) -> Seq<usize>
    decreases cands.len(),
{
    if cands.len() == 0 {
        st
    } else {
        sweep(s, pop_stack(s, st, cands[0]).push(cands[0]), cands.drop_first())
    }
}

/// What `graham_scan` returns on a non-empty input: the sweep, run over the
/// angularly sorted, deduplicated candidates, started on the pivot alone.
pub open spec fn hull_spec(s: Seq<Point>) -> Seq<usize> {
    let piv = pivot_idx(s);
    sweep(s, seq![piv as usize], sort_cands(s, piv, cand_list(s, piv, s.len() as int)))
}

/// The orientation test is antisymmetric in its last two arguments.
proof fn lemma_cross_antisym(p: Point, a: Point, b: Point)
    ensures
        cross(p, a, b) == -cross(p, b, a),
{
    assert(cross(p, a, b) == -cross(p, b, a)) by (nonlinear_arith);
}

/// The orientation test is invariant under rotating its three arguments.
proof fn lemma_cross_cyclic(a: Point, b: Point, c: Point)
    ensures
        cross(a, b, c) == cross(b, c, a),
        cross(a, b, c) == cross(c, a, b),
{
    assert(cross(a, b, c) == cross(b, c, a)) by (nonlinear_arith);
    assert(cross(a, b, c) == cross(c, a, b)) by (nonlinear_arith);
}

/// Not-to-the-right plus distinct points is strictly above-or-right.
proof fn lemma_lex_lt_of_ne(p: Point, q: Point)
    requires
        lex_le(p, q),
        p != q,
    ensures
        lex_lt(p, q),
{
    if !lex_lt(p, q) {
        assert(p.y == q.y && p.x == q.x);
        assert(p == q);
    }
}

/// Two surviving candidates never share a ray from the pivot: each would
/// have to outrank the other.
proof fn lemma_kept_distinct_rays(s: Seq<Point>, piv: int, i: int, j: int)
    requires
        kept(s, piv, i),
        kept(s, piv, j),
        i != j,
    ensures
        cross(s[piv], s[i], s[j]) != 0,
{
    if cross(s[piv], s[i], s[j]) == 0 {
        lemma_cross_antisym(s[piv], s[i], s[j]);
        assert(same_angle(s[piv], s[j], s[i]));
        assert(same_angle(s[piv], s[i], s[j]));
        assert(beats(s, piv, i, j));
        assert(beats(s, piv, j, i));
        assert(false);
    }
}

/// The angular order around the pivot is transitive on points strictly
/// above it in the lowest-then-leftmost order, and strict as soon as one
/// of the two steps is.
#[verifier::rlimit(100)]
proof fn lemma_angle_trans(p: Point, a: Point, b: Point, c: Point)
    requires
        lex_lt(p, a),
        lex_lt(p, b),
        lex_lt(p, c),
        cross(p, a, b) >= 0,
        cross(p, b, c) >= 0,
    ensures
        cross(p, a, c) >= 0,
        cross(p, a, b) > 0 || cross(p, b, c) > 0 ==> cross(p, a, c) > 0,
{
    assert((b.y - p.y) * cross(p, a, c) == (a.y - p.y) * cross(p, b, c) + (c.y - p.y) * cross(
        p,
        a,
        b,
    )) by (nonlinear_arith);
    if b.y > p.y {
        assert((a.y - p.y) * cross(p, b, c) >= 0) by (nonlinear_arith)
            requires a.y - p.y >= 0 && cross(p, b, c) >= 0;
        assert((c.y - p.y) * cross(p, a, b) >= 0) by (nonlinear_arith)
            requires c.y - p.y >= 0 && cross(p, a, b) >= 0;
        assert(cross(p, a, c) >= 0) by (nonlinear_arith)
            requires b.y - p.y > 0 && (b.y - p.y) * cross(p, a, c) >= 0;
        if cross(p, a, b) > 0 {
            if c.y > p.y {
                assert((c.y - p.y) * cross(p, a, b) > 0) by (nonlinear_arith)
                    requires c.y - p.y > 0 && cross(p, a, b) > 0;
                assert(cross(p, a, c) > 0) by (nonlinear_arith)
                    requires b.y - p.y > 0 && (b.y - p.y) * cross(p, a, c) > 0;
            } else {
                assert(c.y == p.y && c.x > p.x);
                assert(false) by (nonlinear_arith)
                    requires c.y == p.y && c.x - p.x > 0 && b.y - p.y > 0 && cross(p, b, c) >= 0;
            }
        }
        if cross(p, b, c) > 0 && cross(p, a, b) == 0 {
            if a.y > p.y {
                assert((a.y - p.y) * cross(p, b, c) > 0) by (nonlinear_arith)
                    requires a.y - p.y > 0 && cross(p, b, c) > 0;
                assert(cross(p, a, c) > 0) by (nonlinear_arith)
                    requires b.y - p.y > 0 && (b.y - p.y) * cross(p, a, c) > 0;
            } else {
                assert(a.y == p.y && a.x > p.x);
                if c.y == p.y {
                    assert(false) by (nonlinear_arith)
                        requires c.y == p.y && c.x - p.x > 0 && b.y - p.y > 0 && cross(p, b, c)
                            > 0;
                } else {
                    assert(cross(p, a, c) > 0) by (nonlinear_arith)
                        requires a.y == p.y && a.x - p.x > 0 && c.y - p.y > 0;
                }
            }
        }
    } else {
        assert(b.y == p.y && b.x > p.x);
        assert(a.y == p.y) by (nonlinear_arith)
            requires b.y == p.y && a.y - p.y >= 0 && b.x - p.x > 0 && cross(p, a, b) >= 0;
        assert(a.x > p.x);
        assert(cross(p, a, c) == (a.x - p.x) * (c.y - p.y)) by (nonlinear_arith)
            requires a.y == p.y;
        assert(cross(p, a, c) >= 0) by (nonlinear_arith)
            requires a.y == p.y && a.x - p.x > 0 && c.y - p.y >= 0;
        assert(cross(p, a, b) == 0) by (nonlinear_arith)
            requires a.y == p.y && b.y == p.y;
        if cross(p, b, c) > 0 {
            assert(cross(p, b, c) == (b.x - p.x) * (c.y - p.y)) by (nonlinear_arith)
                requires b.y == p.y;
            assert(c.y - p.y > 0) by (nonlinear_arith)
                requires b.x - p.x > 0 && (b.x - p.x) * (c.y - p.y) > 0;
            assert(cross(p, a, c) > 0) by (nonlinear_arith)
                requires a.y == p.y && a.x - p.x > 0 && c.y - p.y > 0;
        }
    }
}

#[verifier::rlimit(100)]
proof fn lemma_insert_cand_at(s: Seq<Point>, piv: int, sorted: Seq<usize>, x: usize, pos: int)
    requires
        0 <= pos <= sorted.len(),
        forall|m: int| 0 <= m < pos ==> !cand_before(s, piv, x as int, sorted[m] as int),
        pos < sorted.len() ==> cand_before(s, piv, x as int, sorted[pos] as int),
    ensures
        insert_cand(s, piv, sorted, x) == sorted.take(pos) + seq![x] + sorted.skip(pos),
    decreases sorted.len(),
{
    if sorted.len() == 0 {
        assert(insert_cand(s, piv, sorted, x) =~= sorted.take(pos) + seq![x] + sorted.skip(pos));
    } else if pos == 0 {
        assert(insert_cand(s, piv, sorted, x) =~= sorted.take(pos) + seq![x] + sorted.skip(pos));
    } else {
        let dropped = sorted.drop_first();
        assert(!cand_before(s, piv, x as int, sorted[0] as int));
        assert forall|m: int| 0 <= m < pos - 1 implies !cand_before(
            s,
            piv,
            x as int,
            dropped[m] as int,
        ) by {
            assert(dropped[m] == sorted[m + 1]);
        }
        assert(pos - 1 < dropped.len() ==> cand_before(s, piv, x as int, dropped[pos - 1] as int));
        lemma_insert_cand_at(s, piv, dropped, x, pos - 1);
        assert(seq![sorted[0]] + (dropped.take(pos - 1) + seq![x] + dropped.skip(pos - 1)) =~= sorted.take(
            pos,
        ) + seq![x] + sorted.skip(pos));
    }
}

#[verifier::rlimit(100)]
proof fn lemma_insert_cand_props(s: Seq<Point>, piv: int, sorted: Seq<usize>, x: usize)
    requires
        forall|q1: int, q2: int| 0 <= q1 < q2 < sorted.len() ==> sorted[q1] != sorted[q2],
        forall|q: int| 0 <= q < sorted.len() ==> sorted[q] != x,
    ensures
        insert_cand(s, piv, sorted, x).len() == sorted.len() + 1,
        forall|q: int|
            0 <= q < insert_cand(s, piv, sorted, x).len() ==> #[trigger] insert_cand(
                s,
                piv,
                sorted,
                x,
            )[q] == x || exists|m: int|
                0 <= m < sorted.len() && sorted[m] == insert_cand(s, piv, sorted, x)[q],
        forall|q1: int, q2: int|
            0 <= q1 < q2 < insert_cand(s, piv, sorted, x).len() ==> insert_cand(s, piv, sorted, x)[q1]
                != insert_cand(s, piv, sorted, x)[q2],
    decreases sorted.len(),
{
    let res = insert_cand(s, piv, sorted, x);
    if sorted.len() == 0 {
        assert(res =~= seq![x]);
    } else if cand_before(s, piv, x as int, sorted[0] as int) {
        assert(res =~= seq![x] + sorted);
        assert forall|q: int| 0 <= q < res.len() implies res[q] == x || exists|m: int|
            0 <= m < sorted.len() && sorted[m] == res[q] by {
            if q > 0 {
                assert(sorted[q - 1] == res[q]);
            }
        }
    } else {
        let dropped = sorted.drop_first();
        assert forall|q: int| 0 <= q < dropped.len() implies dropped[q] != x by {
            assert(dropped[q] == sorted[q + 1]);
        }
        assert forall|q1: int, q2: int| 0 <= q1 < q2 < dropped.len() implies dropped[q1]
            != dropped[q2] by {
            assert(dropped[q1] == sorted[q1 + 1]);
            assert(dropped[q2] == sorted[q2 + 1]);
        }
        lemma_insert_cand_props(s, piv, dropped, x);
        let sub = insert_cand(s, piv, dropped, x);
        assert(res =~= seq![sorted[0]] + sub);
        assert forall|q: int| 0 <= q < res.len() implies res[q] == x || exists|m: int|
            0 <= m < sorted.len() && sorted[m] == res[q] by {
            if q == 0 {
                assert(sorted[0] == res[0]);
            } else {
                assert(res[q] == sub[q - 1]);
                if sub[q - 1] != x {
                    let m0: int = choose|m0: int|
                        0 <= m0 < dropped.len() && dropped[m0] == sub[q - 1];
                    assert(sorted[m0 + 1] == res[q]);
                }
            }
        }
        assert forall|q1: int, q2: int| 0 <= q1 < q2 < res.len() implies res[q1] != res[q2] by {
            if q1 == 0 {
                assert(res[q2] == sub[q2 - 1]);
                if sub[q2 - 1] != x {
                    let m0: int = choose|m0: int|
                        0 <= m0 < dropped.len() && dropped[m0] == sub[q2 - 1];
                    assert(sorted[m0 + 1] == sub[q2 - 1]);
                }
            } else {
                assert(res[q1] == sub[q1 - 1]);
                assert(res[q2] == sub[q2 - 1]);
            }
        }
    }
}

#[verifier::rlimit(100)]
proof fn lemma_sort_cands_props(s: Seq<Point>, piv: int, l: Seq<usize>)
    requires
        forall|q1: int, q2: int| 0 <= q1 < q2 < l.len() ==> l[q1] != l[q2],
    ensures
        sort_cands(s, piv, l).len() == l.len(),
        forall|q: int|
            0 <= q < l.len() ==> exists|m: int|
                0 <= m < l.len() && l[m] == #[trigger] sort_cands(s, piv, l)[q],
        forall|q1: int, q2: int|
            0 <= q1 < q2 < l.len() ==> sort_cands(s, piv, l)[q1] != sort_cands(s, piv, l)[q2],
    decreases l.len(),
{
    if l.len() > 0 {
        let pre = l.drop_last();
        assert(forall|q: int| 0 <= q < pre.len() ==> pre[q] == l[q]);
        lemma_sort_cands_props(s, piv, pre);
        let sp = sort_cands(s, piv, pre);
        assert forall|q: int| 0 <= q < sp.len() implies sp[q] != l.last() by {
            let m0: int = choose|m0: int| 0 <= m0 < pre.len() && pre[m0] == sp[q];
            assert(l[m0] == sp[q]);
        }
        lemma_insert_cand_props(s, piv, sp, l.last());
        let res = sort_cands(s, piv, l);
        assert(res == insert_cand(s, piv, sp, l.last()));
        assert forall|q: int| 0 <= q < l.len() implies exists|m: int|
            0 <= m < l.len() && l[m] == #[trigger] res[q] by {
            if res[q] == l.last() {
                assert(l[l.len() - 1] == res[q]);
            } else {
                let m1: int = choose|m1: int| 0 <= m1 < sp.len() && sp[m1] == res[q];
                let m0: int = choose|m0: int| 0 <= m0 < pre.len() && pre[m0] == sp[m1];
                assert(l[m0] == res[q]);
            }
        }
    }
}

/// Does the whole orientation comparison for the sweep order between the
/// candidates at `i` and `j`, both seen from the pivot.
fn cand_before_exec(points: &Vec<Point>, piv: usize, i: usize, j: usize) -> (r: bool)
    requires
        piv < points@.len(),
        i < points@.len(),
        j < points@.len(),
        forall|k: int| 0 <= k < points@.len() ==> points@[k].in_range(),
        lex_le(points@[piv as int], points@[i as int]),
        lex_le(points@[piv as int], points@[j as int]),
    ensures
        r == cand_before(points@, piv as int, i as int, j as int),
{
    let ai = polar_angle(&points[piv], &points[i]);
    let aj = polar_angle(&points[piv], &points[j]);
    proof {
        assert(spec_angle_lt(ai, aj) == angle_before(
            points@[piv as int],
            points@[i as int],
            points@[j as int],
        ));
        assert(spec_angle_eq(ai, aj) == same_angle(
            points@[piv as int],
            points@[i as int],
            points@[j as int],
        ));
    }
    if angle_lt(&ai, &aj) {
        true
    } else if angle_eq(&ai, &aj) {
        let di = l2_norm_squared(&points[piv], &points[i]);
        let dj = l2_norm_squared(&points[piv], &points[j]);
        di > dj
    } else {
        false
    }
}

/// One test of the sweep's popping condition: the stack still holds two
/// entries and the turn from them towards the candidate at `x` is
/// clockwise or straight.
fn should_pop(points: &Vec<Point>, stack: &Vec<usize>, x: usize) -> (r: bool)
    requires
        forall|k: int| 0 <= k < points@.len() ==> points@[k].in_range(),
        x < points@.len(),
        forall|q: int| 0 <= q < stack@.len() ==> (stack@[q] as int) < points@.len(),
    ensures
        r == (stack@.len() >= 2 && cross(
            points@[stack@[stack@.len() - 2] as int],
            points@[stack@[stack@.len() - 1] as int],
            points@[x as int],
        ) <= 0),
{
    if stack.len() < 2 {
        return false;
    }
    let a = stack[stack.len() - 2];
    let b = stack[stack.len() - 1];
    let c = ccw(&points[a], &points[b], &points[x]);
    c <= 0
}

/// Pivot selection: the index of the lowest, then leftmost point, the
/// first one when points coincide.
#[verifier::loop_isolation(false)]
#[verifier::rlimit(100)]
fn find_pivot(points: &Vec<Point>) -> (piv: usize)
    requires
        points@.len() > 0,
    ensures
        (piv as int) < points@.len(),
        is_lex_min_at(points@, piv as int),
        piv as int == pivot_idx(points@),
{
    let ghost s = points@;
    let n = points.len();
    let mut best: usize = 0;
    let mut k: usize = 1;
    while k < n
        invariant
            1 <= k <= n,
            best < k,
            forall|j: int| 0 <= j < k ==> lex_le(s[best as int], s[j]),
            forall|j: int| 0 <= j < best ==> lex_lt(s[best as int], s[j]),
        decreases n - k,
    {
        if points[k].y < points[best].y || (points[k].y == points[best].y && points[k].x
            < points[best].x) {
            best = k;
        }
        k = k + 1;
    }
    proof {
        assert(is_lex_min_at(s, best as int));
        lemma_lex_min_unique(s, best as int);
    }
    best
}

/// Candidate selection, in input order: the pivot and its duplicates are
/// excluded, and of the points sharing one ray from the pivot only the
/// farthest survives (the first of its duplicates).
#[verifier::loop_isolation(false)]
#[verifier::rlimit(100)]
fn collect_cands(points: &Vec<Point>, piv: usize) -> (cands: Vec<usize>)
    requires
        forall|k: int| 0 <= k < points@.len() ==> points@[k].in_range(),
        is_lex_min_at(points@, piv as int),
    ensures
        cands@ == cand_list(points@, piv as int, points@.len() as int),
        forall|t: int|
            0 <= t < cands@.len() ==> kept(points@, piv as int, (#[trigger] cands@[t]) as int),
        forall|t1: int, t2: int|
            0 <= t1 < t2 < cands@.len() ==> (cands@[t1] as int) < (cands@[t2] as int),
{
    let ghost s = points@;
    let n = points.len();
    let mut cands: Vec<usize> = Vec::new();
    let mut i: usize = 0;
    while i < n
        invariant
            i <= n,
            cands@ == cand_list(s, piv as int, i as int),
            forall|t: int|
                0 <= t < cands@.len() ==> ((#[trigger] cands@[t] as int) < i && kept(
                    s,
                    piv as int,
                    cands@[t] as int,
                )),
            forall|t1: int, t2: int|
                0 <= t1 < t2 < cands@.len() ==> (cands@[t1] as int) < (cands@[t2] as int),
        decreases n - i,
    {
        if i != piv && !(points[i].x == points[piv].x && points[i].y == points[piv].y) {
            let ai = polar_angle(&points[piv], &points[i]);
            let di = l2_norm_squared(&points[piv], &points[i]);
            let mut beaten = false;
            let mut j: usize = 0;
            while j < n
                invariant
                    j <= n,
                    beaten <==> exists|m: int|
                        0 <= m < j && m != piv && m != i && #[trigger] same_angle(
                            s[piv as int],
                            s[m],
                            s[i as int],
                        ) && !beats(s, piv as int, i as int, m),
                decreases n - j,
            {
                if j != piv && j != i {
                    let aj = polar_angle(&points[piv], &points[j]);
                    proof {
                        assert(spec_angle_eq(aj, ai) == same_angle(
                            s[piv as int],
                            s[j as int],
                            s[i as int],
                        ));
                    }
                    if angle_eq(&aj, &ai) {
                        let dj = l2_norm_squared(&points[piv], &points[j]);
                        if dj > di || (dj == di && j < i) {
                            proof {
                                assert(same_angle(s[piv as int], s[j as int], s[i as int]));
                                assert(!beats(s, piv as int, i as int, j as int));
                            }
                            beaten = true;
                        }
                    }
                }
                j = j + 1;
            }
            if !beaten {
                proof {
                    assert(s[i as int] != s[piv as int]);
                    assert(kept(s, piv as int, i as int));
                }
                cands.push(i);
            } else {
                proof {
                    assert(!kept(s, piv as int, i as int));
                }
            }
        } else {
            proof {
                assert(!kept(s, piv as int, i as int));
            }
        }
        i = i + 1;
    }
    cands
}

/// Candidate ordering: insertion sort under the sweep order — ascending
/// polar angle, farther first on ties (which the selection has already
/// removed). The result is strictly sorted by angle around the pivot.
#[verifier::loop_isolation(false)]
#[verifier::rlimit(100)]
fn sort_candidates(points: &Vec<Point>, piv: usize, cands: &Vec<usize>) -> (sorted: Vec<usize>)
    requires
        forall|k: int| 0 <= k < points@.len() ==> points@[k].in_range(),
        is_lex_min_at(points@, piv as int),
        forall|t: int|
            0 <= t < cands@.len() ==> kept(points@, piv as int, (#[trigger] cands@[t]) as int),
        forall|t1: int, t2: int|
            0 <= t1 < t2 < cands@.len() ==> (cands@[t1] as int) < (cands@[t2] as int),
    ensures
        sorted@ == sort_cands(points@, piv as int, cands@),
        forall|q: int|
            0 <= q < sorted@.len() ==> kept(points@, piv as int, (#[trigger] sorted@[q]) as int),
        forall|q1: int, q2: int| 0 <= q1 < q2 < sorted@.len() ==> sorted@[q1] != sorted@[q2],
        forall|q1: int, q2: int|
            0 <= q1 < q2 < sorted@.len() ==> cross(
                points@[piv as int],
                points@[(#[trigger] sorted@[q1]) as int],
                points@[(#[trigger] sorted@[q2]) as int],
            ) > 0,
{
    let ghost s = points@;
    let n = points.len();
    let mut sorted: Vec<usize> = Vec::new();
    let mut t: usize = 0;
    while t < cands.len()
        invariant
            t <= cands@.len(),
            sorted@ == sort_cands(s, piv as int, cands@.take(t as int)),
            forall|q: int|
                0 <= q < sorted@.len() ==> kept(s, piv as int, (#[trigger] sorted@[q]) as int),
            forall|q1: int, q2: int|
                0 <= q1 < q2 < sorted@.len() ==> cross(
                    s[piv as int],
                    s[(#[trigger] sorted@[q1]) as int],
                    s[(#[trigger] sorted@[q2]) as int],
                ) > 0,
        decreases cands@.len() - t,
    {
        proof {
            assert forall|q1: int, q2: int|
                0 <= q1 < q2 < cands@.take(t as int).len() implies cands@.take(t as int)[q1]
                != cands@.take(t as int)[q2] by {}
            lemma_sort_cands_props(s, piv as int, cands@.take(t as int));
            assert forall|q: int| 0 <= q < sorted@.len() implies sorted@[q] != cands@[t as int] by {
                let m0: int = choose|m0: int|
                    0 <= m0 < cands@.take(t as int).len() && cands@.take(t as int)[m0] == sorted@[q];
                assert(cands@[m0] == sorted@[q]);
            }
        }
        let x = cands[t];
        let mut pos: usize = 0;
        while pos < sorted.len() && !cand_before_exec(points, piv, x, sorted[pos])
            invariant
                pos <= sorted@.len(),
                forall|m: int|
                    0 <= m < pos ==> !cand_before(s, piv as int, x as int, sorted@[m] as int),
            decreases sorted@.len() - pos,
        {
            pos = pos + 1;
        }
        proof {
            lemma_insert_cand_at(s, piv as int, sorted@, x, pos as int);
        }
        let ghost prev = sorted@;
        let ghost gpos = pos as int;
        sorted.insert(pos, x);
        proof {
            assert(prev.insert(gpos, x) =~= prev.take(gpos) + seq![x] + prev.skip(gpos));
            assert(cands@.take(t as int + 1).drop_last() =~= cands@.take(t as int));
            assert(cands@.take(t as int + 1).last() == x);
            assert(sorted@ == sort_cands(s, piv as int, cands@.take(t as int + 1)));
            // Everything before the insertion position comes angularly
            // before the new candidate, everything after it comes after.
            assert forall|m: int| 0 <= m < gpos implies cross(
                s[piv as int],
                s[prev[m] as int],
                s[x as int],
            ) > 0 by {
                lemma_kept_distinct_rays(s, piv as int, prev[m] as int, x as int);
                lemma_cross_antisym(s[piv as int], s[x as int], s[prev[m] as int]);
            }
            assert forall|m: int| gpos <= m < prev.len() implies cross(
                s[piv as int],
                s[x as int],
                s[prev[m] as int],
            ) > 0 by {
                lemma_kept_distinct_rays(s, piv as int, x as int, prev[gpos] as int);
                assert(cross(s[piv as int], s[x as int], s[prev[gpos] as int]) > 0);
                if m > gpos {
                    lemma_lex_lt_of_ne(s[piv as int], s[x as int]);
                    lemma_lex_lt_of_ne(s[piv as int], s[prev[gpos] as int]);
                    lemma_lex_lt_of_ne(s[piv as int], s[prev[m] as int]);
                    lemma_angle_trans(
                        s[piv as int],
                        s[x as int],
                        s[prev[gpos] as int],
                        s[prev[m] as int],
                    );
                }
            }
            assert forall|q1: int, q2: int| 0 <= q1 < q2 < sorted@.len() implies cross(
                s[piv as int],
                s[(sorted@[q1]) as int],
                s[(sorted@[q2]) as int],
            ) > 0 by {
                if q2 < gpos {
                    assert(sorted@[q1] == prev[q1] && sorted@[q2] == prev[q2]);
                } else if q2 == gpos {
                    assert(sorted@[q1] == prev[q1] && sorted@[q2] == x);
                } else if q1 < gpos {
                    assert(sorted@[q1] == prev[q1] && sorted@[q2] == prev[q2 - 1]);
                } else if q1 == gpos {
                    assert(sorted@[q1] == x && sorted@[q2] == prev[q2 - 1]);
                } else {
                    assert(sorted@[q1] == prev[q1 - 1] && sorted@[q2] == prev[q2 - 1]);
                }
            }
        }
        t = t + 1;
    }
    proof {
        assert(cands@.take(cands@.len() as int) =~= cands@);
        assert(sorted@ == sort_cands(s, piv as int, cands@));
        lemma_sort_cands_props(s, piv as int, cands@);
    }
    sorted
}

/// Popping never touches the bottom of the stack: the result is a
/// non-empty prefix, and when two entries remain on top their turn towards
/// the candidate is strictly counter-clockwise.
#[verifier::rlimit(100)]
proof fn lemma_pop_stack_prefix(s: Seq<Point>, st: Seq<usize>, x: usize)
    requires
        st.len() >= 1,
    ensures
        1 <= pop_stack(s, st, x).len() <= st.len(),
        pop_stack(s, st, x) == st.take(pop_stack(s, st, x).len() as int),
        pop_stack(s, st, x).len() >= 2 ==> cross(
            s[pop_stack(s, st, x)[pop_stack(s, st, x).len() - 2] as int],
            s[pop_stack(s, st, x)[pop_stack(s, st, x).len() - 1] as int],
            s[x as int],
        ) > 0,
    decreases st.len(),
{
    let res = pop_stack(s, st, x);
    if st.len() >= 2 && cross(s[st[st.len() - 2] as int], s[st[st.len() - 1] as int], s[x as int])
        <= 0 {
        lemma_pop_stack_prefix(s, st.drop_last(), x);
        assert(st.drop_last().take(res.len() as int) =~= st.take(res.len() as int));
    } else {
        assert(st.take(st.len() as int) =~= st);
    }
}

/// The invariant of the sweep's stack: non-empty, valid and distinct
/// indices, and every three consecutive entries turning strictly
/// counter-clockwise.
pub open spec fn stack_ok(s: Seq<Point>, st: Seq<usize>) -> bool {
    &&& st.len() >= 1
    &&& forall|q: int| 0 <= q < st.len() ==> (#[trigger] st[q] as int) < s.len()
    &&& forall|q1: int, q2: int| 0 <= q1 < q2 < st.len() ==> st[q1] != st[q2]
    &&& forall|q: int|
        0 <= q && q + 2 < st.len() ==> cross(
            s[#[trigger] st[q] as int],
            s[st[q + 1] as int],
            s[st[q + 2] as int],
        ) > 0
}

/// What the sweep asks of the candidates still to come: valid indices,
/// pairwise distinct, and none of them already on the stack.
pub open spec fn cands_ok(s: Seq<Point>, st: Seq<usize>, cands: Seq<usize>) -> bool {
    &&& forall|m: int| 0 <= m < cands.len() ==> (#[trigger] cands[m] as int) < s.len()
    &&& forall|m1: int, m2: int| 0 <= m1 < m2 < cands.len() ==> cands[m1] != cands[m2]
    &&& forall|q: int, m: int|
        0 <= q < st.len() && 0 <= m < cands.len() ==> #[trigger] st[q] != #[trigger] cands[m]
}

/// Pushing a fresh candidate onto a non-empty prefix of a well-formed
/// stack keeps the stack well-formed, provided the new top turn is a
/// strict counter-clockwise one.
#[verifier::rlimit(100)]
proof fn lemma_prefix_push_ok(s: Seq<Point>, st: Seq<usize>, l: int, x: usize)
    requires
        stack_ok(s, st),
        1 <= l <= st.len(),
        (x as int) < s.len(),
        forall|q: int| 0 <= q < st.len() ==> #[trigger] st[q] != x,
        l >= 2 ==> cross(s[st[l - 2] as int], s[st[l - 1] as int], s[x as int]) > 0,
    ensures
        stack_ok(s, st.take(l).push(x)),
        st.take(l).push(x)[0] == st[0],
{
    let st2 = st.take(l).push(x);
    assert(st2.len() == l + 1);
    assert(forall|q: int| 0 <= q < l ==> st2[q] == st[q]);
    assert(st2[l] == x);
    assert forall|q: int|
        0 <= q && q + 2 < st2.len() implies cross(
        s[#[trigger] st2[q] as int],
        s[st2[q + 1] as int],
        s[st2[q + 2] as int],
    ) > 0 by {
        if q + 2 < l {
            assert(cross(s[st[q] as int], s[st[q + 1] as int], s[st[q + 2] as int]) > 0);
        } else {
            assert(st2[q] == st[l - 2]);
            assert(st2[q + 1] == st[l - 1]);
            assert(st2[q + 2] == x);
        }
    }
}

/// The whole sweep keeps the stack invariant, and never moves the pivot
/// off the bottom of the stack.
#[verifier::rlimit(100)]
#[verifier::spinoff_prover]
proof fn lemma_sweep_props(s: Seq<Point>, st: Seq<usize>, cands: Seq<usize>)
    requires
        stack_ok(s, st),
        cands_ok(s, st, cands),
    ensures
        stack_ok(s, sweep(s, st, cands)),
        sweep(s, st, cands)[0] == st[0],
    decreases cands.len(),
{
    if cands.len() > 0 {
        let x = cands[0];
        lemma_pop_stack_prefix(s, st, x);
        let popped = pop_stack(s, st, x);
        let l = popped.len() as int;
        assert(popped == st.take(l));
        assert(forall|q: int| 0 <= q < popped.len() ==> popped[q] == st[q]);
        lemma_prefix_push_ok(s, st, l, x);
        let st2 = popped.push(x);
        assert(st2 == st.take(l).push(x));
        let rest = cands.drop_first();
        assert(forall|m: int| 0 <= m < rest.len() ==> rest[m] == cands[m + 1]);
        assert forall|q: int, m: int|
            0 <= q < st2.len() && 0 <= m < rest.len() implies #[trigger] st2[q]
            != #[trigger] rest[m] by {
            if q < st2.len() - 1 {
                assert(st2[q] == st[q]);
            } else {
                assert(st2[q] == cands[0]);
            }
        }
        lemma_sweep_props(s, st2, rest);
        assert(sweep(s, st, cands) == sweep(s, st2, rest));
    }
}

/// The sweep keeps the stack strictly sorted by angle around the pivot,
/// provided the candidates come in ascending angular order and after
/// everything already above the pivot on the stack.
#[verifier::rlimit(100)]
#[verifier::spinoff_prover]
proof fn lemma_sweep_chain(s: Seq<Point>, piv: usize, st: Seq<usize>, cands: Seq<usize>)
    requires
        st.len() >= 1,
        st[0] == piv,
        forall|q1: int, q2: int|
            1 <= q1 < q2 < st.len() ==> cross(
                s[piv as int],
                s[(#[trigger] st[q1]) as int],
                s[(#[trigger] st[q2]) as int],
            ) > 0,
        forall|q: int, m: int|
            1 <= q < st.len() && 0 <= m < cands.len() ==> cross(
                s[piv as int],
                s[(#[trigger] st[q]) as int],
                s[(#[trigger] cands[m]) as int],
            ) > 0,
        forall|m1: int, m2: int|
            0 <= m1 < m2 < cands.len() ==> cross(
                s[piv as int],
                s[(#[trigger] cands[m1]) as int],
                s[(#[trigger] cands[m2]) as int],
            ) > 0,
    ensures
        sweep(s, st, cands).len() >= 1,
        sweep(s, st, cands)[0] == st[0],
        forall|q1: int, q2: int|
            1 <= q1 < q2 < sweep(s, st, cands).len() ==> cross(
                s[piv as int],
                s[(#[trigger] sweep(s, st, cands)[q1]) as int],
                s[(#[trigger] sweep(s, st, cands)[q2]) as int],
            ) > 0,
    decreases cands.len(),
{
    if cands.len() > 0 {
        let x = cands[0];
        lemma_pop_stack_prefix(s, st, x);
        let popped = pop_stack(s, st, x);
        let l = popped.len() as int;
        assert(popped == st.take(l));
        assert(forall|q: int| 0 <= q < l ==> popped[q] == st[q]);
        let st2 = popped.push(x);
        let rest = cands.drop_first();
        assert(forall|m: int| 0 <= m < rest.len() ==> rest[m] == cands[m + 1]);
        assert(st2[0] == st[0]);
        assert forall|q1: int, q2: int| 1 <= q1 < q2 < st2.len() implies cross(
            s[piv as int],
            s[st2[q1] as int],
            s[st2[q2] as int],
        ) > 0 by {
            if q2 < st2.len() - 1 {
                assert(st2[q1] == st[q1] && st2[q2] == st[q2]);
            } else {
                assert(st2[q1] == st[q1] && st2[q2] == x);
            }
        }
        assert forall|q: int, m: int| 1 <= q < st2.len() && 0 <= m < rest.len() implies cross(
            s[piv as int],
            s[st2[q] as int],
            s[rest[m] as int],
        ) > 0 by {
            if q < st2.len() - 1 {
                assert(st2[q] == st[q] && rest[m] == cands[m + 1]);
            } else {
                assert(st2[q] == cands[0] && rest[m] == cands[m + 1]);
            }
        }
        lemma_sweep_chain(s, piv, st2, rest);
        assert(sweep(s, st, cands) == sweep(s, st2, rest));
    }
}

/// The sweep: start from the pivot alone, and fold in every sorted
/// candidate, popping while the turn is not strictly counter-clockwise.
#[verifier::loop_isolation(false)]
#[verifier::rlimit(100)]
fn sweep_hull(points: &Vec<Point>, piv: usize, sorted: &Vec<usize>) -> (stack: Vec<usize>)
    requires
        forall|k: int| 0 <= k < points@.len() ==> points@[k].in_range(),
        (piv as int) < points@.len(),
        forall|q: int|
            0 <= q < sorted@.len() ==> ((#[trigger] sorted@[q] as int) < points@.len() && sorted@[q]
                != piv),
        forall|q1: int, q2: int| 0 <= q1 < q2 < sorted@.len() ==> sorted@[q1] != sorted@[q2],
        forall|q1: int, q2: int|
            0 <= q1 < q2 < sorted@.len() ==> cross(
                points@[piv as int],
                points@[(#[trigger] sorted@[q1]) as int],
                points@[(#[trigger] sorted@[q2]) as int],
            ) > 0,
    ensures
        stack@ == sweep(points@, seq![piv], sorted@),
        stack@.len() >= 1,
        stack@[0] == piv,
        forall|q: int| 0 <= q < stack@.len() ==> (#[trigger] stack@[q] as int) < points@.len(),
        forall|q1: int, q2: int| 0 <= q1 < q2 < stack@.len() ==> stack@[q1] != stack@[q2],
        forall|q: int|
            0 <= q && q + 2 < stack@.len() ==> cross(
                points@[#[trigger] stack@[q] as int],
                points@[stack@[q + 1] as int],
                points@[stack@[q + 2] as int],
            ) > 0,
        forall|q1: int, q2: int|
            1 <= q1 < q2 < stack@.len() ==> cross(
                points@[piv as int],
                points@[(#[trigger] stack@[q1]) as int],
                points@[(#[trigger] stack@[q2]) as int],
            ) > 0,
{
    let ghost s = points@;
    let n = points.len();
    let mut stack: Vec<usize> = Vec::new();
    stack.push(piv);
    proof {
        assert(stack@ =~= seq![piv]);
        assert(sorted@.skip(0) =~= sorted@);
    }
    let mut u: usize = 0;
    while u < sorted.len()
        invariant
            u <= sorted@.len(),
            sweep(s, stack@, sorted@.skip(u as int)) == sweep(s, seq![piv], sorted@),
            stack@.len() >= 1,
            forall|q: int| 0 <= q < stack@.len() ==> (#[trigger] stack@[q] as int) < n,
        decreases sorted@.len() - u,
    {
        let x = sorted[u];
        let ghost st0 = stack@;
        while should_pop(points, &stack, x)
            invariant
                1 <= stack@.len() <= st0.len(),
                stack@ == st0.take(stack@.len() as int),
                pop_stack(s, stack@, x) == pop_stack(s, st0, x),
            decreases stack@.len(),
        {
            let ghost before_pop = stack@;
            stack.pop();
            proof {
                assert(stack@ =~= before_pop.drop_last());
                assert(stack@ =~= st0.take(stack@.len() as int));
            }
        }
        let ghost popped = stack@;
        stack.push(x);
        proof {
            assert(forall|q: int| 0 <= q < popped.len() ==> popped[q] == st0[q]);
            assert(stack@ =~= popped.push(x));
            assert(sorted@.skip(u as int).drop_first() =~= sorted@.skip(u as int + 1));
            assert(sorted@.skip(u as int)[0] == x);
            assert(sweep(s, st0, sorted@.skip(u as int)) == sweep(
                s,
                stack@,
                sorted@.skip(u as int + 1),
            ));
        }
        u = u + 1;
    }
    proof {
        assert(sorted@.skip(sorted@.len() as int) =~= Seq::<usize>::empty());
        assert(stack@ == sweep(s, seq![piv], sorted@));
        lemma_sweep_props(s, seq![piv], sorted@);
        lemma_sweep_chain(s, piv, seq![piv], sorted@);
    }
    stack
}

/// Finds the convex hull of a sequence of `Point`s: the indices of the
/// boundary, counter-clockwise, starting from the lowest-then-leftmost
/// point. The result is exactly the hull the specification pipeline
/// describes; on any non-empty input it is a non-empty sequence of
/// distinct, valid indices, it starts at the pivot, and every three
/// cyclically consecutive entries of a hull of three or more vertices
/// make a strict counter-clockwise turn. An empty input is the one error.
#[verifier::rlimit(100)]
pub fn graham_scan(points: &Vec<Point>) -> (r: Result<Vec<usize>, HullError>)
    requires
        forall|k: int| 0 <= k < points@.len() ==> points@[k].in_range(),
    ensures
        match r {
            Ok(h) => {
                &&& points@.len() > 0
                &&& h@ == hull_spec(points@)
                &&& h@.len() >= 1
                &&& h@[0] as int == pivot_idx(points@)
                &&& is_lex_min_at(points@, h@[0] as int)
                &&& forall|k: int| 0 <= k < h@.len() ==> (#[trigger] h@[k] as int) < points@.len()
                &&& forall|k1: int, k2: int| 0 <= k1 < k2 < h@.len() ==> h@[k1] != h@[k2]
                &&& forall|k: int|
                    0 <= k && k + 2 < h@.len() ==> cross(
                        points@[#[trigger] h@[k] as int],
                        points@[h@[k + 1] as int],
                        points@[h@[k + 2] as int],
                    ) > 0
                &&& h@.len() >= 3 ==> cross(
                    points@[h@[h@.len() - 2] as int],
                    points@[h@[h@.len() - 1] as int],
                    points@[h@[0] as int],
                ) > 0
                &&& h@.len() >= 3 ==> cross(
                    points@[h@[h@.len() - 1] as int],
                    points@[h@[0] as int],
                    points@[h@[1] as int],
                ) > 0
            },
            Err(e) => points@.len() == 0 && e == HullError::EmptyInput,
        },
{
    if points.len() == 0 {
        return Err(HullError::EmptyInput);
    }
    let piv = find_pivot(points);
    let cands = collect_cands(points, piv);
    let sorted = sort_candidates(points, piv, &cands);
    let stack = sweep_hull(points, piv, &sorted);
    proof {
        assert(pivot_idx(points@) as usize == piv);
        assert(stack@ == hull_spec(points@));
        let s = points@;
        let h = stack@;
        let n = h.len() as int;
        if n >= 3 {
            // The two wrap-around triples reduce, by rotating the
            // orientation test, to the angular order of the chain above
            // the pivot.
            lemma_cross_cyclic(s[h[n - 2] as int], s[h[n - 1] as int], s[h[0] as int]);
            assert(cross(s[piv as int], s[h[n - 2] as int], s[h[n - 1] as int]) > 0);
            lemma_cross_cyclic(s[h[n - 1] as int], s[h[0] as int], s[h[1] as int]);
            assert(cross(s[piv as int], s[h[1] as int], s[h[n - 1] as int]) > 0);
        }
    }
    Ok(stack)
}

} // verus!

