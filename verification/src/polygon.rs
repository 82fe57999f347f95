//! Polygons: counter-clockwise vertex sequences with area, visibility
//! (diagonal) tests, and ear-clipping triangulation.

use crate::line::{line, spec_area2, Line};
use crate::num;
use crate::point::{lex_le, point2, seq_in_bounds, Point2};
use vstd::prelude::*;

verus! {

/// One term of the shoelace edge sum: the contribution of the directed edge
/// from `a` to `b`. The full sum over a closed vertex cycle is non-positive
/// exactly when the cycle is counter-clockwise.
pub open spec fn edge_term(a: Point2, b: Point2) -> int {
    (b.x - a.x) * (b.y + a.y)
}

/// Sum of `edge_term` over the open path `s[m] -> s[m+1] -> ... -> s[k]`.
pub open spec fn path_sum(s: Seq<Point2>, m: int, k: int) -> int
    decreases k - m,
{
    if k <= m {
        0
    } else {
        path_sum(s, m, k - 1) + edge_term(s[k - 1], s[k])
    }
}

/// The shoelace edge sum of the closed cycle through all of `s`.
pub open spec fn shoelace(s: Seq<Point2>) -> int {
    if s.len() == 0 {
        0
    } else {
        path_sum(s, 0, s.len() - 1) + edge_term(s[s.len() - 1], s[0])
    }
}

/// The vertex cycle is counter-clockwise (non-positive shoelace edge sum).
pub open spec fn is_ccw(s: Seq<Point2>) -> bool {
    shoelace(s) <= 0
}

/// Fan sum of signed doubled triangle areas from vertex `0`: the terms
/// `area2(s[0], s[t-1], s[t])` for `t` up to `k`.
pub open spec fn fan_sum(s: Seq<Point2>, k: int) -> int
    decreases k,
{
    if k <= 1 {
        0
    } else {
        fan_sum(s, k - 1) + spec_area2(s[0], s[k - 1], s[k])
    }
}

/// The signed doubled area of the polygon `s`, by fan triangulation from
/// vertex `0`: positive for counter-clockwise simple polygons.
pub open spec fn signed_double_area_spec(s: Seq<Point2>) -> int {
    fan_sum(s, s.len() - 1)
}

/// Absolute value.
pub open spec fn abs_val(x: int) -> int {
    if x < 0 {
        -x
    } else {
        x
    }
}

/// Index of the vertex after `i` in a cycle of length `len`.
pub open spec fn next_spec(len: int, i: int) -> int {
    if i + 1 == len {
        0
    } else {
        i + 1
    }
}

/// Index of the vertex before `i` in a cycle of length `len`.
pub open spec fn prev_spec(len: int, i: int) -> int {
    if i == 0 {
        len - 1
    } else {
        i - 1
    }
}

/// Is `b` within the interior angular cone at vertex `a`?
///
/// When the cone at `a` is convex (the previous vertex lies left of the line
/// from `a` to the next vertex), `b` must lie strictly left of the line from
/// `a` towards the previous vertex and strictly right of the line towards the
/// next one. When the cone is reflex, `b` must not lie in the inverse cone,
/// tested with collinearity allowed and then negated.
pub open spec fn in_cone_spec(s: Seq<Point2>, a: int, b: int) -> bool {
    let ap = s[prev_spec(s.len() as int, a)];
    let an = s[next_spec(s.len() as int, a)];
    let l = (Line { a: s[a], b: s[b] });
    if (Line { a: s[a], b: an }).is_left_spec(ap) {
        l.is_left_spec(ap) && l.is_right_spec(an)
    } else {
        !((l.is_left_spec(an) || l.is_collinear_spec(an)) && (l.is_right_spec(ap)
            || l.is_collinear_spec(ap)))
    }
}

/// The polygon edge from vertex `i` to the vertex after it blocks the segment
/// between vertices `a` and `b`: the edge is not incident to `a` or `b` and
/// intersects that segment, properly or improperly.
pub open spec fn edge_blocks_spec(s: Seq<Point2>, a: int, b: int, i: int) -> bool {
    let j = next_spec(s.len() as int, i);
    &&& i != a
    &&& i != b
    &&& j != a
    &&& j != b
    &&& (Line { a: s[a], b: s[b] }).improperly_intersects_spec(Line { a: s[i], b: s[j] })
}

/// No polygon edge blocks the segment between vertices `a` and `b`.
pub open spec fn no_edge_blocks_spec(s: Seq<Point2>, a: int, b: int) -> bool {
    forall|i: int| 0 <= i < s.len() ==> !edge_blocks_spec(s, a, b, i)
}

/// Vertices `a` and `b` see each other along a diagonal: each lies in the
/// other's angular cone, and no polygon edge blocks the segment between them.
pub open spec fn is_diagonal_spec(s: Seq<Point2>, a: int, b: int) -> bool {
    in_cone_spec(s, a, b) && in_cone_spec(s, b, a) && no_edge_blocks_spec(s, a, b)
}

/// A plain triangle, as emitted by `Polygon::triangulate`.
#[derive(Clone, Copy, Debug, PartialEq, Eq, Hash, Structural)]
pub struct Triangle {
    /// The first point.
    pub a: Point2,
    /// The second point.
    pub b: Point2,
    /// The third point.
    pub c: Point2,
}

/// The signed doubled area of a triangle.
pub open spec fn tri_area2(t: Triangle) -> int {
    spec_area2(t.a, t.b, t.c)
}

/// Sum of the signed doubled areas of a sequence of triangles.
pub open spec fn tri_area_sum(ts: Seq<Triangle>) -> int
    decreases ts.len(),
{
    if ts.len() == 0 {
        0
    } else {
        tri_area_sum(ts.drop_last()) + tri_area2(ts.last())
    }
}

/// `p` is one of `t`'s corners.
pub open spec fn tri_has_vertex(t: Triangle, p: Point2) -> bool {
    t.a == p || t.b == p || t.c == p
}

/// `p` is a corner of some triangle in `ts`.
pub open spec fn covered(ts: Seq<Triangle>, p: Point2) -> bool {
    exists|k: int| 0 <= k < ts.len() && tri_has_vertex(ts[k], p)
}

/// Every corner of every triangle in `ts` is a vertex of `orig`.
pub open spec fn tris_from(orig: Seq<Point2>, ts: Seq<Triangle>) -> bool {
    forall|k: int|
        0 <= k < ts.len() ==> orig.contains(#[trigger] ts[k].a) && orig.contains(ts[k].b)
            && orig.contains(ts[k].c)
}

/// Every vertex of `orig` is a corner of some triangle in `ts`.
pub open spec fn tris_cover(orig: Seq<Point2>, ts: Seq<Triangle>) -> bool {
    forall|p: Point2| #[trigger] orig.contains(p) ==> covered(ts, p)
}

proof fn lemma_path_sum_split(s: Seq<Point2>, m: int, j: int, k: int)
    requires
        m <= j <= k,
    ensures
        path_sum(s, m, k) == path_sum(s, m, j) + path_sum(s, j, k),
    decreases k - j,
{
    if k > j {
        lemma_path_sum_split(s, m, j, k - 1);
    }
}

proof fn lemma_path_sum_shift(s: Seq<Point2>, t: Seq<Point2>, d: int, m: int, k: int)
    requires
        0 <= m <= k,
        k < t.len(),
        0 <= m + d,
        k + d < s.len(),
        forall|j: int| m <= j <= k ==> t[j] == s[j + d],
    ensures
        path_sum(t, m, k) == path_sum(s, m + d, k + d),
    decreases k - m,
{
    if k > m {
        lemma_path_sum_shift(s, t, d, m, k - 1);
        assert(t[k - 1] == s[k - 1 + d]);
        assert(t[k] == s[k + d]);
    }
}

proof fn lemma_edge_term_triangle(a: Point2, b: Point2, c: Point2)
    by (nonlinear_arith)
    ensures
        edge_term(a, b) + edge_term(b, c) - edge_term(a, c) == -spec_area2(a, b, c),
{
}

proof fn lemma_edge_term_antisym(a: Point2, b: Point2)
    by (nonlinear_arith)
    ensures
        edge_term(a, b) + edge_term(b, a) == 0,
{
}

/// The signed doubled triangle area is invariant under rotating the corners.
pub proof fn lemma_area2_cyclic(a: Point2, b: Point2, c: Point2)
    by (nonlinear_arith)
    ensures
        spec_area2(a, b, c) == spec_area2(b, c, a),
{
}

/// The shoelace edge sum of a triangle is the negated signed doubled area.
pub proof fn lemma_shoelace_triangle(a: Point2, b: Point2, c: Point2)
    ensures
        shoelace(seq![a, b, c]) == -spec_area2(a, b, c),
{
    let s = seq![a, b, c];
    assert(path_sum(s, 0, 2) == path_sum(s, 0, 1) + edge_term(s[1], s[2]));
    assert(path_sum(s, 0, 1) == path_sum(s, 0, 0) + edge_term(s[0], s[1]));
    lemma_edge_term_triangle(a, b, c);
    lemma_edge_term_antisym(a, c);
}

/// Removing vertex `i` from a cycle changes the shoelace edge sum by the
/// signed doubled area of the triangle formed by `i` and its two neighbours.
pub proof fn lemma_shoelace_remove(s: Seq<Point2>, i: int)
    requires
        3 <= s.len(),
        0 <= i < s.len(),
    ensures
        shoelace(s.remove(i)) == shoelace(s) + spec_area2(
            s[prev_spec(s.len() as int, i)],
            s[i],
            s[next_spec(s.len() as int, i)],
        ),
{
    let n = s.len() as int;
    let t = s.remove(i);
    s.remove_ensures(i);
    if i == 0 {
        // t[j] == s[j + 1] for the whole of t.
        lemma_path_sum_shift(s, t, 1, 0, n - 2);
        lemma_path_sum_split(s, 0, 1, n - 1);
        assert(path_sum(s, 0, 1) == path_sum(s, 0, 0) + edge_term(s[0], s[1]));
        lemma_edge_term_triangle(s[n - 1], s[0], s[1]);
        lemma_area2_cyclic(s[n - 1], s[0], s[1]);
    } else if i == n - 1 {
        // t[j] == s[j] for the whole of t.
        lemma_path_sum_shift(s, t, 0, 0, n - 2);
        lemma_path_sum_split(s, 0, n - 2, n - 1);
        assert(path_sum(s, n - 2, n - 1) == path_sum(s, n - 2, n - 2) + edge_term(
            s[n - 2],
            s[n - 1],
        ));
        lemma_edge_term_triangle(s[n - 2], s[n - 1], s[0]);
    } else {
        // t agrees with s up to i - 1, and is shifted by one from i on.
        lemma_path_sum_split(t, 0, i - 1, n - 2);
        lemma_path_sum_split(t, i - 1, i, n - 2);
        if i > 1 {
            lemma_path_sum_shift(s, t, 0, 0, i - 1);
        }
        assert(path_sum(t, i - 1, i) == path_sum(t, i - 1, i - 1) + edge_term(t[i - 1], t[i]));
        if i < n - 2 {
            lemma_path_sum_shift(s, t, 1, i, n - 2);
        }
        lemma_path_sum_split(s, 0, i - 1, n - 1);
        lemma_path_sum_split(s, i - 1, i + 1, n - 1);
        lemma_path_sum_split(s, i - 1, i, i + 1);
        assert(path_sum(s, i - 1, i) == path_sum(s, i - 1, i - 1) + edge_term(s[i - 1], s[i]));
        assert(path_sum(s, i, i + 1) == path_sum(s, i, i) + edge_term(s[i], s[i + 1]));
        lemma_edge_term_triangle(s[i - 1], s[i], s[i + 1]);
    }
}

proof fn lemma_fan_sum_congruent(s: Seq<Point2>, t: Seq<Point2>, k: int)
    requires
        0 <= k,
        k < s.len(),
        k < t.len(),
        forall|j: int| 0 <= j <= k ==> s[j] == t[j],
    ensures
        fan_sum(s, k) == fan_sum(t, k),
    decreases k,
{
    if k > 1 {
        lemma_fan_sum_congruent(s, t, k - 1);
        assert(s[0] == t[0]);
        assert(s[k - 1] == t[k - 1]);
        assert(s[k] == t[k]);
    }
}

/// The fan sum of signed doubled areas from vertex `0` equals the negated
/// shoelace edge sum: two ways of writing the polygon's doubled signed area.
pub proof fn lemma_fan_shoelace(s: Seq<Point2>)
    requires
        3 <= s.len(),
    ensures
        signed_double_area_spec(s) == -shoelace(s),
    decreases s.len(),
{
    let n = s.len() as int;
    if n == 3 {
        lemma_shoelace_triangle(s[0], s[1], s[2]);
        assert(seq![s[0], s[1], s[2]] =~= s);
        assert(fan_sum(s, 2) == fan_sum(s, 1) + spec_area2(s[0], s[1], s[2]));
    } else {
        let t = s.remove(n - 1);
        s.remove_ensures(n - 1);
        lemma_fan_shoelace(t);
        lemma_shoelace_remove(s, n - 1);
        lemma_area2_cyclic(s[n - 2], s[n - 1], s[0]);
        lemma_area2_cyclic(s[n - 1], s[0], s[n - 2]);
        lemma_fan_sum_congruent(s, t, n - 2);
    }
}

/// The state carried through triangulation: the remaining vertex cycle `vs`
/// and the triangles `ts` emitted so far, against the original cycle `orig`.
spec fn tri_step_inv(orig: Seq<Point2>, vs: Seq<Point2>, ts: Seq<Triangle>) -> bool {
    &&& 3 <= vs.len()
    &&& seq_in_bounds(vs)
    &&& forall|j: int| 0 <= j < vs.len() ==> orig.contains(#[trigger] vs[j])
    &&& tris_from(orig, ts)
    &&& forall|p: Point2| #[trigger] orig.contains(p) ==> vs.contains(p) || covered(ts, p)
    &&& tri_area_sum(ts) - shoelace(vs) == -shoelace(orig)
    &&& ts.len() + vs.len() == orig.len()
}

/// Emitting the triangle at vertex `i` and removing `i` from the cycle
/// preserves the triangulation invariant.
proof fn lemma_tri_step(orig: Seq<Point2>, vs: Seq<Point2>, ts: Seq<Triangle>, i: int, t: Triangle)
    requires
        tri_step_inv(orig, vs, ts),
        4 <= vs.len(),
        0 <= i < vs.len(),
        t == (Triangle {
            a: vs[prev_spec(vs.len() as int, i)],
            b: vs[i],
            c: vs[next_spec(vs.len() as int, i)],
        }),
    ensures
        tri_step_inv(orig, vs.remove(i), ts.push(t)),
{
    let n = vs.len() as int;
    let vs2 = vs.remove(i);
    let ts2 = ts.push(t);
    vs.remove_ensures(i);
    lemma_shoelace_remove(vs, i);
    lemma_tri_area_sum_push(ts, t);
    assert forall|j: int| 0 <= j < vs2.len() implies orig.contains(#[trigger] vs2[j]) by {
        if j < i {
            assert(vs2[j] == vs[j]);
        } else {
            assert(vs2[j] == vs[j + 1]);
        }
    }
    assert forall|p: Point2| #[trigger] orig.contains(p) implies vs2.contains(p) || covered(
        ts2,
        p,
    ) by {
        if vs.contains(p) {
            let j = choose|j: int| 0 <= j < vs.len() && vs[j] == p;
            if j == i {
                assert(tri_has_vertex(ts2[ts.len() as int], p));
            } else if j < i {
                assert(vs2[j] == p);
                assert(vs2.contains(p));
            } else {
                assert(vs2[j - 1] == p);
                assert(vs2.contains(p));
            }
        } else if covered(ts, p) {
            let k = choose|k: int| 0 <= k < ts.len() && tri_has_vertex(ts[k], p);
            assert(tri_has_vertex(ts2[k], p));
        }
    }
    assert(tris_from(orig, ts2)) by {
        assert(orig.contains(vs[prev_spec(n, i)]));
        assert(orig.contains(vs[i]));
        assert(orig.contains(vs[next_spec(n, i)]));
        assert forall|k: int|
            0 <= k < ts2.len() implies orig.contains(#[trigger] ts2[k].a) && orig.contains(
            ts2[k].b,
        ) && orig.contains(ts2[k].c) by {
            if k < ts.len() {
                assert(ts2[k] == ts[k]);
            } else {
                assert(ts2[k] == t);
            }
        }
    }
}

proof fn lemma_tri_area_sum_push(ts: Seq<Triangle>, t: Triangle)
    ensures
        tri_area_sum(ts.push(t)) == tri_area_sum(ts) + tri_area2(t),
{
    assert(ts.push(t).drop_last() =~= ts);
    assert(ts.push(t).last() == t);
}

/// The cross product of the vectors `(ax, ay)` and `(bx, by)`.
pub open spec fn cross_spec(ax: int, ay: int, bx: int, by: int) -> int {
    ax * by - ay * bx
}

/// `a` sorts strictly after `b` in counter-clockwise order around `pivot`,
/// starting from 12 o'clock.
///
/// Points on the right half-plane (including the vertical through the pivot)
/// come before points on the left half-plane; within the vertical through the
/// pivot, ties break on distance; otherwise the cross product of the offsets
/// decides, with a final tie-break on each point's cross product against the
/// pivot's position vector.
pub open spec fn around_gt_spec(pivot: Point2, a: Point2, b: Point2) -> bool {
    let adx = a.x - pivot.x;
    let bdx = b.x - pivot.x;
    if adx >= 0 && bdx < 0 {
        true
    } else if adx < 0 && bdx >= 0 {
        false
    } else if adx == 0 && bdx == 0 {
        if a.y - pivot.y >= 0 || b.y - pivot.y >= 0 {
            a.y > b.y
        } else {
            b.y > a.y
        }
    } else {
        let c = cross_spec(a.x - pivot.x, a.y - pivot.y, b.x - pivot.x, b.y - pivot.y);
        if c < 0 {
            true
        } else if c > 0 {
            false
        } else {
            cross_spec(a.x as int, a.y as int, pivot.x as int, pivot.y as int) > cross_spec(
                b.x as int,
                b.y as int,
                pivot.x as int,
                pivot.y as int,
            )
        }
    }
}

/// Adjacent elements of `s` are in counter-clockwise order around `pivot`.
pub open spec fn sorted_around(pivot: Point2, s: Seq<Point2>) -> bool {
    forall|k: int| 0 <= k && k + 1 < s.len() ==> !around_gt_spec(pivot, #[trigger] s[k], s[k + 1])
}

proof fn lemma_cross_antisym(ax: int, ay: int, bx: int, by: int)
    by (nonlinear_arith)
    ensures
        cross_spec(ax, ay, bx, by) == -cross_spec(bx, by, ax, ay),
{
}

/// The order around a pivot is asymmetric: two points never both sort
/// strictly after one another.
pub proof fn lemma_around_gt_asym(pivot: Point2, a: Point2, b: Point2)
    ensures
        around_gt_spec(pivot, a, b) ==> !around_gt_spec(pivot, b, a),
{
    lemma_cross_antisym(a.x - pivot.x, a.y - pivot.y, b.x - pivot.x, b.y - pivot.y);
}

/// The signed doubled triangle area flips sign when two corners swap.
pub(crate) proof fn lemma_area2_swap(a: Point2, b: Point2, c: Point2)
    by (nonlinear_arith)
    ensures
        spec_area2(a, b, c) == -spec_area2(b, a, c),
{
}

/// A triangle with a repeated corner has no area.
pub(crate) proof fn lemma_area2_self(a: Point2, b: Point2)
    by (nonlinear_arith)
    ensures
        spec_area2(a, b, a) == 0,
        spec_area2(a, b, b) == 0,
        spec_area2(a, a, b) == 0,
{
}

/// The cross product of two offsets from `p` is the signed doubled area of
/// the triangle at `p`.
proof fn lemma_cross_is_area2(p: Point2, a: Point2, b: Point2)
    by (nonlinear_arith)
    ensures
        cross_spec(a.x - p.x, a.y - p.y, b.x - p.x, b.y - p.y) == spec_area2(p, a, b),
{
}

/// In the order around `pivot`, the pivot itself sorts strictly after every
/// other point that is lexicographically no greater than it.
pub(crate) proof fn lemma_pivot_sorts_last(pivot: Point2, b: Point2)
    requires
        lex_le(b, pivot),
        b != pivot,
    ensures
        around_gt_spec(pivot, pivot, b),
{
}

/// Two points in sorted order around `pivot`, both lexicographically below it
/// and not on one line with it, make a strict left turn at the pivot.
pub(crate) proof fn lemma_sorted_pair_left(pivot: Point2, a: Point2, b: Point2)
    requires
        lex_le(a, pivot),
        lex_le(b, pivot),
        a != pivot,
        b != pivot,
        !around_gt_spec(pivot, a, b),
        spec_area2(pivot, a, b) != 0,
    ensures
        spec_area2(pivot, a, b) > 0,
{
    lemma_cross_is_area2(pivot, a, b);
    let adx = a.x - pivot.x;
    let ady = a.y - pivot.y;
    let bdx = b.x - pivot.x;
    let bdy = b.y - pivot.y;
    if adx == 0 && bdx == 0 {
        assert(cross_spec(adx, ady, bdx, bdy) == 0) by (nonlinear_arith)
            requires
                adx == 0,
                bdx == 0,
        ;
    } else if adx < 0 && bdx == 0 {
        assert(b.y < pivot.y);
        assert(cross_spec(adx, ady, bdx, bdy) == adx * bdy > 0) by (nonlinear_arith)
            requires
                adx < 0,
                bdy < 0,
                bdx == 0,
        ;
    }
}


/// Sum of the signed doubled areas of the triangles from apex `p` over the
/// first `k` edges of the open path along `s`.
pub open spec fn apex_fan(p: Point2, s: Seq<Point2>, k: int) -> int
    decreases k,
{
    if k <= 0 {
        0
    } else {
        apex_fan(p, s, k - 1) + spec_area2(p, s[k - 1], s[k])
    }
}

proof fn lemma_apex_fan_path(p: Point2, s: Seq<Point2>, k: int)
    requires
        0 <= k < s.len(),
    ensures
        apex_fan(p, s, k) == edge_term(p, s[k]) - edge_term(p, s[0]) - path_sum(s, 0, k),
    decreases k,
{
    if k > 0 {
        lemma_apex_fan_path(p, s, k - 1);
        lemma_edge_term_triangle(p, s[k - 1], s[k]);
    }
}

/// The full fan of signed doubled areas from any apex `p` around the closed
/// cycle `s` is the negated shoelace edge sum.
pub proof fn lemma_apex_fan_shoelace(p: Point2, s: Seq<Point2>)
    requires
        s.len() >= 1,
    ensures
        apex_fan(p, s, s.len() - 1) + spec_area2(p, s[s.len() - 1], s[0]) == -shoelace(s),
{
    lemma_apex_fan_path(p, s, s.len() - 1);
    lemma_edge_term_triangle(p, s[s.len() - 1], s[0]);
}

/// Two points in sorted order around `pivot`, both lexicographically at or
/// below it, never make a right turn at the pivot.
proof fn lemma_sorted_pair_nonneg(pivot: Point2, a: Point2, b: Point2)
    requires
        lex_le(a, pivot),
        lex_le(b, pivot),
        !around_gt_spec(pivot, a, b),
    ensures
        spec_area2(pivot, a, b) >= 0,
{
    lemma_cross_is_area2(pivot, a, b);
    lemma_area2_self(pivot, a);
    lemma_area2_self(pivot, b);
    if a == pivot && b != pivot {
        lemma_pivot_sorts_last(pivot, b);
    } else if a != pivot && b != pivot {
        let adx = a.x - pivot.x;
        let ady = a.y - pivot.y;
        let bdx = b.x - pivot.x;
        let bdy = b.y - pivot.y;
        if adx == 0 && bdx == 0 {
            assert(cross_spec(adx, ady, bdx, bdy) == 0) by (nonlinear_arith)
                requires
                    adx == 0,
                    bdx == 0,
            ;
        } else if adx < 0 && bdx == 0 {
            assert(b.y < pivot.y);
            assert(cross_spec(adx, ady, bdx, bdy) == adx * bdy > 0) by (nonlinear_arith)
                requires
                    adx < 0,
                    bdy < 0,
                    bdx == 0,
            ;
        }
    }
}

proof fn lemma_apex_fan_nonneg(pivot: Point2, s: Seq<Point2>, k: int)
    requires
        0 <= k < s.len(),
        sorted_around(pivot, s),
        forall|j: int| 0 <= j < s.len() ==> lex_le(#[trigger] s[j], pivot),
    ensures
        apex_fan(pivot, s, k) >= 0,
    decreases k,
{
    if k > 0 {
        lemma_apex_fan_nonneg(pivot, s, k - 1);
        lemma_sorted_pair_nonneg(pivot, s[k - 1], s[k]);
    }
}

proof fn lemma_pivot_suffix(pivot: Point2, s: Seq<Point2>, j: int, k: int)
    requires
        sorted_around(pivot, s),
        forall|m: int| 0 <= m < s.len() ==> lex_le(#[trigger] s[m], pivot),
        0 <= j <= k < s.len(),
        s[j] == pivot,
    ensures
        s[k] == pivot,
    decreases k - j,
{
    if k > j {
        lemma_pivot_suffix(pivot, s, j, k - 1);
        if s[k] != pivot {
            lemma_pivot_sorts_last(pivot, s[k]);
            assert(around_gt_spec(pivot, s[k - 1], s[k]));
            assert(false);
        }
    }
}

/// Points sorted around a pivot that occurs among them and is
/// lexicographically maximal among them are in counter-clockwise order: the
/// cycle the hull scan starts from is already oriented.
pub proof fn lemma_sorted_around_max_ccw(pivot: Point2, s: Seq<Point2>)
    requires
        s.len() >= 1,
        sorted_around(pivot, s),
        forall|j: int| 0 <= j < s.len() ==> lex_le(#[trigger] s[j], pivot),
        s.contains(pivot),
    ensures
        is_ccw(s),
{
    let n = s.len() as int;
    let j = choose|j: int| 0 <= j < n && s[j] == pivot;
    lemma_pivot_suffix(pivot, s, j, n - 1);
    lemma_apex_fan_shoelace(pivot, s);
    lemma_apex_fan_nonneg(pivot, s, n - 1);
    lemma_area2_self(pivot, s[0]);
    assert(spec_area2(pivot, s[n - 1], s[0]) == 0);
}

/// Does `a` sort strictly after `b` in counter-clockwise order around
/// `pivot`?
fn around_gt(pivot: Point2, a: Point2, b: Point2) -> (r: bool)
    requires
        pivot.in_bounds(),
        a.in_bounds(),
        b.in_bounds(),
    ensures
        r == around_gt_spec(pivot, a, b),
{
    let adx: i64 = a.x - pivot.x;
    let bdx: i64 = b.x - pivot.x;
    if adx >= 0 && bdx < 0 {
        true
    } else if adx < 0 && bdx >= 0 {
        false
    } else if adx == 0 && bdx == 0 {
        // Break ties with distance to the pivot.
        if a.y - pivot.y >= 0 || b.y - pivot.y >= 0 {
            a.y > b.y
        } else {
            b.y > a.y
        }
    } else {
        let ady: i64 = a.y - pivot.y;
        let bdy: i64 = b.y - pivot.y;
        proof {
            crate::line::lemma_mul_bound(
                adx as int,
                bdy as int,
                2 * crate::COORD_LIMIT as int,
                2 * crate::COORD_LIMIT as int,
            );
            crate::line::lemma_mul_bound(
                ady as int,
                bdx as int,
                2 * crate::COORD_LIMIT as int,
                2 * crate::COORD_LIMIT as int,
            );
        }
        let c: i64 = adx * bdy - ady * bdx;
        if c < 0 {
            true
        } else if c > 0 {
            false
        } else {
            // Again, break ties with distance to the pivot.
            proof {
                crate::line::lemma_mul_bound(
                    a.x as int,
                    pivot.y as int,
                    crate::COORD_LIMIT as int,
                    crate::COORD_LIMIT as int,
                );
                crate::line::lemma_mul_bound(
                    a.y as int,
                    pivot.x as int,
                    crate::COORD_LIMIT as int,
                    crate::COORD_LIMIT as int,
                );
                crate::line::lemma_mul_bound(
                    b.x as int,
                    pivot.y as int,
                    crate::COORD_LIMIT as int,
                    crate::COORD_LIMIT as int,
                );
                crate::line::lemma_mul_bound(
                    b.y as int,
                    pivot.x as int,
                    crate::COORD_LIMIT as int,
                    crate::COORD_LIMIT as int,
                );
            }
            let d1: i64 = a.x * pivot.y - a.y * pivot.x;
            let d2: i64 = b.x * pivot.y - b.y * pivot.x;
            d1 > d2
        }
    }
}

/// Sort the given `points` around the given `pivot` point in counter-
/// clockwise order, starting from 12 o'clock, by insertion.
///
/// When the pivot occurs among the points and is lexicographically maximal
/// among them, the sorted points are a counter-clockwise cycle:
/// `lemma_sorted_around_max_ccw`.
pub fn sort_around(pivot: Point2, points: &mut Vec<Point2>)
    requires
        pivot.in_bounds(),
        seq_in_bounds(old(points)@),
    ensures
        final(points)@.to_multiset() == old(points)@.to_multiset(),
        final(points)@.len() == old(points)@.len(),
        seq_in_bounds(final(points)@),
        sorted_around(pivot, final(points)@),
{
    let n = points.len();
    let mut i: usize = 1;
    while i < n
        invariant
            pivot.in_bounds(),
            n == points@.len(),
            points@.to_multiset() == old(points)@.to_multiset(),
            points@.len() == old(points)@.len(),
            seq_in_bounds(points@),
            1 <= i,
            n > 0 ==> i <= n,
            forall|k: int|
                0 <= k && k + 1 < i ==> !around_gt_spec(pivot, #[trigger] points@[k], points@[k + 1]),
        decreases n - i,
    {
        let x = points[i];
        let mut pos: usize = 0;
        while pos < i && !around_gt(pivot, points[pos], x)
            invariant
                pivot.in_bounds(),
                seq_in_bounds(points@),
                i < points@.len(),
                pos <= i,
                x == points@[i as int],
                forall|k: int| 0 <= k < pos ==> !around_gt_spec(pivot, #[trigger] points@[k], x),
            decreases i - pos,
        {
            pos = pos + 1;
        }
        let ghost p0 = points@;
        let x2 = points.remove(i);
        points.insert(pos, x2);
        proof {
            let q = points@;
            assert(q == p0.remove(i as int).insert(pos as int, x));
            p0.remove_ensures(i as int);
            assert(p0.contains(x)) by {
                assert(p0[i as int] == x);
            }
            assert(q.to_multiset() == p0.to_multiset()) by {
                broadcast use vstd::multiset::group_multiset_axioms;

                vstd::seq_lib::to_multiset_remove(p0, i as int);
                vstd::seq_lib::to_multiset_insert(p0.remove(i as int), pos as int, x);
                vstd::seq_lib::to_multiset_contains(p0, x);
                assert(p0.to_multiset().count(x) > 0);
                assert(p0.to_multiset().remove(x).insert(x) =~= p0.to_multiset());
            }
            let r0 = p0.remove(i as int);
            assert forall|k: int| 0 <= k < q.len() implies (#[trigger] q[k]).in_bounds() by {
                if k < pos {
                    assert(q[k] == r0[k]);
                } else if k == pos {
                    assert(q[k] == x);
                } else {
                    assert(q[k] == r0[k - 1]);
                }
                assert(forall|m: int| 0 <= m < r0.len() ==> r0[m] == p0[m] || r0[m] == p0[m + 1]);
            }
            assert forall|k: int| 0 <= k && k + 1 < i + 1 implies !around_gt_spec(
                pivot,
                #[trigger] q[k],
                q[k + 1],
            ) by {
                if k + 1 < pos {
                    assert(q[k] == p0[k] && q[k + 1] == p0[k + 1]);
                } else if k + 1 == pos {
                    assert(q[k] == p0[k] && q[k + 1] == x);
                } else if k == pos {
                    assert(q[k] == x && q[k + 1] == p0[k]);
                    assert(around_gt_spec(pivot, p0[k], x));
                    lemma_around_gt_asym(pivot, p0[k], x);
                } else {
                    assert(q[k] == p0[k - 1] && q[k + 1] == p0[k]);
                }
            }
        }
        i = i + 1;
    }
}

/// The box `r` bounds the point sequence `s` exactly: every point is within
/// it and each of its four sides touches some point.
pub open spec fn aabb_of_points(s: Seq<Point2>, r: crate::aabb::Aabb) -> bool {
    &&& forall|k: int|
        0 <= k < s.len() ==> r.spec_min().x <= (#[trigger] s[k]).x <= r.spec_max().x
            && r.spec_min().y <= s[k].y <= r.spec_max().y
    &&& exists|k: int| 0 <= k < s.len() && (#[trigger] s[k]).x == r.spec_min().x
    &&& exists|k: int| 0 <= k < s.len() && (#[trigger] s[k]).y == r.spec_min().y
    &&& exists|k: int| 0 <= k < s.len() && (#[trigger] s[k]).x == r.spec_max().x
    &&& exists|k: int| 0 <= k < s.len() && (#[trigger] s[k]).y == r.spec_max().y
}

impl crate::aabb::ToAabb for Polygon {
    open spec fn aabb_ready(&self) -> bool {
        self@.len() >= 1 && seq_in_bounds(self@)
    }

    open spec fn is_aabb_of(&self, r: crate::aabb::Aabb) -> bool {
        aabb_of_points(self@, r)
    }

    fn to_aabb(&self) -> (r: crate::aabb::Aabb) {
        crate::aabb::Aabb::for_vertices(&self.vertices)
    }
}

impl crate::aabb::ToAabb for Triangle {
    open spec fn aabb_ready(&self) -> bool {
        self.a.in_bounds() && self.b.in_bounds() && self.c.in_bounds()
    }

    open spec fn is_aabb_of(&self, r: crate::aabb::Aabb) -> bool {
        aabb_of_points(seq![self.a, self.b, self.c], r)
    }

    fn to_aabb(&self) -> (r: crate::aabb::Aabb) {
        let min = point2(
            num::min(num::min(self.a.x, self.b.x), self.c.x),
            num::min(num::min(self.a.y, self.b.y), self.c.y),
        );
        let max = point2(
            num::max(num::max(self.a.x, self.b.x), self.c.x),
            num::max(num::max(self.a.y, self.b.y), self.c.y),
        );
        let r = crate::aabb::Aabb::new(min, max);
        proof {
            let s = seq![self.a, self.b, self.c];
            assert(s[0] == self.a && s[1] == self.b && s[2] == self.c);
            assert forall|k: int|
                0 <= k < s.len() implies r.spec_min().x <= (#[trigger] s[k]).x <= r.spec_max().x
                && r.spec_min().y <= s[k].y <= r.spec_max().y by {}
            assert(aabb_of_points(s, r)) by {
                assert(s[0].x == min.x || s[1].x == min.x || s[2].x == min.x);
                assert(s[0].y == min.y || s[1].y == min.y || s[2].y == min.y);
                assert(s[0].x == max.x || s[1].x == max.x || s[2].x == max.x);
                assert(s[0].y == max.y || s[1].y == max.y || s[2].y == max.y);
            }
        }
        r
    }
}

/// Sum of the `x` coordinates of the first `k` points of `s`.
pub open spec fn sum_x(s: Seq<Point2>, k: int) -> int
    decreases k,
{
    if k <= 0 {
        0
    } else {
        sum_x(s, k - 1) + s[k - 1].x
    }
}

/// Sum of the `y` coordinates of the first `k` points of `s`.
pub open spec fn sum_y(s: Seq<Point2>, k: int) -> int
    decreases k,
{
    if k <= 0 {
        0
    } else {
        sum_y(s, k - 1) + s[k - 1].y
    }
}

/// `a / n` rounded to the nearest integer, ties away from zero.
pub open spec fn round_div(a: int, n: int) -> int {
    if a >= 0 {
        (2 * a + n) / (2 * n)
    } else {
        -((2 * (-a) + n) / (2 * n))
    }
}

proof fn lemma_round_div_bound(a: int, n: int, c: int)
    by (nonlinear_arith)
    requires
        0 < n,
        0 <= c,
        -(n * c) <= a <= n * c,
    ensures
        -c <= round_div(a, n) <= c,
{
}

/// `a / n` rounded to the nearest integer, ties away from zero.
fn round_div_exec(a: i128, n: i128) -> (r: i128)
    requires
        0 < n,
        -100_000_000_000_000_000_000_000_000_000 <= a <= 100_000_000_000_000_000_000_000_000_000,
        n <= 100_000_000_000_000_000_000_000_000_000,
    ensures
        r == round_div(a as int, n as int),
{
    if a >= 0 {
        (2 * a + n) / (2 * n)
    } else {
        -((2 * (-a) + n) / (2 * n))
    }
}

/// Find the center (mean) of a set of points, with each coordinate rounded
/// to the nearest integer, ties away from zero.
pub fn center(points: &Vec<Point2>) -> (r: Point2)
    requires
        points@.len() >= 1,
        seq_in_bounds(points@),
    ensures
        r.x == round_div(sum_x(points@, points@.len() as int), points@.len() as int),
        r.y == round_div(sum_y(points@, points@.len() as int), points@.len() as int),
        r.in_bounds(),
{
    let n = points.len();
    let mut sx: i128 = 0;
    let mut sy: i128 = 0;
    let mut i: usize = 0;
    while i < n
        invariant
            seq_in_bounds(points@),
            n == points@.len(),
            0 <= i <= n,
            sx == sum_x(points@, i as int),
            sy == sum_y(points@, i as int),
            -1_000_000_000 * (i as int) <= sx <= 1_000_000_000 * (i as int),
            -1_000_000_000 * (i as int) <= sy <= 1_000_000_000 * (i as int),
        decreases n - i,
    {
        sx = sx + points[i].x as i128;
        sy = sy + points[i].y as i128;
        i = i + 1;
    }
    let cx = round_div_exec(sx, n as i128);
    let cy = round_div_exec(sy, n as i128);
    proof {
        lemma_round_div_bound(sx as int, n as int, crate::COORD_LIMIT as int);
        lemma_round_div_bound(sy as int, n as int, crate::COORD_LIMIT as int);
        assert(-(n as int) * 1_000_000_000 == -1_000_000_000 * (n as int)) by (nonlinear_arith);
    }
    point2(cx as i64, cy as i64)
}

/// The half-open interval from `low` to `high` is non-empty and lies within
/// `COORD_LIMIT`.
pub open spec fn range_ok(low: i64, high: i64) -> bool {
    -(crate::COORD_LIMIT as int) <= low < high <= crate::COORD_LIMIT as int
}

/// The edge of the cycle `s` starting at vertex `j` touches an endpoint of
/// `l` or of `m`, other than where they share a vertex, or crosses one of
/// them: inserting a new vertex along `l` and `m` there would break
/// simplicity.
pub open spec fn edge_collides_spec(s: Seq<Point2>, l: Line, m: Line, j: int) -> bool {
    let a = s[j];
    let b = s[next_spec(s.len() as int, j)];
    let e = (Line { a: a, b: b });
    ||| (a != l.a && a != l.b && b != l.a && b != l.b && l.improperly_intersects_spec(e))
    ||| (a != m.a && a != m.b && b != m.a && b != m.b && m.improperly_intersects_spec(e))
}

/// Some edge of the cycle `s` collides with `l` or `m`.
pub open spec fn any_edges_collide_spec(s: Seq<Point2>, l: Line, m: Line) -> bool {
    exists|j: int| 0 <= j < s.len() && edge_collides_spec(s, l, m, j)
}

/// Does any edge of the cycle `vs` collide with `l` or `m`?
fn any_edges_collide_with(vs: &Vec<Point2>, l: Line, m: Line) -> (r: bool)
    requires
        seq_in_bounds(vs@),
        l.in_bounds(),
        m.in_bounds(),
    ensures
        r == any_edges_collide_spec(vs@, l, m),
{
    let n = vs.len();
    let mut j: usize = 0;
    while j < n
        invariant
            seq_in_bounds(vs@),
            l.in_bounds(),
            m.in_bounds(),
            n == vs@.len(),
            0 <= j <= n,
            forall|k: int| 0 <= k < j ==> !edge_collides_spec(vs@, l, m, k),
        decreases n - j,
    {
        let jn = if j + 1 == n {
            0
        } else {
            j + 1
        };
        let a = vs[j];
        let b = vs[jn];
        let e = line(a, b);
        if (!(a == l.a) && !(a == l.b) && !(b == l.a) && !(b == l.b) && l.improperly_intersects(&e))
            || (!(a == m.a) && !(a == m.b) && !(b == m.a) && !(b == m.b) && m.improperly_intersects(
            &e,
        )) {
            proof {
                assert(edge_collides_spec(vs@, l, m, j as int));
            }
            return true;
        }
        j = j + 1;
    }
    false
}

/// Does the sequence hold the given point?
fn contains_pt(vs: &Vec<Point2>, p: Point2) -> (r: bool)
    ensures
        r == vs@.contains(p),
{
    let n = vs.len();
    let mut j: usize = 0;
    while j < n
        invariant
            n == vs@.len(),
            0 <= j <= n,
            forall|k: int| 0 <= k < j ==> vs@[k] != p,
        decreases n - j,
    {
        if vs[j] == p {
            proof {
                assert(vs@[j as int] == p);
            }
            return true;
        }
        j = j + 1;
    }
    false
}

/// The sequence in reverse order.
fn reversed(vs: &Vec<Point2>) -> (r: Vec<Point2>)
    ensures
        r@.len() == vs@.len(),
        forall|k: int| 0 <= k < vs@.len() ==> r@[k] == vs@[vs@.len() - 1 - k],
{
    let n = vs.len();
    let mut r: Vec<Point2> = Vec::new();
    let mut j: usize = n;
    while j > 0
        invariant
            n == vs@.len(),
            0 <= j <= n,
            r@.len() == n - j,
            forall|k: int| 0 <= k < n - j ==> r@[k] == vs@[n - 1 - k],
        decreases j,
    {
        j = j - 1;
        let v = vs[j];
        r.push(v);
    }
    r
}

/// `p` lies within the half-open coordinate ranges.
pub open spec fn in_ranges(p: Point2, x_low: i64, x_high: i64, y_low: i64, y_high: i64) -> bool {
    x_low <= p.x < x_high && y_low <= p.y < y_high
}

/// Draw a point with coordinates uniform in the given half-open ranges that
/// is not yet among `vs`, giving up after ten tries.
fn draw_fresh(
    rng: &mut crate::rng::FartThreadRng,
    vs: &Vec<Point2>,
    x_low: i64,
    x_high: i64,
    y_low: i64,
    y_high: i64,
) -> (r: Option<Point2>)
    requires
        range_ok(x_low, x_high),
        range_ok(y_low, y_high),
    ensures
        match r {
            Some(p) => p.in_bounds() && in_ranges(p, x_low, x_high, y_low, y_high)
                && !vs@.contains(p),
            None => true,
        },
{
    let mut tries: usize = 0;
    while tries < 10
        invariant
            range_ok(x_low, x_high),
            range_ok(y_low, y_high),
            tries <= 10,
        decreases 10 - tries,
    {
        let x = rng.gen_range(x_low, x_high);
        let y = rng.gen_range(y_low, y_high);
        let p = point2(x, y);
        if !contains_pt(vs, p) {
            return Some(p);
        }
        tries = tries + 1;
    }
    None
}

/// Is vertex `b` within the interior angular cone at vertex `a` of the cycle
/// `vs`?
fn in_cone_on(vs: &Vec<Point2>, a: usize, b: usize) -> (r: bool)
    requires
        seq_in_bounds(vs@),
        a < vs@.len(),
        b < vs@.len(),
    ensures
        r == in_cone_spec(vs@, a as int, b as int),
{
    let n = vs.len();
    let ap = if a == 0 {
        n - 1
    } else {
        a - 1
    };
    let an = if a + 1 == n {
        0
    } else {
        a + 1
    };
    let a_prev = vs[ap];
    let a_next = vs[an];
    let av = vs[a];
    let bv = vs[b];

    // If `a_prev` is left of the line from `a` to `a_next`, then the cone is
    // convex.
    if line(av, a_next).is_left(a_prev) {
        // When the cone is convex, we just need to check that `a_prev` is
        // left of the line `a` to `b` and the `a_next` is to the right.
        let l = line(av, bv);
        l.is_left(a_prev) && l.is_right(a_next)
    } else {
        // When the cone is reflex, we check that it is *not* in the inverse
        // of the cone. The inverse cone is convex, and therefore can be
        // checked as in the above case, except we allow collinearity since we
        // then negate the whole thing.
        let l = line(av, bv);
        !(l.is_left_or_collinear(a_next) && l.is_right_or_collinear(a_prev))
    }
}

/// Does no edge of the cycle `vs`, other than those incident to `a` or `b`,
/// cross the segment between vertices `a` and `b`?
fn no_edge_blocks_on(vs: &Vec<Point2>, a: usize, b: usize) -> (r: bool)
    requires
        seq_in_bounds(vs@),
        a < vs@.len(),
        b < vs@.len(),
    ensures
        r == no_edge_blocks_spec(vs@, a as int, b as int),
{
    let ghost s = vs@;
    let l = line(vs[a], vs[b]);
    let n = vs.len();
    let mut i: usize = 0;
    while i < n
        invariant
            seq_in_bounds(s),
            vs@ == s,
            n == s.len(),
            a < n,
            b < n,
            0 <= i <= n,
            l == (Line { a: s[a as int], b: s[b as int] }),
            forall|k: int| 0 <= k < i ==> !edge_blocks_spec(s, a as int, b as int, k),
        decreases n - i,
    {
        let j = if i + 1 == n {
            0
        } else {
            i + 1
        };
        if i != a && i != b && j != a && j != b {
            let m = line(vs[i], vs[j]);
            if l.improperly_intersects(&m) {
                proof {
                    assert(edge_blocks_spec(s, a as int, b as int, i as int));
                }
                return false;
            }
        }
        i = i + 1;
    }
    true
}

/// Do vertices `a` and `b` of the cycle `vs` see each other along a diagonal?
fn diagonal_on(vs: &Vec<Point2>, a: usize, b: usize) -> (r: bool)
    requires
        seq_in_bounds(vs@),
        a < vs@.len(),
        b < vs@.len(),
    ensures
        r == is_diagonal_spec(vs@, a as int, b as int),
{
    in_cone_on(vs, a, b) && in_cone_on(vs, b, a) && no_edge_blocks_on(vs, a, b)
}

/// Compute one shoelace edge term.
fn edge_term_exec(a: Point2, b: Point2) -> (r: i64)
    requires
        a.in_bounds(),
        b.in_bounds(),
    ensures
        r == edge_term(a, b),
        -4_000_000_000_000_000_000 <= r <= 4_000_000_000_000_000_000,
{
    let dx: i64 = b.x - a.x;
    let sy: i64 = b.y + a.y;
    proof {
        crate::line::lemma_mul_bound(
            dx as int,
            sy as int,
            2 * crate::COORD_LIMIT as int,
            2 * crate::COORD_LIMIT as int,
        );
    }
    dx * sy
}

/// Are the given vertices in counter-clockwise order?
pub fn is_counter_clockwise(vertices: &Vec<Point2>) -> (r: bool)
    requires
        seq_in_bounds(vertices@),
    ensures
        r == is_ccw(vertices@),
{
    let ghost s = vertices@;
    let n = vertices.len();
    if n == 0 {
        return true;
    }
    let mut sum: i128 = 0;
    let mut j: usize = 0;
    while j < n - 1
        invariant
            seq_in_bounds(s),
            vertices@ == s,
            n == s.len(),
            1 <= n,
            0 <= j <= n - 1,
            sum == path_sum(s, 0, j as int),
            -4_000_000_000_000_000_000 * (j as int) <= sum <= 4_000_000_000_000_000_000 * (
            j as int),
        decreases n - 1 - j,
    {
        let t = edge_term_exec(vertices[j], vertices[j + 1]);
        sum = sum + t as i128;
        j = j + 1;
    }
    let t = edge_term_exec(vertices[n - 1], vertices[0]);
    sum = sum + t as i128;
    sum <= 0
}

/// A polygon.
///
/// The polygon's vertices are in counter-clockwise order.
///
/// No guarantees whether this polygon is convex or not.
#[derive(Clone, Debug)]
pub struct Polygon {
    vertices: Vec<Point2>,
}

impl View for Polygon {
    type V = Seq<Point2>;

    closed spec fn view(&self) -> Seq<Point2> {
        self.vertices@
    }
}

impl Polygon {
    /// The polygon is well formed: at least three vertices, all within
    /// `COORD_LIMIT`, in counter-clockwise order.
    pub open spec fn wf(&self) -> bool {
        &&& self@.len() >= 3
        &&& seq_in_bounds(self@)
        &&& is_ccw(self@)
    }

    /// Construct a new polygon from at least three vertices in
    /// counter-clockwise order.
    pub fn new(vertices: Vec<Point2>) -> (r: Polygon)
        requires
            vertices@.len() >= 3,
            seq_in_bounds(vertices@),
            is_ccw(vertices@),
        ensures
            r@ == vertices@,
            r.wf(),
    {
        Polygon { vertices }
    }

    /// Generate a random `n`-gon whose vertices are uniform in
    /// `[x_low, x_high)` by `[y_low, y_high)`.
    ///
    /// Each new vertex is inserted at a position where the two new edges
    /// collide with no existing edge, chosen at random among such positions,
    /// and the cycle is re-oriented counter-clockwise whenever an insertion
    /// flips it. Returns `None` when ten consecutive draws fail to produce a
    /// fresh vertex — which happens only when the ranges hold too few
    /// distinct points — or when no counter-clockwise order can be
    /// re-established.
    pub fn random(
        rng: &mut crate::rng::FartThreadRng,
        x_low: i64,
        x_high: i64,
        y_low: i64,
        y_high: i64,
        n: usize,
    ) -> (r: Option<Polygon>)
        requires
            n >= 3,
            range_ok(x_low, x_high),
            range_ok(y_low, y_high),
        ensures
            match r {
                Some(p) => {
                    &&& p.wf()
                    &&& p@.len() == n
                    &&& forall|k: int|
                        0 <= k < p@.len() ==> in_ranges(
                            #[trigger] p@[k],
                            x_low,
                            x_high,
                            y_low,
                            y_high,
                        )
                },
                None => true,
            },
    {
        let mut vertices: Vec<Point2> = Vec::new();
        let mut k: usize = 0;
        while k < 3
            invariant
                range_ok(x_low, x_high),
                range_ok(y_low, y_high),
                k <= 3,
                vertices@.len() == k,
                seq_in_bounds(vertices@),
                forall|j: int|
                    0 <= j < vertices@.len() ==> in_ranges(
                        #[trigger] vertices@[j],
                        x_low,
                        x_high,
                        y_low,
                        y_high,
                    ),
            decreases 3 - k,
        {
            match draw_fresh(rng, &vertices, x_low, x_high, y_low, y_high) {
                Some(p) => {
                    vertices.push(p);
                },
                None => {
                    return None;
                },
            }
            k = k + 1;
        }

        // Ensure that the vertices are in counter-clockwise order.
        if !is_counter_clockwise(&vertices) {
            let rev = reversed(&vertices);
            proof {
                assert forall|j: int|
                    0 <= j < rev@.len() implies (#[trigger] rev@[j]).in_bounds() && in_ranges(
                    rev@[j],
                    x_low,
                    x_high,
                    y_low,
                    y_high,
                ) by {
                    assert(rev@[j] == vertices@[vertices@.len() - 1 - j]);
                }
            }
            vertices = rev;
            if !is_counter_clockwise(&vertices) {
                return None;
            }
        }

        while vertices.len() < n
            invariant
                range_ok(x_low, x_high),
                range_ok(y_low, y_high),
                3 <= vertices@.len() <= n,
                seq_in_bounds(vertices@),
                is_ccw(vertices@),
                forall|j: int|
                    0 <= j < vertices@.len() ==> in_ranges(
                        #[trigger] vertices@[j],
                        x_low,
                        x_high,
                        y_low,
                        y_high,
                    ),
            decreases n - vertices@.len(),
        {
            let v = match draw_fresh(rng, &vertices, x_low, x_high, y_low, y_high) {
                Some(v) => v,
                None => {
                    return None;
                },
            };
            let len = vertices.len();

            // Collect the insertion positions whose two new edges collide
            // with no existing edge.
            let mut candidates: Vec<usize> = Vec::new();
            let mut i: usize = 0;
            while i < len
                invariant
                    seq_in_bounds(vertices@),
                    v.in_bounds(),
                    len == vertices@.len(),
                    1 <= len,
                    0 <= i <= len,
                    forall|c: int| 0 <= c < candidates@.len() ==> (#[trigger] candidates@[c]) < len,
                decreases len - i,
            {
                let prev = if i == 0 {
                    len - 1
                } else {
                    i - 1
                };
                let l = line(vertices[prev], v);
                let m = line(v, vertices[i]);
                if !any_edges_collide_with(&vertices, l, m) {
                    candidates.push(i);
                }
                i = i + 1;
            }

            // Choose one of the candidates for insertion. If there are none,
            // then the vertices are all collinear, and we can insert our new
            // vertex anywhere.
            let pos = if candidates.len() > 0 {
                candidates[rng.gen_index(candidates.len())]
            } else {
                len
            };
            let ghost before = vertices@;
            vertices.insert(pos, v);
            proof {
                before.insert_ensures(pos as int, v);
                assert forall|j: int|
                    0 <= j < vertices@.len() implies (#[trigger] vertices@[j]).in_bounds()
                    && in_ranges(vertices@[j], x_low, x_high, y_low, y_high) by {
                    if j < pos {
                        assert(vertices@[j] == before[j]);
                    } else if j == pos {
                        assert(vertices@[j] == v);
                    } else {
                        assert(vertices@[j] == before[j - 1]);
                    }
                }
            }
            if !is_counter_clockwise(&vertices) {
                let rev = reversed(&vertices);
                proof {
                    assert forall|j: int|
                        0 <= j < rev@.len() implies (#[trigger] rev@[j]).in_bounds() && in_ranges(
                        rev@[j],
                        x_low,
                        x_high,
                        y_low,
                        y_high,
                    ) by {
                        assert(rev@[j] == vertices@[vertices@.len() - 1 - j]);
                    }
                }
                vertices = rev;
                if !is_counter_clockwise(&vertices) {
                    return None;
                }
            }
        }

        Some(Polygon::new(vertices))
    }

    /// Get this polygon's vertices.
    pub fn vertices(&self) -> (r: &Vec<Point2>)
        ensures
            r@ == self@,
    {
        &self.vertices
    }

    /// Get the `i`th point in this polygon.
    pub fn get(&self, i: usize) -> (r: Option<Point2>)
        ensures
            r == if i < self@.len() {
                Some(self@[i as int])
            } else {
                None::<Point2>
            },
    {
        if i < self.vertices.len() {
            Some(self.vertices[i])
        } else {
            None
        }
    }

    /// Get the number of vertices in this polygon.
    pub fn len(&self) -> (r: usize)
        ensures
            r == self@.len(),
    {
        self.vertices.len()
    }

    /// Get the index of the next vertex after `i` in this polygon. Handles
    /// wrapping around back to index `0` for you.
    #[inline]
    pub fn next(&self, i: usize) -> (r: usize)
        requires
            i < self@.len(),
        ensures
            r == next_spec(self@.len() as int, i as int),
            r < self@.len(),
    {
        let n = self.vertices.len();
        if i + 1 == n {
            0
        } else {
            i + 1
        }
    }

    /// Get the index of the previous vertex before `i` in this polygon.
    /// Handles wrapping around back to index `n - 1` for you.
    #[inline]
    pub fn prev(&self, i: usize) -> (r: usize)
        requires
            i < self@.len(),
        ensures
            r == prev_spec(self@.len() as int, i as int),
            r < self@.len(),
    {
        if i == 0 {
            self.vertices.len() - 1
        } else {
            i - 1
        }
    }

    /// Get the doubled signed area of this polygon, by fan triangulation from
    /// vertex `0`.
    fn signed_double_area(&self) -> (r: i128)
        requires
            seq_in_bounds(self@),
            self@.len() >= 3,
        ensures
            r == signed_double_area_spec(self@),
            -8_000_000_000_000_000_000 * (self@.len() as int) <= r
                <= 8_000_000_000_000_000_000 * (self@.len() as int),
    {
        let ghost s = self@;
        let n = self.vertices.len();
        let mut sum: i128 = 0;
        let mut i: usize = 1;
        while i < n - 1
            invariant
                seq_in_bounds(s),
                self@ == s,
                n == s.len(),
                3 <= n,
                1 <= i <= n - 1,
                sum == fan_sum(s, i as int),
                -8_000_000_000_000_000_000 * (i as int) <= sum <= 8_000_000_000_000_000_000 * (
                i as int),
            decreases n - 1 - i,
        {
            let t = crate::line::area2(self.vertices[0], self.vertices[i], self.vertices[i + 1]);
            sum = sum + t as i128;
            i = i + 1;
        }
        sum
    }

    /// Get the area of this polygon: the absolute value of half the doubled
    /// signed area, rounded towards zero.
    pub fn area(&self) -> (r: i128)
        requires
            self.wf(),
        ensures
            r == abs_val(signed_double_area_spec(self@)) / 2,
    {
        let n = self.vertices.len();
        proof {
            assert(self@.len() == n as int);
        }
        let sda = self.signed_double_area();
        let a = if sda < 0 {
            -sda
        } else {
            sda
        };
        a / 2
    }

    /// Do the `a`th and `b`th vertices within this polygon form a diagonal?
    ///
    /// If `a` and `b` are diagonal, then there is a direct line of sight
    /// between them, and they are internal to this polygon.
    pub fn is_diagonal(&self, a: usize, b: usize) -> (r: bool)
        requires
            seq_in_bounds(self@),
            a < self@.len(),
            b < self@.len(),
        ensures
            r == is_diagonal_spec(self@, a as int, b as int),
    {
        diagonal_on(&self.vertices, a, b)
    }

    /// Is `b` within the cone from `prev(a)` to `a` to `next(a)`?
    pub fn in_cone(&self, a: usize, b: usize) -> (r: bool)
        requires
            seq_in_bounds(self@),
            a < self@.len(),
            b < self@.len(),
        ensures
            r == in_cone_spec(self@, a as int, b as int),
    {
        in_cone_on(&self.vertices, a, b)
    }

    /// Triangulate this polygon by ear cutting, consuming it.
    ///
    /// Returns one triangle per cut ear, `self.len() - 2` in all. Exactly
    /// collinear vertex runs are cut away first, as degenerate triangles, as
    /// they trouble ear detection. Among the remaining ears, the one with the
    /// highest index is always cut next: a deterministic tie-break.
    ///
    /// Returns `None` when no ear can be found while more than three vertices
    /// remain, which means the polygon is not simple (its boundary crosses
    /// itself); ear cutting presupposes a simple polygon.
    ///
    /// On success, every corner of every returned triangle is a vertex of the
    /// polygon, every vertex of the polygon is a corner of some returned
    /// triangle, and the signed doubled areas of the returned triangles sum
    /// exactly to the polygon's signed doubled area.
    pub fn triangulate(self) -> (r: Option<Vec<Triangle>>)
        requires
            self.wf(),
        ensures
            match r {
                Some(ts) => {
                    &&& ts@.len() + 2 == self@.len()
                    &&& tris_from(self@, ts@)
                    &&& tris_cover(self@, ts@)
                    &&& tri_area_sum(ts@) == signed_double_area_spec(self@)
                },
                None => true,
            },
            self@.len() == 3 ==> r is Some,
            r is None ==> self@.len() > 3,
    {
        let ghost orig = self@;
        let Polygon { vertices: mut vs } = self;
        let mut ts: Vec<Triangle> = Vec::new();
        proof {
            assert forall|j: int| 0 <= j < orig.len() implies orig.contains(#[trigger] orig[j]) by {
                assert(orig[j] == orig[j]);
            }
            assert(tri_step_inv(orig, vs@, ts@));
        }

        // First, process all collinear vertices, since they cause problems
        // with the ear-cutting algorithm below.
        let mut i: usize = vs.len();
        while i > 0 && vs.len() > 3
            invariant
                tri_step_inv(orig, vs@, ts@),
                i <= vs@.len(),
            decreases i,
        {
            i = i - 1;
            let n = vs.len();
            let ip = if i == 0 {
                n - 1
            } else {
                i - 1
            };
            let ix = if i + 1 == n {
                0
            } else {
                i + 1
            };
            if line(vs[ip], vs[i]).is_collinear(vs[ix]) {
                let t = Triangle { a: vs[ip], b: vs[i], c: vs[ix] };
                let ghost vs0 = vs@;
                let ghost ts0 = ts@;
                ts.push(t);
                vs.remove(i);
                proof {
                    lemma_tri_step(orig, vs0, ts0, i as int, t);
                }
            }
        }

        // `ears[i] == true` if `i` is the tip of an ear.
        let mut ears: Vec<bool> = Vec::new();
        let mut k: usize = 0;
        while k < vs.len()
            invariant
                tri_step_inv(orig, vs@, ts@),
                ears@.len() == k,
                k <= vs@.len(),
            decreases vs@.len() - k,
        {
            let n = vs.len();
            let kp = if k == 0 {
                n - 1
            } else {
                k - 1
            };
            let kn = if k + 1 == n {
                0
            } else {
                k + 1
            };
            let e = diagonal_on(&vs, kp, kn);
            ears.push(e);
            k = k + 1;
        }

        // While we haven't reached the base case....
        while vs.len() > 3
            invariant
                tri_step_inv(orig, vs@, ts@),
                ears@.len() == vs@.len(),
                orig == self@,
            decreases vs@.len(),
        {
            // Search for the ear with the highest index.
            let mut j: usize = ears.len();
            let mut ear: usize = 0;
            let mut found = false;
            while j > 0 && !found
                invariant
                    j <= ears@.len(),
                    found ==> ear < ears@.len(),
                    ts@.len() + vs@.len() == orig.len(),
                    3 < vs@.len(),
                decreases j,
            {
                j = j - 1;
                if ears[j] {
                    ear = j;
                    found = true;
                }
            }
            // If there are no ears, then this is not a simple polygon.
            if !found {
                return None;
            }
            let i = ear;
            let n = vs.len();
            let prev = if i == 0 {
                n - 1
            } else {
                i - 1
            };
            let prev_prev = if prev == 0 {
                n - 1
            } else {
                prev - 1
            };
            let next = if i + 1 == n {
                0
            } else {
                i + 1
            };
            let next_next = if next + 1 == n {
                0
            } else {
                next + 1
            };

            // Report the ear's triangle.
            let t = Triangle { a: vs[prev], b: vs[i], c: vs[next] };

            // Update the earity of the diagonal's end points.
            let e1 = diagonal_on(&vs, prev_prev, next);
            let e2 = diagonal_on(&vs, prev, next_next);
            ears[prev] = e1;
            ears[next] = e2;

            let ghost vs0 = vs@;
            let ghost ts0 = ts@;
            ts.push(t);
            ears.remove(i);
            vs.remove(i);
            proof {
                lemma_tri_step(orig, vs0, ts0, i as int, t);
            }
        }

        let t = Triangle { a: vs[0], b: vs[1], c: vs[2] };
        let ghost ts0 = ts@;
        ts.push(t);
        proof {
            lemma_tri_area_sum_push(ts0, t);
            lemma_shoelace_triangle(vs@[0], vs@[1], vs@[2]);
            assert(seq![vs@[0], vs@[1], vs@[2]] =~= vs@);
            lemma_fan_shoelace(orig);
            assert forall|p: Point2| #[trigger] orig.contains(p) implies covered(ts@, p) by {
                if vs@.contains(p) {
                    let j = choose|j: int| 0 <= j < vs@.len() && vs@[j] == p;
                    assert(tri_has_vertex(t, p));
                    assert(ts@[ts0.len() as int] == t);
                } else {
                    let k = choose|k: int| 0 <= k < ts0.len() && tri_has_vertex(ts0[k], p);
                    assert(tri_has_vertex(ts@[k], p));
                }
            }
            assert forall|k: int|
                0 <= k < ts@.len() implies orig.contains(#[trigger] ts@[k].a) && orig.contains(
                ts@[k].b,
            ) && orig.contains(ts@[k].c) by {
                if k < ts0.len() {
                    assert(ts@[k] == ts0[k]);
                } else {
                    assert(ts@[k] == t);
                    assert(orig.contains(vs@[0]) && orig.contains(vs@[1]) && orig.contains(vs@[2]));
                }
            }
        }
        Some(ts)
    }

    /// Get the `idx`th edge: the line from vertex `idx` to the vertex after
    /// it.
    pub fn edge(&self, idx: usize) -> (r: Line)
        requires
            idx < self@.len(),
        ensures
            r == (Line {
                a: self@[idx as int],
                b: self@[next_spec(self@.len() as int, idx as int)],
            }),
    {
        let a = self.vertices[idx];
        let b = self.vertices[self.next(idx)];
        line(a, b)
    }

    /// This polygon's edge lines: vertex `i` paired with vertex `i + 1`,
    /// wrapping around at the end.
    pub fn edges(&self) -> (r: Vec<Line>)
        ensures
            r@.len() == self@.len(),
            forall|i: int|
                0 <= i < self@.len() ==> r@[i] == (Line {
                    a: self@[i],
                    b: self@[next_spec(self@.len() as int, i)],
                }),
    {
        let n = self.vertices.len();
        let mut r: Vec<Line> = Vec::new();
        let mut i: usize = 0;
        while i < n
            invariant
                n == self@.len(),
                0 <= i <= n,
                r@.len() == i,
                forall|k: int|
                    0 <= k < i ==> r@[k] == (Line {
                        a: self@[k],
                        b: self@[next_spec(self@.len() as int, k)],
                    }),
            decreases n - i,
        {
            let e = self.edge(i);
            r.push(e);
            i = i + 1;
        }
        r
    }
}

} // verus!
