//! Convex polygons, constructed by convex-hull computation.

use crate::line::{line, spec_area2, Line};
use crate::point::{lex_le, seq_in_bounds, Point2};
use crate::polygon::{
    around_gt_spec, is_counter_clockwise, lemma_area2_self, lemma_area2_swap,
    lemma_pivot_sorts_last, lemma_sorted_pair_left, next_spec, sort_around, Polygon,
};
use vstd::multiset::Multiset;
use vstd::prelude::*;

verus! {

/// The triple of `s` starting at `k` turns strictly left.
pub open spec fn turns_left(s: Seq<Point2>, k: int) -> bool {
    (Line { a: s[k], b: s[k + 1] }).is_left_spec(s[k + 2])
}

/// Every consecutive (non-wrapping) vertex triple of `s` turns strictly
/// left.
pub open spec fn left_chain(s: Seq<Point2>) -> bool {
    forall|k: int| 0 <= k && k + 2 < s.len() ==> #[trigger] turns_left(s, k)
}

/// The edge of the cycle `s` from vertex `i` to the vertex after it.
pub open spec fn edge_line(s: Seq<Point2>, i: int) -> Line {
    Line { a: s[i], b: s[next_spec(s.len() as int, i)] }
}

/// `p` lies strictly left of every edge of the vertex cycle `s`.
pub open spec fn contains_point_spec(s: Seq<Point2>, p: Point2) -> bool {
    forall|i: int| 0 <= i < s.len() ==> (#[trigger] edge_line(s, i)).is_left_spec(p)
}

/// `p` lies left of, or exactly on the line of, every edge of the vertex
/// cycle `s`.
pub open spec fn improperly_contains_point_spec(s: Seq<Point2>, p: Point2) -> bool {
    forall|i: int|
        0 <= i < s.len() ==> (#[trigger] edge_line(s, i)).is_left_spec(p) || edge_line(
            s,
            i,
        ).is_collinear_spec(p)
}

/// Exactly three pairwise distinct vertices that do not lie on one line: the
/// smallest vertex sets with a non-degenerate hull.
pub open spec fn three_noncollinear(s: Seq<Point2>) -> bool {
    &&& s.len() == 3
    &&& s[0] != s[1] && s[0] != s[2] && s[1] != s[2]
    &&& spec_area2(s[0], s[1], s[2]) != 0
}

/// A value held at two positions of `s` is held at two positions of any
/// sequence with the same contents.
proof fn lemma_dup_transfers(s: Seq<Point2>, t: Seq<Point2>, i: int, j: int)
    requires
        s.to_multiset() == t.to_multiset(),
        0 <= i < s.len(),
        0 <= j < s.len(),
        i != j,
        s[i] == s[j],
    ensures
        exists|a: int, b: int|
            0 <= a < t.len() && 0 <= b < t.len() && a != b && t[a] == s[i] && t[b] == s[i],
{
    broadcast use vstd::seq_lib::group_to_multiset_ensures;
    broadcast use vstd::multiset::group_multiset_axioms;

    let x = s[i];
    s.remove_ensures(i);
    let j2 = if j < i {
        j
    } else {
        j - 1
    };
    assert(s.remove(i)[j2] == x);
    assert(s.remove(i).contains(x));
    assert(s.remove(i).to_multiset() =~= s.to_multiset().remove(x));
    assert(Multiset::singleton(x).count(x) == 1);
    assert(s.to_multiset().remove(x).count(x) >= 1);
    assert(s.to_multiset().remove(x) == s.to_multiset().sub(Multiset::singleton(x)));
    assert(s.to_multiset().count(x) >= 2);
    assert(t.to_multiset().count(x) >= 2);
    assert(t.contains(x));
    let a = choose|a: int| 0 <= a < t.len() && t[a] == x;
    t.remove_ensures(a);
    assert(t.remove(a).to_multiset() =~= t.to_multiset().remove(x));
    assert(t.to_multiset().remove(x) == t.to_multiset().sub(Multiset::singleton(x)));
    assert(t.remove(a).to_multiset().count(x) >= 1);
    assert(t.remove(a).contains(x));
    let b2 = choose|b: int| 0 <= b < t.remove(a).len() && t.remove(a)[b] == x;
    let b = if b2 < a {
        b2
    } else {
        b2 + 1
    };
    assert(t[b] == x);
    assert(0 <= a < t.len() && 0 <= b < t.len() && a != b && t[a] == x && t[b] == x);
}

/// Three distinct points that do not lie on one line, sorted around their
/// lexicographic maximum, put the maximum last and make a strict left turn
/// at it.
proof fn lemma_three_points_sorted(orig: Seq<Point2>, s: Seq<Point2>, max: Point2)
    requires
        three_noncollinear(orig),
        s.to_multiset() == orig.to_multiset(),
        s.len() == orig.len(),
        crate::polygon::sorted_around(max, s),
        orig.contains(max),
        forall|k: int| 0 <= k < orig.len() ==> lex_le(#[trigger] orig[k], max),
    ensures
        s[2] == max,
        forall|k: int| 0 <= k && k + 1 < s.len() ==> (#[trigger] s[k]) != s[k + 1],
        spec_area2(max, s[0], s[1]) > 0,
{
    broadcast use vstd::seq_lib::group_to_multiset_ensures;

    assert(s.len() == 3);
    // The sorted points hold the given values, pairwise distinct.
    assert forall|i2: int, j2: int|
        0 <= i2 < 3 && 0 <= j2 < 3 && i2 != j2 implies (#[trigger] s[i2]) != (#[trigger] s[j2]) by {
        if s[i2] == s[j2] {
            lemma_dup_transfers(s, orig, i2, j2);
            let (a, b): (int, int) = choose|a: int, b: int|
                0 <= a < orig.len() && 0 <= b < orig.len() && a != b && orig[a] == s[i2] && orig[b]
                    == s[i2];
            assert(false);
        }
    }
    // Every sorted point sits lexicographically at or below the pivot.
    assert forall|i2: int| 0 <= i2 < 3 implies lex_le(#[trigger] s[i2], max) by {
        assert(s.to_multiset().count(s[i2]) > 0) by {
            assert(s.contains(s[i2]));
        }
        assert(orig.to_multiset().count(s[i2]) > 0);
        assert(orig.contains(s[i2]));
        let k = choose|k: int| 0 <= k < orig.len() && orig[k] == s[i2];
        assert(lex_le(orig[k], max));
    }
    // The pivot sorts last.
    assert(s.contains(max)) by {
        assert(orig.to_multiset().count(max) > 0) by {
            assert(orig.contains(max));
        }
        assert(s.to_multiset().count(max) > 0);
    }
    let im = choose|im: int| 0 <= im < s.len() && s[im] == max;
    assert(!around_gt_spec(max, s[0], s[1]));
    assert(!around_gt_spec(max, s[1], s[2]));
    if im == 0 {
        lemma_pivot_sorts_last(max, s[1]);
        assert(false);
    }
    if im == 1 {
        lemma_pivot_sorts_last(max, s[2]);
        assert(false);
    }
    assert(s[2] == max);
    // The first two sorted points are not on one line with the pivot,
    // whichever order the input listed the three points in.
    assert(orig.contains(s[0])) by {
        assert(s.contains(s[0]));
        assert(s.to_multiset().count(s[0]) > 0);
        assert(orig.to_multiset().count(s[0]) > 0);
    }
    assert(orig.contains(s[1])) by {
        assert(s.contains(s[1]));
        assert(s.to_multiset().count(s[1]) > 0);
        assert(orig.to_multiset().count(s[1]) > 0);
    }
    let ia = choose|a: int| 0 <= a < orig.len() && orig[a] == max;
    let ib = choose|a: int| 0 <= a < orig.len() && orig[a] == s[0];
    let ic = choose|a: int| 0 <= a < orig.len() && orig[a] == s[1];
    assert(ia != ib && ia != ic && ib != ic);
    crate::polygon::lemma_area2_cyclic(orig[0], orig[1], orig[2]);
    crate::polygon::lemma_area2_cyclic(orig[1], orig[2], orig[0]);
    lemma_area2_swap(orig[0], orig[1], orig[2]);
    lemma_area2_swap(orig[1], orig[2], orig[0]);
    lemma_area2_swap(orig[2], orig[0], orig[1]);
    assert(0 <= ia < 3 && 0 <= ib < 3 && 0 <= ic < 3);
    assert(spec_area2(max, s[0], s[1]) != 0);
    lemma_sorted_pair_left(max, s[0], s[1]);
}

/// Every cyclic consecutive vertex triple of `s` turns strictly left,
/// wrapping triples included: the cycle is convex.
pub open spec fn cyclic_left_chain(s: Seq<Point2>) -> bool {
    forall|k: int|
        0 <= k < s.len() ==> (#[trigger] edge_line(s, k)).is_left_spec(
            s[next_spec(s.len() as int, next_spec(s.len() as int, k))],
        )
}

/// Does every cyclic consecutive vertex triple of `vs` turn strictly left?
fn cyclic_left_chain_check(vs: &Vec<Point2>) -> (r: bool)
    requires
        seq_in_bounds(vs@),
        vs@.len() >= 1,
    ensures
        r == cyclic_left_chain(vs@),
{
    let n = vs.len();
    let mut k: usize = 0;
    while k < n
        invariant
            seq_in_bounds(vs@),
            n == vs@.len(),
            1 <= n,
            0 <= k <= n,
            forall|j: int|
                0 <= j < k ==> (#[trigger] edge_line(vs@, j)).is_left_spec(
                    vs@[next_spec(vs@.len() as int, next_spec(vs@.len() as int, j))],
                ),
        decreases n - k,
    {
        let k1 = if k + 1 == n {
            0
        } else {
            k + 1
        };
        let k2 = if k1 + 1 == n {
            0
        } else {
            k1 + 1
        };
        if !line(vs[k], vs[k1]).is_left(vs[k2]) {
            proof {
                assert(edge_line(vs@, k as int) == (Line { a: vs@[k as int], b: vs@[k1 as int] }));
            }
            return false;
        }
        proof {
            assert(edge_line(vs@, k as int) == (Line { a: vs@[k as int], b: vs@[k1 as int] }));
        }
        k = k + 1;
    }
    true
}

/// Does the cycle `vs` improperly contain the point `p`?
fn improperly_contains_on(vs: &Vec<Point2>, p: Point2) -> (r: bool)
    requires
        seq_in_bounds(vs@),
        p.in_bounds(),
    ensures
        r == improperly_contains_point_spec(vs@, p),
{
    let n = vs.len();
    let mut i: usize = 0;
    while i < n
        invariant
            seq_in_bounds(vs@),
            p.in_bounds(),
            n == vs@.len(),
            0 <= i <= n,
            forall|k: int|
                0 <= k < i ==> (#[trigger] edge_line(vs@, k)).is_left_spec(p) || edge_line(
                    vs@,
                    k,
                ).is_collinear_spec(p),
        decreases n - i,
    {
        let j = if i + 1 == n {
            0
        } else {
            i + 1
        };
        if !line(vs[i], vs[j]).is_left_or_collinear(p) {
            proof {
                assert(edge_line(vs@, i as int) == (Line { a: vs@[i as int], b: vs@[j as int] }));
            }
            return false;
        }
        proof {
            assert(edge_line(vs@, i as int) == (Line { a: vs@[i as int], b: vs@[j as int] }));
        }
        i = i + 1;
    }
    true
}

/// Does the cycle `hull_vs` improperly contain every point of `points`?
fn all_improperly_contained(hull_vs: &Vec<Point2>, points: &Vec<Point2>) -> (r: bool)
    requires
        seq_in_bounds(hull_vs@),
        seq_in_bounds(points@),
    ensures
        r == forall|k: int|
            0 <= k < points@.len() ==> improperly_contains_point_spec(
                hull_vs@,
                #[trigger] points@[k],
            ),
{
    let n = points.len();
    let mut k: usize = 0;
    while k < n
        invariant
            seq_in_bounds(hull_vs@),
            seq_in_bounds(points@),
            n == points@.len(),
            0 <= k <= n,
            forall|j: int|
                0 <= j < k ==> improperly_contains_point_spec(hull_vs@, #[trigger] points@[j]),
        decreases n - k,
    {
        if !improperly_contains_on(hull_vs, points[k]) {
            return false;
        }
        k = k + 1;
    }
    true
}

/// Remove consecutive repeated points, keeping the first of each run.
fn dedup_consecutive(points: &Vec<Point2>) -> (r: Vec<Point2>)
    requires
        seq_in_bounds(points@),
    ensures
        r@.len() <= points@.len(),
        seq_in_bounds(r@),
        forall|k: int| 0 <= k < r@.len() ==> points@.contains(#[trigger] r@[k]),
        points@.len() == 0 ==> r@.len() == 0,
        points@.len() > 0 ==> r@.len() > 0 && r@[0] == points@[0],
        (forall|k: int| 0 <= k && k + 1 < points@.len() ==> (#[trigger] points@[k]) != points@[k + 1])
            ==> r@ == points@,
{
    let ghost distinct = forall|k: int|
        0 <= k && k + 1 < points@.len() ==> (#[trigger] points@[k]) != points@[k + 1];
    let mut r: Vec<Point2> = Vec::new();
    let mut i: usize = 0;
    while i < points.len()
        invariant
            seq_in_bounds(points@),
            distinct == (forall|k: int|
                0 <= k && k + 1 < points@.len() ==> (#[trigger] points@[k]) != points@[k + 1]),
            0 <= i <= points@.len(),
            r@.len() <= i,
            seq_in_bounds(r@),
            forall|k: int| 0 <= k < r@.len() ==> points@.contains(#[trigger] r@[k]),
            i > 0 ==> r@.len() > 0 && r@[0] == points@[0],
            distinct ==> r@ == points@.take(i as int),
        decreases points@.len() - i,
    {
        let p = points[i];
        proof {
            assert(points@.contains(p)) by {
                assert(points@[i as int] == p);
            }
        }
        let ghost r0 = r@;
        if r.len() == 0 {
            r.push(p);
        } else {
            let last = r[r.len() - 1];
            if !(last.x == p.x && last.y == p.y) {
                r.push(p);
            }
        }
        proof {
            if distinct {
                assert(r0 == points@.take(i as int));
                if r0.len() > 0 {
                    assert(r0[r0.len() - 1] == points@[i - 1]);
                    assert(points@[i - 1] != points@[i as int]);
                }
                assert(r@ =~= points@.take(i as int).push(p));
                assert(points@.take(i as int).push(p) =~= points@.take(i as int + 1));
            }
        }
        i = i + 1;
    }
    proof {
        if distinct {
            assert(points@.take(points@.len() as int) =~= points@);
        }
    }
    r
}

/// A convex polygon.
///
/// This wraps a `Polygon` that is additionally guaranteed convex. It is
/// constructed only by `hull`, and no operation exposes the inner polygon
/// mutably, so convexity cannot be broken after construction.
#[derive(Clone, Debug)]
pub struct ConvexPolygon {
    inner: Polygon,
}

impl View for ConvexPolygon {
    type V = Seq<Point2>;

    closed spec fn view(&self) -> Seq<Point2> {
        self.inner@
    }
}

impl ConvexPolygon {
    /// The wrapped polygon is well formed and convex: every cyclic
    /// consecutive vertex triple, wrapping ones included, turns strictly
    /// left.
    pub open spec fn wf(&self) -> bool {
        &&& self@.len() >= 3
        &&& seq_in_bounds(self@)
        &&& crate::polygon::is_ccw(self@)
        &&& cyclic_left_chain(self@)
    }

    /// Borrow the underlying polygon.
    pub fn as_polygon(&self) -> (r: &Polygon)
        ensures
            r@ == self@,
    {
        &self.inner
    }

    /// Unwrap the underlying polygon.
    pub fn into_polygon(self) -> (r: Polygon)
        ensures
            r@ == self@,
    {
        self.inner
    }

    /// Get this convex polygon's vertices.
    pub fn vertices(&self) -> (r: &Vec<Point2>)
        ensures
            r@ == self@,
    {
        self.inner.vertices()
    }

    /// Get the number of vertices in this convex polygon.
    pub fn len(&self) -> (r: usize)
        ensures
            r == self@.len(),
    {
        self.inner.len()
    }

    /// Get the `i`th point in this convex polygon.
    pub fn get(&self, i: usize) -> (r: Option<Point2>)
        ensures
            r == if i < self@.len() {
                Some(self@[i as int])
            } else {
                None::<Point2>
            },
    {
        self.inner.get(i)
    }

    /// Get the area of this convex polygon.
    pub fn area(&self) -> (r: i128)
        requires
            self.wf(),
        ensures
            r == crate::polygon::abs_val(crate::polygon::signed_double_area_spec(self@)) / 2,
    {
        self.inner.area()
    }

    /// Get the `idx`th edge: the line from vertex `idx` to the vertex after
    /// it.
    pub fn edge(&self, idx: usize) -> (r: Line)
        requires
            idx < self@.len(),
        ensures
            r == (Line {
                a: self@[idx as int],
                b: self@[next_spec(self@.len() as int, idx as int)],
            }),
    {
        self.inner.edge(idx)
    }

    /// This convex polygon's edge lines.
    pub fn edges(&self) -> (r: Vec<Line>)
        ensures
            r@.len() == self@.len(),
            forall|i: int|
                0 <= i < self@.len() ==> r@[i] == (Line {
                    a: self@[i],
                    b: self@[next_spec(self@.len() as int, i)],
                }),
    {
        self.inner.edges()
    }

    /// Compute the convex hull of the given vertices.
    ///
    /// If the convex hull is a polygon with non-zero area, return it.
    /// Otherwise — for empty, single-point, collinear, and duplicate-only
    /// vertex sets — return `None`.
    ///
    /// Every vertex of the hull is one of the given vertices, the hull turns
    /// strictly left at every cyclic consecutive vertex triple, and every
    /// given vertex is improperly contained by the hull (inside it or on its
    /// boundary). Three distinct vertices that do not lie on one line always
    /// have a hull.
    pub fn hull(vertices: Vec<Point2>) -> (r: Option<ConvexPolygon>)
        requires
            seq_in_bounds(vertices@),
        ensures
            match r {
                Some(h) => {
                    &&& h.wf()
                    &&& forall|k: int| 0 <= k < h@.len() ==> vertices@.contains(#[trigger] h@[k])
                    &&& forall|k: int|
                        0 <= k < vertices@.len() ==> improperly_contains_point_spec(
                            h@,
                            #[trigger] vertices@[k],
                        )
                },
                None => true,
            },
            vertices@.len() < 3 ==> r is None,
            three_noncollinear(vertices@) ==> r is Some,
    {
        if vertices.len() == 0 {
            return None;
        }
        let ghost orig = vertices@;

        // Find the point that is lexicographically maximal by (x, y); later
        // points win ties.
        let mut max = vertices[0];
        let mut i: usize = 1;
        while i < vertices.len()
            invariant
                seq_in_bounds(orig),
                vertices@ == orig,
                1 <= i <= orig.len(),
                orig.contains(max),
                max.in_bounds(),
                forall|k: int| 0 <= k < i ==> lex_le(#[trigger] orig[k], max),
            decreases orig.len() - i,
        {
            let v = vertices[i];
            if !(max.x > v.x || (max.x == v.x && max.y > v.y)) {
                max = v;
                proof {
                    assert(orig.contains(max)) by {
                        assert(orig[i as int] == max);
                    }
                }
            }
            i = i + 1;
        }

        let mut vertices = vertices;
        sort_around(max, &mut vertices);
        proof {
            broadcast use vstd::seq_lib::group_to_multiset_ensures;

            assert forall|k: int| 0 <= k < vertices@.len() implies orig.contains(
                #[trigger] vertices@[k],
            ) by {
                assert(vertices@.to_multiset().count(vertices@[k]) > 0);
                assert(orig.to_multiset().count(vertices@[k]) > 0);
            }
        }
        let vs = dedup_consecutive(&vertices);
        let ghost hyp = three_noncollinear(orig);
        proof {
            assert forall|k: int| 0 <= k < vs@.len() implies orig.contains(#[trigger] vs@[k]) by {
                let j = choose|j: int| 0 <= j < vertices@.len() && vertices@[j] == vs@[k];
                assert(orig.contains(vertices@[j]));
            }
            if hyp {
                lemma_three_points_sorted(orig, vertices@, max);
                // With distinct points the dedup pass changes nothing.
                assert(vs@ == vertices@);
            }
        }

        if vs.len() < 3 {
            return None;
        }

        let mut stack: Vec<Point2> = Vec::new();
        stack.push(max);
        stack.push(vs[0]);
        let mut i: usize = 1;
        proof {
            if hyp {
                assert(stack@ =~= seq![max, vs@[0]]);
            }
        }
        while i < vs.len() - 1
            invariant
                seq_in_bounds(orig),
                seq_in_bounds(vs@),
                3 <= vs@.len(),
                forall|k: int| 0 <= k < vs@.len() ==> orig.contains(#[trigger] vs@[k]),
                1 <= i <= vs@.len() - 1,
                2 <= stack@.len(),
                seq_in_bounds(stack@),
                forall|k: int| 0 <= k < stack@.len() ==> orig.contains(#[trigger] stack@[k]),
                left_chain(stack@),
                hyp ==> vs@.len() == 3 && vs@[2] == max && spec_area2(max, vs@[0], vs@[1]) > 0,
                hyp ==> ((i == 1 && stack@ == seq![max, vs@[0]]) || (i == 2 && stack@ == seq![
                    max,
                    vs@[0],
                    vs@[1],
                ])),
            decreases vs@.len() - 1 - i, stack@.len(),
        {
            let v = vs[i];
            let l = line(stack[stack.len() - 2], stack[stack.len() - 1]);
            if l.is_left(v) {
                // This vertex is (likely) part of the hull! Add it to our
                // stack.
                let ghost st0 = stack@;
                stack.push(v);
                proof {
                    assert(orig.contains(v)) by {
                        assert(vs@[i as int] == v);
                    }
                    assert forall|k: int|
                        0 <= k && k + 2 < stack@.len() implies #[trigger] turns_left(
                        stack@,
                        k,
                    ) by {
                        if k + 2 < st0.len() {
                            assert(stack@[k] == st0[k] && stack@[k + 1] == st0[k + 1] && stack@[k
                                + 2] == st0[k + 2]);
                            assert(turns_left(st0, k));
                        } else {
                            assert(stack@[k] == st0[st0.len() - 2] && stack@[k + 1] == st0[st0.len()
                                - 1] && stack@[k + 2] == v);
                            assert((Line { a: stack@[k], b: stack@[k + 1] }) == l);
                        }
                    }
                    if hyp {
                        assert(i == 1);
                        assert(stack@ =~= seq![max, vs@[0], vs@[1]]);
                    }
                }
                i = i + 1;
            } else if stack.len() == 2 {
                // The first two vertices in the stack are always part of the
                // hull, and therefore should never be reconsidered, so start
                // considering the next `i`th vertex.
                proof {
                    if hyp {
                        assert(stack@[0] == max && stack@[1] == vs@[0]);
                        assert(false);
                    }
                }
                i = i + 1;
            } else {
                // The top of our stack is not part of the hull, so pop it
                // from the stack to uncommit it.
                let ghost st0 = stack@;
                let _ = stack.pop();
                proof {
                    assert(stack@ =~= st0.drop_last());
                    assert forall|k: int|
                        0 <= k && k + 2 < stack@.len() implies #[trigger] turns_left(
                        stack@,
                        k,
                    ) by {
                        assert(stack@[k] == st0[k] && stack@[k + 1] == st0[k + 1] && stack@[k + 2]
                            == st0[k + 2]);
                        assert(turns_left(st0, k));
                    }
                    if hyp {
                        assert(false);
                    }
                }
            }
        }
        proof {
            if hyp {
                assert(i == 2);
                assert(stack@ == seq![max, vs@[0], vs@[1]]);
                let m = max;
                let p0 = vs@[0];
                let p1 = vs@[1];
                crate::polygon::lemma_shoelace_triangle(m, p0, p1);
                assert(seq![m, p0, p1] =~= stack@);
                assert(crate::polygon::is_ccw(stack@));
                crate::polygon::lemma_area2_cyclic(m, p0, p1);
                crate::polygon::lemma_area2_cyclic(p0, p1, m);
                lemma_area2_self(m, p0);
                lemma_area2_self(p0, p1);
                lemma_area2_self(p1, m);
                assert forall|k: int|
                    0 <= k < stack@.len() implies (#[trigger] edge_line(stack@, k)).is_left_spec(
                    stack@[next_spec(stack@.len() as int, next_spec(stack@.len() as int, k))],
                ) by {
                    if k == 0 {
                        assert(edge_line(stack@, 0) == (Line { a: m, b: p0 }));
                    } else if k == 1 {
                        assert(edge_line(stack@, 1) == (Line { a: p0, b: p1 }));
                    } else {
                        assert(edge_line(stack@, 2) == (Line { a: p1, b: m }));
                    }
                }
                assert(cyclic_left_chain(stack@));
                assert forall|k: int|
                    0 <= k < vertices@.len() implies improperly_contains_point_spec(
                    stack@,
                    #[trigger] vertices@[k],
                ) by {
                    let p = vertices@[k];
                    assert(p == p0 || p == p1 || p == m);
                    assert forall|e: int|
                        0 <= e < stack@.len() implies ((#[trigger] edge_line(
                        stack@,
                        e,
                    )).is_left_spec(p) || edge_line(stack@, e).is_collinear_spec(p)) by {
                        if e == 0 {
                            assert(edge_line(stack@, 0) == (Line { a: m, b: p0 }));
                        } else if e == 1 {
                            assert(edge_line(stack@, 1) == (Line { a: p0, b: p1 }));
                        } else {
                            assert(edge_line(stack@, 2) == (Line { a: p1, b: m }));
                        }
                    }
                }
            }
        }

        if stack.len() < 3 {
            return None;
        }
        if !is_counter_clockwise(&stack) {
            return None;
        }
        if !cyclic_left_chain_check(&stack) {
            return None;
        }
        if !all_improperly_contained(&stack, &vertices) {
            return None;
        }
        proof {
            // Containment was checked against the sorted points, which hold
            // the same values as the given vertices.
            broadcast use vstd::seq_lib::group_to_multiset_ensures;

            assert forall|k: int|
                0 <= k < orig.len() implies improperly_contains_point_spec(
                stack@,
                #[trigger] orig[k],
            ) by {
                assert(orig.contains(orig[k])) by {
                    assert(orig[k] == orig[k]);
                }
                assert(orig.to_multiset().count(orig[k]) > 0);
                assert(vertices@.to_multiset().count(orig[k]) > 0);
                assert(vertices@.contains(orig[k]));
                let j = choose|j: int| 0 <= j < vertices@.len() && vertices@[j] == orig[k];
                assert(improperly_contains_point_spec(stack@, vertices@[j]));
            }
        }
        Some(ConvexPolygon { inner: Polygon::new(stack) })
    }

    /// Does this convex polygon properly contain the given point?
    ///
    /// Points exactly on the boundary are not considered contained.
    pub fn contains_point(&self, point: Point2) -> (r: bool)
        requires
            self.wf(),
            point.in_bounds(),
        ensures
            r == contains_point_spec(self@, point),
    {
        let vs = self.inner.vertices();
        let n = vs.len();
        let mut i: usize = 0;
        while i < n
            invariant
                self.wf(),
                point.in_bounds(),
                n == self@.len(),
                vs@ == self@,
                0 <= i <= n,
                forall|k: int| 0 <= k < i ==> (#[trigger] edge_line(self@, k)).is_left_spec(point),
            decreases n - i,
        {
            let j = if i + 1 == n {
                0
            } else {
                i + 1
            };
            if !line(vs[i], vs[j]).is_left(point) {
                proof {
                    assert(edge_line(self@, i as int) == (Line {
                        a: self@[i as int],
                        b: self@[next_spec(self@.len() as int, i as int)],
                    }));
                }
                return false;
            }
            i = i + 1;
        }
        true
    }

    /// Does this convex polygon improperly contain the given point?
    ///
    /// Points exactly on the boundary are considered contained.
    pub fn improperly_contains_point(&self, point: Point2) -> (r: bool)
        requires
            self.wf(),
            point.in_bounds(),
        ensures
            r == improperly_contains_point_spec(self@, point),
    {
        let vs = self.inner.vertices();
        let n = vs.len();
        let mut i: usize = 0;
        while i < n
            invariant
                self.wf(),
                point.in_bounds(),
                n == self@.len(),
                vs@ == self@,
                0 <= i <= n,
                forall|k: int|
                    0 <= k < i ==> (#[trigger] edge_line(self@, k)).is_left_spec(point)
                        || edge_line(self@, k).is_collinear_spec(point),
            decreases n - i,
        {
            let j = if i + 1 == n {
                0
            } else {
                i + 1
            };
            if !line(vs[i], vs[j]).is_left_or_collinear(point) {
                proof {
                    assert(edge_line(self@, i as int) == (Line {
                        a: self@[i as int],
                        b: self@[next_spec(self@.len() as int, i as int)],
                    }));
                }
                return false;
            }
            i = i + 1;
        }
        true
    }
}

impl crate::aabb::ToAabb for ConvexPolygon {
    open spec fn aabb_ready(&self) -> bool {
        self@.len() >= 1 && seq_in_bounds(self@)
    }

    open spec fn is_aabb_of(&self, r: crate::aabb::Aabb) -> bool {
        crate::polygon::aabb_of_points(self@, r)
    }

    fn to_aabb(&self) -> (r: crate::aabb::Aabb) {
        crate::aabb::Aabb::for_vertices(self.inner.vertices())
    }
}

} // verus!
