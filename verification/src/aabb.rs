//! Axis-aligned bounding boxes (AABB) and AABB trees.
//!
//! Used for fast-but-imprecise collision detection of shapes in a scene. Once
//! candidates for collision are quickly found using an AABB tree, callers can
//! determine whether they precisely collide with a more expensive algorithm.

use crate::line::lemma_mul_bound;
use crate::num;
use crate::point::{seq_in_bounds, Point2};
use crate::COORD_LIMIT;
use vstd::multiset::Multiset;
use vstd::prelude::*;

verus! {

/// An axis-aligned bounding box.
#[derive(Clone, Copy, Debug, PartialEq, Eq, Hash, Structural)]
pub struct Aabb {
    min: Point2,
    max: Point2,
}

impl Aabb {
    /// The box's lower-left corner.
    pub closed spec fn spec_min(self) -> Point2 {
        self.min
    }

    /// The box's upper-right corner.
    pub closed spec fn spec_max(self) -> Point2 {
        self.max
    }

    /// The box is well formed: its corners are in bounds and ordered.
    pub open spec fn wf(self) -> bool {
        &&& self.spec_min().in_bounds()
        &&& self.spec_max().in_bounds()
        &&& self.spec_min().x <= self.spec_max().x
        &&& self.spec_min().y <= self.spec_max().y
    }

    /// The box has positive width and height.
    pub open spec fn positive_area_spec(self) -> bool {
        self.spec_min().x < self.spec_max().x && self.spec_min().y < self.spec_max().y
    }

    /// `self` contains `other`: every point of `other` is a point of `self`.
    pub open spec fn contains_spec(self, other: Aabb) -> bool {
        &&& other.spec_min().x >= self.spec_min().x
        &&& other.spec_max().x <= self.spec_max().x
        &&& other.spec_min().y >= self.spec_min().y
        &&& other.spec_max().y <= self.spec_max().y
    }

    /// `self` and `other` overlap in a region of positive area; boxes that
    /// merely touch along an edge do not intersect.
    pub open spec fn intersects_spec(self, other: Aabb) -> bool {
        &&& self.spec_max().x > other.spec_min().x
        &&& self.spec_min().x < other.spec_max().x
        &&& self.spec_max().y > other.spec_min().y
        &&& self.spec_min().y < other.spec_max().y
    }

    /// The least box containing both `self` and `other`.
    pub closed spec fn join_spec(self, other: Aabb) -> Aabb {
        Aabb {
            min: Point2 {
                x: if self.min.x < other.min.x {
                    self.min.x
                } else {
                    other.min.x
                },
                y: if self.min.y < other.min.y {
                    self.min.y
                } else {
                    other.min.y
                },
            },
            max: Point2 {
                x: if self.max.x > other.max.x {
                    self.max.x
                } else {
                    other.max.x
                },
                y: if self.max.y > other.max.y {
                    self.max.y
                } else {
                    other.max.y
                },
            },
        }
    }

    /// Construct a new axis-aligned bounding box.
    ///
    /// `min`'s `x` and `y` components must be less than or equal to `max`'s.
    #[inline]
    pub fn new(min: Point2, max: Point2) -> (r: Aabb)
        requires
            min.in_bounds(),
            max.in_bounds(),
            min.x <= max.x,
            min.y <= max.y,
        ensures
            r.spec_min() == min,
            r.spec_max() == max,
            r.wf(),
    {
        Aabb { min, max }
    }

    /// Construct a new axis-aligned bounding box that contains the given
    /// non-empty set of vertices, exactly: each side touches some vertex.
    pub fn for_vertices(vertices: &Vec<Point2>) -> (r: Aabb)
        requires
            vertices@.len() >= 1,
            seq_in_bounds(vertices@),
        ensures
            r.wf(),
            forall|k: int|
                0 <= k < vertices@.len() ==> r.spec_min().x <= (#[trigger] vertices@[k]).x
                    <= r.spec_max().x && r.spec_min().y <= vertices@[k].y <= r.spec_max().y,
            exists|k: int| 0 <= k < vertices@.len() && (#[trigger] vertices@[k]).x == r.spec_min().x,
            exists|k: int| 0 <= k < vertices@.len() && (#[trigger] vertices@[k]).y == r.spec_min().y,
            exists|k: int| 0 <= k < vertices@.len() && (#[trigger] vertices@[k]).x == r.spec_max().x,
            exists|k: int| 0 <= k < vertices@.len() && (#[trigger] vertices@[k]).y == r.spec_max().y,
    {
        let first = vertices[0];
        let mut min = first;
        let mut max = first;
        let mut i: usize = 1;
        while i < vertices.len()
            invariant
                seq_in_bounds(vertices@),
                1 <= i <= vertices@.len(),
                min.in_bounds(),
                max.in_bounds(),
                forall|k: int|
                    0 <= k < i ==> min.x <= (#[trigger] vertices@[k]).x <= max.x && min.y
                        <= vertices@[k].y <= max.y,
                exists|k: int| 0 <= k < i && (#[trigger] vertices@[k]).x == min.x,
                exists|k: int| 0 <= k < i && (#[trigger] vertices@[k]).y == min.y,
                exists|k: int| 0 <= k < i && (#[trigger] vertices@[k]).x == max.x,
                exists|k: int| 0 <= k < i && (#[trigger] vertices@[k]).y == max.y,
            decreases vertices@.len() - i,
        {
            let v = vertices[i];
            min = Point2 { x: num::min(min.x, v.x), y: num::min(min.y, v.y) };
            max = Point2 { x: num::max(max.x, v.x), y: num::max(max.y, v.y) };
            i = i + 1;
        }
        Aabb { min, max }
    }

    /// Get this AABB's min.
    #[inline]
    pub fn min(&self) -> (r: Point2)
        ensures
            r == self.spec_min(),
    {
        self.min
    }

    /// Get this AABB's max.
    #[inline]
    pub fn max(&self) -> (r: Point2)
        ensures
            r == self.spec_max(),
    {
        self.max
    }

    /// Get the width of this AABB.
    #[inline]
    pub fn width(&self) -> (r: i64)
        requires
            self.wf(),
        ensures
            r == self.spec_max().x - self.spec_min().x,
    {
        self.max.x - self.min.x
    }

    /// Get the height of this AABB.
    #[inline]
    pub fn height(&self) -> (r: i64)
        requires
            self.wf(),
        ensures
            r == self.spec_max().y - self.spec_min().y,
    {
        self.max.y - self.min.y
    }

    /// Get this AABB's area.
    #[inline]
    pub fn area(&self) -> (r: i64)
        requires
            self.wf(),
        ensures
            r == (self.spec_max().x - self.spec_min().x) * (self.spec_max().y - self.spec_min().y),
            0 <= r <= 4_000_000_000_000_000_000,
    {
        let w: i64 = self.max.x - self.min.x;
        let h: i64 = self.max.y - self.min.y;
        proof {
            lemma_mul_bound(w as int, h as int, 2 * COORD_LIMIT as int, 2 * COORD_LIMIT as int);
            assert(w * h >= 0) by (nonlinear_arith)
                requires
                    w >= 0,
                    h >= 0,
            ;
        }
        w * h
    }

    /// Return the least upper bound of `self` and `other`: the smallest box
    /// containing both.
    #[inline]
    pub fn join(&self, other: &Aabb) -> (r: Aabb)
        requires
            self.wf(),
            other.wf(),
        ensures
            r == self.join_spec(*other),
            r.wf(),
            r.spec_min().x == if self.spec_min().x < other.spec_min().x {
                self.spec_min().x
            } else {
                other.spec_min().x
            },
            r.spec_min().y == if self.spec_min().y < other.spec_min().y {
                self.spec_min().y
            } else {
                other.spec_min().y
            },
            r.spec_max().x == if self.spec_max().x > other.spec_max().x {
                self.spec_max().x
            } else {
                other.spec_max().x
            },
            r.spec_max().y == if self.spec_max().y > other.spec_max().y {
                self.spec_max().y
            } else {
                other.spec_max().y
            },
    {
        let min = Point2 {
            x: num::min(self.min.x, other.min.x),
            y: num::min(self.min.y, other.min.y),
        };
        let max = Point2 {
            x: num::max(self.max.x, other.max.x),
            y: num::max(self.max.y, other.max.y),
        };
        Aabb { min, max }
    }

    /// Does `self` contain `other`?
    pub fn contains(&self, other: &Aabb) -> (r: bool)
        ensures
            r == self.contains_spec(*other),
    {
        other.min.x >= self.min.x && other.max.x <= self.max.x && other.min.y >= self.min.y
            && other.max.y <= self.max.y
    }

    /// Does `self` intersect with `other`?
    pub fn intersects(&self, other: &Aabb) -> (r: bool)
        ensures
            r == self.intersects_spec(*other),
    {
        self.max.x > other.min.x && self.min.x < other.max.x && self.max.y > other.min.y
            && self.min.y < other.max.y
    }
}

#[derive(Debug)]
enum AabbTreeNode<V> {
    Branch(AabbTreeBranch<V>),
    Leaf(AabbTreeLeaf<V>),
}

#[derive(Debug)]
struct AabbTreeBranch<V> {
    aabb: Aabb,
    children: Box<(AabbTreeNode<V>, AabbTreeNode<V>)>,
}

#[derive(Debug)]
struct AabbTreeLeaf<V> {
    aabb: Aabb,
    value: V,
}

impl<V> AabbTreeNode<V> {
    /// The box stored at this node.
    spec fn box_of(self) -> Aabb {
        match self {
            AabbTreeNode::Leaf(l) => l.aabb,
            AabbTreeNode::Branch(b) => b.aabb,
        }
    }

    /// All box/value pairs stored at this node's leaves.
    spec fn leaves(self) -> Multiset<(Aabb, V)>
        decreases self,
    {
        match self {
            AabbTreeNode::Leaf(l) => Multiset::empty().insert((l.aabb, l.value)),
            AabbTreeNode::Branch(b) => b.children.0.leaves().add(b.children.1.leaves()),
        }
    }

    /// Every box in the subtree is well formed, and every branch's box is
    /// exactly the join of its children's boxes.
    spec fn wf(self) -> bool
        decreases self,
    {
        match self {
            AabbTreeNode::Leaf(l) => l.aabb.wf(),
            AabbTreeNode::Branch(b) => {
                &&& b.children.0.wf()
                &&& b.children.1.wf()
                &&& b.aabb == b.children.0.box_of().join_spec(b.children.1.box_of())
                &&& b.aabb.wf()
            },
        }
    }

    /// The leaf entries of this subtree whose boxes intersect `q`, in
    /// left-to-right order.
    spec fn overlapping_leaves(self, q: Aabb) -> Seq<(Aabb, V)>
        decreases self,
    {
        match self {
            AabbTreeNode::Leaf(l) => if l.aabb.intersects_spec(q) {
                seq![(l.aabb, l.value)]
            } else {
                Seq::empty()
            },
            AabbTreeNode::Branch(b) => b.children.0.overlapping_leaves(q)
                + b.children.1.overlapping_leaves(q),
        }
    }

    /// Borrow the box stored at this node.
    fn box_ref(&self) -> (r: &Aabb)
        ensures
            *r == self.box_of(),
    {
        match self {
            AabbTreeNode::Leaf(l) => &l.aabb,
            AabbTreeNode::Branch(b) => &b.aabb,
        }
    }

    /// Insert the given leaf into this subtree, descending along the
    /// heuristically cheapest path: the growth each choice would cause in
    /// summed box area decides between starting a new parent here and
    /// pushing the leaf down into a child.
    fn insert(self, leaf: AabbTreeLeaf<V>) -> (r: AabbTreeNode<V>)
        requires
            self.wf(),
            leaf.aabb.wf(),
        ensures
            r.wf(),
            r.leaves() == self.leaves().insert((leaf.aabb, leaf.value)),
            r.box_of() == self.box_of().join_spec(leaf.aabb),
        decreases self,
    {
        broadcast use vstd::multiset::group_multiset_axioms;

        match self {
            AabbTreeNode::Leaf(l) => {
                let joined = l.aabb.join(&leaf.aabb);
                let ghost old_leaves = Multiset::empty().insert((l.aabb, l.value));
                let ghost lnode = AabbTreeNode::Leaf(l);
                let ghost fnode = AabbTreeNode::Leaf(leaf);
                let r = AabbTreeNode::Branch(
                    AabbTreeBranch {
                        aabb: joined,
                        children: Box::new((AabbTreeNode::Leaf(l), AabbTreeNode::Leaf(leaf))),
                    },
                );
                proof {
                    assert(lnode.wf());
                    assert(fnode.wf());
                    assert(r.leaves() == lnode.leaves().add(fnode.leaves()));
                    assert(lnode.leaves() == old_leaves);
                    assert(r.leaves() =~= old_leaves.insert((leaf.aabb, leaf.value)));
                    assert(r.wf());
                }
                r
            },
            AabbTreeNode::Branch(branch) => {
                let AabbTreeBranch { aabb: branch_aabb, children } = branch;
                let (child0, child1) = *children;
                proof {
                    assert(self.leaves() == child0.leaves().add(child1.leaves()));
                    assert(self.box_of() == branch_aabb);
                    assert(child0.wf() && child1.wf());
                }
                let ghost fnode = AabbTreeNode::Leaf(
                    AabbTreeLeaf { aabb: leaf.aabb, value: leaf.value },
                );
                let combined_aabb = branch_aabb.join(&leaf.aabb);
                let new_parent_cost: i128 = 2 * (combined_aabb.area() as i128);
                let min_push_down_cost: i128 = 2 * ((combined_aabb.area() as i128) - (
                branch_aabb.area() as i128));

                let left_cost = child_cost(&child0, &leaf.aabb, min_push_down_cost);
                let right_cost = child_cost(&child1, &leaf.aabb, min_push_down_cost);

                if new_parent_cost < left_cost && new_parent_cost < right_cost {
                    let ghost leaf_leaves = Multiset::<(Aabb, V)>::empty().insert(
                        (leaf.aabb, leaf.value),
                    );
                    let old_branch = AabbTreeNode::Branch(
                        AabbTreeBranch { aabb: branch_aabb, children: Box::new((child0, child1)) },
                    );
                    let r = AabbTreeNode::Branch(
                        AabbTreeBranch {
                            aabb: combined_aabb,
                            children: Box::new((AabbTreeNode::Leaf(leaf), old_branch)),
                        },
                    );
                    proof {
                        lemma_join_commutative(leaf.aabb, branch_aabb);
                        assert(old_branch.leaves() == child0.leaves().add(child1.leaves()));
                        assert(old_branch.wf());
                        assert(old_branch.box_of() == branch_aabb);
                        assert(r.leaves() == fnode.leaves().add(old_branch.leaves()));
                        assert(fnode.leaves() == leaf_leaves);
                        assert(r.leaves() =~= (child0.leaves().add(child1.leaves())).insert(
                            (leaf.aabb, leaf.value),
                        ));
                        assert(r.box_of() == combined_aabb);
                        assert(fnode.wf());
                        assert(fnode.box_of() == leaf.aabb);
                        assert(combined_aabb == fnode.box_of().join_spec(old_branch.box_of()));
                        assert(r.wf());
                    }
                    r
                } else if left_cost <= right_cost {
                    let new_child0 = child0.insert(leaf);
                    let r = AabbTreeNode::Branch(
                        AabbTreeBranch {
                            aabb: combined_aabb,
                            children: Box::new((new_child0, child1)),
                        },
                    );
                    proof {
                        assert(combined_aabb == child0.box_of().join_spec(leaf.aabb).join_spec(
                            child1.box_of(),
                        )) by {
                            lemma_join_rotate(child0.box_of(), child1.box_of(), leaf.aabb);
                        }
                        assert(r.leaves() == new_child0.leaves().add(child1.leaves()));
                        assert(r.leaves() =~= (child0.leaves().add(child1.leaves())).insert(
                            (leaf.aabb, leaf.value),
                        ));
                        assert(r.wf());
                    }
                    r
                } else {
                    let new_child1 = child1.insert(leaf);
                    let r = AabbTreeNode::Branch(
                        AabbTreeBranch {
                            aabb: combined_aabb,
                            children: Box::new((child0, new_child1)),
                        },
                    );
                    proof {
                        assert(combined_aabb == child0.box_of().join_spec(
                            child1.box_of().join_spec(leaf.aabb),
                        )) by {
                            lemma_join_associative(child0.box_of(), child1.box_of(), leaf.aabb);
                        }
                        assert(r.leaves() == child0.leaves().add(new_child1.leaves()));
                        assert(r.leaves() =~= (child0.leaves().add(child1.leaves())).insert(
                            (leaf.aabb, leaf.value),
                        ));
                        assert(r.wf());
                    }
                    r
                }
            },
        }
    }

    /// Append to `out` every leaf entry of this subtree whose box intersects
    /// `q`, pruning subtrees whose boxes miss `q`.
    fn query(&self, q: &Aabb, out: &mut Vec<(Aabb, V)>) where V: Copy
        requires
            self.wf(),
        ensures
            final(out)@ == old(out)@ + self.overlapping_leaves(*q),
        decreases *self,
    {
        match self {
            AabbTreeNode::Leaf(l) => {
                if l.aabb.intersects(q) {
                    out.push((l.aabb, l.value));
                    proof {
                        assert(out@ =~= old(out)@ + self.overlapping_leaves(*q));
                    }
                } else {
                    proof {
                        assert(out@ =~= old(out)@ + self.overlapping_leaves(*q));
                    }
                }
            },
            AabbTreeNode::Branch(b) => {
                let ghost out0 = out@;
                let child0 = &b.children.0;
                let child1 = &b.children.1;
                if child0.box_ref().intersects(q) {
                    child0.query(q, out);
                } else {
                    proof {
                        lemma_no_overlap_empty(b.children.0, *q);
                    }
                }
                if child1.box_ref().intersects(q) {
                    child1.query(q, out);
                } else {
                    proof {
                        lemma_no_overlap_empty(b.children.1, *q);
                    }
                }
                proof {
                    assert(out@ =~= out0 + self.overlapping_leaves(*q));
                }
            },
        }
    }

    /// Does any leaf box of this subtree intersect `q`?
    fn any_overlap_node(&self, q: &Aabb) -> (r: bool)
        requires
            self.wf(),
        ensures
            r == (self.overlapping_leaves(*q).len() != 0),
        decreases *self,
    {
        match self {
            AabbTreeNode::Leaf(l) => l.aabb.intersects(q),
            AabbTreeNode::Branch(b) => {
                let child0 = &b.children.0;
                let child1 = &b.children.1;
                let r0 = if child0.box_ref().intersects(q) {
                    child0.any_overlap_node(q)
                } else {
                    proof {
                        lemma_no_overlap_empty(b.children.0, *q);
                    }
                    false
                };
                if r0 {
                    return true;
                }
                if child1.box_ref().intersects(q) {
                    child1.any_overlap_node(q)
                } else {
                    proof {
                        lemma_no_overlap_empty(b.children.1, *q);
                    }
                    false
                }
            },
        }
    }
}

/// The cost of pushing a new leaf with box `leaf_aabb` down into `child`:
/// the area the child's box would grow to (for a leaf child) or grow by (for
/// a branch child), plus the shared push-down cost.
fn child_cost<V>(child: &AabbTreeNode<V>, leaf_aabb: &Aabb, min_push_down_cost: i128) -> i128
    requires
        child.wf(),
        leaf_aabb.wf(),
        -100_000_000_000_000_000_000 <= min_push_down_cost <= 100_000_000_000_000_000_000,
{
    match child {
        AabbTreeNode::Leaf(l) => (l.aabb.join(leaf_aabb).area() as i128) + min_push_down_cost,
        AabbTreeNode::Branch(b) => (b.aabb.join(leaf_aabb).area() as i128) - (b.aabb.area() as i128)
            + min_push_down_cost,
    }
}

/// Rearranging a join of three boxes: joining `c` into an existing join of
/// `a` and `b` is the same as joining it into `a` first.
proof fn lemma_join_rotate(a: Aabb, b: Aabb, c: Aabb)
    ensures
        a.join_spec(b).join_spec(c) == a.join_spec(c).join_spec(b),
{
}

/// Join is associative.
proof fn lemma_join_associative(a: Aabb, b: Aabb, c: Aabb)
    ensures
        a.join_spec(b).join_spec(c) == a.join_spec(b.join_spec(c)),
{
}

/// A subtree whose box misses `q` holds no leaf whose box intersects `q`.
proof fn lemma_no_overlap_empty<V>(n: AabbTreeNode<V>, q: Aabb)
    requires
        n.wf(),
        !n.box_of().intersects_spec(q),
    ensures
        n.overlapping_leaves(q) == Seq::<(Aabb, V)>::empty(),
    decreases n,
{
    match n {
        AabbTreeNode::Leaf(l) => {
            assert(n.overlapping_leaves(q) =~= Seq::<(Aabb, V)>::empty());
        },
        AabbTreeNode::Branch(b) => {
            lemma_join_contains(b.children.0.box_of(), b.children.1.box_of());
            if b.children.0.box_of().intersects_spec(q) {
                lemma_contains_intersects(b.aabb, b.children.0.box_of(), q);
                lemma_intersects_symmetric(b.aabb, q);
                lemma_intersects_symmetric(b.children.0.box_of(), q);
            }
            if b.children.1.box_of().intersects_spec(q) {
                lemma_contains_intersects(b.aabb, b.children.1.box_of(), q);
                lemma_intersects_symmetric(b.aabb, q);
                lemma_intersects_symmetric(b.children.1.box_of(), q);
            }
            lemma_no_overlap_empty(b.children.0, q);
            lemma_no_overlap_empty(b.children.1, q);
            assert(n.overlapping_leaves(q) =~= Seq::<(Aabb, V)>::empty());
        },
    }
}

/// The overlapping leaves of a well-formed subtree are exactly its leaf
/// entries whose boxes intersect `q`: each reported entry is a stored entry
/// that intersects `q`, and every stored entry that intersects `q` is
/// reported.
proof fn lemma_overlapping_exact<V>(n: AabbTreeNode<V>, q: Aabb)
    requires
        n.wf(),
    ensures
        forall|k: int|
            0 <= k < n.overlapping_leaves(q).len() ==> n.leaves().contains(
                #[trigger] n.overlapping_leaves(q)[k],
            ) && n.overlapping_leaves(q)[k].0.intersects_spec(q),
        forall|e: (Aabb, V)|
            n.leaves().contains(e) && (#[trigger] e.0.intersects_spec(q)) ==> n.overlapping_leaves(
                q,
            ).contains(e),
    decreases n,
{
    broadcast use vstd::multiset::group_multiset_axioms;

    match n {
        AabbTreeNode::Leaf(l) => {
            let e0 = (l.aabb, l.value);
            assert(n.leaves().count(e0) == 1);
            if l.aabb.intersects_spec(q) {
                assert(n.overlapping_leaves(q)[0] == e0);
                assert forall|e: (Aabb, V)|
                    n.leaves().contains(e) && (#[trigger] e.0.intersects_spec(
                        q,
                    )) implies n.overlapping_leaves(q).contains(e) by {
                    assert(e == e0);
                    assert(n.overlapping_leaves(q)[0] == e);
                }
            } else {
                assert forall|e: (Aabb, V)|
                    n.leaves().contains(e) && (#[trigger] e.0.intersects_spec(
                        q,
                    )) implies n.overlapping_leaves(q).contains(e) by {
                    assert(e == e0);
                }
            }
        },
        AabbTreeNode::Branch(b) => {
            let c0 = b.children.0;
            let c1 = b.children.1;
            lemma_overlapping_exact(c0, q);
            lemma_overlapping_exact(c1, q);
            let s0 = c0.overlapping_leaves(q);
            let s1 = c1.overlapping_leaves(q);
            assert forall|k: int|
                0 <= k < n.overlapping_leaves(q).len() implies n.leaves().contains(
                #[trigger] n.overlapping_leaves(q)[k],
            ) && n.overlapping_leaves(q)[k].0.intersects_spec(q) by {
                if k < s0.len() {
                    assert(n.overlapping_leaves(q)[k] == s0[k]);
                } else {
                    assert(n.overlapping_leaves(q)[k] == s1[k - s0.len()]);
                }
            }
            assert forall|e: (Aabb, V)|
                n.leaves().contains(e) && (#[trigger] e.0.intersects_spec(
                    q,
                )) implies n.overlapping_leaves(q).contains(e) by {
                if c0.leaves().contains(e) {
                    let k = choose|k: int| 0 <= k < s0.len() && s0[k] == e;
                    assert(n.overlapping_leaves(q)[k] == e);
                } else {
                    assert(c1.leaves().contains(e));
                    let k = choose|k: int| 0 <= k < s1.len() && s1[k] == e;
                    assert(n.overlapping_leaves(q)[s0.len() + k] == e);
                }
            }
        },
    }
}

/// The entries of `m` whose boxes intersect `q`, with multiplicities kept.
pub open spec fn overlapping_entries<V>(m: Multiset<(Aabb, V)>, q: Aabb) -> Multiset<(Aabb, V)> {
    m.filter(|e: (Aabb, V)| e.0.intersects_spec(q))
}

/// The overlapping-leaves sequence of a subtree holds, as a multiset, exactly
/// the subtree's leaf entries whose boxes intersect `q`: same members, same
/// multiplicities.
proof fn lemma_overlapping_multiset<V>(n: AabbTreeNode<V>, q: Aabb)
    ensures
        n.overlapping_leaves(q).to_multiset() == overlapping_entries(n.leaves(), q),
    decreases n,
{
    broadcast use vstd::multiset::group_multiset_axioms;
    broadcast use vstd::seq_lib::group_to_multiset_ensures;

    match n {
        AabbTreeNode::Leaf(l) => {
            let e = (l.aabb, l.value);
            assert(Seq::<(Aabb, V)>::empty().to_multiset() =~= Multiset::<(Aabb, V)>::empty());
            if l.aabb.intersects_spec(q) {
                assert(Seq::<(Aabb, V)>::empty().push(e) =~= seq![e]);
                assert(seq![e].to_multiset() =~= Multiset::<(Aabb, V)>::empty().insert(e));
                assert(overlapping_entries(n.leaves(), q) =~= Multiset::<(Aabb, V)>::empty().insert(
                    e,
                ));
            } else {
                assert(overlapping_entries(n.leaves(), q) =~= Multiset::<(Aabb, V)>::empty());
            }
        },
        AabbTreeNode::Branch(b) => {
            let c0 = b.children.0;
            let c1 = b.children.1;
            lemma_overlapping_multiset(c0, q);
            lemma_overlapping_multiset(c1, q);
            vstd::seq_lib::lemma_multiset_commutative(
                c0.overlapping_leaves(q),
                c1.overlapping_leaves(q),
            );
            assert(overlapping_entries(c0.leaves().add(c1.leaves()), q) =~= overlapping_entries(
                c0.leaves(),
                q,
            ).add(overlapping_entries(c1.leaves(), q)));
        },
    }
}

/// A tree mapping from axis-aligned bounding boxes to `V` values.
///
/// The tree is append-only: leaves pair an inserted box with its value, and
/// every branch's box is exactly the join of its children's boxes.
#[derive(Debug)]
pub struct AabbTree<V> {
    root: Option<AabbTreeNode<V>>,
}

impl<V> AabbTree<V> {
    /// All box/value pairs stored in the tree.
    pub closed spec fn leaves(&self) -> Multiset<(Aabb, V)> {
        match self.root {
            None => Multiset::empty(),
            Some(n) => n.leaves(),
        }
    }

    /// The tree's structural invariant: every stored box is well formed and
    /// every branch's box is exactly the join of its children's boxes.
    pub closed spec fn wf(&self) -> bool {
        match self.root {
            None => true,
            Some(n) => n.wf(),
        }
    }

    /// Construct a new, empty AABB tree.
    #[inline]
    pub fn new() -> (r: AabbTree<V>)
        ensures
            r.wf(),
            r.leaves() == Multiset::<(Aabb, V)>::empty(),
    {
        AabbTree { root: None }
    }

    /// Insert the given value into the AABB tree, keyed by the given box.
    pub fn insert(&mut self, aabb: Aabb, value: V)
        requires
            old(self).wf(),
            aabb.wf(),
        ensures
            final(self).wf(),
            final(self).leaves() == old(self).leaves().insert((aabb, value)),
    {
        broadcast use vstd::multiset::group_multiset_axioms;

        let leaf = AabbTreeLeaf { aabb, value };
        let root = self.root.take();
        match root {
            Some(r) => {
                let new_root = r.insert(leaf);
                self.root = Some(new_root);
            },
            None => {
                self.root = Some(AabbTreeNode::Leaf(leaf));
                proof {
                    assert(self.leaves() =~= old(self).leaves().insert((aabb, value)));
                }
            },
        }
    }

    /// Collect each of the AABB keys and associated values that overlap with
    /// the given AABB.
    ///
    /// The result holds, as a multiset, exactly the stored pairs whose boxes
    /// intersect `aabb`: every returned pair is stored and intersecting,
    /// every stored intersecting pair is returned, and each as many times as
    /// it is stored. The order of the result is unspecified.
    pub fn iter_overlapping(&self, aabb: Aabb) -> (r: Vec<(Aabb, V)>) where V: Copy
        requires
            self.wf(),
        ensures
            r@.to_multiset() == overlapping_entries(self.leaves(), aabb),
            forall|k: int|
                0 <= k < r@.len() ==> self.leaves().contains(#[trigger] r@[k])
                    && r@[k].0.intersects_spec(aabb),
            forall|e: (Aabb, V)|
                self.leaves().contains(e) && (#[trigger] e.0.intersects_spec(aabb)) ==> r@.contains(
                    e,
                ),
    {
        let mut out: Vec<(Aabb, V)> = Vec::new();
        match &self.root {
            None => {
                proof {
                    broadcast use vstd::multiset::group_multiset_axioms;
                    broadcast use vstd::seq_lib::group_to_multiset_ensures;

                    assert(out@.to_multiset() =~= Multiset::<(Aabb, V)>::empty());
                    assert(overlapping_entries(self.leaves(), aabb) =~= Multiset::<(
                        Aabb,
                        V,
                    )>::empty());
                }
            },
            Some(n) => {
                if n.box_ref().intersects(&aabb) {
                    n.query(&aabb, &mut out);
                } else {
                    proof {
                        lemma_no_overlap_empty(*n, aabb);
                    }
                }
                proof {
                    lemma_overlapping_exact(*n, aabb);
                    lemma_overlapping_multiset(*n, aabb);
                    assert(out@ =~= n.overlapping_leaves(aabb));
                }
            },
        }
        out
    }

    /// Do any of the AABBs in this tree overlap with the given AABB?
    #[inline]
    pub fn any_overlap(&self, aabb: Aabb) -> (r: bool)
        requires
            self.wf(),
        ensures
            r == exists|e: (Aabb, V)|
                self.leaves().contains(e) && (#[trigger] e.0.intersects_spec(aabb)),
    {
        match &self.root {
            None => {
                proof {
                    broadcast use vstd::multiset::group_multiset_axioms;

                }
                false
            },
            Some(n) => {
                let r = n.any_overlap_node(&aabb);
                proof {
                    lemma_overlapping_exact(*n, aabb);
                    if n.overlapping_leaves(aabb).len() != 0 {
                        let e = n.overlapping_leaves(aabb)[0];
                        assert(self.leaves().contains(e) && e.0.intersects_spec(aabb));
                    } else {
                        assert forall|e: (Aabb, V)|
                            self.leaves().contains(e) implies !e.0.intersects_spec(aabb) by {
                            if e.0.intersects_spec(aabb) {
                                assert(n.overlapping_leaves(aabb).contains(e));
                            }
                        }
                    }
                }
                r
            },
        }
    }
}

impl<V> Default for AabbTree<V> {
    /// The default tree is empty.
    fn default() -> (r: AabbTree<V>)
        ensures
            r.wf(),
            r.leaves() == Multiset::<(Aabb, V)>::empty(),
    {
        AabbTree::new()
    }
}

/// A stored box of positive area is always found by a query with that same
/// box: insertion never drops a box, and pruning at well-formed branch boxes
/// never hides one.
pub proof fn lemma_query_complete<V>(t: &AabbTree<V>, b: Aabb, v: V)
    requires
        t.wf(),
        t.leaves().contains((b, v)),
        b.positive_area_spec(),
    ensures
        exists|e: (Aabb, V)| t.leaves().contains(e) && (#[trigger] e.0.intersects_spec(b)),
{
    lemma_intersects_reflexive(b);
    assert(t.leaves().contains((b, v)) && (b, v).0.intersects_spec(b));
}

/// Things that have an axis-aligned bounding box.
///
/// While a box can be computed from anything with vertices, implementations
/// of this trait are intended to be the fastest way to get one for the given
/// type.
pub trait ToAabb {
    /// The value's coordinates lie within `COORD_LIMIT`, so that a bounding
    /// box exists for it.
    spec fn aabb_ready(&self) -> bool;

    /// `r` is the bounding box of `self`: it bounds the value exactly, each
    /// side touching it.
    spec fn is_aabb_of(&self, r: Aabb) -> bool;

    /// Get the axis-aligned bounding box for `self`.
    fn to_aabb(&self) -> (r: Aabb)
        requires
            self.aabb_ready(),
        ensures
            r.wf(),
            self.is_aabb_of(r),
    ;
}

/// Intersection is symmetric: `a` intersects `b` exactly when `b` intersects
/// `a`.
pub proof fn lemma_intersects_symmetric(a: Aabb, b: Aabb)
    ensures
        a.intersects_spec(b) == b.intersects_spec(a),
{
}

/// Intersection is reflexive for boxes of positive area: such a box always
/// intersects itself.
pub proof fn lemma_intersects_reflexive(a: Aabb)
    requires
        a.positive_area_spec(),
    ensures
        a.intersects_spec(a),
{
}

/// The join of two boxes contains both of them.
pub proof fn lemma_join_contains(a: Aabb, b: Aabb)
    ensures
        a.join_spec(b).contains_spec(a),
        a.join_spec(b).contains_spec(b),
{
}

/// The join of two boxes is a least upper bound: any box containing both
/// also contains the join.
pub proof fn lemma_join_least(a: Aabb, b: Aabb, c: Aabb)
    requires
        c.contains_spec(a),
        c.contains_spec(b),
    ensures
        c.contains_spec(a.join_spec(b)),
{
}

/// Join is commutative.
pub proof fn lemma_join_commutative(a: Aabb, b: Aabb)
    ensures
        a.join_spec(b) == b.join_spec(a),
{
}

/// Containment lets intersection pass upward: whatever intersects a
/// contained box intersects the containing box. In particular, the join of
/// two boxes intersects everything either of them intersects.
pub proof fn lemma_contains_intersects(outer: Aabb, inner: Aabb, other: Aabb)
    requires
        outer.contains_spec(inner),
        other.intersects_spec(inner),
    ensures
        other.intersects_spec(outer),
{
}

} // verus!
