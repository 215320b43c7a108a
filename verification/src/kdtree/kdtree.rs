//! The tree over the bounding boxes of shapes.

use vstd::prelude::*;

use crate::dto::Point2D;
use crate::kdtree::aabb::{Bounded, AABB};
use crate::kdtree::ray::{lemma_ray_meets_larger_box, ray_meets_box, Ray, DIRECTION_LIMIT};

verus! {

/// How a tree is built.
#[derive(Clone, Copy, Debug, PartialEq, Eq, Structural)]
pub struct BuilderConfig {
    /// How often the shapes are at most split in two on the way to a leaf.
    pub max_depth: usize,
    /// How many shapes are not split further.
    pub leaf_size: usize,
}

impl Default for BuilderConfig {
    fn default() -> (config: Self)
        ensures
            config.max_depth == 32,
            config.leaf_size == 4,
    {
        BuilderConfig { max_depth: 32, leaf_size: 4 }
    }
}

/// A node of the tree: a leaf with the numbers of its shapes, or a split
/// in two children, each with the box around its shapes.
#[derive(Debug)]
pub enum KDTreeNode {
    Leaf { shapes: Vec<usize> },
    Node { l_child: Box<KDTreeNode>, l_space: AABB, r_child: Box<KDTreeNode>, r_space: AABB },
}

impl KDTreeNode {
    /// Shape number `i` stands in a leaf below this node.
    pub open spec fn holds(&self, i: usize) -> bool
        decreases self,
    {
        match self {
            KDTreeNode::Leaf { shapes } => shapes@.contains(i),
            KDTreeNode::Node { l_child, l_space, r_child, r_space } => l_child.holds(i)
                || r_child.holds(i),
        }
    }

    /// Every shape below this node has a box, of those in `boxes`, that
    /// lies in `space`; the boxes kept with the children lie in `space`, and
    /// the same holds of each child and its box.
    pub open spec fn bounded_by(&self, space: AABB, boxes: Seq<AABB>) -> bool
        decreases self,
    {
        match self {
            KDTreeNode::Leaf { shapes } => forall|k: int|
                0 <= k < shapes@.len() ==> (#[trigger] shapes@[k]) < boxes.len() && space.encloses(
                    boxes[shapes@[k] as int],
                ),
            KDTreeNode::Node { l_child, l_space, r_child, r_space } => space.encloses(*l_space)
                && space.encloses(*r_space) && l_child.bounded_by(*l_space, boxes)
                && r_child.bounded_by(*r_space, boxes),
        }
    }

    /// Shape number `i` stands in a leaf below this node that the ray from
    /// `origin` along `direction` reaches: on the way down to the leaf the
    /// ray has a point in the box of every child it enters.
    pub open spec fn reached(&self, origin: Point2D, direction: Point2D, i: usize) -> bool
        decreases self,
    {
        match self {
            KDTreeNode::Leaf { shapes } => shapes@.contains(i),
            KDTreeNode::Node { l_child, l_space, r_child, r_space } => (ray_meets_box(
                origin,
                direction,
                *l_space,
            ) && l_child.reached(origin, direction, i)) || (ray_meets_box(
                origin,
                direction,
                *r_space,
            ) && r_child.reached(origin, direction, i)),
        }
    }

    /// A shape that is reached stands below the node.
    pub proof fn lemma_reached_is_held(&self, origin: Point2D, direction: Point2D, i: usize)
        requires
            self.reached(origin, direction, i),
        ensures
            self.holds(i),
        decreases self,
    {
        match self {
            KDTreeNode::Leaf { shapes } => {},
            KDTreeNode::Node { l_child, l_space, r_child, r_space } => {
                if ray_meets_box(origin, direction, *l_space) && l_child.reached(
                    origin,
                    direction,
                    i,
                ) {
                    l_child.lemma_reached_is_held(origin, direction, i);
                } else {
                    r_child.lemma_reached_is_held(origin, direction, i);
                }
            },
        }
    }

    /// A shape in whose box the ray has a point is reached.
    pub proof fn lemma_met_is_reached(
        &self,
        space: AABB,
        boxes: Seq<AABB>,
        origin: Point2D,
        direction: Point2D,
        i: usize,
    )
        requires
            self.bounded_by(space, boxes),
            self.holds(i),
            i < boxes.len() ==> ray_meets_box(origin, direction, boxes[i as int]),
        ensures
            self.reached(origin, direction, i),
        decreases self,
    {
        self.lemma_holds_within(space, boxes, i);
        match self {
            KDTreeNode::Leaf { shapes } => {},
            KDTreeNode::Node { l_child, l_space, r_child, r_space } => {
                if l_child.holds(i) {
                    l_child.lemma_holds_within(*l_space, boxes, i);
                    lemma_ray_meets_larger_box(origin, direction, boxes[i as int], *l_space);
                    l_child.lemma_met_is_reached(*l_space, boxes, origin, direction, i);
                } else {
                    r_child.lemma_holds_within(*r_space, boxes, i);
                    lemma_ray_meets_larger_box(origin, direction, boxes[i as int], *r_space);
                    r_child.lemma_met_is_reached(*r_space, boxes, origin, direction, i);
                }
            },
        }
    }

    /// The two trees split the same shapes over their leaves in the same
    /// way; only the boxes that are kept with the nodes may differ.
    pub open spec fn same_split(&self, other: KDTreeNode) -> bool
        decreases self,
    {
        match (self, other) {
            (KDTreeNode::Leaf { shapes }, KDTreeNode::Leaf { shapes: others }) => shapes@
                == others@,
            (
                KDTreeNode::Node { l_child, l_space, r_child, r_space },
                KDTreeNode::Node { l_child: l_other, l_space: ls, r_child: r_other, r_space: rs },
            ) => l_child.same_split(*l_other) && r_child.same_split(*r_other),
            _ => false,
        }
    }

    /// The box of a shape below a node lies in the box of the node.
    pub proof fn lemma_holds_within(&self, space: AABB, boxes: Seq<AABB>, i: usize)
        requires
            self.bounded_by(space, boxes),
            self.holds(i),
        ensures
            i < boxes.len(),
            space.encloses(boxes[i as int]),
        decreases self,
    {
        match self {
            KDTreeNode::Leaf { shapes } => {
                let k = choose|k: int| 0 <= k < shapes@.len() && shapes@[k] == i;
                assert(shapes@[k] < boxes.len());
            },
            KDTreeNode::Node { l_child, l_space, r_child, r_space } => {
                if l_child.holds(i) {
                    l_child.lemma_holds_within(*l_space, boxes, i);
                    lemma_encloses_transitive(space, *l_space, boxes[i as int]);
                } else {
                    r_child.lemma_holds_within(*r_space, boxes, i);
                    lemma_encloses_transitive(space, *r_space, boxes[i as int]);
                }
            },
        }
    }
}

/// A box that lies in a box that lies in a third lies in the third.
pub proof fn lemma_encloses_transitive(outer: AABB, middle: AABB, inner: AABB)
    requires
        outer.encloses(middle),
        middle.encloses(inner),
    ensures
        outer.encloses(inner),
{
}

/// The boxes of the shapes.
pub fn bounds_of<S: Bounded>(shapes: &Vec<S>) -> (boxes: Vec<AABB>)
    requires
        forall|i: int| 0 <= i < shapes@.len() ==> (#[trigger] shapes@[i]).has_bound(),
    ensures
        boxes@.len() == shapes@.len(),
        forall|i: int|
            0 <= i < shapes@.len() ==> #[trigger] boxes@[i] == shapes@[i].bounding_box(),
{
    let mut boxes: Vec<AABB> = Vec::new();
    let mut index: usize = 0;
    while index < shapes.len()
        invariant
            index <= shapes@.len(),
            forall|i: int| 0 <= i < shapes@.len() ==> (#[trigger] shapes@[i]).has_bound(),
            boxes@.len() == index,
            forall|i: int| 0 <= i < index ==> #[trigger] boxes@[i] == shapes@[i].bounding_box(),
        decreases shapes@.len() - index,
    {
        let bb = shapes[index].bound();
        boxes.push(bb);
        index += 1;
    }
    boxes
}

/// The box `around` holds each of the first `n` listed boxes.
pub open spec fn encloses_listed(around: AABB, boxes: Seq<AABB>, items: Seq<usize>, n: int) -> bool {
    forall|k: int| 0 <= k < n ==> around.encloses(boxes[(#[trigger] items[k]) as int])
}

/// The box `around` holds every one of the boxes.
pub open spec fn encloses_all(around: AABB, boxes: Seq<AABB>) -> bool {
    forall|i: int| 0 <= i < boxes.len() ==> around.encloses(#[trigger] boxes[i])
}

/// The box `space` is the least around the boxes: it holds every one of
/// them, and lies in every box that does.
pub open spec fn is_least_around(space: AABB, boxes: Seq<AABB>) -> bool {
    &&& encloses_all(space, boxes)
    &&& forall|around: AABB| #[trigger] encloses_all(around, boxes) ==> around.encloses(space)
}

/// The box `around` holds the box of every shape that stands below the
/// node.
pub open spec fn encloses_held(around: AABB, node: KDTreeNode, boxes: Seq<AABB>) -> bool {
    forall|i: usize| #[trigger] node.holds(i) ==> around.encloses(boxes[i as int])
}

/// The least box around those of the listed boxes that are not empty, or
/// the empty box if there is none.
pub fn merged(boxes: &Vec<AABB>, items: &Vec<usize>, within: &AABB) -> (space: AABB)
    requires
        forall|k: int| 0 <= k < items@.len() ==> (#[trigger] items@[k]) < boxes@.len(),
        encloses_listed(*within, boxes@, items@, items@.len() as int),
    ensures
        within.encloses(space),
        encloses_listed(space, boxes@, items@, items@.len() as int),
        forall|around: AABB|
            #[trigger] encloses_listed(around, boxes@, items@, items@.len() as int)
                ==> around.encloses(space),
{
    let mut space = AABB::empty();
    let mut k: usize = 0;
    while k < items.len()
        invariant
            k <= items@.len(),
            forall|j: int| 0 <= j < items@.len() ==> (#[trigger] items@[j]) < boxes@.len(),
            encloses_listed(*within, boxes@, items@, items@.len() as int),
            within.encloses(space),
            space.is_empty() ==> space.min == (Point2D { x: i64::MAX, y: i64::MAX }) && space.max
                == (Point2D { x: i64::MIN, y: i64::MIN }),
            encloses_listed(space, boxes@, items@, k as int),
            forall|around: AABB|
                #[trigger] encloses_listed(around, boxes@, items@, k as int) ==> around.encloses(
                    space,
                ),
        decreases items@.len() - k,
    {
        let bb = &boxes[items[k]];
        let ghost before = space;
        assert(within.encloses(boxes@[items@[k as int] as int]));
        if !(bb.min.x > bb.max.x || bb.min.y > bb.max.y) {
            space.merge(bb);
            proof {
                assert forall|j: int| 0 <= j < k implies space.encloses(
                    boxes@[(#[trigger] items@[j]) as int],
                ) by {
                    lemma_encloses_transitive(space, before, boxes@[items@[j] as int]);
                }
            }
        }
        proof {
            assert forall|around: AABB| #[trigger]
                encloses_listed(around, boxes@, items@, k + 1) implies around.encloses(space) by {
                assert(encloses_listed(around, boxes@, items@, k as int));
                assert(around.encloses(before));
                assert(around.encloses(boxes@[items@[k as int] as int]));
            }
        }
        k += 1;
    }
    space
}

/// Builds the tree below a node for the listed shapes, splitting them at
/// the middle of the longer side of `space` as long as more than
/// `leaf_size` are left and `depth_left` is not used up.
pub fn build_node(
    boxes: &Vec<AABB>,
    items: Vec<usize>,
    space: &AABB,
    depth_left: usize,
    leaf_size: usize,
) -> (node: KDTreeNode)
    requires
        forall|k: int|
            0 <= k < items@.len() ==> (#[trigger] items@[k]) < boxes@.len() && space.encloses(
                boxes@[items@[k] as int],
            ),
    ensures
        node.bounded_by(*space, boxes@),
        forall|i: usize| #[trigger] node.holds(i) == items@.contains(i),
    decreases depth_left,
{
    if depth_left == 0 || items.len() <= leaf_size {
        return KDTreeNode::Leaf { shapes: items };
    }
    let along_x = space.max.x as i128 - space.min.x as i128 >= space.max.y as i128
        - space.min.y as i128;
    let twice_middle: i128 = if along_x {
        space.min.x as i128 + space.max.x as i128
    } else {
        space.min.y as i128 + space.max.y as i128
    };
    let mut left: Vec<usize> = Vec::new();
    let mut right: Vec<usize> = Vec::new();
    let mut k: usize = 0;
    while k < items.len()
        invariant
            k <= items@.len(),
            forall|j: int|
                0 <= j < items@.len() ==> (#[trigger] items@[j]) < boxes@.len() && space.encloses(
                    boxes@[items@[j] as int],
                ),
            forall|j: int|
                0 <= j < left@.len() ==> (#[trigger] left@[j]) < boxes@.len() && space.encloses(
                    boxes@[left@[j] as int],
                ) && items@.contains(left@[j]),
            forall|j: int|
                0 <= j < right@.len() ==> (#[trigger] right@[j]) < boxes@.len() && space.encloses(
                    boxes@[right@[j] as int],
                ) && items@.contains(right@[j]),
            forall|j: int|
                0 <= j < k ==> left@.contains(#[trigger] items@[j]) || right@.contains(items@[j]),
        decreases items@.len() - k,
    {
        let item = items[k];
        let bb = &boxes[item];
        let low: i128 = if along_x {
            bb.min.x as i128
        } else {
            bb.min.y as i128
        };
        let ghost left_before = left@;
        let ghost right_before = right@;
        assert(items@.contains(item));
        if 2 * low <= twice_middle {
            left.push(item);
        } else {
            right.push(item);
        }
        proof {
            assert forall|j: int| 0 <= j < k + 1 implies left@.contains(#[trigger] items@[j])
                || right@.contains(items@[j]) by {
                if j < k {
                    if left_before.contains(items@[j]) {
                        let m = choose|m: int|
                            0 <= m < left_before.len() && left_before[m] == items@[j];
                        assert(left@[m] == items@[j]);
                    } else {
                        let m = choose|m: int|
                            0 <= m < right_before.len() && right_before[m] == items@[j];
                        assert(right@[m] == items@[j]);
                    }
                } else {
                    if 2 * low <= twice_middle {
                        assert(left@[left_before.len() as int] == item);
                    } else {
                        assert(right@[right_before.len() as int] == item);
                    }
                }
            }
        }
        k += 1;
    }
    if left.len() == 0 || right.len() == 0 {
        return KDTreeNode::Leaf { shapes: items };
    }
    assert(encloses_listed(*space, boxes@, left@, left@.len() as int));
    assert(encloses_listed(*space, boxes@, right@, right@.len() as int));
    let l_space = merged(boxes, &left, space);
    let r_space = merged(boxes, &right, space);
    let ghost left_items = left@;
    let ghost right_items = right@;
    let l_child = build_node(boxes, left, &l_space, depth_left - 1, leaf_size);
    let r_child = build_node(boxes, right, &r_space, depth_left - 1, leaf_size);
    let node = KDTreeNode::Node {
        l_child: Box::new(l_child),
        l_space,
        r_child: Box::new(r_child),
        r_space,
    };
    proof {
        assert forall|i: usize| #[trigger] node.holds(i) == items@.contains(i) by {
            assert(l_child.holds(i) == left_items.contains(i));
            assert(r_child.holds(i) == right_items.contains(i));
            if left_items.contains(i) {
                let m = choose|m: int| 0 <= m < left_items.len() && left_items[m] == i;
                assert(items@.contains(left_items[m]));
            }
            if right_items.contains(i) {
                let m = choose|m: int| 0 <= m < right_items.len() && right_items[m] == i;
                assert(items@.contains(right_items[m]));
            }
            if items@.contains(i) {
                let j = choose|j: int| 0 <= j < items@.len() && items@[j] == i;
                assert(left_items.contains(items@[j]) || right_items.contains(items@[j]));
            }
        }
    }
    node
}

/// Adds to `result` the shapes of every leaf below the node that the ray
/// reaches through boxes all of which it has a point in.
pub fn collect(node: &KDTreeNode, ray: &Ray, result: &mut Vec<usize>)
    requires
        ray.wf(),
    ensures
        forall|i: usize|
            #[trigger] final(result)@.contains(i) <==> (old(result)@.contains(i) || node.reached(
                ray.origin,
                ray.direction,
                i,
            )),
    decreases node,
{
    match node {
        KDTreeNode::Leaf { shapes } => {
            let mut k: usize = 0;
            while k < shapes.len()
                invariant
                    k <= shapes@.len(),
                    forall|i: usize|
                        #[trigger] result@.contains(i) <==> (old(result)@.contains(i)
                            || shapes@.take(k as int).contains(i)),
                decreases shapes@.len() - k,
            {
                let ghost before = result@;
                let ghost shorter = shapes@.take(k as int);
                let ghost longer = shapes@.take(k + 1);
                result.push(shapes[k]);
                proof {
                    assert(longer =~= shorter.push(shapes@[k as int]));
                    crate::common::lemma_pushed_contains(before, shapes@[k as int]);
                    crate::common::lemma_pushed_contains(shorter, shapes@[k as int]);
                }
                k += 1;
            }
            assert(shapes@.take(shapes@.len() as int) =~= shapes@);
        },
        KDTreeNode::Node { l_child, l_space, r_child, r_space } => {
            if ray.intersect(l_space) {
                collect(l_child, ray, result);
            }
            if ray.intersect(r_space) {
                collect(r_child, ray, result);
            }
        },
    }
}

/// Computes anew the boxes that are kept in the tree below a node, and
/// returns the node with the least box around its shapes.
pub fn refit_node(node: KDTreeNode, boxes: &Vec<AABB>) -> (refitted: (KDTreeNode, AABB))
    requires
        forall|i: usize| #[trigger] node.holds(i) ==> i < boxes@.len(),
    ensures
        refitted.0.bounded_by(refitted.1, boxes@),
        forall|i: usize| #[trigger] refitted.0.holds(i) == node.holds(i),
        node.same_split(refitted.0),
        forall|around: AABB| #[trigger]
            encloses_held(around, node, boxes@) ==> around.encloses(refitted.1),
    decreases node,
{
    match node {
        KDTreeNode::Leaf { shapes } => {
            proof {
                assert forall|k: int| 0 <= k < shapes@.len() implies (#[trigger] shapes@[k])
                    < boxes@.len() by {
                    assert(shapes@.contains(shapes@[k]));
                    assert(node.holds(shapes@[k]));
                }
            }
            let everything = AABB {
                min: Point2D { x: i64::MIN, y: i64::MIN },
                max: Point2D { x: i64::MAX, y: i64::MAX },
            };
            let space = merged(boxes, &shapes, &everything);
            proof {
                assert forall|around: AABB| #[trigger]
                    encloses_held(around, node, boxes@) implies around.encloses(space) by {
                    assert forall|k: int| 0 <= k < shapes@.len() implies around.encloses(
                        boxes@[(#[trigger] shapes@[k]) as int],
                    ) by {
                        assert(shapes@.contains(shapes@[k]));
                        assert(node.holds(shapes@[k]));
                    }
                    assert(encloses_listed(around, boxes@, shapes@, shapes@.len() as int));
                }
            }
            (KDTreeNode::Leaf { shapes }, space)
        },
        KDTreeNode::Node { l_child, l_space, r_child, r_space } => {
            proof {
                assert forall|i: usize| #[trigger] l_child.holds(i) implies i < boxes@.len() by {
                    assert(node.holds(i));
                }
                assert forall|i: usize| #[trigger] r_child.holds(i) implies i < boxes@.len() by {
                    assert(node.holds(i));
                }
            }
            let ghost l_before = *l_child;
            let ghost r_before = *r_child;
            let (l_child, l_space) = refit_node(*l_child, boxes);
            let (r_child, r_space) = refit_node(*r_child, boxes);
            let mut space = AABB::empty();
            if !(l_space.min.x > l_space.max.x || l_space.min.y > l_space.max.y) {
                space.merge(&l_space);
            }
            let ghost middle = space;
            if !(r_space.min.x > r_space.max.x || r_space.min.y > r_space.max.y) {
                space.merge(&r_space);
            }
            let refitted = KDTreeNode::Node {
                l_child: Box::new(l_child),
                l_space,
                r_child: Box::new(r_child),
                r_space,
            };
            proof {
                lemma_encloses_transitive(space, middle, l_space);
                assert forall|i: usize| #[trigger] refitted.holds(i) == node.holds(i) by {
                    assert(l_child.holds(i) == l_before.holds(i));
                    assert(r_child.holds(i) == r_before.holds(i));
                }
                assert forall|around: AABB| #[trigger]
                    encloses_held(around, node, boxes@) implies around.encloses(space) by {
                    assert forall|i: usize| #[trigger] l_before.holds(i) implies around.encloses(
                        boxes@[i as int],
                    ) by {
                        assert(node.holds(i));
                    }
                    assert forall|i: usize| #[trigger] r_before.holds(i) implies around.encloses(
                        boxes@[i as int],
                    ) by {
                        assert(node.holds(i));
                    }
                    assert(encloses_held(around, l_before, boxes@));
                    assert(encloses_held(around, r_before, boxes@));
                    assert(around.encloses(l_space));
                    assert(around.encloses(r_space));
                    assert(around.encloses(middle));
                }
            }
            (refitted, space)
        },
    }
}

/// The numbers of a list in rising order, each once.
pub fn sorted_unique(items: &Vec<usize>) -> (out: Vec<usize>)
    ensures
        forall|i: int, j: int| 0 <= i < j < out@.len() ==> (#[trigger] out@[i]) < (#[trigger] out@[j]),
        forall|x: usize| #[trigger] out@.contains(x) <==> items@.contains(x),
{
    let mut out: Vec<usize> = Vec::new();
    let mut k: usize = 0;
    while k < items.len()
        invariant
            k <= items@.len(),
            forall|i: int, j: int|
                0 <= i < j < out@.len() ==> (#[trigger] out@[i]) < (#[trigger] out@[j]),
            forall|x: usize| #[trigger] out@.contains(x) <==> items@.take(k as int).contains(x),
        decreases items@.len() - k,
    {
        let item = items[k];
        let mut pos: usize = 0;
        while pos < out.len() && out[pos] < item
            invariant
                pos <= out@.len(),
                forall|i: int| 0 <= i < pos ==> (#[trigger] out@[i]) < item,
            decreases out@.len() - pos,
        {
            pos += 1;
        }
        let ghost before = out@;
        let ghost shorter = items@.take(k as int);
        let ghost longer = items@.take(k + 1);
        assert(longer =~= shorter.push(item));
        let found = pos < out.len() && out[pos] == item;
        if !found {
            out.insert(pos, item);
            proof {
                before.insert_ensures(pos as int, item);
                assert forall|i: int, j: int| 0 <= i < j < out@.len() implies (#[trigger] out@[i])
                    < (#[trigger] out@[j]) by {
                    if i < pos && j > pos {
                        assert(out@[j] == before[j - 1]);
                        assert(out@[i] == before[i]);
                        if pos < before.len() {
                            assert(before[pos as int] <= before[j - 1]) by {
                                if pos < j - 1 {
                                    assert(before[pos as int] < before[j - 1]);
                                }
                            }
                        }
                    } else if i < pos && j < pos {
                        assert(out@[i] == before[i] && out@[j] == before[j]);
                    } else if i < pos && j == pos {
                        assert(out@[i] == before[i]);
                    } else if i == pos {
                        assert(out@[j] == before[j - 1]);
                        assert(before[pos as int] <= before[j - 1]) by {
                            if pos < j - 1 {
                                assert(before[pos as int] < before[j - 1]);
                            }
                        }
                    } else {
                        assert(out@[i] == before[i - 1] && out@[j] == before[j - 1]);
                        assert(before[i - 1] < before[j - 1]);
                    }
                }
                assert forall|x: usize| #[trigger] out@.contains(x) <==> longer.contains(x) by {
                    if out@.contains(x) {
                        let i = choose|i: int| 0 <= i < out@.len() && out@[i] == x;
                        if i < pos {
                            assert(before[i] == x);
                            assert(before.contains(x));
                        } else if i > pos {
                            assert(before[i - 1] == x);
                            assert(before.contains(x));
                        }
                        if before.contains(x) {
                            assert(shorter.contains(x));
                            let m = choose|m: int| 0 <= m < shorter.len() && shorter[m] == x;
                            assert(longer[m] == x);
                        } else {
                            assert(longer[k as int] == x);
                        }
                    }
                    if longer.contains(x) {
                        let m = choose|m: int| 0 <= m < longer.len() && longer[m] == x;
                        if m < k {
                            assert(shorter[m] == x);
                            assert(before.contains(x));
                            let i = choose|i: int| 0 <= i < before.len() && before[i] == x;
                            if i < pos {
                                assert(out@[i] == x);
                            } else {
                                assert(out@[i + 1] == x);
                            }
                        } else {
                            assert(out@[pos as int] == x);
                        }
                    }
                }
            }
        } else {
            proof {
                assert forall|x: usize| #[trigger] out@.contains(x) <==> longer.contains(x) by {
                    if out@.contains(x) {
                        assert(shorter.contains(x));
                        let m = choose|m: int| 0 <= m < shorter.len() && shorter[m] == x;
                        assert(longer[m] == x);
                    }
                    if longer.contains(x) {
                        let m = choose|m: int| 0 <= m < longer.len() && longer[m] == x;
                        if m < k {
                            assert(shorter[m] == x);
                        } else {
                            assert(out@[pos as int] == x);
                        }
                    }
                }
            }
        }
        k += 1;
    }
    assert(items@.take(items@.len() as int) =~= items@);
    out
}

/// A tree over the bounding boxes of shapes, by which the shapes that a
/// ray may meet are found without looking at all of them.
#[derive(Debug)]
pub struct KDTree {
    pub root: KDTreeNode,
    pub space: AABB,
    pub boxes: Vec<AABB>,
}

impl KDTree {
    /// Every shape stands in a leaf, and the box of every node lies around
    /// the boxes of the shapes below it.
    pub open spec fn wf(&self) -> bool {
        &&& self.root.bounded_by(self.space, self.boxes@)
        &&& forall|i: usize| #[trigger] self.root.holds(i) == (i < self.boxes@.len())
    }

    /// Builds a tree around the shapes. They are numbered as they stand in
    /// the list.
    pub fn build_config<S: Bounded>(shapes: &Vec<S>, config: &BuilderConfig) -> (tree: Self)
        requires
            shapes@.len() > 0,
            forall|i: int| 0 <= i < shapes@.len() ==> (#[trigger] shapes@[i]).has_bound(),
        ensures
            tree.wf(),
            tree.boxes@.len() == shapes@.len(),
            forall|i: int|
                0 <= i < shapes@.len() ==> #[trigger] tree.boxes@[i] == shapes@[i].bounding_box(),
            is_least_around(tree.space, tree.boxes@),
    {
        let boxes = bounds_of(shapes);
        let mut items: Vec<usize> = Vec::new();
        let mut index: usize = 0;
        let everything = AABB {
            min: Point2D { x: i64::MIN, y: i64::MIN },
            max: Point2D { x: i64::MAX, y: i64::MAX },
        };
        while index < boxes.len()
            invariant
                index <= boxes@.len(),
                items@.len() == index,
                forall|k: int| 0 <= k < index ==> #[trigger] items@[k] == k,
            decreases boxes@.len() - index,
        {
            items.push(index);
            index += 1;
        }
        let space = merged(&boxes, &items, &everything);
        let ghost all = items@;
        let root = build_node(&boxes, items, &space, config.max_depth, config.leaf_size);
        proof {
            assert forall|i: usize| #[trigger] root.holds(i) == (i < boxes@.len()) by {
                assert(root.holds(i) == all.contains(i));
                if i < boxes@.len() {
                    assert(all[i as int] == i);
                }
                if all.contains(i) {
                    let k = choose|k: int| 0 <= k < all.len() && all[k] == i;
                    assert(all[k] == k);
                }
            }
            assert forall|i: int| 0 <= i < boxes@.len() implies space.encloses(
                #[trigger] boxes@[i],
            ) by {
                assert(space.encloses(boxes@[all[i] as int]));
            }
            assert forall|around: AABB| #[trigger]
                encloses_all(around, boxes@) implies around.encloses(space) by {
                assert(encloses_listed(around, boxes@, all, all.len() as int));
            }
        }
        KDTree { space, root, boxes }
    }

    /// Builds a tree around the shapes in the usual way.
    pub fn build<S: Bounded>(shapes: &Vec<S>) -> (tree: Self)
        requires
            shapes@.len() > 0,
            forall|i: int| 0 <= i < shapes@.len() ==> (#[trigger] shapes@[i]).has_bound(),
        ensures
            tree.wf(),
            tree.boxes@.len() == shapes@.len(),
            forall|i: int|
                0 <= i < shapes@.len() ==> #[trigger] tree.boxes@[i] == shapes@[i].bounding_box(),
            is_least_around(tree.space, tree.boxes@),
    {
        Self::build_config(shapes, &BuilderConfig::default())
    }

    /// Takes the boxes of the shapes anew, which may have moved, and keeps
    /// the split of the shapes over the leaves.
    pub fn refit<S: Bounded>(&mut self, shapes: &Vec<S>)
        requires
            old(self).wf(),
            shapes@.len() == old(self).boxes@.len(),
            forall|i: int| 0 <= i < shapes@.len() ==> (#[trigger] shapes@[i]).has_bound(),
        ensures
            final(self).wf(),
            final(self).boxes@.len() == shapes@.len(),
            forall|i: int|
                0 <= i < shapes@.len() ==> #[trigger] final(self).boxes@[i]
                    == shapes@[i].bounding_box(),
            old(self).root.same_split(final(self).root),
            is_least_around(final(self).space, final(self).boxes@),
    {
        let boxes = bounds_of(shapes);
        let mut root = KDTreeNode::Leaf { shapes: Vec::new() };
        std::mem::swap(&mut self.root, &mut root);
        let ghost before = root;
        proof {
            assert forall|i: usize| #[trigger] root.holds(i) implies i < boxes@.len() by {}
        }
        let (root, space) = refit_node(root, &boxes);
        proof {
            assert forall|i: usize| #[trigger] root.holds(i) == (i < boxes@.len()) by {
                assert(root.holds(i) == before.holds(i));
            }
            assert forall|i: int| 0 <= i < boxes@.len() implies space.encloses(
                #[trigger] boxes@[i],
            ) by {
                assert(root.holds(i as usize));
                root.lemma_holds_within(space, boxes@, i as usize);
            }
            assert forall|around: AABB| #[trigger]
                encloses_all(around, boxes@) implies around.encloses(space) by {
                assert forall|i: usize| #[trigger] before.holds(i) implies around.encloses(
                    boxes@[i as int],
                ) by {
                    assert(root.holds(i) == before.holds(i));
                }
                assert(encloses_held(around, before, boxes@));
            }
        }
        self.root = root;
        self.space = space;
        self.boxes = boxes;
    }

    /// The shapes that a ray from `ray_origin` along `ray_direction` may
    /// meet, in rising order and each once: those of the leaves that the ray
    /// reaches. Among them is every shape in whose box the ray has a point.
    pub fn intersect(&self, ray_origin: &Point2D, ray_direction: &Point2D) -> (result: Vec<usize>)
        requires
            self.wf(),
            ray_origin.wf(),
            -DIRECTION_LIMIT <= ray_direction.x <= DIRECTION_LIMIT,
            -DIRECTION_LIMIT <= ray_direction.y <= DIRECTION_LIMIT,
        ensures
            forall|i: int, j: int|
                0 <= i < j < result@.len() ==> (#[trigger] result@[i]) < (#[trigger] result@[j]),
            forall|i: usize|
                #[trigger] result@.contains(i) <==> self.root.reached(
                    *ray_origin,
                    *ray_direction,
                    i,
                ),
            forall|k: int| 0 <= k < result@.len() ==> (#[trigger] result@[k]) < self.boxes@.len(),
            forall|i: usize|
                i < self.boxes@.len() && ray_meets_box(
                    *ray_origin,
                    *ray_direction,
                    self.boxes@[i as int],
                ) ==> result@.contains(i),
    {
        let ray = Ray::new(ray_origin, ray_direction);
        let mut found: Vec<usize> = Vec::new();
        collect(&self.root, &ray, &mut found);
        // Dedup duplicated shapes
        let result = sorted_unique(&found);
        proof {
            assert forall|i: usize|
                i < self.boxes@.len() && ray_meets_box(
                    *ray_origin,
                    *ray_direction,
                    self.boxes@[i as int],
                ) implies result@.contains(i) by {
                assert(self.root.holds(i));
                self.root.lemma_met_is_reached(
                    self.space,
                    self.boxes@,
                    *ray_origin,
                    *ray_direction,
                    i,
                );
            }
            assert forall|k: int| 0 <= k < result@.len() implies (#[trigger] result@[k])
                < self.boxes@.len() by {
                assert(result@.contains(result@[k]));
                self.root.lemma_reached_is_held(*ray_origin, *ray_direction, result@[k]);
            }
        }
        result
    }
}

impl Bounded for KDTree {
    open spec fn has_bound(&self) -> bool {
        true
    }

    open spec fn bounding_box(&self) -> AABB {
        self.space
    }

    fn bound(&self) -> (aabb: AABB) {
        self.space
    }
}

} // verus!
