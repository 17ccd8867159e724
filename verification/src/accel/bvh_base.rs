//! The intermediary tree from which bounding volume hierarchies are built:
//! its nodes, and the recursive build that lays them out.
//!
//! The build decides the shape of the tree.  What needs the geometry of the
//! objects (where a range of objects is split, and the bounds of a leaf or
//! of two merged children) is handed in by the caller as closures, which
//! also keep the objects themselves.
use vstd::prelude::*;
use vstd::slice::slice_subrange;
use crate::math::{log2_64, log2_64_spec};
use crate::accel::bvh4::base_wf;

verus! {

/// A node of the intermediary tree.  Ranges are half-open index ranges into
/// the tree's list of bounds (one per time sample) and, for a leaf, into
/// the list of objects.
#[derive(Copy, Clone, Debug)]
pub enum BVHBaseNode {
    Internal { bounds_range: (usize, usize), children_indices: (usize, usize), split_axis: u8 },
    Leaf { bounds_range: (usize, usize), object_range: (usize, usize) },
}

impl BVHBaseNode {
    /// The node's range of bounds, whatever its kind.
    pub open spec fn spec_bounds_range(self) -> (usize, usize) {
        match self {
            BVHBaseNode::Internal { bounds_range, .. } => bounds_range,
            BVHBaseNode::Leaf { bounds_range, .. } => bounds_range,
        }
    }

    /// The node's range of bounds, whatever its kind.
    pub fn bounds_range(&self) -> (r: (usize, usize))
        ensures
            r == self.spec_bounds_range(),
    {
        match *self {
            BVHBaseNode::Internal { bounds_range, .. } | BVHBaseNode::Leaf { bounds_range, .. } => {
                bounds_range
            },
        }
    }
}

/// Past this depth the build splits ranges of objects evenly.
pub const BVH_MAX_DEPTH: usize = 42;

/// The intermediary tree: its nodes in pre-order, the list of bounds that
/// their bounds ranges index, and the depth of its deepest leaf.
#[derive(Debug)]
pub struct BVHBase<B> {
    pub nodes: Vec<BVHBaseNode>,
    pub bounds: Vec<B>,
    pub depth: usize,
}

/// The larger of two integers.
pub open spec fn max_int(a: int, b: int) -> int {
    if a < b {
        b
    } else {
        a
    }
}

/// The shape of the subtree at node `i`, laid out as the build lays it
/// out over the objects from `offset` on, with at most `per_leaf` objects
/// in a leaf: its number of objects, of nodes, and its depth.  `None` where
/// the nodes are not laid out that way: a leaf holds the next non-empty run
/// of objects, and an internal node, which holds more objects than a leaf
/// may, is followed by its first subtree and then its second.
pub open spec fn subtree_shape(nodes: Seq<BVHBaseNode>, i: int, offset: int, per_leaf: int) -> Option<
    (int, int, int),
>
    decreases nodes.len() - i,
{
    if 0 <= i < nodes.len() {
        match nodes[i] {
            BVHBaseNode::Leaf { object_range, .. } => {
                let len = object_range.1 - object_range.0;
                if object_range.0 == offset && 0 < len <= per_leaf {
                    Some((len, 1, 0))
                } else {
                    None
                }
            },
            BVHBaseNode::Internal { children_indices, .. } => {
                let c1 = children_indices.0 as int;
                let c2 = children_indices.1 as int;
                if c1 == i + 1 && i < c2 < nodes.len() {
                    match subtree_shape(nodes, c1, offset, per_leaf) {
                        Some((k1, n1, d1)) => {
                            if c2 == c1 + n1 {
                                match subtree_shape(nodes, c2, offset + k1, per_leaf) {
                                    Some((k2, n2, d2)) => {
                                        if k1 + k2 > per_leaf {
                                            Some((k1 + k2, 1 + n1 + n2, 1 + max_int(d1, d2)))
                                        } else {
                                            None
                                        }
                                    },
                                    None => None,
                                }
                            } else {
                                None
                            }
                        },
                        None => None,
                    }
                } else {
                    None
                }
            },
        }
    } else {
        None
    }
}

/// Node `j` points only at later nodes, and its bounds range lies within
/// the first `bounds_len` bounds.
pub open spec fn node_wf(nodes: Seq<BVHBaseNode>, j: int, bounds_len: int) -> bool {
    let br = nodes[j].spec_bounds_range();
    &&& br.0 <= br.1 <= bounds_len
    &&& match nodes[j] {
        BVHBaseNode::Internal { children_indices, .. } => j < children_indices.0 < nodes.len() && j
            < children_indices.1 < nodes.len(),
        BVHBaseNode::Leaf { .. } => true,
    }
}

/// Every node from `start` on is well formed.
pub open spec fn nodes_wf_from(nodes: Seq<BVHBaseNode>, start: int, bounds_len: int) -> bool {
    forall|j: int| start <= j < nodes.len() ==> #[trigger] node_wf(nodes, j, bounds_len)
}

/// Well-formed nodes point only at later nodes.
pub proof fn lemma_wf_nodes_point_forward(nodes: Seq<BVHBaseNode>, bounds_len: int)
    requires
        nodes_wf_from(nodes, 0, bounds_len),
    ensures
        base_wf(nodes),
{
    assert forall|i: int| 0 <= i < nodes.len() implies match #[trigger] nodes[i] {
        BVHBaseNode::Internal { children_indices, .. } => i < children_indices.0 < nodes.len() && i
            < children_indices.1 < nodes.len(),
        BVHBaseNode::Leaf { .. } => true,
    } by {
        assert(node_wf(nodes, i, bounds_len));
    }
}

/// The tree as built over `n` objects with at most `per_leaf` objects in a
/// leaf: no nodes for no objects; otherwise the root's subtree takes all
/// nodes and all objects in order, and gives the depth.
pub open spec fn built_over<B>(t: BVHBase<B>, n: int, per_leaf: int) -> bool {
    &&& nodes_wf_from(t.nodes@, 0, t.bounds@.len() as int)
    &&& if n == 0 {
        t.nodes@.len() == 0 && t.bounds@.len() == 0 && t.depth == 0
    } else {
        subtree_shape(t.nodes@, 0, 0, per_leaf) == Some((n, t.nodes@.len() as int, t.depth as int))
    }
}

/// Where nodes `s` and `t` agree from `i` on, a subtree laid out in `s`
/// is laid out the same way in `t`.
pub proof fn lemma_shape_stable(
    s: Seq<BVHBaseNode>,
    t: Seq<BVHBaseNode>,
    i: int,
    offset: int,
    per_leaf: int,
)
    requires
        s.len() <= t.len(),
        forall|j: int| i <= j < s.len() ==> t[j] == s[j],
        subtree_shape(s, i, offset, per_leaf) is Some,
    ensures
        subtree_shape(t, i, offset, per_leaf) == subtree_shape(s, i, offset, per_leaf),
    decreases s.len() - i,
{
    match s[i] {
        BVHBaseNode::Leaf { .. } => {},
        BVHBaseNode::Internal { children_indices, .. } => {
            let c1 = children_indices.0 as int;
            let c2 = children_indices.1 as int;
            assert(c1 == i + 1 && i < c2);
            lemma_shape_stable(s, t, c1, offset, per_leaf);
            let k1 = subtree_shape(s, c1, offset, per_leaf).unwrap().0;
            assert(subtree_shape(s, c2, offset + k1, per_leaf) is Some);
            assert(c2 < s.len());
            lemma_shape_stable(s, t, c2, offset + k1, per_leaf);
        },
    }
}

/// Node `j` is a leaf that holds object `x`.
pub open spec fn leaf_holds(nodes: Seq<BVHBaseNode>, j: int, x: int) -> bool {
    &&& 0 <= j < nodes.len()
    &&& match nodes[j] {
        BVHBaseNode::Leaf { object_range, .. } => object_range.0 <= x < object_range.1,
        BVHBaseNode::Internal { .. } => false,
    }
}

/// One of the nodes `lo..hi` is a leaf that holds object `x`.
pub open spec fn held_in(nodes: Seq<BVHBaseNode>, lo: int, hi: int, x: int) -> bool {
    exists|j: int| lo <= j < hi && #[trigger] leaf_holds(nodes, j, x)
}

/// A laid-out subtree takes the nodes `i..i + m` and its leaves hold the
/// objects `offset..offset + k`, each object in exactly one leaf.
pub proof fn lemma_subtree_leaves(nodes: Seq<BVHBaseNode>, i: int, offset: int, per_leaf: int)
    requires
        subtree_shape(nodes, i, offset, per_leaf) is Some,
    ensures
        ({
            let (k, m, d) = subtree_shape(nodes, i, offset, per_leaf).unwrap();
            &&& 1 <= k
            &&& 1 <= m
            &&& 0 <= d
            &&& i + m <= nodes.len()
            &&& forall|j: int, x: int|
                i <= j < i + m && #[trigger] leaf_holds(nodes, j, x) ==> offset <= x < offset + k
            &&& forall|x: int| offset <= x < offset + k ==> #[trigger] held_in(nodes, i, i + m, x)
            &&& forall|j1: int, j2: int, x: int|
                i <= j1 < i + m && i <= j2 < i + m && #[trigger] leaf_holds(nodes, j1, x)
                    && #[trigger] leaf_holds(nodes, j2, x) ==> j1 == j2
        }),
    decreases nodes.len() - i,
{
    match nodes[i] {
        BVHBaseNode::Leaf { .. } => {
            let k = subtree_shape(nodes, i, offset, per_leaf).unwrap().0;
            assert forall|x: int| offset <= x < offset + k implies #[trigger] held_in(
                nodes,
                i,
                i + 1,
                x,
            ) by {
                assert(leaf_holds(nodes, i, x));
            }
        },
        BVHBaseNode::Internal { children_indices, .. } => {
            let c1 = children_indices.0 as int;
            let c2 = children_indices.1 as int;
            assert(c1 == i + 1 && i < c2 < nodes.len());
            let (k1, n1, d1) = subtree_shape(nodes, c1, offset, per_leaf).unwrap();
            let (k2, n2, d2) = subtree_shape(nodes, c2, offset + k1, per_leaf).unwrap();
            lemma_subtree_leaves(nodes, c1, offset, per_leaf);
            lemma_subtree_leaves(nodes, c2, offset + k1, per_leaf);
            let k = k1 + k2;
            let m = 1 + n1 + n2;
            assert(!leaf_holds(nodes, i, 0));
            assert forall|j: int, x: int| i <= j < i + m && #[trigger] leaf_holds(nodes, j, x) implies offset
                <= x < offset + k by {
                if j == i {
                    assert(!leaf_holds(nodes, i, x));
                }
            }
            assert forall|x: int| offset <= x < offset + k implies #[trigger] held_in(
                nodes,
                i,
                i + m,
                x,
            ) by {
                if x < offset + k1 {
                    assert(held_in(nodes, c1, c1 + n1, x));
                    let j = choose|j: int| c1 <= j < c1 + n1 && #[trigger] leaf_holds(nodes, j, x);
                    assert(i <= j < i + m && leaf_holds(nodes, j, x));
                } else {
                    assert(held_in(nodes, c2, c2 + n2, x));
                    let j = choose|j: int| c2 <= j < c2 + n2 && #[trigger] leaf_holds(nodes, j, x);
                    assert(i <= j < i + m && leaf_holds(nodes, j, x));
                }
            }
            assert forall|j1: int, j2: int, x: int|
                i <= j1 < i + m && i <= j2 < i + m && #[trigger] leaf_holds(nodes, j1, x)
                    && #[trigger] leaf_holds(nodes, j2, x) implies j1 == j2 by {
                if j1 == i {
                    assert(!leaf_holds(nodes, i, x));
                }
                if j2 == i {
                    assert(!leaf_holds(nodes, i, x));
                }
            }
        },
    }
}

/// Each of the objects a tree was built over is held by exactly one leaf.
pub proof fn law_each_object_in_one_leaf<B>(t: BVHBase<B>, n: int, per_leaf: int, x: int)
    requires
        built_over(t, n, per_leaf),
        0 <= x < n,
    ensures
        exists|j: int| leaf_holds(t.nodes@, j, x),
        forall|j1: int, j2: int|
            leaf_holds(t.nodes@, j1, x) && leaf_holds(t.nodes@, j2, x) ==> j1 == j2,
{
    lemma_subtree_leaves(t.nodes@, 0, 0, per_leaf);
    assert(held_in(t.nodes@, 0, t.nodes@.len() as int, x));
    let j = choose|j: int| 0 <= j < t.nodes@.len() && #[trigger] leaf_holds(t.nodes@, j, x);
    assert(leaf_holds(t.nodes@, j, x));
}

/// `leaf_bounds` gives at least one bounds for every range of objects, and
/// `merge_bounds` at least one for any two non-empty lists of bounds.
pub open spec fn nonempty_answers<B, L: Fn(usize, usize) -> Vec<B>, M: Fn(&[B], &[B]) -> Vec<B>>(
    leaf_bounds: L,
    merge_bounds: M,
) -> bool {
    &&& forall|o: usize, l: usize, v: Vec<B>| #[trigger] leaf_bounds.ensures((o, l), v) ==> v@.len() > 0
    &&& forall|a: &[B], b: &[B], v: Vec<B>|
        #[trigger] merge_bounds.ensures((a, b), v) && a@.len() > 0 && b@.len() > 0 ==> v@.len() > 0
}

/// The node's bounds range holds at least one bounds.
pub open spec fn bounds_nonempty(n: BVHBaseNode) -> bool {
    n.spec_bounds_range().0 < n.spec_bounds_range().1
}

/// Nodes `me + 1 ..` built by two subtree builds (the first ending at
/// `s1.len()`), with node `me` then set, are well formed in the joined list,
/// and keep non-empty bounds ranges where both builds gave them.
proof fn lemma_joined_nodes(
    s1: Seq<BVHBaseNode>,
    s2: Seq<BVHBaseNode>,
    s3: Seq<BVHBaseNode>,
    me: int,
    bl1: int,
    bi: int,
    be: int,
    nonempty: bool,
)
    requires
        0 <= me < s1.len() <= s2.len(),
        s2.take(s1.len() as int) == s1,
        s3.len() == s2.len(),
        forall|j: int| 0 <= j < s3.len() && j != me ==> s3[j] == s2[j],
        nodes_wf_from(s1, me + 1, bl1),
        nodes_wf_from(s2, s1.len() as int, bi),
        bl1 <= bi <= be,
        node_wf(s3, me, be),
        nonempty ==> forall|j: int| me + 1 <= j < s1.len() ==> #[trigger] bounds_nonempty(s1[j]),
        nonempty ==> forall|j: int| s1.len() <= j < s2.len() ==> #[trigger] bounds_nonempty(s2[j]),
        nonempty ==> bounds_nonempty(s3[me]),
    ensures
        nodes_wf_from(s3, me, be),
        nonempty ==> forall|j: int| me <= j < s3.len() ==> #[trigger] bounds_nonempty(s3[j]),
{
    assert forall|j: int| me <= j < s3.len() implies #[trigger] node_wf(s3, j, be) by {
        if j == me {
        } else if j < s1.len() {
            assert(node_wf(s1, j, bl1));
            assert(s2.take(s1.len() as int)[j] == s2[j]);
        } else {
            assert(node_wf(s2, j, bi));
        }
    }
    if nonempty {
        assert forall|j: int| me <= j < s3.len() implies #[trigger] bounds_nonempty(s3[j]) by {
            if j == me {
            } else if j < s1.len() {
                assert(bounds_nonempty(s1[j]));
                assert(s2.take(s1.len() as int)[j] == s2[j]);
            } else {
                assert(bounds_nonempty(s2[j]));
            }
        }
    }
}

/// The split index as the splits leave it: at least one object on each
/// side of it.
pub open spec fn clamped_split(raw: int, len: int) -> int {
    if raw < 1 {
        1
    } else if raw >= len {
        len - 1
    } else {
        raw
    }
}

/// Whether a range of `len` objects at `depth` is split evenly: where the
/// depth left below the maximum is no more than the range's base-2
/// logarithm.
pub open spec fn evenly_rule(len: int, depth: int, evenly: bool) -> bool {
    exists|r: u64|
        #[trigger] log2_64_spec(len as u64, r) && evenly == !(depth < BVH_MAX_DEPTH && r
            < BVH_MAX_DEPTH - depth)
}

/// `got` is what `leaf_bounds` may answer for the objects `offset..offset +
/// len`.
pub open spec fn leaf_answer<B, L: Fn(usize, usize) -> Vec<B>>(
    leaf_bounds: L,
    offset: int,
    len: int,
    got: Seq<B>,
) -> bool {
    exists|v: Vec<B>| #[trigger] leaf_bounds.ensures((offset as usize, len as usize), v) && v@ == got
}

/// `split` may answer, for the `len` objects from `offset` on at `depth`,
/// a split index that clamps to `k` and an axis that truncates to `axis`.
pub open spec fn split_answer<S: Fn(usize, usize, bool) -> (usize, usize)>(
    split: S,
    offset: int,
    len: int,
    depth: int,
    k: int,
    axis: u8,
) -> bool {
    exists|raw: usize, a: usize, evenly: bool|
        #[trigger] split.ensures((offset as usize, len as usize, evenly), (raw, a)) && evenly_rule(
            len,
            depth,
            evenly,
        ) && clamped_split(raw as int, len) == k && axis == a as u8
}

/// `got` is what `merge_bounds` may answer for the bounds `b1` and `b2`.
pub open spec fn merge_answer<B, M: Fn(&[B], &[B]) -> Vec<B>>(
    merge_bounds: M,
    b1: Seq<B>,
    b2: Seq<B>,
    got: Seq<B>,
) -> bool {
    exists|a1: &[B], a2: &[B], v: Vec<B>|
        #[trigger] merge_bounds.ensures((a1, a2), v) && a1@ == b1 && a2@ == b2 && v@ == got
}

/// The subtree at node `i`, over the objects from `offset` on at `depth`,
/// holds what the closures answered: each leaf the bounds `leaf_bounds`
/// gave for its objects, each internal node the split `split` chose for
/// its objects and the bounds `merge_bounds` gave for its children's.
pub open spec fn decided_by<B, S, L, M>(
    nodes: Seq<BVHBaseNode>,
    bounds: Seq<B>,
    i: int,
    offset: int,
    depth: int,
    per_leaf: int,
    split: S,
    leaf_bounds: L,
    merge_bounds: M,
) -> bool where
    S: Fn(usize, usize, bool) -> (usize, usize),
    L: Fn(usize, usize) -> Vec<B>,
    M: Fn(&[B], &[B]) -> Vec<B>,

    decreases nodes.len() - i,
{
    if 0 <= i < nodes.len() {
        let br = nodes[i].spec_bounds_range();
        let own = bounds.subrange(br.0 as int, br.1 as int);
        &&& br.0 <= br.1 <= bounds.len()
        &&& match nodes[i] {
            BVHBaseNode::Leaf { object_range, .. } => leaf_answer(
                leaf_bounds,
                offset,
                object_range.1 - object_range.0,
                own,
            ),
            BVHBaseNode::Internal { children_indices, split_axis, .. } => {
                let c1 = children_indices.0 as int;
                let c2 = children_indices.1 as int;
                if c1 == i + 1 && i < c2 < nodes.len() {
                    match subtree_shape(nodes, c1, offset, per_leaf) {
                        Some((k1, n1, d1)) => match subtree_shape(
                            nodes,
                            c2,
                            offset + k1,
                            per_leaf,
                        ) {
                            Some((k2, n2, d2)) => {
                                let br1 = nodes[c1].spec_bounds_range();
                                let br2 = nodes[c2].spec_bounds_range();
                                &&& split_answer(split, offset, k1 + k2, depth, k1, split_axis)
                                &&& br1.0 <= br1.1 <= bounds.len()
                                &&& br2.0 <= br2.1 <= bounds.len()
                                &&& merge_answer(
                                    merge_bounds,
                                    bounds.subrange(br1.0 as int, br1.1 as int),
                                    bounds.subrange(br2.0 as int, br2.1 as int),
                                    own,
                                )
                                &&& decided_by(
                                    nodes,
                                    bounds,
                                    c1,
                                    offset,
                                    depth + 1,
                                    per_leaf,
                                    split,
                                    leaf_bounds,
                                    merge_bounds,
                                )
                                &&& decided_by(
                                    nodes,
                                    bounds,
                                    c2,
                                    offset + k1,
                                    depth + 1,
                                    per_leaf,
                                    split,
                                    leaf_bounds,
                                    merge_bounds,
                                )
                            },
                            None => false,
                        },
                        None => false,
                    }
                } else {
                    false
                }
            },
        }
    } else {
        false
    }
}

/// Where nodes agree from `i` on and bounds only grow, what a subtree's
/// nodes hold stays what the closures answered.
pub proof fn lemma_decided_stable<B, S, L, M>(
    sn: Seq<BVHBaseNode>,
    tn: Seq<BVHBaseNode>,
    sb: Seq<B>,
    tb: Seq<B>,
    i: int,
    offset: int,
    depth: int,
    per_leaf: int,
    split: S,
    leaf_bounds: L,
    merge_bounds: M,
) where
    S: Fn(usize, usize, bool) -> (usize, usize),
    L: Fn(usize, usize) -> Vec<B>,
    M: Fn(&[B], &[B]) -> Vec<B>,

    requires
        sn.len() <= tn.len(),
        forall|j: int| i <= j < sn.len() ==> tn[j] == sn[j],
        sb.len() <= tb.len(),
        forall|j: int| 0 <= j < sb.len() ==> tb[j] == sb[j],
        decided_by(sn, sb, i, offset, depth, per_leaf, split, leaf_bounds, merge_bounds),
    ensures
        decided_by(tn, tb, i, offset, depth, per_leaf, split, leaf_bounds, merge_bounds),
    decreases sn.len() - i,
{
    let br = sn[i].spec_bounds_range();
    assert(tb.subrange(br.0 as int, br.1 as int) =~= sb.subrange(br.0 as int, br.1 as int));
    match sn[i] {
        BVHBaseNode::Leaf { .. } => {},
        BVHBaseNode::Internal { children_indices, .. } => {
            let c1 = children_indices.0 as int;
            let c2 = children_indices.1 as int;
            assert(c1 == i + 1 && i < c2 < sn.len());
            let k1 = subtree_shape(sn, c1, offset, per_leaf).unwrap().0;
            lemma_shape_stable(sn, tn, c1, offset, per_leaf);
            lemma_shape_stable(sn, tn, c2, offset + k1, per_leaf);
            let br1 = sn[c1].spec_bounds_range();
            let br2 = sn[c2].spec_bounds_range();
            assert(tb.subrange(br1.0 as int, br1.1 as int) =~= sb.subrange(br1.0 as int, br1.1 as int));
            assert(tb.subrange(br2.0 as int, br2.1 as int) =~= sb.subrange(br2.0 as int, br2.1 as int));
            lemma_decided_stable(sn, tn, sb, tb, c1, offset, depth + 1, per_leaf, split, leaf_bounds, merge_bounds);
            lemma_decided_stable(sn, tn, sb, tb, c2, offset + k1, depth + 1, per_leaf, split, leaf_bounds, merge_bounds);
        },
    }
}

impl<B: Copy> BVHBase<B> {
    fn new() -> (r: BVHBase<B>)
        ensures
            r.nodes@.len() == 0,
            r.bounds@.len() == 0,
            r.depth == 0,
    {
        BVHBase { nodes: Vec::new(), bounds: Vec::new(), depth: 0 }
    }

    /// Builds the tree over `object_count` objects with at most
    /// `objects_per_leaf` objects in a leaf.
    ///
    /// `split(offset, len, evenly)` splits the objects `offset..offset +
    /// len` in place and returns where, and along which axis; `evenly` asks
    /// for a split at the median rather than by the surface area heuristic.
    /// `leaf_bounds(offset, len)` gives the bounds of a leaf over those
    /// objects, and `merge_bounds(a, b)` those of a node from the bounds of
    /// its two children.
    pub fn from_objects<S, L, M>(
        object_count: usize,
        objects_per_leaf: usize,
        split: &S,
        leaf_bounds: &L,
        merge_bounds: &M,
    ) -> (r: BVHBase<B>) where
        S: Fn(usize, usize, bool) -> (usize, usize),
        L: Fn(usize, usize) -> Vec<B>,
        M: Fn(&[B], &[B]) -> Vec<B>,

        requires
            objects_per_leaf > 0,
            object_count < usize::MAX,
            forall|o: usize, l: usize, e: bool| #[trigger] split.requires((o, l, e)),
            forall|o: usize, l: usize| #[trigger] leaf_bounds.requires((o, l)),
            forall|a: &[B], b: &[B]| #[trigger] merge_bounds.requires((a, b)),
        ensures
            built_over(r, object_count as int, objects_per_leaf as int),
            base_wf(r.nodes@),
            nonempty_answers(*leaf_bounds, *merge_bounds) ==> forall|j: int|
                0 <= j < r.nodes@.len() ==> #[trigger] bounds_nonempty(r.nodes@[j]),
            object_count > 0 ==> decided_by(
                r.nodes@,
                r.bounds@,
                0,
                0,
                0,
                objects_per_leaf as int,
                *split,
                *leaf_bounds,
                *merge_bounds,
            ),
    {
        let mut bvh = BVHBase::new();
        bvh.recursive_build(
            0,
            0,
            objects_per_leaf,
            object_count,
            object_count,
            split,
            leaf_bounds,
            merge_bounds,
        );
        proof {
            lemma_wf_nodes_point_forward(bvh.nodes@, bvh.bounds@.len() as int);
        }
        bvh
    }

    /// The index of the root node.
    pub fn root_node_index(&self) -> (r: usize)
        ensures
            r == 0,
    {
        0
    }

    fn push_bounds(&mut self, new_bounds: &Vec<B>)
        ensures
            final(self).bounds@ == old(self).bounds@ + new_bounds@,
            final(self).nodes == old(self).nodes,
            final(self).depth == old(self).depth,
    {
        let ghost start = self.bounds@;
        let mut k: usize = 0;
        while k < new_bounds.len()
            invariant
                k <= new_bounds@.len(),
                self.bounds@ == start + new_bounds@.take(k as int),
                self.nodes == old(self).nodes,
                self.depth == old(self).depth,
            decreases new_bounds@.len() - k,
        {
            self.bounds.push(new_bounds[k]);
            k = k + 1;
            proof {
                assert(new_bounds@.take(k as int) =~= new_bounds@.take(k - 1).push(new_bounds@[k - 1]));
            }
        }
        proof {
            assert(new_bounds@.take(k as int) =~= new_bounds@);
        }
    }

    /// Builds the subtree over the `len` objects from `offset` on, at
    /// `depth`, and returns its root's index and bounds range; `(0, (0, 0))`
    /// and nothing built for no objects.
    #[verifier::rlimit(60)]
    fn recursive_build<S, L, M>(
        &mut self,
        offset: usize,
        depth: usize,
        objects_per_leaf: usize,
        len: usize,
        object_count: usize,
        split: &S,
        leaf_bounds: &L,
        merge_bounds: &M,
    ) -> (r: (usize, (usize, usize))) where
        S: Fn(usize, usize, bool) -> (usize, usize),
        L: Fn(usize, usize) -> Vec<B>,
        M: Fn(&[B], &[B]) -> Vec<B>,

        requires
            objects_per_leaf > 0,
            offset + len <= object_count,
            depth + len < usize::MAX,
            forall|o: usize, l: usize, e: bool| #[trigger] split.requires((o, l, e)),
            forall|o: usize, l: usize| #[trigger] leaf_bounds.requires((o, l)),
            forall|a: &[B], b: &[B]| #[trigger] merge_bounds.requires((a, b)),
        ensures
            final(self).nodes@.len() >= old(self).nodes@.len(),
            final(self).nodes@.take(old(self).nodes@.len() as int) == old(self).nodes@,
            final(self).bounds@.len() >= old(self).bounds@.len(),
            final(self).bounds@.take(old(self).bounds@.len() as int) == old(self).bounds@,
            len == 0 ==> r == (0usize, (0usize, 0usize)) && final(self).nodes@ == old(self).nodes@
                && final(self).bounds@ == old(self).bounds@ && final(self).depth == old(self).depth,
            nonempty_answers(*leaf_bounds, *merge_bounds) ==> forall|j: int|
                old(self).nodes@.len() <= j < final(self).nodes@.len() ==> #[trigger] bounds_nonempty(
                    final(self).nodes@[j],
                ),
            len > 0 ==> {
                let sh = subtree_shape(
                    final(self).nodes@,
                    r.0 as int,
                    offset as int,
                    objects_per_leaf as int,
                );
                &&& r.0 == old(self).nodes@.len()
                &&& old(self).bounds@.len() <= r.1.0 <= r.1.1
                &&& r.1.1 == final(self).bounds@.len()
                &&& sh is Some
                &&& sh.unwrap().0 == len
                &&& sh.unwrap().2 >= 0
                &&& final(self).nodes@.len() == old(self).nodes@.len() + sh.unwrap().1
                &&& final(self).depth == max_int(old(self).depth as int, depth + sh.unwrap().2)
                &&& r.1 == final(self).nodes@[r.0 as int].spec_bounds_range()
                &&& nodes_wf_from(
                    final(self).nodes@,
                    old(self).nodes@.len() as int,
                    final(self).bounds@.len() as int,
                )
                &&& decided_by(
                    final(self).nodes@,
                    final(self).bounds@,
                    r.0 as int,
                    offset as int,
                    depth as int,
                    objects_per_leaf as int,
                    *split,
                    *leaf_bounds,
                    *merge_bounds,
                )
            },
        decreases len, 1int,
    {
        let me = self.nodes.len();
        if len == 0 {
            return (0, (0, 0));
        } else if len <= objects_per_leaf {
            let bi = self.bounds.len();
            let leaf = leaf_bounds(offset, len);
            self.push_bounds(&leaf);
            let be = self.bounds.len();
            self.nodes.push(
                BVHBaseNode::Leaf { bounds_range: (bi, be), object_range: (offset, offset + len) },
            );
            if self.depth < depth {
                self.depth = depth;
            }
            proof {
                assert(self.nodes@.take(me as int) =~= old(self).nodes@);
                assert(self.bounds@.take(bi as int) =~= old(self).bounds@);
                assert(node_wf(self.nodes@, me as int, be as int));
                assert(self.bounds@.subrange(bi as int, be as int) =~= leaf@);
                assert(leaf_bounds.ensures(((offset as int) as usize, (len as int) as usize), leaf));
                assert(leaf_answer(*leaf_bounds, offset as int, len as int, leaf@));
                assert(bounds_nonempty(self.nodes@[me as int]) <== nonempty_answers(
                    *leaf_bounds,
                    *merge_bounds,
                ));
            }
            return (me, (bi, be));
        } else {
            self.build_internal(
                offset,
                depth,
                objects_per_leaf,
                len,
                object_count,
                split,
                leaf_bounds,
                merge_bounds,
            )
        }
    }

    /// The internal node over the `len` objects from `offset` on, more than
    /// a leaf holds, at `depth`: split, with both subtrees built.
    #[verifier::rlimit(100)]
    #[verifier::spinoff_prover]
    fn build_internal<S, L, M>(
        &mut self,
        offset: usize,
        depth: usize,
        objects_per_leaf: usize,
        len: usize,
        object_count: usize,
        split: &S,
        leaf_bounds: &L,
        merge_bounds: &M,
    ) -> (r: (usize, (usize, usize))) where
        S: Fn(usize, usize, bool) -> (usize, usize),
        L: Fn(usize, usize) -> Vec<B>,
        M: Fn(&[B], &[B]) -> Vec<B>,

        requires
            objects_per_leaf > 0,
            len > objects_per_leaf,
            offset + len <= object_count,
            depth + len < usize::MAX,
            forall|o: usize, l: usize, e: bool| #[trigger] split.requires((o, l, e)),
            forall|o: usize, l: usize| #[trigger] leaf_bounds.requires((o, l)),
            forall|a: &[B], b: &[B]| #[trigger] merge_bounds.requires((a, b)),
        ensures
            final(self).nodes@.len() >= old(self).nodes@.len(),
            final(self).nodes@.take(old(self).nodes@.len() as int) == old(self).nodes@,
            final(self).bounds@.len() >= old(self).bounds@.len(),
            final(self).bounds@.take(old(self).bounds@.len() as int) == old(self).bounds@,
            len == 0 ==> r == (0usize, (0usize, 0usize)) && final(self).nodes@ == old(self).nodes@
                && final(self).bounds@ == old(self).bounds@ && final(self).depth == old(self).depth,
            nonempty_answers(*leaf_bounds, *merge_bounds) ==> forall|j: int|
                old(self).nodes@.len() <= j < final(self).nodes@.len() ==> #[trigger] bounds_nonempty(
                    final(self).nodes@[j],
                ),
            len > 0 ==> {
                let sh = subtree_shape(
                    final(self).nodes@,
                    r.0 as int,
                    offset as int,
                    objects_per_leaf as int,
                );
                &&& r.0 == old(self).nodes@.len()
                &&& old(self).bounds@.len() <= r.1.0 <= r.1.1
                &&& r.1.1 == final(self).bounds@.len()
                &&& sh is Some
                &&& sh.unwrap().0 == len
                &&& sh.unwrap().2 >= 0
                &&& final(self).nodes@.len() == old(self).nodes@.len() + sh.unwrap().1
                &&& final(self).depth == max_int(old(self).depth as int, depth + sh.unwrap().2)
                &&& r.1 == final(self).nodes@[r.0 as int].spec_bounds_range()
                &&& nodes_wf_from(
                    final(self).nodes@,
                    old(self).nodes@.len() as int,
                    final(self).bounds@.len() as int,
                )
                &&& decided_by(
                    final(self).nodes@,
                    final(self).bounds@,
                    r.0 as int,
                    offset as int,
                    depth as int,
                    objects_per_leaf as int,
                    *split,
                    *leaf_bounds,
                    *merge_bounds,
                )
            },
        decreases len, 0int,
    {
        let me = self.nodes.len();
            self.nodes.push(
            BVHBaseNode::Internal {
                bounds_range: (0, 0),
                children_indices: (0, 0),
                split_axis: 0,
            },
        );
        let log2_len = log2_64(len as u64);
        let evenly = !(depth < BVH_MAX_DEPTH && (log2_len as usize) < BVH_MAX_DEPTH - depth);
        let (raw_index, axis) = split(offset, len, evenly);
        let split_index = if raw_index < 1 {
            1
        } else if raw_index >= len {
            len - 1
        } else {
            raw_index
        };
        let ghost s0 = self.nodes@;
        let ghost b0 = self.bounds@;
        let (c1_index, c1_bounds) = self.recursive_build(
            offset,
            depth + 1,
            objects_per_leaf,
            split_index,
            object_count,
            split,
            leaf_bounds,
            merge_bounds,
        );
        let ghost s1 = self.nodes@;
        let ghost b1 = self.bounds@;
        let (c2_index, c2_bounds) = self.recursive_build(
            offset + split_index,
            depth + 1,
            objects_per_leaf,
            len - split_index,
            object_count,
            split,
            leaf_bounds,
            merge_bounds,
        );
        let ghost s2 = self.nodes@;
        let ghost b2 = self.bounds@;
        proof {
            assert(s1[c1_index as int] == s2[c1_index as int]) by {
                assert(s2.take(s1.len() as int)[c1_index as int] == s2[c1_index as int]);
            }
            assert(node_wf(s1, c1_index as int, b1.len() as int));
            assert(node_wf(s2, c2_index as int, self.bounds@.len() as int));
        }
        let bi = self.bounds.len();
        let merged = {
            let all = self.bounds.as_slice();
            let a = slice_subrange(all, c1_bounds.0, c1_bounds.1);
            let b = slice_subrange(all, c2_bounds.0, c2_bounds.1);
            let v = merge_bounds(a, b);
            proof {
                if nonempty_answers(*leaf_bounds, *merge_bounds) {
                    assert(bounds_nonempty(s1[c1_index as int]));
                    assert(bounds_nonempty(s2[c2_index as int]));
                    assert(v@.len() > 0);
                }
                assert(merge_answer(
                    *merge_bounds,
                    b2.subrange(c1_bounds.0 as int, c1_bounds.1 as int),
                    b2.subrange(c2_bounds.0 as int, c2_bounds.1 as int),
                    v@,
                ));
            }
            v
        };
        self.push_bounds(&merged);
        let be = self.bounds.len();
        self.nodes.set(
            me,
            BVHBaseNode::Internal {
                bounds_range: (bi, be),
                children_indices: (c1_index, c2_index),
                split_axis: axis as u8,
            },
        );
        proof {
            let p = objects_per_leaf as int;
            let s3 = self.nodes@;
            let sh1 = subtree_shape(s1, c1_index as int, offset as int, p).unwrap();
            let sh2 = subtree_shape(s2, c2_index as int, offset + split_index, p).unwrap();
            assert forall|j: int| c1_index <= j < s1.len() implies s3[j] == s1[j] by {
                assert(s2.take(s1.len() as int)[j] == s2[j]);
            }
            lemma_shape_stable(s1, s3, c1_index as int, offset as int, p);
            lemma_shape_stable(s2, s3, c2_index as int, offset + split_index, p);
            let b3 = self.bounds@;
            assert forall|j: int| 0 <= j < b1.len() implies b3[j] == b1[j] by {
                assert(b2.take(b1.len() as int)[j] == b2[j]);
            }
            assert forall|j: int| 0 <= j < b2.len() implies b3[j] == b2[j] by {}
            lemma_decided_stable(
                s1,
                s3,
                b1,
                b3,
                c1_index as int,
                offset as int,
                depth + 1,
                p,
                *split,
                *leaf_bounds,
                *merge_bounds,
            );
            lemma_decided_stable(
                s2,
                s3,
                b2,
                b3,
                c2_index as int,
                offset + split_index,
                depth + 1,
                p,
                *split,
                *leaf_bounds,
                *merge_bounds,
            );
            assert(b3.subrange(c1_bounds.0 as int, c1_bounds.1 as int) =~= b2.subrange(
                c1_bounds.0 as int,
                c1_bounds.1 as int,
            ));
            assert(b3.subrange(c2_bounds.0 as int, c2_bounds.1 as int) =~= b2.subrange(
                c2_bounds.0 as int,
                c2_bounds.1 as int,
            ));
            assert(b3.subrange(bi as int, be as int) =~= merged@);
            assert(evenly_rule(len as int, depth as int, evenly));
            assert(split_answer(
                *split,
                offset as int,
                len as int,
                depth as int,
                split_index as int,
                axis as u8,
            ));
            assert(subtree_shape(s3, me as int, offset as int, p) == Some(
                (len as int, 1 + sh1.1 + sh2.1, 1 + max_int(sh1.2, sh2.2)),
            ));
            assert(self.nodes@.take(me as int) =~= old(self).nodes@) by {
                assert(s1.take(s0.len() as int) == s0);
                assert(s2.take(s1.len() as int) == s1);
                assert forall|j: int| 0 <= j < me implies s3[j] == old(self).nodes@[j] by {
                    assert(s0[j] == old(self).nodes@[j]);
                    assert(s1.take(s0.len() as int)[j] == s1[j]);
                    assert(s2.take(s1.len() as int)[j] == s2[j]);
                }
            }
            assert(self.bounds@.take(old(self).bounds@.len() as int) =~= old(self).bounds@) by {
                assert forall|j: int| 0 <= j < old(self).bounds@.len() implies self.bounds@[j]
                    == old(self).bounds@[j] by {
                    assert(b1.take(b0.len() as int)[j] == b1[j]);
                    assert(self.bounds@[j] == b1[j]) by {
                        assert(bi >= b1.len());
                    }
                }
            }
            lemma_joined_nodes(
                s1,
                s2,
                s3,
                me as int,
                b1.len() as int,
                bi as int,
                be as int,
                nonempty_answers(*leaf_bounds, *merge_bounds),
            );
        }
        return (me, (bi, be));
    }
}

} // verus!
