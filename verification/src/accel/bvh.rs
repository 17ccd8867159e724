//! The binary bounding volume hierarchy: the intermediary tree, built, and
//! turned into a tree of nodes that own their bounds and children.
use vstd::prelude::*;
use crate::accel::bvh4::base_wf;
use crate::accel::bvh_base::{
    built_over, decided_by, lemma_wf_nodes_point_forward, node_wf, nodes_wf_from, BVHBase,
    BVHBaseNode,
};
use crate::accel::light_tree::copy_bounds;

verus! {

/// A node of the binary tree: an internal node with its bounds (one entry
/// per time sample), its two children and its split axis; or a leaf with
/// its bounds and its range of objects.
#[derive(Debug)]
pub enum BVHNode<B> {
    Internal { bounds: Vec<B>, children: (Box<BVHNode<B>>, Box<BVHNode<B>>), split_axis: u8 },
    Leaf { bounds: Vec<B>, object_range: (usize, usize) },
}

/// Node `n` is the one made from node `idx` of the intermediary tree: of
/// the same kind, with the same bounds, objects or split axis, and with
/// children made from its children.
pub open spec fn bvh_mirrors<B>(n: BVHNode<B>, nodes: Seq<BVHBaseNode>, bounds: Seq<B>, idx: int) -> bool
    decreases nodes.len() - idx,
{
    if 0 <= idx < nodes.len() {
        match nodes[idx] {
            BVHBaseNode::Leaf { bounds_range, object_range } => n matches BVHNode::Leaf {
                bounds: b,
                object_range: r,
            } && r == object_range && b@ == bounds.subrange(
                bounds_range.0 as int,
                bounds_range.1 as int,
            ),
            BVHBaseNode::Internal { bounds_range, children_indices, split_axis } => {
                let c1 = children_indices.0 as int;
                let c2 = children_indices.1 as int;
                match n {
                    BVHNode::Internal { bounds: b, children, split_axis: a } => {
                        &&& a == split_axis
                        &&& b@ == bounds.subrange(bounds_range.0 as int, bounds_range.1 as int)
                        &&& idx < c1 < nodes.len()
                        &&& idx < c2 < nodes.len()
                        &&& bvh_mirrors(*children.0, nodes, bounds, c1)
                        &&& bvh_mirrors(*children.1, nodes, bounds, c2)
                    },
                    BVHNode::Leaf { .. } => false,
                }
            },
        }
    } else {
        false
    }
}

/// Makes the node from node `node_index` of the intermediary tree.
fn construct_from_base<B: Copy>(base: &BVHBase<B>, node_index: usize) -> (r: BVHNode<B>)
    requires
        base_wf(base.nodes@),
        nodes_wf_from(base.nodes@, 0, base.bounds@.len() as int),
        node_index < base.nodes@.len(),
    ensures
        bvh_mirrors(r, base.nodes@, base.bounds@, node_index as int),
    decreases base.nodes@.len() - node_index,
{
    proof {
        assert(node_wf(base.nodes@, node_index as int, base.bounds@.len() as int));
    }
    match base.nodes[node_index] {
        BVHBaseNode::Leaf { bounds_range, object_range } => {
            let bounds = copy_bounds(&base.bounds, bounds_range);
            BVHNode::Leaf { bounds, object_range }
        },
        BVHBaseNode::Internal { bounds_range, children_indices, split_axis } => {
            let bounds = copy_bounds(&base.bounds, bounds_range);
            let child1 = construct_from_base(base, children_indices.0);
            let child2 = construct_from_base(base, children_indices.1);
            BVHNode::Internal {
                bounds,
                children: (Box::new(child1), Box::new(child2)),
                split_axis,
            }
        },
    }
}

/// A binary bounding volume hierarchy over a list of objects: its root,
/// none for no objects, the depth of its deepest leaf, and (for contracts)
/// the intermediary tree it was made from.
pub struct BVH<B> {
    pub root: Option<BVHNode<B>>,
    pub depth: usize,
    pub base: Ghost<BVHBase<B>>,
}

impl<B: Copy> BVH<B> {
    /// An empty tree: no root, depth zero, made from no nodes.
    pub fn new_empty() -> (r: BVH<B>)
        ensures
            r.root is None,
            r.depth == 0,
            r.base@.nodes@.len() == 0,
            r.base@.bounds@.len() == 0,
            r.base@.depth == 0,
    {
        let empty: BVHBase<B> = BVHBase { nodes: Vec::new(), bounds: Vec::new(), depth: 0 };
        BVH { root: None, depth: 0, base: Ghost(empty) }
    }

    /// Builds the tree over `object_count` objects, with at most
    /// `objects_per_leaf` objects in a leaf, and with `split`,
    /// `leaf_bounds` and `merge_bounds` as in `BVHBase::from_objects`.
    pub fn from_objects<S, L, M>(
        object_count: usize,
        objects_per_leaf: usize,
        split: &S,
        leaf_bounds: &L,
        merge_bounds: &M,
    ) -> (r: BVH<B>) where
        S: Fn(usize, usize, bool) -> (usize, usize),
        L: Fn(usize, usize) -> Vec<B>,
        M: Fn(&[B], &[B]) -> Vec<B>,

        requires
            objects_per_leaf > 0,
            object_count < usize::MAX,
            forall|o: usize, l: usize, e: bool| #[trigger] split.requires((o, l, e)),
            forall|o: usize, l: usize| #[trigger] leaf_bounds.requires((o, l)),
            forall|a: &[B], b: &[B]| #[trigger] merge_bounds.requires((a, b)),
        ensures
            object_count == 0 ==> r.root is None && r.depth == 0,
            object_count > 0 ==> {
                let b = r.base@;
                &&& built_over(b, object_count as int, objects_per_leaf as int)
                &&& decided_by(
                    b.nodes@,
                    b.bounds@,
                    0,
                    0,
                    0,
                    objects_per_leaf as int,
                    *split,
                    *leaf_bounds,
                    *merge_bounds,
                )
                &&& r.root matches Some(root) && bvh_mirrors(root, b.nodes@, b.bounds@, 0)
                &&& r.depth == b.depth
            },
    {
        if object_count == 0 {
            BVH::new_empty()
        } else {
            let base = BVHBase::from_objects(
                object_count,
                objects_per_leaf,
                split,
                leaf_bounds,
                merge_bounds,
            );
            proof {
                lemma_wf_nodes_point_forward(base.nodes@, base.bounds@.len() as int);
            }
            let root = construct_from_base(&base, base.root_node_index());
            let depth = base.depth;
            BVH { root: Some(root), depth, base: Ghost(base) }
        }
    }

    /// The depth of the tree's deepest leaf.
    pub fn tree_depth(&self) -> (r: usize)
        ensures
            r == self.depth,
    {
        self.depth
    }
}

} // verus!
