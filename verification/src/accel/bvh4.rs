//! How a binary bounding volume hierarchy collapses into a four-way one:
//! which nodes become the children of each four-way node, which split
//! axes go with them, how many nodes the four-way tree has, and the
//! four-way tree itself.  Its bounds, which need the geometry, come from
//! the caller's closure.
use vstd::prelude::*;
use crate::accel::bvh_base::{
    built_over, decided_by, lemma_wf_nodes_point_forward, nodes_wf_from, node_wf, subtree_shape,
    BVHBase, BVHBaseNode,
};

verus! {

/// The split axes of a four-way node: those of the binary node and, where
/// they are internal, of its two children.
#[derive(Copy, Clone, Debug, PartialEq, Eq)]
pub enum SplitAxes {
    Full((u8, u8, u8)),
    Left((u8, u8)),
    Right((u8, u8)),
    TopOnly(u8),
}

/// Every internal node's children come after it in the list.
pub open spec fn base_wf(nodes: Seq<BVHBaseNode>) -> bool {
    forall|i: int|
        0 <= i < nodes.len() ==> match #[trigger] nodes[i] {
            BVHBaseNode::Internal { children_indices, .. } => i < children_indices.0 < nodes.len()
                && i < children_indices.1 < nodes.len(),
            BVHBaseNode::Leaf { .. } => true,
        }
}

/// The children of the four-way node made from the internal node `idx`,
/// and its split axes: the grandchildren under each internal child, in
/// order, and each leaf child itself.
pub open spec fn collapse_spec(nodes: Seq<BVHBaseNode>, idx: int) -> (Seq<usize>, SplitAxes) {
    match nodes[idx] {
        BVHBaseNode::Internal { children_indices: (l, r), split_axis, .. } => match (
            nodes[l as int],
            nodes[r as int],
        ) {
            (
                BVHBaseNode::Internal { children_indices: il, split_axis: sl, .. },
                BVHBaseNode::Internal { children_indices: ir, split_axis: sr, .. },
            ) => (seq![il.0, il.1, ir.0, ir.1], SplitAxes::Full((split_axis, sl, sr))),
            (BVHBaseNode::Internal { children_indices: il, split_axis: sl, .. }, _) => (
                seq![il.0, il.1, r],
                SplitAxes::Left((split_axis, sl)),
            ),
            (_, BVHBaseNode::Internal { children_indices: ir, split_axis: sr, .. }) => (
                seq![l, ir.0, ir.1],
                SplitAxes::Right((split_axis, sr)),
            ),
            _ => (seq![l, r], SplitAxes::TopOnly(split_axis)),
        },
        BVHBaseNode::Leaf { .. } => (Seq::empty(), SplitAxes::TopOnly(0)),
    }
}

/// The children of the four-way node made from the internal node
/// `node_index`, and its split axes.
pub fn collapse_children(nodes: &[BVHBaseNode], node_index: usize) -> (r: (Vec<usize>, SplitAxes))
    requires
        base_wf(nodes@),
        node_index < nodes@.len(),
        nodes@[node_index as int] is Internal,
    ensures
        (r.0@, r.1) == collapse_spec(nodes@, node_index as int),
        2 <= r.0@.len() <= 4,
        forall|k: int| 0 <= k < r.0@.len() ==> node_index < #[trigger] r.0@[k] < nodes@.len(),
{
    let ghost n = nodes@;
    assert(match n[node_index as int] {
        BVHBaseNode::Internal { children_indices, .. } => node_index < children_indices.0
            < n.len() && node_index < children_indices.1 < n.len(),
        BVHBaseNode::Leaf { .. } => true,
    });
    match nodes[node_index] {
        BVHBaseNode::Internal { children_indices: (l, r), split_axis, .. } => {
            assert(match n[l as int] {
                BVHBaseNode::Internal { children_indices, .. } => l < children_indices.0 < n.len()
                    && l < children_indices.1 < n.len(),
                BVHBaseNode::Leaf { .. } => true,
            });
            assert(match n[r as int] {
                BVHBaseNode::Internal { children_indices, .. } => r < children_indices.0 < n.len()
                    && r < children_indices.1 < n.len(),
                BVHBaseNode::Leaf { .. } => true,
            });
            let children: Vec<usize>;
            let split: SplitAxes;
            match nodes[l] {
                BVHBaseNode::Internal { children_indices: il, split_axis: sl, .. } => {
                    match nodes[r] {
                        BVHBaseNode::Internal { children_indices: ir, split_axis: sr, .. } => {
                            children = vec![il.0, il.1, ir.0, ir.1];
                            split = SplitAxes::Full((split_axis, sl, sr));
                        },
                        BVHBaseNode::Leaf { .. } => {
                            children = vec![il.0, il.1, r];
                            split = SplitAxes::Left((split_axis, sl));
                        },
                    }
                },
                BVHBaseNode::Leaf { .. } => {
                    match nodes[r] {
                        BVHBaseNode::Internal { children_indices: ir, split_axis: sr, .. } => {
                            children = vec![l, ir.0, ir.1];
                            split = SplitAxes::Right((split_axis, sr));
                        },
                        BVHBaseNode::Leaf { .. } => {
                            children = vec![l, r];
                            split = SplitAxes::TopOnly(split_axis);
                        },
                    }
                },
            }
            proof {
                assert(children@ =~= collapse_spec(n, node_index as int).0);
            }
            (children, split)
        },
        BVHBaseNode::Leaf { .. } => vstd::pervasive::unreached(),
    }
}

/// The number of nodes of the four-way tree made from node `idx`: one for
/// a leaf; for an internal node, its children and the nodes under them.
pub open spec fn bvh4_count(nodes: Seq<BVHBaseNode>, idx: int) -> int
    decreases nodes.len() - idx,
{
    if 0 <= idx < nodes.len() {
        match nodes[idx] {
            BVHBaseNode::Leaf { .. } => 1,
            BVHBaseNode::Internal { .. } => {
                let c = collapse_spec(nodes, idx).0;
                c.len() + sub_count(nodes, idx, c, 0) + sub_count(nodes, idx, c, 1) + sub_count(
                    nodes,
                    idx,
                    c,
                    2,
                ) + sub_count(nodes, idx, c, 3)
            },
        }
    } else {
        0
    }
}

/// The count of the four-way tree under child `k` of `c`, the children of
/// node `idx`; zero where there is no such child.
pub open spec fn sub_count(nodes: Seq<BVHBaseNode>, idx: int, c: Seq<usize>, k: int) -> int
    decreases nodes.len() - idx, 0int,
{
    if 0 <= k < c.len() && idx < c[k] < nodes.len() {
        bvh4_count(nodes, c[k] as int)
    } else {
        0
    }
}

proof fn lemma_count_positive(nodes: Seq<BVHBaseNode>, idx: int)
    requires
        base_wf(nodes),
        0 <= idx < nodes.len(),
    ensures
        bvh4_count(nodes, idx) >= 1,
    decreases nodes.len() - idx,
{
    match nodes[idx] {
        BVHBaseNode::Leaf { .. } => {},
        BVHBaseNode::Internal { .. } => {
            let c = collapse_spec(nodes, idx).0;
            assert(c.len() >= 2);
            assert forall|k: int| 0 <= k < 4 implies sub_count(nodes, idx, c, k) >= 0 by {
                if 0 <= k < c.len() && idx < c[k] < nodes.len() {
                    lemma_count_positive(nodes, c[k] as int);
                }
            }
            assert(bvh4_count(nodes, idx) == c.len() + sub_count(nodes, idx, c, 0) + sub_count(
                nodes,
                idx,
                c,
                1,
            ) + sub_count(nodes, idx, c, 2) + sub_count(nodes, idx, c, 3));
        },
    }
}

/// A laid-out subtree over `k` objects has at most `2 * k - 1` nodes.
pub proof fn lemma_subtree_size(nodes: Seq<BVHBaseNode>, i: int, offset: int, per_leaf: int)
    requires
        subtree_shape(nodes, i, offset, per_leaf) is Some,
    ensures
        subtree_shape(nodes, i, offset, per_leaf).unwrap().1 <= 2 * subtree_shape(
            nodes,
            i,
            offset,
            per_leaf,
        ).unwrap().0 - 1,
        subtree_shape(nodes, i, offset, per_leaf).unwrap().1 >= 1,
    decreases nodes.len() - i,
{
    match nodes[i] {
        BVHBaseNode::Leaf { .. } => {},
        BVHBaseNode::Internal { children_indices, .. } => {
            let c1 = children_indices.0 as int;
            let c2 = children_indices.1 as int;
            assert(c1 == i + 1 && i < c2 < nodes.len());
            let k1 = subtree_shape(nodes, c1, offset, per_leaf).unwrap().0;
            lemma_subtree_size(nodes, c1, offset, per_leaf);
            lemma_subtree_size(nodes, c2, offset + k1, per_leaf);
        },
    }
}

/// The four-way tree made from a laid-out subtree of `m` nodes counts at
/// most `2 * m` nodes.
pub proof fn lemma_count_bound(nodes: Seq<BVHBaseNode>, i: int, offset: int, per_leaf: int)
    requires
        subtree_shape(nodes, i, offset, per_leaf) is Some,
    ensures
        bvh4_count(nodes, i) <= 2 * subtree_shape(nodes, i, offset, per_leaf).unwrap().1,
    decreases nodes.len() - i,
{
    match nodes[i] {
        BVHBaseNode::Leaf { .. } => {},
        BVHBaseNode::Internal { children_indices, .. } => {
            let l = children_indices.0 as int;
            let r = children_indices.1 as int;
            assert(l == i + 1 && i < r < nodes.len());
            let (k1, n1, d1) = subtree_shape(nodes, l, offset, per_leaf).unwrap();
            let (k2, n2, d2) = subtree_shape(nodes, r, offset + k1, per_leaf).unwrap();
            let c = collapse_spec(nodes, i).0;
            match nodes[l] {
                BVHBaseNode::Internal { children_indices: il, .. } => {
                    assert(il.0 == l + 1 && l < il.1 < nodes.len());
                    let ka = subtree_shape(nodes, il.0 as int, offset, per_leaf).unwrap().0;
                    lemma_count_bound(nodes, il.0 as int, offset, per_leaf);
                    lemma_count_bound(nodes, il.1 as int, offset + ka, per_leaf);
                },
                BVHBaseNode::Leaf { .. } => {
                    lemma_count_bound(nodes, l, offset, per_leaf);
                },
            }
            match nodes[r] {
                BVHBaseNode::Internal { children_indices: ir, .. } => {
                    assert(ir.0 == r + 1 && r < ir.1 < nodes.len());
                    let kb = subtree_shape(nodes, ir.0 as int, offset + k1, per_leaf).unwrap().0;
                    lemma_count_bound(nodes, ir.0 as int, offset + k1, per_leaf);
                    lemma_count_bound(nodes, ir.1 as int, offset + k1 + kb, per_leaf);
                },
                BVHBaseNode::Leaf { .. } => {
                    lemma_count_bound(nodes, r, offset + k1, per_leaf);
                },
            }
            assert forall|k: int| c.len() <= k < 4 implies sub_count(nodes, i, c, k) == 0 by {}
        },
    }
}

/// The number of nodes of the four-way tree made from node `node_index`.
pub fn bvh4_node_count(nodes: &[BVHBaseNode], node_index: usize) -> (r: usize)
    requires
        base_wf(nodes@),
        node_index < nodes@.len(),
        bvh4_count(nodes@, node_index as int) <= usize::MAX,
    ensures
        r == bvh4_count(nodes@, node_index as int),
    decreases nodes@.len() - node_index,
{
    match nodes[node_index] {
        BVHBaseNode::Leaf { .. } => 1,
        BVHBaseNode::Internal { .. } => {
            let (children, _) = collapse_children(nodes, node_index);
            let ghost c = children@;
            proof {
                assert forall|k: int| 0 <= k < 4 implies sub_count(nodes@, node_index as int, c, k)
                    >= 0 by {
                    if 0 <= k < c.len() {
                        lemma_count_positive(nodes@, c[k] as int);
                    }
                }
            }
            let mut count = children.len();
            let mut k: usize = 0;
            while k < children.len()
                invariant
                    children@ == c,
                    c == collapse_spec(nodes@, node_index as int).0,
                    2 <= c.len() <= 4,
                    forall|j: int| 0 <= j < c.len() ==> node_index < #[trigger] c[j] < nodes@.len(),
                    base_wf(nodes@),
                    k <= c.len(),
                    forall|j: int| 0 <= j < 4 ==> sub_count(nodes@, node_index as int, c, j) >= 0,
                    bvh4_count(nodes@, node_index as int) <= usize::MAX,
                    bvh4_count(nodes@, node_index as int) == c.len() + sub_count(
                        nodes@,
                        node_index as int,
                        c,
                        0,
                    ) + sub_count(nodes@, node_index as int, c, 1) + sub_count(
                        nodes@,
                        node_index as int,
                        c,
                        2,
                    ) + sub_count(nodes@, node_index as int, c, 3),
                    count == c.len() + (if k > 0 {
                        sub_count(nodes@, node_index as int, c, 0)
                    } else {
                        0
                    }) + (if k > 1 {
                        sub_count(nodes@, node_index as int, c, 1)
                    } else {
                        0
                    }) + (if k > 2 {
                        sub_count(nodes@, node_index as int, c, 2)
                    } else {
                        0
                    }) + (if k > 3 {
                        sub_count(nodes@, node_index as int, c, 3)
                    } else {
                        0
                    }),
                decreases c.len() - k,
            {
                let child = children[k];
                proof {
                    assert(sub_count(nodes@, node_index as int, c, k as int) == bvh4_count(
                        nodes@,
                        child as int,
                    ));
                }
                let sub = bvh4_node_count(nodes, child);
                count = count + sub;
                k += 1;
            }
            proof {
                assert forall|j: int| c.len() <= j < 4 implies sub_count(
                    nodes@,
                    node_index as int,
                    c,
                    j,
                ) == 0 by {}
            }
            count
        },
    }
}

/// A node of the four-way tree: an internal node with the bounds of its
/// two to four children (one entry per time sample), the children, and the
/// split axes that order them; or a leaf with its range of objects.
#[derive(Debug)]
pub enum BVH4Node<B4> {
    Internal { bounds: Vec<B4>, children: Vec<BVH4Node<B4>>, split_axes: SplitAxes },
    Leaf { object_range: (usize, usize) },
}

/// The longest of the bounds ranges `ranges`.
pub open spec fn longest_range(ranges: Seq<(usize, usize)>) -> int
    decreases ranges.len(),
{
    if ranges.len() == 0 {
        0
    } else {
        let last = ranges.last().1 - ranges.last().0;
        let rest = longest_range(ranges.drop_last());
        if rest < last {
            last
        } else {
            rest
        }
    }
}

/// The bounds ranges of the nodes `c`.
pub open spec fn ranges_of(nodes: Seq<BVHBaseNode>, c: Seq<usize>) -> Seq<(usize, usize)> {
    c.map_values(|j: usize| nodes[j as int].spec_bounds_range())
}

/// `got` is what `bounds4` may answer for the bounds `bounds`, the ranges
/// of them that belong to the children, and the longest of those ranges.
pub open spec fn bounds4_answer<B, B4, F: Fn(&[B], &[(usize, usize)], usize) -> Vec<B4>>(
    bounds4: F,
    bounds: Seq<B>,
    ranges: Seq<(usize, usize)>,
    got: Seq<B4>,
) -> bool {
    exists|a: &[B], rs: &[(usize, usize)], v: Vec<B4>|
        #[trigger] bounds4.ensures((a, rs, longest_range(ranges) as usize), v) && a@ == bounds
            && rs@ == ranges && v@ == got
}

/// Four-way node `n` is the one made from node `idx` of the binary tree:
/// a leaf with the same objects, or an internal node with the collapsed
/// children and split axes, each child made from its binary node, and the
/// bounds that `bounds4` gave for the children's bounds.
pub open spec fn mirrors<B, B4, F: Fn(&[B], &[(usize, usize)], usize) -> Vec<B4>>(
    n: BVH4Node<B4>,
    nodes: Seq<BVHBaseNode>,
    bounds: Seq<B>,
    idx: int,
    bounds4: F,
) -> bool
    decreases nodes.len() - idx, 1int,
{
    if 0 <= idx < nodes.len() {
        match nodes[idx] {
            BVHBaseNode::Leaf { object_range, .. } => n matches BVH4Node::Leaf { object_range: r }
                && r == object_range,
            BVHBaseNode::Internal { .. } => {
                let (c, axes) = collapse_spec(nodes, idx);
                match n {
                    BVH4Node::Internal { bounds: b4, children, split_axes } => {
                        &&& split_axes == axes
                        &&& children@.len() == c.len()
                        &&& bounds4_answer(bounds4, bounds, ranges_of(nodes, c), b4@)
                        &&& child_mirrors(children@, nodes, bounds, idx, c, 0, bounds4)
                        &&& child_mirrors(children@, nodes, bounds, idx, c, 1, bounds4)
                        &&& child_mirrors(children@, nodes, bounds, idx, c, 2, bounds4)
                        &&& child_mirrors(children@, nodes, bounds, idx, c, 3, bounds4)
                    },
                    BVH4Node::Leaf { .. } => false,
                }
            },
        }
    } else {
        false
    }
}

/// Child `k` of `children`, where `c` has a `k`-th node, is made from it.
pub open spec fn child_mirrors<B, B4, F: Fn(&[B], &[(usize, usize)], usize) -> Vec<B4>>(
    children: Seq<BVH4Node<B4>>,
    nodes: Seq<BVHBaseNode>,
    bounds: Seq<B>,
    idx: int,
    c: Seq<usize>,
    k: int,
    bounds4: F,
) -> bool
    decreases nodes.len() - idx, 0int,
{
    if 0 <= k < c.len() {
        &&& k < children.len()
        &&& idx < c[k] < nodes.len()
        &&& mirrors(children[k], nodes, bounds, c[k] as int, bounds4)
    } else {
        true
    }
}

/// Makes the four-way node from node `node_index` of the binary tree, and
/// counts its nodes as `bvh4_count` does.
fn construct_from_base<B: Copy, B4, F: Fn(&[B], &[(usize, usize)], usize) -> Vec<B4>>(
    base: &BVHBase<B>,
    node_index: usize,
    bounds4: &F,
) -> (r: (BVH4Node<B4>, usize))
    requires
        base_wf(base.nodes@),
        nodes_wf_from(base.nodes@, 0, base.bounds@.len() as int),
        node_index < base.nodes@.len(),
        bvh4_count(base.nodes@, node_index as int) <= usize::MAX,
        forall|a: &[B], rs: &[(usize, usize)], l: usize| #[trigger] bounds4.requires((a, rs, l)),
    ensures
        mirrors(r.0, base.nodes@, base.bounds@, node_index as int, *bounds4),
        r.1 == bvh4_count(base.nodes@, node_index as int),
    decreases base.nodes@.len() - node_index,
{
    let ghost nodes = base.nodes@;
    match base.nodes[node_index] {
        BVHBaseNode::Leaf { object_range, .. } => (BVH4Node::Leaf { object_range }, 1),
        BVHBaseNode::Internal { .. } => {
            let (children_idx, split) = collapse_children(base.nodes.as_slice(), node_index);
            let ghost c = children_idx@;
            let mut ranges: Vec<(usize, usize)> = Vec::new();
            let mut bounds_len: usize = 0;
            let mut k: usize = 0;
            while k < children_idx.len()
                invariant
                    children_idx@ == c,
                    2 <= c.len() <= 4,
                    forall|j: int| 0 <= j < c.len() ==> node_index < #[trigger] c[j] < nodes.len(),
                    nodes == base.nodes@,
                    nodes_wf_from(nodes, 0, base.bounds@.len() as int),
                    k <= c.len(),
                    ranges@ == ranges_of(nodes, c.take(k as int)),
                    bounds_len == longest_range(ranges@),
                decreases c.len() - k,
            {
                let br = base.nodes[children_idx[k]].bounds_range();
                proof {
                    assert(node_wf(nodes, c[k as int] as int, base.bounds@.len() as int));
                }
                let len = br.1 - br.0;
                if bounds_len < len {
                    bounds_len = len;
                }
                ranges.push(br);
                k = k + 1;
                proof {
                    assert(ranges_of(nodes, c.take(k as int)) =~= ranges_of(
                        nodes,
                        c.take(k - 1),
                    ).push(br));
                    assert(ranges@.drop_last() =~= ranges_of(nodes, c.take(k - 1)));
                }
            }
            proof {
                assert(c.take(k as int) =~= c);
            }
            let all_bounds = base.bounds.as_slice();
            let child_ranges = ranges.as_slice();
            let b4 = bounds4(all_bounds, child_ranges, bounds_len);
            proof {
                assert(ranges@ == ranges_of(nodes, c));
                assert(bounds4.ensures(
                    (all_bounds, child_ranges, longest_range(ranges_of(nodes, c)) as usize),
                    b4,
                ));
            }
            let mut kids: Vec<BVH4Node<B4>> = Vec::new();
            proof {
                assert forall|j: int| 0 <= j < 4 implies sub_count(nodes, node_index as int, c, j)
                    >= 0 by {
                    if 0 <= j < c.len() {
                        lemma_count_positive(nodes, c[j] as int);
                    }
                }
            }
            let mut count = children_idx.len();
            let mut k: usize = 0;
            while k < children_idx.len()
                invariant
                    children_idx@ == c,
                    c == collapse_spec(nodes, node_index as int).0,
                    2 <= c.len() <= 4,
                    forall|j: int| 0 <= j < c.len() ==> node_index < #[trigger] c[j] < nodes.len(),
                    nodes == base.nodes@,
                    base_wf(nodes),
                    nodes_wf_from(nodes, 0, base.bounds@.len() as int),
                    k <= c.len(),
                    kids@.len() == k,
                    forall|j: int|
                        0 <= j < k ==> mirrors(
                            #[trigger] kids@[j],
                            nodes,
                            base.bounds@,
                            c[j] as int,
                            *bounds4,
                        ),
                    forall|j: int| 0 <= j < 4 ==> sub_count(nodes, node_index as int, c, j) >= 0,
                    forall|a: &[B], rs: &[(usize, usize)], l: usize| #[trigger] bounds4.requires(
                        (a, rs, l),
                    ),
                    bvh4_count(nodes, node_index as int) <= usize::MAX,
                    bvh4_count(nodes, node_index as int) == c.len() + sub_count(
                        nodes,
                        node_index as int,
                        c,
                        0,
                    ) + sub_count(nodes, node_index as int, c, 1) + sub_count(
                        nodes,
                        node_index as int,
                        c,
                        2,
                    ) + sub_count(nodes, node_index as int, c, 3),
                    count == c.len() + (if k > 0 {
                        sub_count(nodes, node_index as int, c, 0)
                    } else {
                        0
                    }) + (if k > 1 {
                        sub_count(nodes, node_index as int, c, 1)
                    } else {
                        0
                    }) + (if k > 2 {
                        sub_count(nodes, node_index as int, c, 2)
                    } else {
                        0
                    }) + (if k > 3 {
                        sub_count(nodes, node_index as int, c, 3)
                    } else {
                        0
                    }),
                decreases c.len() - k,
            {
                let child = children_idx[k];
                proof {
                    assert(sub_count(nodes, node_index as int, c, k as int) == bvh4_count(
                        nodes,
                        child as int,
                    ));
                }
                let (kid, sub) = construct_from_base(base, child, bounds4);
                kids.push(kid);
                count = count + sub;
                k += 1;
            }
            proof {
                assert forall|j: int| c.len() <= j < 4 implies sub_count(
                    nodes,
                    node_index as int,
                    c,
                    j,
                ) == 0 by {}
                assert forall|j: int| 0 <= j < 4 implies child_mirrors(
                    kids@,
                    nodes,
                    base.bounds@,
                    node_index as int,
                    c,
                    j,
                    *bounds4,
                ) by {
                    if 0 <= j < c.len() {
                        assert(mirrors(kids@[j], nodes, base.bounds@, c[j] as int, *bounds4));
                    }
                }
                assert(bounds4_answer(*bounds4, base.bounds@, ranges_of(nodes, c), b4@));
            }
            (BVH4Node::Internal { bounds: b4, children: kids, split_axes: split }, count)
        },
    }
}

/// The number of leaves under binary node `i` that hold object `x`.
pub open spec fn base_leaves_holding(nodes: Seq<BVHBaseNode>, i: int, x: int) -> int
    decreases nodes.len() - i,
{
    if 0 <= i < nodes.len() {
        match nodes[i] {
            BVHBaseNode::Leaf { object_range, .. } => if object_range.0 <= x < object_range.1 {
                1
            } else {
                0
            },
            BVHBaseNode::Internal { children_indices, .. } => {
                let c1 = children_indices.0 as int;
                let c2 = children_indices.1 as int;
                if i < c1 < nodes.len() && i < c2 < nodes.len() {
                    base_leaves_holding(nodes, c1, x) + base_leaves_holding(nodes, c2, x)
                } else {
                    0
                }
            },
        }
    } else {
        0
    }
}

/// The number of leaves under four-way node `n` that hold object `x`.
pub open spec fn leaves_holding<B4>(n: BVH4Node<B4>, x: int) -> int
    decreases n,
{
    match n {
        BVH4Node::Leaf { object_range } => if object_range.0 <= x < object_range.1 {
            1
        } else {
            0
        },
        BVH4Node::Internal { children, .. } => {
            let c = children@;
            (if c.len() > 0 {
                leaves_holding(c[0], x)
            } else {
                0
            }) + (if c.len() > 1 {
                leaves_holding(c[1], x)
            } else {
                0
            }) + (if c.len() > 2 {
                leaves_holding(c[2], x)
            } else {
                0
            }) + (if c.len() > 3 {
                leaves_holding(c[3], x)
            } else {
                0
            })
        },
    }
}

/// A laid-out binary subtree over the objects `offset..offset + k` has
/// exactly one leaf for each of them and none for any other.
pub proof fn lemma_base_leaves_holding(
    nodes: Seq<BVHBaseNode>,
    i: int,
    offset: int,
    per_leaf: int,
    x: int,
)
    requires
        subtree_shape(nodes, i, offset, per_leaf) is Some,
    ensures
        base_leaves_holding(nodes, i, x) == if offset <= x < offset + subtree_shape(
            nodes,
            i,
            offset,
            per_leaf,
        ).unwrap().0 {
            1int
        } else {
            0int
        },
    decreases nodes.len() - i,
{
    match nodes[i] {
        BVHBaseNode::Leaf { .. } => {},
        BVHBaseNode::Internal { children_indices, .. } => {
            let c1 = children_indices.0 as int;
            let c2 = children_indices.1 as int;
            assert(c1 == i + 1 && i < c2 < nodes.len());
            let k1 = subtree_shape(nodes, c1, offset, per_leaf).unwrap().0;
            let k2 = subtree_shape(nodes, c2, offset + k1, per_leaf).unwrap().0;
            lemma_base_leaves_holding(nodes, c1, offset, per_leaf, x);
            lemma_base_leaves_holding(nodes, c2, offset + k1, per_leaf, x);
            lemma_subtree_size(nodes, c1, offset, per_leaf);
            lemma_subtree_size(nodes, c2, offset + k1, per_leaf);
            assert(subtree_shape(nodes, i, offset, per_leaf).unwrap().0 == k1 + k2);
            assert(base_leaves_holding(nodes, i, x) == base_leaves_holding(nodes, c1, x)
                + base_leaves_holding(nodes, c2, x));
        },
    }
}

/// A four-way node made from binary node `idx` has as many leaves holding
/// an object as the binary subtree does.
pub proof fn lemma_mirrored_leaves<B, B4, F: Fn(&[B], &[(usize, usize)], usize) -> Vec<B4>>(
    n: BVH4Node<B4>,
    nodes: Seq<BVHBaseNode>,
    bounds: Seq<B>,
    idx: int,
    bounds4: F,
    x: int,
)
    requires
        base_wf(nodes),
        mirrors(n, nodes, bounds, idx, bounds4),
    ensures
        leaves_holding(n, x) == base_leaves_holding(nodes, idx, x),
    decreases nodes.len() - idx,
{
    match nodes[idx] {
        BVHBaseNode::Leaf { .. } => {},
        BVHBaseNode::Internal { children_indices, .. } => {
            let (c, axes) = collapse_spec(nodes, idx);
            let l = children_indices.0 as int;
            let r = children_indices.1 as int;
            assert(idx < l < nodes.len() && idx < r < nodes.len());
            assert(match nodes[l] {
                BVHBaseNode::Internal { children_indices, .. } => l < children_indices.0
                    < nodes.len() && l < children_indices.1 < nodes.len(),
                BVHBaseNode::Leaf { .. } => true,
            });
            assert(match nodes[r] {
                BVHBaseNode::Internal { children_indices, .. } => r < children_indices.0
                    < nodes.len() && r < children_indices.1 < nodes.len(),
                BVHBaseNode::Leaf { .. } => true,
            });
            match n {
                BVH4Node::Internal { children, .. } => {
                    let ch = children@;
                    assert(child_mirrors(ch, nodes, bounds, idx, c, 0, bounds4));
                    assert(child_mirrors(ch, nodes, bounds, idx, c, 1, bounds4));
                    assert(child_mirrors(ch, nodes, bounds, idx, c, 2, bounds4));
                    assert(child_mirrors(ch, nodes, bounds, idx, c, 3, bounds4));
                    assert(base_leaves_holding(nodes, idx, x) == base_leaves_holding(nodes, l, x)
                        + base_leaves_holding(nodes, r, x));
                    match nodes[l] {
                        BVHBaseNode::Internal { children_indices: il, .. } => {
                            assert(base_leaves_holding(nodes, l, x) == base_leaves_holding(
                                nodes,
                                il.0 as int,
                                x,
                            ) + base_leaves_holding(nodes, il.1 as int, x));
                        },
                        BVHBaseNode::Leaf { .. } => {},
                    }
                    match nodes[r] {
                        BVHBaseNode::Internal { children_indices: ir, .. } => {
                            assert(base_leaves_holding(nodes, r, x) == base_leaves_holding(
                                nodes,
                                ir.0 as int,
                                x,
                            ) + base_leaves_holding(nodes, ir.1 as int, x));
                        },
                        BVHBaseNode::Leaf { .. } => {},
                    }
                    assert forall|k: int| 0 <= k < c.len() implies leaves_holding(#[trigger] ch[k], x)
                        == base_leaves_holding(nodes, c[k] as int, x) by {
                        if k == 0 {
                            lemma_mirrored_leaves(ch[0], nodes, bounds, c[0] as int, bounds4, x);
                        } else if k == 1 {
                            lemma_mirrored_leaves(ch[1], nodes, bounds, c[1] as int, bounds4, x);
                        } else if k == 2 {
                            lemma_mirrored_leaves(ch[2], nodes, bounds, c[2] as int, bounds4, x);
                        } else {
                            lemma_mirrored_leaves(ch[3], nodes, bounds, c[3] as int, bounds4, x);
                        }
                    }
                },
                BVH4Node::Leaf { .. } => {},
            }
        },
    }
}

/// Each of the objects a four-way tree was built over is held by exactly
/// one of its leaves.
pub proof fn law_each_object_in_one_four_way_leaf<
    B,
    B4,
    F: Fn(&[B], &[(usize, usize)], usize) -> Vec<B4>,
>(root: BVH4Node<B4>, base: BVHBase<B>, n: int, per_leaf: int, bounds4: F, x: int)
    requires
        built_over(base, n, per_leaf),
        n > 0,
        mirrors(root, base.nodes@, base.bounds@, 0, bounds4),
        0 <= x < n,
    ensures
        leaves_holding(root, x) == 1,
{
    lemma_wf_nodes_point_forward(base.nodes@, base.bounds@.len() as int);
    lemma_mirrored_leaves(root, base.nodes@, base.bounds@, 0, bounds4, x);
    lemma_base_leaves_holding(base.nodes@, 0, 0, per_leaf, x);
}

/// A four-way bounding volume hierarchy over a list of objects: its root,
/// its depth, its node count, the bounds of all its objects, and (for
/// contracts) the binary tree it was made from.
pub struct BVH4<B, B4> {
    pub root: Option<BVH4Node<B4>>,
    pub depth: usize,
    pub node_count: usize,
    pub root_bounds: Vec<B>,
    pub base: Ghost<BVHBase<B>>,
}

impl<B: Copy, B4> BVH4<B, B4> {
    /// Builds the four-way tree over `object_count` objects, with at most
    /// `objects_per_leaf` objects in a leaf: first the binary tree, with
    /// `split`, `leaf_bounds` and `merge_bounds` as in `BVHBase::from_objects`,
    /// then its collapse into four-way nodes, whose bounds `bounds4` makes
    /// from the bounds of the children (all the bounds, the children's
    /// ranges of them, and the longest of those ranges).
    pub fn from_objects<S, L, M, F>(
        object_count: usize,
        objects_per_leaf: usize,
        split: &S,
        leaf_bounds: &L,
        merge_bounds: &M,
        bounds4: &F,
    ) -> (r: BVH4<B, B4>) where
        S: Fn(usize, usize, bool) -> (usize, usize),
        L: Fn(usize, usize) -> Vec<B>,
        M: Fn(&[B], &[B]) -> Vec<B>,
        F: Fn(&[B], &[(usize, usize)], usize) -> Vec<B4>,

        requires
            objects_per_leaf > 0,
            object_count <= usize::MAX / 4,
            forall|o: usize, l: usize, e: bool| #[trigger] split.requires((o, l, e)),
            forall|o: usize, l: usize| #[trigger] leaf_bounds.requires((o, l)),
            forall|a: &[B], b: &[B]| #[trigger] merge_bounds.requires((a, b)),
            forall|a: &[B], rs: &[(usize, usize)], l: usize| #[trigger] bounds4.requires((a, rs, l)),
        ensures
            object_count == 0 ==> r.root is None && r.depth == 0 && r.node_count == 0
                && r.root_bounds@.len() == 0,
            object_count > 0 ==> {
                let b = r.base@;
                let br = b.nodes@[0].spec_bounds_range();
                &&& built_over(b, object_count as int, objects_per_leaf as int)
                &&& decided_by(
                    b.nodes@,
                    b.bounds@,
                    0,
                    0,
                    0,
                    objects_per_leaf as int,
                    *split,
                    *leaf_bounds,
                    *merge_bounds,
                )
                &&& r.root matches Some(root) && mirrors(root, b.nodes@, b.bounds@, 0, *bounds4)
                &&& r.depth == b.depth / 2 + 1
                &&& r.node_count == bvh4_count(b.nodes@, 0)
                &&& r.root_bounds@ == b.bounds@.subrange(br.0 as int, br.1 as int)
            },
    {
        if object_count == 0 {
            let empty: BVHBase<B> = BVHBase { nodes: Vec::new(), bounds: Vec::new(), depth: 0 };
            BVH4 { root: None, depth: 0, node_count: 0, root_bounds: Vec::new(), base: Ghost(empty) }
        } else {
            let base = BVHBase::from_objects(
                object_count,
                objects_per_leaf,
                split,
                leaf_bounds,
                merge_bounds,
            );
            let root_index = base.root_node_index();
            proof {
                lemma_subtree_size(base.nodes@, 0, 0, objects_per_leaf as int);
                lemma_count_bound(base.nodes@, 0, 0, objects_per_leaf as int);
                assert(node_wf(base.nodes@, 0, base.bounds@.len() as int));
            }
            let (root, node_count) = construct_from_base(&base, root_index, bounds4);
            let range = base.nodes[root_index].bounds_range();
            let mut root_bounds: Vec<B> = Vec::new();
            let mut i = range.0;
            while i < range.1
                invariant
                    range.0 <= i <= range.1 <= base.bounds@.len(),
                    root_bounds@ == base.bounds@.subrange(range.0 as int, i as int),
                decreases range.1 - i,
            {
                root_bounds.push(base.bounds[i]);
                i = i + 1;
                proof {
                    assert(root_bounds@ =~= base.bounds@.subrange(range.0 as int, i as int));
                }
            }
            BVH4 {
                root: Some(root),
                depth: (base.depth / 2) + 1,
                node_count,
                root_bounds,
                base: Ghost(base),
            }
        }
    }

    /// The depth of the tree.
    pub fn tree_depth(&self) -> (r: usize)
        ensures
            r == self.depth,
    {
        self.depth
    }

    /// The bounds of all the tree's objects; none for an empty tree.
    pub fn bounds(&self) -> (r: &[B])
        ensures
            r@ == self.root_bounds@,
    {
        self.root_bounds.as_slice()
    }
}

} // verus!
