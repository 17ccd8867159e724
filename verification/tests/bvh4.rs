use psychopath::accel::bvh4::{bvh4_node_count, collapse_children, BVH4Node, SplitAxes, BVH4};
use psychopath::accel::bvh_base::BVHBaseNode;

fn inner(l: usize, r: usize, axis: u8) -> BVHBaseNode {
    BVHBaseNode::Internal { bounds_range: (0, 1), children_indices: (l, r), split_axis: axis }
}

fn leaf(i: usize) -> BVHBaseNode {
    BVHBaseNode::Leaf { bounds_range: (i, i + 1), object_range: (i, i + 1) }
}

#[test]
fn collapse_shapes() {
    let left = vec![inner(1, 4, 0), inner(2, 3, 1), leaf(2), leaf(3), leaf(4)];
    assert_eq!(collapse_children(&left, 0), (vec![2, 3, 4], SplitAxes::Left((0, 1))));
    assert_eq!(bvh4_node_count(&left, 0), 6);

    let right = vec![inner(1, 2, 2), leaf(1), inner(3, 4, 0), leaf(3), leaf(4)];
    assert_eq!(collapse_children(&right, 0), (vec![1, 3, 4], SplitAxes::Right((2, 0))));

    let full = vec![
        inner(1, 4, 0),
        inner(2, 3, 1),
        leaf(2),
        leaf(3),
        inner(5, 6, 2),
        leaf(5),
        leaf(6),
    ];
    assert_eq!(collapse_children(&full, 0), (vec![2, 3, 5, 6], SplitAxes::Full((0, 1, 2))));
    assert_eq!(bvh4_node_count(&full, 0), 8);

    let top = vec![inner(1, 2, 1), leaf(1), leaf(2)];
    assert_eq!(collapse_children(&top, 0), (vec![1, 2], SplitAxes::TopOnly(1)));
    assert_eq!(bvh4_node_count(&top, 0), 4);
    assert_eq!(bvh4_node_count(&top, 1), 1);
    assert_eq!(BVHBaseNode::bounds_range(&top[2]), (2, 3));
}

fn halves(_o: usize, l: usize, _e: bool) -> (usize, usize) {
    (l / 2, 1)
}

fn range_bounds(o: usize, l: usize) -> Vec<(usize, usize)> {
    vec![(o, o + l)]
}

fn join(a: &[(usize, usize)], b: &[(usize, usize)]) -> Vec<(usize, usize)> {
    vec![(a[0].0, b[0].1)]
}

fn summary(_b: &[(usize, usize)], rs: &[(usize, usize)], longest: usize) -> Vec<(usize, usize)> {
    vec![(rs.len(), longest)]
}

fn leaf_range(n: &BVH4Node<(usize, usize)>) -> Option<(usize, usize)> {
    match n {
        BVH4Node::Leaf { object_range } => Some(*object_range),
        BVH4Node::Internal { .. } => None,
    }
}

#[test]
fn four_way_tree_from_objects() {
    let bvh: BVH4<(usize, usize), (usize, usize)> =
        BVH4::from_objects(5, 2, &halves, &range_bounds, &join, &summary);
    assert_eq!(bvh.tree_depth(), 2);
    assert_eq!(bvh.node_count, 6);
    assert_eq!(bvh.bounds(), &[(0, 5)][..]);
    match bvh.root.as_ref().unwrap() {
        BVH4Node::Internal { bounds, children, split_axes } => {
            assert_eq!(*split_axes, SplitAxes::Right((1, 1)));
            assert_eq!(bounds, &vec![(3, 1)]);
            let ranges: Vec<_> = children.iter().map(leaf_range).collect();
            assert_eq!(ranges, vec![Some((0, 2)), Some((2, 3)), Some((3, 5))]);
        }
        BVH4Node::Leaf { .. } => panic!("root should be internal"),
    }
}

#[test]
fn four_way_tree_of_one_leaf_and_of_nothing() {
    let one: BVH4<(usize, usize), (usize, usize)> =
        BVH4::from_objects(2, 4, &halves, &range_bounds, &join, &summary);
    assert_eq!(one.tree_depth(), 1);
    assert_eq!(one.node_count, 1);
    assert_eq!(leaf_range(one.root.as_ref().unwrap()), Some((0, 2)));
    assert_eq!(one.bounds(), &[(0, 2)][..]);

    let none: BVH4<(usize, usize), (usize, usize)> =
        BVH4::from_objects(0, 4, &halves, &range_bounds, &join, &summary);
    assert!(none.root.is_none());
    assert_eq!(none.tree_depth(), 0);
    assert_eq!(none.node_count, 0);
    assert!(none.bounds().is_empty());
}

#[test]
fn four_way_tree_counts_as_node_count() {
    for n in 1..40usize {
        let bvh: BVH4<(usize, usize), (usize, usize)> =
            BVH4::from_objects(n, 1, &halves, &range_bounds, &join, &summary);
        fn count(node: &BVH4Node<(usize, usize)>) -> usize {
            match node {
                BVH4Node::Leaf { .. } => 1,
                BVH4Node::Internal { children, .. } => {
                    children.len() + children.iter().map(count).sum::<usize>()
                }
            }
        }
        fn leaves(node: &BVH4Node<(usize, usize)>, out: &mut Vec<(usize, usize)>) {
            match node {
                BVH4Node::Leaf { object_range } => out.push(*object_range),
                BVH4Node::Internal { children, .. } => {
                    for c in children {
                        leaves(c, out);
                    }
                }
            }
        }
        let root = bvh.root.as_ref().unwrap();
        assert_eq!(bvh.node_count, count(root));
        let mut out = Vec::new();
        leaves(root, &mut out);
        let expected: Vec<(usize, usize)> = (0..n).map(|i| (i, i + 1)).collect();
        assert_eq!(out, expected);
    }
}
