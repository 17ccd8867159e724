use psychopath::accel::bvh::{BVHNode, BVH};
use psychopath::accel::bvh_base::{BVHBase, BVHBaseNode};
use std::cell::RefCell;

fn leaf_range(b: &[(usize, usize)], o: usize, l: usize) -> Vec<(usize, usize)> {
    let _ = b;
    vec![(o, o + l)]
}

fn merge(a: &[(usize, usize)], b: &[(usize, usize)]) -> Vec<(usize, usize)> {
    vec![(a[0].0, b[b.len() - 1].1)]
}

fn leaf_of(n: &BVHBaseNode) -> Option<((usize, usize), (usize, usize))> {
    match *n {
        BVHBaseNode::Leaf { bounds_range, object_range } => Some((bounds_range, object_range)),
        BVHBaseNode::Internal { .. } => None,
    }
}

fn inner_of(n: &BVHBaseNode) -> Option<((usize, usize), (usize, usize), u8)> {
    match *n {
        BVHBaseNode::Internal { bounds_range, children_indices, split_axis } => {
            Some((bounds_range, children_indices, split_axis))
        }
        BVHBaseNode::Leaf { .. } => None,
    }
}

#[test]
fn builds_in_pre_order() {
    let split = |_o: usize, l: usize, _e: bool| (l / 2, 1usize);
    let leaf = |o: usize, l: usize| leaf_range(&[], o, l);
    let bvh: BVHBase<(usize, usize)> = BVHBase::from_objects(5, 2, &split, &leaf, &merge);
    assert_eq!(bvh.root_node_index(), 0);
    assert_eq!(bvh.nodes.len(), 5);
    assert_eq!(bvh.depth, 2);
    assert_eq!(inner_of(&bvh.nodes[0]), Some(((4, 5), (1, 2), 1)));
    assert_eq!(leaf_of(&bvh.nodes[1]), Some(((0, 1), (0, 2))));
    assert_eq!(inner_of(&bvh.nodes[2]), Some(((3, 4), (3, 4), 1)));
    assert_eq!(leaf_of(&bvh.nodes[3]), Some(((1, 2), (2, 3))));
    assert_eq!(leaf_of(&bvh.nodes[4]), Some(((2, 3), (3, 5))));
    assert_eq!(bvh.bounds, vec![(0, 2), (2, 3), (3, 5), (2, 5), (0, 5)]);
}

#[test]
fn no_objects_no_nodes() {
    let split = |_o: usize, l: usize, _e: bool| (l / 2, 0usize);
    let leaf = |o: usize, l: usize| leaf_range(&[], o, l);
    let bvh: BVHBase<(usize, usize)> = BVHBase::from_objects(0, 4, &split, &leaf, &merge);
    assert_eq!(bvh.nodes.len(), 0);
    assert_eq!(bvh.bounds.len(), 0);
    assert_eq!(bvh.depth, 0);
}

#[test]
fn single_leaf() {
    let split = |_o: usize, l: usize, _e: bool| (l / 2, 0usize);
    let leaf = |o: usize, l: usize| leaf_range(&[], o, l);
    let bvh: BVHBase<(usize, usize)> = BVHBase::from_objects(3, 4, &split, &leaf, &merge);
    assert_eq!(bvh.nodes.len(), 1);
    assert_eq!(leaf_of(&bvh.nodes[0]), Some(((0, 1), (0, 3))));
    assert_eq!(bvh.depth, 0);
}

#[test]
fn split_index_is_clamped() {
    let low = |_o: usize, _l: usize, _e: bool| (0usize, 2usize);
    let leaf = |o: usize, l: usize| leaf_range(&[], o, l);
    let bvh: BVHBase<(usize, usize)> = BVHBase::from_objects(3, 1, &low, &leaf, &merge);
    assert_eq!(bvh.nodes.len(), 5);
    assert_eq!(inner_of(&bvh.nodes[0]).map(|n| n.1), Some((1, 2)));
    assert_eq!(leaf_of(&bvh.nodes[1]).map(|n| n.1), Some((0, 1)));
    assert_eq!(leaf_of(&bvh.nodes[3]).map(|n| n.1), Some((1, 2)));
    assert_eq!(leaf_of(&bvh.nodes[4]).map(|n| n.1), Some((2, 3)));

    let high = |_o: usize, _l: usize, _e: bool| (100usize, 0usize);
    let bvh: BVHBase<(usize, usize)> = BVHBase::from_objects(3, 1, &high, &leaf, &merge);
    assert_eq!(leaf_of(&bvh.nodes[1]).map(|n| n.1), None);
    assert_eq!(inner_of(&bvh.nodes[0]).map(|n| n.1), Some((1, 4)));
    assert_eq!(leaf_of(&bvh.nodes[2]).map(|n| n.1), Some((0, 1)));
    assert_eq!(leaf_of(&bvh.nodes[3]).map(|n| n.1), Some((1, 2)));
    assert_eq!(leaf_of(&bvh.nodes[4]).map(|n| n.1), Some((2, 3)));
    assert_eq!(bvh.depth, 2);
}

#[test]
fn even_splits_near_the_maximum_depth() {
    let asked: RefCell<Vec<(usize, bool)>> = RefCell::new(Vec::new());
    let split = |_o: usize, l: usize, e: bool| {
        asked.borrow_mut().push((l, e));
        (1usize, 0usize)
    };
    let leaf = |o: usize, l: usize| leaf_range(&[], o, l);
    let n = 50usize;
    let bvh: BVHBase<(usize, usize)> = BVHBase::from_objects(n, 1, &split, &leaf, &merge);
    assert_eq!(bvh.depth, n - 1);
    let asked = asked.borrow();
    assert_eq!(asked.len(), n - 1);
    for &(len, evenly) in asked.iter() {
        let depth = n - len;
        let log2 = 63 - (len as u64).leading_zeros() as usize;
        assert_eq!(evenly, !(depth < 42 && log2 < 42 - depth), "len {}", len);
    }
    assert!(asked.iter().any(|&(_, e)| e));
    assert!(asked.iter().any(|&(_, e)| !e));
}

#[test]
fn leaves_hold_each_object_once() {
    let objects: RefCell<Vec<i32>> = RefCell::new(vec![9, 3, 7, 1, 8, 2, 6, 0, 5, 4, 11]);
    let split = |o: usize, l: usize, _e: bool| {
        let mut objs = objects.borrow_mut();
        objs[o..o + l].sort();
        (l / 2, 0usize)
    };
    let leaf = |o: usize, l: usize| {
        let objs = objects.borrow();
        let lo = *objs[o..o + l].iter().min().unwrap() as usize;
        let hi = *objs[o..o + l].iter().max().unwrap() as usize;
        vec![(lo, hi)]
    };
    let merge_minmax = |a: &[(usize, usize)], b: &[(usize, usize)]| {
        vec![(a[0].0.min(b[0].0), a[0].1.max(b[0].1))]
    };
    let bvh: BVHBase<(usize, usize)> =
        BVHBase::from_objects(11, 3, &split, &leaf, &merge_minmax);
    let mut seen = vec![0; 11];
    for n in bvh.nodes.iter() {
        if let Some((_, (lo, hi))) = leaf_of(n) {
            assert!(hi - lo >= 1 && hi - lo <= 3);
            for i in lo..hi {
                seen[i] += 1;
            }
        }
    }
    assert_eq!(seen, vec![1; 11]);
    let root = inner_of(&bvh.nodes[0]).unwrap();
    assert_eq!(bvh.bounds[root.0 .0], (0, 11));
    assert_eq!(*objects.borrow(), vec![0, 1, 2, 3, 4, 5, 6, 7, 8, 9, 11]);
}

fn bvh_leaves(n: &BVHNode<(usize, usize)>, out: &mut Vec<(usize, usize)>) {
    match n {
        BVHNode::Leaf { object_range, bounds } => {
            assert_eq!(bounds, &vec![*object_range]);
            out.push(*object_range);
        }
        BVHNode::Internal { children, bounds, split_axis } => {
            assert_eq!(*split_axis, 1);
            assert_eq!(bounds.len(), 1);
            bvh_leaves(&children.0, out);
            bvh_leaves(&children.1, out);
        }
    }
}

#[test]
fn binary_tree_from_objects() {
    let split = |_o: usize, l: usize, _e: bool| (l / 2, 1usize);
    let leaf = |o: usize, l: usize| leaf_range(&[], o, l);
    let bvh: BVH<(usize, usize)> = BVH::from_objects(5, 2, &split, &leaf, &merge);
    assert_eq!(bvh.tree_depth(), 2);
    let mut out = Vec::new();
    bvh_leaves(bvh.root.as_ref().unwrap(), &mut out);
    assert_eq!(out, vec![(0, 2), (2, 3), (3, 5)]);
    match bvh.root.as_ref().unwrap() {
        BVHNode::Internal { bounds, .. } => assert_eq!(bounds, &vec![(0, 5)]),
        BVHNode::Leaf { .. } => panic!("root should be internal"),
    }
    let none: BVH<(usize, usize)> = BVH::from_objects(0, 2, &split, &leaf, &merge);
    assert!(none.root.is_none());
    assert_eq!(none.tree_depth(), 0);
    let empty: BVH<(usize, usize)> = BVH::new_empty();
    assert!(empty.root.is_none());
    assert_eq!(empty.tree_depth(), 0);
}
