use psychopath::accel::light_tree::{
    node_child_count, node_child_count_recurse, node_nth_child_index,
    node_nth_child_index_recurse, BuilderNode, LightTree, Node,
};

fn inner(child_index: usize) -> BuilderNode<f32> {
    BuilderNode { is_leaf: false, bounds_range: (0, 0), energy: 0.0, child_index }
}

fn leaf(light: usize) -> BuilderNode<f32> {
    BuilderNode { is_leaf: true, bounds_range: (0, 1), energy: 1.0, child_index: light }
}

// 0 ─┬─ 1 ─┬─ 2 (leaf)
//    │     └─ 3 (leaf)
//    └─ 4 (leaf)
fn small_tree() -> Vec<BuilderNode<f32>> {
    vec![inner(4), inner(3), leaf(0), leaf(1), leaf(2)]
}

#[test]
fn collapsed_children_of_small_tree() {
    let nodes = small_tree();
    assert_eq!(node_child_count(&nodes, 0), 3);
    assert_eq!(node_nth_child_index(&nodes, 0, 0), 2);
    assert_eq!(node_nth_child_index(&nodes, 0, 1), 3);
    assert_eq!(node_nth_child_index(&nodes, 0, 2), 4);
    assert_eq!(node_child_count(&nodes, 2), 1);
    assert_eq!(node_nth_child_index(&nodes, 2, 0), 2);
}

#[test]
fn collapse_depth_limits_children() {
    let nodes = small_tree();
    assert_eq!(node_child_count_recurse(&nodes, 0, 0), 1);
    assert_eq!(node_child_count_recurse(&nodes, 1, 0), 2);
    assert_eq!(node_nth_child_index_recurse(&nodes, 1, 0, 0), (1, 0));
    assert_eq!(node_nth_child_index_recurse(&nodes, 1, 0, 1), (4, 0));
    // Past the end: the last child, with how far past the end plus one.
    assert_eq!(node_nth_child_index_recurse(&nodes, 3, 0, 5), (4, 3));
}

// Builds a complete binary tree in depth-first order.
fn build(nodes: &mut Vec<BuilderNode<f32>>, depth: usize) -> usize {
    let me = nodes.len();
    if depth == 0 {
        nodes.push(leaf(me));
        return me;
    }
    nodes.push(inner(0));
    build(nodes, depth - 1);
    let second = build(nodes, depth - 1);
    nodes[me] = inner(second);
    me
}

#[test]
fn full_binary_tree_collapses_to_eight() {
    // A complete binary tree of depth four: sixteen leaves collapse into
    // eight children at the root.
    let mut nodes = Vec::new();
    build(&mut nodes, 4);
    assert_eq!(node_child_count(&nodes, 0), 8);
    let mut seen = Vec::new();
    for i in 0..8 {
        let c = node_nth_child_index(&nodes, 0, i);
        assert!(!nodes[c].is_leaf);
        seen.push(c);
    }
    let mut sorted = seen.clone();
    sorted.sort();
    assert_eq!(seen, sorted);
}

fn halves(_o: usize, l: usize) -> usize {
    l / 2
}

fn light_info(i: usize) -> (Vec<(usize, usize)>, f32) {
    (vec![(i, i + 1)], (i + 1) as f32)
}

fn join(a: &[(usize, usize)], b: &[(usize, usize)]) -> Vec<(usize, usize)> {
    vec![(a[0].0, b[0].1)]
}

fn sum(a: &f32, b: &f32) -> f32 {
    a + b
}

fn lights_of(n: &Node<(usize, usize), f32>, out: &mut Vec<usize>) {
    match n {
        Node::Leaf { .. } => out.push(n.light_index()),
        Node::Inner { children, .. } => {
            for c in children {
                lights_of(c, out);
            }
        }
    }
}

#[test]
fn light_tree_from_objects() {
    let tree: LightTree<(usize, usize), f32> =
        LightTree::from_objects(5, 0.0, &halves, &light_info, &join, &sum);
    assert_eq!(tree.depth, 3);
    let root = tree.root.as_ref().unwrap();
    assert_eq!(root.energy(), 15.0);
    assert_eq!(root.bounds(), &[(0, 5)][..]);
    let mut lights = Vec::new();
    lights_of(root, &mut lights);
    assert_eq!(lights, vec![0, 1, 2, 3, 4]);
    match root {
        Node::Inner { children, .. } => assert_eq!(children.len(), 5),
        Node::Leaf { .. } => panic!("root should be inner"),
    }
}

#[test]
fn light_tree_collapses_to_arity() {
    let tree: LightTree<(usize, usize), f32> =
        LightTree::from_objects(20, 0.0, &halves, &light_info, &join, &sum);
    let root = tree.root.as_ref().unwrap();
    match root {
        Node::Inner { children, energy, .. } => {
            assert_eq!(children.len(), 8);
            assert_eq!(*energy, 210.0);
            let total: f32 = children.iter().map(|c| c.energy()).sum();
            assert_eq!(total, 210.0);
        }
        Node::Leaf { .. } => panic!("root should be inner"),
    }
    let mut lights = Vec::new();
    lights_of(root, &mut lights);
    assert_eq!(lights, (0..20).collect::<Vec<usize>>());
}

#[test]
fn light_tree_of_one_and_of_none() {
    let one: LightTree<(usize, usize), f32> =
        LightTree::from_objects(1, 0.0, &halves, &light_info, &join, &sum);
    let root = one.root.as_ref().unwrap();
    assert_eq!(root.light_index(), 0);
    assert_eq!(root.energy(), 1.0);
    assert_eq!(one.depth, 0);
    let none: LightTree<(usize, usize), f32> =
        LightTree::from_objects(0, 0.0, &halves, &light_info, &join, &sum);
    assert!(none.root.is_none());
    assert_eq!(none.depth, 0);
}
