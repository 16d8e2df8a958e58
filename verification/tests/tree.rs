use compositor::tree::{
    add_leaf, create_root, nodes_to_direction, remove_from_tree, Direction, SplitDir, Tree, N,
};
use compositor::types::NodeId;

fn root_of(tree: &Tree<&'static str>, id: NodeId) -> NodeId {
    tree.get(id).unwrap().root(tree)
}

fn below(tree: &Tree<&'static str>, id: NodeId) -> Vec<NodeId> {
    tree.get(id).unwrap().self_and_descendants(tree)
}

fn is_leaf(tree: &Tree<&'static str>, id: NodeId) -> bool {
    match tree.get(id) {
        Some(node) => matches!(node.n, N::Leaf(_)),
        None => false,
    }
}

#[test]
fn test_add() {
    let mut tree = create_root::<&'static str>();
    let r = tree.get(0).unwrap().id;

    let (first, t) = add_leaf(&mut tree, r, |_| "first", SplitDir::V);
    assert_eq!(first, t);
    assert_eq!(1, below(&tree, first).len());

    let (firstsplit, a) = add_leaf(&mut tree, first, |_| "a", SplitDir::H);
    assert_eq!(firstsplit, root_of(&tree, a));
    assert_eq!(firstsplit, root_of(&tree, firstsplit));
    assert_ne!(firstsplit, a);
    assert!(match &tree.get(firstsplit).unwrap().n {
        N::Split(_) => true,
        _ => false,
    });
    assert_eq!(vec![firstsplit, first, a], below(&tree, firstsplit));

    let neighbors = nodes_to_direction(&tree, below(&tree, firstsplit)[1], Direction::Down);
    assert_eq!(1, neighbors.len());
    assert_eq!(below(&tree, firstsplit)[2], *neighbors.iter().next().unwrap());

    let (secondsplit, b) = add_leaf(&mut tree, firstsplit, |_| "b", SplitDir::H);
    assert_eq!(secondsplit, root_of(&tree, a));
    assert_eq!(vec![secondsplit, firstsplit, first, a, b], below(&tree, secondsplit));

    let (thirdsplit, c) = add_leaf(&mut tree, b, |_| "c", SplitDir::H);
    assert_eq!(secondsplit, root_of(&tree, a));
    assert_eq!(
        vec![secondsplit, firstsplit, first, a, thirdsplit, b, c],
        below(&tree, secondsplit)
    );
}

#[test]
fn test_remove() {
    let mut tree = create_root::<&'static str>();
    let r = tree.get(0).unwrap().id;
    let (first, _t1) = add_leaf(&mut tree, r, |_| "first", SplitDir::V);
    let (firstsplit, a) = add_leaf(&mut tree, first, |_| "a", SplitDir::H);
    let (_t2, b) = add_leaf(&mut tree, firstsplit, |_| "b", SplitDir::H);

    let root1 = root_of(&tree, a);

    remove_from_tree(&mut tree, a).unwrap();

    assert_eq!(root_of(&tree, b), root1);
    assert_eq!(vec![root1, first, b], below(&tree, root1));

    remove_from_tree(&mut tree, first).unwrap();

    assert_eq!(root_of(&tree, b), b);

    assert!(is_leaf(&tree, b));

    let root = remove_from_tree(&mut tree, b).unwrap();

    assert!(!is_leaf(&tree, b));
    assert_eq!(root, 0);
    assert!(matches!(tree.get(0).unwrap().n, N::Placeholder));
}

fn four_leaves() -> (Tree<&'static str>, [NodeId; 7]) {
    // root = H(first_split = H(first, a), third_split = V(b, c))
    let mut tree = create_root::<&'static str>();
    let (first, _) = add_leaf(&mut tree, 0, |_| "first", SplitDir::V);
    let (first_split, a) = add_leaf(&mut tree, first, |_| "a", SplitDir::H);
    let (root, b) = add_leaf(&mut tree, first_split, |_| "b", SplitDir::H);
    let (third_split, c) = add_leaf(&mut tree, b, |_| "c", SplitDir::V);
    (tree, [root, first_split, first, a, third_split, b, c])
}

fn sorted(set: std::collections::HashSet<NodeId>) -> Vec<NodeId> {
    let mut v: Vec<NodeId> = set.into_iter().collect();
    v.sort();
    v
}

#[test]
fn add_leaf_calls_the_factory_with_the_leaf_id() {
    let mut tree = create_root::<NodeId>();
    let (_, first) = add_leaf(&mut tree, 0, |id| id + 100, SplitDir::V);
    let (_, second) = add_leaf(&mut tree, first, |id| id + 100, SplitDir::V);
    for id in [first, second] {
        match &tree.get(id).unwrap().n {
            N::Leaf(leaf) => assert_eq!(leaf.content, id + 100),
            _ => panic!("not a leaf"),
        }
    }
    assert_eq!(first, 0);
    assert_eq!(second, 1);
}

#[test]
fn add_leaf_below_a_split_keeps_the_slot() {
    let (tree, [root, first_split, first, a, third_split, b, c]) = four_leaves();
    match &tree.get(root).unwrap().n {
        N::Split(s) => {
            assert_eq!((s.a, s.b), (first_split, third_split));
            assert_eq!(s.dir, SplitDir::H);
        }
        _ => panic!("not a split"),
    }
    match &tree.get(third_split).unwrap().n {
        N::Split(s) => {
            assert_eq!((s.a, s.b), (b, c));
            assert_eq!(s.dir, SplitDir::V);
        }
        _ => panic!("not a split"),
    }
    assert_eq!(tree.get(b).unwrap().parent, Some(third_split));
    assert_eq!(tree.get(c).unwrap().parent, Some(third_split));
    assert_eq!(tree.get(third_split).unwrap().parent, Some(root));
    assert_eq!(tree.get(root).unwrap().parent, None);
    assert_eq!(below(&tree, first_split), vec![first_split, first, a]);
    assert_eq!(below(&tree, c), vec![c]);
}

#[test]
fn remove_refuses_a_split() {
    let (mut tree, [root, first_split, ..]) = four_leaves();
    let before = below(&tree, root);
    assert_eq!(
        remove_from_tree(&mut tree, first_split),
        Err(compositor::types::Error::OnlyLeafCanBeRemoved(first_split))
    );
    assert_eq!(below(&tree, root), before);
}

#[test]
fn remove_promotes_the_sibling() {
    let (mut tree, [root, first_split, first, a, third_split, b, c]) = four_leaves();
    assert_eq!(remove_from_tree(&mut tree, first), Ok(root));
    assert_eq!(below(&tree, root), vec![root, a, third_split, b, c]);
    assert_eq!(tree.get(a).unwrap().parent, Some(root));
    assert!(tree.get(first).is_none());
    assert!(tree.get(first_split).is_none());
    assert_eq!(remove_from_tree(&mut tree, a), Ok(third_split));
    assert_eq!(below(&tree, third_split), vec![third_split, b, c]);
    assert_eq!(tree.get(third_split).unwrap().parent, None);
}

#[test]
fn swap_of_siblings_exchanges_the_slots() {
    let (mut tree, [root, first_split, first, a, third_split, b, c]) = four_leaves();
    compositor::tree::swap(&mut tree, b, c);
    assert_eq!(below(&tree, root), vec![root, first_split, first, a, third_split, c, b]);
    compositor::tree::swap(&mut tree, c, c);
    assert_eq!(below(&tree, root), vec![root, first_split, first, a, third_split, b, c]);
}

#[test]
fn swap_across_parents_exchanges_the_places() {
    let (mut tree, [root, first_split, first, a, third_split, b, c]) = four_leaves();
    compositor::tree::swap(&mut tree, first, c);
    assert_eq!(below(&tree, root), vec![root, first_split, c, a, third_split, b, first]);
    assert_eq!(tree.get(c).unwrap().parent, Some(first_split));
    assert_eq!(tree.get(first).unwrap().parent, Some(third_split));
}

#[test]
fn swap_of_a_lone_leaf_is_a_no_op() {
    let mut tree = create_root::<&'static str>();
    let (first, _) = add_leaf(&mut tree, 0, |_| "first", SplitDir::V);
    compositor::tree::swap(&mut tree, first, first);
    assert_eq!(below(&tree, first), vec![first]);
    assert!(is_leaf(&tree, first));
}

#[test]
fn neighbors_along_the_near_edge() {
    let (tree, [_root, first_split, first, a, third_split, b, c]) = four_leaves();
    // first / a above, b | c below
    assert_eq!(sorted(nodes_to_direction(&tree, a, Direction::Up)), vec![first]);
    assert_eq!(sorted(nodes_to_direction(&tree, first, Direction::Down)), vec![a]);
    let mut expect = vec![third_split, b, c];
    expect.sort();
    assert_eq!(sorted(nodes_to_direction(&tree, a, Direction::Down)), expect);
    assert_eq!(sorted(nodes_to_direction(&tree, first, Direction::Down)), vec![a]);
    let mut expect = vec![first_split, a];
    expect.sort();
    assert_eq!(sorted(nodes_to_direction(&tree, b, Direction::Up)), expect);
    assert_eq!(sorted(nodes_to_direction(&tree, c, Direction::Left)), vec![b]);
    assert_eq!(sorted(nodes_to_direction(&tree, b, Direction::Right)), vec![c]);
}

#[test]
fn no_neighbors_without_a_split_on_the_axis() {
    let (tree, [root, _first_split, first, a, _third_split, b, c]) = four_leaves();
    assert!(nodes_to_direction(&tree, first, Direction::Up).is_empty());
    assert!(nodes_to_direction(&tree, first, Direction::Left).is_empty());
    assert!(nodes_to_direction(&tree, a, Direction::Right).is_empty());
    assert!(nodes_to_direction(&tree, b, Direction::Left).is_empty());
    assert!(nodes_to_direction(&tree, c, Direction::Down).is_empty());
    assert!(nodes_to_direction(&tree, root, Direction::Down).is_empty());
}

#[test]
fn ancestors_come_with_the_child_below() {
    let (tree, [root, _first_split, _first, _a, third_split, _b, c]) = four_leaves();
    let mut it = tree.get(c).unwrap().ancestors(&tree);
    assert_eq!(it.next(&tree), Some((third_split, c)));
    assert_eq!(it.next(&tree), Some((root, third_split)));
    assert_eq!(it.next(&tree), None);
    assert_eq!(it.next(&tree), None);
}

#[test]
fn descendants_stop_at_the_subtree() {
    let (tree, [_root, first_split, first, a, ..]) = four_leaves();
    let mut it = compositor::tree::DescendantIter { next: Some(first_split), top: first_split };
    assert_eq!(it.next(&tree), Some(first_split));
    assert_eq!(it.next(&tree), Some(first));
    assert_eq!(it.next(&tree), Some(a));
    assert_eq!(it.next(&tree), None);
    assert_eq!(it.next(&tree), None);
}

#[test]
fn set_rect_and_update_content() {
    let (mut tree, [_root, _first_split, first, ..]) = four_leaves();
    tree.set_rect(first, compositor::types::Rect { x: 1, y: 2, w: 3, h: 4 });
    assert_eq!(tree.get(first).unwrap().rect, compositor::types::Rect { x: 1, y: 2, w: 3, h: 4 });
    tree.update_content(first, |_| "changed");
    match &tree.get(first).unwrap().n {
        N::Leaf(leaf) => assert_eq!(leaf.content, "changed"),
        _ => panic!("not a leaf"),
    }
    assert!(tree.can_grow());
}
