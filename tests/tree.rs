use rsx_tree::{ArenaItemId, BucketIdGenerator, Children, EdgeId, Tree};

fn ids_forward(children: &mut Children<'_, &'static str>) -> Vec<ArenaItemId> {
    let mut out = Vec::new();
    while let Some(child) = children.next() {
        out.push(child.id());
    }
    out
}

fn ids_backward(children: &mut Children<'_, &'static str>) -> Vec<ArenaItemId> {
    let mut out = Vec::new();
    while let Some(child) = children.next_back() {
        out.push(child.id());
    }
    out
}

fn build(ids: &mut BucketIdGenerator, values: &[&'static str]) -> (Tree<&'static str>, Vec<ArenaItemId>) {
    let mut tree = Tree::new(ids, "root");
    let root = tree.root();
    let mut children = Vec::new();
    for v in values {
        let mut parent = tree.get_mut(root);
        children.push(parent.append(v).id());
    }
    (tree, children)
}

#[test]
fn new_tree_has_a_lone_root() {
    let mut ids = BucketIdGenerator::new();
    let tree = Tree::new(&mut ids, "root");
    let root = tree.get(tree.root());
    assert_eq!(root.try_value(), Some(&"root"));
    assert_eq!(root.parent_id(), None);
    assert_eq!(root.edge_ids(), (None, None));
    assert_eq!(root.sibling_ids(), (None, None));
    assert!(root.children_ids_iter().is_empty());
}

#[test]
fn append_links_children_in_order() {
    let mut ids = BucketIdGenerator::new();
    let (tree, c) = build(&mut ids, &["a", "b", "c"]);
    let root = tree.get(tree.root());
    assert_eq!(root.children_ids_iter(), c);
    assert_eq!(root.first_child_id(), Some(c[0]));
    assert_eq!(root.last_child_id(), Some(c[2]));
    let b = tree.get(c[1]);
    assert_eq!(b.sibling_ids(), (Some(c[0]), Some(c[2])));
    assert_eq!(b.parent_id(), Some(tree.root()));
    assert_eq!(b.parent().map(|p| p.id()), Some(tree.root()));
    assert_eq!(b.prev_sibling().and_then(|p| p.try_into_value()), Some(&"a"));
    assert_eq!(b.next_sibling().and_then(|n| n.try_value()), Some(&"c"));
    assert_eq!(root.children_values_iter(), vec![&"a", &"b", &"c"]);
}

#[test]
fn prepend_links_children_before_the_first() {
    let mut ids = BucketIdGenerator::new();
    let mut tree = Tree::new(&mut ids, "root");
    let root = tree.root();
    let a = tree.get_mut(root).prepend("a").id();
    let b = tree.get_mut(root).prepend("b").id();
    let c = tree.get_mut(root).append("c").id();
    assert_eq!(tree.get(root).children_ids_iter(), vec![b, a, c]);
    assert_eq!(tree.get(root).edge_ids(), (Some(b), Some(c)));
}

#[test]
fn children_front_to_back_is_back_to_front_reversed() {
    let mut ids = BucketIdGenerator::new();
    let (tree, c) = build(&mut ids, &["a", "b", "c", "d"]);
    let root = tree.get(tree.root());
    let forward = ids_forward(&mut root.children_refs_iter());
    let mut backward = ids_backward(&mut root.children_refs_iter());
    backward.reverse();
    assert_eq!(forward, c);
    assert_eq!(backward, c);
}

#[test]
fn children_cursor_meets_in_the_middle() {
    let mut ids = BucketIdGenerator::new();
    let (tree, c) = build(&mut ids, &["a", "b", "c"]);
    let root = tree.get(tree.root());
    let mut cursor = root.children_refs_iter();
    assert_eq!(cursor.next().map(|r| r.id()), Some(c[0]));
    assert_eq!(cursor.next_back().map(|r| r.id()), Some(c[2]));
    assert_eq!(cursor.next().map(|r| r.id()), Some(c[1]));
    assert!(cursor.next_back().is_none());
    assert!(cursor.next().is_none());
}

#[test]
fn single_child_is_first_and_last() {
    let mut ids = BucketIdGenerator::new();
    let (tree, c) = build(&mut ids, &["only"]);
    let root = tree.get(tree.root());
    assert_eq!(root.edge_ids(), (Some(c[0]), Some(c[0])));
    let leaf = tree.get(c[0]);
    assert_eq!(leaf.edge_ids(), (None, None));
}

#[test]
fn append_then_detach_restores_the_child_list() {
    let mut ids = BucketIdGenerator::new();
    let (mut tree, c) = build(&mut ids, &["a", "b"]);
    let root = tree.root();
    let fresh = tree.get_mut(root).append("fresh").id();
    assert_eq!(tree.get(root).children_ids_iter(), vec![c[0], c[1], fresh]);
    tree.get_mut(fresh).detach();
    assert_eq!(tree.get(root).children_ids_iter(), c);
    assert_eq!(tree.get(root).edge_ids(), (Some(c[0]), Some(c[1])));
    assert_eq!(tree.get(c[1]).next_sibling_id(), None);
    let gone = tree.get(fresh);
    assert_eq!(gone.parent_id(), None);
    assert_eq!(gone.sibling_ids(), (None, None));
    assert_eq!(gone.try_value(), Some(&"fresh"));
}

#[test]
fn detach_relinks_neighbours() {
    let mut ids = BucketIdGenerator::new();
    let (mut tree, c) = build(&mut ids, &["a", "b", "c"]);
    let root = tree.root();
    assert_eq!(tree.get_mut(c[1]).detach_own_id(), Some(()));
    assert_eq!(tree.get(root).children_ids_iter(), vec![c[0], c[2]]);
    assert_eq!(tree.get(c[0]).next_sibling_id(), Some(c[2]));
    assert_eq!(tree.get(c[2]).prev_sibling_id(), Some(c[0]));
    tree.get_mut(c[0]).detach();
    assert_eq!(tree.get(root).edge_ids(), (Some(c[2]), Some(c[2])));
    tree.get_mut(c[2]).detach();
    assert_eq!(tree.get(root).edge_ids(), (None, None));
}

#[test]
fn detach_without_parent_changes_nothing() {
    let mut ids = BucketIdGenerator::new();
    let (mut tree, c) = build(&mut ids, &["a"]);
    let root = tree.root();
    assert_eq!(tree.get_mut(root).detach_own_id(), None);
    assert_eq!(tree.get(root).children_ids_iter(), c);
}

#[test]
fn detached_subtree_keeps_its_children_and_can_be_attached_again() {
    let mut ids = BucketIdGenerator::new();
    let (mut tree, c) = build(&mut ids, &["a", "b"]);
    let root = tree.root();
    let grandchild = tree.get_mut(c[0]).append("a1").id();
    tree.get_mut(c[0]).detach();
    assert_eq!(tree.get(c[0]).children_ids_iter(), vec![grandchild]);
    assert_eq!(tree.get_mut(c[1]).append_id(c[0]), Some(()));
    assert_eq!(tree.get(c[1]).children_ids_iter(), vec![c[0]]);
    assert_eq!(tree.get(root).children_ids_iter(), vec![c[1]]);
}

#[test]
fn attaching_is_refused_for_linked_self_root_or_missing_nodes() {
    let mut ids = BucketIdGenerator::new();
    let (mut tree, c) = build(&mut ids, &["a", "b"]);
    let root = tree.root();
    assert_eq!(tree.get_mut(c[0]).append_id(c[1]), None);
    assert_eq!(tree.get_mut(c[0]).prepend_id(c[0]), None);
    assert_eq!(tree.get_mut(c[0]).append_id(root), None);
    let mut other_ids = BucketIdGenerator::new();
    let mut other = Tree::new(&mut other_ids, "x");
    let stranger = other.allocate("y");
    let _ = other.get(stranger);
    let missing = ArenaItemId::from_u64(stranger.to_u64() + (1000u64 << 32));
    assert_eq!(tree.get_mut(c[0]).append_id(missing), None);
    assert_eq!(tree.get(root).children_ids_iter(), c);
}

#[test]
fn values_can_be_changed_through_handles() {
    let mut ids = BucketIdGenerator::new();
    let mut tree: Tree<String> = Tree::new(&mut ids, "root".to_string());
    let root = tree.root();
    let a = tree.get_mut(root).append("a".to_string()).id();
    tree.get_mut(a).try_value_mut().unwrap().push('!');
    assert_eq!(tree.get(a).try_value().map(|s| s.as_str()), Some("a!"));
    let handle = tree.get_mut(a);
    *handle.try_into_value().unwrap() = "z".to_string();
    assert_eq!(tree.get_mut(a).try_value().map(|s| s.as_str()), Some("z"));
}

#[test]
fn pair_of_nodes_can_be_written_together() {
    let mut ids = BucketIdGenerator::new();
    let mut tree: Tree<i32> = Tree::new(&mut ids, 0);
    let root = tree.root();
    let a = tree.get_mut(root).append(1).id();
    {
        let mut pair = tree.get_mut_pair((root, a));
        let (parent, child) = pair.try_values().unwrap();
        *child += *parent + 10;
        *parent = 5;
        assert_eq!(*child, 11);
    }
    assert_eq!(tree.get(root).try_value(), Some(&5));
    assert_eq!(tree.get(a).try_value(), Some(&11));
    let pair = tree.get_mut_pair((a, root));
    let (x, y) = pair.try_into_values().unwrap();
    std::mem::swap(x, y);
    assert_eq!(tree.get(root).try_value(), Some(&11));
    assert_eq!(tree.get(a).try_value(), Some(&5));
}

#[test]
fn append_tree_moves_the_other_roots_children() {
    let mut ids = BucketIdGenerator::new();
    let mut a = Tree::new(&mut ids, "a-root");
    let (b, b_children) = build(&mut ids, &["x", "y"]);
    let b_grandchild;
    let mut b = b;
    {
        b_grandchild = b.get_mut(b_children[0]).append("x1").id();
    }
    let a_root = a.root();
    assert!(a.get_mut(a_root).append_tree(b));
    let root = a.get(a_root);
    assert_eq!(root.children_ids_iter(), b_children);
    assert_eq!(a.get(b_children[0]).children_ids_iter(), vec![b_grandchild]);
    assert_eq!(a.get(b_children[0]).parent_id(), Some(a_root));
    assert_eq!(a.get(b_grandchild).try_value(), Some(&"x1"));
    assert_eq!(a.get(b_children[1]).try_value(), Some(&"y"));
}

#[test]
fn append_tree_goes_after_existing_children() {
    let mut ids = BucketIdGenerator::new();
    let (mut a, a_children) = build(&mut ids, &["p"]);
    let (b, b_children) = build(&mut ids, &["x", "y"]);
    let a_root = a.root();
    assert!(a.get_mut(a_root).append_tree(b));
    assert_eq!(a.get(a_root).children_ids_iter(), vec![a_children[0], b_children[0], b_children[1]]);
}

#[test]
fn prepend_tree_puts_the_children_first_in_reverse() {
    let mut ids = BucketIdGenerator::new();
    let (mut a, a_children) = build(&mut ids, &["p"]);
    let (b, b_children) = build(&mut ids, &["x", "y"]);
    let a_root = a.root();
    assert!(a.get_mut(a_root).prepend_tree(b));
    assert_eq!(a.get(a_root).children_ids_iter(), vec![b_children[1], b_children[0], a_children[0]]);
}

#[test]
fn traversal_reports_open_and_close_in_pre_order() {
    let mut ids = BucketIdGenerator::new();
    let (mut tree, c) = build(&mut ids, &["a", "b"]);
    let root = tree.root();
    let a1 = tree.get_mut(c[0]).append("a1").id();
    let r = tree.get(root);
    let mut walk = r.traverse_edges_iter();
    let mut seen = Vec::new();
    while let Some(edge) = walk.next() {
        seen.push(edge.id_edge());
    }
    assert_eq!(
        seen,
        vec![
            EdgeId::Open(root),
            EdgeId::Open(c[0]),
            EdgeId::Open(a1),
            EdgeId::Close(a1),
            EdgeId::Close(c[0]),
            EdgeId::Open(c[1]),
            EdgeId::Close(c[1]),
            EdgeId::Close(root),
        ]
    );
}

#[test]
fn traversal_from_an_inner_node_stays_in_its_subtree() {
    let mut ids = BucketIdGenerator::new();
    let (mut tree, c) = build(&mut ids, &["a", "b"]);
    let a1 = tree.get_mut(c[0]).append("a1").id();
    let start = tree.get(c[0]);
    let mut walk = start.traverse_edges_iter();
    let mut values = Vec::new();
    while let Some(edge) = walk.next() {
        if let EdgeId::Open(_) = edge.id_edge() {
            values.push(*edge.node().try_value().unwrap());
        }
    }
    assert_eq!(values, vec!["a", "a1"]);
    let _ = a1;
}

#[test]
fn descendants_are_in_pre_order_with_the_start_first() {
    let mut ids = BucketIdGenerator::new();
    let (mut tree, c) = build(&mut ids, &["a", "b"]);
    let root = tree.root();
    let a1 = tree.get_mut(c[0]).append("a1").id();
    let a2 = tree.get_mut(c[0]).append("a2").id();
    let b1 = tree.get_mut(c[1]).append("b1").id();
    let r = tree.get(root);
    let mut walk = r.descendants_refs_iter();
    let mut seen = Vec::new();
    while let Some(node) = walk.next() {
        seen.push(node.id());
    }
    assert_eq!(seen, vec![root, c[0], a1, a2, c[1], b1]);
    // A finished walk starts over from its root.
    assert_eq!(walk.next().map(|n| n.id()), Some(root));
}

#[test]
fn descendants_of_a_leaf_is_the_leaf() {
    let mut ids = BucketIdGenerator::new();
    let (tree, c) = build(&mut ids, &["a", "b"]);
    let leaf = tree.get(c[1]);
    let mut walk = leaf.descendants_refs_iter();
    assert_eq!(walk.next().and_then(|n| n.try_value()), Some(&"b"));
    assert!(walk.next().is_none());
}

#[test]
fn attaching_an_ancestor_below_its_descendant_is_refused() {
    let mut ids = BucketIdGenerator::new();
    let (mut tree, c) = build(&mut ids, &["a"]);
    let root = tree.root();
    let a1 = tree.get_mut(c[0]).append("a1").id();
    tree.get_mut(c[0]).detach();
    assert_eq!(tree.get_mut(a1).append_id(c[0]), None);
    assert_eq!(tree.get(a1).children_ids_iter(), Vec::<ArenaItemId>::new());
    assert_eq!(tree.get_mut(root).append_id(c[0]), Some(()));
    assert_eq!(tree.get(root).children_ids_iter(), c);
}

#[test]
fn mutable_handles_navigate_and_report_links() {
    let mut ids = BucketIdGenerator::new();
    let (mut tree, c) = build(&mut ids, &["a", "b", "c"]);
    let root = tree.root();
    let mut handle = tree.get_mut(c[1]);
    assert_eq!(handle.sibling_ids(), (Some(c[0]), Some(c[2])));
    assert_eq!(handle.edge_ids(), (None, None));
    assert_eq!(handle.parent().map(|p| p.id()), Some(root));
    assert_eq!(handle.next_sibling().map(|n| n.id()), Some(c[2]));
    assert_eq!(handle.prev_sibling().map(|n| n.id()), Some(c[0]));
    assert!(handle.first_child().is_none());
    let mut parent = tree.get_mut(root);
    assert_eq!(parent.first_child().map(|n| n.id()), Some(c[0]));
    assert_eq!(parent.last_child().map(|n| n.id()), Some(c[2]));
    let back = tree.get_mut(c[2]).into_ref();
    assert_eq!(back.try_value(), Some(&"c"));
}
