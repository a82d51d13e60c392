use knossos::arena::{ArenaTree, NodeId};

#[test]
fn unconnected_nodes() {
    let mut arena = ArenaTree::new();

    let node1 = arena.new_node();
    let node2 = arena.new_node();
    let node3 = arena.new_node();

    assert!(!arena.connected(node1, node2));
    assert!(!arena.connected(node1, node3));
}

#[test]
fn connect_two_nodes() {
    let mut arena = ArenaTree::new();

    let node1 = arena.new_node();
    let node2 = arena.new_node();
    let node3 = arena.new_node();

    arena.connect(node1, node2);
    assert!(arena.connected(node1, node2));
    assert!(!arena.connected(node1, node3));
}

#[test]
fn connect_three_nodes() {
    let mut arena = ArenaTree::new();

    let node1 = arena.new_node();
    let node2 = arena.new_node();
    let node3 = arena.new_node();

    arena.connect(node1, node2);
    arena.connect(node3, node2);

    assert!(arena.connected(node1, node2));
    assert!(arena.connected(node1, node3));
    assert!(arena.connected(node3, node2));
}

#[test]
fn connect_one_none_node() {
    let mut arena = ArenaTree::new();
    let node1 = arena.new_node();

    arena.connect(node1, NodeId(2));
    arena.connect(NodeId(2), node1);
}

#[test]
fn connect_two_none_node() {
    let mut arena = ArenaTree::new();
    arena.connect(NodeId(1), NodeId(2));
}

#[test]
fn connect_is_transitive_and_leaves_others_alone() {
    let mut arena = ArenaTree::new();
    let a = arena.new_node();
    let b = arena.new_node();
    let c = arena.new_node();
    let d = arena.new_node();

    arena.connect(a, b);
    arena.connect(b, c);

    assert!(arena.connected(a, c));
    assert!(arena.connected(c, a));
    assert!(arena.connected(d, d));
    assert!(!arena.connected(d, a));
    assert!(!arena.connected(d, b));
    assert!(!arena.connected(d, c));
    assert_eq!(arena.len(), 4);
}

#[test]
fn connect_twice_changes_nothing() {
    let mut arena = ArenaTree::new();
    let a = arena.new_node();
    let b = arena.new_node();

    arena.connect(a, b);
    arena.connect(a, b);
    arena.connect(b, a);
    arena.connect(a, a);

    assert!(arena.connected(a, b));
    assert_eq!(arena.root(a).map(|n| n.0), arena.root(b).map(|n| n.0));
}

#[test]
fn a_missing_node_has_no_root_and_no_company() {
    let mut arena = ArenaTree::new();
    let a = arena.new_node();

    assert!(arena.root(NodeId(7)).is_none());
    assert!(!arena.connected(a, NodeId(7)));
    assert!(!arena.connected(NodeId(7), NodeId(7)));
    assert_eq!(arena.root(a).map(|n| n.0), Some(0));
}

#[test]
fn long_chains_are_followed_to_their_root() {
    let mut arena = ArenaTree::new();
    let mut nodes = Vec::new();
    for _ in 0..200 {
        nodes.push(arena.new_node());
    }
    for i in 1..200 {
        arena.connect(nodes[i], nodes[i - 1]);
    }
    for i in 0..200 {
        assert!(arena.connected(nodes[0], nodes[i]));
        assert_eq!(arena.root(nodes[i]).map(|n| n.0), Some(199));
    }
}
