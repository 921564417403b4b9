use multi_indexed_tree::node::Node;
use std::collections::HashMap;

fn arena(keys: &[&'static str]) -> (Vec<Node<&'static str, u32>>, HashMap<&'static str, usize>) {
    let mut nodes = Vec::new();
    let mut index = HashMap::new();
    let mut value: u32 = 0;
    for key in keys {
        index.insert(*key, nodes.len());
        nodes.push(Node::new(*key, value));
        value += 1;
    }
    (nodes, index)
}

#[test]
fn new_node_is_a_parentless_leaf() {
    let node = Node::new("k", 7u32);
    assert_eq!(*node.key(), "k");
    assert_eq!(*node.value(), 7);
    assert!(node.is_leaf());
    assert!(node.is_root());
    assert!(node.children().is_empty());
    assert_eq!(node.index(), 0);
    let nobody: Vec<Node<&'static str, u32>> = Vec::new();
    assert!(node.parent(&nobody).is_none());
}

#[test]
fn set_value_replaces_the_payload_only() {
    let mut node = Node::new("k", 7u32);
    node.set_value(9);
    assert_eq!(*node.value(), 9);
    assert_eq!(*node.key(), "k");
    assert!(node.is_leaf());
    assert!(node.is_root());
}

#[test]
fn attach_appends_as_last_child() {
    let (mut nodes, mut index) = arena(&["a", "b", "c"]);
    Node::attach(&mut nodes, 1, 0, &mut index);
    Node::attach(&mut nodes, 2, 0, &mut index);
    assert_eq!(nodes[0].children(), &vec![1, 2]);
    assert_eq!(nodes[1].index(), 0);
    assert_eq!(nodes[2].index(), 1);
    assert!(!nodes[1].is_root());
    assert!(!nodes[0].is_leaf());
    assert_eq!(*nodes[2].parent(&nodes).unwrap().key(), "a");
    assert_eq!(*nodes[1].parent(&nodes).unwrap().key(), "a");
}

#[test]
fn attach_takes_the_subtree_out_of_the_index_and_does_not_put_it_back() {
    let (mut nodes, mut index) = arena(&["a", "b", "c", "d"]);
    Node::attach(&mut nodes, 3, 2, &mut index);
    assert!(!index.contains_key("d"));
    index.insert("d", 3);
    Node::attach(&mut nodes, 2, 1, &mut index);
    assert!(index.contains_key("a"));
    assert!(index.contains_key("b"));
    assert!(!index.contains_key("c"));
    assert!(!index.contains_key("d"));
    assert_eq!(nodes[1].children(), &vec![2]);
    assert_eq!(nodes[2].children(), &vec![3]);
}

#[test]
fn attach_moves_a_node_from_one_parent_to_another() {
    let (mut nodes, mut index) = arena(&["a", "b", "c", "d"]);
    Node::attach(&mut nodes, 1, 0, &mut index);
    Node::attach(&mut nodes, 2, 0, &mut index);
    Node::attach(&mut nodes, 3, 0, &mut index);
    Node::attach(&mut nodes, 2, 1, &mut index);
    assert_eq!(nodes[0].children(), &vec![1, 3]);
    assert_eq!(nodes[3].index(), 1);
    assert_eq!(nodes[1].children(), &vec![2]);
    assert_eq!(nodes[2].index(), 0);
    assert_eq!(*nodes[2].parent(&nodes).unwrap().key(), "b");
}

#[test]
fn adopt_is_attach_seen_from_the_parent() {
    let (mut nodes, mut index) = arena(&["a", "b"]);
    Node::adopt(&mut nodes, 0, 1, &mut index);
    assert_eq!(nodes[0].children(), &vec![1]);
    assert_eq!(*nodes[1].parent(&nodes).unwrap().key(), "a");
    assert!(index.contains_key("a"));
    assert!(!index.contains_key("b"));
}

#[test]
fn abandon_fills_the_gap_with_the_last_child() {
    let (mut nodes, mut index) = arena(&["a", "b", "c", "d"]);
    Node::attach(&mut nodes, 1, 0, &mut index);
    Node::attach(&mut nodes, 2, 0, &mut index);
    Node::attach(&mut nodes, 3, 0, &mut index);
    Node::abandon(&mut nodes, 0, 1);
    assert_eq!(nodes[0].children(), &vec![3, 2]);
    assert_eq!(nodes[3].index(), 0);
    assert_eq!(nodes[2].index(), 1);
    assert!(nodes[1].is_root());
    assert!(nodes[1].parent(&nodes).is_none());
}

#[test]
fn abandon_of_the_last_child_moves_nobody() {
    let (mut nodes, mut index) = arena(&["a", "b", "c"]);
    Node::attach(&mut nodes, 1, 0, &mut index);
    Node::attach(&mut nodes, 2, 0, &mut index);
    Node::abandon(&mut nodes, 0, 2);
    assert_eq!(nodes[0].children(), &vec![1]);
    assert_eq!(nodes[1].index(), 0);
    assert!(nodes[2].is_root());
}

#[test]
fn abandon_of_the_only_child_leaves_a_leaf() {
    let (mut nodes, mut index) = arena(&["a", "b"]);
    Node::attach(&mut nodes, 1, 0, &mut index);
    Node::abandon(&mut nodes, 0, 1);
    assert!(nodes[0].is_leaf());
    assert!(nodes[1].is_root());
}

#[test]
fn detach_cuts_loose_and_purges_the_subtree() {
    let (mut nodes, mut index) = arena(&["a", "b", "c", "d", "e"]);
    Node::attach(&mut nodes, 1, 0, &mut index);
    Node::attach(&mut nodes, 2, 1, &mut index);
    Node::attach(&mut nodes, 3, 2, &mut index);
    Node::attach(&mut nodes, 4, 0, &mut index);
    for (slot, key) in ["a", "b", "c", "d", "e"].iter().enumerate() {
        index.insert(*key, slot);
    }
    Node::detach(&mut nodes, 1, &mut index);
    assert!(index.contains_key("a"));
    assert!(index.contains_key("e"));
    assert!(!index.contains_key("b"));
    assert!(!index.contains_key("c"));
    assert!(!index.contains_key("d"));
    assert_eq!(nodes[0].children(), &vec![4]);
    assert_eq!(nodes[4].index(), 0);
    assert!(nodes[1].is_root());
    assert_eq!(nodes[1].children(), &vec![2]);
    assert_eq!(nodes[2].children(), &vec![3]);
}

#[test]
fn detach_of_a_parentless_node_purges_only() {
    let (mut nodes, mut index) = arena(&["a", "b"]);
    Node::attach(&mut nodes, 1, 0, &mut index);
    index.insert("b", 1);
    Node::detach(&mut nodes, 0, &mut index);
    assert!(index.is_empty());
    assert_eq!(nodes[0].children(), &vec![1]);
    assert!(nodes[0].is_root());
}

#[test]
fn parent_is_nothing_where_the_arena_has_no_such_slot() {
    let (mut nodes, mut index) = arena(&["a", "b"]);
    Node::attach(&mut nodes, 1, 0, &mut index);
    let child = nodes[1].clone();
    let empty: Vec<Node<&'static str, u32>> = Vec::new();
    assert!(child.parent(&empty).is_none());
    assert_eq!(*child.parent(&nodes).unwrap().key(), "a");
}
