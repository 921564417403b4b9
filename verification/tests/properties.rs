use multi_indexed_tree::tree::{MultiIndexedTree, TreeError};

type Tree = MultiIndexedTree<&'static str, &'static str>;

fn family() -> Tree {
    let mut tree = MultiIndexedTree::new("root", "root_value");
    tree.insert(&"root", "child1", "child1_value").unwrap();
    tree.insert(&"root", "child2", "child2_value").unwrap();
    tree.insert(&"child1", "child1.1", "child1.1_value").unwrap();
    tree.insert(&"child2", "child2.1", "child2.1_value").unwrap();
    tree
}

fn assert_bookkeeping(tree: &Tree) {
    let nodes = tree.nodes();
    for (slot, node) in nodes.iter().enumerate() {
        if let Some(parent) = node.parent(nodes) {
            assert_eq!(parent.children()[node.index()], slot);
        }
        for (position, child) in node.children().iter().enumerate() {
            assert_eq!(nodes[*child].index(), position);
            assert_eq!(*nodes[*child].parent(nodes).unwrap().key(), *node.key());
        }
    }
}

#[test]
fn new_tree_holds_its_root() {
    let tree: Tree = MultiIndexedTree::new("root", "root_value");
    let root = tree.find(&"root").unwrap();
    assert_eq!(*root.key(), "root");
    assert_eq!(*root.value(), "root_value");
    assert!(root.is_root());
    assert!(root.is_leaf());
    assert_eq!(*tree.root().key(), "root");
    assert_eq!(tree.nodes().len(), 1);
}

#[test]
fn root_is_found_after_inserts_and_removes() {
    let mut tree = family();
    assert!(tree.find(&"root").is_some());
    tree.remove(&"child1").unwrap();
    assert!(tree.find(&"root").is_some());
    tree.insert(&"root", "child3", "child3_value").unwrap();
    tree.remove(&"child2.1").unwrap();
    tree.remove(&"child2").unwrap();
    assert_eq!(*tree.find(&"root").unwrap().key(), "root");
    assert_eq!(*tree.find(&"root").unwrap().value(), "root_value");
}

#[test]
fn insert_then_find_gives_value_and_parent() {
    let mut tree = family();
    tree.insert(&"child1.1", "deep", "deep_value").unwrap();
    let node = tree.find(&"deep").unwrap();
    assert_eq!(*node.value(), "deep_value");
    assert_eq!(*node.key(), "deep");
    assert_eq!(*node.parent(tree.nodes()).unwrap().key(), "child1.1");
    assert!(node.is_leaf());
    let parent = tree.find(&"child1.1").unwrap();
    assert_eq!(parent.children().len(), 1);
    assert_eq!(*tree.nodes()[parent.children()[0]].key(), "deep");
}

#[test]
fn remove_hides_the_node_and_all_beneath_it() {
    let mut tree = family();
    tree.insert(&"child1.1", "deep", "deep_value").unwrap();
    tree.remove(&"child1").unwrap();
    assert!(tree.find(&"child1").is_none());
    assert!(tree.find(&"child1.1").is_none());
    assert!(tree.find(&"deep").is_none());
    assert!(tree.find(&"child2").is_some());
    assert!(tree.find(&"child2.1").is_some());
    assert!(tree.find(&"root").is_some());
    let root = tree.find(&"root").unwrap();
    assert_eq!(root.children().len(), 1);
    assert_eq!(*tree.nodes()[root.children()[0]].key(), "child2");
}

#[test]
fn bookkeeping_holds_after_every_step() {
    let mut tree = family();
    assert_bookkeeping(&tree);
    tree.insert(&"root", "child3", "child3_value").unwrap();
    assert_bookkeeping(&tree);
    tree.remove(&"child1").unwrap();
    assert_bookkeeping(&tree);
    let root = tree.find(&"root").unwrap();
    let keys: Vec<&str> = root.children().iter().map(|c| *tree.nodes()[*c].key()).collect();
    assert_eq!(keys, vec!["child3", "child2"]);
    tree.insert(&"child3", "child3.1", "child3.1_value").unwrap();
    assert_bookkeeping(&tree);
    tree.remove(&"child2").unwrap();
    assert_bookkeeping(&tree);
    tree.remove(&"child3.1").unwrap();
    assert_bookkeeping(&tree);
}

#[test]
fn find_is_stable_between_changes() {
    let tree = family();
    let first = tree.find(&"child1").unwrap();
    let second = tree.find(&"child1").unwrap();
    assert_eq!(*first.key(), *second.key());
    assert_eq!(*first.value(), *second.value());
    assert_eq!(first.children(), second.children());
    assert_eq!(first.index(), second.index());
    assert!(std::ptr::eq(first, second));
    assert!(tree.find(&"nobody").is_none());
    assert!(tree.find(&"nobody").is_none());
}

#[test]
fn insert_under_a_missing_parent_is_refused() {
    let mut tree = family();
    let before = tree.nodes().len();
    assert_eq!(tree.insert(&"nobody", "x", "x_value"), Err(TreeError::ParentNotFound));
    assert_eq!(tree.nodes().len(), before);
    assert!(tree.find(&"x").is_none());
}

#[test]
fn remove_of_a_missing_key_is_refused() {
    let mut tree = family();
    assert_eq!(tree.remove(&"nobody"), Err(TreeError::KeyNotFound));
    assert!(tree.find(&"child1").is_some());
    tree.remove(&"child1").unwrap();
    assert_eq!(tree.remove(&"child1"), Err(TreeError::KeyNotFound));
    assert_eq!(tree.remove(&"child1.1"), Err(TreeError::KeyNotFound));
}

#[test]
fn errors_describe_themselves() {
    assert_eq!(TreeError::ParentNotFound.message(), "Parent key not found");
    assert_eq!(TreeError::KeyNotFound.message(), "Key not found");
}

#[test]
fn insert_of_a_key_that_is_there_overwrites_the_index_entry() {
    let mut tree = family();
    tree.insert(&"child2", "child1", "second").unwrap();
    let found = tree.find(&"child1").unwrap();
    assert_eq!(*found.value(), "second");
    assert_eq!(*found.parent(tree.nodes()).unwrap().key(), "child2");
    let root = tree.find(&"root").unwrap();
    let keys: Vec<&str> = root.children().iter().map(|c| *tree.nodes()[*c].key()).collect();
    assert_eq!(keys, vec!["child1", "child2"]);
    assert_eq!(*tree.nodes()[root.children()[0]].value(), "child1_value");
    assert!(tree.find(&"child1.1").is_some());
}

#[test]
fn remove_of_the_root_empties_the_index_and_cuts_nothing() {
    let mut tree = family();
    tree.remove(&"root").unwrap();
    assert!(tree.find(&"root").is_none());
    assert!(tree.find(&"child1").is_none());
    assert!(tree.find(&"child2.1").is_none());
    assert_eq!(*tree.root().key(), "root");
    assert_eq!(tree.root().children().len(), 2);
    assert_eq!(tree.insert(&"root", "x", "x_value"), Err(TreeError::ParentNotFound));
    assert_eq!(tree.remove(&"root"), Err(TreeError::KeyNotFound));
}

#[test]
fn set_value_reaches_the_node_found_for_the_key() {
    let mut tree = family();
    assert!(tree.set_value(&"child1", "changed"));
    assert_eq!(*tree.find(&"child1").unwrap().value(), "changed");
    assert_eq!(*tree.find(&"child2").unwrap().value(), "child2_value");
    assert_eq!(tree.find(&"child1").unwrap().children().len(), 1);
    assert!(!tree.set_value(&"nobody", "lost"));
}

#[test]
fn unregistered_tag_gives_nothing() {
    let mut tree = family();
    assert!(tree.find_by_secondary_index("tag1").is_none());
    tree.add_to_secondary_index("tag1".to_string(), "child1");
    assert!(tree.find_by_secondary_index("tag2").is_none());
    assert!(tree.find_by_secondary_index("").is_none());
    assert!(tree.find_by_secondary_index("tag1").is_some());
}

#[test]
fn tag_lookup_keeps_registration_order_and_drops_removed_keys() {
    let mut tree = family();
    tree.add_to_secondary_index("tag1".to_string(), "child2.1");
    tree.add_to_secondary_index("tag1".to_string(), "child1");
    tree.add_to_secondary_index("tag1".to_string(), "child1.1");
    tree.add_to_secondary_index("tag1".to_string(), "root");
    tree.add_to_secondary_index("other".to_string(), "child2");
    let keys: Vec<&str> = tree.find_by_secondary_index("tag1").unwrap().iter().map(|n| *n.key()).collect();
    assert_eq!(keys, vec!["child2.1", "child1", "child1.1", "root"]);
    tree.remove(&"child1").unwrap();
    let keys: Vec<&str> = tree.find_by_secondary_index("tag1").unwrap().iter().map(|n| *n.key()).collect();
    assert_eq!(keys, vec!["child2.1", "root"]);
    let keys: Vec<&str> = tree.find_by_secondary_index("other").unwrap().iter().map(|n| *n.key()).collect();
    assert_eq!(keys, vec!["child2"]);
    tree.remove(&"child2").unwrap();
    assert!(tree.find_by_secondary_index("other").unwrap().is_empty());
}

#[test]
fn tags_take_unknown_and_repeated_keys() {
    let mut tree = family();
    tree.add_to_secondary_index("tag".to_string(), "ghost");
    tree.add_to_secondary_index("tag".to_string(), "child1");
    tree.add_to_secondary_index("tag".to_string(), "child1");
    let keys: Vec<&str> = tree.find_by_secondary_index("tag").unwrap().iter().map(|n| *n.key()).collect();
    assert_eq!(keys, vec!["child1", "child1"]);
    tree.insert(&"root", "ghost", "ghost_value").unwrap();
    let keys: Vec<&str> = tree.find_by_secondary_index("tag").unwrap().iter().map(|n| *n.key()).collect();
    assert_eq!(keys, vec!["ghost", "child1", "child1"]);
}
