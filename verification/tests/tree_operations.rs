use multi_indexed_tree::tree::MultiIndexedTree;

#[test]
fn test_tree_operations() {
    let mut tree = MultiIndexedTree::new("root", "root_value");

    tree.insert(&"root", "child1", "child1_value").unwrap();
    tree.insert(&"root", "child2", "child2_value").unwrap();
    tree.insert(&"child1", "child1.1", "child1.1_value").unwrap();

    assert_eq!(*tree.find(&"child1").unwrap().value(), "child1_value");
    assert_eq!(*tree.find(&"child2").unwrap().value(), "child2_value");
    assert_eq!(*tree.find(&"child1.1").unwrap().value(), "child1.1_value");

    tree.remove(&"child1").unwrap();
    assert!(tree.find(&"child1").is_none());
    assert!(tree.find(&"child1.1").is_none());
}

#[test]
fn test_secondary_index() {
    let mut tree = MultiIndexedTree::new("root", "root_value");

    tree.insert(&"root", "child1", "child1_value").unwrap();
    tree.insert(&"root", "child2", "child2_value").unwrap();

    tree.add_to_secondary_index("tag1".to_string(), "child1");
    tree.add_to_secondary_index("tag1".to_string(), "child2");

    let nodes = tree.find_by_secondary_index("tag1").unwrap();
    assert_eq!(nodes.len(), 2);
    assert!(nodes.iter().any(|n| *n.value() == "child1_value"));
    assert!(nodes.iter().any(|n| *n.value() == "child2_value"));
}
