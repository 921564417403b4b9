use multi_indexed_tree::tree::MultiIndexedTree;

fn sample() -> MultiIndexedTree<&'static str, &'static str> {
    let mut tree = MultiIndexedTree::new("root", "root_value");
    tree.insert(&"root", "child1", "child1_value").unwrap();
    tree.insert(&"root", "child2", "child2_value").unwrap();
    tree.insert(&"child1", "child1.1", "child1.1_value").unwrap();
    tree
}

fn depth_first_keys(tree: &MultiIndexedTree<&'static str, &'static str>) -> Vec<&'static str> {
    let mut keys = Vec::new();
    let mut walk = tree.iter_depth_first();
    while let Some(node) = walk.next() {
        keys.push(*node.key());
    }
    keys
}

fn breadth_first_keys(tree: &MultiIndexedTree<&'static str, &'static str>) -> Vec<&'static str> {
    let mut keys = Vec::new();
    let mut walk = tree.iter_breadth_first();
    while let Some(node) = walk.next() {
        keys.push(*node.key());
    }
    keys
}

fn shortest_path_keys(tree: &MultiIndexedTree<&'static str, &'static str>) -> Vec<&'static str> {
    let mut keys = Vec::new();
    let mut walk = tree.iter_shortest_path();
    while let Some(node) = walk.next() {
        keys.push(*node.key());
    }
    keys
}

#[test]
fn test_depth_first_iterator() {
    let tree = sample();
    let dfs = depth_first_keys(&tree);
    assert_eq!(dfs, vec!["root", "child1", "child1.1", "child2"]);
}

#[test]
fn test_breadth_first_iterator() {
    let tree = sample();
    let bfs = breadth_first_keys(&tree);
    assert_eq!(bfs, vec!["root", "child1", "child2", "child1.1"]);
}

#[test]
fn test_shortest_path_iterator() {
    let mut tree = sample();
    tree.insert(&"child2", "child2.1", "child2.1_value").unwrap();
    let shortest_path = shortest_path_keys(&tree);
    assert_eq!(shortest_path, vec!["root", "child1", "child2", "child1.1", "child2.1"]);
}

#[test]
fn test_combined_features() {
    let mut tree = MultiIndexedTree::new("root", "root_value");

    tree.insert(&"root", "child1", "child1_value").unwrap();
    tree.insert(&"root", "child2", "child2_value").unwrap();
    tree.insert(&"child1", "child1.1", "child1.1_value").unwrap();
    tree.insert(&"child2", "child2.1", "child2.1_value").unwrap();

    assert_eq!(*tree.find(&"child1").unwrap().value(), "child1_value");
    assert_eq!(*tree.find(&"child2").unwrap().value(), "child2_value");

    tree.add_to_secondary_index("tag1".to_string(), "child1");
    tree.add_to_secondary_index("tag1".to_string(), "child2");

    let tagged_nodes = tree.find_by_secondary_index("tag1").unwrap();
    assert_eq!(tagged_nodes.len(), 2);

    let dfs = depth_first_keys(&tree);
    let bfs = breadth_first_keys(&tree);
    let shortest = shortest_path_keys(&tree);

    assert_eq!(dfs, vec!["root", "child1", "child1.1", "child2", "child2.1"]);
    assert_eq!(bfs, vec!["root", "child1", "child2", "child1.1", "child2.1"]);
    assert_eq!(shortest, vec!["root", "child1", "child2", "child1.1", "child2.1"]);
}

#[test]
fn walks_over_a_single_root() {
    let tree: MultiIndexedTree<&'static str, &'static str> = MultiIndexedTree::new("root", "root_value");
    assert_eq!(depth_first_keys(&tree), vec!["root"]);
    assert_eq!(breadth_first_keys(&tree), vec!["root"]);
    assert_eq!(shortest_path_keys(&tree), vec!["root"]);
}

#[test]
fn walks_stay_exhausted() {
    let tree = sample();
    let mut walk = tree.iter_depth_first();
    while walk.next().is_some() {}
    assert!(walk.next().is_none());
    assert!(walk.next().is_none());
    let mut walk = tree.iter_breadth_first();
    while walk.next().is_some() {}
    assert!(walk.next().is_none());
    let mut walk = tree.iter_shortest_path();
    while walk.next().is_some() {}
    assert!(walk.next().is_none());
}

#[test]
fn walks_leave_out_what_was_removed() {
    let mut tree = sample();
    tree.insert(&"child2", "child2.1", "child2.1_value").unwrap();
    tree.insert(&"root", "child3", "child3_value").unwrap();
    tree.remove(&"child1").unwrap();
    assert_eq!(depth_first_keys(&tree), vec!["root", "child3", "child2", "child2.1"]);
    assert_eq!(breadth_first_keys(&tree), vec!["root", "child3", "child2", "child2.1"]);
    assert_eq!(shortest_path_keys(&tree), vec!["root", "child3", "child2", "child2.1"]);
}

#[test]
fn walks_differ_on_a_deeper_tree() {
    let mut tree = sample();
    tree.insert(&"child1.1", "child1.1.1", "v").unwrap();
    tree.insert(&"child2", "child2.1", "v").unwrap();
    tree.insert(&"child1", "child1.2", "v").unwrap();
    assert_eq!(
        depth_first_keys(&tree),
        vec!["root", "child1", "child1.1", "child1.1.1", "child1.2", "child2", "child2.1"]
    );
    assert_eq!(
        breadth_first_keys(&tree),
        vec!["root", "child1", "child2", "child1.1", "child1.2", "child2.1", "child1.1.1"]
    );
    assert_eq!(shortest_path_keys(&tree), breadth_first_keys(&tree));
}

#[test]
fn walk_from_an_inner_node() {
    let mut tree = sample();
    tree.insert(&"child1", "child1.2", "v").unwrap();
    let nodes = tree.nodes();
    let start = nodes.iter().position(|n| *n.key() == "child1").unwrap();
    let mut keys = Vec::new();
    let mut walk = multi_indexed_tree::DepthFirstIterator::new(nodes, start);
    while let Some(node) = walk.next() {
        keys.push(*node.key());
    }
    assert_eq!(keys, vec!["child1", "child1.1", "child1.2"]);
    let mut keys = Vec::new();
    let mut walk = multi_indexed_tree::BreadthFirstIterator::new(nodes, start);
    while let Some(node) = walk.next() {
        keys.push(*node.key());
    }
    assert_eq!(keys, vec!["child1", "child1.1", "child1.2"]);
    let mut keys = Vec::new();
    let mut walk = multi_indexed_tree::ShortestPathIterator::new(nodes, start);
    while let Some(node) = walk.next() {
        keys.push(*node.key());
    }
    assert_eq!(keys, vec!["child1", "child1.1", "child1.2"]);
}
