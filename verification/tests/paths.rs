use multi_indexed_tree::paths::shortest_paths_between;
use multi_indexed_tree::tree::MultiIndexedTree;
use multi_indexed_tree::node::Node;
use std::collections::HashMap;

fn family() -> MultiIndexedTree<&'static str, &'static str> {
    let mut tree = MultiIndexedTree::new("root", "root_value");
    tree.insert(&"root", "child1", "child1_value").unwrap();
    tree.insert(&"root", "child2", "child2_value").unwrap();
    tree.insert(&"child1", "child1.1", "child1.1_value").unwrap();
    tree.insert(&"child2", "child2.1", "child2.1_value").unwrap();
    tree.insert(&"child1.1", "deep", "deep_value").unwrap();
    tree
}

#[test]
fn way_from_the_root_down_to_a_leaf() {
    let tree = family();
    let paths = tree.dijkstra_shortest_paths(&"root", &"deep").unwrap();
    assert_eq!(paths.len(), 1);
    assert_eq!(paths[&4], vec!["root", "child1", "child1.1", "deep"]);
}

#[test]
fn way_from_an_inner_node_down() {
    let tree = family();
    let paths = tree.dijkstra_shortest_paths(&"child1", &"deep").unwrap();
    assert_eq!(paths.len(), 1);
    assert_eq!(paths[&3], vec!["child1", "child1.1", "deep"]);
    let paths = tree.dijkstra_shortest_paths(&"child2", &"child2.1").unwrap();
    assert_eq!(paths.len(), 1);
    assert_eq!(paths[&2], vec!["child2", "child2.1"]);
}

#[test]
fn a_key_reaches_itself() {
    let tree = family();
    let paths = tree.dijkstra_shortest_paths(&"child1", &"child1").unwrap();
    assert_eq!(paths.len(), 1);
    assert_eq!(paths[&1], vec!["child1"]);
    let paths = tree.dijkstra_shortest_paths(&"nobody", &"nobody").unwrap();
    assert_eq!(paths.len(), 1);
    assert_eq!(paths[&1], vec!["nobody"]);
}

#[test]
fn no_way_up_or_sideways() {
    let tree = family();
    assert!(tree.dijkstra_shortest_paths(&"deep", &"root").is_none());
    assert!(tree.dijkstra_shortest_paths(&"child1", &"child2").is_none());
    assert!(tree.dijkstra_shortest_paths(&"child1", &"child2.1").is_none());
    assert!(tree.dijkstra_shortest_paths(&"child1.1", &"child1").is_none());
}

#[test]
fn no_way_from_or_to_a_key_that_is_not_there() {
    let tree = family();
    assert!(tree.dijkstra_shortest_paths(&"nobody", &"root").is_none());
    assert!(tree.dijkstra_shortest_paths(&"root", &"nobody").is_none());
    assert!(tree.dijkstra_shortest_paths(&"nobody", &"nothing").is_none());
}

#[test]
fn no_way_to_what_was_removed() {
    let mut tree = family();
    tree.remove(&"child1.1").unwrap();
    assert!(tree.dijkstra_shortest_paths(&"root", &"deep").is_none());
    assert!(tree.dijkstra_shortest_paths(&"root", &"child1.1").is_none());
    let paths = tree.dijkstra_shortest_paths(&"root", &"child1").unwrap();
    assert_eq!(paths[&2], vec!["root", "child1"]);
}

#[test]
fn ways_on_a_bare_arena() {
    let mut nodes = vec![Node::new(10u64, ()), Node::new(20, ()), Node::new(30, ()), Node::new(40, ())];
    let mut index: HashMap<u64, usize> = HashMap::new();
    Node::attach(&mut nodes, 1, 0, &mut index);
    Node::attach(&mut nodes, 2, 1, &mut index);
    Node::attach(&mut nodes, 3, 1, &mut index);
    for (slot, key) in [10u64, 20, 30, 40].iter().enumerate() {
        index.insert(*key, slot);
    }
    let paths = shortest_paths_between(&nodes, &index, &10, &40).unwrap();
    assert_eq!(paths.len(), 1);
    assert_eq!(paths[&3], vec![10, 20, 40]);
    assert!(shortest_paths_between(&nodes, &index, &30, &40).is_none());
}
