//! The tree: an arena of nodes with a root, a primary index from keys to
//! nodes and a secondary index from tags to keys.
use crate::forest::{
    child_link_ok, descends_from, detached, forest_wf, lemma_detached_wf, lemma_leaf_subtree_keys, lemma_pushed_wf,
    parent_link_ok, subtree_keys, NodeView,
};
use crate::node::{views, Node};
use crate::order::{level_order, preorder};
use crate::paths::{path_views, shortest_paths, shortest_paths_between};
use crate::tags::TagIndex;
use crate::traversal::{BreadthFirstIterator, DepthFirstIterator, ShortestPathIterator};
use std::collections::HashMap;
use std::hash::Hash;
use vstd::prelude::*;
use vstd::std_specs::hash::obeys_key_model;

verus! {

/// Why an operation on the tree was refused.
#[derive(Debug, Clone, Copy, PartialEq, Eq, Structural)]
pub enum TreeError {
    /// `insert` was given a parent key that the primary index does not hold.
    ParentNotFound,
    /// `remove` was given a key that the primary index does not hold.
    KeyNotFound,
}

impl TreeError {
    /// A short description of the error.
    pub fn message(&self) -> (r: String)
        ensures
            r@ == match *self {
                TreeError::ParentNotFound => "Parent key not found"@,
                TreeError::KeyNotFound => "Key not found"@,
            },
    {
        match self {
            TreeError::ParentNotFound => "Parent key not found".to_owned(),
            TreeError::KeyNotFound => "Key not found".to_owned(),
        }
    }
}

/// The tree as mathematical values: the forest held by its arena, the slot
/// of its root, the primary index from keys to slots, and the secondary
/// index from tags to the keys registered under them.
#[verifier::reject_recursive_types(K)]
pub struct TreeView<K, T> {
    /// The nodes of the arena, those that were removed included.
    pub nodes: Seq<NodeView<K, T>>,
    /// The slot of the root.
    pub root: usize,
    /// The primary index: the slot that each key leads to.
    pub index: Map<K, usize>,
    /// The secondary index: the keys registered under each tag, in the order
    /// of registration.
    pub tags: Map<Seq<char>, Seq<K>>,
}

impl<K, T> TreeView<K, T> {
    /// The state that every operation keeps: the forest is well-formed, the
    /// root is a node without parent, and every entry of the primary index
    /// leads to a node that holds the entry's key.
    pub open spec fn wf(self) -> bool {
        &&& forest_wf(self.nodes)
        &&& self.root < self.nodes.len()
        &&& self.nodes[self.root as int].parent is None
        &&& forall|k: K| #[trigger]
            self.index.contains_key(k) ==> self.index[k] < self.nodes.len() && self.nodes[self.index[k] as int].key
                == k
    }

    /// The primary index leads from the key of node `s` to node `s`.
    pub open spec fn indexes(self, s: int) -> bool {
        self.index.contains_key(self.nodes[s].key) && self.index[self.nodes[s].key] == s
    }

    /// The primary index covers exactly the nodes that hang beneath the
    /// root, the root included. In such a tree no two of those nodes share a
    /// key. Inserting a key that is already there, and removing the root,
    /// lead out of this state.
    pub open spec fn consistent(self) -> bool {
        forall|s: int|
            0 <= s < self.nodes.len() ==> (#[trigger] descends_from(self.nodes, s, self.root as int)
                <==> self.indexes(s))
    }

    /// The tree that `new` builds.
    pub open spec fn singleton(root_key: K, root_value: T) -> Self {
        TreeView {
            nodes: Seq::empty().push(NodeView::fresh(root_key, root_value)),
            root: 0,
            index: Map::empty().insert(root_key, 0usize),
            tags: Map::empty(),
        }
    }

    /// What a lookup of `key` yields.
    pub open spec fn find(self, key: K) -> Option<NodeView<K, T>> {
        if self.index.contains_key(key) {
            Some(self.nodes[self.index[key] as int])
        } else {
            None
        }
    }

    /// The tree after a new leaf with `key` and `value` was appended to the
    /// children of the node that the index holds for `parent_key`. The index
    /// then leads from `key` to the new leaf, whatever it held for `key`
    /// before.
    pub open spec fn inserted(self, parent_key: K, key: K, value: T) -> Self {
        let slot = self.nodes.len();
        let p = self.index[parent_key] as int;
        let parent = self.nodes[p];
        let leaf = NodeView {
            key,
            value,
            children: Seq::empty(),
            index: parent.children.len() as usize,
            parent: Some(p as usize),
        };
        TreeView {
            nodes: self.nodes.update(
                p,
                NodeView { children: parent.children.push(slot as usize), ..parent },
            ).push(leaf),
            index: self.index.insert(key, slot as usize),
            ..self
        }
    }

    /// The tree after the node that the index holds for `key` was cut loose
    /// and the keys of that node and of all its descendants were taken out
    /// of the index.
    pub open spec fn removed(self, key: K) -> Self {
        let slot = self.index[key] as int;
        TreeView {
            nodes: detached(self.nodes, slot),
            index: self.index.remove_keys(subtree_keys(self.nodes, slot)),
            ..self
        }
    }

    /// The keys registered under `tag` so far.
    pub open spec fn tag_list(self, tag: Seq<char>) -> Seq<K> {
        if self.tags.contains_key(tag) {
            self.tags[tag]
        } else {
            Seq::empty()
        }
    }

    /// The tree after `key` was registered under `tag`.
    pub open spec fn tagged(self, tag: Seq<char>, key: K) -> Self {
        TreeView { tags: self.tags.insert(tag, self.tag_list(tag).push(key)), ..self }
    }

    /// The tree after the value of the node found for `key` was replaced.
    pub open spec fn with_value(self, key: K, value: T) -> Self {
        let slot = self.index[key] as int;
        TreeView { nodes: self.nodes.update(slot, NodeView { value, ..self.nodes[slot] }), ..self }
    }

    /// The test that a key passes when the primary index holds it.
    pub open spec fn is_indexed(self) -> spec_fn(K) -> bool {
        |k: K| self.index.contains_key(k)
    }

    /// What a key that the primary index holds stands for.
    pub open spec fn node_of(self) -> spec_fn(K) -> NodeView<K, T> {
        |k: K| self.nodes[self.index[k] as int]
    }

    /// The nodes that `keys` stand for: keys that the primary index does not
    /// hold are dropped, the others keep their order.
    pub open spec fn resolve(self, keys: Seq<K>) -> Seq<NodeView<K, T>> {
        keys.filter(self.is_indexed()).map_values(self.node_of())
    }

    /// What the distance query from `start` to `end` answers.
    pub open spec fn shortest_paths(self, start: K, end: K) -> Option<Map<usize, Seq<K>>> {
        shortest_paths(self.nodes, self.index, start, end)
    }

    /// What a lookup of `tag` in the secondary index yields.
    pub open spec fn find_by_tag(self, tag: Seq<char>) -> Option<Seq<NodeView<K, T>>> {
        if self.tags.contains_key(tag) {
            Some(self.resolve(self.tags[tag]))
        } else {
            None
        }
    }
}

/// The views of the nodes that a list of references leads to.
pub open spec fn ref_views<K, T>(nodes: Seq<&Node<K, T>>) -> Seq<NodeView<K, T>> {
    nodes.map_values(|n: &Node<K, T>| n@)
}

/// The view of the node that a reference leads to, if there is one.
pub open spec fn opt_view<K, T>(node: Option<&Node<K, T>>) -> Option<NodeView<K, T>> {
    match node {
        Some(n) => Some(n@),
        None => None,
    }
}

/// A tree of keyed nodes. Every node is found by its key through the primary
/// index; keys can be grouped under tags through the secondary index.
pub struct MultiIndexedTree<K, T> {
    nodes: Vec<Node<K, T>>,
    root: usize,
    index: HashMap<K, usize>,
    secondary_index: TagIndex<K>,
}

impl<K, T> View for MultiIndexedTree<K, T> {
    type V = TreeView<K, T>;

    closed spec fn view(&self) -> TreeView<K, T> {
        TreeView {
            nodes: views(self.nodes@),
            root: self.root,
            index: self.index@,
            tags: self.secondary_index@,
        }
    }
}

impl<K: Copy + Eq + Hash, T> MultiIndexedTree<K, T> {
    /// The secondary index is in order.
    pub closed spec fn tags_wf(&self) -> bool {
        self.secondary_index.wf()
    }

    /// The state that `new` establishes and every operation keeps.
    pub open spec fn wf(&self) -> bool {
        &&& obeys_key_model::<K>()
        &&& self.tags_wf()
        &&& self@.wf()
    }

    /// A tree that consists of its root.
    pub fn new(root_key: K, root_value: T) -> (tree: Self)
        requires
            obeys_key_model::<K>(),
        ensures
            tree.wf(),
            tree@ == TreeView::singleton(root_key, root_value),
    {
        let mut nodes: Vec<Node<K, T>> = Vec::new();
        nodes.push(Node::new(root_key, root_value));
        let mut index: HashMap<K, usize> = HashMap::new();
        index.insert(root_key, 0);
        let tree = MultiIndexedTree { nodes, root: 0, index, secondary_index: TagIndex::new() };
        proof {
            let f = tree@.nodes;
            assert(f =~= TreeView::singleton(root_key, root_value).nodes);
            assert(tree@.index =~= TreeView::singleton(root_key, root_value).index);
            assert(parent_link_ok(f, 0));
        }
        tree
    }

    /// Appends a new leaf to the children of the node found for
    /// `parent_key`, and lets the primary index lead from `key` to it.
    ///
    /// Where the index already held `key`, the entry is overwritten: the
    /// node it led to stays where it hangs, and is no longer found.
    pub fn insert(&mut self, parent_key: &K, key: K, value: T) -> (r: Result<(), TreeError>)
        requires
            old(self).wf(),
        ensures
            final(self).wf(),
            match r {
                Ok(()) => old(self)@.index.contains_key(*parent_key) && final(self)@ == old(self)@.inserted(
                    *parent_key,
                    key,
                    value,
                ),
                Err(e) => e == TreeError::ParentNotFound && !old(self)@.index.contains_key(*parent_key)
                    && final(self)@ == old(self)@,
            },
    {
        let parent = match self.index.get(parent_key) {
            Some(slot) => Some(*slot),
            None => None,
        };
        match parent {
            Some(parent_slot) => {
                let ghost before = self@;
                let slot = self.nodes.len();
                self.nodes.push(Node::new(key, value));
                let ghost pushed = views(self.nodes@);
                proof {
                    assert(pushed =~= before.nodes.push(NodeView::fresh(key, value)));
                    assert(before.nodes.len() + 1 == self.nodes.len());
                    lemma_pushed_wf(before.nodes, NodeView::fresh(key, value));
                    lemma_leaf_subtree_keys(pushed, slot as int);
                    lemma_detached_wf(pushed, slot as int);
                    assert(detached(pushed, slot as int) == pushed);
                }
                Node::adopt(&mut self.nodes, parent_slot, slot, &mut self.index);
                self.index.insert(key, slot);
                proof {
                    assert(self@.index =~= before.index.insert(key, slot));
                    assert(self@.nodes =~= before.inserted(*parent_key, key, value).nodes);
                    assert forall|k: K| #[trigger] self@.index.contains_key(k) implies self@.index[k]
                        < self@.nodes.len() && self@.nodes[self@.index[k] as int].key == k by {
                        if k != key {
                            assert(before.index.contains_key(k));
                        }
                    }
                }
                Ok(())
            },
            None => Err(TreeError::ParentNotFound),
        }
    }

    /// Cuts the node found for `key` loose from its parent and takes its key
    /// and the keys of all its descendants out of the primary index.
    ///
    /// Removing the root cuts nothing loose, since the root has no parent,
    /// but still empties the index of the root and all that hangs beneath
    /// it.
    pub fn remove(&mut self, key: &K) -> (r: Result<(), TreeError>)
        requires
            old(self).wf(),
        ensures
            final(self).wf(),
            match r {
                Ok(()) => old(self)@.index.contains_key(*key) && final(self)@ == old(self)@.removed(*key),
                Err(e) => e == TreeError::KeyNotFound && !old(self)@.index.contains_key(*key) && final(self)@
                    == old(self)@,
            },
    {
        let node = match self.index.get(key) {
            Some(slot) => Some(*slot),
            None => None,
        };
        match node {
            Some(slot) => {
                let ghost before = self@;
                proof {
                    lemma_detached_wf(before.nodes, slot as int);
                }
                Node::detach(&mut self.nodes, slot, &mut self.index);
                proof {
                    assert forall|k: K| #[trigger] self@.index.contains_key(k) implies self@.index[k]
                        < self@.nodes.len() && self@.nodes[self@.index[k] as int].key == k by {
                        assert(before.index.contains_key(k));
                    }
                }
                Ok(())
            },
            None => Err(TreeError::KeyNotFound),
        }
    }

    /// The node that the primary index holds for `key`, if any. The tree is
    /// left as it is, so the same lookup gives the same answer until the
    /// tree is changed.
    pub fn find(&self, key: &K) -> (r: Option<&Node<K, T>>)
        requires
            self.wf(),
        ensures
            opt_view(r) == self@.find(*key),
    {
        match self.index.get(key) {
            Some(slot) => Some(&self.nodes[*slot]),
            None => None,
        }
    }

    /// Replaces the value of the node found for `key`. Says whether there
    /// was such a node; if not, nothing changes.
    pub fn set_value(&mut self, key: &K, value: T) -> (found: bool)
        requires
            old(self).wf(),
        ensures
            final(self).wf(),
            found == old(self)@.index.contains_key(*key),
            final(self)@ == (if found {
                old(self)@.with_value(*key, value)
            } else {
                old(self)@
            }),
    {
        let node = match self.index.get(key) {
            Some(slot) => Some(*slot),
            None => None,
        };
        match node {
            Some(slot) => {
                let ghost before = self@;
                self.nodes[slot].set_value(value);
                proof {
                    let after = self@;
                    assert(after.nodes =~= before.with_value(*key, value).nodes);
                    assert forall|i: int| 0 <= i < after.nodes.len() implies #[trigger] parent_link_ok(
                        after.nodes,
                        i,
                    ) by {
                        assert(parent_link_ok(before.nodes, i));
                    }
                    assert forall|i: int, j: int|
                        0 <= i < after.nodes.len() && 0 <= j < after.nodes[i].children.len() implies #[trigger] child_link_ok(
                        after.nodes,
                        i,
                        j,
                    ) by {
                        assert(child_link_ok(before.nodes, i, j));
                    }
                    assert forall|k: K| #[trigger] after.index.contains_key(k) implies after.index[k]
                        < after.nodes.len() && after.nodes[after.index[k] as int].key == k by {
                        assert(before.index.contains_key(k));
                    }
                }
                true
            },
            None => false,
        }
    }

    /// Registers `key` under `tag`. The key is appended to the list of the
    /// tag whether or not a node has it and whether or not it is listed
    /// already.
    pub fn add_to_secondary_index(&mut self, tag: String, key: K)
        requires
            old(self).wf(),
        ensures
            final(self).wf(),
            final(self)@ == old(self)@.tagged(tag@, key),
    {
        self.secondary_index.add(tag, key);
    }

    /// The nodes registered under `tag`, in the order of registration, or
    /// nothing if the tag was never used. Keys that the primary index does
    /// not hold are passed over.
    pub fn find_by_secondary_index(&self, tag: &str) -> (r: Option<Vec<&Node<K, T>>>)
        requires
            self.wf(),
        ensures
            match r {
                Some(found) => Some(ref_views(found@)) == self@.find_by_tag(tag@),
                None => self@.find_by_tag(tag@) is None,
            },
    {
        match self.secondary_index.get(tag) {
            Some(keys) => {
                let mut found: Vec<&Node<K, T>> = Vec::new();
                let mut i: usize = 0;
                proof {
                    reveal(Seq::filter);
                    assert(keys@.take(0) =~= Seq::<K>::empty());
                    assert(ref_views(found@) =~= self@.resolve(keys@.take(0)));
                }
                while i < keys.len()
                    invariant
                        self.wf(),
                        i <= keys.len(),
                        ref_views(found@) == self@.resolve(keys@.take(i as int)),
                    decreases keys.len() - i,
                {
                    let ghost prefix = keys@.take(i as int);
                    let ghost next = keys@.take(i + 1);
                    proof {
                        reveal(Seq::filter);
                        assert(next.drop_last() =~= prefix);
                        assert(next.last() == keys@[i as int]);
                    }
                    match self.index.get(&keys[i]) {
                        Some(slot) => {
                            let ghost earlier = found@;
                            found.push(&self.nodes[*slot]);
                            proof {
                                let kept = prefix.filter(self@.is_indexed());
                                let key = keys@[i as int];
                                assert(next.filter(self@.is_indexed()) == kept.push(key));
                                assert(kept.push(key).map_values(self@.node_of()) =~= kept.map_values(
                                    self@.node_of(),
                                ).push((self@.node_of())(key)));
                                assert(ref_views(found@) =~= ref_views(earlier).push(
                                    self.nodes@[*slot as int]@,
                                ));
                                assert(ref_views(found@) =~= self@.resolve(next));
                            }
                        },
                        None => {
                            proof {
                                assert(next.filter(self@.is_indexed()) == prefix.filter(self@.is_indexed()));
                            }
                        },
                    }
                    i += 1;
                }
                proof {
                    assert(keys@.take(keys.len() as int) =~= keys@);
                }
                Some(found)
            },
            None => None,
        }
    }

    /// A walk over the tree in pre-order, from the root.
    pub fn iter_depth_first(&self) -> (it: DepthFirstIterator<'_, K, T>)
        requires
            self.wf(),
        ensures
            it.wf(),
            it.forest() == self@.nodes,
            it@ == preorder(self@.nodes, self@.root as int),
    {
        DepthFirstIterator::new(&self.nodes, self.root)
    }

    /// A walk over the tree in level order, from the root.
    pub fn iter_breadth_first(&self) -> (it: BreadthFirstIterator<'_, K, T>)
        requires
            self.wf(),
        ensures
            it.wf(),
            it.forest() == self@.nodes,
            it@ == level_order(self@.nodes, seq![self@.root]),
    {
        BreadthFirstIterator::new(&self.nodes, self.root)
    }

    /// A walk over the tree in level order, from the root, that keeps track
    /// of depths. It gives out what [`MultiIndexedTree::iter_breadth_first`]
    /// gives out.
    pub fn iter_shortest_path(&self) -> (it: ShortestPathIterator<'_, K, T>)
        requires
            self.wf(),
        ensures
            it.wf(),
            it.forest() == self@.nodes,
            it@ == level_order(self@.nodes, seq![self@.root]),
    {
        ShortestPathIterator::new(&self.nodes, self.root)
    }

    /// The way from the node found for `start_key` down to the node found
    /// for `end_key`, as the keys along it, filed under the number of those
    /// keys; or nothing where no way leads down from the one to the other.
    /// Ways lead from a node to its children only, never up or sideways,
    /// and every step counts one. A key reaches itself.
    pub fn dijkstra_shortest_paths(&self, start_key: &K, end_key: &K) -> (r: Option<HashMap<usize, Vec<K>>>)
        requires
            self.wf(),
        ensures
            match r {
                Some(paths) => self@.shortest_paths(*start_key, *end_key) == Some(path_views(paths@)),
                None => self@.shortest_paths(*start_key, *end_key) is None,
            },
    {
        shortest_paths_between(&self.nodes, &self.index, start_key, end_key)
    }

    /// The arena that holds the nodes of the tree, for resolving the slots
    /// that nodes refer to each other by. It also holds the nodes that were
    /// removed.
    pub fn nodes(&self) -> (r: &Vec<Node<K, T>>)
        ensures
            views(r@) == self@.nodes,
    {
        &self.nodes
    }

    /// The root of the tree.
    pub fn root(&self) -> (r: &Node<K, T>)
        requires
            self.wf(),
        ensures
            r@ == self@.nodes[self@.root as int],
    {
        &self.nodes[self.root]
    }
}

} // verus!
