//! The nodes of the tree and the operations that hang them into the arena
//! and take them out of it.
//!
//! Nodes live in an arena, a `Vec` of nodes; a node refers to its parent and
//! to its children by their slots in that arena. The operations that rewire
//! several nodes at once therefore take the arena and the slots concerned.
use crate::forest::{
    abandoned, attached, child_link_ok, child_subtree_keys, detached, forest_wf,
    lemma_abandoned_wf, lemma_attached_wf, lemma_child_subtree_keys_none, lemma_child_subtree_keys_step, lemma_detached_wf,
    lemma_subtree_keys_frame, lemma_subtree_keys_split, parent_link_ok, subtree_keys, NodeView,
};
use std::collections::HashMap;
use std::hash::Hash;
use vstd::prelude::*;
use vstd::std_specs::hash::obeys_key_model;

verus! {

/// One element of the hierarchy: a key, a payload, the slots of its children,
/// its cached position among its siblings, and the slot of its parent.
#[derive(Clone, Debug)]
pub struct Node<K, T> {
    children: Vec<usize>,
    index: usize,
    parent: Option<usize>,
    value: T,
    key: K,
}

impl<K, T> View for Node<K, T> {
    type V = NodeView<K, T>;

    closed spec fn view(&self) -> NodeView<K, T> {
        NodeView {
            key: self.key,
            value: self.value,
            children: self.children@,
            index: self.index,
            parent: self.parent,
        }
    }
}

/// The forest that an arena of nodes stands for.
pub open spec fn views<K, T>(nodes: Seq<Node<K, T>>) -> Seq<NodeView<K, T>> {
    nodes.map_values(|n: Node<K, T>| n@)
}

impl<K, T> Node<K, T> {
    /// Creates a node without parent and without children.
    pub fn new(key: K, value: T) -> (node: Self)
        ensures
            node@ == NodeView::fresh(key, value),
    {
        Node { children: Vec::new(), index: 0, parent: None, value, key }
    }

    /// The slots of the children, in stored order.
    pub fn children(&self) -> (r: &Vec<usize>)
        ensures
            r@ == self@.children,
    {
        &self.children
    }

    /// Whether the node has no children.
    pub fn is_leaf(&self) -> (r: bool)
        ensures
            r == (self@.children.len() == 0),
    {
        self.children.len() == 0
    }

    /// Whether the node has no parent.
    pub fn is_root(&self) -> (r: bool)
        ensures
            r == (self@.parent is None),
    {
        self.parent.is_none()
    }

    /// Resolves the parent reference in `nodes`. Yields nothing for a node
    /// without parent, and nothing where the arena has no such slot.
    pub fn parent<'a>(&self, nodes: &'a Vec<Node<K, T>>) -> (r: Option<&'a Node<K, T>>)
        ensures
            r == match self@.parent {
                Some(p) => if p < nodes.len() {
                    Some(&nodes[p as int])
                } else {
                    None
                },
                None => None,
            },
    {
        match self.parent {
            Some(p) => if p < nodes.len() {
                Some(&nodes[p])
            } else {
                None
            },
            None => None,
        }
    }

    /// The cached position of the node among the children of its parent.
    pub fn index(&self) -> (r: usize)
        ensures
            r == self@.index,
    {
        self.index
    }

    /// The payload.
    pub fn value(&self) -> (r: &T)
        ensures
            *r == self@.value,
    {
        &self.value
    }

    /// Replaces the payload and leaves everything else as it is.
    pub fn set_value(&mut self, value: T)
        ensures
            final(self)@ == (NodeView { value, ..old(self)@ }),
    {
        self.value = value;
    }

    /// The key the node was created with.
    pub fn key(&self) -> (r: &K)
        ensures
            *r == self@.key,
    {
        &self.key
    }

    /// Node `this` lets go of its child `child`: the child loses its parent,
    /// the last child of `this` takes the vacated position in the child list,
    /// and that sibling's cached position is brought up to date.
    pub fn abandon(nodes: &mut Vec<Node<K, T>>, this: usize, child: usize)
        requires
            forest_wf(views(old(nodes)@)),
            child < old(nodes).len(),
            old(nodes)[child as int]@.parent == Some(this),
        ensures
            views(final(nodes)@) == abandoned(views(old(nodes)@), this as int, child as int),
            forest_wf(views(final(nodes)@)),
            final(nodes).len() == old(nodes).len(),
    {
        let ghost f = views(nodes@);
        proof {
            lemma_abandoned_wf(f, this as int, child as int);
            assert(parent_link_ok(f, child as int));
            assert(child_link_ok(f, this as int, f[this as int].children.len() - 1));
        }
        let index = nodes[child].index;
        nodes[child].parent = None;
        nodes[this].children.swap_remove(index);
        let count = nodes[this].children.len();
        if count != 0 {
            let index = if index < count - 1 {
                index
            } else {
                count - 1
            };
            let moved = nodes[this].children[index];
            proof {
                if index as int == f[child as int].index {
                    assert(moved == f[this as int].children.last());
                } else {
                    assert(child_link_ok(f, this as int, count - 1));
                }
            }
            nodes[moved].index = index;
        }
        assert(views(nodes@) =~= abandoned(f, this as int, child as int));
    }
}

impl<K: Copy + Eq + Hash, T> Node<K, T> {
    /// Node `this` takes `child` in as its last child; see [`Node::attach`].
    pub fn adopt(nodes: &mut Vec<Node<K, T>>, this: usize, child: usize, index: &mut HashMap<K, usize>)
        requires
            obeys_key_model::<K>(),
            forest_wf(views(old(nodes)@)),
            this < child < old(nodes).len(),
        ensures
            views(final(nodes)@) == attached(views(old(nodes)@), child as int, this as int),
            final(index)@ == old(index)@.remove_keys(subtree_keys(views(old(nodes)@), child as int)),
            forest_wf(views(final(nodes)@)),
            final(nodes).len() == old(nodes).len(),
    {
        Node::attach(nodes, child, this, index);
    }

    /// Hangs node `this` beneath `parent` as its last child. The node is first
    /// cut loose from wherever it hangs, and its key and the keys of all its
    /// descendants are taken out of `index`; they are not put back.
    ///
    /// Only a node that is younger than `parent` can be hung beneath it. This
    /// is what keeps the arena free of cycles.
    pub fn attach(nodes: &mut Vec<Node<K, T>>, this: usize, parent: usize, index: &mut HashMap<K, usize>)
        requires
            obeys_key_model::<K>(),
            forest_wf(views(old(nodes)@)),
            parent < this < old(nodes).len(),
        ensures
            views(final(nodes)@) == attached(views(old(nodes)@), this as int, parent as int),
            final(index)@ == old(index)@.remove_keys(subtree_keys(views(old(nodes)@), this as int)),
            forest_wf(views(final(nodes)@)),
            final(nodes).len() == old(nodes).len(),
    {
        let ghost f = views(nodes@);
        Node::detach(nodes, this, index);
        let ghost g = views(nodes@);
        let position = nodes[parent].children.len();
        nodes[this].index = position;
        nodes[this].parent = Some(parent);
        nodes[parent].children.push(this);
        proof {
            assert(g[parent as int].children.len() + 1 == nodes[parent as int].children.len());
            assert(views(nodes@) =~= attached(f, this as int, parent as int));
            lemma_attached_wf(f, this as int, parent as int);
        }
    }

    /// Cuts node `this` loose from its parent, if it has one, and takes its
    /// key and the keys of all its descendants out of `index`. The subtree
    /// beneath the node stays as it is.
    pub fn detach(nodes: &mut Vec<Node<K, T>>, this: usize, index: &mut HashMap<K, usize>)
        requires
            obeys_key_model::<K>(),
            forest_wf(views(old(nodes)@)),
            this < old(nodes).len(),
        ensures
            views(final(nodes)@) == detached(views(old(nodes)@), this as int),
            final(index)@ == old(index)@.remove_keys(subtree_keys(views(old(nodes)@), this as int)),
            forest_wf(views(final(nodes)@)),
            final(nodes).len() == old(nodes).len(),
    {
        let ghost f = views(nodes@);
        proof {
            lemma_detached_wf(f, this as int);
        }
        match nodes[this].parent {
            Some(parent) => {
                Node::abandon(nodes, parent, this);
            },
            None => {},
        }
        proof {
            lemma_subtree_keys_frame(f, views(nodes@), this as int);
        }
        remove_descendants(nodes, this, index);
    }
}

/// Takes the key of node `node` and the keys of all its descendants out of
/// `index`, children first.
fn remove_descendants<K: Copy + Eq + Hash, T>(
    nodes: &Vec<Node<K, T>>,
    node: usize,
    index: &mut HashMap<K, usize>,
)
    requires
        obeys_key_model::<K>(),
        forest_wf(views(nodes@)),
        node < nodes.len(),
    ensures
        final(index)@ == old(index)@.remove_keys(subtree_keys(views(nodes@), node as int)),
    decreases nodes.len() - node,
{
    let ghost f = views(nodes@);
    let ghost before = index@;
    let count = nodes[node].children.len();
    let mut j: usize = 0;
    proof {
        lemma_child_subtree_keys_none(f, node as int);
        assert(before.remove_keys(Set::<K>::empty()) =~= before);
    }
    while j < count
        invariant
            obeys_key_model::<K>(),
            forest_wf(f),
            f == views(nodes@),
            node < nodes.len(),
            count == f[node as int].children.len(),
            j <= count,
            index@ == before.remove_keys(child_subtree_keys(f, node as int, j as int)),
        decreases count - j,
    {
        let child = nodes[node].children[j];
        let ghost mid = index@;
        proof {
            assert(child_link_ok(f, node as int, j as int));
        }
        remove_descendants(nodes, child, index);
        proof {
            lemma_child_subtree_keys_step(f, node as int, j as int);
            assert(index@ =~= before.remove_keys(child_subtree_keys(f, node as int, j + 1)));
        }
        j += 1;
    }
    index.remove(&nodes[node].key);
    proof {
        lemma_subtree_keys_split(f, node as int);
        assert(index@ =~= before.remove_keys(subtree_keys(f, node as int)));
    }
}

} // verus!
