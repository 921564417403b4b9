//! What holds of the tree over sequences of operations, stated over its
//! view and proved from the definitions of the operations.
use crate::forest::{
    descends_from, lemma_descendant_is_younger, lemma_descends_frame, lemma_descends_transitive,
    lemma_detached_descent, lemma_detached_wf, parent_link_ok, subtree_keys,
};
use crate::order::{
    lemma_level_order_permutes_preorder, lemma_preorder_holds_descendants, level_order, preorder,
    preorder_of_all,
};
use crate::tree::TreeView;
use vstd::prelude::*;

verus! {

/// A tree that was just built is consistent: its index covers the root, and
/// the root is all there is.
pub proof fn lemma_singleton_consistent<K, T>(root_key: K, root_value: T)
    ensures
        TreeView::singleton(root_key, root_value).wf(),
        TreeView::singleton(root_key, root_value).consistent(),
{
    let t = TreeView::singleton(root_key, root_value);
    assert(parent_link_ok(t.nodes, 0));
    assert(descends_from(t.nodes, 0, 0));
}

/// In a consistent tree a lookup of the root's key finds the root.
pub proof fn lemma_root_is_found<K, T>(t: TreeView<K, T>)
    requires
        t.wf(),
        t.consistent(),
    ensures
        t.find(t.nodes[t.root as int].key) == Some(t.nodes[t.root as int]),
{
    assert(descends_from(t.nodes, t.root as int, t.root as int));
}

/// Inserting a key that the index does not hold yet keeps a consistent tree
/// consistent.
pub proof fn lemma_insert_keeps_consistent<K, T>(t: TreeView<K, T>, parent_key: K, key: K, value: T)
    requires
        t.wf(),
        t.consistent(),
        t.index.contains_key(parent_key),
        !t.index.contains_key(key),
    ensures
        t.inserted(parent_key, key, value).consistent(),
{
    let u = t.inserted(parent_key, key, value);
    let p = t.index[parent_key] as int;
    let slot = t.nodes.len() as int;
    let root = t.root as int;
    assert forall|s: int| 0 <= s < u.nodes.len() implies (#[trigger] descends_from(u.nodes, s, root)
        <==> u.indexes(s)) by {
        if s < slot {
            lemma_descends_frame(t.nodes, u.nodes, s, root);
            assert(descends_from(t.nodes, s, root) <==> t.indexes(s));
        } else {
            lemma_descends_frame(t.nodes, u.nodes, p, root);
            assert(descends_from(t.nodes, p, root) <==> t.indexes(p));
        }
    }
}

/// Removing a key other than the root's keeps a consistent tree consistent.
pub proof fn lemma_remove_keeps_consistent<K, T>(t: TreeView<K, T>, key: K)
    requires
        t.wf(),
        t.consistent(),
        t.index.contains_key(key),
        key != t.nodes[t.root as int].key,
    ensures
        t.removed(key).consistent(),
{
    let u = t.removed(key);
    let c = t.index[key] as int;
    let root = t.root as int;
    lemma_detached_wf(t.nodes, c);
    assert(descends_from(t.nodes, c, root) <==> t.indexes(c));
    assert forall|s: int| 0 <= s < u.nodes.len() implies (#[trigger] descends_from(u.nodes, s, root)
        <==> u.indexes(s)) by {
        lemma_detached_descent(t.nodes, c, root, s);
        assert(descends_from(t.nodes, s, root) <==> t.indexes(s));
        let k = t.nodes[s].key;
        if t.indexes(s) && subtree_keys(t.nodes, c).contains(k) {
            let d = choose|d: int| #[trigger] descends_from(t.nodes, d, c) && t.nodes[d].key == k;
            lemma_descends_transitive(t.nodes, d, c, root);
            lemma_descendant_is_younger(t.nodes, d, c);
            assert(descends_from(t.nodes, d, root) <==> t.indexes(d));
        }
        if descends_from(t.nodes, s, c) {
            assert(subtree_keys(t.nodes, c).contains(k));
        }
    }
}

/// An insertion takes no key out of the index: whatever was found before is
/// found afterwards, the root's key among the rest.
pub proof fn lemma_insert_keeps_keys<K, T>(t: TreeView<K, T>, parent_key: K, key: K, value: T, other: K)
    requires
        t.index.contains_key(other),
    ensures
        t.inserted(parent_key, key, value).find(other) is Some,
{
}

/// In a consistent tree the root is still found under its key after any key
/// but its own was removed.
pub proof fn lemma_remove_keeps_root<K, T>(t: TreeView<K, T>, key: K)
    requires
        t.wf(),
        t.consistent(),
        t.index.contains_key(key),
        key != t.nodes[t.root as int].key,
    ensures
        t.removed(key).index.contains_key(t.nodes[t.root as int].key),
        t.removed(key).index[t.nodes[t.root as int].key] == t.root,
        t.removed(key).nodes[t.root as int].key == t.nodes[t.root as int].key,
{
    lemma_remove_keeps_consistent(t, key);
    lemma_detached_wf(t.nodes, t.index[key] as int);
    let u = t.removed(key);
    assert(descends_from(u.nodes, u.root as int, u.root as int));
}

/// After an insertion a lookup of the new key finds a node that holds the
/// new value and whose parent holds the parent key.
pub proof fn lemma_insert_then_find<K, T>(t: TreeView<K, T>, parent_key: K, key: K, value: T)
    requires
        t.wf(),
        t.index.contains_key(parent_key),
    ensures
        ({
            let u = t.inserted(parent_key, key, value);
            &&& u.find(key) is Some
            &&& u.find(key).unwrap().key == key
            &&& u.find(key).unwrap().value == value
            &&& u.find(key).unwrap().parent is Some
            &&& u.nodes[u.find(key).unwrap().parent.unwrap() as int].key == parent_key
        }),
{
}

/// After a removal neither the removed key nor the key of any descendant of
/// the removed node is found.
pub proof fn lemma_remove_then_find<K, T>(t: TreeView<K, T>, key: K, d: int)
    requires
        t.wf(),
        t.index.contains_key(key),
        descends_from(t.nodes, d, t.index[key] as int),
    ensures
        t.removed(key).find(key) is None,
        t.removed(key).find(t.nodes[d].key) is None,
{
    let c = t.index[key] as int;
    assert(descends_from(t.nodes, c, c));
    assert(subtree_keys(t.nodes, c).contains(t.nodes[c].key));
    assert(subtree_keys(t.nodes, c).contains(t.nodes[d].key));
}

/// In a well-formed tree every node that has a parent sits in the child
/// list of that parent at the position it caches.
pub proof fn lemma_index_bookkeeping<K, T>(t: TreeView<K, T>, n: int)
    requires
        t.wf(),
        0 <= n < t.nodes.len(),
        t.nodes[n].parent is Some,
    ensures
        ({
            let parent = t.nodes[t.nodes[n].parent.unwrap() as int];
            &&& t.nodes[n].index < parent.children.len()
            &&& parent.children[t.nodes[n].index as int] == n
        }),
{
    assert(parent_link_ok(t.nodes, n));
}

/// A lookup by tag gives out nodes that the primary index holds, and no
/// others: each of them is found under a key that is registered under the
/// tag.
pub proof fn lemma_find_by_tag_finds_existing<K, T>(t: TreeView<K, T>, tag: Seq<char>, i: int)
    requires
        t.find_by_tag(tag) is Some,
        0 <= i < t.find_by_tag(tag).unwrap().len(),
    ensures
        exists|k: K| #[trigger]
            t.tags[tag].contains(k) && t.index.contains_key(k) && t.find(k) == Some(
                t.find_by_tag(tag).unwrap()[i],
            ),
{
    let keys = t.tags[tag];
    let kept = keys.filter(t.is_indexed());
    keys.lemma_filter_pred(t.is_indexed(), i);
    keys.lemma_filter_contains_rev(t.is_indexed(), kept[i]);
    let k = kept[i];
    assert(t.tags[tag].contains(k) && t.index.contains_key(k) && t.find(k) == Some(
        t.find_by_tag(tag).unwrap()[i],
    ));
}

/// A key that is registered under a tag and that the primary index holds is
/// among what a lookup by that tag gives out.
pub proof fn lemma_find_by_tag_finds_all<K, T>(t: TreeView<K, T>, tag: Seq<char>, k: K)
    requires
        t.tags.contains_key(tag),
        t.tags[tag].contains(k),
        t.index.contains_key(k),
    ensures
        t.find_by_tag(tag) is Some,
        t.find_by_tag(tag).unwrap().contains(t.find(k).unwrap()),
{
    let keys = t.tags[tag];
    let kept = keys.filter(t.is_indexed());
    let j = choose|j: int| 0 <= j < keys.len() && keys[j] == k;
    keys.lemma_filter_contains(t.is_indexed(), j);
    let m = choose|m: int| 0 <= m < kept.len() && kept[m] == k;
    assert(kept.map_values(t.node_of())[m] == t.find(k).unwrap());
}

/// A walk depth first gives out the root and every node that hangs beneath
/// it, and no other node. In a consistent tree these are the nodes that the
/// primary index leads to.
pub proof fn lemma_depth_first_reaches<K, T>(t: TreeView<K, T>, d: usize)
    requires
        t.wf(),
    ensures
        preorder(t.nodes, t.root as int).contains(d) <==> descends_from(t.nodes, d as int, t.root as int),
        t.consistent() && d < t.nodes.len() ==> (preorder(t.nodes, t.root as int).contains(d) <==> t.indexes(
            d as int,
        )),
{
    lemma_preorder_holds_descendants(t.nodes, t.root as int, d);
    if t.consistent() && d < t.nodes.len() {
        assert(descends_from(t.nodes, d as int, t.root as int) <==> t.indexes(d as int));
    }
}

/// A walk breadth first gives out the nodes that a walk depth first gives
/// out, each as often; only the order differs.
pub proof fn lemma_breadth_first_same_nodes<K, T>(t: TreeView<K, T>)
    requires
        t.wf(),
    ensures
        level_order(t.nodes, seq![t.root]).to_multiset() == preorder(t.nodes, t.root as int).to_multiset(),
        level_order(t.nodes, seq![t.root]).len() == preorder(t.nodes, t.root as int).len(),
{
    let queue = seq![t.root];
    lemma_level_order_permutes_preorder(t.nodes, queue);
    assert(queue.drop_first() =~= Seq::<usize>::empty());
    assert(preorder_of_all(t.nodes, queue.drop_first()) =~= Seq::<usize>::empty());
    assert(preorder_of_all(t.nodes, queue) =~= preorder(t.nodes, t.root as int));
}

/// After a removal of any key but the root's the removed node and all that
/// hangs beneath it no longer hang beneath the root, and no walk from the
/// root gives them out.
pub proof fn lemma_remove_cuts_subtree<K, T>(t: TreeView<K, T>, key: K, d: usize)
    requires
        t.wf(),
        t.index.contains_key(key),
        t.index[key] != t.root,
        descends_from(t.nodes, d as int, t.index[key] as int),
    ensures
        !descends_from(t.removed(key).nodes, d as int, t.root as int),
        !preorder(t.removed(key).nodes, t.root as int).contains(d),
        !level_order(t.removed(key).nodes, seq![t.root]).contains(d),
{
    let c = t.index[key] as int;
    let u = t.removed(key);
    lemma_detached_wf(t.nodes, c);
    lemma_detached_descent(t.nodes, c, t.root as int, d as int);
    lemma_preorder_holds_descendants(u.nodes, u.root as int, d);
    assert(u.wf()) by {
        assert forall|k: K| #[trigger] u.index.contains_key(k) implies u.index[k] < u.nodes.len() && u.nodes[u.index[k] as int].key
            == k by {
            assert(t.index.contains_key(k));
        }
    }
    lemma_breadth_first_same_nodes(u);
    let walk = level_order(u.nodes, seq![u.root]);
    if walk.contains(d) {
        walk.to_multiset_ensures();
        preorder(u.nodes, u.root as int).to_multiset_ensures();
        assert(walk.to_multiset().count(d) > 0);
    }
}

} // verus!
