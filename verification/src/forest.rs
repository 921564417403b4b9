//! The mathematical model of the node arena.
//!
//! A forest is a sequence of node views; a node is named by its position in
//! that sequence (its slot). Slots are handed out in increasing order and a
//! node may only hang beneath an older one, so a parent's slot is always
//! smaller than the slots of its children. That ordering is what keeps the
//! structure free of cycles and what the recursive definitions below recurse
//! on.
use vstd::prelude::*;

verus! {

/// What one node holds, as plain mathematical values.
pub struct NodeView<K, T> {
    /// The key the node was created with.
    pub key: K,
    /// The payload.
    pub value: T,
    /// Slots of the children, in stored order.
    pub children: Seq<usize>,
    /// Cached position of the node within its parent's `children`.
    pub index: usize,
    /// Slot of the parent, if the node has one.
    pub parent: Option<usize>,
}

impl<K, T> NodeView<K, T> {
    /// The view of a node that was just created: no parent, no children.
    pub open spec fn fresh(key: K, value: T) -> Self {
        NodeView { key, value, children: Seq::empty(), index: 0, parent: None }
    }
}

/// The back-reference of node `i` is mirrored by its parent: the parent is
/// older, and holds `i` at the cached position. The child list of `i` is no
/// longer than a machine word can count.
pub open spec fn parent_link_ok<K, T>(f: Seq<NodeView<K, T>>, i: int) -> bool {
    &&& f[i].children.len() <= usize::MAX
    &&& match f[i].parent {
        None => true,
        Some(p) => p < i && f[i].index < f[p as int].children.len() && f[p as int].children[f[i].index as int]
            == i,
    }
}

/// The `j`-th child entry of node `i` names a younger node that points back
/// at `i` and caches position `j`.
pub open spec fn child_link_ok<K, T>(f: Seq<NodeView<K, T>>, i: int, j: int) -> bool {
    let c = f[i].children[j];
    &&& i < c < f.len()
    &&& f[c as int].parent == Some(i as usize)
    &&& f[c as int].index == j
}

/// Well-formedness of a forest: parent references and child lists agree with
/// each other, and every cached position is right.
pub open spec fn forest_wf<K, T>(f: Seq<NodeView<K, T>>) -> bool {
    &&& f.len() <= usize::MAX
    &&& forall|i: int| 0 <= i < f.len() ==> #[trigger] parent_link_ok(f, i)
    &&& forall|i: int, j: int|
        0 <= i < f.len() && 0 <= j < f[i].children.len() ==> #[trigger] child_link_ok(f, i, j)
}

/// Node `s` is node `a` or one of its descendants.
pub open spec fn descends_from<K, T>(f: Seq<NodeView<K, T>>, s: int, a: int) -> bool
    decreases s,
{
    &&& 0 <= s < f.len()
    &&& (s == a || match f[s].parent {
        Some(p) => p < s && descends_from(f, p as int, a),
        None => false,
    })
}

/// The keys held by node `s` and all of its descendants.
pub open spec fn subtree_keys<K, T>(f: Seq<NodeView<K, T>>, s: int) -> Set<K> {
    Set::new(|k: K| exists|d: int| #[trigger] descends_from(f, d, s) && f[d].key == k)
}

/// The child list of a node after the entry at position `j` was filled with
/// the last entry and the list shortened by one.
pub open spec fn without_position(children: Seq<usize>, j: int) -> Seq<usize> {
    children.update(j, children.last()).drop_last()
}

/// The forest after parent `p` has let go of its child `c`: `c` has no parent
/// any more, it is gone from the child list of `p`, and the sibling that was
/// moved into the vacated position caches that position.
pub open spec fn abandoned<K, T>(f: Seq<NodeView<K, T>>, p: int, c: int) -> Seq<NodeView<K, T>> {
    let j = f[c].index as int;
    let moved = f[p].children.last() as int;
    let f1 = f.update(c, NodeView { parent: None, ..f[c] });
    let f2 = f1.update(p, NodeView { children: without_position(f[p].children, j), ..f1[p] });
    if moved != c {
        f2.update(moved, NodeView { index: j as usize, ..f2[moved] })
    } else {
        f2
    }
}

/// The forest after node `s` was cut loose from its parent, if it had one.
pub open spec fn detached<K, T>(f: Seq<NodeView<K, T>>, s: int) -> Seq<NodeView<K, T>> {
    match f[s].parent {
        Some(p) => abandoned(f, p as int, s),
        None => f,
    }
}

/// The forest after node `s` was cut loose and then appended to the children
/// of node `p`.
pub open spec fn attached<K, T>(f: Seq<NodeView<K, T>>, s: int, p: int) -> Seq<NodeView<K, T>> {
    let g = detached(f, s);
    let g1 = g.update(
        s,
        NodeView { index: g[p].children.len() as usize, parent: Some(p as usize), ..g[s] },
    );
    g1.update(p, NodeView { children: g1[p].children.push(s as usize), ..g1[p] })
}

/// Letting go of a child keeps the forest well-formed.
pub proof fn lemma_abandoned_wf<K, T>(f: Seq<NodeView<K, T>>, p: int, c: int)
    requires
        forest_wf(f),
        0 <= c < f.len(),
        f[c].parent is Some,
        p == f[c].parent.unwrap(),
    ensures
        forest_wf(abandoned(f, p, c)),
        abandoned(f, p, c).len() == f.len(),
        0 <= p < c,
        abandoned(f, p, c)[c] == (NodeView { parent: None, ..f[c] }),
        forall|i: int|
            0 <= i < f.len() ==> {
                &&& (#[trigger] abandoned(f, p, c)[i]).key == f[i].key
                &&& abandoned(f, p, c)[i].value == f[i].value
                &&& i != c ==> abandoned(f, p, c)[i].parent == f[i].parent
                &&& i != p ==> abandoned(f, p, c)[i].children == f[i].children
            },
{
    let g = abandoned(f, p, c);
    let j = f[c].index as int;
    let moved = f[p].children.last() as int;
    assert(parent_link_ok(f, c));
    let n = f[p].children.len() as int;
    assert(child_link_ok(f, p, n - 1));
    assert(child_link_ok(f, p, j));
    assert forall|i: int| 0 <= i < g.len() implies #[trigger] parent_link_ok(g, i) by {
        assert(parent_link_ok(f, i));
        if i == c {
        } else if i == moved {
        } else {
            match f[i].parent {
                None => {},
                Some(q) => {
                    if q as int == p {
                        let k = f[i].index as int;
                        assert(child_link_ok(f, p, k));
                        assert(k != j);
                        assert(k != n - 1);
                    }
                },
            }
        }
    }
    assert forall|i: int, k: int| 0 <= i < g.len() && 0 <= k < g[i].children.len() implies #[trigger] child_link_ok(
        g,
        i,
        k,
    ) by {
        if i == p {
            if k == j {
                assert(child_link_ok(f, p, n - 1));
            } else {
                assert(child_link_ok(f, p, k));
            }
        } else {
            assert(child_link_ok(f, i, k));
            let d = f[i].children[k] as int;
            assert(parent_link_ok(f, d));
        }
    }
}

/// Cutting a node loose keeps the forest well-formed.
pub proof fn lemma_detached_wf<K, T>(f: Seq<NodeView<K, T>>, s: int)
    requires
        forest_wf(f),
        0 <= s < f.len(),
    ensures
        forest_wf(detached(f, s)),
        detached(f, s).len() == f.len(),
        detached(f, s)[s] == (NodeView { parent: None, ..f[s] }),
        forall|i: int|
            0 <= i < f.len() ==> {
                &&& (#[trigger] detached(f, s)[i]).key == f[i].key
                &&& detached(f, s)[i].value == f[i].value
                &&& i != s ==> detached(f, s)[i].parent == f[i].parent
                &&& f[s].parent != Some(i as usize) ==> detached(f, s)[i].children == f[i].children
            },
{
    match f[s].parent {
        Some(p) => {
            lemma_abandoned_wf(f, p as int, s);
            assert(parent_link_ok(f, s));
        },
        None => {},
    }
}

/// Hanging a node beneath an older one keeps the forest well-formed.
pub proof fn lemma_attached_wf<K, T>(f: Seq<NodeView<K, T>>, s: int, p: int)
    requires
        forest_wf(f),
        0 <= p < s < f.len(),
        detached(f, s)[p].children.len() < usize::MAX,
    ensures
        forest_wf(attached(f, s, p)),
        attached(f, s, p).len() == f.len(),
{
    let g = detached(f, s);
    lemma_detached_wf(f, s);
    let h = attached(f, s, p);
    let n = g[p].children.len() as int;
    assert forall|i: int| 0 <= i < h.len() implies #[trigger] parent_link_ok(h, i) by {
        assert(parent_link_ok(g, i));
        if i != s {
            match g[i].parent {
                None => {},
                Some(q) => {
                    if q as int == p {
                        assert(h[p].children[g[i].index as int] == g[p].children[g[i].index as int]);
                    }
                },
            }
        }
    }
    assert forall|i: int, k: int| 0 <= i < h.len() && 0 <= k < h[i].children.len() implies #[trigger] child_link_ok(
        h,
        i,
        k,
    ) by {
        if i == p && k == n {
        } else {
            assert(child_link_ok(g, i, k));
        }
    }
}

/// A descendant is never older than its ancestor.
pub proof fn lemma_descendant_is_younger<K, T>(f: Seq<NodeView<K, T>>, d: int, a: int)
    requires
        descends_from(f, d, a),
    ensures
        a <= d < f.len(),
    decreases d,
{
    if d != a {
        lemma_descendant_is_younger(f, f[d].parent.unwrap() as int, a);
    }
}

/// Descent is transitive.
pub proof fn lemma_descends_transitive<K, T>(f: Seq<NodeView<K, T>>, d: int, m: int, a: int)
    requires
        descends_from(f, d, m),
        descends_from(f, m, a),
    ensures
        descends_from(f, d, a),
    decreases d,
{
    if d != m {
        lemma_descends_transitive(f, f[d].parent.unwrap() as int, m, a);
    }
}

/// A proper descendant of `a` descends from one of the children of `a`.
pub proof fn lemma_descends_through_child<K, T>(f: Seq<NodeView<K, T>>, d: int, a: int) -> (j: int)
    requires
        forest_wf(f),
        descends_from(f, d, a),
        d != a,
    ensures
        0 <= j < f[a].children.len(),
        descends_from(f, d, f[a].children[j] as int),
    decreases d,
{
    let q = f[d].parent.unwrap() as int;
    lemma_descendant_is_younger(f, q, a);
    if q == a {
        assert(parent_link_ok(f, d));
        f[d].index as int
    } else {
        lemma_descends_through_child(f, q, a)
    }
}

/// Whatever descends from a child of `a` is a proper descendant of `a`.
pub proof fn lemma_descends_from_child<K, T>(f: Seq<NodeView<K, T>>, d: int, a: int, j: int)
    requires
        forest_wf(f),
        0 <= a < f.len(),
        0 <= j < f[a].children.len(),
        descends_from(f, d, f[a].children[j] as int),
    ensures
        descends_from(f, d, a),
        d != a,
    decreases d,
{
    let c = f[a].children[j] as int;
    assert(child_link_ok(f, a, j));
    assert(descends_from(f, a, a));
    if d != c {
        let q = f[d].parent.unwrap() as int;
        lemma_descends_from_child(f, q, a, j);
        lemma_descendant_is_younger(f, q, a);
    }
}

/// Descent is decided by the parent references alone: where a forest `g`
/// extends a forest `f` and agrees with it on the parent of every node of
/// `f` other than `a`, the two agree on which nodes of `f` descend from `a`.
pub proof fn lemma_descends_frame<K, T>(f: Seq<NodeView<K, T>>, g: Seq<NodeView<K, T>>, d: int, a: int)
    requires
        f.len() <= g.len(),
        forall|i: int| 0 <= i < f.len() && i != a ==> (#[trigger] g[i]).parent == f[i].parent,
        d < f.len(),
    ensures
        descends_from(g, d, a) == descends_from(f, d, a),
    decreases d,
{
    if 0 <= d && d != a {
        assert(g[d].parent == f[d].parent);
        match f[d].parent {
            Some(q) => {
                if q < d {
                    lemma_descends_frame(f, g, q as int, a);
                }
            },
            None => {},
        }
    }
}

/// Two forests that hold the same keys and agree on who descends from `a`
/// have the same keys beneath `a`.
pub proof fn lemma_subtree_keys_frame<K, T>(f: Seq<NodeView<K, T>>, g: Seq<NodeView<K, T>>, a: int)
    requires
        f.len() == g.len(),
        forall|i: int| 0 <= i < f.len() && i != a ==> (#[trigger] g[i]).parent == f[i].parent,
        forall|i: int| 0 <= i < f.len() ==> (#[trigger] g[i]).key == f[i].key,
    ensures
        subtree_keys(g, a) == subtree_keys(f, a),
{
    assert forall|k: K| subtree_keys(g, a).contains(k) == subtree_keys(f, a).contains(k) by {
        if subtree_keys(g, a).contains(k) {
            let d = choose|d: int| #[trigger] descends_from(g, d, a) && g[d].key == k;
            lemma_descendant_is_younger(g, d, a);
            lemma_descends_frame(f, g, d, a);
            assert(descends_from(f, d, a) && f[d].key == k);
        }
        if subtree_keys(f, a).contains(k) {
            let d = choose|d: int| #[trigger] descends_from(f, d, a) && f[d].key == k;
            lemma_descendant_is_younger(f, d, a);
            lemma_descends_frame(f, g, d, a);
            assert(descends_from(g, d, a) && g[d].key == k);
        }
    }
    assert(subtree_keys(g, a) =~= subtree_keys(f, a));
}

/// The keys beneath the first `n` children of node `a`.
pub open spec fn child_subtree_keys<K, T>(f: Seq<NodeView<K, T>>, a: int, n: int) -> Set<K> {
    Set::new(
        |k: K|
            exists|d: int, j: int|
                0 <= j < n && j < f[a].children.len() && #[trigger] descends_from(
                    f,
                    d,
                    f[a].children[j] as int,
                ) && f[d].key == k,
    )
}

/// Taking one more child into account adds the keys beneath that child.
pub proof fn lemma_child_subtree_keys_step<K, T>(f: Seq<NodeView<K, T>>, a: int, n: int)
    requires
        0 <= n < f[a].children.len(),
    ensures
        child_subtree_keys(f, a, n + 1) == child_subtree_keys(f, a, n).union(
            subtree_keys(f, f[a].children[n] as int),
        ),
{
    let lhs = child_subtree_keys(f, a, n + 1);
    let rhs = child_subtree_keys(f, a, n).union(subtree_keys(f, f[a].children[n] as int));
    assert forall|k: K| lhs.contains(k) == rhs.contains(k) by {
        if lhs.contains(k) {
            let (d, j) = choose|d: int, j: int|
                0 <= j < n + 1 && j < f[a].children.len() && #[trigger] descends_from(
                    f,
                    d,
                    f[a].children[j] as int,
                ) && f[d].key == k;
            if j < n {
                assert(child_subtree_keys(f, a, n).contains(k));
            } else {
                assert(subtree_keys(f, f[a].children[n] as int).contains(k));
            }
        }
        if child_subtree_keys(f, a, n).contains(k) {
            let (d, j) = choose|d: int, j: int|
                0 <= j < n && j < f[a].children.len() && #[trigger] descends_from(
                    f,
                    d,
                    f[a].children[j] as int,
                ) && f[d].key == k;
            assert(descends_from(f, d, f[a].children[j] as int) && 0 <= j < n + 1);
            assert(lhs.contains(k));
        }
        if subtree_keys(f, f[a].children[n] as int).contains(k) {
            let d = choose|d: int| #[trigger]
                descends_from(f, d, f[a].children[n] as int) && f[d].key == k;
            assert(descends_from(f, d, f[a].children[n] as int) && 0 <= n < n + 1);
            assert(lhs.contains(k));
        }
    }
    assert(lhs =~= rhs);
}

/// No keys lie beneath no children.
pub proof fn lemma_child_subtree_keys_none<K, T>(f: Seq<NodeView<K, T>>, a: int)
    ensures
        child_subtree_keys(f, a, 0) == Set::<K>::empty(),
{
    assert(child_subtree_keys(f, a, 0) =~= Set::<K>::empty());
}

/// The keys beneath a node are its own key and the keys beneath its children.
pub proof fn lemma_subtree_keys_split<K, T>(f: Seq<NodeView<K, T>>, a: int)
    requires
        forest_wf(f),
        0 <= a < f.len(),
    ensures
        subtree_keys(f, a) == child_subtree_keys(f, a, f[a].children.len() as int).insert(f[a].key),
{
    let n = f[a].children.len() as int;
    let lhs = subtree_keys(f, a);
    let rhs = child_subtree_keys(f, a, n).insert(f[a].key);
    assert forall|k: K| lhs.contains(k) == rhs.contains(k) by {
        if lhs.contains(k) {
            let d = choose|d: int| #[trigger] descends_from(f, d, a) && f[d].key == k;
            if d != a {
                let j = lemma_descends_through_child(f, d, a);
                assert(descends_from(f, d, f[a].children[j] as int) && 0 <= j < n);
                assert(child_subtree_keys(f, a, n).contains(k));
            }
        }
        if child_subtree_keys(f, a, n).contains(k) {
            let (d, j) = choose|d: int, j: int|
                0 <= j < n && j < f[a].children.len() && #[trigger] descends_from(
                    f,
                    d,
                    f[a].children[j] as int,
                ) && f[d].key == k;
            lemma_descends_from_child(f, d, a, j);
            assert(descends_from(f, d, a) && f[d].key == k);
        }
        if k == f[a].key {
            assert(descends_from(f, a, a) && f[a].key == k);
        }
    }
    assert(lhs =~= rhs);
}

/// A forest stays well-formed when a node without parent and without
/// children is appended to it.
pub proof fn lemma_pushed_wf<K, T>(f: Seq<NodeView<K, T>>, node: NodeView<K, T>)
    requires
        forest_wf(f),
        f.len() < usize::MAX,
        node.parent is None,
        node.children.len() == 0,
    ensures
        forest_wf(f.push(node)),
{
    let g = f.push(node);
    assert forall|i: int| 0 <= i < g.len() implies #[trigger] parent_link_ok(g, i) by {
        if i < f.len() {
            assert(parent_link_ok(f, i));
        }
    }
    assert forall|i: int, j: int| 0 <= i < g.len() && 0 <= j < g[i].children.len() implies #[trigger] child_link_ok(
        g,
        i,
        j,
    ) by {
        assert(child_link_ok(f, i, j));
    }
}

/// Beneath a node without children lies its own key and no other.
pub proof fn lemma_leaf_subtree_keys<K, T>(f: Seq<NodeView<K, T>>, a: int)
    requires
        forest_wf(f),
        0 <= a < f.len(),
        f[a].children.len() == 0,
    ensures
        subtree_keys(f, a) == Set::<K>::empty().insert(f[a].key),
{
    lemma_subtree_keys_split(f, a);
    lemma_child_subtree_keys_none(f, a);
}

/// Once node `c` is cut loose, what descends from another parentless node
/// `top` is what descended from it before, less what descends from `c`.
pub proof fn lemma_detached_descent<K, T>(f: Seq<NodeView<K, T>>, c: int, top: int, s: int)
    requires
        forest_wf(f),
        0 <= c < f.len(),
        0 <= top < f.len(),
        f[top].parent is None,
        c != top,
    ensures
        descends_from(detached(f, c), s, top) == (descends_from(f, s, top) && !descends_from(f, s, c)),
    decreases s,
{
    let g = detached(f, c);
    lemma_detached_wf(f, c);
    if 0 <= s < f.len() {
        if s == top {
        } else if s == c {
            assert(descends_from(f, c, c));
        } else {
            assert(g[s].parent == f[s].parent);
            match f[s].parent {
                Some(q) => {
                    if q < s {
                        lemma_detached_descent(f, c, top, q as int);
                    }
                },
                None => {},
            }
        }
    }
}

/// The slots on the way from node `top` down to its descendant `s`, both
/// included.
pub open spec fn path_down<K, T>(f: Seq<NodeView<K, T>>, top: int, s: int) -> Seq<usize>
    decreases s,
{
    if s != top && 0 <= s < f.len() && f[s].parent is Some && f[s].parent.unwrap() < s {
        path_down(f, top, f[s].parent.unwrap() as int).push(s as usize)
    } else {
        seq![s as usize]
    }
}

/// The way down to a node is no longer than the node's slot allows.
pub proof fn lemma_path_down_len<K, T>(f: Seq<NodeView<K, T>>, top: int, s: int)
    requires
        0 <= s,
    ensures
        1 <= path_down(f, top, s).len() <= s + 1,
        path_down(f, top, s).last() == s as usize,
    decreases s,
{
    if s != top && 0 <= s < f.len() && f[s].parent is Some && f[s].parent.unwrap() < s {
        lemma_path_down_len(f, top, f[s].parent.unwrap() as int);
    }
}

} // verus!
