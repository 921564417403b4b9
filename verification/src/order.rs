//! The orders in which a tree is walked: pre-order and level order.
use crate::forest::{
    child_link_ok, descends_from, forest_wf, lemma_descends_from_child, lemma_descends_through_child,
    NodeView,
};
use vstd::seq_lib::lemma_multiset_commutative;
use vstd::prelude::*;

verus! {

/// Node `s` and all its descendants in pre-order: the node itself, then what
/// hangs beneath each of its children, from the first child to the last.
pub open spec fn preorder<K, T>(f: Seq<NodeView<K, T>>, s: int) -> Seq<usize>
    decreases f.len() - s, f[s].children.len() + 1,
{
    if 0 <= s < f.len() {
        seq![s as usize] + preorder_from(f, s, 0)
    } else {
        Seq::empty()
    }
}

/// The pre-orders of the children of node `s` from position `j` on, one
/// after the other.
pub open spec fn preorder_from<K, T>(f: Seq<NodeView<K, T>>, s: int, j: int) -> Seq<usize>
    decreases f.len() - s, f[s].children.len() - j,
{
    if 0 <= s < f.len() && 0 <= j < f[s].children.len() {
        let c = f[s].children[j] as int;
        (if s < c < f.len() {
            preorder(f, c)
        } else {
            Seq::empty()
        }) + preorder_from(f, s, j + 1)
    } else {
        Seq::empty()
    }
}

/// The pre-orders of the nodes in `list`, one after the other.
pub open spec fn preorder_of_all<K, T>(f: Seq<NodeView<K, T>>, list: Seq<usize>) -> Seq<usize>
    decreases list.len(),
{
    if list.len() == 0 {
        Seq::empty()
    } else {
        preorder(f, list[0] as int) + preorder_of_all(f, list.drop_first())
    }
}

/// Every entry of `list` is a slot of the forest.
pub open spec fn slots_in<K, T>(f: Seq<NodeView<K, T>>, list: Seq<usize>) -> bool {
    forall|i: int| 0 <= i < list.len() ==> (#[trigger] list[i]) < f.len()
}

/// The nodes in `queue` and all their descendants in level order: the first
/// of the queue comes out, its children queue up at the end, and so on until
/// the queue is empty.
pub open spec fn level_order<K, T>(f: Seq<NodeView<K, T>>, queue: Seq<usize>) -> Seq<usize>
    decreases preorder_of_all(f, queue).len(),
    when forest_wf(f) && slots_in(f, queue)
    via level_order_decreases::<K, T>
{
    if queue.len() == 0 {
        Seq::empty()
    } else {
        seq![queue[0]] + level_order(f, queue.drop_first() + f[queue[0] as int].children)
    }
}

#[via_fn]
proof fn level_order_decreases<K, T>(f: Seq<NodeView<K, T>>, queue: Seq<usize>) {
    if queue.len() != 0 {
        lemma_queue_step(f, queue);
    }
}

/// The pre-order of a list is the pre-orders of its parts, one after the
/// other.
pub proof fn lemma_preorder_of_all_concat<K, T>(f: Seq<NodeView<K, T>>, x: Seq<usize>, y: Seq<usize>)
    ensures
        preorder_of_all(f, x + y) == preorder_of_all(f, x) + preorder_of_all(f, y),
    decreases x.len(),
{
    if x.len() == 0 {
        assert(x + y =~= y);
        assert(preorder_of_all(f, x) + preorder_of_all(f, y) =~= preorder_of_all(f, y));
    } else {
        assert((x + y).drop_first() =~= x.drop_first() + y);
        lemma_preorder_of_all_concat(f, x.drop_first(), y);
        assert(preorder(f, x[0] as int) + (preorder_of_all(f, x.drop_first()) + preorder_of_all(f, y)) =~= (
        preorder(f, x[0] as int) + preorder_of_all(f, x.drop_first())) + preorder_of_all(f, y));
    }
}

/// In a well-formed forest the pre-orders of the children of `s` from
/// position `j` on are the pre-order of that part of the child list.
pub proof fn lemma_preorder_from<K, T>(f: Seq<NodeView<K, T>>, s: int, j: int)
    requires
        forest_wf(f),
        0 <= s < f.len(),
        0 <= j <= f[s].children.len(),
    ensures
        preorder_from(f, s, j) == preorder_of_all(f, f[s].children.skip(j)),
    decreases f[s].children.len() - j,
{
    let rest = f[s].children.skip(j);
    if j < f[s].children.len() {
        assert(child_link_ok(f, s, j));
        lemma_preorder_from(f, s, j + 1);
        assert(rest.drop_first() =~= f[s].children.skip(j + 1));
        assert(rest[0] == f[s].children[j]);
    }
}

/// In a well-formed forest the pre-order of a node is the node, then the
/// pre-order of its child list.
pub proof fn lemma_preorder_unfold<K, T>(f: Seq<NodeView<K, T>>, s: int)
    requires
        forest_wf(f),
        0 <= s < f.len(),
    ensures
        preorder(f, s) == seq![s as usize] + preorder_of_all(f, f[s].children),
{
    lemma_preorder_from(f, s, 0);
    assert(f[s].children.skip(0) =~= f[s].children);
}

/// The children of a node of a well-formed forest are slots of the forest.
pub proof fn lemma_children_in<K, T>(f: Seq<NodeView<K, T>>, s: int)
    requires
        forest_wf(f),
        0 <= s < f.len(),
    ensures
        slots_in(f, f[s].children),
{
    assert forall|i: int| 0 <= i < f[s].children.len() implies (#[trigger] f[s].children[i]) < f.len() by {
        assert(child_link_ok(f, s, i));
    }
}

/// When the first of the queue gives way to its children, the queue still
/// holds slots of the forest, and one node less is left to walk.
pub proof fn lemma_queue_step<K, T>(f: Seq<NodeView<K, T>>, queue: Seq<usize>)
    requires
        forest_wf(f),
        slots_in(f, queue),
        queue.len() > 0,
    ensures
        slots_in(f, queue.drop_first() + f[queue[0] as int].children),
        preorder_of_all(f, queue.drop_first() + f[queue[0] as int].children).len() + 1 == preorder_of_all(
            f,
            queue,
        ).len(),
{
    let s = queue[0] as int;
    let rest = queue.drop_first();
    lemma_children_in(f, s);
    lemma_preorder_unfold(f, s);
    lemma_preorder_of_all_concat(f, rest, f[s].children);
    assert forall|i: int| 0 <= i < (rest + f[s].children).len() implies (#[trigger] (rest + f[s].children)[i])
        < f.len() by {
        if i < rest.len() {
            assert(rest[i] == queue[i + 1]);
        } else {
            assert((rest + f[s].children)[i] == f[s].children[i - rest.len()]);
        }
    }
}

/// A node is in the pre-order of a list if and only if it is in the
/// pre-order of one of the entries.
pub proof fn lemma_preorder_of_all_contains<K, T>(f: Seq<NodeView<K, T>>, list: Seq<usize>, d: usize)
    ensures
        preorder_of_all(f, list).contains(d) <==> exists|i: int|
            0 <= i < list.len() && #[trigger] preorder(f, list[i] as int).contains(d),
    decreases list.len(),
{
    if list.len() != 0 {
        let head = preorder(f, list[0] as int);
        let rest = list.drop_first();
        let tail = preorder_of_all(f, rest);
        lemma_preorder_of_all_contains(f, rest, d);
        if head.contains(d) {
            let k = choose|k: int| 0 <= k < head.len() && head[k] == d;
            assert((head + tail)[k] == d);
        }
        if tail.contains(d) {
            let k = choose|k: int| 0 <= k < tail.len() && tail[k] == d;
            assert((head + tail)[head.len() + k] == d);
            let i = choose|i: int| 0 <= i < rest.len() && #[trigger] preorder(f, rest[i] as int).contains(d);
            assert(list[i + 1] == rest[i]);
            assert(preorder(f, list[i + 1] as int).contains(d));
        }
        if (head + tail).contains(d) {
            let k = choose|k: int| 0 <= k < (head + tail).len() && (head + tail)[k] == d;
            if k < head.len() {
                assert(head[k] == d);
            } else {
                assert(tail[k - head.len()] == d);
            }
        }
        if exists|i: int| 0 <= i < list.len() && #[trigger] preorder(f, list[i] as int).contains(d) {
            let i = choose|i: int| 0 <= i < list.len() && #[trigger] preorder(f, list[i] as int).contains(d);
            if i != 0 {
                assert(rest[i - 1] == list[i]);
                assert(preorder(f, rest[i - 1] as int).contains(d));
            }
        }
    }
}

/// The pre-order of a node holds that node and its descendants, and no
/// other node.
pub proof fn lemma_preorder_holds_descendants<K, T>(f: Seq<NodeView<K, T>>, s: int, d: usize)
    requires
        forest_wf(f),
        0 <= s < f.len(),
    ensures
        preorder(f, s).contains(d) <==> descends_from(f, d as int, s),
    decreases f.len() - s,
{
    let kids = f[s].children;
    let below = preorder_of_all(f, kids);
    lemma_preorder_unfold(f, s);
    lemma_preorder_of_all_contains(f, kids, d);
    assert(descends_from(f, s, s));
    if preorder(f, s).contains(d) && d != s {
        let k = choose|k: int| 0 <= k < preorder(f, s).len() && preorder(f, s)[k] == d;
        assert(below[k - 1] == d);
        let i = choose|i: int| 0 <= i < kids.len() && #[trigger] preorder(f, kids[i] as int).contains(d);
        assert(child_link_ok(f, s, i));
        lemma_preorder_holds_descendants(f, kids[i] as int, d);
        lemma_descends_from_child(f, d as int, s, i);
    }
    if descends_from(f, d as int, s) {
        if d == s {
            assert(preorder(f, s)[0] == d);
        } else {
            let j = lemma_descends_through_child(f, d as int, s);
            assert(child_link_ok(f, s, j));
            lemma_preorder_holds_descendants(f, kids[j] as int, d);
            assert(preorder(f, kids[j] as int).contains(d));
            let k = choose|k: int| 0 <= k < below.len() && below[k] == d;
            assert(preorder(f, s)[k + 1] == d);
        }
    }
}

/// Level order and pre-order give out the same nodes, each as often as the
/// other: the two differ in the order only.
pub proof fn lemma_level_order_permutes_preorder<K, T>(f: Seq<NodeView<K, T>>, queue: Seq<usize>)
    requires
        forest_wf(f),
        slots_in(f, queue),
    ensures
        level_order(f, queue).to_multiset() == preorder_of_all(f, queue).to_multiset(),
        level_order(f, queue).len() == preorder_of_all(f, queue).len(),
    decreases preorder_of_all(f, queue).len(),
{
    if queue.len() != 0 {
        let s = queue[0] as int;
        let rest = queue.drop_first();
        let kids = f[s].children;
        lemma_queue_step(f, queue);
        lemma_level_order_permutes_preorder(f, rest + kids);
        lemma_preorder_unfold(f, s);
        lemma_preorder_of_all_concat(f, rest, kids);
        let first = seq![queue[0]];
        let of_rest = preorder_of_all(f, rest);
        let of_kids = preorder_of_all(f, kids);
        lemma_multiset_commutative(first, level_order(f, rest + kids));
        lemma_multiset_commutative(of_rest, of_kids);
        lemma_multiset_commutative(first, of_kids);
        lemma_multiset_commutative(first + of_kids, of_rest);
        assert(level_order(f, queue).to_multiset() =~= preorder_of_all(f, queue).to_multiset());
    }
}

} // verus!
