//! Lazy walks over the nodes of an arena: depth first, breadth first, and a
//! breadth-first walk that carries the depth of each node along.
//!
//! A walk borrows the arena for as long as it lives, so the tree cannot be
//! changed under it. The view of a walk is what it has yet to give out: the
//! slots of the nodes to come, in the order in which they will come.
use crate::forest::{
    child_link_ok, descends_from, forest_wf, lemma_descendant_is_younger, lemma_path_down_len, path_down,
    NodeView,
};
use crate::node::{views, Node};
use crate::order::{
    lemma_children_in, lemma_preorder_of_all_concat, lemma_preorder_unfold, lemma_queue_step,
    level_order, preorder, preorder_of_all, slots_in,
};
use std::collections::VecDeque;
use vstd::prelude::*;

verus! {

/// Walks a node and its descendants in pre-order: each node before its
/// children, the children from the first to the last.
pub struct DepthFirstIterator<'a, K, T> {
    nodes: &'a Vec<Node<K, T>>,
    stack: Vec<usize>,
}

impl<'a, K, T> View for DepthFirstIterator<'a, K, T> {
    type V = Seq<usize>;

    closed spec fn view(&self) -> Seq<usize> {
        preorder_of_all(views(self.nodes@), self.stack@.reverse())
    }
}

impl<'a, K, T> DepthFirstIterator<'a, K, T> {
    /// The forest that is walked.
    pub closed spec fn forest(&self) -> Seq<NodeView<K, T>> {
        views(self.nodes@)
    }

    /// The forest is well-formed and the walk refers to nodes of it only.
    pub closed spec fn wf(&self) -> bool {
        &&& forest_wf(views(self.nodes@))
        &&& slots_in(views(self.nodes@), self.stack@)
    }

    /// A walk over node `start` of `nodes` and all that hangs beneath it.
    pub fn new(nodes: &'a Vec<Node<K, T>>, start: usize) -> (it: Self)
        requires
            forest_wf(views(nodes@)),
            start < nodes.len(),
        ensures
            it.wf(),
            it.forest() == views(nodes@),
            it@ == preorder(views(nodes@), start as int),
    {
        let mut stack: Vec<usize> = Vec::new();
        stack.push(start);
        let it = DepthFirstIterator { nodes, stack };
        proof {
            let f = views(nodes@);
            let list = it.stack@.reverse();
            assert(list =~= seq![start]);
            assert(list.drop_first() =~= Seq::<usize>::empty());
            assert(preorder_of_all(f, list.drop_first()) =~= Seq::<usize>::empty());
            assert(preorder(f, start as int) + Seq::<usize>::empty() =~= preorder(f, start as int));
        }
        it
    }

    /// Gives out the next node of the walk, or nothing when the walk is
    /// over.
    pub fn next(&mut self) -> (r: Option<&'a Node<K, T>>)
        requires
            old(self).wf(),
        ensures
            final(self).wf(),
            final(self).forest() == old(self).forest(),
            match r {
                Some(node) => old(self)@.len() > 0 && node@ == old(self).forest()[old(self)@[0] as int]
                    && final(self)@ == old(self)@.drop_first(),
                None => old(self)@.len() == 0 && final(self)@.len() == 0,
            },
    {
        let nodes: &'a Vec<Node<K, T>> = self.nodes;
        let ghost f = views(nodes@);
        let ghost before = self.stack@;
        match self.stack.pop() {
            Some(slot) => {
                let node = &nodes[slot];
                let children = node.children();
                let ghost rest = self.stack@;
                let count = children.len();
                let mut j = count;
                proof {
                    assert(before[before.len() - 1] == slot);
                    lemma_children_in(f, slot as int);
                }
                while j > 0
                    invariant
                        self.nodes == nodes,
                        children@ == f[slot as int].children,
                        slots_in(f, children@),
                        slots_in(f, rest),
                        count == children.len(),
                        j <= count,
                        self.stack@.len() == rest.len() + (count - j),
                        forall|i: int| 0 <= i < rest.len() ==> self.stack@[i] == rest[i],
                        forall|i: int|
                            rest.len() <= i < self.stack@.len() ==> (#[trigger] self.stack@[i]) == children@[count
                                - 1 - (i - rest.len())],
                    decreases j,
                {
                    j -= 1;
                    self.stack.push(children[j]);
                }
                proof {
                    let old_list = before.reverse();
                    let new_list = self.stack@.reverse();
                    assert(old_list.drop_first() =~= rest.reverse());
                    assert(old_list[0] == slot);
                    assert(new_list =~= children@ + rest.reverse());
                    lemma_preorder_unfold(f, slot as int);
                    lemma_preorder_of_all_concat(f, children@, rest.reverse());
                    assert(preorder_of_all(f, old_list) =~= seq![slot] + preorder_of_all(f, new_list));
                    assert(preorder_of_all(f, new_list) =~= preorder_of_all(f, old_list).drop_first());
                    assert forall|i: int| 0 <= i < self.stack@.len() implies (#[trigger] self.stack@[i])
                        < f.len() by {
                        if i < rest.len() {
                            assert(rest[i] == before[i]);
                        }
                    }
                }
                Some(node)
            },
            None => {
                proof {
                    assert(self.stack@.reverse() =~= Seq::<usize>::empty());
                }
                None
            },
        }
    }
}

/// Walks a node and its descendants in level order: a node, then its
/// siblings, then the children of them all, in stored order.
pub struct BreadthFirstIterator<'a, K, T> {
    nodes: &'a Vec<Node<K, T>>,
    queue: VecDeque<usize>,
}

impl<'a, K, T> View for BreadthFirstIterator<'a, K, T> {
    type V = Seq<usize>;

    closed spec fn view(&self) -> Seq<usize> {
        level_order(views(self.nodes@), self.queue@)
    }
}

impl<'a, K, T> BreadthFirstIterator<'a, K, T> {
    /// The forest that is walked.
    pub closed spec fn forest(&self) -> Seq<NodeView<K, T>> {
        views(self.nodes@)
    }

    /// The forest is well-formed and the walk refers to nodes of it only.
    pub closed spec fn wf(&self) -> bool {
        &&& forest_wf(views(self.nodes@))
        &&& slots_in(views(self.nodes@), self.queue@)
    }

    /// A walk over node `start` of `nodes` and all that hangs beneath it.
    pub fn new(nodes: &'a Vec<Node<K, T>>, start: usize) -> (it: Self)
        requires
            forest_wf(views(nodes@)),
            start < nodes.len(),
        ensures
            it.wf(),
            it.forest() == views(nodes@),
            it@ == level_order(views(nodes@), seq![start]),
    {
        let mut queue: VecDeque<usize> = VecDeque::new();
        queue.push_back(start);
        let it = BreadthFirstIterator { nodes, queue };
        assert(it.queue@ =~= seq![start]);
        it
    }

    /// Gives out the next node of the walk, or nothing when the walk is
    /// over.
    pub fn next(&mut self) -> (r: Option<&'a Node<K, T>>)
        requires
            old(self).wf(),
        ensures
            final(self).wf(),
            final(self).forest() == old(self).forest(),
            match r {
                Some(node) => old(self)@.len() > 0 && node@ == old(self).forest()[old(self)@[0] as int]
                    && final(self)@ == old(self)@.drop_first(),
                None => old(self)@.len() == 0 && final(self)@.len() == 0,
            },
    {
        let nodes: &'a Vec<Node<K, T>> = self.nodes;
        let ghost f = views(nodes@);
        let ghost before = self.queue@;
        match self.queue.pop_front() {
            Some(slot) => {
                let node = &nodes[slot];
                let children = node.children();
                let ghost rest = self.queue@;
                let count = children.len();
                let mut j: usize = 0;
                proof {
                    assert(rest =~= before.drop_first());
                    assert(rest + children@.take(0) =~= rest);
                }
                while j < count
                    invariant
                        self.nodes == nodes,
                        count == children.len(),
                        j <= count,
                        self.queue@ == rest + children@.take(j as int),
                    decreases count - j,
                {
                    self.queue.push_back(children[j]);
                    proof {
                        assert(self.queue@ =~= rest + children@.take(j + 1));
                    }
                    j += 1;
                }
                proof {
                    assert(children@.take(count as int) =~= children@);
                    lemma_queue_step(f, before);
                    assert(level_order(f, before) =~= seq![slot] + level_order(f, self.queue@));
                    assert(level_order(f, self.queue@) =~= level_order(f, before).drop_first());
                }
                Some(node)
            },
            None => None,
        }
    }
}

/// Walks a node and its descendants in level order, as
/// [`BreadthFirstIterator`] does, and keeps beside each node that waits its
/// distance from the start of the walk. The distance neither reorders nor
/// filters what comes out: the two walks give out the same nodes in the same
/// order.
pub struct ShortestPathIterator<'a, K, T> {
    nodes: &'a Vec<Node<K, T>>,
    queue: VecDeque<(usize, usize)>,
    start: Ghost<usize>,
}

/// The slots of the entries of a queue of distances and slots.
pub open spec fn queued_slots(queue: Seq<(usize, usize)>) -> Seq<usize> {
    queue.map_values(|e: (usize, usize)| e.1)
}

/// The entries that queue up for `slots` at distance `depth`.
pub open spec fn at_depth(slots: Seq<usize>, depth: int) -> Seq<(usize, usize)> {
    slots.map_values(|s: usize| (depth as usize, s))
}

/// The entry names a node beneath `start` and holds the number of steps
/// that lead from `start` down to it.
pub open spec fn entry_ok<K, T>(f: Seq<NodeView<K, T>>, start: int, entry: (usize, usize)) -> bool {
    &&& descends_from(f, entry.1 as int, start)
    &&& entry.0 + 1 == path_down(f, start, entry.1 as int).len()
}

impl<'a, K, T> View for ShortestPathIterator<'a, K, T> {
    type V = Seq<usize>;

    open spec fn view(&self) -> Seq<usize> {
        level_order(self.forest(), queued_slots(self.waiting()))
    }
}

impl<'a, K, T> ShortestPathIterator<'a, K, T> {
    /// The forest that is walked.
    pub closed spec fn forest(&self) -> Seq<NodeView<K, T>> {
        views(self.nodes@)
    }

    /// The slot at which the walk began.
    pub closed spec fn start(&self) -> usize {
        self.start@
    }

    /// The nodes that wait to be given out, first come first, each with its
    /// distance from the start.
    pub closed spec fn waiting(&self) -> Seq<(usize, usize)> {
        self.queue@
    }

    /// The forest is well-formed, and every entry that waits names a node
    /// beneath the start together with its distance from the start.
    pub open spec fn wf(&self) -> bool {
        &&& forest_wf(self.forest())
        &&& forall|i: int| 0 <= i < self.waiting().len() ==> entry_ok(
            self.forest(),
            self.start() as int,
            #[trigger] self.waiting()[i],
        )
    }

    /// A walk over node `start` of `nodes` and all that hangs beneath it.
    pub fn new(nodes: &'a Vec<Node<K, T>>, start: usize) -> (it: Self)
        requires
            forest_wf(views(nodes@)),
            start < nodes.len(),
        ensures
            it.wf(),
            it.forest() == views(nodes@),
            it.start() == start,
            it.waiting() == seq![(0usize, start)],
            it@ == level_order(views(nodes@), seq![start]),
    {
        let mut queue: VecDeque<(usize, usize)> = VecDeque::new();
        queue.push_back((0, start));
        let it = ShortestPathIterator { nodes, queue, start: Ghost(start) };
        proof {
            assert(it.queue@ =~= seq![(0usize, start)]);
            assert(queued_slots(it.queue@) =~= seq![start]);
            assert(descends_from(views(nodes@), start as int, start as int));
        }
        it
    }

    /// Gives out the next node of the walk, or nothing when the walk is
    /// over. The children of the node that is given out queue up behind the
    /// nodes that wait, one step further from the start than the node
    /// itself.
    pub fn next(&mut self) -> (r: Option<&'a Node<K, T>>)
        requires
            old(self).wf(),
        ensures
            final(self).wf(),
            final(self).forest() == old(self).forest(),
            final(self).start() == old(self).start(),
            match r {
                Some(node) => {
                    &&& old(self)@.len() > 0
                    &&& old(self).waiting().len() > 0
                    &&& old(self)@[0] == old(self).waiting()[0].1
                    &&& node@ == old(self).forest()[old(self)@[0] as int]
                    &&& final(self)@ == old(self)@.drop_first()
                    &&& final(self).waiting() == old(self).waiting().drop_first() + at_depth(
                        node@.children,
                        old(self).waiting()[0].0 + 1,
                    )
                },
                None => old(self)@.len() == 0 && old(self).waiting().len() == 0 && final(self)@.len() == 0,
            },
    {
        let nodes: &'a Vec<Node<K, T>> = self.nodes;
        let ghost f = views(nodes@);
        let ghost start = self.start@ as int;
        let ghost before = self.queue@;
        proof {
            assert forall|i: int| 0 <= i < queued_slots(before).len() implies (#[trigger] queued_slots(
                before,
            )[i]) < f.len() by {
                assert(entry_ok(f, start, before[i]));
            }
        }
        match self.queue.pop_front() {
            Some((depth, slot)) => {
                proof {
                    assert(before[0] == (depth, slot));
                    assert(entry_ok(f, start, before[0]));
                    assert(queued_slots(before)[0] == slot);
                    lemma_path_down_len(f, start, slot as int);
                    lemma_descendant_is_younger(f, slot as int, start);
                }
                let node = &nodes[slot];
                let children = node.children();
                let ghost rest = self.queue@;
                let count = children.len();
                let mut j: usize = 0;
                proof {
                    assert(rest =~= before.drop_first());
                    assert(queued_slots(rest) =~= queued_slots(before).drop_first());
                    assert(rest + at_depth(children@.take(0), depth + 1) =~= rest);
                    assert forall|i: int| 0 <= i < rest.len() implies entry_ok(f, start, #[trigger] rest[i]) by {
                        assert(rest[i] == before[i + 1]);
                    }
                }
                while j < count
                    invariant
                        self.nodes == nodes,
                        self.start@ == start,
                        forest_wf(f),
                        f == views(nodes@),
                        slot < f.len(),
                        start <= slot,
                        depth < slot + 1,
                        descends_from(f, slot as int, start),
                        depth + 1 == path_down(f, start, slot as int).len(),
                        children@ == f[slot as int].children,
                        count == children.len(),
                        j <= count,
                        self.queue@ == rest + at_depth(children@.take(j as int), depth + 1),
                        forall|i: int| 0 <= i < self.queue@.len() ==> entry_ok(f, start, #[trigger] self.queue@[i]),
                    decreases count - j,
                {
                    let ghost earlier = self.queue@;
                    proof {
                        assert(child_link_ok(f, slot as int, j as int));
                    }
                    self.queue.push_back((depth + 1, children[j]));
                    proof {
                        assert(children@.take(j + 1) =~= children@.take(j as int).push(children@[j as int]));
                        assert(self.queue@ =~= rest + at_depth(children@.take(j + 1), depth + 1));
                        assert forall|i: int| 0 <= i < self.queue@.len() implies entry_ok(
                            f,
                            start,
                            #[trigger] self.queue@[i],
                        ) by {
                            if i < earlier.len() {
                                assert(self.queue@[i] == earlier[i]);
                            }
                        }
                    }
                    j += 1;
                }
                proof {
                    assert(children@.take(count as int) =~= children@);
                    assert(queued_slots(self.queue@) =~= queued_slots(rest) + children@);
                    lemma_queue_step(f, queued_slots(before));
                    assert(level_order(f, queued_slots(before)) =~= seq![slot] + level_order(
                        f,
                        queued_slots(self.queue@),
                    ));
                    assert(level_order(f, queued_slots(self.queue@)) =~= level_order(
                        f,
                        queued_slots(before),
                    ).drop_first());
                }
                Some(node)
            },
            None => {
                proof {
                    assert(queued_slots(self.queue@) =~= Seq::<usize>::empty());
                }
                None
            },
        }
    }
}

} // verus!
