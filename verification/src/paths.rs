//! The distance query: which way leads from one node down to another.
//!
//! Edges lead from a node to its children and all of them count one. The
//! query walks the nodes beneath the start breadth first, notes for each the
//! distance from the start and the node it was reached from, and then reads
//! the way to the end backwards off those notes.
use crate::forest::{
    child_link_ok, descends_from, forest_wf, lemma_descendant_is_younger, lemma_path_down_len,
    parent_link_ok, path_down, NodeView,
};
use crate::node::{views, Node};
use crate::order::{lemma_children_in, lemma_queue_step, preorder_of_all, slots_in};
use std::collections::HashMap;
use std::collections::VecDeque;
use std::hash::Hash;
use vstd::prelude::*;
use vstd::std_specs::hash::obeys_key_model;

verus! {

/// The keys of the nodes in `slots`.
pub open spec fn keys_along<K, T>(f: Seq<NodeView<K, T>>, slots: Seq<usize>) -> Seq<K> {
    slots.map_values(|s: usize| f[s as int].key)
}

/// What the distance query answers. A key reaches itself by the way that
/// consists of that key, whether or not the index holds it. Otherwise there
/// is a way if the index holds both keys and the node found for `end`
/// descends from the node found for `start`; it is then the one way down,
/// filed under the number of its keys.
pub open spec fn shortest_paths<K, T>(
    f: Seq<NodeView<K, T>>,
    index: Map<K, usize>,
    start: K,
    end: K,
) -> Option<Map<usize, Seq<K>>> {
    if start == end {
        Some(Map::empty().insert(1usize, seq![start]))
    } else if index.contains_key(start) && index.contains_key(end) && descends_from(
        f,
        index[end] as int,
        index[start] as int,
    ) {
        let path = keys_along(f, path_down(f, index[start] as int, index[end] as int));
        Some(Map::empty().insert(path.len() as usize, path))
    } else {
        None
    }
}

/// The ways held by a map of paths, each as a sequence of keys.
pub open spec fn path_views<K>(paths: Map<usize, Vec<K>>) -> Map<usize, Seq<K>> {
    paths.map_values(|p: Vec<K>| p@)
}

/// Node `i` has been reached by the walk.
spec fn reached(dist: Seq<usize>, i: int) -> bool {
    dist[i] != usize::MAX
}

/// All children of node `i` have been reached.
spec fn children_reached<K, T>(f: Seq<NodeView<K, T>>, dist: Seq<usize>, i: int) -> bool {
    forall|k: int| 0 <= k < f[i].children.len() ==> reached(dist, #[trigger] f[i].children[k] as int)
}

/// What the notes say of a node that was reached: it lies beneath the start,
/// its distance is the length of the way down to it, and it was reached
/// from its parent, the start from nowhere.
spec fn settled<K, T>(f: Seq<NodeView<K, T>>, a: int, dist: Seq<usize>, pred: Seq<Vec<usize>>, i: int) -> bool {
    reached(dist, i) ==> {
        &&& descends_from(f, i, a)
        &&& dist[i] + 1 == path_down(f, a, i).len()
        &&& i == a ==> pred[i]@ == Seq::<usize>::empty()
        &&& i != a ==> f[i].parent is Some && pred[i]@ == seq![f[i].parent.unwrap()]
    }
}

/// Where node `i` stands in the walk: a node is reached as soon as it waits
/// in the queue, is being expanded, or is done; a node that is done waits no
/// more and has all its children reached; and a reached node other than the
/// start has a parent that is done, or is one of the first `j` children of
/// the node `cur` being expanded.
spec fn placed<K, T>(
    f: Seq<NodeView<K, T>>,
    a: int,
    dist: Seq<usize>,
    done: Set<int>,
    queue: Seq<usize>,
    cur: int,
    j: int,
    i: int,
) -> bool {
    &&& reached(dist, i) == (done.contains(i) || queue.contains(i as usize) || i == cur)
    &&& done.contains(i) ==> !queue.contains(i as usize) && i != cur && children_reached(f, dist, i)
    &&& reached(dist, i) && i != a ==> f[i].parent is Some && (done.contains(f[i].parent.unwrap() as int) || (
    f[i].parent.unwrap() == cur && f[i].index < j))
}

/// What the walk has noted once it is over: a node is reached if and only if
/// it lies beneath the start, and the notes of every reached node are right.
spec fn explored<K, T>(f: Seq<NodeView<K, T>>, a: int, dist: Seq<usize>, pred: Seq<Vec<usize>>) -> bool {
    &&& dist.len() == f.len()
    &&& pred.len() == f.len()
    &&& forall|i: int| 0 <= i < f.len() ==> #[trigger] settled(f, a, dist, pred, i)
    &&& forall|i: int| 0 <= i < f.len() ==> (#[trigger] reached(dist, i) <==> descends_from(f, i, a))
}

/// Where every node that is done has all its children done, and the start
/// is done, everything beneath the start is done.
proof fn lemma_done_covers<K, T>(f: Seq<NodeView<K, T>>, a: int, dist: Seq<usize>, done: Set<int>, d: int)
    requires
        forest_wf(f),
        dist.len() == f.len(),
        forall|i: int| 0 <= i < f.len() ==> #[trigger] placed(f, a, dist, done, Seq::<usize>::empty(), -1, 0, i),
        reached(dist, a),
        descends_from(f, d, a),
    ensures
        reached(dist, d),
    decreases d,
{
    if d != a {
        let q = f[d].parent.unwrap() as int;
        lemma_done_covers(f, a, dist, done, q);
        lemma_descendant_is_younger(f, q, a);
        assert(placed(f, a, dist, done, Seq::<usize>::empty(), -1, 0, q));
        assert(parent_link_ok(f, d));
        assert(children_reached(f, dist, q));
        assert(f[q].children[f[d].index as int] == d);
    }
}

/// Walks the nodes beneath node `start` breadth first and notes for each
/// its distance from `start` and the node it was reached from. A node that
/// was not reached keeps the distance `usize::MAX`.
fn explore<K, T>(nodes: &Vec<Node<K, T>>, start: usize) -> (notes: (Vec<usize>, Vec<Vec<usize>>))
    requires
        forest_wf(views(nodes@)),
        start < nodes.len(),
    ensures
        explored(views(nodes@), start as int, notes.0@, notes.1@),
{
    let ghost f = views(nodes@);
    let ghost a = start as int;
    let n = nodes.len();
    let mut distances: Vec<usize> = Vec::new();
    let mut predecessors: Vec<Vec<usize>> = Vec::new();
    let mut i: usize = 0;
    while i < n
        invariant
            i <= n,
            distances.len() == i,
            predecessors.len() == i,
            forall|k: int| 0 <= k < i ==> distances@[k] == usize::MAX,
            forall|k: int| 0 <= k < i ==> (#[trigger] predecessors@[k])@ == Seq::<usize>::empty(),
        decreases n - i,
    {
        distances.push(usize::MAX);
        predecessors.push(Vec::new());
        i += 1;
    }
    distances[start] = 0;
    let mut queue: VecDeque<usize> = VecDeque::new();
    queue.push_back(start);
    let ghost mut done: Set<int> = Set::empty();
    proof {
        assert(queue@ =~= seq![start]);
        assert(queue@[0] == start);
        assert(descends_from(f, a, a));
        assert forall|i: int| 0 <= i < n implies #[trigger] placed(f, a, distances@, done, queue@, -1, 0, i) by {
            if i != a {
                assert(!queue@.contains(i as usize));
            }
        }
    }
    while queue.len() > 0
        invariant
            f == views(nodes@),
            forest_wf(f),
            a == start,
            n == nodes.len(),
            start < n,
            distances.len() == n,
            predecessors.len() == n,
            slots_in(f, queue@),
            queue@.no_duplicates(),
            reached(distances@, a),
            forall|i: int| 0 <= i < n ==> #[trigger] settled(f, a, distances@, predecessors@, i),
            forall|i: int| 0 <= i < n ==> #[trigger] placed(f, a, distances@, done, queue@, -1, 0, i),
        decreases preorder_of_all(f, queue@).len(),
    {
        let ghost before = queue@;
        match queue.pop_front() {
            Some(current) => {
                let ghost rest = queue@;
                proof {
                    assert(before[0] == current);
                    assert(rest =~= before.drop_first());
                    assert(before.contains(current));
                    assert(placed(f, a, distances@, done, before, -1, 0, current as int));
                    assert(settled(f, a, distances@, predecessors@, current as int));
                    lemma_path_down_len(f, a, current as int);
                    lemma_descendant_is_younger(f, current as int, a);
                    lemma_children_in(f, current as int);
                    lemma_queue_step(f, before);
                    assert(!rest.contains(current)) by {
                        if rest.contains(current) {
                            let m = choose|m: int| 0 <= m < rest.len() && rest[m] == current;
                            assert(before[m + 1] == current);
                        }
                    }
                    assert(rest.no_duplicates()) by {
                        assert forall|x: int, y: int| 0 <= x < rest.len() && 0 <= y < rest.len() && x != y implies rest[x]
                            != rest[y] by {
                            assert(rest[x] == before[x + 1] && rest[y] == before[y + 1]);
                        }
                    }
                    assert(rest + f[current as int].children.take(0) =~= rest);
                    assert forall|i: int| 0 <= i < n implies #[trigger] placed(
                        f,
                        a,
                        distances@,
                        done,
                        rest,
                        current as int,
                        0,
                        i,
                    ) by {
                        assert(placed(f, a, distances@, done, before, -1, 0, i));
                        if before.contains(i as usize) && i != current {
                            let m = choose|m: int| 0 <= m < before.len() && before[m] == i as usize;
                            assert(rest[m - 1] == i as usize);
                        }
                        if rest.contains(i as usize) {
                            let m = choose|m: int| 0 <= m < rest.len() && rest[m] == i as usize;
                            assert(before[m + 1] == i as usize);
                        }
                    }
                }
                let current_distance = distances[current];
                let children = nodes[current].children();
                let count = children.len();
                let mut j: usize = 0;
                while j < count
                    invariant
                        f == views(nodes@),
                        forest_wf(f),
                        a == start,
                        n == nodes.len(),
                        start < n,
                        current < n,
                        a <= current,
                        distances.len() == n,
                        predecessors.len() == n,
                        children@ == f[current as int].children,
                        slots_in(f, children@),
                        count == children.len(),
                        j <= count,
                        queue@ == rest + children@.take(j as int),
                        queue@.no_duplicates(),
                        !queue@.contains(current),
                        !done.contains(current as int),
                        current_distance == distances@[current as int],
                        current_distance + 1 <= current + 1,
                        reached(distances@, a),
                        reached(distances@, current as int),
                        forall|k: int| 0 <= k < j ==> reached(distances@, #[trigger] children@[k] as int),
                        forall|i: int| 0 <= i < n ==> #[trigger] settled(f, a, distances@, predecessors@, i),
                        forall|i: int|
                            0 <= i < n ==> #[trigger] placed(
                                f,
                                a,
                                distances@,
                                done,
                                queue@,
                                current as int,
                                j as int,
                                i,
                            ),
                    decreases count - j,
                {
                    let child = children[j];
                    let new_distance = current_distance + 1;
                    let ghost dist0 = distances@;
                    let ghost pred0 = predecessors@;
                    let ghost queue0 = queue@;
                    proof {
                        assert(child_link_ok(f, current as int, j as int));
                        assert(placed(f, a, dist0, done, queue0, current as int, j as int, child as int));
                        assert(settled(f, a, dist0, pred0, current as int));
                        assert(!reached(dist0, child as int));
                    }
                    if new_distance < distances[child] {
                        distances[child] = new_distance;
                        let mut reached_from: Vec<usize> = Vec::new();
                        reached_from.push(current);
                        predecessors[child] = reached_from;
                        queue.push_back(child);
                    } else if new_distance == distances[child] {
                        // A second way of the same length. In a forest a node is
                        // reached through its one parent, so this is never taken.
                        predecessors[child].push(current);
                    }
                    proof {
                        assert(distances@ == dist0.update(child as int, new_distance));
                        assert(queue@ =~= rest + children@.take(j + 1));
                        assert(queue@ =~= queue0.push(child));
                        assert(descends_from(f, child as int, a));
                        assert forall|k: int| 0 <= k < j + 1 implies reached(
                            distances@,
                            #[trigger] children@[k] as int,
                        ) by {
                            if k < j {
                                assert(reached(dist0, children@[k] as int));
                            }
                        }
                        assert forall|i: int| 0 <= i < n implies #[trigger] settled(
                            f,
                            a,
                            distances@,
                            predecessors@,
                            i,
                        ) by {
                            assert(settled(f, a, dist0, pred0, i));
                        }
                        assert forall|i: int| 0 <= i < n implies #[trigger] placed(
                            f,
                            a,
                            distances@,
                            done,
                            queue@,
                            current as int,
                            j + 1,
                            i,
                        ) by {
                            assert(placed(f, a, dist0, done, queue0, current as int, j as int, i));
                            if i == child {
                                assert(queue@[queue0.len() as int] == child);
                            } else {
                                if queue0.contains(i as usize) {
                                    let m = choose|m: int| 0 <= m < queue0.len() && queue0[m] == i as usize;
                                    assert(queue@[m] == i as usize);
                                }
                                if queue@.contains(i as usize) {
                                    let m = choose|m: int| 0 <= m < queue@.len() && queue@[m] == i as usize;
                                    assert(queue0[m] == i as usize);
                                }
                                if done.contains(i) {
                                    assert(children_reached(f, dist0, i));
                                    assert forall|k: int| 0 <= k < f[i].children.len() implies reached(
                                        distances@,
                                        #[trigger] f[i].children[k] as int,
                                    ) by {
                                        assert(child_link_ok(f, i, k));
                                        assert(reached(dist0, f[i].children[k] as int));
                                    }
                                }
                            }
                        }
                        assert(queue@.no_duplicates()) by {
                            assert forall|x: int, y: int|
                                0 <= x < queue@.len() && 0 <= y < queue@.len() && x != y implies queue@[x]
                                != queue@[y] by {
                                if x < queue0.len() {
                                    assert(queue@[x] == queue0[x]);
                                }
                                if y < queue0.len() {
                                    assert(queue@[y] == queue0[y]);
                                }
                            }
                        }
                        assert(!queue@.contains(current)) by {
                            if queue@.contains(current) {
                                let m = choose|m: int| 0 <= m < queue@.len() && queue@[m] == current;
                                assert(queue0[m] == current);
                            }
                        }
                    }
                    j += 1;
                }
                proof {
                    assert(children@.take(count as int) =~= children@);
                    let ghost earlier = done;
                    done = done.insert(current as int);
                    assert forall|i: int| 0 <= i < n implies #[trigger] placed(
                        f,
                        a,
                        distances@,
                        done,
                        queue@,
                        -1,
                        0,
                        i,
                    ) by {
                        assert(placed(f, a, distances@, earlier, queue@, current as int, count as int, i));
                        if i == current {
                            assert forall|k: int| 0 <= k < f[i].children.len() implies reached(
                                distances@,
                                #[trigger] f[i].children[k] as int,
                            ) by {
                                assert(reached(distances@, children@[k] as int));
                            }
                        }
                    }
                }
            },
            None => {},
        }
    }
    proof {
        assert(queue@ =~= Seq::<usize>::empty());
        assert forall|i: int| 0 <= i < n implies (#[trigger] reached(distances@, i) <==> descends_from(f, i, a)) by {
            assert(settled(f, a, distances@, predecessors@, i));
            if descends_from(f, i, a) {
                lemma_done_covers(f, a, distances@, done, i);
            }
        }
    }
    (distances, predecessors)
}

/// A copy of `list` read from its end to its start.
fn reversed<K: Copy>(list: &Vec<K>) -> (r: Vec<K>)
    ensures
        r@ == list@.reverse(),
{
    let mut r: Vec<K> = Vec::new();
    let mut i = list.len();
    while i > 0
        invariant
            i <= list.len(),
            r.len() == list.len() - i,
            forall|k: int| 0 <= k < r.len() ==> r@[k] == list@[list.len() - 1 - k],
        decreases i,
    {
        i -= 1;
        r.push(list[i]);
    }
    assert(r@ =~= list@.reverse());
    r
}

/// Reads the way to node `end` backwards off the notes of a walk from node
/// `a`: the key of `end` is put on `current_path`, then the way is followed
/// through each node that `end` was reached from. Where a node was reached
/// from nowhere the way is complete; it is turned round and filed in
/// `all_paths` under its length, in place of what was filed there before.
fn trace_paths<K: Copy, T>(
    nodes: &Vec<Node<K, T>>,
    end: usize,
    predecessors: &Vec<Vec<usize>>,
    current_path: &mut Vec<K>,
    all_paths: &mut HashMap<usize, Vec<K>>,
    Ghost(a): Ghost<int>,
    Ghost(dist): Ghost<Seq<usize>>,
)
    requires
        forest_wf(views(nodes@)),
        end < nodes.len(),
        explored(views(nodes@), a, dist, predecessors@),
        descends_from(views(nodes@), end as int, a),
    ensures
        final(current_path)@ == old(current_path)@,
        ({
            let way = keys_along(views(nodes@), path_down(views(nodes@), a, end as int)) + old(
                current_path,
            )@.reverse();
            path_views(final(all_paths)@) == path_views(old(all_paths)@).insert(way.len() as usize, way)
        }),
    decreases end,
{
    let ghost f = views(nodes@);
    let ghost path0 = current_path@;
    let ghost filed0 = all_paths@;
    let ghost way = keys_along(f, path_down(f, a, end as int)) + path0.reverse();
    current_path.push(*nodes[end].key());
    let ghost path1 = current_path@;
    let preds = &predecessors[end];
    proof {
        assert(settled(f, a, dist, predecessors@, end as int));
        assert(reached(dist, end as int));
        assert(path1.reverse() =~= seq![f[end as int].key] + path0.reverse());
    }
    if preds.len() > 0 {
        let mut j: usize = 0;
        proof {
            assert(parent_link_ok(f, end as int));
            let q = f[end as int].parent.unwrap();
            let upper = keys_along(f, path_down(f, a, q as int));
            assert(keys_along(f, path_down(f, a, end as int)) =~= upper.push(f[end as int].key));
            assert(upper + path1.reverse() =~= way);
        }
        while j < preds.len()
            invariant
                f == views(nodes@),
                forest_wf(f),
                end < nodes.len(),
                end as int != a,
                explored(f, a, dist, predecessors@),
                descends_from(f, end as int, a),
                f[end as int].parent is Some,
                f[end as int].parent.unwrap() < end,
                preds@ == seq![f[end as int].parent.unwrap()],
                j <= preds.len(),
                current_path@ == path1,
                way == keys_along(f, path_down(f, a, f[end as int].parent.unwrap() as int)) + path1.reverse(),
                j == 0 ==> all_paths@ == filed0,
                j == 1 ==> path_views(all_paths@) == path_views(filed0).insert(way.len() as usize, way),
            decreases preds.len() - j,
        {
            trace_paths(nodes, preds[j], predecessors, current_path, all_paths, Ghost(a), Ghost(dist));
            j += 1;
        }
    } else {
        let path = reversed(current_path);
        proof {
            assert(path_down(f, a, end as int) =~= seq![end]);
            assert(keys_along(f, seq![end]) =~= seq![f[end as int].key]);
            assert(path@ =~= way);
        }
        all_paths.insert(path.len(), path);
        proof {
            assert(path_views(all_paths@) =~= path_views(filed0).insert(way.len() as usize, way));
        }
    }
    current_path.pop();
    proof {
        assert(current_path@ =~= path0);
    }
}

/// Answers the distance query on an arena and its primary index: the way
/// from the node found for `start_key` down to the node found for
/// `end_key`, filed under its length, or nothing where there is no such
/// way.
pub fn shortest_paths_between<K: Copy + Eq + Hash, T>(
    nodes: &Vec<Node<K, T>>,
    index: &HashMap<K, usize>,
    start_key: &K,
    end_key: &K,
) -> (r: Option<HashMap<usize, Vec<K>>>)
    requires
        obeys_key_model::<K>(),
        forest_wf(views(nodes@)),
        forall|k: K| #[trigger]
            index@.contains_key(k) ==> index@[k] < nodes.len() && views(nodes@)[index@[k] as int].key == k,
    ensures
        match r {
            Some(paths) => shortest_paths(views(nodes@), index@, *start_key, *end_key) == Some(
                path_views(paths@),
            ),
            None => shortest_paths(views(nodes@), index@, *start_key, *end_key) is None,
        },
{
    let ghost f = views(nodes@);
    let start = match index.get(start_key) {
        Some(slot) => Some(*slot),
        None => None,
    };
    let end = match index.get(end_key) {
        Some(slot) => Some(*slot),
        None => None,
    };
    match (start, end) {
        (Some(a), Some(b)) => {
            let (distances, predecessors) = explore(nodes, a);
            proof {
                assert(reached(distances@, b as int) <==> descends_from(f, b as int, a as int));
                assert(descends_from(f, a as int, a as int));
            }
            if distances[b] == usize::MAX {
                return None;
            }
            let mut all_paths: HashMap<usize, Vec<K>> = HashMap::new();
            let mut current_path: Vec<K> = Vec::new();
            trace_paths(
                nodes,
                b,
                &predecessors,
                &mut current_path,
                &mut all_paths,
                Ghost(a as int),
                Ghost(distances@),
            );
            proof {
                let way = keys_along(f, path_down(f, a as int, b as int));
                assert(way + Seq::<K>::empty().reverse() =~= way);
                assert(path_views(Map::<usize, Vec<K>>::empty()) =~= Map::<usize, Seq<K>>::empty());
                if *start_key == *end_key {
                    assert(path_down(f, a as int, a as int) =~= seq![a]);
                    assert(way =~= seq![*start_key]);
                }
            }
            Some(all_paths)
        },
        _ => {
            let mut distances: HashMap<K, usize> = HashMap::new();
            distances.insert(*start_key, 0);
            if distances.contains_key(end_key) {
                let mut all_paths: HashMap<usize, Vec<K>> = HashMap::new();
                let mut path: Vec<K> = Vec::new();
                path.push(*start_key);
                all_paths.insert(1, path);
                proof {
                    assert(path_views(all_paths@) =~= Map::<usize, Seq<K>>::empty().insert(
                        1usize,
                        seq![*start_key],
                    ));
                }
                Some(all_paths)
            } else {
                None
            }
        },
    }
}

} // verus!
