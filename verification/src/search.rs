//! Breadth-first search: the distance between two vertices, and the number of
//! vertices that the search takes off its queue on the way.

use crate::graph::{has_edge, neighbors, Adjacency, Graph};
use crate::walk::{
    connected, is_shortest, lemma_reach_extend, lemma_reach_last_step, lemma_reach_self,
    lemma_reach_zero, lemma_shortest_distance, reachable_in, shortest_distance,
};
use std::collections::{HashSet, VecDeque};
use vstd::prelude::*;

verus! {

/// The vertices of `candidates` that are not in `seen`, each once, in the
/// order in which they first occur.
pub open spec fn fresh(candidates: Seq<usize>, seen: Set<usize>) -> Seq<usize>
    decreases candidates.len(),
{
    if candidates.len() == 0 {
        Seq::empty()
    } else {
        let earlier = fresh(candidates.drop_last(), seen);
        let v = candidates.last();
        if seen.contains(v) || earlier.contains(v) {
            earlier
        } else {
            earlier.push(v)
        }
    }
}

/// The vertices that a breadth-first search from `start` has discovered, in
/// the order of their discovery, once it has taken `steps` vertices off its
/// queue. The search discovers `start` first; taking a vertex off the queue,
/// it discovers those of the vertex's neighbours that are new, in the order
/// of the neighbour list.
pub open spec fn discovered(g: Adjacency, start: usize, steps: nat) -> Seq<usize>
    decreases steps,
{
    if steps == 0 {
        seq![start]
    } else {
        let before = discovered(g, start, (steps - 1) as nat);
        if steps - 1 < before.len() {
            before + fresh(neighbors(g, before[steps - 1]), before.to_set())
        } else {
            before
        }
    }
}

/// The vertex that the search takes off its queue at step `step`, counted
/// from 0; none once the queue is empty.
pub open spec fn visit_at(g: Adjacency, start: usize, step: nat) -> Option<usize> {
    let seen = discovered(g, start, step);
    if step < seen.len() {
        Some(seen[step as int])
    } else {
        None
    }
}

/// Whether the search takes `end` off its queue at step `step` and at no
/// earlier step.
pub open spec fn is_first_visit(g: Adjacency, start: usize, end: usize, step: nat) -> bool {
    &&& visit_at(g, start, step) == Some(end)
    &&& forall|m: nat| m < step ==> #[trigger] visit_at(g, start, m) != Some(end)
}

/// Whether the search never takes `end` off its queue.
pub open spec fn never_visited(g: Adjacency, start: usize, end: usize) -> bool {
    forall|m: nat| #[trigger] visit_at(g, start, m) != Some(end)
}

/// Whether `v` stands in `order` at a position whose depth is at most `bound`.
pub open spec fn listed_within(order: Seq<usize>, depth: Seq<nat>, v: usize, bound: nat) -> bool {
    exists|m: int| 0 <= m < order.len() && #[trigger] order[m] == v && depth[m] <= bound
}

/// Whether every neighbour of the vertex at position `m` stands in `order`,
/// at most one deeper than that vertex.
pub open spec fn expanded(g: Adjacency, order: Seq<usize>, depth: Seq<nat>, m: int) -> bool {
    forall|v: usize| #[trigger]
        has_edge(g, order[m], v) ==> listed_within(order, depth, v, depth[m] + 1)
}

/// What holds of a breadth-first search from `start` that has discovered the
/// vertices `order`, has given them the depths `depth`, and has taken the
/// first `head` of them off its queue.
pub open spec fn search_state(
    g: Adjacency,
    start: usize,
    order: Seq<usize>,
    depth: Seq<nat>,
    head: int,
) -> bool {
    &&& order.len() == depth.len()
    &&& 0 <= head <= order.len()
    &&& order.len() >= 1
    &&& order[0] == start
    &&& depth[0] == 0
    &&& order.no_duplicates()
    &&& forall|i: int, j: int|
        0 <= i <= j < order.len() ==> #[trigger] depth[i] <= #[trigger] depth[j]
    &&& head < order.len() ==> depth[order.len() - 1] <= depth[head] + 1
    &&& forall|m: int| 0 <= m < order.len() ==> #[trigger] depth[m] <= m
    &&& forall|m: int|
        0 <= m < order.len() ==> reachable_in(g, start, #[trigger] order[m], depth[m])
    &&& forall|m: int| 0 <= m < head ==> #[trigger] expanded(g, order, depth, m)
}

/// A search starts with its start vertex, at depth 0, in the queue.
proof fn lemma_search_start(g: Adjacency, start: usize)
    ensures
        search_state(g, start, seq![start], seq![0nat], 0),
{
    lemma_reach_self(g, start);
}

/// A vertex that stands in `order` still stands there when another is added.
proof fn lemma_listed_grows(
    order: Seq<usize>,
    depth: Seq<nat>,
    v: usize,
    bound: nat,
    x: usize,
    y: nat,
)
    requires
        order.len() == depth.len(),
        listed_within(order, depth, v, bound),
    ensures
        listed_within(order.push(x), depth.push(y), v, bound),
{
    let m = choose|m: int| 0 <= m < order.len() && #[trigger] order[m] == v && depth[m] <= bound;
    assert(order.push(x)[m] == v && depth.push(y)[m] <= bound);
}

/// A vertex that the search has discovered is at most one deeper than the
/// vertex at the head of the queue.
proof fn lemma_seen_is_listed(
    g: Adjacency,
    start: usize,
    order: Seq<usize>,
    depth: Seq<nat>,
    head: int,
    v: usize,
)
    requires
        search_state(g, start, order, depth, head),
        head < order.len(),
        order.contains(v),
    ensures
        listed_within(order, depth, v, depth[head] + 1),
{
    let m = choose|m: int| 0 <= m < order.len() && order[m] == v;
    assert(depth[m] <= depth[order.len() - 1]);
    assert(order[m] == v && depth[m] <= depth[head] + 1);
}

/// Discovering a new neighbour of the vertex at the head of the queue.
proof fn lemma_search_discovers(
    g: Adjacency,
    start: usize,
    order: Seq<usize>,
    depth: Seq<nat>,
    head: int,
    v: usize,
)
    requires
        search_state(g, start, order, depth, head),
        head < order.len(),
        has_edge(g, order[head], v),
        !order.contains(v),
    ensures
        search_state(g, start, order.push(v), depth.push(depth[head] + 1), head),
        listed_within(order.push(v), depth.push(depth[head] + 1), v, depth[head] + 1),
{
    let order2 = order.push(v);
    let depth2 = depth.push(depth[head] + 1);
    let last = order.len() as int;
    assert(order2[last] == v && depth2[last] <= depth[head] + 1);
    assert(order2.no_duplicates()) by {
        assert forall|i: int, j: int|
            0 <= i < order2.len() && 0 <= j < order2.len() && i != j implies order2[i]
            != order2[j] by {
            if i < last && j < last {
                assert(order[i] != order[j]);
            } else if i < last {
                assert(order[i] != v);
            } else {
                assert(order[j] != v);
            }
        }
    }
    assert forall|i: int, j: int| 0 <= i <= j < order2.len() implies #[trigger] depth2[i]
        <= #[trigger] depth2[j] by {
        if j < last {
            assert(depth[i] <= depth[j]);
        } else if i < last {
            assert(depth[i] <= depth[last - 1]);
        }
    }
    assert(depth[head] <= head);
    assert forall|m: int| 0 <= m < order2.len() implies #[trigger] depth2[m] <= m by {
        if m < last {
            assert(depth[m] <= m);
        }
    }
    assert forall|m: int| 0 <= m < order2.len() implies reachable_in(
        g,
        start,
        #[trigger] order2[m],
        depth2[m],
    ) by {
        if m < last {
            assert(reachable_in(g, start, order[m], depth[m]));
        } else {
            assert(reachable_in(g, start, order[head], depth[head]));
            lemma_reach_extend(g, start, order[head], v, depth[head]);
        }
    }
    assert forall|m: int| 0 <= m < head implies #[trigger] expanded(g, order2, depth2, m) by {
        assert(expanded(g, order, depth, m));
        assert forall|w: usize| #[trigger] has_edge(g, order2[m], w) implies listed_within(
            order2,
            depth2,
            w,
            depth2[m] + 1,
        ) by {
            assert(has_edge(g, order[m], w));
            lemma_listed_grows(order, depth, w, depth[m] + 1, v, depth[head] + 1);
        }
    }
}

/// Taking the next vertex off the queue, once all neighbours of the vertex at
/// its head are discovered.
proof fn lemma_search_advances(
    g: Adjacency,
    start: usize,
    order: Seq<usize>,
    depth: Seq<nat>,
    head: int,
)
    requires
        search_state(g, start, order, depth, head),
        head < order.len(),
        expanded(g, order, depth, head),
    ensures
        search_state(g, start, order, depth, head + 1),
{
    if head + 1 < order.len() {
        assert(depth[head] <= depth[head + 1]);
    }
    assert forall|m: int| 0 <= m < head + 1 implies #[trigger] expanded(g, order, depth, m) by {
        if m < head {
            assert(expanded(g, order, depth, m));
        }
    }
}

/// A vertex that a walk of `n` edges reaches is discovered at a depth of at
/// most `n`, unless a vertex of a depth below `n` is still in the queue.
proof fn lemma_search_frontier(
    g: Adjacency,
    start: usize,
    order: Seq<usize>,
    depth: Seq<nat>,
    head: int,
    v: usize,
    n: nat,
)
    requires
        search_state(g, start, order, depth, head),
        reachable_in(g, start, v, n),
    ensures
        listed_within(order, depth, v, n) || exists|m: int|
            head <= m < order.len() && #[trigger] depth[m] < n,
    decreases n,
{
    if n == 0 {
        lemma_reach_zero(g, start, v);
        assert(order[0] == v && depth[0] <= 0);
    } else {
        let u = lemma_reach_last_step(g, start, v, n);
        lemma_search_frontier(g, start, order, depth, head, u, (n - 1) as nat);
        if listed_within(order, depth, u, (n - 1) as nat) {
            let m = choose|m: int|
                0 <= m < order.len() && #[trigger] order[m] == u && depth[m] <= n - 1;
            if m < head {
                assert(expanded(g, order, depth, m));
                assert(has_edge(g, order[m], v));
                assert(listed_within(order, depth, v, depth[m] + 1));
                let w = choose|w: int|
                    0 <= w < order.len() && #[trigger] order[w] == v && depth[w] <= depth[m] + 1;
                assert(order[w] == v && depth[w] <= n);
            } else {
                assert(depth[m] < n);
            }
        } else {
            let m = choose|m: int| head <= m < order.len() && #[trigger] depth[m] < n - 1;
            assert(depth[m] < n);
        }
    }
}

/// The depth of the vertex at the head of the queue is its distance.
proof fn lemma_head_is_shortest(
    g: Adjacency,
    start: usize,
    order: Seq<usize>,
    depth: Seq<nat>,
    head: int,
)
    requires
        search_state(g, start, order, depth, head),
        head < order.len(),
    ensures
        is_shortest(g, start, order[head], depth[head]),
{
    let v = order[head];
    assert(reachable_in(g, start, order[head], depth[head]));
    assert forall|n: nat| n < depth[head] implies !#[trigger] reachable_in(g, start, v, n) by {
        if reachable_in(g, start, v, n) {
            lemma_search_frontier(g, start, order, depth, head, v, n);
            if listed_within(order, depth, v, n) {
                let m = choose|m: int|
                    0 <= m < order.len() && #[trigger] order[m] == v && depth[m] <= n;
                assert(m == head);
            } else {
                let m = choose|m: int| head <= m < order.len() && #[trigger] depth[m] < n;
                assert(depth[head] <= depth[m]);
            }
        }
    }
}

/// Once the queue is empty, the vertices that were discovered are all that
/// can be reached.
proof fn lemma_search_exhausted(
    g: Adjacency,
    start: usize,
    order: Seq<usize>,
    depth: Seq<nat>,
    v: usize,
)
    requires
        search_state(g, start, order, depth, order.len() as int),
        !order.contains(v),
    ensures
        !connected(g, start, v),
{
    assert forall|n: nat| !#[trigger] reachable_in(g, start, v, n) by {
        if reachable_in(g, start, v, n) {
            lemma_search_frontier(g, start, order, depth, order.len() as int, v, n);
            let m = choose|m: int|
                0 <= m < order.len() && #[trigger] order[m] == v && depth[m] <= n;
            assert(order.contains(v));
        }
    }
}

/// Once the queue is empty, nothing more is discovered.
proof fn lemma_discovered_settles(g: Adjacency, start: usize, steps: nat, later: nat)
    requires
        discovered(g, start, steps).len() <= steps,
        steps <= later,
    ensures
        discovered(g, start, later) == discovered(g, start, steps),
    decreases later,
{
    if later > steps {
        lemma_discovered_settles(g, start, steps, (later - 1) as nat);
    }
}

/// Looking at one more candidate.
proof fn lemma_fresh_next(candidates: Seq<usize>, seen: Set<usize>, t: int)
    requires
        0 <= t < candidates.len(),
    ensures
        fresh(candidates.take(t + 1), seen) == if seen.contains(candidates[t]) || fresh(
            candidates.take(t),
            seen,
        ).contains(candidates[t]) {
            fresh(candidates.take(t), seen)
        } else {
            fresh(candidates.take(t), seen).push(candidates[t])
        },
{
    assert(candidates.take(t + 1).drop_last() =~= candidates.take(t));
}

/// What is discovered stays where it is.
proof fn lemma_discovered_prefix(g: Adjacency, start: usize, steps: nat, later: nat)
    requires
        steps <= later,
    ensures
        discovered(g, start, steps).len() <= discovered(g, start, later).len(),
        forall|m: int|
            0 <= m < discovered(g, start, steps).len() ==> discovered(g, start, steps)[m]
                == #[trigger] discovered(g, start, later)[m],
    decreases later,
{
    if later > steps {
        lemma_discovered_prefix(g, start, steps, (later - 1) as nat);
    }
}

/// What a search found: the distance of the vertex it looked for, and the
/// number of vertices that it had taken off its queue before that vertex.
#[derive(Clone, Copy, Debug, PartialEq, Eq, Structural)]
pub struct Found {
    /// The least number of edges of a walk to the vertex.
    pub hops: usize,
    /// The number of vertices taken off the queue before the vertex.
    pub dequeued: usize,
}

/// Searches `graph` breadth first from `start_vertex` until it takes
/// `end_vertex` off its queue.
///
/// A vertex is marked as seen when it enters the queue, so that it enters the
/// queue once. Each entry of the queue carries the number of edges by which
/// the search came to it.
pub fn breadth_first_search(graph: &Graph, start_vertex: usize, end_vertex: usize) -> (found:
    Option<Found>)
    ensures
        match found {
            Some(found) => {
                &&& is_shortest(graph@, start_vertex, end_vertex, found.hops as nat)
                &&& is_first_visit(graph@, start_vertex, end_vertex, found.dequeued as nat)
                &&& found.hops <= found.dequeued
            },
            None => {
                &&& !connected(graph@, start_vertex, end_vertex)
                &&& never_visited(graph@, start_vertex, end_vertex)
            },
        },
{
    let mut visited: HashSet<usize> = HashSet::new();
    let mut queue: VecDeque<(usize, usize)> = VecDeque::new();
    queue.push_back((start_vertex, 0));
    visited.insert(start_vertex);
    let mut dequeued: usize = 0;
    let empty: Vec<usize> = Vec::new();
    let ghost g = graph@;
    let ghost mut order: Seq<usize> = seq![start_vertex];
    let ghost mut depth: Seq<nat> = seq![0nat];
    proof {
        lemma_search_start(g, start_vertex);
        assert(visited@ =~= order.to_set()) by {
            assert forall|v: usize| visited@.contains(v) <==> order.to_set().contains(v) by {
                if v == start_vertex {
                    assert(order[0] == v);
                }
            }
        }
        order.unique_seq_to_set();
        assert(visited.len() == visited@.len());
    }
    loop
        invariant
            g == graph@,
            empty@.len() == 0,
            search_state(g, start_vertex, order, depth, dequeued as int),
            order == discovered(g, start_vertex, dequeued as nat),
            visited@ == order.to_set(),
            order.len() <= usize::MAX,
            queue@.len() == order.len() - dequeued,
            forall|q: int|
                0 <= q < queue@.len() ==> (#[trigger] queue@[q]).0 == order[dequeued + q]
                    && queue@[q].1 == depth[dequeued + q],
            forall|m: nat|
                m < dequeued ==> (#[trigger] visit_at(g, start_vertex, m)) is Some && visit_at(
                    g,
                    start_vertex,
                    m,
                ) != Some(end_vertex),
        decreases 2 * usize::MAX - order.len() - dequeued,
    {
        let (current, hops) = match queue.pop_front() {
            Some(entry) => entry,
            None => {
                proof {
                    assert forall|m: nat| #[trigger]
                        visit_at(g, start_vertex, m) != Some(end_vertex) by {
                        if m >= dequeued {
                            lemma_discovered_settles(g, start_vertex, dequeued as nat, m);
                        }
                    }
                    if order.contains(end_vertex) {
                        let m = choose|m: int| 0 <= m < order.len() && order[m] == end_vertex;
                        lemma_discovered_prefix(g, start_vertex, m as nat, dequeued as nat);
                        assert(visit_at(g, start_vertex, m as nat) is Some);
                        assert(discovered(g, start_vertex, dequeued as nat)[m] == end_vertex);
                        assert(visit_at(g, start_vertex, m as nat) == Some(end_vertex));
                    }
                    lemma_search_exhausted(g, start_vertex, order, depth, end_vertex);
                }
                return None;
            },
        };
        assert(current == order[dequeued as int] && hops == depth[dequeued as int]) by {
            assert(queue@.len() + 1 == order.len() - dequeued);
        }
        assert(visit_at(g, start_vertex, dequeued as nat) == Some(current));
        if current == end_vertex {
            proof {
                lemma_head_is_shortest(g, start_vertex, order, depth, dequeued as int);
                assert(depth[dequeued as int] <= dequeued);
            }
            return Some(Found { hops, dequeued });
        }
        let list: &Vec<usize> = match graph.neighbor_list(current) {
            Some(list) => list,
            None => &empty,
        };
        assert(list@ == neighbors(g, current));
        let ghost base = order;
        let mut t: usize = 0;
        assert(list@.take(0) =~= Seq::<usize>::empty());
        assert(base + fresh(list@.take(0), base.to_set()) =~= base);
        while t < list.len()
            invariant
                search_state(g, start_vertex, order, depth, dequeued as int),
                dequeued < base.len() <= order.len() <= usize::MAX,
                order[dequeued as int] == current,
                depth[dequeued as int] == hops,
                list@ == neighbors(g, current),
                t <= list.len(),
                order == base + fresh(list@.take(t as int), base.to_set()),
                visited@ == order.to_set(),
                queue@.len() == order.len() - dequeued - 1,
                forall|q: int|
                    0 <= q < queue@.len() ==> (#[trigger] queue@[q]).0 == order[dequeued + 1 + q]
                        && queue@[q].1 == depth[dequeued + 1 + q],
                forall|i: int|
                    0 <= i < t ==> listed_within(order, depth, #[trigger] list@[i], hops as nat + 1),
            decreases list.len() - t,
        {
            let neighbor = list[t];
            let ghost earlier = fresh(list@.take(t as int), base.to_set());
            proof {
                lemma_fresh_next(list@, base.to_set(), t as int);
                assert(has_edge(g, current, neighbor)) by {
                    assert(list@[t as int] == neighbor);
                }
                vstd::seq_lib::lemma_seq_concat_contains_all_elements(base, earlier, neighbor);
            }
            if !visited.contains(&neighbor) {
                visited.insert(neighbor);
                proof {
                    assert(!order.contains(neighbor));
                    lemma_search_discovers(g, start_vertex, order, depth, dequeued as int, neighbor);
                    assert forall|i: int| 0 <= i < t implies listed_within(
                        order.push(neighbor),
                        depth.push(hops as nat + 1),
                        #[trigger] list@[i],
                        hops as nat + 1,
                    ) by {
                        lemma_listed_grows(
                            order,
                            depth,
                            list@[i],
                            hops as nat + 1,
                            neighbor,
                            hops as nat + 1,
                        );
                    }
                    order.lemma_push_to_set_commute(neighbor);
                    assert((base + earlier).push(neighbor) =~= base + earlier.push(neighbor));
                    order = order.push(neighbor);
                    depth = depth.push(hops as nat + 1);
                    order.unique_seq_to_set();
                    assert(visited.len() == visited@.len());
                }
                queue.push_back((neighbor, hops + 1));
            } else {
                proof {
                    lemma_seen_is_listed(g, start_vertex, order, depth, dequeued as int, neighbor);
                }
            }
            t += 1;
        }
        proof {
            assert(list@.take(t as int) =~= list@);
            assert(base[dequeued as int] == current);
            assert(order == discovered(g, start_vertex, (dequeued + 1) as nat));
            assert(expanded(g, order, depth, dequeued as int)) by {
                assert forall|v: usize| #[trigger]
                    has_edge(g, order[dequeued as int], v) implies listed_within(
                    order,
                    depth,
                    v,
                    depth[dequeued as int] + 1,
                ) by {
                    let i = choose|i: int| 0 <= i < list@.len() && list@[i] == v;
                    assert(listed_within(order, depth, list@[i], hops as nat + 1));
                }
            }
            lemma_search_advances(g, start_vertex, order, depth, dequeued as int);
        }
        dequeued += 1;
    }
}

/// The least number of edges of a walk from `start_vertex` to `end_vertex`;
/// `None` where no walk leads from the one to the other.
pub fn distance(graph: &Graph, start_vertex: usize, end_vertex: usize) -> (hops: Option<usize>)
    ensures
        match hops {
            Some(d) => is_shortest(graph@, start_vertex, end_vertex, d as nat),
            None => !connected(graph@, start_vertex, end_vertex),
        },
        shortest_distance(graph@, start_vertex, end_vertex) == match hops {
            Some(d) => Some(d as nat),
            None => None::<nat>,
        },
        start_vertex == end_vertex ==> hops == Some(0usize),
{
    proof {
        lemma_reach_self(graph@, start_vertex);
    }
    match breadth_first_search(graph, start_vertex, end_vertex) {
        Some(found) => {
            proof {
                lemma_shortest_distance(graph@, start_vertex, end_vertex, found.hops as nat);
            }
            Some(found.hops)
        },
        None => None,
    }
}

/// The number of vertices that a breadth-first search from `start_vertex`
/// takes off its queue before it takes `end_vertex`; `None` where the search
/// never takes `end_vertex`. This is the distance only where the search
/// takes no other vertex of the same or a lesser depth first; it is never
/// less than the distance.
pub fn dequeues_before(graph: &Graph, start_vertex: usize, end_vertex: usize) -> (count: Option<
    usize,
>)
    ensures
        match count {
            Some(n) => is_first_visit(graph@, start_vertex, end_vertex, n as nat),
            None => never_visited(graph@, start_vertex, end_vertex),
        },
        start_vertex == end_vertex ==> count == Some(0usize),
{
    match breadth_first_search(graph, start_vertex, end_vertex) {
        Some(found) => {
            assert(visit_at(graph@, start_vertex, 0) == Some(start_vertex));
            Some(found.dequeued)
        },
        None => {
            assert(visit_at(graph@, start_vertex, 0) == Some(start_vertex));
            None
        },
    }
}

} // verus!
