//! Reachability within a bounded number of layers of a breadth-first search.

use crate::graph::{has_edge, neighbors, Adjacency, Graph};
use crate::walk::{
    lemma_reach_extend, lemma_reach_last_step, lemma_reach_self, lemma_reach_zero, reachable_in,
    within_hops,
};
use std::collections::{HashSet, VecDeque};
use vstd::prelude::*;

verus! {

/// Whether `front` is layer `layer` of a search from `start`: each of its
/// vertices ends a walk of `layer` edges, and it holds every vertex that ends
/// such a walk and no shorter one.
pub open spec fn is_layer(g: Adjacency, start: usize, layer: nat, front: Seq<usize>) -> bool {
    &&& forall|i: int| 0 <= i < front.len() ==> reachable_in(g, start, #[trigger] front[i], layer)
    &&& forall|v: usize| #[trigger]
        reachable_in(g, start, v, layer) && !within_hops(g, start, v, layer) ==> front.contains(v)
}

/// Whether `next` holds every neighbour of `v`.
pub open spec fn holds_neighbors(g: Adjacency, v: usize, next: Seq<usize>) -> bool {
    forall|w: usize| #[trigger] has_edge(g, v, w) ==> next.contains(w)
}

/// Whether `next` holds the neighbours of every vertex among the first `pos`
/// of `front` that no shorter walk reaches.
pub open spec fn holds_expansions(
    g: Adjacency,
    start: usize,
    layer: nat,
    front: Seq<usize>,
    pos: int,
    next: Seq<usize>,
) -> bool {
    forall|j: int|
        0 <= j < pos && !within_hops(g, start, #[trigger] front[j], layer) ==> holds_neighbors(
            g,
            front[j],
            next,
        )
}

/// The first layer is the start vertex alone.
proof fn lemma_first_layer(g: Adjacency, start: usize)
    ensures
        is_layer(g, start, 0, seq![start]),
{
    let front = seq![start];
    lemma_reach_self(g, start);
    assert forall|v: usize| #[trigger]
        reachable_in(g, start, v, 0) && !within_hops(g, start, v, 0) implies front.contains(v) by {
        lemma_reach_zero(g, start, v);
        assert(front[0] == v);
    }
}

/// The neighbours of a layer's vertices make up the next layer.
proof fn lemma_next_layer(
    g: Adjacency,
    start: usize,
    layer: nat,
    front: Seq<usize>,
    next: Seq<usize>,
)
    requires
        is_layer(g, start, layer, front),
        holds_expansions(g, start, layer, front, front.len() as int, next),
        forall|i: int| 0 <= i < next.len() ==> reachable_in(g, start, #[trigger] next[i], layer + 1),
    ensures
        is_layer(g, start, layer + 1, next),
{
    assert forall|v: usize| #[trigger]
        reachable_in(g, start, v, layer + 1) && !within_hops(
            g,
            start,
            v,
            layer + 1,
        ) implies next.contains(v) by {
        let u = lemma_reach_last_step(g, start, v, layer + 1);
        if within_hops(g, start, u, layer) {
            let n = choose|n: nat| n < layer && #[trigger] reachable_in(g, start, u, n);
            lemma_reach_extend(g, start, u, v, n);
            assert(reachable_in(g, start, v, n + 1));
        }
        assert(front.contains(u));
        let j = choose|j: int| 0 <= j < front.len() && front[j] == u;
        assert(holds_neighbors(g, front[j], next));
        assert(has_edge(g, u, v));
    }
}

/// A vertex lies within `layer + 1` layers exactly where it lies within
/// `layer` layers or in layer `layer`.
proof fn lemma_within_next_layer(
    g: Adjacency,
    start: usize,
    layer: nat,
    front: Seq<usize>,
    v: usize,
)
    requires
        is_layer(g, start, layer, front),
    ensures
        within_hops(g, start, v, layer + 1) <==> within_hops(g, start, v, layer) || front.contains(
            v,
        ),
{
    if within_hops(g, start, v, layer) {
        let n = choose|n: nat| n < layer && #[trigger] reachable_in(g, start, v, n);
        assert(n < layer + 1 && reachable_in(g, start, v, n));
    }
    if front.contains(v) {
        let i = choose|i: int| 0 <= i < front.len() && front[i] == v;
        assert(reachable_in(g, start, front[i], layer));
        assert(layer < layer + 1 && reachable_in(g, start, v, layer));
    }
    if within_hops(g, start, v, layer + 1) {
        let n = choose|n: nat| n < layer + 1 && #[trigger] reachable_in(g, start, v, n);
        if n < layer {
            assert(within_hops(g, start, v, layer));
        } else {
            assert(reachable_in(g, start, v, layer));
        }
    }
}

/// Whether a walk of fewer than `k` edges leads from `start_vertex` to
/// `end_vertex`.
///
/// The search looks at `k` layers. The first layer is `start_vertex` alone;
/// each further layer holds the neighbours of the vertices that the layer
/// before it was the first to reach. A vertex may stand in a layer more than
/// once: it is passed over when it is met again.
pub fn reachable_within_k_hops(
    graph: &Graph,
    start_vertex: usize,
    end_vertex: usize,
    k: usize,
) -> (found: bool)
    ensures
        found == within_hops(graph@, start_vertex, end_vertex, k as nat),
{
    let mut visited: HashSet<usize> = HashSet::new();
    let mut queue: VecDeque<usize> = VecDeque::new();
    queue.push_back(start_vertex);
    let empty: Vec<usize> = Vec::new();
    let ghost g = graph@;
    let mut layer: usize = 0;
    proof {
        lemma_first_layer(g, start_vertex);
        assert(queue@ =~= seq![start_vertex]);
    }
    while layer < k
        invariant
            g == graph@,
            empty@.len() == 0,
            layer <= k,
            is_layer(g, start_vertex, layer as nat, queue@),
            forall|v: usize| visited@.contains(v) <==> within_hops(g, start_vertex, v, layer as nat),
            !visited@.contains(end_vertex),
        decreases k - layer,
    {
        let mut next: VecDeque<usize> = VecDeque::new();
        let ghost front = queue@;
        let ghost mut pos: int = 0;
        assert(front.skip(0) =~= front);
        assert(front.take(0) =~= Seq::<usize>::empty());
        loop
            invariant
                g == graph@,
                empty@.len() == 0,
                layer < k,
                0 <= pos <= front.len(),
                queue@ == front.skip(pos),
                is_layer(g, start_vertex, layer as nat, front),
                forall|v: usize|
                    visited@.contains(v) <==> within_hops(g, start_vertex, v, layer as nat)
                        || front.take(pos).contains(v),
                !visited@.contains(end_vertex),
                forall|i: int|
                    0 <= i < next@.len() ==> reachable_in(
                        g,
                        start_vertex,
                        #[trigger] next@[i],
                        layer as nat + 1,
                    ),
                holds_expansions(g, start_vertex, layer as nat, front, pos, next@),
            ensures
                pos == front.len(),
            decreases queue@.len(),
        {
            let current = match queue.pop_front() {
                Some(current) => current,
                None => {
                    break ;
                },
            };
            assert(current == front[pos]);
            assert(queue@ =~= front.skip(pos + 1));
            assert(reachable_in(g, start_vertex, front[pos], layer as nat));
            let ghost next_before = next@;
            if !visited.contains(&current) {
                visited.insert(current);
                if current == end_vertex {
                    assert(layer < k && reachable_in(g, start_vertex, end_vertex, layer as nat));
                    return true;
                }
                let list: &Vec<usize> = match graph.neighbor_list(current) {
                    Some(list) => list,
                    None => &empty,
                };
                let mut t: usize = 0;
                assert(next_before + list@.take(0) =~= next_before);
                while t < list.len()
                    invariant
                        t <= list.len(),
                        next@ == next_before + list@.take(t as int),
                    decreases list.len() - t,
                {
                    next.push_back(list[t]);
                    assert(list@.take(t as int + 1) =~= list@.take(t as int).push(list@[t as int]));
                    assert((next_before + list@.take(t as int)).push(list@[t as int])
                        =~= next_before + list@.take(t as int + 1));
                    t += 1;
                }
                proof {
                    assert(list@.take(t as int) =~= list@);
                    assert forall|i: int| 0 <= i < next@.len() implies reachable_in(
                        g,
                        start_vertex,
                        #[trigger] next@[i],
                        layer as nat + 1,
                    ) by {
                        if i < next_before.len() {
                            assert(next@[i] == next_before[i]);
                        } else {
                            let w = list@[i - next_before.len()];
                            assert(next@[i] == w);
                            assert(has_edge(g, current, w));
                            lemma_reach_extend(g, start_vertex, current, w, layer as nat);
                        }
                    }
                    assert(holds_neighbors(g, current, next@)) by {
                        assert forall|w: usize| #[trigger] has_edge(g, current, w) implies next@.contains(
                            w,
                        ) by {
                            let i = choose|i: int| 0 <= i < list@.len() && list@[i] == w;
                            assert(next@[next_before.len() + i] == w);
                        }
                    }
                }
            } else {
                proof {
                    if !within_hops(g, start_vertex, current, layer as nat) {
                        let j = choose|j: int|
                            0 <= j < front.take(pos).len() && front.take(pos)[j] == current;
                        assert(front[j] == current);
                        assert(holds_neighbors(g, front[j], next@));
                    }
                }
            }
            proof {
                assert(front.take(pos + 1) =~= front.take(pos).push(current));
                assert forall|v: usize|
                    visited@.contains(v) <==> within_hops(g, start_vertex, v, layer as nat)
                        || front.take(pos + 1).contains(v) by {
                    vstd::seq_lib::lemma_seq_contains_after_push(front.take(pos), current, v);
                }
                assert forall|j: int|
                    0 <= j < pos + 1 && !within_hops(
                        g,
                        start_vertex,
                        #[trigger] front[j],
                        layer as nat,
                    ) implies holds_neighbors(g, front[j], next@) by {
                    if j < pos {
                        assert(holds_neighbors(g, front[j], next_before));
                        assert forall|w: usize| #[trigger] has_edge(g, front[j], w) implies next@.contains(
                            w,
                        ) by {
                            let i = choose|i: int| 0 <= i < next_before.len() && next_before[i] == w;
                            assert(next@[i] == w);
                        }
                    }
                }
                pos = pos + 1;
            }
        }
        proof {
            assert(front.take(pos) =~= front);
            lemma_next_layer(g, start_vertex, layer as nat, front, next@);
            assert forall|v: usize|
                visited@.contains(v) <==> within_hops(g, start_vertex, v, layer as nat + 1) by {
                lemma_within_next_layer(g, start_vertex, layer as nat, front, v);
            }
        }
        queue = next;
        layer += 1;
    }
    false
}

/// Whether a walk of fewer than six edges leads from `start_vertex` to
/// `end_vertex`: whether a search of six layers finds it.
pub fn six_degrees_of_separation(graph: &Graph, start_vertex: usize, end_vertex: usize) -> (found:
    bool)
    ensures
        found == within_hops(graph@, start_vertex, end_vertex, 6),
{
    reachable_within_k_hops(graph, start_vertex, end_vertex, 6)
}

} // verus!
