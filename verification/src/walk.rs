//! Walks, reachability and distance in the model of a graph.

use crate::graph::{has_edge, Adjacency};
use vstd::prelude::*;

verus! {

/// Whether `g` has an edge from the vertex at position `i` of `p` to the next.
pub open spec fn is_step(g: Adjacency, p: Seq<usize>, i: int) -> bool {
    has_edge(g, p[i], p[i + 1])
}

/// A walk is a sequence of one or more vertices in which an edge leads from
/// each vertex to the next. A vertex may occur in it more than once.
pub open spec fn is_walk(g: Adjacency, p: Seq<usize>) -> bool {
    &&& p.len() >= 1
    &&& forall|i: int| 0 <= i < p.len() - 1 ==> #[trigger] is_step(g, p, i)
}

/// Whether `p` is a walk that starts at `from` and ends at `to`.
pub open spec fn walk_joins(g: Adjacency, p: Seq<usize>, from: usize, to: usize) -> bool {
    &&& is_walk(g, p)
    &&& p[0] == from
    &&& p[p.len() - 1] == to
}

/// Whether some walk of exactly `n` edges leads from `from` to `to`.
pub open spec fn reachable_in(g: Adjacency, from: usize, to: usize, n: nat) -> bool {
    exists|p: Seq<usize>| #[trigger] walk_joins(g, p, from, to) && p.len() == n + 1
}

/// Whether some walk of fewer than `k` edges leads from `from` to `to`: a
/// search that looks at `k` layers, the first of which is `from` alone, finds
/// exactly these vertices.
pub open spec fn within_hops(g: Adjacency, from: usize, to: usize, k: nat) -> bool {
    exists|n: nat| n < k && #[trigger] reachable_in(g, from, to, n)
}

/// Whether some walk leads from `from` to `to`.
pub open spec fn connected(g: Adjacency, from: usize, to: usize) -> bool {
    exists|n: nat| #[trigger] reachable_in(g, from, to, n)
}

/// Whether `d` is the least number of edges of a walk from `from` to `to`.
pub open spec fn is_shortest(g: Adjacency, from: usize, to: usize, d: nat) -> bool {
    &&& reachable_in(g, from, to, d)
    &&& forall|n: nat| n < d ==> !#[trigger] reachable_in(g, from, to, n)
}

/// The least number of edges of a walk from `from` to `to`, if there is a
/// walk.
pub open spec fn shortest_distance(g: Adjacency, from: usize, to: usize) -> Option<nat> {
    if connected(g, from, to) {
        Some(choose|d: nat| is_shortest(g, from, to, d))
    } else {
        None
    }
}

/// A vertex reaches itself along no edge.
pub proof fn lemma_reach_self(g: Adjacency, v: usize)
    ensures
        reachable_in(g, v, v, 0),
{
    let p = seq![v];
    assert(walk_joins(g, p, v, v));
}

/// Along no edge a vertex reaches only itself.
pub proof fn lemma_reach_zero(g: Adjacency, from: usize, to: usize)
    requires
        reachable_in(g, from, to, 0),
    ensures
        from == to,
{
}

/// A walk can be continued along an edge.
pub proof fn lemma_reach_extend(g: Adjacency, from: usize, via: usize, to: usize, n: nat)
    requires
        reachable_in(g, from, via, n),
        has_edge(g, via, to),
    ensures
        reachable_in(g, from, to, n + 1),
{
    let p = choose|p: Seq<usize>| #[trigger] walk_joins(g, p, from, via) && p.len() == n + 1;
    let q = p.push(to);
    assert forall|i: int| 0 <= i < q.len() - 1 implies #[trigger] is_step(g, q, i) by {
        if i < p.len() - 1 {
            assert(is_step(g, p, i));
        }
    }
    assert(walk_joins(g, q, from, to));
}

/// A walk of one or more edges is a walk to some vertex, then an edge.
pub proof fn lemma_reach_last_step(g: Adjacency, from: usize, to: usize, n: nat) -> (via: usize)
    requires
        n > 0,
        reachable_in(g, from, to, n),
    ensures
        reachable_in(g, from, via, (n - 1) as nat),
        has_edge(g, via, to),
{
    let p = choose|p: Seq<usize>| #[trigger] walk_joins(g, p, from, to) && p.len() == n + 1;
    let q = p.drop_last();
    let via = q[q.len() - 1];
    assert forall|i: int| 0 <= i < q.len() - 1 implies #[trigger] is_step(g, q, i) by {
        assert(is_step(g, p, i));
    }
    assert(is_step(g, p, n - 1));
    assert(walk_joins(g, q, from, via));
    via
}

/// Among the lengths of the walks between two vertices there is a least.
pub proof fn lemma_shortest_exists(g: Adjacency, from: usize, to: usize, n: nat) -> (d: nat)
    requires
        reachable_in(g, from, to, n),
    ensures
        d <= n,
        is_shortest(g, from, to, d),
    decreases n,
{
    if exists|m: nat| m < n && #[trigger] reachable_in(g, from, to, m) {
        let m = choose|m: nat| m < n && #[trigger] reachable_in(g, from, to, m);
        lemma_shortest_exists(g, from, to, m)
    } else {
        n
    }
}

/// `shortest_distance` is `d` exactly where `d` is the least length of a walk.
pub proof fn lemma_shortest_distance(g: Adjacency, from: usize, to: usize, d: nat)
    ensures
        is_shortest(g, from, to, d) <==> shortest_distance(g, from, to) == Some(d),
{
    if is_shortest(g, from, to, d) {
        let c = choose|c: nat| is_shortest(g, from, to, c);
        assert(!(c < d));
        assert(!(d < c));
    }
    if shortest_distance(g, from, to) == Some(d) {
        let n = choose|n: nat| #[trigger] reachable_in(g, from, to, n);
        let least = lemma_shortest_exists(g, from, to, n);
    }
}

/// `within_hops` in terms of the distance: a vertex lies within `k` hops
/// exactly where its distance is defined and less than `k`.
pub proof fn lemma_within_hops_is_distance_below(g: Adjacency, from: usize, to: usize, k: nat)
    ensures
        within_hops(g, from, to, k) <==> (shortest_distance(g, from, to) matches Some(d) && d < k),
{
    if within_hops(g, from, to, k) {
        let n = choose|n: nat| n < k && #[trigger] reachable_in(g, from, to, n);
        let d = lemma_shortest_exists(g, from, to, n);
        lemma_shortest_distance(g, from, to, d);
    }
    if shortest_distance(g, from, to) matches Some(d) && d < k {
        let d = shortest_distance(g, from, to).unwrap();
        lemma_shortest_distance(g, from, to, d);
    }
}

/// The distance from a vertex to itself is 0.
pub proof fn lemma_distance_to_self(g: Adjacency, v: usize)
    ensures
        shortest_distance(g, v, v) == Some(0nat),
{
    lemma_reach_self(g, v);
    lemma_shortest_distance(g, v, v, 0);
}

/// A vertex lies within `k` hops where its distance is defined and at most
/// `k`, and does not where it has no distance or one above `k`. This leaves
/// out the vertices at the distance `k` itself: a search of `k` layers ends
/// one layer before it would meet them.
pub proof fn lemma_within_hops_by_distance(g: Adjacency, from: usize, to: usize, k: nat)
    requires
        shortest_distance(g, from, to) != Some(k),
    ensures
        within_hops(g, from, to, k) <==> (shortest_distance(g, from, to) matches Some(d) && d <= k),
{
    lemma_within_hops_is_distance_below(g, from, to, k);
}

} // verus!
