//! The adjacency structure and its construction from a list of edges.

use std::collections::HashMap;
use vstd::prelude::*;

verus! {

/// The mathematical model of a graph: each vertex that is the source of an
/// edge is mapped to the destinations of its edges, in the order in which the
/// edges were given. Parallel edges and self-loops appear as they were given.
pub type Adjacency = Map<usize, Seq<usize>>;

/// The outgoing neighbours of `v`; a vertex without an entry has none.
pub open spec fn neighbors(g: Adjacency, v: usize) -> Seq<usize> {
    if g.contains_key(v) {
        g[v]
    } else {
        Seq::empty()
    }
}

/// Whether `g` has an edge from `from` to `to`.
pub open spec fn has_edge(g: Adjacency, from: usize, to: usize) -> bool {
    neighbors(g, from).contains(to)
}

/// Whether some edge of `edges` starts at `v`.
pub open spec fn is_source(edges: Seq<(usize, usize)>, v: usize) -> bool {
    exists|i: int| 0 <= i < edges.len() && (#[trigger] edges[i]).0 == v
}

/// The destinations of the edges of `edges` that start at `v`, in the order of
/// `edges`.
pub open spec fn targets_of(edges: Seq<(usize, usize)>, v: usize) -> Seq<usize> {
    edges.filter(|e: (usize, usize)| e.0 == v).map_values(|e: (usize, usize)| e.1)
}

/// The graph that a list of edges describes.
pub open spec fn adjacency_of(edges: Seq<(usize, usize)>) -> Adjacency {
    Map::new(|v: usize| is_source(edges, v), |v: usize| targets_of(edges, v))
}

/// Appending an edge appends its destination to the list of its source and
/// leaves every other list as it was.
pub proof fn lemma_targets_of_push(edges: Seq<(usize, usize)>, e: (usize, usize), v: usize)
    ensures
        targets_of(edges.push(e), v) == if e.0 == v {
            targets_of(edges, v).push(e.1)
        } else {
            targets_of(edges, v)
        },
        is_source(edges.push(e), v) <==> is_source(edges, v) || e.0 == v,
{
    let keep = |x: (usize, usize)| x.0 == v;
    let longer = edges.push(e);
    reveal(Seq::filter);
    assert(longer.drop_last() =~= edges);
    assert(longer.last() == e);
    if e.0 == v {
        assert(longer.filter(keep) == edges.filter(keep).push(e));
        assert(targets_of(longer, v) =~= targets_of(edges, v).push(e.1));
    } else {
        assert(longer.filter(keep) == edges.filter(keep));
    }
    if is_source(edges, v) {
        let i = choose|i: int| 0 <= i < edges.len() && (#[trigger] edges[i]).0 == v;
        assert(longer[i].0 == v);
    }
    if e.0 == v {
        assert(longer[edges.len() as int].0 == v);
    }
    if is_source(longer, v) {
        let i = choose|i: int| 0 <= i < longer.len() && (#[trigger] longer[i]).0 == v;
        if i < edges.len() {
            assert(edges[i].0 == v);
        }
    }
}

/// A directed graph held as adjacency lists.
pub struct Graph {
    /// The outgoing neighbours of each vertex that is the source of an edge.
    pub adjacency_list: HashMap<usize, Vec<usize>>,
}

impl View for Graph {
    type V = Adjacency;

    open spec fn view(&self) -> Adjacency {
        Map::new(
            |v: usize| self.adjacency_list@.contains_key(v),
            |v: usize| self.adjacency_list@[v]@,
        )
    }
}

impl Graph {
    /// The graph without vertices.
    pub fn new() -> (graph: Graph)
        ensures
            graph@ == Map::<usize, Seq<usize>>::empty(),
    {
        let graph = Graph { adjacency_list: HashMap::new() };
        assert(graph@ =~= Map::<usize, Seq<usize>>::empty());
        graph
    }

    /// The list of the outgoing neighbours of `v`, if `v` has an entry.
    pub fn neighbor_list(&self, v: usize) -> (list: Option<&Vec<usize>>)
        ensures
            match list {
                Some(list) => self@.contains_key(v) && list@ == neighbors(self@, v),
                None => !self@.contains_key(v) && neighbors(self@, v) == Seq::<usize>::empty(),
            },
    {
        self.adjacency_list.get(&v)
    }

    /// Builds the graph of a list of edges: each edge appends its destination
    /// to the list of its source. A vertex that is only ever a destination
    /// gets no entry.
    pub fn from_edges(edges: &[(usize, usize)]) -> (graph: Graph)
        ensures
            graph@ == adjacency_of(edges@),
    {
        let mut adjacency_list: HashMap<usize, Vec<usize>> = HashMap::new();
        let mut i: usize = 0;
        while i < edges.len()
            invariant
                i <= edges.len(),
                forall|v: usize|
                    adjacency_list@.contains_key(v) <==> is_source(edges@.take(i as int), v),
                forall|v: usize|
                    adjacency_list@.contains_key(v) ==> (#[trigger] adjacency_list@[v])@
                        == targets_of(edges@.take(i as int), v),
            decreases edges.len() - i,
        {
            let (from, to) = edges[i];
            proof {
                assert(edges@.take(i as int + 1) =~= edges@.take(i as int).push((from, to)));
                assert forall|v: usize| true implies {
                    &&& targets_of(edges@.take(i as int + 1), v) == if from == v {
                        targets_of(edges@.take(i as int), v).push(to)
                    } else {
                        targets_of(edges@.take(i as int), v)
                    }
                    &&& is_source(edges@.take(i as int + 1), v) <==> is_source(
                        edges@.take(i as int),
                        v,
                    ) || from == v
                } by {
                    lemma_targets_of_push(edges@.take(i as int), (from, to), v);
                }
                if !is_source(edges@.take(i as int), from) {
                    reveal(Seq::filter);
                    assert(targets_of(edges@.take(i as int), from).len() == 0) by {
                        lemma_no_source_no_targets(edges@.take(i as int), from);
                    }
                }
            }
            let list = adjacency_list.entry(from).or_insert(Vec::new());
            list.push(to);
            i += 1;
        }
        assert(edges@.take(i as int) =~= edges@);
        let graph = Graph { adjacency_list };
        assert(graph@ =~= adjacency_of(edges@));
        graph
    }
}

/// A vertex at which no edge starts has an empty list of destinations.
pub proof fn lemma_no_source_no_targets(edges: Seq<(usize, usize)>, v: usize)
    requires
        !is_source(edges, v),
    ensures
        targets_of(edges, v) == Seq::<usize>::empty(),
    decreases edges.len(),
{
    reveal(Seq::filter);
    if edges.len() > 0 {
        assert(edges[edges.len() - 1].0 != v);
        assert forall|i: int| 0 <= i < edges.drop_last().len() implies (#[trigger] edges.drop_last()[i]).0 != v by {
            assert(edges[i].0 != v);
        }
        lemma_no_source_no_targets(edges.drop_last(), v);
    }
    assert(targets_of(edges, v) =~= Seq::<usize>::empty());
}

/// Building the graph of a list of edges loses nothing but the order between
/// edges of different sources: the list of each vertex holds the destinations
/// of its edges in the order of the edges, and an edge stands in the graph as
/// often as in the list. The pairs of a source and an entry of its list are
/// thus the edges again, as a multiset.
pub proof fn lemma_edges_round_trip(edges: Seq<(usize, usize)>, from: usize, to: usize)
    ensures
        neighbors(adjacency_of(edges), from) == targets_of(edges, from),
        neighbors(adjacency_of(edges), from).to_multiset().count(to) == edges.to_multiset().count(
            (from, to),
        ),
    decreases edges.len(),
{
    if !is_source(edges, from) {
        lemma_no_source_no_targets(edges, from);
    }
    assert(neighbors(adjacency_of(edges), from) == targets_of(edges, from));
    if edges.len() == 0 {
        reveal(Seq::filter);
        assert(targets_of(edges, from) =~= Seq::<usize>::empty());
        assert(targets_of(edges, from).to_multiset().count(to) == 0) by {
            targets_of(edges, from).to_multiset_ensures();
        }
        assert(edges.to_multiset().count((from, to)) == 0) by {
            edges.to_multiset_ensures();
        }
    } else {
        let rest = edges.drop_last();
        let e = edges.last();
        assert(edges =~= rest.push(e));
        lemma_edges_round_trip(rest, from, to);
        if !is_source(rest, from) {
            lemma_no_source_no_targets(rest, from);
        }
        lemma_targets_of_push(rest, e, from);
        vstd::seq_lib::to_multiset_build(rest, e);
        if e.0 == from {
            vstd::seq_lib::to_multiset_build(targets_of(rest, from), e.1);
        }
    }
}

} // verus!
