//! Aggregates over the vertices of a graph: the share of them within a number
//! of hops of a vertex, and the mean distance between the vertices of a
//! sample.

use crate::graph::{Adjacency, Graph};
use crate::hops::reachable_within_k_hops;
use crate::search::distance;
use crate::walk::{shortest_distance, within_hops};
use vstd::prelude::*;
use vstd::std_specs::iter::IteratorSpec;

verus! {

/// A quotient of two counts. Its denominator is never 0 where a function of
/// this module returns it.
#[derive(Clone, Copy, Debug, PartialEq, Eq, Structural)]
pub struct Ratio {
    /// What is divided.
    pub numerator: u128,
    /// What it is divided by.
    pub denominator: u128,
}

/// The vertices with an entry in `g` that lie within `k` hops of `start`.
pub open spec fn vertices_within(g: Adjacency, start: usize, k: nat) -> Set<usize> {
    g.dom().filter(|v: usize| within_hops(g, start, v, k))
}

/// Among vertices that are all different, as many meet a condition as the
/// set of them holds that meet it.
proof fn lemma_count_of_distinct(s: Seq<usize>, p: spec_fn(usize) -> bool)
    requires
        s.no_duplicates(),
    ensures
        s.to_set().filter(p).len() == s.filter(p).len(),
    decreases s.len(),
{
    reveal(Seq::filter);
    if s.len() == 0 {
        assert(s.to_set().filter(p) =~= Set::<usize>::empty());
    } else {
        let r = s.drop_last();
        let x = s.last();
        lemma_count_of_distinct(r, p);
        assert(s =~= r.push(x));
        r.lemma_push_to_set_commute(x);
        assert(!r.contains(x)) by {
            if r.contains(x) {
                let i = choose|i: int| 0 <= i < r.len() && r[i] == x;
                assert(s[i] == s[s.len() - 1]);
            }
        }
        if p(x) {
            assert(s.to_set().filter(p) =~= r.to_set().filter(p).insert(x));
        } else {
            assert(s.to_set().filter(p) =~= r.to_set().filter(p));
        }
    }
}

/// The number of vertices with an entry in `graph` that lie within `k` hops
/// of `start_vertex`.
pub fn count_within_k_hops(graph: &Graph, start_vertex: usize, k: usize) -> (count: usize)
    ensures
        count == vertices_within(graph@, start_vertex, k as nat).len(),
{
    let ghost g = graph@;
    let ghost near = |v: usize| within_hops(g, start_vertex, v, k as nat);
    let ghost all = graph.adjacency_list.keys().remaining().unref();
    let mut count: usize = 0;
    assert(graph.adjacency_list.len() == graph.adjacency_list@.len());
    assert(all.take(0).filter(near).len() == 0) by {
        reveal(Seq::filter);
    }
    for vertex in it: graph.adjacency_list.keys()
        invariant
            g == graph@,
            near == |v: usize| within_hops(g, start_vertex, v, k as nat),
            it.seq().unref() == all,
            all.len() <= usize::MAX,
            count <= it.index(),
            count == all.take(it.index()).filter(near).len(),
    {
        let found = reachable_within_k_hops(graph, start_vertex, *vertex, k);
        proof {
            reveal(Seq::filter);
            let i = it.index();
            assert(all[i] == *vertex);
            assert(all.take(i + 1).drop_last() =~= all.take(i));
            assert(found == near(all.take(i + 1).last()));
        }
        if found {
            count += 1;
        }
    }
    proof {
        assert(graph.adjacency_list.keys().remaining().no_duplicates());
        assert(all.no_duplicates()) by {
            assert forall|i: int, j: int| 0 <= i < all.len() && 0 <= j < all.len() && i != j implies all[i]
                != all[j] by {
                let refs = graph.adjacency_list.keys().remaining();
                assert(refs[i] != refs[j]);
            }
        }
        assert(all.take(all.len() as int) =~= all);
        lemma_count_of_distinct(all, near);
        assert(g.dom() =~= graph.adjacency_list@.dom());
    }
    count
}

/// The percentage of the vertices with an entry in `graph` that lie within
/// `k` hops of `start_vertex`, as a quotient: a hundred times their number,
/// over the number of entries. Of a graph without entries it is 0, as 0 over
/// 1.
pub fn percentage_within_k_hops(graph: &Graph, start_vertex: usize, k: usize) -> (percentage: Ratio)
    ensures
        percentage.denominator > 0,
        graph@.dom().len() == 0 ==> percentage == (Ratio { numerator: 0, denominator: 1 }),
        graph@.dom().len() > 0 ==> percentage.numerator == 100 * vertices_within(
            graph@,
            start_vertex,
            k as nat,
        ).len() && percentage.denominator == graph@.dom().len(),
{
    let total = graph.adjacency_list.len();
    proof {
        assert(graph@.dom() =~= graph.adjacency_list@.dom());
    }
    if total == 0 {
        return Ratio { numerator: 0, denominator: 1 };
    }
    let count = count_within_k_hops(graph, start_vertex, k);
    Ratio { numerator: 100 * (count as u128), denominator: total as u128 }
}

/// The percentage of the vertices with an entry in `graph` that a search of
/// six layers from `start_vertex` finds.
pub fn percentage_within_six_degrees(graph: &Graph, start_vertex: usize) -> (percentage: Ratio)
    ensures
        percentage.denominator > 0,
        graph@.dom().len() == 0 ==> percentage == (Ratio { numerator: 0, denominator: 1 }),
        graph@.dom().len() > 0 ==> percentage.numerator == 100 * vertices_within(
            graph@,
            start_vertex,
            6,
        ).len() && percentage.denominator == graph@.dom().len(),
{
    percentage_within_k_hops(graph, start_vertex, 6)
}

/// The distance that an ordered pair of sampled vertices adds to the mean:
/// none where the two are the same vertex, or no walk leads from the first
/// to the second.
pub open spec fn pair_distance(g: Adjacency, from: usize, to: usize) -> Option<nat> {
    if from == to {
        None
    } else {
        shortest_distance(g, from, to)
    }
}

/// The sum of the distances from the vertex at position `i` of `sample` to
/// the first `cols` vertices of `sample`.
pub open spec fn row_distance(g: Adjacency, sample: Seq<usize>, i: int, cols: int) -> nat
    decreases cols,
{
    if cols <= 0 {
        0
    } else {
        row_distance(g, sample, i, cols - 1) + match pair_distance(g, sample[i], sample[cols - 1]) {
            Some(d) => d,
            None => 0,
        }
    }
}

/// The number of the first `cols` vertices of `sample` at a distance from the
/// vertex at position `i`.
pub open spec fn row_pairs(g: Adjacency, sample: Seq<usize>, i: int, cols: int) -> nat
    decreases cols,
{
    if cols <= 0 {
        0
    } else {
        row_pairs(g, sample, i, cols - 1) + if pair_distance(g, sample[i], sample[cols - 1])
            is Some {
            1nat
        } else {
            0nat
        }
    }
}

/// The sum of the distances over the ordered pairs of positions of `sample`
/// whose first position is below `rows`.
pub open spec fn total_distance(g: Adjacency, sample: Seq<usize>, rows: int) -> nat
    decreases rows,
{
    if rows <= 0 {
        0
    } else {
        total_distance(g, sample, rows - 1) + row_distance(
            g,
            sample,
            rows - 1,
            sample.len() as int,
        )
    }
}

/// The number of ordered pairs of positions of `sample`, the first below
/// `rows`, that hold two vertices at a distance.
pub open spec fn total_pairs(g: Adjacency, sample: Seq<usize>, rows: int) -> nat
    decreases rows,
{
    if rows <= 0 {
        0
    } else {
        total_pairs(g, sample, rows - 1) + row_pairs(g, sample, rows - 1, sample.len() as int)
    }
}

/// The mean of the distances over the ordered pairs of different vertices of
/// `sampled_nodes` of which the second can be reached from the first, as a
/// quotient: the sum of the distances over the number of such pairs. Where
/// there is no such pair it is 0, as 0 over 1.
pub fn average_distance(graph: &Graph, sampled_nodes: &[usize]) -> (mean: Ratio)
    requires
        sampled_nodes@.len() <= u32::MAX,
    ensures
        mean.denominator > 0,
        total_pairs(graph@, sampled_nodes@, sampled_nodes@.len() as int) == 0 ==> mean == (Ratio {
            numerator: 0,
            denominator: 1,
        }),
        total_pairs(graph@, sampled_nodes@, sampled_nodes@.len() as int) > 0 ==> mean.numerator
            == total_distance(graph@, sampled_nodes@, sampled_nodes@.len() as int)
            && mean.denominator == total_pairs(graph@, sampled_nodes@, sampled_nodes@.len() as int),
        sampled_nodes@.len() <= 1 ==> mean == (Ratio { numerator: 0, denominator: 1 }),
{
    let ghost g = graph@;
    let ghost sample = sampled_nodes@;
    let n = sampled_nodes.len();
    let mut total: u128 = 0;
    let mut pairs: u128 = 0;
    let mut i: usize = 0;
    while i < n
        invariant
            g == graph@,
            sample == sampled_nodes@,
            n == sample.len(),
            n <= u32::MAX,
            i <= n,
            total == total_distance(g, sample, i as int),
            pairs == total_pairs(g, sample, i as int),
            pairs <= i * n,
            total <= i * n * usize::MAX,
        decreases n - i,
    {
        let mut j: usize = 0;
        while j < n
            invariant
                g == graph@,
                sample == sampled_nodes@,
                n == sample.len(),
                n <= u32::MAX,
                i < n,
                j <= n,
                total == total_distance(g, sample, i as int) + row_distance(
                    g,
                    sample,
                    i as int,
                    j as int,
                ),
                pairs == total_pairs(g, sample, i as int) + row_pairs(g, sample, i as int, j as int),
                pairs <= i * n + j,
                total <= (i * n + j) * usize::MAX,
            decreases n - j,
        {
            proof {
                lemma_room_for_one_more(i as int, j as int, n as int);
            }
            if sampled_nodes[i] != sampled_nodes[j] {
                match distance(graph, sampled_nodes[i], sampled_nodes[j]) {
                    Some(d) => {
                        total += d as u128;
                        pairs += 1;
                    },
                    None => {},
                }
            }
            j += 1;
        }
        proof {
            assert(i * n + n == (i + 1) * n) by (nonlinear_arith);
        }
        i += 1;
    }
    proof {
        if sample.len() <= 1 {
            lemma_small_sample_has_no_pairs(g, sample);
        }
    }
    if pairs > 0 {
        Ratio { numerator: total, denominator: pairs }
    } else {
        Ratio { numerator: 0, denominator: 1 }
    }
}

/// The counters of `average_distance` have room for one more pair.
proof fn lemma_room_for_one_more(i: int, j: int, n: int)
    requires
        0 <= i < n <= u32::MAX,
        0 <= j < n,
    ensures
        (i * n + j + 1) * usize::MAX == (i * n + j) * usize::MAX + usize::MAX,
        (i * n + j + 1) * usize::MAX <= u128::MAX,
        i * n + j + 1 <= u128::MAX,
        0 <= i * n,
{
    let m = usize::MAX as int;
    assert(i * n + j + 1 <= n * n) by (nonlinear_arith)
        requires
            0 <= i < n,
            0 <= j < n,
    ;
    assert(n * n <= 0xFFFF_FFFF * 0xFFFF_FFFF) by (nonlinear_arith)
        requires
            0 <= n <= 0xFFFF_FFFF,
    ;
    assert(0 <= i * n) by (nonlinear_arith)
        requires
            0 <= i,
            0 <= n,
    ;
    let c = i * n + j + 1;
    assert(c * m <= 0xFFFF_FFFF * 0xFFFF_FFFF * 0xFFFF_FFFF_FFFF_FFFF) by (nonlinear_arith)
        requires
            0 <= c <= 0xFFFF_FFFF * 0xFFFF_FFFF,
            0 <= m <= 0xFFFF_FFFF_FFFF_FFFF,
    ;
    assert(c * m == (c - 1) * m + m) by (nonlinear_arith);
}

/// A sample of fewer than two vertices has no pair of different vertices.
pub proof fn lemma_small_sample_has_no_pairs(g: Adjacency, sample: Seq<usize>)
    requires
        sample.len() <= 1,
    ensures
        total_pairs(g, sample, sample.len() as int) == 0,
        total_distance(g, sample, sample.len() as int) == 0,
{
    reveal_with_fuel(total_pairs, 2);
    reveal_with_fuel(total_distance, 2);
    reveal_with_fuel(row_pairs, 2);
    reveal_with_fuel(row_distance, 2);
}

} // verus!
