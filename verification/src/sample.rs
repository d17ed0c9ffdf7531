//! Drawing a random sample of the vertices of a graph.

use crate::graph::Graph;
use rand::rngs::StdRng;
use rand::seq::SliceRandom;
use vstd::prelude::*;
use vstd::std_specs::iter::IteratorSpec;

verus! {

/// The standard random number generator of `rand`, which its owner has
/// seeded. Nothing is known of its state.
#[verifier::external_type_specification]
#[verifier::external_body]
pub struct ExStdRng(rand::rngs::StdRng);

/// Whether `picked` holds entries of `pool` taken from positions that are all
/// different, so that no entry of `pool` is taken twice.
pub open spec fn drawn_from(pool: Seq<usize>, picked: Seq<usize>) -> bool {
    exists|at: Seq<int>| #[trigger]
        drawn_at(pool, picked, at)
}

/// Whether `picked` holds the entries of `pool` at the positions `at`, which
/// are all different.
pub open spec fn drawn_at(pool: Seq<usize>, picked: Seq<usize>, at: Seq<int>) -> bool {
    &&& at.len() == picked.len()
    &&& at.no_duplicates()
    &&& forall|i: int|
        0 <= i < at.len() ==> 0 <= #[trigger] at[i] < pool.len() && picked[i] == pool[at[i]]
}

/// Calls `rand::seq::SliceRandom::choose_multiple` on `pool` and collects
/// what it yields.
///
/// Trusted: `choose_multiple` draws `amount` entries, or all of them where
/// the slice has fewer, from positions of the slice that are all different;
/// which positions, and in which order, is left to chance. For a slice of
/// more than `u32::MAX` entries it checks, where debug assertions are on,
/// that fewer entries are asked for than the slice has.
#[verifier::external_body]
fn choose_multiple(pool: &Vec<usize>, rng: &mut StdRng, amount: usize) -> (picked: Vec<usize>)
    requires
        pool@.len() <= u32::MAX || amount < pool@.len(),
    ensures
        picked@.len() == if amount <= pool@.len() {
            amount as nat
        } else {
            pool@.len()
        },
        drawn_from(pool@, picked@),
{
    pool.choose_multiple(rng, amount).cloned().collect()
}

/// The vertices with an entry in `graph`, each once, in no particular order.
pub fn vertex_keys(graph: &Graph) -> (keys: Vec<usize>)
    ensures
        keys@.no_duplicates(),
        keys@.to_set() == graph@.dom(),
        keys@.len() == graph@.dom().len(),
{
    let mut keys: Vec<usize> = Vec::new();
    let ghost all = graph.adjacency_list.keys().remaining().unref();
    for vertex in it: graph.adjacency_list.keys()
        invariant
            it.seq().unref() == all,
            keys@ == all.take(it.index()),
    {
        keys.push(*vertex);
        assert(all.take(it.index() + 1) =~= all.take(it.index()).push(*vertex));
    }
    proof {
        assert(keys@ =~= all);
        assert(graph.adjacency_list.keys().remaining().no_duplicates());
        assert(all.no_duplicates()) by {
            assert forall|i: int, j: int| 0 <= i < all.len() && 0 <= j < all.len() && i != j implies all[i]
                != all[j] by {
                let refs = graph.adjacency_list.keys().remaining();
                assert(refs[i] != refs[j]);
            }
        }
        assert(graph@.dom() =~= graph.adjacency_list@.dom());
    }
    keys
}

/// Draws `sample_size` of the vertices with an entry in `graph` at random, or
/// all of them where there are fewer. No vertex is drawn twice.
pub fn sample_vertices(graph: &Graph, rng: &mut StdRng, sample_size: usize) -> (sample: Vec<
    usize,
>)
    ensures
        sample@.len() == if sample_size <= graph@.dom().len() {
            sample_size as nat
        } else {
            graph@.dom().len()
        },
        sample@.no_duplicates(),
        forall|i: int| 0 <= i < sample@.len() ==> graph@.contains_key(#[trigger] sample@[i]),
{
    let keys = vertex_keys(graph);
    if keys.len() > 0xFFFF_FFFF && sample_size >= keys.len() {
        // All of them are asked for: nothing is left to chance but their order.
        proof {
            assert forall|i: int| 0 <= i < keys@.len() implies graph@.contains_key(
                #[trigger] keys@[i],
            ) by {
                assert(keys@.to_set().contains(keys@[i]));
            }
        }
        return keys;
    }
    let sample = choose_multiple(&keys, rng, sample_size);
    proof {
        let at = choose|at: Seq<int>| #[trigger] drawn_at(keys@, sample@, at);
        assert forall|i: int, j: int|
            0 <= i < sample@.len() && 0 <= j < sample@.len() && i != j implies sample@[i]
            != sample@[j] by {
            assert(at[i] != at[j]);
            assert(keys@[at[i]] != keys@[at[j]]);
        }
        assert forall|i: int| 0 <= i < sample@.len() implies graph@.contains_key(
            #[trigger] sample@[i],
        ) by {
            assert(keys@.to_set().contains(keys@[at[i]]));
        }
    }
    sample
}

} // verus!
