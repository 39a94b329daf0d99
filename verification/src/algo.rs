//! Algorithms that bound the twin-width of a graph.

use vstd::prelude::*;

use crate::graph::Graph;
use itertools::Itertools;

pub mod greedy;

verus! {

/// All unordered pairs of elements of `q`: `(q[i], q[j])` for every pair
/// of positions `i < j`, ordered lexicographically by position.
pub open spec fn spec_pairs(q: Seq<u32>) -> Seq<(u32, u32)>
    decreases q.len(),
{
    if q.len() < 2 {
        Seq::empty()
    } else {
        q.skip(1).map_values(|x: u32| (q[0], x)) + spec_pairs(q.skip(1))
    }
}

/// Relies on itertools' `Itertools::tuple_combinations` over the vector's
/// iterator: it yields `(v[i], v[j])` for every position pair `i < j`,
/// lexicographically by position (its documented reliable order).
#[verifier::external_body]
#[allow(deprecated)]
pub(crate) fn get_all_combinations(nodes: Vec<u32>) -> (r: Vec<(u32, u32)>)
    ensures
        r@ == spec_pairs(nodes@),
{
    nodes.into_iter().tuple_combinations::<(u32, u32)>().collect()
}

/// A twin-width algorithm: it consumes a graph, contracts it to a single
/// node, and reports the contraction sequence and the width it achieved.
pub trait Algo: Sized {
    /// The solver's internal invariant.
    spec fn inv(&self) -> bool;

    fn new_with_graph(graph: Graph) -> (r: Self)
        requires
            graph.wf(),
        ensures
            r.inv(),
    ;

    fn get_max_red_degree(&self) -> usize;

    fn solve(&mut self) -> (r: (Vec<(u32, u32)>, usize))
        requires
            old(self).inv(),
        ensures
            final(self).inv(),
    ;

    fn output_tww_str(&self) -> String;
}

} // verus!
