//! The clustering pipeline end to end: complete graph, spanning tree,
//! pruning, components.

use vstd::prelude::*;
use crate::Error;
use crate::Number;
use crate::components::connected_components;
use crate::components::from_nodes;
use crate::components::lemma_sum_lens_flatten;
use crate::components::sum_lens;
use crate::graph::build_complete_graph;
use crate::graph::lemma_forest_root_count;
use crate::graph::uniform;
use crate::mst::minimum_spanning_tree;
use crate::prune::prune;

verus! {

broadcast use
    vstd::multiset::group_multiset_axioms,
    vstd::seq_lib::to_multiset_len;

/// Clusters the records into exactly `k` groups: builds the complete
/// distance graph, reduces it to a spanning tree, removes the `k - 1`
/// heaviest tree edges, and returns the connected components. Fails with
/// `InvalidClusterCount` exactly when `k` lies outside `[1, n]`. On success
/// the `k` clusters are non-empty, hold only input records, and jointly use
/// every input record exactly once.
pub fn cluster_records(records: &Vec<Number>, k: usize) -> (r: Result<Vec<Vec<Number>>, Error>)
    requires
        uniform(records.deep_view()),
    ensures
        r is Ok <==> 1 <= k <= records@.len(),
        r matches Err(e) ==> e matches Error::InvalidClusterCount { k: k2, n: n2 } && k2 == k && n2
            == records@.len(),
        r matches Ok(cs) ==> {
            &&& cs@.len() == k
            &&& cs.deep_view().flatten().to_multiset() == records.deep_view().to_multiset()
            &&& forall|ci: int| 0 <= ci < cs@.len() ==> (#[trigger] cs.deep_view()[ci]).len() >= 1
            &&& forall|ci: int, j: int|
                0 <= ci < cs@.len() && 0 <= j < cs.deep_view()[ci].len() ==> #[trigger] from_nodes(
                    cs.deep_view()[ci][j],
                    records.deep_view(),
                )
        },
{
    let g = build_complete_graph(records);
    proof {
        assert(g.nodes_dv().len() == g.nodes@.len());
        assert(records.deep_view().len() == records@.len());
        assert(g.n() == records@.len());
    }
    let t = minimum_spanning_tree(&g);
    let p = match prune(&t, k) {
        Ok(p) => p,
        Err(e) => {
            return Err(e);
        },
    };
    let cs = connected_components(&p);
    proof {
        lemma_forest_root_count(p.n(), p.edges@);
    }
    Ok(cs)
}

proof fn lemma_sum_lens_ge(cs: Seq<Seq<Seq<u8>>>)
    requires
        forall|ci: int| 0 <= ci < cs.len() ==> (#[trigger] cs[ci]).len() >= 1,
    ensures
        sum_lens(cs) >= cs.len(),
    decreases cs.len(),
{
    if cs.len() > 0 {
        lemma_sum_lens_ge(cs.drop_last());
    }
}

proof fn lemma_unit_lens(cs: Seq<Seq<Seq<u8>>>)
    requires
        forall|ci: int| 0 <= ci < cs.len() ==> (#[trigger] cs[ci]).len() >= 1,
        sum_lens(cs) == cs.len(),
    ensures
        forall|ci: int| 0 <= ci < cs.len() ==> (#[trigger] cs[ci]).len() == 1,
    decreases cs.len(),
{
    if cs.len() > 0 {
        let cs0 = cs.drop_last();
        lemma_sum_lens_ge(cs0);
        lemma_unit_lens(cs0);
        assert forall|ci: int| 0 <= ci < cs.len() implies (#[trigger] cs[ci]).len() == 1 by {
            if ci < cs.len() - 1 {
                assert(cs0[ci] == cs[ci]);
                assert(cs0[ci].len() == 1);
            }
        }
    }
}

/// The cluster sizes sum to the record count: clusters that jointly use
/// every record exactly once neither drop nor duplicate anything.
pub proof fn lemma_cluster_sizes_sum(cs: Seq<Seq<Seq<u8>>>, records: Seq<Seq<u8>>)
    requires
        cs.flatten().to_multiset() == records.to_multiset(),
    ensures
        sum_lens(cs) == records.len(),
{
    assert(cs.flatten().to_multiset().len() == records.to_multiset().len());
    assert(cs.flatten().to_multiset().len() == cs.flatten().len());
    assert(records.to_multiset().len() == records.len());
    lemma_sum_lens_flatten(cs);
}

/// As many clusters as records makes every cluster a singleton: if `n`
/// non-empty clusters jointly use the `n` records exactly once, each holds
/// exactly one record.
pub proof fn lemma_all_singletons(cs: Seq<Seq<Seq<u8>>>, records: Seq<Seq<u8>>)
    requires
        cs.len() == records.len(),
        cs.flatten().to_multiset() == records.to_multiset(),
        forall|ci: int| 0 <= ci < cs.len() ==> (#[trigger] cs[ci]).len() >= 1,
    ensures
        forall|ci: int| 0 <= ci < cs.len() ==> (#[trigger] cs[ci]).len() == 1,
{
    assert(cs.flatten().to_multiset().len() == records.to_multiset().len());
    assert(cs.flatten().to_multiset().len() == cs.flatten().len());
    assert(records.to_multiset().len() == records.len());
    assert(cs.flatten().len() == records.len());
    lemma_sum_lens_flatten(cs);
    lemma_unit_lens(cs);
}

/// One cluster holds everything: a single cluster that uses every record
/// exactly once is a permutation of the whole input.
pub proof fn lemma_single_cluster(cs: Seq<Seq<Seq<u8>>>, records: Seq<Seq<u8>>)
    requires
        cs.len() == 1,
        cs.flatten().to_multiset() == records.to_multiset(),
    ensures
        cs[0].to_multiset() == records.to_multiset(),
{
    cs.lemma_flatten_singleton();
}

} // verus!
