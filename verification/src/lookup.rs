//! Cluster membership lookup by record value.

use vstd::prelude::*;
use crate::Error;
use crate::Number;
use crate::components::from_nodes;

verus! {

broadcast use
    vstd::multiset::group_multiset_axioms,
    vstd::seq_lib::to_multiset_contains;

/// The cluster holds a record equal by value to `x`.
pub open spec fn cluster_contains(c: Seq<Seq<u8>>, x: Seq<u8>) -> bool {
    exists|p: int| 0 <= p < c.len() && #[trigger] c[p] == x
}

/// Compares two records by value.
pub fn records_equal(a: &Number, b: &Number) -> (r: bool)
    ensures
        r <==> a@ == b@,
{
    if a.len() != b.len() {
        return false;
    }
    let n = a.len();
    let mut i: usize = 0;
    while i < n
        invariant
            n == a@.len() == b@.len(),
            0 <= i <= n,
            forall|j: int| 0 <= j < i ==> a@[j] == b@[j],
        decreases n - i,
    {
        if a[i] != b[i] {
            return false;
        }
        i = i + 1;
    }
    proof {
        assert(a@ =~= b@);
    }
    true
}

/// Finds the first cluster holding a record equal by value to `element`,
/// or reports `RecordNotFound` exactly when no cluster holds one.
pub fn get_cluster_of(element: &Number, clusters: &Vec<Vec<Number>>) -> (r: Result<usize, Error>)
    ensures
        r is Ok <==> exists|j: int|
            0 <= j < clusters@.len() && cluster_contains(
                #[trigger] clusters.deep_view()[j],
                element@,
            ),
        r matches Ok(i) ==> i < clusters@.len() && cluster_contains(
            clusters.deep_view()[i as int],
            element@,
        ) && forall|j: int| 0 <= j < i ==> !cluster_contains(clusters.deep_view()[j], element@),
        r matches Err(e) ==> e is RecordNotFound,
{
    let nc = clusters.len();
    let mut ci: usize = 0;
    while ci < nc
        invariant
            nc == clusters@.len(),
            0 <= ci <= nc,
            forall|j: int| 0 <= j < ci ==> !cluster_contains(clusters.deep_view()[j], element@),
        decreases nc - ci,
    {
        let cl = clusters.len();
        let sz = clusters[ci].len();
        let mut p: usize = 0;
        while p < sz
            invariant
                nc == clusters@.len(),
                0 <= ci < nc,
                forall|j: int| 0 <= j < ci ==> !cluster_contains(clusters.deep_view()[j], element@),
                sz == clusters@[ci as int]@.len(),
                0 <= p <= sz,
                forall|p2: int| 0 <= p2 < p ==> clusters.deep_view()[ci as int][p2] != element@,
            decreases sz - p,
        {
            if records_equal(&clusters[ci][p], element) {
                proof {
                    assert(clusters.deep_view()[ci as int] == clusters@[ci as int].deep_view());
                    assert(clusters.deep_view()[ci as int].len() == sz);
                    assert(clusters.deep_view()[ci as int][p as int] == clusters@[ci as int]@[
                        p as int]@);
                    assert(cluster_contains(clusters.deep_view()[ci as int], element@));
                }
                return Ok(ci);
            }
            proof {
                assert(clusters.deep_view()[ci as int][p as int] == clusters@[ci as int]@[p as int]@);
            }
            p = p + 1;
        }
        proof {
            assert(clusters.deep_view()[ci as int].len() == sz);
            assert(!cluster_contains(clusters.deep_view()[ci as int], element@));
        }
        ci = ci + 1;
    }
    Err(Error::RecordNotFound)
}

proof fn lemma_flatten_member(cs: Seq<Seq<Seq<u8>>>, x: Seq<u8>)
    requires
        cs.flatten().contains(x),
    ensures
        exists|ci: int| 0 <= ci < cs.len() && cluster_contains(#[trigger] cs[ci], x),
    decreases cs.len(),
{
    if cs.len() == 0 {
        assert(cs.flatten() =~= Seq::<Seq<u8>>::empty());
    } else {
        let cs0 = cs.drop_last();
        cs0.lemma_flatten_push(cs.last());
        assert(cs0.push(cs.last()) =~= cs);
        let idx = choose|idx: int| 0 <= idx < cs.flatten().len() && cs.flatten()[idx] == x;
        if idx < cs0.flatten().len() {
            assert(cs0.flatten()[idx] == x);
            assert(cs0.flatten().contains(x));
            lemma_flatten_member(cs0, x);
            let ci = choose|ci: int| 0 <= ci < cs0.len() && cluster_contains(#[trigger] cs0[ci], x);
            assert(cs[ci] == cs0[ci]);
        } else {
            let p = idx - cs0.flatten().len();
            assert(cs.last()[p] == x);
            assert(cluster_contains(cs[cs.len() - 1], x));
        }
    }
}

/// Lookup never fails on a record drawn from the clustered data: whenever
/// the clusters jointly use every node record (as `connected_components`
/// guarantees) and the record is one of them, some cluster holds it, so
/// `get_cluster_of` returns `Ok`.
pub proof fn lemma_lookup_succeeds(cs: Seq<Seq<Seq<u8>>>, nodes: Seq<Seq<u8>>, x: Seq<u8>)
    requires
        cs.flatten().to_multiset() == nodes.to_multiset(),
        from_nodes(x, nodes),
    ensures
        exists|ci: int| 0 <= ci < cs.len() && cluster_contains(#[trigger] cs[ci], x),
{
    let u = choose|u: int| 0 <= u < nodes.len() && x == nodes[u];
    assert(nodes.contains(x));
    assert(nodes.to_multiset().count(x) > 0);
    assert(cs.flatten().to_multiset().count(x) > 0);
    assert(cs.flatten().contains(x));
    lemma_flatten_member(cs, x);
}

} // verus!
