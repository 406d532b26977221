//! Edge pruning: removing the `k - 1` heaviest tree edges.
//!
//! The removals are picked by repeated selection of the heaviest edge not yet
//! removed, ties broken in favour of the earliest edge in the tree's stored
//! order; the survivors keep their order. Removing `k - 1` edges from a
//! spanning tree leaves a forest with exactly `k` components.

use vstd::prelude::*;
use crate::Error;
use crate::graph::Edge;
use crate::graph::Graph;
use crate::graph::clone_records;
use crate::graph::edge_in;
use crate::graph::edge_matches;
use crate::graph::edge_valid;
use crate::graph::forest_ordered;
use crate::mst::count_trues;
use crate::mst::lemma_count_trues_all;
use crate::mst::lemma_count_trues_bound;
use crate::mst::lemma_count_trues_push;
use crate::mst::lemma_count_trues_update;

verus! {

/// The index of the heaviest unmarked edge among the first `upto`, earliest
/// first on equal weights; `-1` if all are marked.
pub open spec fn argmax_spec(es: Seq<Edge>, mk: Seq<bool>, upto: int) -> int
    decreases upto,
{
    if upto <= 0 {
        -1int
    } else {
        let r = argmax_spec(es, mk, upto - 1);
        if !mk[upto - 1] && (r == -1 || es[upto - 1].w > es[r].w) {
            upto - 1
        } else {
            r
        }
    }
}

/// The removal marks after `j` rounds of heaviest-edge selection.
pub open spec fn prune_marks(es: Seq<Edge>, j: int) -> Seq<bool>
    decreases j,
{
    if j <= 0 {
        Seq::new(es.len(), |i: int| false)
    } else {
        let mk = prune_marks(es, j - 1);
        let a = argmax_spec(es, mk, es.len() as int);
        if a == -1 {
            mk
        } else {
            mk.update(a, true)
        }
    }
}

/// The unmarked edges among the first `i`, in their original order.
pub open spec fn kept(es: Seq<Edge>, mk: Seq<bool>, i: int) -> Seq<Edge>
    decreases i,
{
    if i <= 0 {
        Seq::empty()
    } else if mk[i - 1] {
        kept(es, mk, i - 1)
    } else {
        kept(es, mk, i - 1).push(es[i - 1])
    }
}

proof fn lemma_argmax(es: Seq<Edge>, mk: Seq<bool>, upto: int)
    requires
        upto <= mk.len(),
    ensures
        (argmax_spec(es, mk, upto) == -1) <==> (forall|l: int| 0 <= l < upto ==> mk[l]),
        argmax_spec(es, mk, upto) != -1 ==> 0 <= argmax_spec(es, mk, upto) < upto
            && !mk[argmax_spec(es, mk, upto)],
        argmax_spec(es, mk, upto) != -1 ==> forall|l: int|
            0 <= l < upto && !mk[l] ==> es[argmax_spec(es, mk, upto)].w >= (#[trigger] es[l]).w,
    decreases upto,
{
    if upto > 0 {
        lemma_argmax(es, mk, upto - 1);
    }
}

proof fn lemma_prune_marks_count(es: Seq<Edge>, j: int)
    requires
        0 <= j <= es.len(),
    ensures
        prune_marks(es, j).len() == es.len(),
        count_trues(prune_marks(es, j)) == j,
    decreases j,
{
    if j == 0 {
        lemma_count_all_false(es.len() as int);
    } else {
        lemma_prune_marks_count(es, j - 1);
        let mk = prune_marks(es, j - 1);
        let a = argmax_spec(es, mk, es.len() as int);
        lemma_argmax(es, mk, es.len() as int);
        if a == -1 {
            lemma_count_trues_all(mk);
            assert(false);
        } else {
            lemma_count_trues_update(mk, a);
        }
    }
}

proof fn lemma_count_all_false(n: int)
    requires
        n >= 0,
    ensures
        count_trues(Seq::new(n as nat, |i: int| false)) == 0,
    decreases n,
{
    if n > 0 {
        lemma_count_all_false(n - 1);
        assert(Seq::new(n as nat, |i: int| false).drop_last() =~= Seq::new(
            (n - 1) as nat,
            |i: int| false,
        ));
    }
}

proof fn lemma_kept_len(es: Seq<Edge>, mk: Seq<bool>, i: int)
    requires
        mk.len() == es.len(),
        0 <= i <= es.len(),
    ensures
        kept(es, mk, i).len() == i - count_trues(mk.take(i)),
    decreases i,
{
    lemma_count_trues_bound(mk.take(i));
    if i > 0 {
        lemma_kept_len(es, mk, i - 1);
        assert(mk.take(i).drop_last() =~= mk.take(i - 1));
        assert(mk.take(i).last() == mk[i - 1]);
    }
}

/// The kept edges form an ordered forest again: they are drawn from the
/// original edges with their relative order intact.
proof fn lemma_kept_forest(n: int, es: Seq<Edge>, mk: Seq<bool>, i: int)
    requires
        forest_ordered(n, es),
        mk.len() == es.len(),
        0 <= i <= es.len(),
    ensures
        forest_ordered(n, kept(es, mk, i)),
        forall|p: int|
            0 <= p < kept(es, mk, i).len() ==> exists|l: int|
                0 <= l < i && #[trigger] kept(es, mk, i)[p] == es[l],
    decreases i,
{
    if i > 0 {
        lemma_kept_forest(n, es, mk, i - 1);
        let k0 = kept(es, mk, i - 1);
        let ks = kept(es, mk, i);
        if !mk[i - 1] {
            assert(ks == k0.push(es[i - 1]));
            assert forall|p: int| 0 <= p < ks.len() implies exists|l: int|
                0 <= l < i && #[trigger] ks[p] == es[l] by {
                if p < k0.len() {
                    let l = choose|l: int| 0 <= l < i - 1 && #[trigger] k0[p] == es[l];
                    assert(ks[p] == es[l]);
                } else {
                    assert(ks[p] == es[i - 1]);
                }
            }
            assert forall|t: int| 0 <= t < ks.len() implies edge_valid(n, #[trigger] ks[t]) by {
                let l = choose|l: int| 0 <= l < i && #[trigger] ks[t] == es[l];
                assert(edge_valid(n, es[l]));
            }
            assert forall|p: int, q: int|
                0 <= p <= q < ks.len() implies (#[trigger] ks[p]).a != (#[trigger] ks[q]).b by {
                let lp = choose|l: int| 0 <= l < i && #[trigger] ks[p] == es[l];
                if q < k0.len() {
                    assert(k0[p].a != k0[q].b);
                } else {
                    assert(ks[q] == es[i - 1]);
                    assert(es[lp].a != es[i - 1].b);
                }
            }
            assert forall|p: int, q: int|
                0 <= p < q < ks.len() implies (#[trigger] ks[p]).b != (#[trigger] ks[q]).b by {
                let lp = choose|l: int| 0 <= l < i && #[trigger] ks[p] == es[l];
                if q < k0.len() {
                    assert(k0[p].b != k0[q].b);
                } else {
                    assert(ks[q] == es[i - 1]);
                    assert(lp < i - 1 || ks[p] == es[i - 1]);
                    if lp < i - 1 {
                        assert(es[lp].b != es[i - 1].b);
                    }
                }
            }
        }
    }
}

/// Pruning truly removes the heaviest edges: after any number of selection
/// rounds, every edge marked for removal weighs at least as much as every
/// surviving edge.
pub proof fn lemma_prune_removes_heaviest(es: Seq<Edge>, m: int)
    requires
        0 <= m <= es.len(),
    ensures
        forall|i: int, l: int|
            #![trigger prune_marks(es, m)[i], prune_marks(es, m)[l]]
            0 <= i < es.len() && 0 <= l < es.len() && prune_marks(es, m)[i] && !prune_marks(
                es,
                m,
            )[l] ==> es[i].w >= es[l].w,
    decreases m,
{
    lemma_prune_marks_count(es, m);
    if m > 0 {
        lemma_prune_removes_heaviest(es, m - 1);
        lemma_prune_marks_count(es, m - 1);
        let mk = prune_marks(es, m - 1);
        let a = argmax_spec(es, mk, es.len() as int);
        lemma_argmax(es, mk, es.len() as int);
        if a == -1 {
            lemma_count_trues_all(mk);
            assert(false);
        }
        assert forall|i: int, l: int|
            #![trigger prune_marks(es, m)[i], prune_marks(es, m)[l]]
            0 <= i < es.len() && 0 <= l < es.len() && prune_marks(es, m)[i] && !prune_marks(
                es,
                m,
            )[l] implies es[i].w >= es[l].w by {
            assert(prune_marks(es, m) == mk.update(a, true));
            if i != a {
                assert(mk[i]);
                assert(!mk[l]);
            } else {
                assert(!mk[l]);
            }
        }
    }
}

/// Removes the `k - 1` heaviest edges of the spanning tree, leaving its
/// nodes and the remaining edges in their original connection order. Fails
/// with `InvalidClusterCount` exactly when `k` lies outside `[1, n]`.
pub fn prune(tree: &Graph, k: usize) -> (r: Result<Graph, Error>)
    requires
        forest_ordered(tree.n(), tree.edges@),
        tree.edges@.len() == if tree.n() == 0 {
            0int
        } else {
            tree.n() - 1
        },
    ensures
        r is Ok <==> 1 <= k && k as int <= tree.n(),
        r matches Err(e) ==> e matches Error::InvalidClusterCount { k: k2, n: n2 } && k2 == k && n2
            as int == tree.n(),
        r matches Ok(p) ==> {
            &&& p.nodes_dv() == tree.nodes_dv()
            &&& p.n() == tree.n()
            &&& p.edges@ == kept(
                tree.edges@,
                prune_marks(tree.edges@, k - 1),
                tree.edges@.len() as int,
            )
            &&& p.edges@.len() == tree.n() - k
            &&& forest_ordered(p.n(), p.edges@)
            &&& forall|s: int| 0 <= s < p.edges@.len() ==> edge_in(tree.edges@, #[trigger] p.edges@[s])
        },
{
    let n = tree.nodes.len();
    if k < 1 || k > n {
        return Err(Error::InvalidClusterCount { k, n });
    }
    let ghost es = tree.edges@;
    let len = tree.edges.len();
    let m = k - 1;
    let mut marks: Vec<bool> = Vec::new();
    let mut i: usize = 0;
    while i < len
        invariant
            0 <= i <= len,
            marks@.len() == i,
            forall|v: int| 0 <= v < i ==> !marks@[v],
        decreases len - i,
    {
        marks.push(false);
        i = i + 1;
    }
    proof {
        assert(marks@ =~= prune_marks(es, 0));
    }
    let mut j: usize = 0;
    while j < m
        invariant
            n == tree.nodes@.len(),
            len == es.len(),
            es == tree.edges@,
            m <= len,
            0 <= j <= m,
            marks@.len() == len,
            marks@ == prune_marks(es, j as int),
        decreases m - j,
    {
        proof {
            lemma_prune_marks_count(es, j as int);
        }
        let mut best: usize = len;
        let mut i2: usize = 0;
        while i2 < len
            invariant
                len == es.len(),
                es == tree.edges@,
                marks@.len() == len,
                0 <= i2 <= len,
                (best == len && argmax_spec(es, marks@, i2 as int) == -1) || (best < len
                    && argmax_spec(es, marks@, i2 as int) == best as int),
            decreases len - i2,
        {
            let unmarked = !marks[i2];
            if unmarked && (best == len || tree.edges[i2].w > tree.edges[best].w) {
                best = i2;
            }
            i2 = i2 + 1;
        }
        proof {
            lemma_argmax(es, marks@, len as int);
            if best == len {
                lemma_count_trues_all(marks@);
            }
        }
        marks.set(best, true);
        j = j + 1;
    }
    proof {
        lemma_prune_marks_count(es, m as int);
    }
    let ghost mkf = marks@;
    let mut out: Vec<Edge> = Vec::new();
    let mut i3: usize = 0;
    while i3 < len
        invariant
            len == es.len(),
            es == tree.edges@,
            marks@ == mkf,
            marks@.len() == len,
            0 <= i3 <= len,
            out@ == kept(es, mkf, i3 as int),
        decreases len - i3,
    {
        if !marks[i3] {
            out.push(tree.edges[i3]);
        }
        i3 = i3 + 1;
    }
    proof {
        lemma_kept_len(es, mkf, len as int);
        assert(mkf.take(len as int) =~= mkf);
        lemma_kept_forest(n as int, es, mkf, len as int);
        assert forall|s: int| 0 <= s < out@.len() implies edge_in(es, #[trigger] out@[s]) by {
            let l = choose|l: int| 0 <= l < len && #[trigger] kept(es, mkf, len as int)[s] == es[l];
            assert(edge_matches(es[l], out@[s]));
        }
    }
    let p = Graph { nodes: clone_records(&tree.nodes), edges: out };
    Ok(p)
}

} // verus!
