//! Spanning-tree extraction from the complete graph.
//!
//! A greedy growth rule in the style of Prim's algorithm: starting from node
//! 0, at each step the lightest edge leaving the connected region is added
//! (ties broken by the earliest edge in the graph's stored order), the new
//! node joins the region, and the chosen edge is recorded as parent `a`,
//! child `b`. The result is a spanning tree in connection order: `n - 1`
//! edges, every one drawn from the input graph, and a single root.

use vstd::prelude::*;
use crate::graph::Edge;
use crate::graph::Graph;
use crate::graph::adjacent;
use crate::graph::clone_records;
use crate::graph::count_roots;
use crate::graph::edge_in;
use crate::graph::edge_matches;
use crate::graph::edge_valid;
use crate::graph::forest_ordered;
use crate::graph::has_pair_edge;
use crate::graph::is_child;
use crate::graph::lemma_forest_root_count;
use crate::graph::lemma_is_child_push;
use crate::graph::lemma_reachable_adjacent;
use crate::graph::lemma_reachable_push;
use crate::graph::lemma_reachable_refl;
use crate::graph::lemma_reachable_sym;
use crate::graph::lemma_reachable_trans;
use crate::graph::pair_connected;
use crate::graph::reachable;

verus! {

/// How many entries of the sequence are true.
pub open spec fn count_trues(s: Seq<bool>) -> int
    decreases s.len(),
{
    if s.len() == 0 {
        0int
    } else {
        count_trues(s.drop_last()) + if s.last() {
            1int
        } else {
            0int
        }
    }
}

pub proof fn lemma_count_trues_update(s: Seq<bool>, i: int)
    requires
        0 <= i < s.len(),
        !s[i],
    ensures
        count_trues(s.update(i, true)) == count_trues(s) + 1,
    decreases s.len(),
{
    let s2 = s.update(i, true);
    if i == s.len() - 1 {
        assert(s2.drop_last() =~= s.drop_last());
    } else {
        assert(s2.drop_last() =~= s.drop_last().update(i, true));
        lemma_count_trues_update(s.drop_last(), i);
    }
}

pub proof fn lemma_count_trues_push(s: Seq<bool>, b: bool)
    ensures
        count_trues(s.push(b)) == count_trues(s) + if b {
            1int
        } else {
            0int
        },
{
    assert(s.push(b).drop_last() =~= s);
}

/// The count of trues lies between zero and the length.
pub proof fn lemma_count_trues_bound(s: Seq<bool>)
    ensures
        0 <= count_trues(s) <= s.len(),
    decreases s.len(),
{
    if s.len() > 0 {
        lemma_count_trues_bound(s.drop_last());
    }
}

/// An all-true sequence has as many trues as entries.
pub proof fn lemma_count_trues_all(s: Seq<bool>)
    requires
        forall|v: int| 0 <= v < s.len() ==> s[v],
    ensures
        count_trues(s) == s.len(),
    decreases s.len(),
{
    if s.len() > 0 {
        lemma_count_trues_all(s.drop_last());
    }
}

/// A sequence with as many trues as entries is all true.
pub proof fn lemma_count_trues_full(s: Seq<bool>)
    requires
        count_trues(s) == s.len(),
    ensures
        forall|v: int| 0 <= v < s.len() ==> s[v],
    decreases s.len(),
{
    if s.len() > 0 {
        lemma_count_trues_bound(s.drop_last());
        lemma_count_trues_full(s.drop_last());
        assert forall|v: int| 0 <= v < s.len() implies s[v] by {
            if v < s.len() - 1 {
                assert(s.drop_last()[v]);
            }
        }
    }
}

/// A sequence with fewer trues than entries has a false entry.
pub proof fn lemma_exists_false(s: Seq<bool>)
    requires
        count_trues(s) < s.len(),
    ensures
        exists|v: int| 0 <= v < s.len() && !s[v],
    decreases s.len(),
{
    if s.last() {
        lemma_exists_false(s.drop_last());
        let v = choose|v: int| 0 <= v < s.drop_last().len() && !s.drop_last()[v];
        assert(!s[v]);
    } else {
        assert(!s[s.len() - 1]);
    }
}

/// An edge leaves the connected region: exactly one endpoint is inside.
pub open spec fn crossing(intree: Seq<bool>, e: Edge) -> bool {
    intree[e.a as int] != intree[e.b as int]
}

/// The index of the lightest crossing edge among the first `upto`, earliest
/// first on equal weights; `-1` if none crosses.
pub open spec fn prim_pick(es: Seq<Edge>, intree: Seq<bool>, upto: int) -> int
    decreases upto,
{
    if upto <= 0 {
        -1int
    } else {
        let r = prim_pick(es, intree, upto - 1);
        if crossing(intree, es[upto - 1]) && (r == -1 || es[upto - 1].w < es[r].w) {
            upto - 1
        } else {
            r
        }
    }
}

/// The tree edges and connected region after `steps` rounds of greedy
/// growth from node 0: each round adds the lightest crossing edge, oriented
/// parent first, and marks its outer endpoint as connected.
pub open spec fn prim_state(es: Seq<Edge>, n: int, steps: int) -> (Seq<Edge>, Seq<bool>)
    decreases steps,
{
    if steps <= 0 {
        (Seq::empty(), Seq::new(n as nat, |v: int| v == 0))
    } else {
        let (tes, intree) = prim_state(es, n, steps - 1);
        let j = prim_pick(es, intree, es.len() as int);
        if j == -1 {
            (tes, intree)
        } else {
            let e = es[j];
            if intree[e.a as int] {
                (tes.push(Edge { a: e.a, b: e.b, w: e.w }), intree.update(e.b as int, true))
            } else {
                (tes.push(Edge { a: e.b, b: e.a, w: e.w }), intree.update(e.a as int, true))
            }
        }
    }
}

/// Reduces the complete graph to a spanning tree: same nodes, `n - 1` edges
/// drawn from the graph, stored in connection order with node 0 the single
/// root. Edge selection is greedy minimum weight, earliest edge first on
/// ties, which fixes the tree deterministically.
pub fn minimum_spanning_tree(g: &Graph) -> (t: Graph)
    requires
        g.wf(),
        pair_connected(g.n(), g.edges@),
    ensures
        t.nodes_dv() == g.nodes_dv(),
        t.n() == g.n(),
        forest_ordered(t.n(), t.edges@),
        t.edges@.len() == if g.n() == 0 {
            0int
        } else {
            g.n() - 1
        },
        forall|s: int| 0 <= s < t.edges@.len() ==> edge_in(g.edges@, #[trigger] t.edges@[s]),
        g.n() >= 1 ==> count_roots(t.n(), t.edges@) == 1,
        forall|u: int, v: int|
            0 <= u < g.n() && 0 <= v < g.n() ==> reachable(t.edges@, u, v),
        g.n() >= 1 ==> t.edges@ == prim_state(g.edges@, g.n(), g.n() - 1).0,
{
    let ghost ges = g.edges@;
    let n = g.nodes.len();
    let nodes = clone_records(&g.nodes);
    if n == 0 {
        let t = Graph { nodes, edges: Vec::new() };
        return t;
    }
    let mut intree: Vec<bool> = Vec::new();
    let mut i: usize = 0;
    while i < n
        invariant
            0 <= i <= n,
            intree@.len() == i,
            forall|v: int| 0 <= v < i ==> !intree@[v],
            count_trues(intree@) == 0,
        decreases n - i,
    {
        proof {
            lemma_count_trues_push(intree@, false);
        }
        intree.push(false);
        i = i + 1;
    }
    proof {
        lemma_count_trues_update(intree@, 0);
    }
    intree.set(0, true);
    let mut tedges: Vec<Edge> = Vec::new();
    proof {
        lemma_reachable_refl(tedges@, 0);
        assert(intree@ =~= prim_state(ges, n as int, 0).1);
        assert(tedges@ =~= prim_state(ges, n as int, 0).0);
    }
    let mut step: usize = 1;
    while step < n
        invariant
            n == g.nodes@.len(),
            n >= 1,
            g.wf(),
            pair_connected(n as int, g.edges@),
            intree@.len() == n,
            1 <= step <= n,
            tedges@.len() == step - 1,
            intree@[0],
            forall|v: int| 0 <= v < n ==> (intree@[v] <==> (v == 0 || is_child(tedges@, v))),
            forall|s: int|
                0 <= s < tedges@.len() ==> intree@[(#[trigger] tedges@[s]).a as int]
                    && intree@[tedges@[s].b as int],
            count_trues(intree@) == step,
            forest_ordered(n as int, tedges@),
            forall|s: int| 0 <= s < tedges@.len() ==> edge_in(g.edges@, #[trigger] tedges@[s]),
            forall|v: int| 0 <= v < n && intree@[v] ==> reachable(tedges@, 0, v),
            ges == g.edges@,
            tedges@ == prim_state(ges, n as int, step - 1).0,
            intree@ == prim_state(ges, n as int, step - 1).1,
        decreases n - step,
    {
        let m = g.edges.len();
        let mut best: usize = m;
        let mut j: usize = 0;
        while j < m
            invariant
                n == g.nodes@.len(),
                g.wf(),
                intree@.len() == n,
                m == g.edges@.len(),
                0 <= j <= m,
                best == m || (best < m && crossing(intree@, g.edges@[best as int])),
                best == m ==> forall|l: int| 0 <= l < j ==> !crossing(intree@, #[trigger] g.edges@[l]),
                best < m ==> forall|l: int|
                    0 <= l < j && crossing(intree@, #[trigger] g.edges@[l])
                        ==> g.edges@[best as int].w <= g.edges@[l].w,
                (best == m && prim_pick(g.edges@, intree@, j as int) == -1) || (best < m
                    && prim_pick(g.edges@, intree@, j as int) == best as int),
            decreases m - j,
        {
            let e = g.edges[j];
            proof {
                assert(edge_valid(n as int, g.edges@[j as int]));
            }
            let ca = intree[e.a];
            let cb = intree[e.b];
            if ca != cb {
                if best == m || e.w < g.edges[best].w {
                    best = j;
                }
            }
            j = j + 1;
        }
        proof {
            lemma_exists_false(intree@);
            let v = choose|v: int| 0 <= v < n && !intree@[v];
            assert(has_pair_edge(g.edges@, 0, v));
            let t0 = choose|t: int|
                0 <= t < g.edges@.len() && (#[trigger] g.edges@[t]).a == 0 && g.edges@[t].b == v;
            assert(crossing(intree@, g.edges@[t0]));
            assert(best < m);
        }
        let e = g.edges[best];
        proof {
            assert(edge_valid(n as int, g.edges@[best as int]));
        }
        let pa: usize;
        let ch: usize;
        if intree[e.a] {
            pa = e.a;
            ch = e.b;
        } else {
            pa = e.b;
            ch = e.a;
        }
        let newe = Edge { a: pa, b: ch, w: e.w };
        proof {
            assert(prim_pick(ges, intree@, ges.len() as int) == best as int);
            assert(prim_state(ges, n as int, step as int).0 == tedges@.push(newe));
            assert(prim_state(ges, n as int, step as int).1 == intree@.update(ch as int, true));
        }
        let ghost prev = tedges@;
        tedges.push(newe);
        proof {
            lemma_is_child_push(prev, newe);
            assert(edge_matches(g.edges@[best as int], newe));
            assert(edge_in(g.edges@, newe));
            assert forall|s: int|
                0 <= s < tedges@.len() implies edge_in(g.edges@, #[trigger] tedges@[s]) by {
                if s < prev.len() {
                    assert(tedges@[s] == prev[s]);
                }
            }
            assert forall|i2: int, j2: int|
                0 <= i2 <= j2 < tedges@.len() implies (#[trigger] tedges@[i2]).a != (
            #[trigger] tedges@[j2]).b by {
                if j2 < prev.len() {
                    assert(prev[i2].a != prev[j2].b);
                } else {
                    assert(tedges@[j2].b == ch);
                    if i2 < prev.len() {
                        assert(intree@[prev[i2].a as int]);
                    }
                }
            }
            assert forall|i2: int, j2: int|
                0 <= i2 < j2 < tedges@.len() implies (#[trigger] tedges@[i2]).b != (
            #[trigger] tedges@[j2]).b by {
                if j2 < prev.len() {
                    assert(prev[i2].b != prev[j2].b);
                } else {
                    assert(intree@[prev[i2].b as int]);
                }
            }
        }
        proof {
            assert forall|v: int|
                0 <= v < n && intree@[v] implies reachable(tedges@, 0, v) by {
                lemma_reachable_push(prev, newe, 0, v);
            }
            assert(adjacent(tedges@, pa as int, ch as int)) by {
                assert(tedges@[prev.len() as int] == newe);
            }
            lemma_reachable_adjacent(tedges@, pa as int, ch as int);
            lemma_reachable_trans(tedges@, 0, pa as int, ch as int);
            lemma_count_trues_update(intree@, ch as int);
        }
        intree.set(ch, true);
        step = step + 1;
    }
    proof {
        lemma_forest_root_count(n as int, tedges@);
        lemma_count_trues_full(intree@);
        assert forall|u: int, v: int|
            0 <= u < n && 0 <= v < n implies reachable(tedges@, u, v) by {
            assert(intree@[u] && intree@[v]);
            lemma_reachable_sym(tedges@, 0, u);
            lemma_reachable_trans(tedges@, u, 0, v);
        }
    }
    let t = Graph { nodes, edges: tedges };
    t
}

} // verus!
