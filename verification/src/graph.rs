//! The weighted undirected graph model shared by every pipeline stage, and
//! the complete-graph builder.
//!
//! Nodes are records, identified throughout by their input ordinal; edges
//! carry Manhattan distances. Tree-shaped graphs keep their edges in
//! connection order (each edge joins one already-connected endpoint `a` to a
//! newly connected endpoint `b`), which later stages rely on to count
//! components without re-deriving connectivity.

use vstd::prelude::*;
use crate::Number;
use crate::metric::dist_spec;
use crate::metric::distance;

verus! {

/// One weighted undirected edge between the nodes with ordinals `a` and `b`.
/// In graphs produced by the spanning-tree stage, `a` is the endpoint that
/// was already connected (the parent) and `b` the newly connected child.
#[derive(Clone, Copy, Debug)]
pub struct Edge {
    pub a: usize,
    pub b: usize,
    pub w: u128,
}

/// An undirected weighted graph over record nodes.
#[derive(Debug)]
pub struct Graph {
    pub nodes: Vec<Number>,
    pub edges: Vec<Edge>,
}

/// An edge joins two distinct nodes of a graph on `n` nodes.
pub open spec fn edge_valid(n: int, e: Edge) -> bool {
    e.a < n && e.b < n && e.a != e.b
}

/// Every edge of the sequence is valid for `n` nodes.
pub open spec fn edges_valid(n: int, es: Seq<Edge>) -> bool {
    forall|t: int| 0 <= t < es.len() ==> edge_valid(n, #[trigger] es[t])
}

impl Graph {
    /// Node count.
    pub open spec fn n(self) -> int {
        self.nodes@.len() as int
    }

    /// The records at the nodes, as mathematical digit sequences.
    pub open spec fn nodes_dv(self) -> Seq<Seq<u8>> {
        self.nodes.deep_view()
    }

    /// Structural well-formedness: every edge joins two distinct nodes.
    pub open spec fn wf(self) -> bool {
        edges_valid(self.n(), self.edges@)
    }
}

/// All records share one length.
pub open spec fn uniform(rs: Seq<Seq<u8>>) -> bool {
    forall|i: int| 0 <= i < rs.len() ==> (#[trigger] rs[i]).len() == rs[0].len()
}

/// Some edge joins exactly the ordered pair `(i, j)`.
pub open spec fn has_pair_edge(es: Seq<Edge>, i: int, j: int) -> bool {
    exists|t: int| 0 <= t < es.len() && (#[trigger] es[t]).a == i && es[t].b == j
}

/// Every unordered pair of distinct nodes is joined by an edge stored as
/// `(i, j)` with `i < j`.
pub open spec fn pair_connected(n: int, es: Seq<Edge>) -> bool {
    forall|i: int, j: int| 0 <= i < j < n ==> #[trigger] has_pair_edge(es, i, j)
}

/// `e` and `f` join the same unordered pair with the same weight.
pub open spec fn edge_matches(e: Edge, f: Edge) -> bool {
    e.w == f.w && ((e.a == f.a && e.b == f.b) || (e.a == f.b && e.b == f.a))
}

/// The sequence holds an edge matching `e` up to orientation.
pub open spec fn edge_in(es: Seq<Edge>, e: Edge) -> bool {
    exists|t: int| 0 <= t < es.len() && edge_matches(#[trigger] es[t], e)
}

/// `e1` comes strictly before `e2` in lexicographic `(a, b)` order.
pub open spec fn edge_lex_before(e1: Edge, e2: Edge) -> bool {
    e1.a < e2.a || (e1.a == e2.a && e1.b < e2.b)
}

/// A forest stored in connection order: children (the `b` endpoints) are
/// pairwise distinct, and a parent (an `a` endpoint) is never a child of the
/// same or a later edge. A node that appears as no child is a root.
pub open spec fn forest_ordered(n: int, es: Seq<Edge>) -> bool {
    &&& edges_valid(n, es)
    &&& forall|i: int, j: int|
        0 <= i <= j < es.len() ==> (#[trigger] es[i]).a != (#[trigger] es[j]).b
    &&& forall|i: int, j: int|
        0 <= i < j < es.len() ==> (#[trigger] es[i]).b != (#[trigger] es[j]).b
}

/// `v` appears as the child endpoint of some edge.
pub open spec fn is_child(es: Seq<Edge>, v: int) -> bool {
    exists|t: int| 0 <= t < es.len() && (#[trigger] es[t]).b == v
}

/// The number of roots: nodes in `0..n` that no edge has as a child.
pub open spec fn count_roots(n: int, es: Seq<Edge>) -> int
    decreases n,
{
    if n <= 0 {
        0
    } else {
        count_roots(n - 1, es) + if is_child(es, n - 1) {
            0int
        } else {
            1int
        }
    }
}

proof fn lemma_count_roots_empty(n: int, es: Seq<Edge>)
    requires
        es.len() == 0,
    ensures
        count_roots(n, es) == if n <= 0 {
            0int
        } else {
            n
        },
    decreases n,
{
    if n > 0 {
        lemma_count_roots_empty(n - 1, es);
        assert(!is_child(es, n - 1));
    }
}

proof fn lemma_count_roots_nonneg(n: int, es: Seq<Edge>)
    ensures
        count_roots(n, es) >= 0,
    decreases n,
{
    if n > 0 {
        lemma_count_roots_nonneg(n - 1, es);
    }
}

/// Appending one edge whose child is fresh lowers the root count by one.
proof fn lemma_count_roots_push(n: int, es: Seq<Edge>, e: Edge)
    requires
        !is_child(es, e.b as int),
        e.b < n,
    ensures
        count_roots(n, es.push(e)) == count_roots(n, es) - 1,
{
    assert forall|v: int| is_child(es.push(e), v) implies is_child(es, v) || v == e.b as int by {
        let t = choose|t: int| 0 <= t < es.push(e).len() && (#[trigger] es.push(e)[t]).b == v;
        if t < es.len() {
            assert(es[t].b == v);
        }
    }
    assert forall|v: int| is_child(es, v) implies is_child(es.push(e), v) by {
        let t = choose|t: int| 0 <= t < es.len() && (#[trigger] es[t]).b == v;
        assert(es.push(e)[t].b == v);
    }
    assert(es.push(e)[es.len() as int].b == e.b);
    assert(is_child(es.push(e), e.b as int));
    lemma_count_roots_diff(n, es, es.push(e), e.b as int);
}

/// Pointwise: if the child predicate changes exactly at `c`, gaining it,
/// the root count drops by one exactly when `c < n`.
proof fn lemma_count_roots_diff(n: int, es1: Seq<Edge>, es2: Seq<Edge>, c: int)
    requires
        forall|v: int| #![trigger is_child(es1, v)] #![trigger is_child(es2, v)]
            is_child(es2, v) <==> (is_child(es1, v) || v == c),
        !is_child(es1, c),
    ensures
        count_roots(n, es2) == count_roots(n, es1) - if c < n && c >= 0 {
            1int
        } else {
            0int
        },
    decreases n,
{
    if n > 0 {
        lemma_count_roots_diff(n - 1, es1, es2, c);
    }
}

/// In an ordered forest on `n` nodes, the roots number the nodes less the
/// edges: each edge connects exactly one new child.
pub proof fn lemma_forest_root_count(n: int, es: Seq<Edge>)
    requires
        n >= 0,
        forest_ordered(n, es),
    ensures
        count_roots(n, es) == n - es.len(),
        es.len() <= n,
    decreases es.len(),
{
    lemma_count_roots_nonneg(n, es);
    if es.len() == 0 {
        lemma_count_roots_empty(n, es);
    } else {
        let es0 = es.drop_last();
        let e = es.last();
        assert forall|i: int, j: int| 0 <= i <= j < es0.len() implies (#[trigger] es0[i]).a != (
        #[trigger] es0[j]).b by {
            assert(es[i].a != es[j].b);
        }
        assert forall|i: int, j: int| 0 <= i < j < es0.len() implies (#[trigger] es0[i]).b != (
        #[trigger] es0[j]).b by {
            assert(es[i].b != es[j].b);
        }
        assert forall|t: int| 0 <= t < es0.len() implies edge_valid(n, #[trigger] es0[t]) by {
            assert(edge_valid(n, es[t]));
        }
        assert(forest_ordered(n, es0));
        assert(!is_child(es0, e.b as int)) by {
            if is_child(es0, e.b as int) {
                let t = choose|t: int| 0 <= t < es0.len() && (#[trigger] es0[t]).b == e.b as int;
                assert(es[t].b == es[es.len() - 1].b);
            }
        }
        lemma_forest_root_count(n, es0);
        assert(es == es0.push(e));
        assert(edge_valid(n, es[es.len() - 1]));
        lemma_count_roots_push(n, es0, e);
    }
}

/// `u` and `v` are joined by an edge, in either orientation.
pub open spec fn adjacent(es: Seq<Edge>, u: int, v: int) -> bool {
    exists|t: int|
        0 <= t < es.len() && (((#[trigger] es[t]).a == u && es[t].b == v) || (es[t].a == v
            && es[t].b == u))
}

/// `p` walks from `u` to `v` along edges of `es`.
pub open spec fn is_path(es: Seq<Edge>, p: Seq<int>, u: int, v: int) -> bool {
    &&& p.len() >= 1
    &&& p[0] == u
    &&& p[p.len() - 1] == v
    &&& forall|x: int| 0 <= x < p.len() - 1 ==> adjacent(es, #[trigger] p[x], p[x + 1])
}

/// Some walk joins `u` to `v`.
pub open spec fn reachable(es: Seq<Edge>, u: int, v: int) -> bool {
    exists|p: Seq<int>| is_path(es, p, u, v)
}

/// Every node reaches itself.
pub proof fn lemma_reachable_refl(es: Seq<Edge>, u: int)
    ensures
        reachable(es, u, u),
{
    let p = seq![u];
    assert(is_path(es, p, u, u));
}

/// Adjacent nodes reach each other.
pub proof fn lemma_reachable_adjacent(es: Seq<Edge>, u: int, v: int)
    requires
        adjacent(es, u, v),
    ensures
        reachable(es, u, v),
{
    let p = seq![u, v];
    assert(p.len() == 2);
    assert(p[0] == u && p[1] == v);
    assert forall|x: int| 0 <= x < p.len() - 1 implies adjacent(es, #[trigger] p[x], p[x + 1]) by {
        assert(x == 0);
    }
    assert(is_path(es, p, u, v));
}

/// Reachability survives adding an edge.
pub proof fn lemma_reachable_push(es: Seq<Edge>, e: Edge, u: int, v: int)
    requires
        reachable(es, u, v),
    ensures
        reachable(es.push(e), u, v),
{
    let p = choose|p: Seq<int>| is_path(es, p, u, v);
    assert forall|x: int| 0 <= x < p.len() - 1 implies adjacent(es.push(e), #[trigger] p[x], p[x + 1]) by {
        let t = choose|t: int|
            0 <= t < es.len() && (((#[trigger] es[t]).a == p[x] && es[t].b == p[x + 1]) || (
            es[t].a == p[x + 1] && es[t].b == p[x]));
        assert(es.push(e)[t] == es[t]);
    }
    assert(is_path(es.push(e), p, u, v));
}

/// Reachability is symmetric: walks reverse.
pub proof fn lemma_reachable_sym(es: Seq<Edge>, u: int, v: int)
    requires
        reachable(es, u, v),
    ensures
        reachable(es, v, u),
{
    let p = choose|p: Seq<int>| is_path(es, p, u, v);
    let l = p.len() as int;
    let q = Seq::new(p.len(), |i: int| p[l - 1 - i]);
    assert(q[0] == v);
    assert(q[l - 1] == u);
    assert forall|x: int| 0 <= x < q.len() - 1 implies adjacent(es, #[trigger] q[x], q[x + 1]) by {
        assert(q[x] == p[l - 1 - x]);
        assert(q[x + 1] == p[l - 2 - x]);
        assert(adjacent(es, p[l - 2 - x], p[l - 1 - x]));
    }
    assert(is_path(es, q, v, u));
}

/// Reachability is transitive: walks concatenate.
pub proof fn lemma_reachable_trans(es: Seq<Edge>, u: int, v: int, w: int)
    requires
        reachable(es, u, v),
        reachable(es, v, w),
    ensures
        reachable(es, u, w),
{
    let p1 = choose|p: Seq<int>| is_path(es, p, u, v);
    let p2 = choose|p: Seq<int>| is_path(es, p, v, w);
    if p2.len() == 1 {
        assert(v == w);
    } else {
        let q = p1 + p2.skip(1);
        let l1 = p1.len() as int;
        assert(q.len() == l1 + p2.len() - 1);
        assert(q[0] == u);
        assert(q[q.len() - 1] == p2[p2.len() - 1]);
        assert forall|x: int| 0 <= x < q.len() - 1 implies adjacent(es, #[trigger] q[x], q[x + 1]) by {
            if x < l1 - 1 {
                assert(q[x] == p1[x]);
                assert(q[x + 1] == p1[x + 1]);
            } else if x == l1 - 1 {
                assert(q[x] == p1[l1 - 1]);
                assert(q[x + 1] == p2.skip(1)[0]);
                assert(p2.skip(1)[0] == p2[1]);
                assert(adjacent(es, p2[0], p2[1]));
            } else {
                assert(q[x] == p2.skip(1)[x - l1]);
                assert(q[x + 1] == p2.skip(1)[x + 1 - l1]);
                assert(q[x] == p2[x - l1 + 1]);
                assert(q[x + 1] == p2[x - l1 + 2]);
                assert(adjacent(es, p2[x - l1 + 1], p2[x - l1 + 2]));
            }
        }
        assert(is_path(es, q, u, w));
    }
}

/// Copies a record list; the copy denotes the same digit sequences.
pub fn clone_records(records: &Vec<Number>) -> (r: Vec<Number>)
    ensures
        r.deep_view() == records.deep_view(),
        r@.len() == records@.len(),
{
    let n = records.len();
    let mut out: Vec<Number> = Vec::new();
    let mut i: usize = 0;
    while i < n
        invariant
            n == records@.len(),
            0 <= i <= n,
            out@.len() == i,
            forall|j: int| 0 <= j < i ==> out.deep_view()[j] == records.deep_view()[j],
        decreases n - i,
    {
        let c = records[i].clone();
        proof {
            assert(c@ =~= records@[i as int]@);
        }
        let ghost prev = out.deep_view();
        out.push(c);
        proof {
            assert forall|j: int|
                0 <= j <= i implies out.deep_view()[j] == records.deep_view()[j] by {
                assert(out.deep_view()[j] == out@[j].deep_view());
                if j < i {
                    assert(out@[j].deep_view() == prev[j]);
                }
            }
        }
        i = i + 1;
    }
    proof {
        assert(out.deep_view() =~= records.deep_view());
    }
    out
}

/// Appending an edge adds exactly its child to the child relation.
pub proof fn lemma_is_child_push(es: Seq<Edge>, e: Edge)
    ensures
        forall|v: int| #[trigger] is_child(es.push(e), v) <==> (is_child(es, v) || v == e.b as int),
{
    assert forall|v: int| #[trigger] is_child(es.push(e), v) implies (is_child(es, v) || v
        == e.b as int) by {
        let t = choose|t: int| 0 <= t < es.push(e).len() && (#[trigger] es.push(e)[t]).b == v;
        if t < es.len() {
            assert(es[t].b == v);
        }
    }
    assert forall|v: int| is_child(es, v) || v == e.b as int implies #[trigger] is_child(
        es.push(e),
        v,
    ) by {
        if is_child(es, v) {
            let t = choose|t: int| 0 <= t < es.len() && (#[trigger] es[t]).b == v;
            assert(es.push(e)[t].b == v);
        } else {
            assert(es.push(e)[es.len() as int].b == v);
        }
    }
}

/// Builds the complete graph over the records: one node per record in input
/// order, and for every pair `i < j` exactly one edge `(i, j)`, weighted by
/// the Manhattan distance of the two records. Edges are laid out in
/// lexicographic `(i, j)` order, which fixes every later tie-break.
pub fn build_complete_graph(records: &Vec<Number>) -> (g: Graph)
    requires
        uniform(records.deep_view()),
    ensures
        g.nodes_dv() == records.deep_view(),
        g.wf(),
        pair_connected(g.n(), g.edges@),
        forall|t: int|
            0 <= t < g.edges@.len() ==> (#[trigger] g.edges@[t]).a < g.edges@[t].b
                && g.edges@[t].b < g.n() && g.edges@[t].w as int == dist_spec(
                g.nodes_dv()[g.edges@[t].a as int],
                g.nodes_dv()[g.edges@[t].b as int],
            ),
        forall|t1: int, t2: int|
            0 <= t1 < t2 < g.edges@.len() ==> edge_lex_before(
                #[trigger] g.edges@[t1],
                #[trigger] g.edges@[t2],
            ),
{
    let n = records.len();
    let nodes = clone_records(records);
    let mut edges: Vec<Edge> = Vec::new();
    let mut a: usize = 0;
    while a < n
        invariant
            n == records@.len(),
            nodes@.len() == n,
            nodes.deep_view() == records.deep_view(),
            uniform(records.deep_view()),
            0 <= a <= n,
            forall|t: int|
                0 <= t < edges@.len() ==> (#[trigger] edges@[t]).a < edges@[t].b && edges@[t].b < n
                    && edges@[t].w as int == dist_spec(
                    nodes.deep_view()[edges@[t].a as int],
                    nodes.deep_view()[edges@[t].b as int],
                ),
            forall|t: int| 0 <= t < edges@.len() ==> (#[trigger] edges@[t]).a < a,
            forall|t1: int, t2: int|
                0 <= t1 < t2 < edges@.len() ==> edge_lex_before(
                    #[trigger] edges@[t1],
                    #[trigger] edges@[t2],
                ),
            forall|p: int, q: int| 0 <= p < q < n && p < a ==> #[trigger] has_pair_edge(edges@, p, q),
        decreases n - a,
    {
        let mut b: usize = a + 1;
        while b < n
            invariant
                n == records@.len(),
                nodes@.len() == n,
                nodes.deep_view() == records.deep_view(),
                uniform(records.deep_view()),
                0 <= a < n,
                a + 1 <= b <= n,
                forall|t: int|
                    0 <= t < edges@.len() ==> (#[trigger] edges@[t]).a < edges@[t].b && edges@[t].b
                        < n && edges@[t].w as int == dist_spec(
                        nodes.deep_view()[edges@[t].a as int],
                        nodes.deep_view()[edges@[t].b as int],
                    ),
                forall|t: int|
                    0 <= t < edges@.len() ==> (#[trigger] edges@[t]).a < a || (edges@[t].a == a
                        && edges@[t].b < b),
                forall|t1: int, t2: int|
                    0 <= t1 < t2 < edges@.len() ==> edge_lex_before(
                        #[trigger] edges@[t1],
                        #[trigger] edges@[t2],
                    ),
                forall|p: int, q: int|
                    0 <= p < q < n && p < a ==> #[trigger] has_pair_edge(edges@, p, q),
                forall|q: int| a < q < b ==> #[trigger] has_pair_edge(edges@, a as int, q),
            decreases n - b,
        {
            proof {
                assert(nodes@[a as int]@ == nodes.deep_view()[a as int]);
                assert(nodes@[b as int]@ == nodes.deep_view()[b as int]);
                assert(records.deep_view()[a as int].len() == records.deep_view()[0].len());
                assert(records.deep_view()[b as int].len() == records.deep_view()[0].len());
            }
            let w = distance(&nodes[a], &nodes[b]);
            let ghost prev = edges@;
            edges.push(Edge { a, b, w });
            proof {
                assert forall|p: int, q: int|
                    (0 <= p < q < n && p < a) || (p == a && a < q < b + 1) implies
                    #[trigger] has_pair_edge(edges@, p, q) by {
                    if p == a as int && q == b as int {
                        assert(edges@[prev.len() as int].a == p && edges@[prev.len() as int].b
                            == q);
                    } else {
                        assert(has_pair_edge(prev, p, q));
                        let t = choose|t: int|
                            0 <= t < prev.len() && (#[trigger] prev[t]).a == p && prev[t].b == q;
                        assert(edges@[t].a == p && edges@[t].b == q);
                    }
                }
            }
            b = b + 1;
        }
        a = a + 1;
    }
    Graph { nodes, edges }
}

} // verus!
