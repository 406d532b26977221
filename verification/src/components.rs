//! Connected components of a pruned forest.
//!
//! The edges come in connection order (parent before child), so one pass
//! over them labels every node with the root of its component; nodes are
//! then grouped by label. Clusters are listed by ascending root ordinal and
//! hold their members by ascending node ordinal, so the output is stable.
//! Together the clusters use every node exactly once: the flattened output
//! is a permutation of the node records.

use vstd::prelude::*;
use vstd::multiset::Multiset;
use crate::Number;
use crate::graph::Edge;
use crate::graph::Graph;
use crate::graph::adjacent;
use crate::graph::count_roots;
use crate::graph::edge_valid;
use crate::graph::edges_valid;
use crate::graph::forest_ordered;
use crate::graph::is_child;
use crate::graph::is_path;
use crate::graph::lemma_reachable_adjacent;
use crate::graph::lemma_reachable_refl;
use crate::graph::lemma_reachable_sym;
use crate::graph::lemma_reachable_trans;
use crate::graph::reachable;

verus! {

broadcast use
    vstd::multiset::group_multiset_axioms,
    vstd::multiset::lemma_multiset_empty_len,
    vstd::seq_lib::to_multiset_build,
    vstd::seq_lib::to_multiset_len;

/// Some edge at position `t2 >= t` still has `v` as its child.
pub open spec fn pending(es: Seq<Edge>, v: int, t: int) -> bool {
    exists|t2: int| t <= t2 < es.len() && (#[trigger] es[t2]).b == v
}

/// The records among the first `i` nodes whose label is below `r`.
pub open spec fn sel_lt_ms(nodes: Seq<Seq<u8>>, label: Seq<usize>, r: int, i: int) -> Multiset<
    Seq<u8>,
>
    decreases i,
{
    if i <= 0 {
        Multiset::empty()
    } else if (label[i - 1] as int) < r {
        sel_lt_ms(nodes, label, r, i - 1).insert(nodes[i - 1])
    } else {
        sel_lt_ms(nodes, label, r, i - 1)
    }
}

/// The records among the first `i` nodes whose label equals `r`.
pub open spec fn sel_eq_ms(nodes: Seq<Seq<u8>>, label: Seq<usize>, r: int, i: int) -> Multiset<
    Seq<u8>,
>
    decreases i,
{
    if i <= 0 {
        Multiset::empty()
    } else if label[i - 1] as int == r {
        sel_eq_ms(nodes, label, r, i - 1).insert(nodes[i - 1])
    } else {
        sel_eq_ms(nodes, label, r, i - 1)
    }
}

proof fn lemma_sel_split(nodes: Seq<Seq<u8>>, label: Seq<usize>, r: int, i: int)
    requires
        0 <= i,
    ensures
        sel_lt_ms(nodes, label, r + 1, i) =~= sel_lt_ms(nodes, label, r, i).add(
            sel_eq_ms(nodes, label, r, i),
        ),
    decreases i,
{
    if i > 0 {
        lemma_sel_split(nodes, label, r, i - 1);
    }
}

proof fn lemma_sel_eq_empty(nodes: Seq<Seq<u8>>, label: Seq<usize>, r: int, i: int)
    requires
        0 <= i,
        forall|u: int| 0 <= u < i ==> (#[trigger] label[u]) as int != r,
    ensures
        sel_eq_ms(nodes, label, r, i) =~= Multiset::empty(),
    decreases i,
{
    if i > 0 {
        lemma_sel_eq_empty(nodes, label, r, i - 1);
    }
}

proof fn lemma_sel_lt_empty(nodes: Seq<Seq<u8>>, label: Seq<usize>, r: int, i: int)
    requires
        0 <= i,
        r <= 0,
    ensures
        sel_lt_ms(nodes, label, r, i) =~= Multiset::empty(),
    decreases i,
{
    if i > 0 {
        lemma_sel_lt_empty(nodes, label, r, i - 1);
    }
}

proof fn lemma_sel_lt_all(nodes: Seq<Seq<u8>>, label: Seq<usize>, n: int, i: int)
    requires
        0 <= i <= nodes.len(),
        forall|u: int| 0 <= u < i ==> ((#[trigger] label[u]) as int) < n,
    ensures
        sel_lt_ms(nodes, label, n, i) =~= nodes.take(i).to_multiset(),
    decreases i,
{
    if i > 0 {
        lemma_sel_lt_all(nodes, label, n, i - 1);
        assert(nodes.take(i) =~= nodes.take(i - 1).push(nodes[i - 1]));
    } else {
        assert(nodes.take(0) =~= Seq::<Seq<u8>>::empty());
        assert(Seq::<Seq<u8>>::empty().to_multiset().len() == 0);
        assert(Seq::<Seq<u8>>::empty().to_multiset() =~= Multiset::<Seq<u8>>::empty());
    }
}

/// The total number of records over a cluster list.
pub open spec fn sum_lens(cs: Seq<Seq<Seq<u8>>>) -> int
    decreases cs.len(),
{
    if cs.len() == 0 {
        0int
    } else {
        sum_lens(cs.drop_last()) + cs.last().len()
    }
}

/// The cluster sizes sum to the length of the flattened cluster list.
pub proof fn lemma_sum_lens_flatten(cs: Seq<Seq<Seq<u8>>>)
    ensures
        sum_lens(cs) == cs.flatten().len(),
    decreases cs.len(),
{
    if cs.len() == 0 {
        assert(cs.flatten() =~= Seq::<Seq<u8>>::empty());
    } else {
        let cs0 = cs.drop_last();
        lemma_sum_lens_flatten(cs0);
        cs0.lemma_flatten_push(cs.last());
        assert(cs0.push(cs.last()) =~= cs);
    }
}

/// The node labels after processing the first `t` edges: each child takes
/// its parent's label, so after all edges every node carries its root.
pub open spec fn labels_spec(n: int, es: Seq<Edge>, t: int) -> Seq<usize>
    decreases t,
{
    if t <= 0 {
        Seq::new(n as nat, |v: int| v as usize)
    } else {
        let l = labels_spec(n, es, t - 1);
        l.update(es[t - 1].b as int, l[es[t - 1].a as int])
    }
}

/// The labels after processing every edge.
pub open spec fn final_labels(n: int, es: Seq<Edge>) -> Seq<usize> {
    labels_spec(n, es, es.len() as int)
}

/// The records among the first `i` nodes labelled `r`, by ascending ordinal.
pub open spec fn members_of(nodes: Seq<Seq<u8>>, lab: Seq<usize>, r: int, i: int) -> Seq<Seq<u8>>
    decreases i,
{
    if i <= 0 {
        Seq::empty()
    } else if lab[i - 1] as int == r {
        members_of(nodes, lab, r, i - 1).push(nodes[i - 1])
    } else {
        members_of(nodes, lab, r, i - 1)
    }
}

/// One cluster per self-labelled node (a root) among the first `r` nodes,
/// by ascending root ordinal.
pub open spec fn clusters_spec(nodes: Seq<Seq<u8>>, lab: Seq<usize>, r: int) -> Seq<Seq<Seq<u8>>>
    decreases r,
{
    if r <= 0 {
        Seq::empty()
    } else {
        let cs = clusters_spec(nodes, lab, r - 1);
        if lab[r - 1] as int == r - 1 {
            cs.push(members_of(nodes, lab, r - 1, nodes.len() as int))
        } else {
            cs
        }
    }
}

proof fn lemma_labels_bounds(n: int, es: Seq<Edge>, t: int)
    requires
        0 <= n <= usize::MAX,
        edges_valid(n, es),
        0 <= t <= es.len(),
    ensures
        labels_spec(n, es, t).len() == n,
        forall|v: int| 0 <= v < n ==> ((#[trigger] labels_spec(n, es, t)[v]) as int) < n,
    decreases t,
{
    if t > 0 {
        lemma_labels_bounds(n, es, t - 1);
        assert(edge_valid(n, es[t - 1]));
    }
}

proof fn lemma_labels_reachable(n: int, es: Seq<Edge>, t: int)
    requires
        0 <= n <= usize::MAX,
        edges_valid(n, es),
        0 <= t <= es.len(),
    ensures
        forall|v: int|
            0 <= v < n ==> reachable(es, v, (#[trigger] labels_spec(n, es, t)[v]) as int),
    decreases t,
{
    lemma_labels_bounds(n, es, t);
    if t == 0 {
        assert forall|v: int|
            0 <= v < n implies reachable(es, v, (#[trigger] labels_spec(n, es, t)[v]) as int) by {
            lemma_reachable_refl(es, v);
        }
    } else {
        lemma_labels_reachable(n, es, t - 1);
        lemma_labels_bounds(n, es, t - 1);
        let e = es[t - 1];
        assert(edge_valid(n, e));
        let l0 = labels_spec(n, es, t - 1);
        assert forall|v: int|
            0 <= v < n implies reachable(es, v, (#[trigger] labels_spec(n, es, t)[v]) as int) by {
            if v == e.b as int {
                assert(adjacent(es, e.b as int, e.a as int));
                lemma_reachable_adjacent(es, e.b as int, e.a as int);
                assert(reachable(es, e.a as int, l0[e.a as int] as int));
                lemma_reachable_trans(es, e.b as int, e.a as int, l0[e.a as int] as int);
                assert(labels_spec(n, es, t)[v] == l0[e.a as int]);
            } else {
                assert(labels_spec(n, es, t)[v] == l0[v]);
            }
        }
    }
}

proof fn lemma_labels_stable(n: int, es: Seq<Edge>, v: int, t1: int, t2: int)
    requires
        0 <= n <= usize::MAX,
        edges_valid(n, es),
        0 <= t1 <= t2 <= es.len(),
        0 <= v < n,
        forall|s: int| t1 <= s < t2 ==> ((#[trigger] es[s]).b as int) != v,
    ensures
        labels_spec(n, es, t2)[v] == labels_spec(n, es, t1)[v],
    decreases t2 - t1,
{
    if t2 > t1 {
        lemma_labels_stable(n, es, v, t1, t2 - 1);
        lemma_labels_bounds(n, es, t2 - 1);
        assert(es[t2 - 1].b as int != v);
    }
}

/// The two endpoints of any forest edge carry one final label.
proof fn lemma_edge_same_label(n: int, es: Seq<Edge>, t: int)
    requires
        0 <= n <= usize::MAX,
        forest_ordered(n, es),
        0 <= t < es.len(),
    ensures
        final_labels(n, es)[es[t].a as int] == final_labels(n, es)[es[t].b as int],
{
    let e = es[t];
    assert(edge_valid(n, e));
    lemma_labels_bounds(n, es, t);
    lemma_labels_bounds(n, es, t + 1);
    assert forall|s: int| t <= s < es.len() implies ((#[trigger] es[s]).b as int) != e.a as int by {
        assert(es[t].a != es[s].b);
    }
    lemma_labels_stable(n, es, e.a as int, t, es.len() as int);
    assert forall|s: int|
        t + 1 <= s < es.len() implies ((#[trigger] es[s]).b as int) != e.b as int by {
        assert(es[t].b != es[s].b);
    }
    lemma_labels_stable(n, es, e.b as int, t + 1, es.len() as int);
    assert(labels_spec(n, es, t + 1)[e.b as int] == labels_spec(n, es, t)[e.a as int]);
    assert(labels_spec(n, es, t + 1)[e.a as int] == labels_spec(n, es, t)[e.a as int]) by {
        assert(e.a != e.b);
    }
}

proof fn lemma_path_same_label(n: int, es: Seq<Edge>, p: Seq<int>, u: int, v: int)
    requires
        0 <= n <= usize::MAX,
        forest_ordered(n, es),
        is_path(es, p, u, v),
        0 <= u < n,
    ensures
        final_labels(n, es)[u] == final_labels(n, es)[v],
    decreases p.len(),
{
    if p.len() > 1 {
        assert(adjacent(es, p[0], p[1]));
        let t = choose|t: int|
            0 <= t < es.len() && (((#[trigger] es[t]).a == p[0] && es[t].b == p[1]) || (es[t].a
                == p[1] && es[t].b == p[0]));
        assert(edge_valid(n, es[t]));
        lemma_edge_same_label(n, es, t);
        let q = p.skip(1);
        assert(q[0] == p[1]);
        assert(q[q.len() - 1] == p[p.len() - 1]);
        assert forall|x: int| 0 <= x < q.len() - 1 implies adjacent(es, #[trigger] q[x], q[x + 1]) by {
            assert(q[x] == p[x + 1]);
            assert(q[x + 1] == p[x + 2]);
            assert(adjacent(es, p[x + 1], p[x + 2]));
        }
        assert(is_path(es, q, p[1], v));
        lemma_path_same_label(n, es, q, p[1], v);
    }
}

/// In an ordered forest, two nodes carry one final label exactly when a walk
/// joins them: the clusters grouped by final label are the graph's connected
/// components.
pub proof fn lemma_clusters_are_components(n: int, es: Seq<Edge>)
    requires
        0 <= n <= usize::MAX,
        forest_ordered(n, es),
    ensures
        forall|u: int, v: int|
            0 <= u < n && 0 <= v < n ==> (final_labels(n, es)[u] == final_labels(n, es)[v]
                <==> reachable(es, u, v)),
{
    lemma_labels_bounds(n, es, es.len() as int);
    lemma_labels_reachable(n, es, es.len() as int);
    assert forall|u: int, v: int|
        0 <= u < n && 0 <= v < n implies (final_labels(n, es)[u] == final_labels(n, es)[v]
        <==> reachable(es, u, v)) by {
        let lab = final_labels(n, es);
        if lab[u] == lab[v] {
            assert(reachable(es, u, lab[u] as int));
            assert(reachable(es, v, lab[v] as int));
            lemma_reachable_sym(es, v, lab[v] as int);
            lemma_reachable_trans(es, u, lab[u] as int, v);
        }
        if reachable(es, u, v) {
            let p = choose|p: Seq<int>| is_path(es, p, u, v);
            lemma_path_same_label(n, es, p, u, v);
        }
    }
}

/// `x` is one of the node records.
pub open spec fn from_nodes(x: Seq<u8>, nodes: Seq<Seq<u8>>) -> bool {
    exists|u: int| 0 <= u < nodes.len() && x == nodes[u]
}

/// Partitions the nodes of an ordered forest into its connected components.
/// Clusters are listed by ascending root ordinal, members by ascending node
/// ordinal; there are as many clusters as the forest has roots, each is
/// non-empty, every member is a node record, and the clusters jointly use
/// every node exactly once.
pub fn connected_components(g: &Graph) -> (cs: Vec<Vec<Number>>)
    requires
        forest_ordered(g.n(), g.edges@),
    ensures
        cs@.len() == count_roots(g.n(), g.edges@),
        forall|ci: int| 0 <= ci < cs@.len() ==> (#[trigger] cs.deep_view()[ci]).len() >= 1,
        cs.deep_view().flatten().to_multiset() == g.nodes_dv().to_multiset(),
        cs.deep_view() == clusters_spec(g.nodes_dv(), final_labels(g.n(), g.edges@), g.n()),
        forall|ci: int, j: int|
            0 <= ci < cs@.len() && 0 <= j < cs.deep_view()[ci].len() ==> #[trigger] from_nodes(
                cs.deep_view()[ci][j],
                g.nodes_dv(),
            ),
{
    let n = g.nodes.len();
    let ghost es = g.edges@;
    let ghost nodes_dv = g.nodes_dv();
    let mut label: Vec<usize> = Vec::new();
    let mut v: usize = 0;
    while v < n
        invariant
            0 <= v <= n,
            label@.len() == v,
            forall|u: int| 0 <= u < v ==> (#[trigger] label@[u]) as int == u,
        decreases n - v,
    {
        label.push(v);
        v = v + 1;
    }
    proof {
        assert(label@ =~= labels_spec(n as int, es, 0));
    }
    let len = g.edges.len();
    let mut t: usize = 0;
    while t < len
        invariant
            n == g.nodes@.len(),
            es == g.edges@,
            len == es.len(),
            forest_ordered(n as int, es),
            0 <= t <= len,
            label@.len() == n,
            forall|u: int| 0 <= u < n ==> (#[trigger] label@[u]) < n,
            forall|u: int| 0 <= u < n && !is_child(es, u) ==> (#[trigger] label@[u]) as int == u,
            forall|u: int| 0 <= u < n && pending(es, u, t as int) ==> (#[trigger] label@[u]) as int == u,
            forall|u: int|
                0 <= u < n && !pending(es, u, t as int) ==> !is_child(es, (#[trigger] label@[u]) as int),
            label@ == labels_spec(n as int, es, t as int),
        decreases len - t,
    {
        let e = g.edges[t];
        proof {
            assert(edge_valid(n as int, es[t as int]));
            assert(!pending(es, e.a as int, t as int)) by {
                if pending(es, e.a as int, t as int) {
                    let t2 = choose|t2: int|
                        t <= t2 < es.len() && (#[trigger] es[t2]).b == e.a as int;
                    assert(es[t as int].a != es[t2].b);
                }
            }
        }
        let lp = label[e.a];
        let ghost prev = label@;
        label.set(e.b, lp);
        proof {
            assert(is_child(es, e.b as int)) by {
                assert(es[t as int].b == e.b);
            }
            assert forall|u: int|
                0 <= u < n && pending(es, u, t as int + 1) implies (#[trigger] label@[u]) as int
                == u by {
                let t2 = choose|t2: int| t + 1 <= t2 < es.len() && (#[trigger] es[t2]).b == u;
                assert(es[t as int].b != es[t2].b);
                assert(label@[u] == prev[u]);
                assert(pending(es, u, t as int));
            }
            assert forall|u: int|
                0 <= u < n && !pending(es, u, t as int + 1) implies !is_child(
                es,
                (#[trigger] label@[u]) as int,
            ) by {
                if u == e.b as int {
                    assert(label@[u] == prev[e.a as int]);
                } else {
                    assert(label@[u] == prev[u]);
                    assert(!pending(es, u, t as int)) by {
                        if pending(es, u, t as int) {
                            let t2 = choose|t2: int|
                                t <= t2 < es.len() && (#[trigger] es[t2]).b == u;
                            assert(t2 == t as int || pending(es, u, t as int + 1));
                        }
                    }
                }
            }
        }
        t = t + 1;
    }
    proof {
        assert forall|u: int| 0 <= u < n implies !is_child(es, (#[trigger] label@[u]) as int) by {
            assert(!pending(es, u, len as int));
        }
        assert forall|u: int|
            0 <= u < n implies ((#[trigger] label@[u]) as int == u <==> !is_child(es, u)) by {
            if label@[u] as int == u {
                assert(!is_child(es, label@[u] as int));
            }
        }
    }
    let ghost lab = label@;
    let mut clusters: Vec<Vec<Number>> = Vec::new();
    proof {
        lemma_sel_lt_empty(nodes_dv, lab, 0, n as int);
        assert(clusters.deep_view() =~= Seq::<Seq<Seq<u8>>>::empty());
        assert(clusters.deep_view().flatten() =~= Seq::<Seq<u8>>::empty());
        assert(clusters.deep_view().flatten().to_multiset().len() == 0);
        assert(clusters.deep_view().flatten().to_multiset() =~= Multiset::<Seq<u8>>::empty());
    }
    let mut r: usize = 0;
    while r < n
        invariant
            n == g.nodes@.len(),
            es == g.edges@,
            nodes_dv == g.nodes_dv(),
            0 <= r <= n,
            label@ == lab,
            label@.len() == n,
            lab == final_labels(n as int, es),
            forall|u: int| 0 <= u < n ==> (#[trigger] lab[u]) < n,
            forall|u: int| 0 <= u < n ==> ((#[trigger] lab[u]) as int == u <==> !is_child(es, u)),
            forall|u: int| 0 <= u < n ==> !is_child(es, (#[trigger] lab[u]) as int),
            clusters@.len() == count_roots(r as int, es),
            clusters.deep_view() == clusters_spec(nodes_dv, lab, r as int),
            clusters.deep_view().flatten().to_multiset() == sel_lt_ms(
                nodes_dv,
                lab,
                r as int,
                n as int,
            ),
            forall|ci: int|
                0 <= ci < clusters@.len() ==> (#[trigger] clusters.deep_view()[ci]).len() >= 1,
            forall|ci: int, j: int|
                0 <= ci < clusters@.len() && 0 <= j < clusters.deep_view()[ci].len()
                    ==> #[trigger] from_nodes(clusters.deep_view()[ci][j], nodes_dv),
        decreases n - r,
    {
        let lr = label[r];
        if lr == r {
            let mut c: Vec<Number> = Vec::new();
            proof {
                assert(c.deep_view() =~= Seq::<Seq<u8>>::empty());
                assert(c.deep_view().to_multiset().len() == 0);
                assert(c.deep_view().to_multiset() =~= Multiset::<Seq<u8>>::empty());
                assert(c.deep_view() =~= members_of(nodes_dv, lab, r as int, 0));
            }
            let mut u: usize = 0;
            while u < n
                invariant
                    n == g.nodes@.len(),
                    nodes_dv == g.nodes_dv(),
                    label@ == lab,
                    label@.len() == n,
                    0 <= u <= n,
                    r < n,
                    lab[r as int] == r,
                    c.deep_view().to_multiset() == sel_eq_ms(nodes_dv, lab, r as int, u as int),
                    c.deep_view() == members_of(nodes_dv, lab, r as int, u as int),
                    u > r ==> c@.len() >= 1,
                    nodes_dv.len() == n,
                    forall|j: int|
                        0 <= j < c@.len() ==> #[trigger] from_nodes(c.deep_view()[j], nodes_dv),
                decreases n - u,
            {
                let ghost prevc = c.deep_view();
                if label[u] == r {
                    let rec = g.nodes[u].clone();
                    proof {
                        assert(rec@ =~= g.nodes@[u as int]@);
                        assert(g.nodes@[u as int]@ == nodes_dv[u as int]);
                    }
                    c.push(rec);
                    proof {
                        assert forall|j: int|
                            0 <= j < c@.len() implies c.deep_view()[j] == prevc.push(
                            nodes_dv[u as int],
                        )[j] by {
                            assert(c.deep_view()[j] == c@[j].deep_view());
                            if j < prevc.len() {
                                assert(prevc[j] == c@[j].deep_view());
                            }
                        }
                        assert(c.deep_view() =~= prevc.push(nodes_dv[u as int]));
                        assert(c.deep_view().to_multiset() =~= prevc.to_multiset().insert(
                            nodes_dv[u as int],
                        ));
                        assert forall|j: int|
                            0 <= j < c@.len() implies #[trigger] from_nodes(
                            c.deep_view()[j],
                            nodes_dv,
                        ) by {
                            if j < prevc.len() {
                                assert(c.deep_view()[j] == prevc[j]);
                                assert(from_nodes(prevc[j], nodes_dv));
                            } else {
                                assert(c.deep_view()[j] == nodes_dv[u as int]);
                                assert(nodes_dv[u as int] == nodes_dv[u as int]);
                            }
                        }
                    }
                } else {
                    proof {
                        assert(c.deep_view() =~= prevc);
                    }
                }
                u = u + 1;
            }
            let ghost prevcs = clusters.deep_view();
            let ghost cdv = c.deep_view();
            clusters.push(c);
            proof {
                assert(clusters.deep_view() =~= prevcs.push(cdv)) by {
                    assert forall|ci: int|
                        0 <= ci < clusters@.len() implies clusters.deep_view()[ci]
                        == prevcs.push(cdv)[ci] by {
                        assert(clusters.deep_view()[ci] == clusters@[ci].deep_view());
                        if ci < prevcs.len() {
                            assert(prevcs[ci] == clusters@[ci].deep_view());
                        }
                    }
                }
                prevcs.lemma_flatten_push(cdv);
                vstd::seq_lib::lemma_multiset_commutative(prevcs.flatten(), cdv);
                lemma_sel_split(nodes_dv, lab, r as int, n as int);
                assert(!is_child(es, r as int));
                assert(clusters.deep_view().flatten().to_multiset() =~= sel_lt_ms(
                    nodes_dv,
                    lab,
                    r as int + 1,
                    n as int,
                ));
                assert(cdv.len() >= 1);
                assert forall|ci: int, j: int|
                    0 <= ci < clusters@.len() && 0 <= j < clusters.deep_view()[ci].len() implies
                    #[trigger] from_nodes(clusters.deep_view()[ci][j], nodes_dv) by {
                    if ci < prevcs.len() {
                        assert(clusters.deep_view()[ci] == prevcs[ci]);
                        assert(from_nodes(prevcs[ci][j], nodes_dv));
                    } else {
                        assert(clusters.deep_view()[ci] == cdv);
                        assert(from_nodes(cdv[j], nodes_dv));
                    }
                }
            }
        } else {
            proof {
                assert(is_child(es, r as int));
                assert forall|u: int| 0 <= u < n implies (#[trigger] lab[u]) as int != r as int by {
                    if lab[u] as int == r as int {
                        assert(!is_child(es, lab[u] as int));
                    }
                }
                lemma_sel_eq_empty(nodes_dv, lab, r as int, n as int);
                lemma_sel_split(nodes_dv, lab, r as int, n as int);
                assert(clusters.deep_view().flatten().to_multiset() =~= sel_lt_ms(
                    nodes_dv,
                    lab,
                    r as int + 1,
                    n as int,
                ));
            }
        }
        r = r + 1;
    }
    proof {
        lemma_sel_lt_all(nodes_dv, lab, n as int, n as int);
        assert(nodes_dv.take(n as int) =~= nodes_dv);
        assert(clusters.deep_view().flatten().to_multiset() =~= nodes_dv.to_multiset());
    }
    clusters
}

} // verus!
