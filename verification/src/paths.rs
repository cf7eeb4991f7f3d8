//! Lemmas about walks and reachability in the graph store: transitivity,
//! how reachability behaves when edges are inserted or removed, and the
//! closure argument behind the executable reachability search.

use vstd::prelude::*;

use crate::graph::Graph;

verus! {

/// A single live edge is a walk.
pub proof fn lemma_edge_reaches(g: Graph, u: int, v: int)
    requires
        g.edge_between(u, v),
    ensures
        g.reaches(u, v),
{
    let p = seq![u, v];
    assert forall|k: int| #![trigger p[k]] 0 <= k < p.len() - 1 implies g.edge_between(p[k], p[k + 1]) by {
        assert(k == 0);
        assert(p[0] == u && p[1] == v);
    }
    assert(g.is_walk(p) && p.first() == u && p.last() == v);
}

/// Walks compose: if `u` reaches `v` and `v` reaches `w`, then `u` reaches
/// `w`.
pub proof fn lemma_reaches_trans(g: Graph, u: int, v: int, w: int)
    requires
        g.reaches(u, v),
        g.reaches(v, w),
    ensures
        g.reaches(u, w),
{
    let p1 = choose|p: Seq<int>| g.is_walk(p) && p.first() == u && p.last() == v;
    let p2 = choose|p: Seq<int>| g.is_walk(p) && p.first() == v && p.last() == w;
    let p = p1 + p2.drop_first();
    assert(p.len() == p1.len() + p2.len() - 1);
    assert forall|k: int| #![trigger p[k]] 0 <= k < p.len() - 1 implies g.edge_between(p[k], p[k + 1]) by {
        if k < p1.len() - 1 {
            assert(p[k] == p1[k] && p[k + 1] == p1[k + 1]);
            assert(g.edge_between(p1[k], p1[k + 1]));
        } else if k == p1.len() - 1 {
            assert(p[k] == p1[p1.len() - 1]);
            assert(p[k + 1] == p2[1]);
            assert(g.edge_between(p2[0], p2[1]));
            assert(p2[0] == v && p1[p1.len() - 1] == v);
        } else {
            let j = k - p1.len();
            assert(p[k] == p2[j + 1] && p[k + 1] == p2[j + 2]);
            assert(g.edge_between(p2[j + 1], p2[j + 1 + 1]));
        }
    }
    assert(g.is_walk(p));
    assert(p.first() == u && p.last() == w);
}

/// A walk extends by one edge at its end.
pub proof fn lemma_reaches_extend(g: Graph, u: int, v: int, w: int)
    requires
        g.reaches(u, v),
        g.edge_between(v, w),
    ensures
        g.reaches(u, w),
{
    lemma_edge_reaches(g, v, w);
    lemma_reaches_trans(g, u, v, w);
}

/// A single data edge is a data walk.
pub proof fn lemma_data_edge_reaches(g: Graph, u: int, v: int)
    requires
        g.data_parent(u, v),
    ensures
        g.data_reaches(u, v),
{
    let p = seq![u, v];
    assert forall|k: int| #![trigger p[k]] 0 <= k < p.len() - 1 implies g.data_parent(
        p[k],
        p[k + 1],
    ) by {
        assert(k == 0);
        assert(p[0] == u && p[1] == v);
    }
    assert(g.is_data_walk(p) && p.first() == u && p.last() == v);
}

/// Data walks compose.
pub proof fn lemma_data_reaches_trans(g: Graph, u: int, v: int, w: int)
    requires
        g.data_reaches(u, v),
        g.data_reaches(v, w),
    ensures
        g.data_reaches(u, w),
{
    let p1 = choose|p: Seq<int>| g.is_data_walk(p) && p.first() == u && p.last() == v;
    let p2 = choose|p: Seq<int>| g.is_data_walk(p) && p.first() == v && p.last() == w;
    let p = p1 + p2.drop_first();
    assert(p.len() == p1.len() + p2.len() - 1);
    assert forall|k: int| #![trigger p[k]] 0 <= k < p.len() - 1 implies g.data_parent(
        p[k],
        p[k + 1],
    ) by {
        if k < p1.len() - 1 {
            assert(p[k] == p1[k] && p[k + 1] == p1[k + 1]);
            assert(g.data_parent(p1[k], p1[k + 1]));
        } else if k == p1.len() - 1 {
            assert(p[k] == p1[p1.len() - 1]);
            assert(p[k + 1] == p2[1]);
            assert(g.data_parent(p2[0], p2[1]));
            assert(p2[0] == v && p1[p1.len() - 1] == v);
        } else {
            let j = k - p1.len();
            assert(p[k] == p2[j + 1] && p[k + 1] == p2[j + 2]);
            assert(g.data_parent(p2[j + 1], p2[j + 1 + 1]));
        }
    }
    assert(g.is_data_walk(p));
    assert(p.first() == u && p.last() == w);
}

/// Two graphs with the same live edges admit the same data walks.
pub proof fn lemma_same_edges_same_data_reach(g1: Graph, g2: Graph)
    requires
        forall|e: int| g1.live_edge(e) <==> g2.live_edge(e),
        forall|e: int| g1.live_edge(e) ==> g1.edge_at(e) == g2.edge_at(e),
    ensures
        forall|u: int, v: int| g1.data_reaches(u, v) ==> #[trigger] g2.data_reaches(u, v),
{
    assert forall|u: int, v: int| g1.data_reaches(u, v) implies #[trigger] g2.data_reaches(
        u,
        v,
    ) by {
        let p = choose|p: Seq<int>| g1.is_data_walk(p) && p.first() == u && p.last() == v;
        assert forall|k: int| #![trigger p[k]] 0 <= k < p.len() - 1 implies g2.data_parent(
            p[k],
            p[k + 1],
        ) by {
            assert(g1.data_parent(p[k], p[k + 1]));
            let a = p[k];
            let b = p[k + 1];
            let e = choose|e: int| g1.data_edge_connects(e, a, b);
            assert(g2.data_edge_connects(e, a, b));
        }
        assert(g2.is_data_walk(p));
    }
}

/// A node with no outgoing live edge reaches nothing.
pub proof fn lemma_no_out_edges(g: Graph, u: int)
    requires
        forall|e: int| #[trigger] g.live_edge(e) ==> g.edge_at(e).from != u,
    ensures
        forall|v: int| !g.reaches(u, v),
{
    assert forall|v: int| !g.reaches(u, v) by {
        if g.reaches(u, v) {
            let p = choose|p: Seq<int>| g.is_walk(p) && p.first() == u && p.last() == v;
            assert(g.edge_between(p[0], p[0int + 1]));
            let a = p[0];
            let b = p[0int + 1];
            let e = choose|e: int| g.edge_connects(e, a, b);
            assert(false);
        }
    }
}

/// Every node on a walk out of a closed set stays inside the set: if the
/// set contains the walk's start and is closed under following live edges,
/// it contains every node the walk visits.
pub proof fn lemma_closed_set_walk(g: Graph, vset: Seq<bool>, p: Seq<int>, k: int)
    requires
        g.edges_wf(),
        vset.len() == g.nodes.len(),
        forall|e: int| #[trigger] g.live_edge(e) && vset[g.edge_at(e).from as int]
            ==> vset[g.edge_at(e).to as int],
        g.is_walk(p),
        0 <= p.first() < vset.len(),
        vset[p.first()],
        0 <= k < p.len(),
    ensures
        0 <= p[k] < vset.len(),
        vset[p[k]],
    decreases k,
{
    if k > 0 {
        lemma_closed_set_walk(g, vset, p, k - 1);
        assert(g.edge_between(p[k - 1], p[k - 1 + 1]));
        let a = p[k - 1];
        let b = p[k];
        let e = choose|e: int| g.edge_connects(e, a, b);
        assert(g.live_node(g.edge_at(e).to as int));
    }
}

/// If a closed set contains `src` but not `dst`, then `src` does not reach
/// `dst`.
pub proof fn lemma_closed_set_unreachable(g: Graph, vset: Seq<bool>, src: int, dst: int)
    requires
        g.edges_wf(),
        vset.len() == g.nodes.len(),
        forall|e: int| #[trigger] g.live_edge(e) && vset[g.edge_at(e).from as int]
            ==> vset[g.edge_at(e).to as int],
        0 <= src < vset.len(),
        vset[src],
        !(0 <= dst < vset.len() && vset[dst]),
    ensures
        !g.reaches(src, dst),
{
    if g.reaches(src, dst) {
        let p = choose|p: Seq<int>| g.is_walk(p) && p.first() == src && p.last() == dst;
        lemma_closed_set_walk(g, vset, p, p.len() - 1);
        assert(false);
    }
}

/// `g2` holds every live edge of `g1`, and at most one more, which runs
/// from `a` to `b`.
pub open spec fn edge_extension(g1: Graph, g2: Graph, a: int, b: int) -> bool {
    &&& forall|e: int| #[trigger] g1.live_edge(e) ==> g2.live_edge(e) && g2.edge_at(e)
        == g1.edge_at(e)
    &&& forall|e: int| #[trigger] g2.live_edge(e) ==> g1.live_edge(e) || (g2.edge_at(e).from == a
        && g2.edge_at(e).to == b)
}

/// Any walk in a graph extended by the edge `a -> b` either already existed,
/// or can be split at the new edge: the walk's start reaches `a` and `b`
/// reaches the walk's end, in the original graph.
pub proof fn lemma_walk_decompose(g1: Graph, g2: Graph, a: int, b: int, p: Seq<int>)
    requires
        edge_extension(g1, g2, a, b),
        g2.is_walk(p),
    ensures
        g1.is_walk(p) || (g1.reaches_or_eq(p.first(), a) && g1.reaches_or_eq(b, p.last())),
    decreases p.len(),
{
    if p.len() == 2 {
        assert(g2.edge_between(p[0], p[0int + 1]));
        let x = p[0];
        let y = p[1int];
        let e = choose|e: int| g2.edge_connects(e, x, y);
        if g1.live_edge(e) {
            assert(g1.edge_connects(e, x, y));
            assert forall|k: int| #![trigger p[k]] 0 <= k < p.len() - 1 implies g1.edge_between(p[k], p[k + 1]) by {
                assert(k == 0);
            }
            assert(g1.is_walk(p));
        } else {
            assert(x == a && y == b);
        }
    } else {
        let q = p.drop_last();
        assert forall|k: int| #![trigger q[k]] 0 <= k < q.len() - 1 implies g2.edge_between(q[k], q[k + 1]) by {
            assert(q[k] == p[k] && q[k + 1] == p[k + 1]);
            assert(g2.edge_between(p[k], p[k + 1]));
        }
        assert(g2.is_walk(q));
        lemma_walk_decompose(g1, g2, a, b, q);
        let u2 = p[p.len() - 2];
        let v2 = p[p.len() - 1];
        assert(g2.edge_between(p[p.len() - 2], p[p.len() - 2 + 1]));
        let e = choose|e: int| g2.edge_connects(e, u2, v2);
        assert(q.last() == u2 && q.first() == p.first());
        if g1.live_edge(e) {
            assert(g1.edge_connects(e, u2, v2));
            if g1.is_walk(q) {
                assert forall|k: int| #![trigger p[k]] 0 <= k < p.len() - 1 implies g1.edge_between(
                    p[k],
                    p[k + 1],
                ) by {
                    if k < q.len() - 1 {
                        assert(g1.edge_between(q[k], q[k + 1]));
                        assert(q[k] == p[k] && q[k + 1] == p[k + 1]);
                    } else {
                        assert(k == p.len() - 2);
                    }
                }
                assert(g1.is_walk(p));
            } else {
                assert(g1.reaches_or_eq(p.first(), a) && g1.reaches_or_eq(b, q.last()));
                if b == u2 {
                    lemma_edge_reaches(g1, u2, v2);
                } else {
                    lemma_reaches_extend(g1, b, u2, v2);
                }
                assert(g1.reaches_or_eq(b, p.last()));
            }
        } else {
            assert(u2 == a && v2 == b);
            if g1.is_walk(q) {
                assert(g1.reaches(p.first(), a));
            } else {
                assert(g1.reaches_or_eq(q.first(), a));
            }
            assert(g1.reaches_or_eq(b, p.last()));
        }
    }
}

/// Inserting an edge `a -> b` into an acyclic graph keeps it acyclic,
/// provided `b` did not already reach `a` and the edge is no self-loop.
pub proof fn lemma_add_edge_acyclic(g1: Graph, g2: Graph, a: int, b: int)
    requires
        g1.acyclic(),
        edge_extension(g1, g2, a, b),
        a != b,
        !g1.reaches(b, a),
    ensures
        g2.acyclic(),
{
    assert forall|u: int| !g2.reaches(u, u) by {
        if g2.reaches(u, u) {
            let p = choose|p: Seq<int>| g2.is_walk(p) && p.first() == u && p.last() == u;
            lemma_walk_decompose(g1, g2, a, b, p);
            if g1.is_walk(p) {
                assert(g1.reaches(u, u));
                assert(false);
            } else {
                assert(g1.reaches_or_eq(u, a) && g1.reaches_or_eq(b, u));
                if u == a {
                    assert(g1.reaches(b, a));
                } else if b == u {
                    assert(g1.reaches(b, a));
                } else {
                    lemma_reaches_trans(g1, b, u, a);
                }
                assert(false);
            }
        }
    }
}

/// Walks transport along a node mapping: if every live edge of `g2` maps
/// to a live edge of `g1` under `f`, then whatever `g2` reaches, `g1`
/// reaches under `f`.
pub proof fn lemma_reaches_map(g2: Graph, g1: Graph, f: spec_fn(int) -> int, u: int, v: int)
    requires
        forall|x: int, y: int| #[trigger] g2.edge_between(x, y) ==> g1.edge_between(f(x), f(y)),
        g2.reaches(u, v),
    ensures
        g1.reaches(f(u), f(v)),
{
    let p = choose|p: Seq<int>| g2.is_walk(p) && p.first() == u && p.last() == v;
    let q = p.map_values(f);
    assert forall|k: int| #![trigger q[k]] 0 <= k < q.len() - 1 implies g1.edge_between(q[k], q[k + 1]) by {
        assert(g2.edge_between(p[k], p[k + 1]));
        assert(q[k] == f(p[k]) && q[k + 1] == f(p[k + 1]));
    }
    assert(g1.is_walk(q));
    assert(q.first() == f(u) && q.last() == f(v));
}

/// The number of `false` entries in a sequence of flags.
pub open spec fn count_falses(s: Seq<bool>) -> nat
    decreases s.len(),
{
    if s.len() == 0 {
        0
    } else {
        count_falses(s.drop_last()) + if s.last() {
            0nat
        } else {
            1nat
        }
    }
}

/// Setting a `false` flag to `true` strictly lowers the count of `false`
/// entries.
pub proof fn lemma_count_falses_update(s: Seq<bool>, i: int)
    requires
        0 <= i < s.len(),
        !s[i],
    ensures
        count_falses(s.update(i, true)) < count_falses(s),
    decreases s.len(),
{
    let t = s.update(i, true);
    if i == s.len() - 1 {
        assert(t.drop_last() =~= s.drop_last());
        assert(t.last() && !s.last());
    } else {
        assert(t.drop_last() =~= s.drop_last().update(i, true));
        lemma_count_falses_update(s.drop_last(), i);
        assert(t.last() == s.last());
    }
}

} // verus!
