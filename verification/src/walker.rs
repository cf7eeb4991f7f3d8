//! The dependency walker: produces a traversal order over the live nodes in
//! which every data-dependency parent comes before its child. Nodes under
//! no ordering constraint are taken in index order, for determinism. That
//! the walk covers every live node rests on acyclicity: any nonempty set of
//! pending nodes holds one whose data parents all lie outside the set.

use vstd::prelude::*;

use vstd::set_lib::{lemma_int_range, lemma_len_subset, set_int_range};

use crate::graph::Graph;
use crate::paths::{
    count_falses, lemma_count_falses_update, lemma_edge_reaches, lemma_reaches_trans,
};

verus! {

/// `x` stands somewhere in the first `k` entries of the order.
pub open spec fn placed_before(order: Seq<usize>, k: int, x: int) -> bool {
    exists|j: int| 0 <= j < k && order[j] == x
}

/// Node `v` is pending and none of its data parents is pending.
pub open spec fn ready_in(g: Graph, pending: Set<int>, v: int) -> bool {
    pending.contains(v) && forall|u: int| #[trigger] g.data_parent(u, v) ==> !pending.contains(u)
}

/// Node `v` is live, not yet emitted, and all its data parents are emitted.
pub open spec fn walk_ready(g: Graph, emitted: Seq<bool>, v: int) -> bool {
    &&& g.live_node(v)
    &&& 0 <= v < emitted.len()
    &&& !emitted[v]
    &&& forall|u: int| #[trigger] g.data_parent(u, v) ==> 0 <= u < emitted.len() && emitted[u]
}

/// Walking backwards along pending data parents must terminate in an
/// acyclic graph: the chain of parents never revisits a node, so it runs
/// out of pending nodes and ends at one with no pending parent.
proof fn find_ready_rec(g: Graph, pending: Set<int>, cur: int, seen: Set<int>)
    requires
        g.wf(),
        pending.finite(),
        pending.contains(cur),
        seen.finite(),
        seen.subset_of(pending),
        !seen.contains(cur),
        forall|s: int| #[trigger] seen.contains(s) ==> g.reaches(cur, s),
    ensures
        exists|v: int| ready_in(g, pending, v),
    decreases pending.len() - seen.len(),
{
    if forall|u: int| #[trigger] g.data_parent(u, cur) ==> !pending.contains(u) {
        assert(ready_in(g, pending, cur));
    } else {
        let u = choose|u: int| g.data_parent(u, cur) && pending.contains(u);
        let e = choose|e: int| g.data_edge_connects(e, u, cur);
        assert(g.edge_connects(e, u, cur));
        assert(g.edge_between(u, cur));
        assert(g.live_edge(e));
        assert(u != cur);
        lemma_edge_reaches(g, u, cur);
        if seen.contains(u) {
            assert(g.reaches(cur, u));
            lemma_reaches_trans(g, u, cur, u);
            assert(false);
        }
        let seen2 = seen.insert(cur);
        assert forall|s: int| #[trigger] seen2.contains(s) implies g.reaches(u, s) by {
            if s == cur {
                assert(g.reaches(u, cur));
            } else {
                lemma_reaches_trans(g, u, cur, s);
            }
        }
        lemma_len_subset(seen2, pending);
        find_ready_rec(g, pending, u, seen2);
    }
}

/// In an acyclic graph, any nonempty finite set of nodes holds one whose
/// data parents all lie outside the set.
pub proof fn lemma_pending_has_ready(g: Graph, pending: Set<int>)
    requires
        g.wf(),
        pending.finite(),
        pending.len() > 0,
    ensures
        exists|v: int| ready_in(g, pending, v),
{
    if !(exists|x: int| pending.contains(x)) {
        assert(pending =~= Set::<int>::empty());
        assert(false);
    }
    let cur = choose|x: int| pending.contains(x);
    find_ready_rec(g, pending, cur, Set::empty());
}

/// Whether every data parent of `v` is already emitted.
fn all_data_parents_emitted(g: &Graph, emitted: &Vec<bool>, v: usize) -> (r: bool)
    requires
        g.edges_wf(),
        emitted.len() == g.nodes.len(),
        v < g.nodes.len(),
    ensures
        r == forall|u: int| #[trigger] g.data_parent(u, v as int) ==> 0 <= u < emitted@.len()
            && emitted@[u],
{
    let mut e: usize = 0;
    while e < g.edges.len()
        invariant
            g.edges_wf(),
            emitted.len() == g.nodes.len(),
            v < g.nodes.len(),
            e <= g.edges.len(),
            forall|e2: int| 0 <= e2 < e && #[trigger] g.live_edge(e2) && g.edge_at(e2).to
                == v && g.edge_at(e2).kind != crate::definitions::EdgeKind::Advisory
                ==> emitted@[g.edge_at(e2).from as int],
        decreases g.edges.len() - e,
    {
        match &g.edges[e] {
            Some(ed) => {
                if ed.to == v && ed.kind != crate::definitions::EdgeKind::Advisory {
                    proof {
                        assert(g.live_edge(e as int));
                        assert(g.live_node(ed.from as int));
                    }
                    if !emitted[ed.from] {
                        proof {
                            assert(g.data_edge_connects(e as int, ed.from as int, v as int));
                            assert(g.data_parent(ed.from as int, v as int));
                        }
                        return false;
                    }
                }
            },
            None => {},
        }
        e += 1;
    }
    proof {
        assert forall|u: int| #[trigger] g.data_parent(u, v as int) implies 0 <= u
            < emitted@.len() && emitted@[u] by {
            let e2 = choose|e2: int| g.data_edge_connects(e2, u, v as int);
            assert(g.live_edge(e2));
            assert(g.live_node(u));
        }
    }
    true
}

/// The smallest-index node that is live, pending, and whose data parents
/// are all emitted; or nothing, if no pending node is ready.
fn next_ready_node(g: &Graph, emitted: &Vec<bool>) -> (r: Option<usize>)
    requires
        g.wf(),
        emitted.len() == g.nodes.len(),
    ensures
        match r {
            Some(v) => walk_ready(*g, emitted@, v as int) && forall|w: int| 0 <= w < v
                ==> !walk_ready(*g, emitted@, w),
            None => forall|w: int| !walk_ready(*g, emitted@, w),
        },
{
    let n = g.node_slots();
    let mut v: usize = 0;
    while v < n
        invariant
            g.wf(),
            emitted.len() == g.nodes.len(),
            n == g.nodes.len(),
            v <= n,
            forall|w: int| 0 <= w < v ==> !walk_ready(*g, emitted@, w),
        decreases n - v,
    {
        if self_live(g, v) && !emitted[v] {
            if all_data_parents_emitted(g, emitted, v) {
                return Some(v);
            }
        }
        v += 1;
    }
    proof {
        assert forall|w: int| !walk_ready(*g, emitted@, w) by {
            if walk_ready(*g, emitted@, w) {
                assert(g.live_node(w));
                assert(0 <= w < n);
            }
        }
    }
    Option::None
}

/// Whether node `v` is live.
fn self_live(g: &Graph, v: usize) -> (r: bool)
    ensures
        r == g.live_node(v as int),
{
    v < g.nodes.len() && g.nodes[v].is_some()
}

/// The walker's traversal order: every live node exactly once, and every
/// data parent before its child. Ready nodes are taken smallest index
/// first, so the order is deterministic for a given graph.
pub fn dependency_walk_order(g: &Graph) -> (order: Vec<usize>)
    requires
        g.wf(),
    ensures
        forall|k: int| 0 <= k < order@.len() ==> g.live_node(#[trigger] order@[k] as int),
        forall|k1: int, k2: int| 0 <= k1 < k2 < order@.len() ==> order@[k1] != order@[k2],
        forall|i: int| #[trigger] g.live_node(i) ==> exists|k: int| 0 <= k < order@.len()
            && order@[k] == i,
        forall|k: int, u: int|
            #![trigger g.data_parent(u, order@[k] as int)]
            0 <= k < order@.len() && g.data_parent(u, order@[k] as int) ==> exists|j: int|
                0 <= j < k && order@[j] == u,
        forall|k: int, w: int|
            #![trigger order@[k], g.live_node(w)]
            0 <= k < order@.len() && 0 <= w < order@[k] && g.live_node(w) && !placed_before(
                order@,
                k,
                w,
            ) ==> exists|u: int| g.data_parent(u, w) && !placed_before(order@, k, u),
{
    let n = g.node_slots();
    let mut emitted: Vec<bool> = vec![false; n];
    let mut order: Vec<usize> = Vec::new();
    loop
        invariant
            g.wf(),
            n == g.nodes.len(),
            emitted.len() == n,
            forall|k: int| 0 <= k < order@.len() ==> (#[trigger] order@[k] as int) < n
                && g.live_node(order@[k] as int) && emitted@[order@[k] as int],
            forall|k1: int, k2: int| 0 <= k1 < k2 < order@.len() ==> order@[k1] != order@[k2],
            forall|i: int| 0 <= i < n && #[trigger] emitted@[i] ==> exists|k: int| 0 <= k
                < order@.len() && order@[k] == i,
            forall|k: int, u: int|
                #![trigger g.data_parent(u, order@[k] as int)]
                0 <= k < order@.len() && g.data_parent(u, order@[k] as int) ==> exists|j: int|
                    0 <= j < k && order@[j] == u,
            forall|k: int, w: int|
                #![trigger order@[k], g.live_node(w)]
                0 <= k < order@.len() && 0 <= w < order@[k] && g.live_node(w) && !placed_before(
                    order@,
                    k,
                    w,
                ) ==> exists|u: int| g.data_parent(u, w) && !placed_before(order@, k, u),
        ensures
            forall|w: int| !walk_ready(*g, emitted@, w),
        decreases count_falses(emitted@),
    {
        match next_ready_node(g, &emitted) {
            Some(v) => {
                let ghost em0 = emitted@;
                let ghost or0 = order@;
                proof {
                    lemma_count_falses_update(emitted@, v as int);
                }
                emitted[v] = true;
                order.push(v);
                proof {
                    assert(order@[or0.len() as int] == v);
                    assert forall|k1: int, k2: int| 0 <= k1 < k2 < order@.len() implies order@[k1]
                        != order@[k2] by {
                        if k2 == or0.len() {
                            assert(em0[or0[k1] as int]);
                            assert(!em0[v as int]);
                        }
                    }
                    assert forall|i: int| 0 <= i < n && #[trigger] emitted@[i] implies exists|k: int|
                        0 <= k < order@.len() && order@[k] == i by {
                        if i == v as int {
                            assert(order@[or0.len() as int] == i);
                        } else {
                            assert(em0[i]);
                            let k = choose|k: int| 0 <= k < or0.len() && or0[k] == i;
                            assert(order@[k] == i);
                        }
                    }
                    assert forall|k: int, u: int|
                        #![trigger g.data_parent(u, order@[k] as int)]
                        0 <= k < order@.len() && g.data_parent(u, order@[k] as int)
                        implies exists|j: int| 0 <= j < k && order@[j] == u by {
                        if k == or0.len() {
                            assert(g.data_parent(u, v as int));
                            assert(0 <= u < em0.len() && em0[u]);
                            let j = choose|j: int| 0 <= j < or0.len() && or0[j] == u;
                            assert(order@[j] == u);
                        } else {
                            assert(g.data_parent(u, or0[k] as int));
                            let j = choose|j: int| 0 <= j < k && or0[j] == u;
                            assert(order@[j] == u);
                        }
                    }
                    assert forall|k: int, w: int|
                        #![trigger order@[k], g.live_node(w)]
                        0 <= k < order@.len() && 0 <= w < order@[k] && g.live_node(w)
                            && !placed_before(order@, k, w) implies exists|u: int| g.data_parent(
                        u,
                        w,
                    ) && !placed_before(order@, k, u) by {
                        if k < or0.len() {
                            if placed_before(or0, k, w) {
                                let j = choose|j: int| 0 <= j < k && or0[j] == w;
                                assert(order@[j] == w);
                                assert(false);
                            }
                            let u = choose|u: int|
                                g.data_parent(u, w) && !placed_before(or0, k, u);
                            if placed_before(order@, k, u) {
                                let j = choose|j: int| 0 <= j < k && order@[j] == u;
                                assert(or0[j] == u);
                                assert(false);
                            }
                            assert(g.data_parent(u, w) && !placed_before(order@, k, u));
                        } else {
                            assert(order@[k] == v);
                            if 0 <= w < em0.len() && em0[w] {
                                let j = choose|j: int| 0 <= j < or0.len() && or0[j] == w;
                                assert(order@[j] == w);
                                assert(placed_before(order@, k, w));
                                assert(false);
                            }
                            assert(!walk_ready(*g, em0, w));
                            assert(0 <= w < em0.len());
                            assert(!(forall|u: int| #[trigger] g.data_parent(u, w) ==> 0 <= u
                                < em0.len() && em0[u]));
                            let u = choose|u: int|
                                g.data_parent(u, w) && !(0 <= u < em0.len() && em0[u]);
                            let e = choose|e: int| g.data_edge_connects(e, u, w);
                            assert(g.live_edge(e));
                            assert(g.live_node(u));
                            if placed_before(order@, k, u) {
                                let j = choose|j: int| 0 <= j < k && order@[j] == u;
                                assert(j < or0.len());
                                assert(or0[j] == u);
                                assert(em0[u]);
                                assert(false);
                            }
                            assert(g.data_parent(u, w) && !placed_before(order@, k, u));
                        }
                    }
                }
            },
            None => {
                break;
            },
        }
    }
    proof {
        assert forall|i: int| #[trigger] g.live_node(i) implies exists|k: int| 0 <= k
            < order@.len() && order@[k] == i by {
            if !emitted@[i] {
                let pending = Set::new(|j: int| g.live_node(j) && !emitted@[j]);
                let range = set_int_range(0, n as int);
                lemma_int_range(0, n as int);
                assert forall|j: int| pending.contains(j) implies range.contains(j) by {
                    assert(g.live_node(j));
                }
                lemma_len_subset(pending, range);
                assert(pending.contains(i));
                if pending.len() == 0 {
                    pending.lemma_len0_is_empty();
                    assert(false);
                }
                lemma_pending_has_ready(*g, pending);
                let v = choose|v: int| ready_in(*g, pending, v);
                assert(pending.contains(v));
                assert forall|u: int| #[trigger] g.data_parent(u, v) implies 0 <= u
                    < emitted@.len() && emitted@[u] by {
                    let e2 = choose|e2: int| g.data_edge_connects(e2, u, v);
                    assert(g.live_edge(e2));
                    assert(g.live_node(u));
                    assert(!pending.contains(u));
                }
                assert(walk_ready(*g, emitted@, v));
                assert(false);
            }
        }
    }
    order
}

} // verus!
