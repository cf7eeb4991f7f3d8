//! The pre-optimize flatten pass: rewrites composite nodes into primitive
//! ones once their inputs' dimensions are known. A `Constrain` node is
//! replaced by a `Resize` node computed by aspect-preserving fitting; the
//! replacement inserts a fresh node, transfers every incident edge to it,
//! and tombstones the old node, never renumbering live nodes. The pass
//! repeats until a full scan finds nothing left to rewrite.

use vstd::prelude::*;

use crate::definitions::{Edge, EdgeKind, FrameEstimate, Node, NodeOp, NodeStage, fresh_node};
use crate::flow::{
    codecs_bound, executed_closed, first_input_est, flow_node_inputs_have_dimensions,
    graph_evolves, healthy, lemma_evolves_trans, stage_est_ok,
};
use crate::graph::Graph;
use crate::paths::{lemma_edge_reaches, lemma_no_out_edges, lemma_reaches_map, lemma_reaches_trans};

verus! {

/// A live edge of kind `knd` runs from `u` to `v`.
pub open spec fn kind_edge_between(g: Graph, u: int, v: int, knd: EdgeKind) -> bool {
    exists|e: int| g.edge_connects(e, u, v) && #[trigger] g.edge_at(e).kind == knd
}

/// The number of live composite (`Constrain`) nodes.
pub open spec fn count_constrain(nodes: Seq<Option<Node>>) -> nat
    decreases nodes.len(),
{
    if nodes.len() == 0 {
        0
    } else {
        count_constrain(nodes.drop_last()) + (match nodes.last() {
            Some(n) => if n.op is Constrain {
                1nat
            } else {
                0nat
            },
            Option::None => 0nat,
        })
    }
}

/// Appending a non-composite slot keeps the composite count.
proof fn lemma_count_constrain_push(nodes: Seq<Option<Node>>, x: Option<Node>)
    requires
        match x {
            Some(n) => !(n.op is Constrain),
            Option::None => true,
        },
    ensures
        count_constrain(nodes.push(x)) == count_constrain(nodes),
{
    assert(nodes.push(x).drop_last() =~= nodes);
}

/// Tombstoning a composite slot strictly lowers the composite count.
proof fn lemma_count_constrain_clear(nodes: Seq<Option<Node>>, i: int)
    requires
        0 <= i < nodes.len(),
        nodes[i] is Some,
        nodes[i]->0.op is Constrain,
    ensures
        count_constrain(nodes.update(i, Option::None)) < count_constrain(nodes),
    decreases nodes.len(),
{
    let t = nodes.update(i, Option::None);
    if i == nodes.len() - 1 {
        assert(t.drop_last() =~= nodes.drop_last());
    } else {
        assert(t.drop_last() =~= nodes.drop_last().update(i, Option::None));
        lemma_count_constrain_clear(nodes.drop_last(), i);
        assert(t.last() == nodes.last());
    }
}

/// A live composite node makes the composite count positive.
pub proof fn lemma_count_constrain_zero(nodes: Seq<Option<Node>>, i: int)
    requires
        0 <= i < nodes.len(),
        nodes[i] is Some,
        nodes[i]->0.op is Constrain,
    ensures
        count_constrain(nodes) >= 1,
    decreases nodes.len(),
{
    if i == nodes.len() - 1 {
    } else {
        assert(nodes.drop_last()[i] == nodes[i]);
        lemma_count_constrain_zero(nodes.drop_last(), i);
    }
}

/// The composite count only reads liveness and operations.
pub proof fn lemma_count_constrain_same_ops(s1: Seq<Option<Node>>, s2: Seq<Option<Node>>)
    requires
        s1.len() == s2.len(),
        forall|i: int| 0 <= i < s1.len() ==> ((#[trigger] s1[i]) is Some <==> s2[i] is Some) && (
        s1[i] is Some ==> s1[i]->0.op == s2[i]->0.op),
    ensures
        count_constrain(s1) == count_constrain(s2),
    decreases s1.len(),
{
    if s1.len() > 0 {
        assert forall|i: int| 0 <= i < s1.drop_last().len() implies ((#[trigger] s1.drop_last()[i]) is Some
            <==> s2.drop_last()[i] is Some) && (s1.drop_last()[i] is Some
            ==> s1.drop_last()[i]->0.op == s2.drop_last()[i]->0.op) by {
            assert(s1.drop_last()[i] == s1[i] && s2.drop_last()[i] == s2[i]);
        }
        lemma_count_constrain_same_ops(s1.drop_last(), s2.drop_last());
        assert(s1[s1.len() - 1] == s1.last() && s2[s2.len() - 1] == s2.last());
    }
}

/// A node eligible for the pre-optimize flatten rewrite: a live, composite,
/// not-yet-executed node all of whose data parents have frame estimates.
pub open spec fn flatten_eligible(g: Graph, v: int) -> bool {
    &&& g.live_node(v)
    &&& g.node_at(v).op is Constrain
    &&& !(g.node_at(v).stage is Executed)
    &&& forall|u: int| #[trigger] g.data_parent(u, v) ==> g.live_node(u) && g.node_at(
        u,
    ).frame_est is Some
}

/// Aspect-preserving fit of an input frame into a bounding box: scale to
/// the box's width; if the resulting height overflows the box, scale to
/// its height instead. A missing or degenerate input falls back to the box
/// itself.
pub open spec fn constrain_fit(input: Option<FrameEstimate>, mw: u32, mh: u32) -> (int, int) {
    match input {
        Some(fe) => {
            if fe.width == 0 || fe.height == 0 {
                (mw as int, mh as int)
            } else {
                let h1 = (fe.height as int) * (mw as int) / (fe.width as int);
                if h1 <= mh as int {
                    (mw as int, h1)
                } else {
                    ((fe.width as int) * (mh as int) / (fe.height as int), mh as int)
                }
            }
        },
        Option::None => (mw as int, mh as int),
    }
}

/// Executable aspect-preserving fit.
fn fit_dimensions(input: Option<FrameEstimate>, mw: u32, mh: u32) -> (r: (u32, u32))
    ensures
        (r.0 as int, r.1 as int) == constrain_fit(input, mw, mh),
{
    match input {
        Some(fe) => {
            if fe.width == 0 || fe.height == 0 {
                (mw, mh)
            } else {
                proof {
                    assert((fe.height as int) * (mw as int) <= 0xffff_ffffu64 * 0xffff_ffffu64)
                        by (nonlinear_arith)
                        requires
                            fe.height <= 0xffff_ffffu64,
                            mw <= 0xffff_ffffu64,
                    ;
                }
                let h1: u64 = (fe.height as u64) * (mw as u64) / (fe.width as u64);
                if h1 <= mh as u64 {
                    (mw, h1 as u32)
                } else {
                    proof {
                        assert((fe.width as int) * (mh as int) <= 0xffff_ffffu64
                            * 0xffff_ffffu64) by (nonlinear_arith)
                            requires
                                fe.width <= 0xffff_ffffu64,
                                mh <= 0xffff_ffffu64,
                        ;
                        assert((fe.width as int) * (mh as int) / (fe.height as int) < mw as int)
                            by (nonlinear_arith)
                            requires
                                fe.width > 0,
                                fe.height > 0,
                                (fe.height as int) * (mw as int) / (fe.width as int) > mh as int,
                        ;
                    }
                    let w2: u64 = (fe.width as u64) * (mh as u64) / (fe.height as u64);
                    (w2 as u32, mh)
                }
            }
        },
        Option::None => (mw, mh),
    }
}

/// The smallest-index node eligible for the pre-optimize flatten rewrite.
fn find_flatten_candidate(g: &Graph) -> (r: Option<usize>)
    requires
        g.wf(),
    ensures
        match r {
            Some(v) => flatten_eligible(*g, v as int) && (v as int) < g.nodes.len(),
            Option::None => forall|v: int| !flatten_eligible(*g, v),
        },
{
    let n = g.node_slots();
    let mut i: usize = 0;
    while i < n
        invariant
            g.wf(),
            n == g.nodes.len(),
            i <= n,
            forall|v: int| 0 <= v < i ==> !flatten_eligible(*g, v),
        decreases n - i,
    {
        let eligible = match g.node_weight(i) {
            Some(nd) => {
                let is_constrain = match nd.op {
                    NodeOp::Constrain { .. } => true,
                    _ => false,
                };
                is_constrain && nd.stage != NodeStage::Executed
            },
            None => false,
        };
        if eligible {
            if flow_node_inputs_have_dimensions(g, i) {
                return Some(i);
            }
        }
        i += 1;
    }
    proof {
        assert forall|v: int| !flatten_eligible(*g, v) by {
            if flatten_eligible(*g, v) {
                assert(g.live_node(v));
                assert(0 <= v < n);
            }
        }
    }
    Option::None
}

/// `entry` names the source and kind of some live in-edge of `v`.
pub open spec fn in_entry_ok(g0: Graph, v: int, entry: (usize, EdgeKind)) -> bool {
    exists|e: int| #[trigger] g0.edge_connects(e, entry.0 as int, v) && g0.edge_at(e).kind
        == entry.1
}

/// `entry` names the target and kind of some live out-edge of `v`.
pub open spec fn out_entry_ok(g0: Graph, v: int, entry: (usize, EdgeKind)) -> bool {
    exists|e: int| #[trigger] g0.edge_connects(e, v, entry.0 as int) && g0.edge_at(e).kind
        == entry.1
}

/// The edge arena of `gf` as the rewrite leaves it: the old slots survive
/// except those incident to `v`, which are tombstoned; then one transferred
/// in-edge per entry of `pe`, then one transferred out-edge per entry of
/// `ce`, all attached to `n_idx`.
pub open spec fn rewrite_edges_shape(
    g0: Graph,
    gf: Graph,
    pe: Seq<(usize, EdgeKind)>,
    ce: Seq<(usize, EdgeKind)>,
    v: usize,
    n_idx: usize,
) -> bool {
    let ne = g0.edges.len() as int;
    &&& gf.edges.len() == ne + pe.len() + ce.len()
    &&& (forall|k: int|
        #![trigger gf.edges@[k]]
        0 <= k < ne ==> (gf.edges@[k] == g0.edges@[k] || (gf.edges@[k] is None && g0.live_edge(k)
            && (g0.edge_at(k).from == v || g0.edge_at(k).to == v))))
    &&& (forall|k: int|
        #![trigger g0.edges@[k]]
        0 <= k < ne && g0.live_edge(k) && (g0.edge_at(k).from == v || g0.edge_at(k).to == v)
            ==> gf.edges@[k] is None)
    &&& (forall|s: int| 0 <= s < pe.len() ==> gf.edges@[ne + s] == Some(
        Edge { from: (#[trigger] pe[s]).0, to: n_idx, kind: pe[s].1 },
    ))
    &&& (forall|s: int| 0 <= s < ce.len() ==> gf.edges@[ne + pe.len() + s] == Some(
        Edge { from: n_idx, to: (#[trigger] ce[s]).0, kind: ce[s].1 },
    ))
}

/// With the rewrite's edges in place up to some prefix of the out-edges,
/// attaching the next out-edge cannot close a cycle: a walk back into the
/// new node would map, substituting `v` for it, onto a walk of the old
/// graph that closes a cycle through `v`.
proof fn lemma_rewrite_no_cycle(
    g0: Graph,
    g: Graph,
    pe: Seq<(usize, EdgeKind)>,
    ce: Seq<(usize, EdgeKind)>,
    v: usize,
    n_idx: usize,
    dst: usize,
)
    requires
        g0.wf(),
        n_idx == g0.nodes.len(),
        g0.live_node(v as int),
        rewrite_edges_shape(g0, g, pe, ce, v, n_idx),
        forall|t: int| 0 <= t < pe.len() ==> in_entry_ok(g0, v as int, #[trigger] pe[t]),
        forall|t: int| 0 <= t < ce.len() ==> out_entry_ok(g0, v as int, #[trigger] ce[t]),
        g0.edge_between(v as int, dst as int),
        dst != n_idx,
    ensures
        !g.reaches(dst as int, n_idx as int),
{
    let ne = g0.edges.len() as int;
    let f = |x: int|
        if x == n_idx as int {
            v as int
        } else {
            x
        };
    assert forall|x: int, y: int| #[trigger] g.edge_between(x, y) implies g0.edge_between(
        f(x),
        f(y),
    ) by {
        let k = choose|e: int| g.edge_connects(e, x, y);
        if k < ne {
            assert(g.edges@[k] == g0.edges@[k]);
            assert(g0.live_edge(k) && g0.edge_at(k) == g.edge_at(k));
            assert(g0.live_node(x) && g0.live_node(y));
            assert(x != n_idx as int && y != n_idx as int);
            assert(g0.edge_connects(k, f(x), f(y)));
        } else if k < ne + pe.len() {
            let s = k - ne;
            assert(g.edges@[ne + s] == Some(Edge { from: pe[s].0, to: n_idx, kind: pe[s].1 }));
            assert(x == pe[s].0 as int && y == n_idx as int);
            assert(in_entry_ok(g0, v as int, pe[s]));
            let e4 = choose|e4: int|
                g0.edge_connects(e4, pe[s].0 as int, v as int) && g0.edge_at(e4).kind == pe[s].1;
            assert(g0.live_node(x));
            assert(x != n_idx as int);
            assert(g0.edge_connects(e4, f(x), f(y)));
        } else {
            let s = k - ne - pe.len();
            assert(g.edges@[ne + pe.len() + s] == Some(
                Edge { from: n_idx, to: ce[s].0, kind: ce[s].1 },
            ));
            assert(x == n_idx as int && y == ce[s].0 as int);
            assert(out_entry_ok(g0, v as int, ce[s]));
            let e4 = choose|e4: int|
                g0.edge_connects(e4, v as int, ce[s].0 as int) && g0.edge_at(e4).kind == ce[s].1;
            assert(g0.live_node(y));
            assert(y != n_idx as int);
            assert(g0.edge_connects(e4, f(x), f(y)));
        }
    }
    if g.reaches(dst as int, n_idx as int) {
        lemma_reaches_map(g, g0, f, dst as int, n_idx as int);
        assert(g0.reaches(dst as int, v as int));
        lemma_edge_reaches(g0, v as int, dst as int);
        lemma_reaches_trans(g0, v as int, dst as int, v as int);
        assert(false);
    }
}

/// What the finished rewrite guarantees about stages, estimates, the
/// dependency-ordering invariant, and edge transfer.
#[verifier::rlimit(100)]
proof fn lemma_rewrite_post(
    g0: Graph,
    gf: Graph,
    pe: Seq<(usize, EdgeKind)>,
    ce: Seq<(usize, EdgeKind)>,
    v: usize,
    n_idx: usize,
    rw: u32,
    rh: u32,
)
    requires
        g0.wf(),
        stage_est_ok(g0),
        executed_closed(g0),
        g0.live_node(v as int),
        !(g0.node_at(v as int).stage is Executed),
        n_idx == g0.nodes.len(),
        gf.nodes@ == g0.nodes@.update(v as int, Option::None).push(
            Some(fresh_node(NodeOp::Resize { width: rw, height: rh })),
        ),
        rewrite_edges_shape(g0, gf, pe, ce, v, n_idx),
        forall|t: int| 0 <= t < pe.len() ==> in_entry_ok(g0, v as int, #[trigger] pe[t]),
        forall|t: int| 0 <= t < ce.len() ==> out_entry_ok(g0, v as int, #[trigger] ce[t]),
        forall|e2: int| #[trigger] g0.live_edge(e2) && g0.edge_at(e2).to == v ==> exists|t: int|
            0 <= t < pe.len() && pe[t] == (g0.edge_at(e2).from, g0.edge_at(e2).kind),
        forall|e2: int| #[trigger] g0.live_edge(e2) && g0.edge_at(e2).from == v ==> exists|t: int|
            0 <= t < ce.len() && ce[t] == (g0.edge_at(e2).to, g0.edge_at(e2).kind),
    ensures
        stage_est_ok(gf),
        executed_closed(gf),
        graph_evolves(g0, gf),
        forall|x: int, y: int, knd: EdgeKind|
            #![trigger kind_edge_between(gf, x, y, knd)]
            x != v && y != v && x != n_idx && y != n_idx ==> (kind_edge_between(gf, x, y, knd)
                <==> kind_edge_between(g0, x, y, knd)),
        forall|u: int, knd: EdgeKind|
            #![trigger kind_edge_between(gf, u, n_idx as int, knd)]
            u != v ==> (kind_edge_between(gf, u, n_idx as int, knd) <==> kind_edge_between(
                g0,
                u,
                v as int,
                knd,
            )),
        forall|w: int, knd: EdgeKind|
            #![trigger kind_edge_between(gf, n_idx as int, w, knd)]
            w != v ==> (kind_edge_between(gf, n_idx as int, w, knd) <==> kind_edge_between(
                g0,
                v as int,
                w,
                knd,
            )),
        forall|e: int| #[trigger] gf.live_edge(e) ==> gf.edge_at(e).from != v && gf.edge_at(
            e,
        ).to != v,
{
    let ne = g0.edges.len() as int;
    let nvv = n_idx as int;

    assert forall|e: int| #[trigger] gf.live_edge(e) implies gf.edge_at(e).from != v
        && gf.edge_at(e).to != v by {
        if e < ne {
            assert(gf.edges@[e] == g0.edges@[e]);
            assert(g0.live_edge(e));
        } else if e < ne + pe.len() {
            let s = e - ne;
            assert(gf.edges@[ne + s] == Some(Edge { from: pe[s].0, to: n_idx, kind: pe[s].1 }));
            assert(in_entry_ok(g0, v as int, pe[s]));
            let e4 = choose|e4: int|
                g0.edge_connects(e4, pe[s].0 as int, v as int) && g0.edge_at(e4).kind == pe[s].1;
            assert(g0.edge_at(e4).from != g0.edge_at(e4).to);
            assert(v < n_idx);
        } else {
            let s = e - ne - pe.len();
            assert(gf.edges@[ne + pe.len() + s] == Some(
                Edge { from: n_idx, to: ce[s].0, kind: ce[s].1 },
            ));
            assert(out_entry_ok(g0, v as int, ce[s]));
            let e4 = choose|e4: int|
                g0.edge_connects(e4, v as int, ce[s].0 as int) && g0.edge_at(e4).kind == ce[s].1;
            assert(g0.edge_at(e4).from != g0.edge_at(e4).to);
            assert(v < n_idx);
        }
    }

    assert forall|i: int| #[trigger] gf.live_node(i) implies (crate::definitions::stage_index(
        gf.node_at(i).stage,
    ) >= 1 ==> gf.node_at(i).frame_est is Some) by {
        if i != nvv {
            assert(i != v);
            assert(g0.live_node(i) && gf.node_at(i) == g0.node_at(i));
        } else {
            assert(gf.node_at(i).stage is New);
        }
    }

    assert forall|k: int| #[trigger] gf.live_edge(k) && ((gf.edge_at(k).kind
        != EdgeKind::Advisory && gf.node_at(gf.edge_at(k).to as int).stage is Executed))
        implies gf.node_at(gf.edge_at(k).from as int).stage is Executed by {
        let fr = gf.edge_at(k).from as int;
        let to = gf.edge_at(k).to as int;
        if k < ne {
            assert(gf.edges@[k] == g0.edges@[k]);
            assert(g0.live_edge(k) && g0.edge_at(k) == gf.edge_at(k));
            assert(fr != nvv && to != nvv && fr != v && to != v);
            assert(gf.node_at(to) == g0.node_at(to));
            assert(g0.node_at(fr).stage is Executed);
        } else if k < ne + pe.len() {
            let s = k - ne;
            assert(gf.edges@[ne + s] == Some(Edge { from: pe[s].0, to: n_idx, kind: pe[s].1 }));
            assert(to == nvv);
            assert(gf.node_at(to).stage is New);
            assert(false);
        } else {
            let s = k - ne - pe.len();
            assert(gf.edges@[ne + pe.len() + s] == Some(
                Edge { from: n_idx, to: ce[s].0, kind: ce[s].1 },
            ));
            assert(fr == nvv && to == ce[s].0 as int);
            assert(out_entry_ok(g0, v as int, ce[s]));
            let e4 = choose|e4: int|
                g0.edge_connects(e4, v as int, ce[s].0 as int) && g0.edge_at(e4).kind == ce[s].1;
            assert(g0.edge_at(e4).to != g0.edge_at(e4).from);
            assert(to != v && to != nvv);
            assert(gf.node_at(to) == g0.node_at(to));
            assert(g0.node_at(v as int).stage is Executed);
            assert(false);
        }
    }

    assert forall|x: int, y: int, knd: EdgeKind|
        #![trigger kind_edge_between(gf, x, y, knd)]
        x != v && y != v && x != n_idx && y != n_idx implies (kind_edge_between(gf, x, y, knd)
        <==> kind_edge_between(g0, x, y, knd)) by {
        if kind_edge_between(gf, x, y, knd) {
            let k = choose|k: int|
                gf.edge_connects(k, x, y) && #[trigger] gf.edge_at(k).kind == knd;
            if k < ne {
                assert(gf.edges@[k] == g0.edges@[k]);
                assert(g0.edge_connects(k, x, y) && g0.edge_at(k).kind == knd);
            } else if k < ne + pe.len() {
                let s = k - ne;
                assert(gf.edges@[ne + s] == Some(
                    Edge { from: pe[s].0, to: n_idx, kind: pe[s].1 },
                ));
                assert(false);
            } else {
                let s = k - ne - pe.len();
                assert(gf.edges@[ne + pe.len() + s] == Some(
                    Edge { from: n_idx, to: ce[s].0, kind: ce[s].1 },
                ));
                assert(false);
            }
        }
        if kind_edge_between(g0, x, y, knd) {
            let k = choose|k: int|
                g0.edge_connects(k, x, y) && #[trigger] g0.edge_at(k).kind == knd;
            assert(g0.edges@[k] is Some);
            assert(gf.edges@[k] == g0.edges@[k]);
            assert(gf.edge_connects(k, x, y) && gf.edge_at(k).kind == knd);
        }
    }

    assert forall|u: int, knd: EdgeKind|
        #![trigger kind_edge_between(gf, u, n_idx as int, knd)]
        u != v implies (kind_edge_between(gf, u, n_idx as int, knd) <==> kind_edge_between(
        g0,
        u,
        v as int,
        knd,
    )) by {
        if kind_edge_between(gf, u, nvv, knd) {
            let k = choose|k: int|
                gf.edge_connects(k, u, nvv) && #[trigger] gf.edge_at(k).kind == knd;
            if k < ne {
                assert(gf.edges@[k] == g0.edges@[k]);
                assert(g0.live_edge(k));
                assert(g0.live_node(nvv));
                assert(false);
            } else if k < ne + pe.len() {
                let s = k - ne;
                assert(gf.edges@[ne + s] == Some(
                    Edge { from: pe[s].0, to: n_idx, kind: pe[s].1 },
                ));
                assert(u == pe[s].0 as int && knd == pe[s].1);
                assert(in_entry_ok(g0, v as int, pe[s]));
                let e4 = choose|e4: int|
                    g0.edge_connects(e4, pe[s].0 as int, v as int) && g0.edge_at(e4).kind
                        == pe[s].1;
                assert(g0.edge_connects(e4, u, v as int) && g0.edge_at(e4).kind == knd);
            } else {
                let s = k - ne - pe.len();
                assert(gf.edges@[ne + pe.len() + s] == Some(
                    Edge { from: n_idx, to: ce[s].0, kind: ce[s].1 },
                ));
                assert(out_entry_ok(g0, v as int, ce[s]));
                let e4 = choose|e4: int|
                    g0.edge_connects(e4, v as int, ce[s].0 as int) && g0.edge_at(e4).kind
                        == ce[s].1;
                assert(g0.live_node(ce[s].0 as int));
                assert(ce[s].0 as int != nvv);
                assert(false);
            }
        }
        if kind_edge_between(g0, u, v as int, knd) {
            let k = choose|k: int|
                g0.edge_connects(k, u, v as int) && #[trigger] g0.edge_at(k).kind == knd;
            assert(g0.live_edge(k) && g0.edge_at(k).to == v);
            let s = choose|s: int|
                0 <= s < pe.len() && pe[s] == (g0.edge_at(k).from, g0.edge_at(k).kind);
            assert(gf.edges@[ne + s] == Some(Edge { from: pe[s].0, to: n_idx, kind: pe[s].1 }));
            assert(gf.edge_connects(ne + s, u, nvv) && gf.edge_at(ne + s).kind == knd);
        }
    }

    assert forall|w: int, knd: EdgeKind|
        #![trigger kind_edge_between(gf, n_idx as int, w, knd)]
        w != v implies (kind_edge_between(gf, n_idx as int, w, knd) <==> kind_edge_between(
        g0,
        v as int,
        w,
        knd,
    )) by {
        if kind_edge_between(gf, nvv, w, knd) {
            let k = choose|k: int|
                gf.edge_connects(k, nvv, w) && #[trigger] gf.edge_at(k).kind == knd;
            if k < ne {
                assert(gf.edges@[k] == g0.edges@[k]);
                assert(g0.live_edge(k));
                assert(g0.live_node(nvv));
                assert(false);
            } else if k < ne + pe.len() {
                let s = k - ne;
                assert(gf.edges@[ne + s] == Some(
                    Edge { from: pe[s].0, to: n_idx, kind: pe[s].1 },
                ));
                assert(in_entry_ok(g0, v as int, pe[s]));
                let e4 = choose|e4: int|
                    g0.edge_connects(e4, pe[s].0 as int, v as int) && g0.edge_at(e4).kind
                        == pe[s].1;
                assert(g0.live_node(pe[s].0 as int));
                assert(pe[s].0 as int != nvv);
                assert(false);
            } else {
                let s = k - ne - pe.len();
                assert(gf.edges@[ne + pe.len() + s] == Some(
                    Edge { from: n_idx, to: ce[s].0, kind: ce[s].1 },
                ));
                assert(w == ce[s].0 as int && knd == ce[s].1);
                assert(out_entry_ok(g0, v as int, ce[s]));
                let e4 = choose|e4: int|
                    g0.edge_connects(e4, v as int, ce[s].0 as int) && g0.edge_at(e4).kind
                        == ce[s].1;
                assert(g0.edge_connects(e4, v as int, w) && g0.edge_at(e4).kind == knd);
            }
        }
        if kind_edge_between(g0, v as int, w, knd) {
            let k = choose|k: int|
                g0.edge_connects(k, v as int, w) && #[trigger] g0.edge_at(k).kind == knd;
            assert(g0.live_edge(k) && g0.edge_at(k).from == v);
            let s = choose|s: int|
                0 <= s < ce.len() && ce[s] == (g0.edge_at(k).to, g0.edge_at(k).kind);
            assert(gf.edges@[ne + pe.len() + s] == Some(
                Edge { from: n_idx, to: ce[s].0, kind: ce[s].1 },
            ));
            assert(gf.edge_connects(ne + pe.len() + s, nvv, w) && gf.edge_at(
                ne + pe.len() + s,
            ).kind == knd);
        }
    }
}

/// Replaces the composite node `v` by a fresh primitive `Resize` node:
/// the new node takes over every incident edge of `v`, with the same kinds
/// and far endpoints, and `v`'s slot is tombstoned. Indices of live nodes
/// are never renumbered.
pub fn rewrite_constrain(g: &mut Graph, v: usize, rw: u32, rh: u32)
    requires
        old(g).wf(),
        stage_est_ok(*old(g)),
        executed_closed(*old(g)),
        old(g).live_node(v as int),
        old(g).node_at(v as int).op is Constrain,
        !(old(g).node_at(v as int).stage is Executed),
    ensures
        final(g).wf(),
        stage_est_ok(*final(g)),
        executed_closed(*final(g)),
        graph_evolves(*old(g), *final(g)),
        final(g).nodes@ == old(g).nodes@.update(v as int, Option::None).push(
            Some(fresh_node(NodeOp::Resize { width: rw, height: rh })),
        ),
        forall|x: int, y: int, knd: EdgeKind|
            #![trigger kind_edge_between(*final(g), x, y, knd)]
            x != v && y != v && x != old(g).nodes.len() && y != old(g).nodes.len() ==> (
            kind_edge_between(*final(g), x, y, knd) <==> kind_edge_between(*old(g), x, y, knd)),
        forall|u: int, knd: EdgeKind|
            #![trigger kind_edge_between(*final(g), u, old(g).nodes.len() as int, knd)]
            u != v ==> (kind_edge_between(*final(g), u, old(g).nodes.len() as int, knd)
                <==> kind_edge_between(*old(g), u, v as int, knd)),
        forall|w: int, knd: EdgeKind|
            #![trigger kind_edge_between(*final(g), old(g).nodes.len() as int, w, knd)]
            w != v ==> (kind_edge_between(*final(g), old(g).nodes.len() as int, w, knd)
                <==> kind_edge_between(*old(g), v as int, w, knd)),
        forall|e: int| #[trigger] final(g).live_edge(e) ==> final(g).edge_at(e).from != v
            && final(g).edge_at(e).to != v,
{
    let ghost g0 = *old(g);
    let nv = g.node_slots();

    // Capture the incident connectivity of `v`.
    let mut pe: Vec<(usize, EdgeKind)> = Vec::new();
    let mut ce: Vec<(usize, EdgeKind)> = Vec::new();
    let mut e: usize = 0;
    while e < g.edge_slots()
        invariant
            *g == g0,
            e <= g.edges.len(),
            forall|t: int| 0 <= t < pe@.len() ==> in_entry_ok(g0, v as int, #[trigger] pe@[t]),
            forall|t: int| 0 <= t < ce@.len() ==> out_entry_ok(g0, v as int, #[trigger] ce@[t]),
            forall|e2: int| 0 <= e2 < e && #[trigger] g0.live_edge(e2) && g0.edge_at(e2).to == v
                ==> exists|t: int| 0 <= t < pe@.len() && pe@[t] == (
                g0.edge_at(e2).from,
                g0.edge_at(e2).kind,
            ),
            forall|e2: int| 0 <= e2 < e && #[trigger] g0.live_edge(e2) && g0.edge_at(e2).from == v
                ==> exists|t: int| 0 <= t < ce@.len() && ce@[t] == (
                g0.edge_at(e2).to,
                g0.edge_at(e2).kind,
            ),
        decreases g.edges.len() - e,
    {
        let ghost pe0 = pe@;
        let ghost ce0 = ce@;
        match &g.edges[e] {
            Some(ed) => {
                if ed.to == v {
                    pe.push((ed.from, ed.kind));
                    proof {
                        let entry = pe@[pe@.len() - 1];
                        assert(entry == (ed.from, ed.kind));
                        assert(g0.edge_connects(e as int, entry.0 as int, v as int));
                        assert(in_entry_ok(g0, v as int, entry));
                    }
                }
                if ed.from == v {
                    ce.push((ed.to, ed.kind));
                    proof {
                        let entry = ce@[ce@.len() - 1];
                        assert(entry == (ed.to, ed.kind));
                        assert(g0.edge_connects(e as int, v as int, entry.0 as int));
                        assert(out_entry_ok(g0, v as int, entry));
                    }
                }
            },
            None => {},
        }
        proof {
            assert forall|e2: int|
                0 <= e2 <= e as int && #[trigger] g0.live_edge(e2) && g0.edge_at(e2).to == v
                implies exists|t: int| 0 <= t < pe@.len() && pe@[t] == (
                g0.edge_at(e2).from,
                g0.edge_at(e2).kind,
            ) by {
                if e2 < e as int {
                    let t = choose|t: int|
                        0 <= t < pe0.len() && pe0[t] == (g0.edge_at(e2).from, g0.edge_at(e2).kind);
                    assert(pe@[t] == pe0[t]);
                } else {
                    assert(g.edges@[e2] == g0.edges@[e2]);
                    assert(pe@[pe@.len() - 1] == (g0.edge_at(e2).from, g0.edge_at(e2).kind));
                }
            }
            assert forall|e2: int|
                0 <= e2 <= e as int && #[trigger] g0.live_edge(e2) && g0.edge_at(e2).from == v
                implies exists|t: int| 0 <= t < ce@.len() && ce@[t] == (
                g0.edge_at(e2).to,
                g0.edge_at(e2).kind,
            ) by {
                if e2 < e as int {
                    let t = choose|t: int|
                        0 <= t < ce0.len() && ce0[t] == (g0.edge_at(e2).to, g0.edge_at(e2).kind);
                    assert(ce@[t] == ce0[t]);
                } else {
                    assert(g.edges@[e2] == g0.edges@[e2]);
                    assert(ce@[ce@.len() - 1] == (g0.edge_at(e2).to, g0.edge_at(e2).kind));
                }
            }
        }
        e += 1;
    }

    // Tombstone every edge incident to `v`.
    let ne = g.edge_slots();
    let mut e2: usize = 0;
    while e2 < ne
        invariant
            g.wf(),
            g.nodes@ == g0.nodes@,
            ne == g0.edges.len(),
            g.edges.len() == ne,
            e2 <= ne,
            forall|k: int|
                #![trigger g.edges@[k]]
                0 <= k < ne ==> (g.edges@[k] == g0.edges@[k] || (g.edges@[k] is None
                    && g0.live_edge(k) && (g0.edge_at(k).from == v || g0.edge_at(k).to == v))),
            forall|k: int|
                #![trigger g0.edges@[k]]
                0 <= k < e2 && g0.live_edge(k) && (g0.edge_at(k).from == v || g0.edge_at(k).to
                    == v) ==> g.edges@[k] is None,
        decreases ne - e2,
    {
        let doit = match &g.edges[e2] {
            Some(ed) => ed.from == v || ed.to == v,
            None => false,
        };
        if doit {
            proof {
                assert(g.edges@[e2 as int] is Some);
                assert(g.edges@[e2 as int] == g0.edges@[e2 as int]);
                assert(g0.live_edge(e2 as int));
            }
            g.remove_edge(e2);
        }
        e2 += 1;
    }

    let ghost grm = *g;
    // Tombstone the node itself; no live edge touches it any more.
    proof {
        assert forall|k: int| #[trigger] grm.live_edge(k) implies grm.edge_at(k).from != v
            && grm.edge_at(k).to != v by {
            assert(grm.edges@[k] == g0.edges@[k]);
            assert(g0.live_edge(k));
            if g0.edge_at(k).from == v || g0.edge_at(k).to == v {
                assert(grm.edges@[k] is None);
                assert(false);
            }
        }
    }
    let removed = g.remove_node(v);
    proof {
        assert(removed);
    }

    // Insert the replacement node.
    let n_idx = g.add_node(NodeOp::Resize { width: rw, height: rh });
    proof {
        assert(n_idx == nv);
        assert(g.nodes@ =~= g0.nodes@.update(v as int, Option::None).push(
            Some(fresh_node(NodeOp::Resize { width: rw, height: rh })),
        ));
        assert(g.edges@ == grm.edges@);
        assert(rewrite_edges_shape(g0, *g, pe@.take(0), ce@.take(0), v, n_idx));
    }
    let ghost nodes_f = g.nodes@;
    proof {
        assert forall|k: int| #[trigger] g.live_edge(k) implies g.edge_at(k).from != n_idx by {
            assert(g.edges@[k] == g0.edges@[k]);
            assert(g0.live_edge(k));
            assert(g0.live_node(g0.edge_at(k).from as int));
        }
    }

    // Transfer the in-edges of `v` to the new node.
    let mut t: usize = 0;
    while t < pe.len()
        invariant
            g.wf(),
            g.nodes@ == nodes_f,
            nodes_f == g0.nodes@.update(v as int, Option::None).push(
                Some(fresh_node(NodeOp::Resize { width: rw, height: rh })),
            ),
            g0.wf(),
            nv == g0.nodes.len(),
            n_idx == nv,
            v < nv,
            g0.live_node(v as int),
            t <= pe.len(),
            rewrite_edges_shape(g0, *g, pe@.take(t as int), ce@.take(0), v, n_idx),
            forall|t2: int| 0 <= t2 < pe@.len() ==> in_entry_ok(g0, v as int, #[trigger] pe@[t2]),
            forall|k: int| #[trigger] g.live_edge(k) ==> g.edge_at(k).from != n_idx,
        decreases pe.len() - t,
    {
        let (src, knd) = pe[t];
        proof {
            assert(pe@[t as int] == (src, knd));
            assert(in_entry_ok(g0, v as int, (src, knd)));
            let e3 = choose|e3: int|
                g0.edge_connects(e3, src as int, v as int) && g0.edge_at(e3).kind == knd;
            assert(g0.live_node(src as int));
            assert(g0.edge_at(e3).from != g0.edge_at(e3).to);
            assert(src != v);
            assert((src as int) < nv);
            assert(g.nodes@[src as int] == g0.nodes@[src as int]);
            assert(g.live_node(src as int));
            assert(g.live_node(n_idx as int));
            lemma_no_out_edges(*g, n_idx as int);
        }
        let ghost gpre = *g;
        let r = g.add_edge(src, n_idx, knd);
        match r {
            Ok(_) => {},
            Err(_) => {
                proof {
                    assert(false);
                }
            },
        }
        proof {
            assert(g.edges@ == gpre.edges@.push(Some(Edge { from: src, to: n_idx, kind: knd })));
            assert(pe@.take(t as int + 1) =~= pe@.take(t as int).push(pe@[t as int]));
            assert(rewrite_edges_shape(g0, *g, pe@.take(t as int + 1), ce@.take(0), v, n_idx));
            assert forall|k: int| #[trigger] g.live_edge(k) implies g.edge_at(k).from
                != n_idx by {
                if k < gpre.edges@.len() {
                    assert(gpre.live_edge(k));
                } else {
                    assert(g.edge_at(k).from == src);
                }
            }
        }
        t += 1;
    }

    proof {
        assert(pe@.take(pe@.len() as int) =~= pe@);
    }
    // Transfer the out-edges of `v` to the new node.
    let mut t2: usize = 0;
    while t2 < ce.len()
        invariant
            g.wf(),
            g.nodes@ == nodes_f,
            nodes_f == g0.nodes@.update(v as int, Option::None).push(
                Some(fresh_node(NodeOp::Resize { width: rw, height: rh })),
            ),
            g0.wf(),
            nv == g0.nodes.len(),
            n_idx == nv,
            v < nv,
            g0.live_node(v as int),
            t2 <= ce.len(),
            rewrite_edges_shape(g0, *g, pe@, ce@.take(t2 as int), v, n_idx),
            forall|s: int| 0 <= s < pe@.len() ==> in_entry_ok(g0, v as int, #[trigger] pe@[s]),
            forall|s: int| 0 <= s < ce@.len() ==> out_entry_ok(g0, v as int, #[trigger] ce@[s]),
        decreases ce.len() - t2,
    {
        let (dst, knd) = ce[t2];
        proof {
            assert(ce@[t2 as int] == (dst, knd));
            assert(out_entry_ok(g0, v as int, (dst, knd)));
            let e3 = choose|e3: int|
                g0.edge_connects(e3, v as int, dst as int) && g0.edge_at(e3).kind == knd;
            assert(g0.live_node(dst as int));
            assert(g0.edge_at(e3).from != g0.edge_at(e3).to);
            assert(dst != v);
            assert((dst as int) < nv);
            assert(g.nodes@[dst as int] == g0.nodes@[dst as int]);
            assert(g.live_node(dst as int));
            assert(g.live_node(n_idx as int));
            assert(g0.edge_between(v as int, dst as int));
            lemma_rewrite_no_cycle(g0, *g, pe@, ce@.take(t2 as int), v, n_idx, dst);
        }
        let ghost gpre = *g;
        let r = g.add_edge(n_idx, dst, knd);
        match r {
            Ok(_) => {},
            Err(_) => {
                proof {
                    assert(false);
                }
            },
        }
        proof {
            assert(g.edges@ == gpre.edges@.push(Some(Edge { from: n_idx, to: dst, kind: knd })));
            assert(ce@.take(t2 as int + 1) =~= ce@.take(t2 as int).push(ce@[t2 as int]));
            assert(rewrite_edges_shape(g0, *g, pe@, ce@.take(t2 as int + 1), v, n_idx));
        }
        t2 += 1;
    }

    proof {
        assert(pe@.take(pe@.len() as int) =~= pe@);
        assert(ce@.take(ce@.len() as int) =~= ce@);
        assert(rewrite_edges_shape(g0, *g, pe@, ce@, v, n_idx));
        lemma_rewrite_post(g0, *g, pe@, ce@, v, n_idx, rw, rh);
    }
}

/// The bounding box of a live `Constrain` node.
fn constrain_bounds(g: &Graph, v: usize) -> (r: (u32, u32))
    requires
        g.live_node(v as int),
        g.node_at(v as int).op is Constrain,
    ensures
        g.node_at(v as int).op == (NodeOp::Constrain { max_width: r.0, max_height: r.1 }),
{
    match g.node_weight(v) {
        Some(nd) => match nd.op {
            NodeOp::Constrain { max_width, max_height } => (max_width, max_height),
            _ => {
                proof {
                    assert(false);
                }
                (0, 0)
            },
        },
        None => {
            proof {
                assert(false);
            }
            (0, 0)
        },
    }
}

/// The pre-optimize flatten pass: repeatedly rewrites the lowest-index
/// eligible composite node into a primitive `Resize` whose target is the
/// aspect-preserving fit of its input into the constraint box, until a
/// full scan finds nothing left to rewrite. Each rewrite removes one
/// composite node and adds none, so the fixed point is reached.
pub fn graph_pre_optimize_flatten(g: &mut Graph)
    requires
        old(g).wf(),
        stage_est_ok(*old(g)),
        executed_closed(*old(g)),
    ensures
        final(g).wf(),
        stage_est_ok(*final(g)),
        executed_closed(*final(g)),
        graph_evolves(*old(g), *final(g)),
        forall|v: int| !flatten_eligible(*final(g), v),
        forall|i: int| #[trigger] old(g).live_node(i) && final(g).live_node(i)
            ==> final(g).node_at(i) == old(g).node_at(i),
        forall|i: int| #[trigger] old(g).live_node(i) && !final(g).live_node(i)
            ==> old(g).node_at(i).op is Constrain && !(old(g).node_at(i).stage is Executed),
        forall|i: int| old(g).nodes.len() <= i < final(g).nodes.len()
            && #[trigger] final(g).live_node(i) ==> final(g).node_at(i).op is Resize
            && final(g).node_at(i).stage is New && final(g).node_at(i).frame_est is None
            && final(g).node_at(i).codec is None,
        count_constrain(final(g).nodes@) <= count_constrain(old(g).nodes@),
        (exists|v: int| flatten_eligible(*old(g), v)) ==> count_constrain(final(g).nodes@)
            < count_constrain(old(g).nodes@),
        count_constrain(old(g).nodes@) == 0 ==> *final(g) == *old(g),
        healthy(*old(g)) ==> healthy(*final(g)),
        codecs_bound(*old(g)) ==> codecs_bound(*final(g)),
{
    loop
        invariant
            g.wf(),
            stage_est_ok(*g),
            executed_closed(*g),
            graph_evolves(*old(g), *g),
            forall|i: int| #[trigger] old(g).live_node(i) && g.live_node(i) ==> g.node_at(i)
                == old(g).node_at(i),
            forall|i: int| #[trigger] old(g).live_node(i) && !g.live_node(i) ==> old(g).node_at(
                i,
            ).op is Constrain && !(old(g).node_at(i).stage is Executed),
            forall|i: int| old(g).nodes.len() <= i < g.nodes.len() && #[trigger] g.live_node(i)
                ==> g.node_at(i).op is Resize && g.node_at(i).stage is New && g.node_at(
                i,
            ).frame_est is None && g.node_at(i).codec is None,
            count_constrain(g.nodes@) <= count_constrain(old(g).nodes@),
            *g == *old(g) || count_constrain(g.nodes@) < count_constrain(old(g).nodes@),
            count_constrain(old(g).nodes@) == 0 ==> *g == *old(g),
            healthy(*old(g)) ==> healthy(*g),
            codecs_bound(*old(g)) ==> codecs_bound(*g),
        ensures
            forall|v: int| !flatten_eligible(*g, v),
        decreases count_constrain(g.nodes@),
    {
        match find_flatten_candidate(g) {
            Some(v) => {
                proof {
                    lemma_count_constrain_zero(g.nodes@, v as int);
                }
                let (mw, mh) = constrain_bounds(g, v);
                let inp = first_input_est(g, v);
                let (rw, rh) = fit_dimensions(inp, mw, mh);
                let ghost gp = *g;
                rewrite_constrain(g, v, rw, rh);
                proof {
                    lemma_evolves_trans(*old(g), gp, *g);
                    lemma_count_constrain_clear(gp.nodes@, v as int);
                    lemma_count_constrain_push(
                        gp.nodes@.update(v as int, Option::None),
                        Some(fresh_node(NodeOp::Resize { width: rw, height: rh })),
                    );
                    let vv = v as int;
                    if vv >= old(g).nodes.len() {
                        assert(gp.live_node(vv));
                        assert(gp.node_at(vv).op is Resize);
                        assert(false);
                    }
                    assert forall|i: int|
                        old(g).nodes.len() <= i < g.nodes.len() && #[trigger] g.live_node(i)
                        implies g.node_at(i).op is Resize && g.node_at(i).stage is New
                        && g.node_at(i).frame_est is None && g.node_at(i).codec is None by {
                        if i == gp.nodes@.len() as int {
                            assert(g.node_at(i) == fresh_node(
                                NodeOp::Resize { width: rw, height: rh },
                            ));
                        } else {
                            assert(g.nodes@[i] == gp.nodes@[i]);
                            assert(gp.live_node(i));
                        }
                    }
                    assert forall|i: int|
                        #[trigger] old(g).live_node(i) && !g.live_node(i) implies old(g).node_at(
                        i,
                    ).op is Constrain && !(old(g).node_at(i).stage is Executed) by {
                        if g.nodes@[i] == gp.nodes@[i] || i == gp.nodes@.len() as int {
                        } else {
                            assert(i == vv);
                            assert(gp.live_node(vv));
                            if old(g).live_node(vv) {
                                assert(gp.node_at(vv) == old(g).node_at(vv));
                            }
                        }
                    }
                    let nvv = gp.nodes@.len() as int;
                    if healthy(*old(g)) {
                        assert(healthy(gp));
                        assert forall|i: int| #[trigger] g.live_node(i) implies {
                            &&& (match g.node_at(i).op {
                                NodeOp::Crop { x1, y1, x2, y2 } => x1 <= x2 && y1 <= y2,
                                NodeOp::Encode { .. } => exists|e: int| #[trigger] g.live_edge(e)
                                    && g.edge_at(e).to == i && g.edge_at(e).kind is Input,
                                NodeOp::Constrain { .. } => g.node_at(i).frame_est is None,
                                _ => true,
                            })
                            &&& (g.node_at(i).frame_est is Some ==> crate::definitions::stage_index(
                                g.node_at(i).stage,
                            ) >= 1)
                        } by {
                            if i != nvv {
                                assert(i != vv && i < nvv);
                                assert(g.node_at(i) == gp.node_at(i));
                                assert(gp.live_node(i));
                                match gp.node_at(i).op {
                                    NodeOp::Encode { .. } => {
                                        let e = choose|e: int|
                                            #[trigger] gp.live_edge(e) && gp.edge_at(e).to == i
                                                && gp.edge_at(e).kind is Input;
                                        let u = gp.edge_at(e).from as int;
                                        assert(gp.edge_connects(e, u, i));
                                        assert(kind_edge_between(gp, u, i, EdgeKind::Input));
                                        if u == vv {
                                            assert(kind_edge_between(
                                                *g,
                                                nvv,
                                                i,
                                                EdgeKind::Input,
                                            ));
                                            let e2 = choose|e2: int|
                                                g.edge_connects(e2, nvv, i)
                                                    && #[trigger] g.edge_at(e2).kind
                                                    == EdgeKind::Input;
                                            assert(g.live_edge(e2) && g.edge_at(e2).to == i
                                                && g.edge_at(e2).kind is Input);
                                        } else {
                                            assert(gp.live_node(u));
                                            assert(u < nvv);
                                            assert(kind_edge_between(
                                                *g,
                                                u,
                                                i,
                                                EdgeKind::Input,
                                            ));
                                            let e2 = choose|e2: int|
                                                g.edge_connects(e2, u, i)
                                                    && #[trigger] g.edge_at(e2).kind
                                                    == EdgeKind::Input;
                                            assert(g.live_edge(e2) && g.edge_at(e2).to == i
                                                && g.edge_at(e2).kind is Input);
                                        }
                                    },
                                    _ => {},
                                }
                            }
                        }
                    }
                    if codecs_bound(*old(g)) {
                        assert(codecs_bound(gp));
                        assert forall|i: int|
                            #[trigger] g.live_node(i) && crate::definitions::op_uses_codec(
                            g.node_at(i).op,
                        ) implies g.node_at(i).codec is Some by {
                            if i != nvv {
                                assert(g.node_at(i) == gp.node_at(i));
                                assert(gp.live_node(i));
                            }
                        }
                    }
                }
            },
            None => {
                break;
            },
        }
    }
}

} // verus!
