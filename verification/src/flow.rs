//! The pass implementations and the job orchestrator: dimension
//! population, the two flatten passes, optimization, execute-where-certain,
//! codec linking, and the bounded convergence loop that drives a graph to
//! the `Executed` stage.

use vstd::prelude::*;

use crate::definitions::{
    CodecInstance, Edge, EdgeKind, FlowError, FrameEstimate, Node, NodeOp, NodeStage,
    op_placeholder, op_uses_codec, stage_index, stage_le,
};
use vstd::set_lib::{lemma_int_range, lemma_len_subset, set_int_range};

use crate::flatten::{
    count_constrain, lemma_count_constrain_same_ops, lemma_count_constrain_zero,
};
use crate::graph::Graph;
use crate::paths::{
    lemma_data_edge_reaches, lemma_data_reaches_trans, lemma_same_edges_same_data_reach,
};
use crate::walker::{dependency_walk_order, lemma_pending_has_ready, ready_in};

verus! {

/// The execution scope of one graph: pass-limit configuration, the debug
/// snapshot counter, and the externally supplied codec registry.
pub struct Job {
    pub max_calc_flatten_execute_passes: i32,
    pub next_graph_version: i32,
    pub debug_job_id: i32,
    pub record_graph_versions: bool,
    pub render_last_graph: bool,
    pub codecs: Vec<CodecInstance>,
}

impl Job {
    /// A fresh job with the given pass ceiling and an empty codec registry.
    pub fn new(max_passes: i32) -> (j: Job)
        ensures
            j.max_calc_flatten_execute_passes == max_passes,
            j.next_graph_version == 0,
            j.debug_job_id == 0,
            !j.record_graph_versions,
            !j.render_last_graph,
            j.codecs.len() == 0,
    {
        Job {
            max_calc_flatten_execute_passes: max_passes,
            next_graph_version: 0,
            debug_job_id: 0,
            record_graph_versions: false,
            render_last_graph: false,
            codecs: Vec::new(),
        }
    }

    /// Registers a codec instance for a placeholder id. Codec linking
    /// resolves decode/encode nodes against this registry, first match
    /// wins.
    pub fn add_codec(&mut self, placeholder_id: i32, width: u32, height: u32)
        ensures
            final(self).codecs@ == old(self).codecs@.push(
                CodecInstance { placeholder_id, width, height },
            ),
            final(self).max_calc_flatten_execute_passes == old(
                self,
            ).max_calc_flatten_execute_passes,
            final(self).next_graph_version == old(self).next_graph_version,
            final(self).debug_job_id == old(self).debug_job_id,
            final(self).record_graph_versions == old(self).record_graph_versions,
            final(self).render_last_graph == old(self).render_last_graph,
    {
        self.codecs.push(CodecInstance { placeholder_id, width, height });
    }
}

/// Every job field but the snapshot counter is unchanged.
pub open spec fn job_same_but_version(j1: Job, j2: Job) -> bool {
    &&& j2.max_calc_flatten_execute_passes == j1.max_calc_flatten_execute_passes
    &&& j2.debug_job_id == j1.debug_job_id
    &&& j2.record_graph_versions == j1.record_graph_versions
    &&& j2.render_last_graph == j1.render_last_graph
    &&& j2.codecs == j1.codecs
}

/// A node at or past `OutboundDimensionsKnown` carries a frame estimate.
pub open spec fn stage_est_ok(g: Graph) -> bool {
    forall|i: int| #[trigger] g.live_node(i) ==> (stage_index(g.node_at(i).stage) >= 1
        ==> g.node_at(i).frame_est is Some)
}

/// The dependency-ordering invariant: a data edge's target is `Executed`
/// only if its source is.
pub open spec fn executed_closed(g: Graph) -> bool {
    forall|e: int| #[trigger] g.live_edge(e) ==> ((g.edge_at(e).kind != EdgeKind::Advisory
        && g.node_at(g.edge_at(e).to as int).stage is Executed) ==> g.node_at(
        g.edge_at(e).from as int,
    ).stage is Executed)
}

/// Every live node has reached the terminal stage.
pub open spec fn all_executed(g: Graph) -> bool {
    forall|i: int| #[trigger] g.live_node(i) ==> g.node_at(i).stage is Executed
}

/// Same arena shape: identical edges, identical liveness, and identical
/// operation and codec binding per node; only stage, estimate and cost may
/// differ.
pub open spec fn same_shape(g1: Graph, g2: Graph) -> bool {
    &&& g2.nodes.len() == g1.nodes.len()
    &&& g2.edges@ == g1.edges@
    &&& forall|i: int| #[trigger] g2.live_node(i) ==> g1.live_node(i)
    &&& forall|i: int| #[trigger] g1.live_node(i) ==> g2.live_node(i) && g2.node_at(i).op
        == g1.node_at(i).op && g2.node_at(i).codec == g1.node_at(i).codec
}

/// How any engine step may change the graph: slots only grow, removed
/// slots stay removed, and a surviving node only moves forward: its stage
/// advances, an estimate once present is kept, cost accumulates, and its
/// operation never changes.
pub open spec fn graph_evolves(g1: Graph, g2: Graph) -> bool {
    &&& g2.nodes.len() >= g1.nodes.len()
    &&& forall|i: int| 0 <= i < g1.nodes.len() && !(#[trigger] g1.live_node(i))
        ==> !g2.live_node(i)
    &&& forall|i: int| #[trigger] g1.live_node(i) && g2.live_node(i) ==> {
        &&& stage_le(g1.node_at(i).stage, g2.node_at(i).stage)
        &&& (g1.node_at(i).frame_est is Some ==> g2.node_at(i).frame_est == g1.node_at(
            i,
        ).frame_est)
        &&& g2.node_at(i).cost.wall_ticks >= g1.node_at(i).cost.wall_ticks
        &&& g2.node_at(i).op == g1.node_at(i).op
        &&& (g1.node_at(i).codec is Some ==> g2.node_at(i).codec == g1.node_at(i).codec)
    }
}

/// `graph_evolves` composes.
pub proof fn lemma_evolves_trans(g1: Graph, g2: Graph, g3: Graph)
    requires
        graph_evolves(g1, g2),
        graph_evolves(g2, g3),
    ensures
        graph_evolves(g1, g3),
{
    assert forall|i: int| 0 <= i < g1.nodes.len() && !(#[trigger] g1.live_node(i))
        implies !g3.live_node(i) by {
        assert(!g2.live_node(i));
    }
    assert forall|i: int| #[trigger] g1.live_node(i) && g3.live_node(i) implies {
        &&& stage_le(g1.node_at(i).stage, g3.node_at(i).stage)
        &&& (g1.node_at(i).frame_est is Some ==> g3.node_at(i).frame_est == g1.node_at(
            i,
        ).frame_est)
        &&& g3.node_at(i).cost.wall_ticks >= g1.node_at(i).cost.wall_ticks
        &&& g3.node_at(i).op == g1.node_at(i).op
        &&& (g1.node_at(i).codec is Some ==> g3.node_at(i).codec == g1.node_at(i).codec)
    } by {
        assert(g2.live_node(i));
    }
}

/// The first live `Input`-kind edge into `v` at or after edge index `e`.
pub open spec fn first_input_edge_from(edges: Seq<Option<Edge>>, v: int, e: int) -> Option<int>
    decreases edges.len() - e,
{
    if e < 0 || e >= edges.len() {
        Option::None
    } else if edges[e] is Some && edges[e]->0.to == v && edges[e]->0.kind is Input {
        Some(e)
    } else {
        first_input_edge_from(edges, v, e + 1)
    }
}

/// The first live `Input`-kind edge into `v`.
pub open spec fn first_input_edge(edges: Seq<Option<Edge>>, v: int) -> Option<int> {
    first_input_edge_from(edges, v, 0)
}

/// The estimate of `v`'s primary input: the frame estimate of the source
/// of the first `Input`-kind edge into `v`, if any.
pub open spec fn input_est(g: Graph, v: int) -> Option<FrameEstimate> {
    match first_input_edge(g.edges@, v) {
        Some(e) => g.node_at(g.edge_at(e).from as int).frame_est,
        Option::None => Option::None,
    }
}

/// What dimension population computes for a node, per operation: decoders
/// report their codec's frame, encoders pass their input through, resize
/// and crop know their own output, and a composite `Constrain` has no
/// estimate until flattened.
pub open spec fn est_rule(n: Node, input: Option<FrameEstimate>) -> Option<FrameEstimate> {
    match n.op {
        NodeOp::Decode { .. } => match n.codec {
            Some(c) => Some(FrameEstimate { width: c.width, height: c.height }),
            Option::None => Option::None,
        },
        NodeOp::Encode { .. } => input,
        NodeOp::Resize { width, height } => Some(FrameEstimate { width, height }),
        NodeOp::Crop { x1, y1, x2, y2 } => if x1 <= x2 && y1 <= y2 {
            Some(FrameEstimate { width: (x2 - x1) as u32, height: (y2 - y1) as u32 })
        } else {
            Option::None
        },
        NodeOp::Constrain { .. } => Option::None,
    }
}

/// Whether the node at `node_id` is live and has a frame estimate.
pub fn flow_node_has_dimensions(g: &Graph, node_id: usize) -> (r: bool)
    ensures
        r == (g.live_node(node_id as int) && g.node_at(node_id as int).frame_est is Some),
{
    match g.node_weight(node_id) {
        Some(n) => n.frame_est.is_some(),
        None => false,
    }
}

/// Whether every data-dependency parent of `node_id` has a frame estimate.
pub fn flow_node_inputs_have_dimensions(g: &Graph, node_id: usize) -> (r: bool)
    requires
        g.edges_wf(),
    ensures
        r == forall|u: int| #[trigger] g.data_parent(u, node_id as int) ==> g.live_node(u)
            && g.node_at(u).frame_est is Some,
{
    let ps = g.parents(node_id);
    let mut k: usize = 0;
    while k < ps.len()
        invariant
            g.edges_wf(),
            k <= ps.len(),
            forall|t: int| 0 <= t < ps.len() ==> {
                &&& g.live_edge(#[trigger] ps@[t].0 as int)
                &&& g.edge_at(ps@[t].0 as int).to == node_id
                &&& g.edge_at(ps@[t].0 as int).from == ps@[t].1
            },
            forall|e: int| #[trigger] g.live_edge(e) && g.edge_at(e).to == node_id
                ==> exists|t: int| 0 <= t < ps.len() && ps@[t].0 == e,
            forall|t: int| 0 <= t < k ==> g.edge_at(#[trigger] ps@[t].0 as int).kind
                != EdgeKind::Advisory ==> g.live_node(ps@[t].1 as int) && g.node_at(
                ps@[t].1 as int,
            ).frame_est is Some,
        decreases ps.len() - k,
    {
        let (e_idx, p_idx) = ps[k];
        match g.edge_weight(e_idx) {
            Some(kind) => {
                if kind != EdgeKind::Advisory {
                    if !flow_node_has_dimensions(g, p_idx) {
                        proof {
                            assert(g.data_edge_connects(e_idx as int, p_idx as int,
                                node_id as int));
                            assert(g.data_parent(p_idx as int, node_id as int));
                        }
                        return false;
                    }
                }
            },
            None => {},
        }
        k += 1;
    }
    proof {
        assert forall|u: int| #[trigger] g.data_parent(u, node_id as int) implies g.live_node(u)
            && g.node_at(u).frame_est is Some by {
            let e = choose|e: int| g.data_edge_connects(e, u, node_id as int);
            assert(g.live_edge(e));
            let t = choose|t: int| 0 <= t < ps@.len() && ps@[t].0 == e;
            assert(g.edge_at(ps@[t].0 as int).from == ps@[t].1);
            assert(ps@[t].1 == u);
        }
    }
    true
}

/// Whether every live node has reached `Executed`.
pub fn job_graph_fully_executed(g: &Graph) -> (r: bool)
    ensures
        r == all_executed(*g),
{
    let n = g.node_slots();
    let mut i: usize = 0;
    while i < n
        invariant
            n == g.nodes.len(),
            i <= n,
            forall|j: int| 0 <= j < i && #[trigger] g.live_node(j) ==> g.node_at(
                j,
            ).stage is Executed,
        decreases n - i,
    {
        match g.node_weight(i) {
            Some(nd) => {
                if nd.stage != NodeStage::Executed {
                    return false;
                }
            },
            None => {},
        }
        i += 1;
    }
    true
}

/// The optimize visitor: a node that is `ReadyForOptimize` becomes
/// `Optimized`; other stages are left alone. Returns whether the node
/// exists. The `quit` and `skip_outbound_paths` signals are never raised
/// by this visitor.
pub fn node_visitor_optimize(
    g: &mut Graph,
    node_id: usize,
    quit: &mut bool,
    skip_outbound_paths: &mut bool,
) -> (r: bool)
    requires
        old(g).wf(),
    ensures
        final(g).wf(),
        r == old(g).live_node(node_id as int),
        *final(quit) == *old(quit),
        *final(skip_outbound_paths) == *old(skip_outbound_paths),
        final(g).edges == old(g).edges,
        !r ==> final(g).nodes == old(g).nodes,
        r ==> {
            &&& final(g).nodes@ == old(g).nodes@.update(
                node_id as int,
                Some(
                    Node {
                        stage: if old(g).node_at(
                            node_id as int,
                        ).stage is ReadyForOptimize {
                            NodeStage::Optimized
                        } else {
                            old(g).node_at(node_id as int).stage
                        },
                        ..old(g).node_at(node_id as int)
                    },
                ),
            )
        },
{
    match g.node_weight(node_id) {
        Some(n) => {
            let mut node = *n;
            if node.stage == NodeStage::ReadyForOptimize {
                node.stage = NodeStage::Optimized;
            }
            g.set_node(node_id, node);
            proof {
                assert(g.nodes@ =~= old(g).nodes@.update(
                    node_id as int,
                    Some(
                        Node {
                            stage: if old(g).node_at(
                                node_id as int,
                            ).stage is ReadyForOptimize {
                                NodeStage::Optimized
                            } else {
                                old(g).node_at(node_id as int).stage
                            },
                            ..old(g).node_at(node_id as int)
                        },
                    ),
                ));
            }
            true
        },
        None => false,
    }
}

/// Relies on time::precise_time_ns: a high-resolution tick counter used
/// only for cost accounting; nothing is assumed of the value returned.
#[verifier::external_body]
fn ticks_now() -> u64 {
    time::precise_time_ns()
}

/// Unfolding `est_rule` per operation shows the input estimate only
/// matters to an encoder, and an encoder only estimates once its input
/// has: a computed estimate is stable as inputs become known later.
pub proof fn lemma_est_rule_stable(n: Node, i1: Option<FrameEstimate>, i2: Option<FrameEstimate>)
    requires
        est_rule(n, i1) is Some,
        i1 is Some ==> i2 == i1,
    ensures
        est_rule(n, i2) == est_rule(n, i1),
{
}

/// Executable mirror of `est_rule`.
fn compute_est(n: &Node, input: Option<FrameEstimate>) -> (r: Option<FrameEstimate>)
    ensures
        r == est_rule(*n, input),
{
    match n.op {
        NodeOp::Decode { .. } => match n.codec {
            Some(c) => Some(FrameEstimate { width: c.width, height: c.height }),
            None => Option::None,
        },
        NodeOp::Encode { .. } => input,
        NodeOp::Resize { width, height } => Some(FrameEstimate { width, height }),
        NodeOp::Crop { x1, y1, x2, y2 } => {
            if x1 <= x2 && y1 <= y2 {
                Some(FrameEstimate { width: x2 - x1, height: y2 - y1 })
            } else {
                Option::None
            }
        },
        NodeOp::Constrain { .. } => Option::None,
    }
}

/// The frame estimate of the source of the first `Input`-kind edge into
/// `v`, if any such edge exists.
pub(crate) fn first_input_est(g: &Graph, v: usize) -> (r: Option<FrameEstimate>)
    requires
        g.edges_wf(),
    ensures
        r == input_est(*g, v as int),
{
    let mut e: usize = 0;
    while e < g.edges.len()
        invariant
            g.edges_wf(),
            e <= g.edges.len(),
            first_input_edge(g.edges@, v as int) == first_input_edge_from(
                g.edges@,
                v as int,
                e as int,
            ),
        decreases g.edges.len() - e,
    {
        match &g.edges[e] {
            Some(ed) => {
                if ed.to == v && ed.kind == EdgeKind::Input {
                    proof {
                        assert(g.live_edge(e as int));
                        assert(g.live_node(ed.from as int));
                    }
                    match g.node_weight(ed.from) {
                        Some(n) => {
                            return n.frame_est;
                        },
                        None => {
                            proof {
                                assert(false);
                            }
                        },
                    }
                }
            },
            None => {},
        }
        e += 1;
    }
    Option::None
}

/// Computes and sets this node's frame estimate if it is missing and the
/// operation can produce one; advances the node from `New` to
/// `OutboundDimensionsKnown` when it does. Returns whether an estimate
/// was computed. No operation in the closed set distinguishes a forced
/// estimate, so `force_estimate` changes nothing here.
pub fn flow_node_populate_dimensions(g: &mut Graph, node_id: usize, force_estimate: bool) -> (computed:
    bool)
    requires
        old(g).wf(),
        stage_est_ok(*old(g)),
    ensures
        final(g).wf(),
        stage_est_ok(*final(g)),
        same_shape(*old(g), *final(g)),
        graph_evolves(*old(g), *final(g)),
        executed_closed(*old(g)) ==> executed_closed(*final(g)),
        computed == (old(g).live_node(node_id as int) && old(g).node_at(
            node_id as int,
        ).frame_est is None && est_rule(
            old(g).node_at(node_id as int),
            input_est(*old(g), node_id as int),
        ) is Some),
        !computed ==> final(g).nodes == old(g).nodes,
        computed ==> final(g).nodes@ == old(g).nodes@.update(
            node_id as int,
            Some(
                Node {
                    stage: NodeStage::OutboundDimensionsKnown,
                    frame_est: est_rule(
                        old(g).node_at(node_id as int),
                        input_est(*old(g), node_id as int),
                    ),
                    ..old(g).node_at(node_id as int)
                },
            ),
        ),
        computed ==> old(g).node_at(node_id as int).stage is New,
        final(g).edges == old(g).edges,
{
    match g.node_weight(node_id) {
        Some(nd) => {
            if nd.frame_est.is_some() {
                return false;
            }
            let nd_copy = *nd;
            let inp = first_input_est(g, node_id);
            let newest = compute_est(&nd_copy, inp);
            match newest {
                Some(fe) => {
                    proof {
                        assert(forall|s: NodeStage|
                            stage_index(s) >= 1 || s is New);
                        assert(nd_copy.stage is New);
                    }
                    let mut node = nd_copy;
                    node.frame_est = Some(fe);
                    node.stage = NodeStage::OutboundDimensionsKnown;
                    g.set_node(node_id, node);
                    proof {
                        let g0 = *old(g);
                        let v = node_id as int;
                        assert forall|i: int| #[trigger] g.live_node(i) implies g0.live_node(
                            i,
                        ) by {
                            if i != v {
                                assert(g.nodes@[i] == g0.nodes@[i]);
                            }
                        }
                        if executed_closed(g0) {
                            assert forall|e: int| #[trigger] g.live_edge(e) && ((g.edge_at(e).kind
                                != EdgeKind::Advisory && g.node_at(
                                g.edge_at(e).to as int,
                            ).stage is Executed)) implies g.node_at(
                                g.edge_at(e).from as int,
                            ).stage is Executed by {
                                assert(g0.live_edge(e));
                                let t = g.edge_at(e).to as int;
                                let f = g.edge_at(e).from as int;
                                assert(t != v);
                                if f == v {
                                    assert(g0.node_at(t).stage is Executed);
                                    assert(g0.node_at(f).stage is Executed);
                                    assert(false);
                                }
                            }
                        }
                    }
                    true
                },
                None => false,
            }
        },
        None => false,
    }
}

/// Populates one node's dimensions and accumulates the elapsed wall ticks
/// on that node's cost when an estimate was computed.
pub fn flow_job_populate_dimensions_for_node(g: &mut Graph, node_id: usize, force_estimate: bool)
    requires
        old(g).wf(),
        stage_est_ok(*old(g)),
    ensures
        final(g).wf(),
        stage_est_ok(*final(g)),
        same_shape(*old(g), *final(g)),
        graph_evolves(*old(g), *final(g)),
        executed_closed(*old(g)) ==> executed_closed(*final(g)),
        final(g).edges == old(g).edges,
        forall|i: int| 0 <= i < old(g).nodes.len() && i != node_id as int ==> final(g).nodes@[i]
            == old(g).nodes@[i],
        !(old(g).live_node(node_id as int) && old(g).node_at(node_id as int).frame_est is None
            && est_rule(
            old(g).node_at(node_id as int),
            input_est(*old(g), node_id as int),
        ) is Some) ==> final(g).nodes == old(g).nodes,
        (old(g).live_node(node_id as int) && old(g).node_at(node_id as int).frame_est is None
            && est_rule(
            old(g).node_at(node_id as int),
            input_est(*old(g), node_id as int),
        ) is Some) ==> {
            &&& old(g).node_at(node_id as int).stage is New
            &&& final(g).live_node(node_id as int)
            &&& final(g).node_at(node_id as int) == (Node {
                stage: NodeStage::OutboundDimensionsKnown,
                frame_est: est_rule(
                    old(g).node_at(node_id as int),
                    input_est(*old(g), node_id as int),
                ),
                cost: final(g).node_at(node_id as int).cost,
                ..old(g).node_at(node_id as int)
            })
            &&& final(g).node_at(node_id as int).cost.wall_ticks >= old(g).node_at(
                node_id as int,
            ).cost.wall_ticks
        },
{
    let t0 = ticks_now();
    let computed = flow_node_populate_dimensions(g, node_id, force_estimate);
    if computed {
        let t1 = ticks_now();
        let elapsed = if t1 >= t0 {
            t1 - t0
        } else {
            0
        };
        let ghost gmid = *g;
        match g.node_weight(node_id) {
            Some(nd) => {
                let mut node = *nd;
                node.cost.wall_ticks = if node.cost.wall_ticks <= u64::MAX - elapsed {
                    node.cost.wall_ticks + elapsed
                } else {
                    u64::MAX
                };
                g.set_node(node_id, node);
                proof {
                    let g0 = *old(g);
                    let v = node_id as int;
                    assert forall|i: int| #[trigger] g.live_node(i) implies g0.live_node(i) by {
                        if i != v {
                            assert(g.nodes@[i] == g0.nodes@[i]);
                        }
                    }
                    if executed_closed(g0) {
                        assert(executed_closed(gmid));
                        assert forall|e: int| #[trigger] g.live_edge(e) && ((g.edge_at(e).kind
                            != EdgeKind::Advisory && g.node_at(
                            g.edge_at(e).to as int,
                        ).stage is Executed)) implies g.node_at(
                            g.edge_at(e).from as int,
                        ).stage is Executed by {
                            assert(gmid.live_edge(e));
                            let t = g.edge_at(e).to as int;
                            let f = g.edge_at(e).from as int;
                            assert(g.node_at(t).stage == gmid.node_at(t).stage);
                            assert(g.node_at(f).stage == gmid.node_at(f).stage);
                        }
                    }
                }
            },
            None => {
                proof {
                    assert(false);
                }
            },
        }
    }
}

/// The first `Input`-kind entry that `first_input_edge` finds really is a
/// live `Input` edge into `v`.
pub proof fn lemma_first_input_edge_props(edges: Seq<Option<Edge>>, v: int)
    ensures
        match first_input_edge(edges, v) {
            Some(e) => 0 <= e < edges.len() && edges[e] is Some && edges[e]->0.to == v
                && edges[e]->0.kind is Input,
            Option::None => true,
        },
{
    lemma_first_input_edge_from_props(edges, v, 0);
}

proof fn lemma_first_input_edge_from_props(edges: Seq<Option<Edge>>, v: int, k: int)
    ensures
        match first_input_edge_from(edges, v, k) {
            Some(e) => 0 <= e < edges.len() && edges[e] is Some && edges[e]->0.to == v
                && edges[e]->0.kind is Input,
            Option::None => true,
        },
    decreases edges.len() - k,
{
    if k < 0 || k >= edges.len() {
    } else if edges[k] is Some && edges[k]->0.to == v && edges[k]->0.kind is Input {
    } else {
        lemma_first_input_edge_from_props(edges, v, k + 1);
    }
}

/// `same_shape` composes.
pub proof fn lemma_same_shape_trans(g1: Graph, g2: Graph, g3: Graph)
    requires
        same_shape(g1, g2),
        same_shape(g2, g3),
    ensures
        same_shape(g1, g3),
{
    assert forall|i: int| #[trigger] g3.live_node(i) implies g1.live_node(i) by {
        assert(g2.live_node(i));
    }
    assert forall|i: int| #[trigger] g1.live_node(i) implies g3.live_node(i) && g3.node_at(i).op
        == g1.node_at(i).op && g3.node_at(i).codec == g1.node_at(i).codec by {
        assert(g2.live_node(i));
    }
}

/// A node that truly cannot be estimated: it has no estimate, every data
/// parent has one, and its operation still yields none. Only such nodes
/// (on some data path above) excuse a missing estimate after a sweep.
pub open spec fn populate_blocked(g: Graph, a: int) -> bool {
    &&& g.live_node(a)
    &&& g.node_at(a).frame_est is None
    &&& est_rule(g.node_at(a), input_est(g, a)) is None
    &&& forall|u: int| #[trigger] g.data_parent(u, a) ==> g.live_node(u) && g.node_at(
        u,
    ).frame_est is Some
}

/// Data parenthood depends only on the edge arena.
proof fn lemma_same_edges_data_parent(g1: Graph, g2: Graph, u: int, v: int)
    requires
        g1.edges@ == g2.edges@,
        g1.data_parent(u, v),
    ensures
        g2.data_parent(u, v),
{
    let e = choose|e: int| g1.data_edge_connects(e, u, v);
    assert(g2.data_edge_connects(e, u, v));
}

/// A blocked witness survives a step that leaves its own slot alone and
/// only ever adds estimates elsewhere.
proof fn lemma_blocked_preserved(gp: Graph, g: Graph, a: int)
    requires
        g.edges@ == gp.edges@,
        g.nodes@.len() == gp.nodes@.len(),
        populate_blocked(gp, a),
        forall|j: int| 0 <= j < gp.nodes@.len() && j != a ==> g.nodes@[j] == gp.nodes@[j] || (
        gp.live_node(j) && g.live_node(j) && gp.node_at(j).frame_est is None),
        g.nodes@[a] == gp.nodes@[a],
    ensures
        populate_blocked(g, a),
{
    assert forall|u: int| #[trigger] g.data_parent(u, a) implies g.live_node(u) && g.node_at(
        u,
    ).frame_est is Some by {
        lemma_same_edges_data_parent(g, gp, u, a);
        assert(gp.live_node(u) && gp.node_at(u).frame_est is Some);
        assert(u != a);
        assert(g.nodes@[u] == gp.nodes@[u]);
    }
    match first_input_edge(g.edges@, a) {
        Some(e) => {
            lemma_first_input_edge_props(g.edges@, a);
            assert(gp.live_edge(e) && g.live_edge(e) && g.edge_at(e) == gp.edge_at(e));
            let src = g.edge_at(e).from as int;
            assert(gp.data_edge_connects(e, src, a));
            assert(gp.data_parent(src, a));
            assert(gp.node_at(src).frame_est is Some);
            assert(src != a);
            assert(g.nodes@[src] == gp.nodes@[src]);
            assert(input_est(g, a) == input_est(gp, a));
        },
        Option::None => {
            assert(input_est(g, a) == input_est(gp, a));
        },
    }
    assert(g.node_at(a) == gp.node_at(a));
}

/// The frame conditions of one dimension-population sweep: the graph's
/// shape is untouched; a node that already had an estimate is untouched
/// entirely; a node that gains one was `New`, advances to
/// `OutboundDimensionsKnown`, and its estimate is exactly what `est_rule`
/// gives for its operation and its primary input's (final) estimate; a
/// node that gains none is untouched.
pub open spec fn populate_frame(g0: Graph, g1: Graph) -> bool {
    &&& g1.wf()
    &&& stage_est_ok(g1)
    &&& same_shape(g0, g1)
    &&& graph_evolves(g0, g1)
    &&& (executed_closed(g0) ==> executed_closed(g1))
    &&& forall|i: int| #[trigger] g0.live_node(i) && g0.node_at(i).frame_est is Some
        ==> g1.node_at(i) == g0.node_at(i)
    &&& forall|i: int| #[trigger] g0.live_node(i) && g1.node_at(i).frame_est is None
        ==> g1.node_at(i) == g0.node_at(i)
    &&& forall|i: int| #[trigger] g0.live_node(i) && g0.node_at(i).frame_est is None
        && g1.node_at(i).frame_est is Some ==> {
        &&& g0.node_at(i).stage is New
        &&& g1.node_at(i).stage is OutboundDimensionsKnown
        &&& g1.node_at(i).frame_est == est_rule(g0.node_at(i), input_est(g1, i))
    }
}

/// Everything `populate_frame` says, plus completeness: a node still
/// missing its estimate is excused by a genuinely blocked node on some
/// data path above it (or is itself one).
pub open spec fn populate_post(g0: Graph, g1: Graph) -> bool {
    &&& populate_frame(g0, g1)
    &&& forall|i: int| #[trigger] g1.live_node(i) && g1.node_at(i).frame_est is None
        ==> exists|a: int| (a == i || g1.data_reaches(a, i)) && #[trigger] populate_blocked(
        g1,
        a,
    )
}

/// Whether some data parent of `v` is marked in the skip set (used to
/// prune the descendants of a node that could not advance this pass).
fn data_parent_skipped(g: &Graph, skip: &Vec<bool>, v: usize) -> (r: bool)
    requires
        g.edges_wf(),
        skip.len() == g.nodes.len(),
    ensures
        r == exists|u: int| #[trigger] g.data_parent(u, v as int) && 0 <= u < skip@.len()
            && skip@[u],
{
    let mut e: usize = 0;
    while e < g.edges.len()
        invariant
            g.edges_wf(),
            skip.len() == g.nodes.len(),
            e <= g.edges.len(),
            forall|e2: int| 0 <= e2 < e && #[trigger] g.live_edge(e2) && g.edge_at(e2).to
                == v && g.edge_at(e2).kind != EdgeKind::Advisory ==> !skip@[g.edge_at(
                e2,
            ).from as int],
        decreases g.edges.len() - e,
    {
        match &g.edges[e] {
            Some(ed) => {
                if ed.to == v && ed.kind != EdgeKind::Advisory {
                    proof {
                        assert(g.live_edge(e as int));
                        assert(g.live_node(ed.from as int));
                    }
                    if skip[ed.from] {
                        proof {
                            assert(g.data_edge_connects(e as int, ed.from as int, v as int));
                            assert(g.data_parent(ed.from as int, v as int));
                        }
                        return true;
                    }
                }
            },
            None => {},
        }
        e += 1;
    }
    proof {
        assert forall|u: int|
            #[trigger] g.data_parent(u, v as int) && 0 <= u < skip@.len() implies !skip@[u] by {
            let e2 = choose|e2: int| g.data_edge_connects(e2, u, v as int);
            assert(g.live_edge(e2));
        }
    }
    false
}

/// One dimension-population sweep in dependency order. A node whose data
/// parents all have estimates gets its own computed; one that cannot be
/// estimated yet has its outbound paths skipped for the rest of the sweep.
#[verifier::rlimit(100)]
fn populate_walk(g: &mut Graph, force_estimate: bool)
    requires
        old(g).wf(),
        stage_est_ok(*old(g)),
    ensures
        populate_post(*old(g), *final(g)),
{
    let ghost g0 = *old(g);
    let order = dependency_walk_order(g);
    let n = g.node_slots();
    proof {
        assert forall|k: int| 0 <= k < order@.len() implies (#[trigger] order@[k] as int)
            < n by {
            assert(g.live_node(order@[k] as int));
        }
    }
    let mut skip: Vec<bool> = vec![false; n];
    let mut idx: usize = 0;
    while idx < order.len()
        invariant
            populate_frame(g0, *g),
            n == g0.nodes.len(),
            n == g.nodes.len(),
            skip.len() == n,
            forall|k: int| 0 <= k < order@.len() ==> (#[trigger] order@[k] as int) < n,
            forall|k: int| 0 <= k < order@.len() ==> g0.live_node(#[trigger] order@[k] as int),
            forall|k1: int, k2: int| 0 <= k1 < k2 < order@.len() ==> order@[k1] != order@[k2],
            forall|i: int| #[trigger] g0.live_node(i) ==> exists|k: int| 0 <= k < order@.len()
                && order@[k] == i,
            forall|k: int, u: int|
                #![trigger g0.data_parent(u, order@[k] as int)]
                0 <= k < order@.len() && g0.data_parent(u, order@[k] as int) ==> exists|j: int|
                    0 <= j < k && order@[j] == u,
            forall|u: int| 0 <= u < n && #[trigger] skip@[u] ==> exists|a: int| (a == u
                || g.data_reaches(a, u)) && #[trigger] populate_blocked(*g, a),
            forall|k: int|
                #![trigger order@[k]]
                0 <= k < idx ==> (g.live_node(order@[k] as int) && g.node_at(
                    order@[k] as int,
                ).frame_est is None ==> skip@[order@[k] as int]),
        decreases order.len() - idx,
    {
        let v = order[idx];
        let ghost vv = v as int;
        let parent_blocked = data_parent_skipped(g, &skip, v);
        if parent_blocked {
            let ghost skip0 = skip@;
            skip[v] = true;
            proof {
                // the skipped parent's witness also lies above this node
                let pu = choose|u: int|
                    g.data_parent(u, vv) && 0 <= u < skip0.len() && skip0[u];
                let a = choose|a: int|
                    (a == pu || g.data_reaches(a, pu)) && populate_blocked(*g, a);
                lemma_data_edge_reaches(*g, pu, vv);
                if a != pu {
                    lemma_data_reaches_trans(*g, a, pu, vv);
                }
                assert((a == vv || g.data_reaches(a, vv)) && populate_blocked(*g, a));
            }
        } else {
            if !flow_node_has_dimensions(g, v) {
                let inputs_known = flow_node_inputs_have_dimensions(g, v);
                if inputs_known || force_estimate {
                    let ghost gp = *g;
                    flow_job_populate_dimensions_for_node(g, v, force_estimate);
                    proof {
                        lemma_evolves_trans(g0, gp, *g);
                        lemma_same_shape_trans(g0, gp, *g);
                        // the skip set's blocked witnesses survive the step
                        assert forall|u: int| 0 <= u < n && #[trigger] skip@[u] implies exists|
                            a: int,
                        | (a == u || g.data_reaches(a, u)) && #[trigger] populate_blocked(
                            *g,
                            a,
                        ) by {
                            let a = choose|a: int|
                                (a == u || gp.data_reaches(a, u)) && populate_blocked(gp, a);
                            if g.nodes == gp.nodes && g.edges == gp.edges {
                                assert(*g == gp);
                            } else {
                                assert(gp.live_node(vv) && gp.node_at(vv).frame_est is None);
                                if a == vv {
                                    assert(est_rule(
                                        gp.node_at(vv),
                                        input_est(gp, vv),
                                    ) is None);
                                    assert(false);
                                }
                                assert(g.nodes@[a] == gp.nodes@[a]);
                                lemma_blocked_preserved(gp, *g, a);
                                assert(forall|e: int| gp.live_edge(e) <==> g.live_edge(e));
                                assert(forall|e: int| gp.live_edge(e) ==> gp.edge_at(e)
                                    == g.edge_at(e));
                                lemma_same_edges_same_data_reach(gp, *g);
                            }
                        }
                        assert forall|i: int| #[trigger] g0.live_node(i) && g0.node_at(
                            i,
                        ).frame_est is Some implies g.node_at(i) == g0.node_at(i) by {
                            if i == vv {
                                assert(gp.node_at(i) == g0.node_at(i));
                                assert(g.nodes == gp.nodes);
                            } else {
                                assert(g.nodes@[i] == gp.nodes@[i]);
                            }
                        }
                        assert forall|i: int| #[trigger] g0.live_node(i) && g.node_at(
                            i,
                        ).frame_est is None implies g.node_at(i) == g0.node_at(i) by {
                            if i == vv {
                                if gp.node_at(i).frame_est is Some {
                                    assert(g.node_at(i).frame_est == gp.node_at(i).frame_est);
                                    assert(false);
                                }
                                assert(g.nodes@[i] == gp.nodes@[i] || g.node_at(
                                    i,
                                ).frame_est is Some);
                            } else {
                                assert(g.nodes@[i] == gp.nodes@[i]);
                            }
                        }
                        assert forall|i: int| #[trigger] g0.live_node(i) && g0.node_at(
                            i,
                        ).frame_est is None && g.node_at(i).frame_est is Some implies {
                            &&& g0.node_at(i).stage is New
                            &&& g.node_at(i).stage is OutboundDimensionsKnown
                            &&& g.node_at(i).frame_est == est_rule(
                                g0.node_at(i),
                                input_est(*g, i),
                            )
                        } by {
                            let n_i = g0.node_at(i);
                            assert(g.edges@ == gp.edges@);
                            if i == vv && gp.node_at(i).frame_est is None {
                                // computed by this call
                                assert(gp.node_at(vv) == g0.node_at(vv));
                                assert(g.node_at(vv).frame_est == est_rule(
                                    gp.node_at(vv),
                                    input_est(gp, vv),
                                ));
                                lemma_first_input_edge_props(gp.edges@, i);
                                match first_input_edge(gp.edges@, i) {
                                    Some(e) => {
                                        assert(gp.live_edge(e));
                                        let s = gp.edge_at(e).from as int;
                                        assert(s != i);
                                        assert(g.nodes@[s] == gp.nodes@[s]);
                                        assert(input_est(*g, i) == input_est(gp, i));
                                    },
                                    Option::None => {
                                        assert(input_est(*g, i) == input_est(gp, i));
                                    },
                                }
                            } else {
                                // unchanged by this call; its input may have become known
                                if i == vv {
                                    assert(gp.node_at(i).frame_est is Some);
                                    assert(g.node_at(i) == gp.node_at(i));
                                } else {
                                    assert(g.nodes@[i] == gp.nodes@[i]);
                                }
                                assert(gp.node_at(i).frame_est == est_rule(
                                    n_i,
                                    input_est(gp, i),
                                ));
                                let i1 = input_est(gp, i);
                                let i2 = input_est(*g, i);
                                if i1 is Some {
                                    lemma_first_input_edge_props(gp.edges@, i);
                                    let e = first_input_edge(gp.edges@, i)->0;
                                    assert(gp.live_edge(e));
                                    let s = gp.edge_at(e).from as int;
                                    assert(gp.node_at(s).frame_est is Some);
                                    if s == vv {
                                        assert(g.nodes == gp.nodes);
                                    } else {
                                        assert(g.nodes@[s] == gp.nodes@[s]);
                                    }
                                    assert(i2 == i1);
                                }
                                lemma_est_rule_stable(n_i, i1, i2);
                            }
                        }
                    }
                }
                if !flow_node_has_dimensions(g, v) {
                    proof {
                        // every data parent has an estimate: one without would
                        // have been skipped earlier, and this node would have
                        // been pruned rather than visited
                        assert(g0.live_node(vv));
                        assert(g.live_node(vv));
                        assert forall|u: int| #[trigger] g.data_parent(u, vv) implies g.live_node(
                            u,
                        ) && g.node_at(u).frame_est is Some by {
                            assert(g.live_node(u));
                            if g.node_at(u).frame_est is None {
                                lemma_same_edges_data_parent(*g, g0, u, vv);
                                assert(g0.data_parent(u, order@[idx as int] as int));
                                let j = choose|j: int| 0 <= j < idx && order@[j] == u;
                                assert(g.live_node(order@[j] as int) && g.node_at(
                                    order@[j] as int,
                                ).frame_est is None);
                                assert(skip@[u]);
                                assert(false);
                            }
                        }
                        assert(est_rule(g.node_at(vv), input_est(*g, vv)) is None);
                        assert(populate_blocked(*g, vv));
                    }
                    skip[v] = true;
                    proof {
                        assert((vv == vv || g.data_reaches(vv, vv)) && populate_blocked(*g, vv));
                    }
                }
            }
        }
        idx += 1;
    }
    proof {
        assert forall|i: int| #[trigger] g.live_node(i) && g.node_at(i).frame_est is None
            implies exists|a: int| (a == i || g.data_reaches(a, i))
            && #[trigger] populate_blocked(*g, a) by {
            assert(g0.live_node(i));
            let k = choose|k: int| 0 <= k < order@.len() && order@[k] == i;
            assert(g.live_node(order@[k] as int) && g.node_at(order@[k] as int).frame_est is None);
            assert(skip@[i]);
        }
    }
}

/// The dimension-population pass: computes estimates for every node whose
/// data inputs all have known estimates, in dependency order, skipping the
/// descendants of nodes that cannot be estimated yet.
pub fn job_populate_dimensions_where_certain(g: &mut Graph)
    requires
        old(g).wf(),
        stage_est_ok(*old(g)),
    ensures
        populate_post(*old(g), *final(g)),
{
    populate_walk(g, false);
}

/// Dimension population with forced estimates. No operation in the closed
/// set distinguishes a forced estimate, so this sweep differs from
/// `job_populate_dimensions_where_certain` only in attempting nodes whose
/// inputs are not yet known.
pub fn flow_job_force_populate_dimensions(g: &mut Graph)
    requires
        old(g).wf(),
        stage_est_ok(*old(g)),
    ensures
        populate_post(*old(g), *final(g)),
{
    populate_walk(g, true);
}

/// Whether every data-dependency parent of `v` has reached `Executed`.
fn all_data_parents_executed(g: &Graph, v: usize) -> (r: bool)
    requires
        g.edges_wf(),
    ensures
        r == forall|u: int| #[trigger] g.data_parent(u, v as int) ==> g.live_node(u) && g.node_at(
            u,
        ).stage is Executed,
{
    let mut e: usize = 0;
    while e < g.edges.len()
        invariant
            g.edges_wf(),
            e <= g.edges.len(),
            forall|e2: int| 0 <= e2 < e && #[trigger] g.live_edge(e2) && g.edge_at(e2).to
                == v && g.edge_at(e2).kind != EdgeKind::Advisory ==> g.live_node(
                g.edge_at(e2).from as int,
            ) && g.node_at(g.edge_at(e2).from as int).stage is Executed,
        decreases g.edges.len() - e,
    {
        match &g.edges[e] {
            Some(ed) => {
                if ed.to == v && ed.kind != EdgeKind::Advisory {
                    proof {
                        assert(g.live_edge(e as int));
                        assert(g.live_node(ed.from as int));
                    }
                    let executed = match g.node_weight(ed.from) {
                        Some(n) => n.stage == NodeStage::Executed,
                        None => false,
                    };
                    if !executed {
                        proof {
                            assert(g.data_edge_connects(e as int, ed.from as int, v as int));
                            assert(g.data_parent(ed.from as int, v as int));
                        }
                        return false;
                    }
                }
            },
            None => {},
        }
        e += 1;
    }
    proof {
        assert forall|u: int| #[trigger] g.data_parent(u, v as int) implies g.live_node(u)
            && g.node_at(u).stage is Executed by {
            let e2 = choose|e2: int| g.data_edge_connects(e2, u, v as int);
            assert(g.live_edge(e2));
        }
    }
    true
}

/// The frame conditions of the execute pass: shape untouched, the
/// dependency ordering invariant holds afterwards, and each node is
/// either untouched or has moved from `ReadyForExecution` to `Executed`
/// with only its cost otherwise changed.
pub open spec fn execute_frame(g0: Graph, g1: Graph) -> bool {
    &&& g1.wf()
    &&& stage_est_ok(g1)
    &&& executed_closed(g1)
    &&& same_shape(g0, g1)
    &&& graph_evolves(g0, g1)
    &&& forall|i: int| #[trigger] g0.live_node(i) ==> {
        ||| g1.node_at(i) == g0.node_at(i)
        ||| (g0.node_at(i).stage is ReadyForExecution && g1.node_at(i) == (Node {
            stage: NodeStage::Executed,
            cost: g1.node_at(i).cost,
            ..g0.node_at(i)
        }) && g1.node_at(i).cost.wall_ticks >= g0.node_at(i).cost.wall_ticks)
    }
}

/// A node the execute pass owes an execution to: live, cleared for
/// execution, codec bound where one is needed, and every data parent
/// already `Executed`.
pub open spec fn exec_ready(g: Graph, v: int) -> bool {
    &&& g.live_node(v)
    &&& g.node_at(v).stage is ReadyForExecution
    &&& (op_uses_codec(g.node_at(v).op) ==> g.node_at(v).codec is Some)
    &&& forall|u: int| #[trigger] g.data_parent(u, v) ==> g.live_node(u) && g.node_at(
        u,
    ).stage is Executed
}

/// Everything `execute_frame` says, plus completeness: no node the pass
/// owes an execution to is left unexecuted.
pub open spec fn execute_post(g0: Graph, g1: Graph) -> bool {
    &&& execute_frame(g0, g1)
    &&& forall|v: int| !(#[trigger] exec_ready(g1, v))
}

/// The execute pass: in dependency order, a node that is
/// `ReadyForExecution`, whose data parents have all executed, and whose
/// codec (for decode/encode) is bound, executes and is marked `Executed`;
/// a node that cannot execute yet has its outbound paths skipped rather
/// than treated as an error.
pub fn job_execute_where_certain(g: &mut Graph)
    requires
        old(g).wf(),
        stage_est_ok(*old(g)),
        executed_closed(*old(g)),
    ensures
        execute_post(*old(g), *final(g)),
{
    let ghost g0 = *old(g);
    let order = dependency_walk_order(g);
    let n = g.node_slots();
    proof {
        assert forall|k: int| 0 <= k < order@.len() implies (#[trigger] order@[k] as int)
            < n by {
            assert(g.live_node(order@[k] as int));
        }
    }
    let mut skip: Vec<bool> = vec![false; n];
    let mut idx: usize = 0;
    while idx < order.len()
        invariant
            execute_frame(g0, *g),
            n == g0.nodes.len(),
            n == g.nodes.len(),
            skip.len() == n,
            forall|k: int| 0 <= k < order@.len() ==> (#[trigger] order@[k] as int) < n,
            forall|k: int| 0 <= k < order@.len() ==> g0.live_node(#[trigger] order@[k] as int),
            forall|k1: int, k2: int| 0 <= k1 < k2 < order@.len() ==> order@[k1] != order@[k2],
            forall|i: int| #[trigger] g0.live_node(i) ==> exists|k: int| 0 <= k < order@.len()
                && order@[k] == i,
            forall|k: int, u: int|
                #![trigger g0.data_parent(u, order@[k] as int)]
                0 <= k < order@.len() && g0.data_parent(u, order@[k] as int) ==> exists|j: int|
                    0 <= j < k && order@[j] == u,
            forall|u: int| 0 <= u < n && #[trigger] skip@[u] ==> g.live_node(u) && !(g.node_at(
                u,
            ).stage is Executed),
            forall|k: int|
                #![trigger order@[k]]
                0 <= k < idx ==> !exec_ready(*g, order@[k] as int),
            forall|k: int|
                #![trigger order@[k]]
                idx <= k < order@.len() ==> !skip@[order@[k] as int],
        decreases order.len() - idx,
    {
        let v = order[idx];
        let ghost vv = v as int;
        proof {
            assert(g0.live_node(vv));
            assert(g.live_node(vv));
        }
        if data_parent_skipped(g, &skip, v) {
            proof {
                // a skipped parent is unexecuted, so this node is neither
                // executed (dependency ordering) nor owed an execution
                let pu = choose|u: int|
                    g.data_parent(u, vv) && 0 <= u < skip@.len() && skip@[u];
                let e2 = choose|e2: int| g.data_edge_connects(e2, pu, vv);
                assert(g.live_edge(e2));
                if g.node_at(vv).stage is Executed {
                    assert(g.node_at(pu).stage is Executed);
                    assert(false);
                }
                assert(!exec_ready(*g, vv));
            }
            skip[v] = true;
        } else {
            let mut now_executed = false;
            match g.node_weight(v) {
                Some(nd) => {
                    if nd.stage == NodeStage::Executed {
                        now_executed = true;
                        proof {
                            assert(!exec_ready(*g, vv));
                        }
                    } else if nd.stage == NodeStage::ReadyForExecution {
                        let codec_ok = match nd.op {
                            NodeOp::Decode { .. } => nd.codec.is_some(),
                            NodeOp::Encode { .. } => nd.codec.is_some(),
                            _ => true,
                        };
                        proof {
                            assert(codec_ok == (op_uses_codec(g.node_at(vv).op) ==> g.node_at(
                                vv,
                            ).codec is Some));
                        }
                        if codec_ok && all_data_parents_executed(g, v) {
                            let t0 = ticks_now();
                            let mut node = *nd;
                            let t1 = ticks_now();
                            let elapsed = if t1 >= t0 {
                                t1 - t0
                            } else {
                                0
                            };
                            node.stage = NodeStage::Executed;
                            node.cost.wall_ticks = if node.cost.wall_ticks <= u64::MAX - elapsed {
                                node.cost.wall_ticks + elapsed
                            } else {
                                u64::MAX
                            };
                            let ghost gp = *g;
                            g.set_node(v, node);
                            now_executed = true;
                            proof {
                                let vv = v as int;
                                assert forall|i: int| #[trigger] g.live_node(i) implies
                                    gp.live_node(i) by {
                                    if i != vv {
                                        assert(g.nodes@[i] == gp.nodes@[i]);
                                    }
                                }
                                assert forall|e: int| #[trigger] g.live_edge(e) && ((g.edge_at(
                                    e,
                                ).kind != EdgeKind::Advisory && g.node_at(
                                    g.edge_at(e).to as int,
                                ).stage is Executed)) implies g.node_at(
                                    g.edge_at(e).from as int,
                                ).stage is Executed by {
                                    assert(gp.live_edge(e));
                                    let t = g.edge_at(e).to as int;
                                    let f = g.edge_at(e).from as int;
                                    if t == vv {
                                        assert(g.data_edge_connects(e, f, vv));
                                        assert(g.data_parent(f, vv));
                                        assert(gp.data_edge_connects(e, f, vv));
                                        assert(gp.data_parent(f, vv));
                                        assert(gp.node_at(f).stage is Executed);
                                        if f != vv {
                                            assert(g.nodes@[f] == gp.nodes@[f]);
                                        }
                                    } else {
                                        assert(g.node_at(t) == gp.node_at(t));
                                        assert(gp.node_at(f).stage is Executed);
                                        if f != vv {
                                            assert(g.nodes@[f] == gp.nodes@[f]);
                                        }
                                    }
                                }
                                assert forall|i: int| #[trigger] g0.live_node(i) implies {
                                    ||| g.node_at(i) == g0.node_at(i)
                                    ||| (g0.node_at(i).stage is ReadyForExecution && g.node_at(i)
                                        == (Node {
                                        stage: NodeStage::Executed,
                                        cost: g.node_at(i).cost,
                                        ..g0.node_at(i)
                                    }) && g.node_at(i).cost.wall_ticks >= g0.node_at(
                                        i,
                                    ).cost.wall_ticks)
                                } by {
                                    if i != vv {
                                        assert(g.nodes@[i] == gp.nodes@[i]);
                                    } else {
                                        assert(gp.node_at(vv) == g0.node_at(vv));
                                    }
                                }
                                assert(!exec_ready(*g, vv));
                                // earlier nodes stay settled: this node is no
                                // data parent of any node walked before it
                                assert forall|k: int|
                                    #![trigger order@[k]]
                                    0 <= k < idx implies !exec_ready(
                                    *g,
                                    order@[k] as int,
                                ) by {
                                    let w = order@[k] as int;
                                    assert(!exec_ready(gp, w));
                                    assert(w != vv);
                                    assert(g.nodes@[w] == gp.nodes@[w]);
                                    if exec_ready(*g, w) {
                                        assert(!(forall|u: int| #[trigger] gp.data_parent(u, w)
                                            ==> gp.live_node(u) && gp.node_at(
                                            u,
                                        ).stage is Executed));
                                        let u = choose|u: int|
                                            gp.data_parent(u, w) && !(gp.live_node(u)
                                                && gp.node_at(u).stage is Executed);
                                        lemma_same_edges_data_parent(gp, *g, u, w);
                                        assert(g.data_parent(u, w));
                                        assert(g.live_node(u) && g.node_at(
                                            u,
                                        ).stage is Executed);
                                        if u == vv {
                                            lemma_same_edges_data_parent(gp, g0, u, w);
                                            assert(g0.data_parent(u, order@[k] as int));
                                            let j = choose|j: int| 0 <= j < k && order@[j] == u;
                                            assert(order@[j] == order@[idx as int]);
                                            assert(false);
                                        } else {
                                            assert(g.nodes@[u] == gp.nodes@[u]);
                                            assert(false);
                                        }
                                    }
                                }
                            }
                        } else {
                            proof {
                                assert(!exec_ready(*g, vv));
                                assert(!(g.node_at(vv).stage is Executed));
                            }
                        }
                    } else {
                        proof {
                            assert(!exec_ready(*g, vv));
                            assert(!(g.node_at(vv).stage is Executed));
                        }
                    }
                },
                None => {
                    proof {
                        assert(false);
                    }
                },
            }
            if !now_executed {
                skip[v] = true;
            }
        }
        idx += 1;
    }
    proof {
        assert forall|v: int| !(#[trigger] exec_ready(*g, v)) by {
            if exec_ready(*g, v) {
                assert(g.live_node(v));
                assert(g0.live_node(v));
                let k = choose|k: int| 0 <= k < order@.len() && order@[k] == v;
                assert(!exec_ready(*g, order@[k] as int));
                assert(false);
            }
        }
    }
}

/// Stage motion of the optimize pass: a node whose dimensions are known
/// becomes eligible and is optimized in the same sweep.
pub open spec fn optimize_stage(s: NodeStage) -> NodeStage {
    if s is OutboundDimensionsKnown || s is ReadyForOptimize {
        NodeStage::Optimized
    } else {
        s
    }
}

/// Stage motion of the post-optimize flatten pass: an optimized node is
/// flattened (no current operation rewrites here) and cleared for
/// execution.
pub open spec fn post_flatten_stage(s: NodeStage) -> NodeStage {
    if s is Optimized || s is ReadyForPostOptimizeFlatten {
        NodeStage::ReadyForExecution
    } else {
        s
    }
}

/// The optimize pass: every node with known dimensions advances through
/// `ReadyForOptimize` to `Optimized`; rule application is in-place and
/// changes no graph shape. Nothing else about any node changes.
pub fn graph_optimize(g: &mut Graph)
    requires
        old(g).wf(),
        stage_est_ok(*old(g)),
    ensures
        final(g).wf(),
        stage_est_ok(*final(g)),
        same_shape(*old(g), *final(g)),
        graph_evolves(*old(g), *final(g)),
        executed_closed(*old(g)) ==> executed_closed(*final(g)),
        final(g).nodes.len() == old(g).nodes.len(),
        forall|i: int| #[trigger] old(g).live_node(i) ==> final(g).node_at(i) == (Node {
            stage: optimize_stage(old(g).node_at(i).stage),
            ..old(g).node_at(i)
        }),
{
    let n = g.node_slots();
    let mut i: usize = 0;
    while i < n
        invariant
            g.wf(),
            n == g.nodes.len(),
            n == old(g).nodes.len(),
            i <= n,
            g.edges@ == old(g).edges@,
            forall|j: int| i <= j < n ==> g.nodes@[j] == old(g).nodes@[j],
            forall|j: int| 0 <= j < i && old(g).live_node(j) ==> g.live_node(j) && g.node_at(j)
                == (Node { stage: optimize_stage(old(g).node_at(j).stage), ..old(g).node_at(j) }),
            forall|j: int| 0 <= j < i && !old(g).live_node(j) ==> g.nodes@[j] == old(g).nodes@[j],
        decreases n - i,
    {
        let present: bool = match g.node_weight(i) {
            Some(nd) => {
                if nd.stage == NodeStage::OutboundDimensionsKnown {
                    let mut node = *nd;
                    node.stage = NodeStage::ReadyForOptimize;
                    g.set_node(i, node);
                }
                true
            },
            None => false,
        };
        if present {
            let mut quit = false;
            let mut skip = false;
            node_visitor_optimize(g, i, &mut quit, &mut skip);
        }
        i += 1;
    }
    proof {
        assert forall|i2: int| #[trigger] g.live_node(i2) implies old(g).live_node(i2) by {
            if !old(g).live_node(i2) && 0 <= i2 < n {
                assert(g.nodes@[i2] == old(g).nodes@[i2]);
            }
        }
        assert forall|e: int| #[trigger] g.live_edge(e) && ((g.edge_at(e).kind
            != EdgeKind::Advisory && g.node_at(g.edge_at(e).to as int).stage is Executed))
            implies executed_closed(*old(g)) ==> g.node_at(
            g.edge_at(e).from as int,
        ).stage is Executed by {
            assert(old(g).live_edge(e));
        }
    }
}

/// The post-optimize flatten pass: optimized nodes pass through
/// `ReadyForPostOptimizeFlatten` to `ReadyForExecution`. No operation in
/// the closed set rewrites at this point, so the graph shape is
/// re-validated unchanged.
pub fn graph_post_optimize_flatten(g: &mut Graph)
    requires
        old(g).wf(),
        stage_est_ok(*old(g)),
    ensures
        final(g).wf(),
        stage_est_ok(*final(g)),
        same_shape(*old(g), *final(g)),
        graph_evolves(*old(g), *final(g)),
        executed_closed(*old(g)) ==> executed_closed(*final(g)),
        final(g).nodes.len() == old(g).nodes.len(),
        forall|i: int| #[trigger] old(g).live_node(i) ==> final(g).node_at(i) == (Node {
            stage: post_flatten_stage(old(g).node_at(i).stage),
            ..old(g).node_at(i)
        }),
{
    let n = g.node_slots();
    let mut i: usize = 0;
    while i < n
        invariant
            g.wf(),
            n == g.nodes.len(),
            n == old(g).nodes.len(),
            i <= n,
            g.edges@ == old(g).edges@,
            forall|j: int| i <= j < n ==> g.nodes@[j] == old(g).nodes@[j],
            forall|j: int| 0 <= j < i && old(g).live_node(j) ==> g.live_node(j) && g.node_at(j)
                == (Node {
                stage: post_flatten_stage(old(g).node_at(j).stage),
                ..old(g).node_at(j)
            }),
            forall|j: int| 0 <= j < i && !old(g).live_node(j) ==> g.nodes@[j] == old(g).nodes@[j],
        decreases n - i,
    {
        match g.node_weight(i) {
            Some(nd) => {
                if nd.stage == NodeStage::Optimized || nd.stage
                    == NodeStage::ReadyForPostOptimizeFlatten {
                    let mut node = *nd;
                    node.stage = NodeStage::ReadyForExecution;
                    g.set_node(i, node);
                }
            },
            None => {},
        }
        i += 1;
    }
    proof {
        assert forall|i2: int| #[trigger] g.live_node(i2) implies old(g).live_node(i2) by {
            if !old(g).live_node(i2) && 0 <= i2 < n {
                assert(g.nodes@[i2] == old(g).nodes@[i2]);
            }
        }
        assert forall|e: int| #[trigger] g.live_edge(e) && ((g.edge_at(e).kind
            != EdgeKind::Advisory && g.node_at(g.edge_at(e).to as int).stage is Executed))
            implies executed_closed(*old(g)) ==> g.node_at(
            g.edge_at(e).from as int,
        ).stage is Executed by {
            assert(old(g).live_edge(e));
        }
    }
}

/// The registry holds a codec instance for this placeholder id.
pub open spec fn codec_resolvable(codecs: Seq<CodecInstance>, pid: i32) -> bool {
    exists|k: int| 0 <= k < codecs.len() && (#[trigger] codecs[k]).placeholder_id == pid
}

/// The registry's first instance for a placeholder id, if any.
pub open spec fn first_codec(codecs: Seq<CodecInstance>, pid: i32) -> Option<CodecInstance>
    decreases codecs.len(),
{
    if codecs.len() == 0 {
        Option::None
    } else if codecs.first().placeholder_id == pid {
        Some(codecs.first())
    } else {
        first_codec(codecs.drop_first(), pid)
    }
}

/// The registry holds a first instance exactly when it resolves the id.
pub proof fn lemma_first_codec_resolvable(codecs: Seq<CodecInstance>, pid: i32)
    ensures
        first_codec(codecs, pid) is Some <==> codec_resolvable(codecs, pid),
        match first_codec(codecs, pid) {
            Some(c) => c.placeholder_id == pid,
            Option::None => true,
        },
    decreases codecs.len(),
{
    if codecs.len() > 0 {
        lemma_first_codec_resolvable(codecs.drop_first(), pid);
        if codecs.first().placeholder_id == pid {
            assert(codecs[0].placeholder_id == pid);
        } else {
            if codec_resolvable(codecs, pid) {
                let k = choose|k: int|
                    0 <= k < codecs.len() && (#[trigger] codecs[k]).placeholder_id == pid;
                assert(codecs.drop_first()[k - 1] == codecs[k]);
                assert(codec_resolvable(codecs.drop_first(), pid));
            }
            if codec_resolvable(codecs.drop_first(), pid) {
                let k = choose|k: int|
                    0 <= k < codecs.drop_first().len() && (#[trigger] codecs.drop_first()[k]).placeholder_id
                        == pid;
                assert(codecs[k + 1] == codecs.drop_first()[k]);
                assert(codec_resolvable(codecs, pid));
            }
        }
    } else {
        if codec_resolvable(codecs, pid) {
            let k = choose|k: int|
                0 <= k < codecs.len() && (#[trigger] codecs[k]).placeholder_id == pid;
            assert(false);
        }
    }
}

/// The first codec instance registered for `pid`, if any: first match
/// wins, so re-registering an id does not rebind earlier nodes.
fn lookup_codec(codecs: &Vec<CodecInstance>, pid: i32) -> (r: Option<CodecInstance>)
    ensures
        r == first_codec(codecs@, pid),
{
    let mut k: usize = 0;
    proof {
        assert(codecs@.skip(0) =~= codecs@);
    }
    while k < codecs.len()
        invariant
            k <= codecs.len(),
            first_codec(codecs@, pid) == first_codec(codecs@.skip(k as int), pid),
        decreases codecs.len() - k,
    {
        proof {
            assert(codecs@.skip(k as int).first() == codecs@[k as int]);
            assert(codecs@.skip(k as int).drop_first() =~= codecs@.skip(k as int + 1));
        }
        if codecs[k].placeholder_id == pid {
            return Some(codecs[k]);
        }
        k += 1;
    }
    proof {
        assert(codecs@.skip(codecs@.len() as int).len() == 0);
    }
    None
}

/// Codec linking: binds every decode/encode node without a codec to the
/// registry's instance for its placeholder id, before the convergence loop
/// starts. An unresolvable placeholder fails with `CodecNotFound`, naming
/// the placeholder id and the node, and aborts the execution.
pub fn job_link_codecs(job: &Job, g: &mut Graph) -> (r: Result<(), FlowError>)
    requires
        old(g).wf(),
        stage_est_ok(*old(g)),
    ensures
        final(g).wf(),
        stage_est_ok(*final(g)),
        executed_closed(*old(g)) ==> executed_closed(*final(g)),
        graph_evolves(*old(g), *final(g)),
        final(g).nodes.len() == old(g).nodes.len(),
        final(g).edges == old(g).edges,
        forall|i: int| 0 <= i < old(g).nodes.len() && !(#[trigger] old(g).live_node(i))
            ==> final(g).nodes@[i] == old(g).nodes@[i],
        forall|i: int| #[trigger] old(g).live_node(i) ==> {
            &&& final(g).live_node(i)
            &&& final(g).node_at(i) == (Node {
                codec: final(g).node_at(i).codec,
                ..old(g).node_at(i)
            })
            &&& (final(g).node_at(i).codec == old(g).node_at(i).codec || (old(g).node_at(
                i,
            ).codec is None && op_uses_codec(old(g).node_at(i).op) && final(g).node_at(i).codec
                == first_codec(job.codecs@, op_placeholder(old(g).node_at(i).op))
                && final(g).node_at(i).codec is Some))
        },
        match r {
            Ok(_) => forall|i: int| #[trigger] final(g).live_node(i) && op_uses_codec(
                final(g).node_at(i).op,
            ) ==> final(g).node_at(i).codec is Some,
            Err(err) => match err {
                FlowError::CodecNotFound { placeholder_id, node_index } => {
                    &&& old(g).live_node(node_index as int)
                    &&& final(g).live_node(node_index as int)
                    &&& op_uses_codec(old(g).node_at(node_index as int).op)
                    &&& op_placeholder(old(g).node_at(node_index as int).op) == placeholder_id
                    &&& old(g).node_at(node_index as int).codec is None
                    &&& final(g).node_at(node_index as int).codec is None
                    &&& !codec_resolvable(job.codecs@, placeholder_id)
                },
                _ => false,
            },
        },
{
    let n = g.node_slots();
    let mut i: usize = 0;
    while i < n
        invariant
            g.wf(),
            stage_est_ok(*g),
            executed_closed(*old(g)) ==> executed_closed(*g),
            graph_evolves(*old(g), *g),
            n == g.nodes.len(),
            n == old(g).nodes.len(),
            g.edges == old(g).edges,
            i <= n,
            forall|j: int| #[trigger] old(g).live_node(j) ==> {
                &&& g.live_node(j)
                &&& g.node_at(j) == (Node { codec: g.node_at(j).codec, ..old(g).node_at(j) })
                &&& (g.node_at(j).codec == old(g).node_at(j).codec || (old(g).node_at(
                    j,
                ).codec is None && op_uses_codec(old(g).node_at(j).op) && g.node_at(j).codec
                    == first_codec(job.codecs@, op_placeholder(old(g).node_at(j).op))
                    && g.node_at(j).codec is Some))
            },
            forall|j: int| 0 <= j < i && #[trigger] g.live_node(j) && op_uses_codec(
                g.node_at(j).op,
            ) ==> g.node_at(j).codec is Some,
            forall|j: int| 0 <= j < n && !(#[trigger] old(g).live_node(j)) ==> g.nodes@[j] == old(
                g,
            ).nodes@[j],
        decreases n - i,
    {
        let mut needs: Option<i32> = None;
        match g.node_weight(i) {
            Some(nd) => {
                if nd.codec.is_none() {
                    match nd.op {
                        NodeOp::Decode { placeholder_id } => {
                            needs = Some(placeholder_id);
                        },
                        NodeOp::Encode { placeholder_id } => {
                            needs = Some(placeholder_id);
                        },
                        _ => {},
                    }
                }
            },
            None => {},
        }
        match needs {
            Some(pid) => {
                match lookup_codec(&job.codecs, pid) {
                    Some(c) => {
                        let ghost gp = *g;
                        match g.node_weight(i) {
                            Some(nd) => {
                                let mut node = *nd;
                                node.codec = Some(c);
                                g.set_node(i, node);
                                proof {
                                    assert forall|j: int| #[trigger] g.live_node(j) implies
                                        gp.live_node(j) by {
                                        if j != i as int {
                                            assert(g.nodes@[j] == gp.nodes@[j]);
                                        }
                                    }
                                    if executed_closed(gp) {
                                        assert forall|e: int| #[trigger] g.live_edge(e) && ((
                                        g.edge_at(e).kind != EdgeKind::Advisory && g.node_at(
                                            g.edge_at(e).to as int,
                                        ).stage is Executed)) implies g.node_at(
                                            g.edge_at(e).from as int,
                                        ).stage is Executed by {
                                            assert(gp.live_edge(e));
                                            let t = g.edge_at(e).to as int;
                                            let f = g.edge_at(e).from as int;
                                            assert(g.node_at(t).stage == gp.node_at(t).stage);
                                            assert(g.node_at(f).stage == gp.node_at(f).stage);
                                        }
                                    }
                                }
                            },
                            None => {
                                proof {
                                    assert(false);
                                }
                            },
                        }
                    },
                    None => {
                        proof {
                            lemma_first_codec_resolvable(job.codecs@, pid);
                            let ii = i as int;
                            if !old(g).live_node(ii) {
                                assert(g.nodes@[ii] == old(g).nodes@[ii]);
                                assert(false);
                            }
                            assert(g.node_at(ii).codec is None);
                            assert(old(g).node_at(ii).codec is None);
                            assert(op_uses_codec(old(g).node_at(ii).op));
                        }
                        return Err(FlowError::CodecNotFound { placeholder_id: pid, node_index: i });
                    },
                }
            },
            None => {},
        }
        i += 1;
    }
    Ok(())
}

/// Notifies the debug observer hook that the graph may have changed: when
/// snapshot recording is on, the snapshot sequence number advances. The
/// export itself is an external side effect performed outside the engine;
/// it never alters engine state.
pub fn job_notify_graph_changed(job: &mut Job, g: &Graph)
    ensures
        job_same_but_version(*old(job), *final(job)),
        final(job).next_graph_version == if old(job).record_graph_versions && old(
            job,
        ).next_graph_version < i32::MAX {
            old(job).next_graph_version + 1
        } else {
            old(job).next_graph_version as int
        },
{
    if job.record_graph_versions && job.next_graph_version < i32::MAX {
        job.next_graph_version = job.next_graph_version + 1;
    }
}

/// The live nodes that have not reached `Executed`, in ascending index
/// order.
fn collect_unexecuted(g: &Graph) -> (r: Vec<usize>)
    ensures
        forall|k: int| 0 <= k < r@.len() ==> g.live_node(#[trigger] r@[k] as int) && !(g.node_at(
            r@[k] as int,
        ).stage is Executed),
        forall|k1: int, k2: int| 0 <= k1 < k2 < r@.len() ==> r@[k1] < r@[k2],
        forall|i: int| #[trigger] g.live_node(i) && !(g.node_at(i).stage is Executed)
            ==> exists|k: int| 0 <= k < r@.len() && r@[k] == i,
{
    let n = g.node_slots();
    let mut r: Vec<usize> = Vec::new();
    let mut i: usize = 0;
    while i < n
        invariant
            n == g.nodes.len(),
            i <= n,
            forall|k: int| 0 <= k < r@.len() ==> g.live_node(#[trigger] r@[k] as int) && !(
            g.node_at(r@[k] as int).stage is Executed) && r@[k] < i,
            forall|k1: int, k2: int| 0 <= k1 < k2 < r@.len() ==> r@[k1] < r@[k2],
            forall|j: int| 0 <= j < i && #[trigger] g.live_node(j) && !(g.node_at(
                j,
            ).stage is Executed) ==> exists|k: int| 0 <= k < r@.len() && r@[k] == j,
        decreases n - i,
    {
        let ghost r0 = r@;
        let mut push_it = false;
        match g.node_weight(i) {
            Some(nd) => {
                if nd.stage != NodeStage::Executed {
                    push_it = true;
                }
            },
            None => {},
        }
        if push_it {
            r.push(i);
        }
        proof {
            assert forall|j: int|
                0 <= j <= i as int && #[trigger] g.live_node(j) && !(g.node_at(
                    j,
                ).stage is Executed) implies exists|k: int| 0 <= k < r@.len() && r@[k] == j by {
                if j < i as int {
                    let k = choose|k: int| 0 <= k < r0.len() && r0[k] == j;
                    assert(r@[k] == j);
                } else {
                    assert(r@[r@.len() - 1] == j);
                }
            }
        }
        i += 1;
    }
    r
}

/// A graph the engine can always drive forward: crop windows are well
/// formed, every encoder has a primary input edge, composite nodes carry
/// no estimate (none is computable until they are flattened), and a node
/// with an estimate has reached `OutboundDimensionsKnown`. A freshly
/// built graph has all of this by construction.
pub open spec fn healthy(g: Graph) -> bool {
    forall|i: int| #[trigger] g.live_node(i) ==> {
        &&& (match g.node_at(i).op {
            NodeOp::Crop { x1, y1, x2, y2 } => x1 <= x2 && y1 <= y2,
            NodeOp::Encode { .. } => exists|e: int| #[trigger] g.live_edge(e) && g.edge_at(
                e,
            ).to == i && g.edge_at(e).kind is Input,
            NodeOp::Constrain { .. } => g.node_at(i).frame_est is None,
            _ => true,
        })
        &&& (g.node_at(i).frame_est is Some ==> stage_index(g.node_at(i).stage) >= 1)
    }
}

/// Every decode and encode node has a codec bound.
pub open spec fn codecs_bound(g: Graph) -> bool {
    forall|i: int| #[trigger] g.live_node(i) && op_uses_codec(g.node_at(i).op) ==> g.node_at(
        i,
    ).codec is Some
}

proof fn lemma_first_input_edge_from_none(edges: Seq<Option<Edge>>, v: int, k: int)
    requires
        0 <= k,
    ensures
        first_input_edge_from(edges, v, k) is None ==> forall|e: int| k <= e < edges.len()
            ==> !((#[trigger] edges[e]) is Some && edges[e]->0.to == v
            && edges[e]->0.kind is Input),
    decreases edges.len() - k,
{
    if k < edges.len() {
        lemma_first_input_edge_from_none(edges, v, k + 1);
    }
}

/// A node with some live `Input`-kind in-edge has a first one.
proof fn lemma_first_input_exists(edges: Seq<Option<Edge>>, v: int)
    requires
        exists|e: int| 0 <= e < edges.len() && (#[trigger] edges[e]) is Some && edges[e]->0.to
            == v && edges[e]->0.kind is Input,
    ensures
        first_input_edge(edges, v) is Some,
{
    lemma_first_input_edge_from_none(edges, v, 0);
    if first_input_edge(edges, v) is None {
        let e = choose|e: int|
            0 <= e < edges.len() && (#[trigger] edges[e]) is Some && edges[e]->0.to == v
                && edges[e]->0.kind is Input;
        assert(false);
    }
}

/// Under a healthy, codec-bound start, only a composite node can be
/// blocked after a population sweep: every other operation yields an
/// estimate once its data parents have theirs.
proof fn lemma_blocked_is_constrain(g0: Graph, g1: Graph, a: int)
    requires
        same_shape(g0, g1),
        healthy(g0),
        codecs_bound(g0),
        populate_blocked(g1, a),
    ensures
        g1.node_at(a).op is Constrain,
        g0.live_node(a),
        g0.node_at(a).op is Constrain,
{
    assert(g1.live_node(a));
    assert(g0.live_node(a));
    assert(g1.node_at(a).op == g0.node_at(a).op && g1.node_at(a).codec == g0.node_at(a).codec);
    assert(est_rule(g1.node_at(a), input_est(g1, a)) is None);
    match g0.node_at(a).op {
        NodeOp::Constrain { .. } => {},
        NodeOp::Decode { .. } => {
            assert(g0.node_at(a).codec is Some);
            assert(false);
        },
        NodeOp::Resize { .. } => {
            assert(false);
        },
        NodeOp::Crop { .. } => {
            assert(false);
        },
        NodeOp::Encode { .. } => {
            let e = choose|e: int|
                g0.live_edge(e) && g0.edge_at(e).to == a && g0.edge_at(e).kind is Input;
            assert(g1.edges@ == g0.edges@);
            assert(g1.edges@[e] is Some && g1.edges@[e]->0.to == a
                && g1.edges@[e]->0.kind is Input);
            lemma_first_input_exists(g1.edges@, a);
            lemma_first_input_edge_props(g1.edges@, a);
            let e1 = first_input_edge(g1.edges@, a)->0;
            let src = g1.edge_at(e1).from as int;
            assert(g1.data_edge_connects(e1, src, a));
            assert(g1.data_parent(src, a));
            assert(g1.node_at(src).frame_est is Some);
            assert(input_est(g1, a) is Some);
            assert(false);
        },
    }
}

/// A population sweep keeps a graph healthy.
proof fn lemma_healthy_populate(g0: Graph, g1: Graph)
    requires
        populate_frame(g0, g1),
        healthy(g0),
    ensures
        healthy(g1),
{
    assert forall|i: int| #[trigger] g1.live_node(i) implies {
        &&& (match g1.node_at(i).op {
            NodeOp::Crop { x1, y1, x2, y2 } => x1 <= x2 && y1 <= y2,
            NodeOp::Encode { .. } => exists|e: int| #[trigger] g1.live_edge(e) && g1.edge_at(
                e,
            ).to == i && g1.edge_at(e).kind is Input,
            NodeOp::Constrain { .. } => g1.node_at(i).frame_est is None,
            _ => true,
        })
        &&& (g1.node_at(i).frame_est is Some ==> stage_index(g1.node_at(i).stage) >= 1)
    } by {
        assert(g0.live_node(i));
        assert(g1.node_at(i).op == g0.node_at(i).op);
        if g0.node_at(i).frame_est is Some {
            assert(g1.node_at(i) == g0.node_at(i));
        }
        match g0.node_at(i).op {
            NodeOp::Encode { .. } => {
                let e = choose|e: int|
                    g0.live_edge(e) && g0.edge_at(e).to == i && g0.edge_at(e).kind is Input;
                assert(g1.edges@ == g0.edges@);
                assert(g1.live_edge(e) && g1.edge_at(e).to == i && g1.edge_at(e).kind is Input);
            },
            NodeOp::Constrain { .. } => {
                if g0.node_at(i).frame_est is None && g1.node_at(i).frame_est is Some {
                    assert(g1.node_at(i).frame_est == est_rule(
                        g0.node_at(i),
                        input_est(g1, i),
                    ));
                    assert(false);
                }
            },
            _ => {},
        }
    }
}

/// The composite count is a function of the shape alone.
proof fn lemma_count_same_shape(g0: Graph, g1: Graph)
    requires
        same_shape(g0, g1),
    ensures
        count_constrain(g1.nodes@) == count_constrain(g0.nodes@),
{
    assert forall|i: int| 0 <= i < g0.nodes@.len() implies ((#[trigger] g0.nodes@[i]) is Some
        <==> g1.nodes@[i] is Some) && (g0.nodes@[i] is Some ==> g0.nodes@[i]->0.op
        == g1.nodes@[i]->0.op) by {
        if g0.live_node(i) {
            assert(g1.live_node(i));
        }
        if g1.live_node(i) {
            assert(g0.live_node(i));
        }
    }
    lemma_count_constrain_same_ops(g0.nodes@, g1.nodes@);
}

/// On a healthy, codec-bound, composite-free graph, one population sweep
/// leaves no node without an estimate: nothing can be blocked.
proof fn lemma_all_est_after_populate(g0: Graph, g1: Graph)
    requires
        populate_post(g0, g1),
        healthy(g0),
        codecs_bound(g0),
        count_constrain(g0.nodes@) == 0,
    ensures
        forall|i: int| #[trigger] g1.live_node(i) ==> g1.node_at(i).frame_est is Some,
{
    assert forall|i: int| #[trigger] g1.live_node(i) implies g1.node_at(i).frame_est is Some by {
        if g1.node_at(i).frame_est is None {
            let a = choose|a: int|
                (a == i || g1.data_reaches(a, i)) && populate_blocked(g1, a);
            lemma_blocked_is_constrain(g0, g1, a);
            lemma_count_constrain_zero(g0.nodes@, a);
            assert(false);
        }
    }
}

/// After an execute pass over a graph whose live nodes all stand at
/// `ReadyForExecution` or beyond with codecs bound, every node executed:
/// an unexecuted node whose data parents were settled would still be
/// owed an execution.
proof fn lemma_all_executed_after_execute(g7: Graph, g8: Graph)
    requires
        execute_post(g7, g8),
        g8.wf(),
        forall|i: int| #[trigger] g7.live_node(i) ==> stage_index(g7.node_at(i).stage) >= 5,
        codecs_bound(g7),
    ensures
        all_executed(g8),
{
    if !all_executed(g8) {
        let w = choose|i: int| g8.live_node(i) && !(g8.node_at(i).stage is Executed);
        let pending = Set::new(|i: int| g8.live_node(i) && !(g8.node_at(i).stage is Executed));
        let range = set_int_range(0, g8.nodes.len() as int);
        lemma_int_range(0, g8.nodes.len() as int);
        assert forall|j: int| pending.contains(j) implies range.contains(j) by {
            assert(g8.live_node(j));
        }
        lemma_len_subset(pending, range);
        assert(pending.contains(w));
        if pending.len() == 0 {
            pending.lemma_len0_is_empty();
            assert(false);
        }
        lemma_pending_has_ready(g8, pending);
        let v = choose|v: int| ready_in(g8, pending, v);
        assert(pending.contains(v));
        assert forall|u: int| #[trigger] g8.data_parent(u, v) implies g8.live_node(u)
            && g8.node_at(u).stage is Executed by {
            let e = choose|e: int| g8.data_edge_connects(e, u, v);
            assert(g8.live_edge(e));
            assert(!pending.contains(u));
        }
        assert(g7.live_node(v));
        assert(g8.node_at(v) == g7.node_at(v));
        assert(stage_index(g8.node_at(v).stage) == 5);
        assert(g8.node_at(v).stage is ReadyForExecution);
        assert(exec_ready(g8, v));
        assert(false);
    }
}

/// One body of the convergence loop, run on a healthy, codec-bound,
/// composite-free graph, executes every node.
#[verifier::rlimit(100)]
#[verifier::spinoff_prover]
proof fn lemma_body_completes(
    s1: Graph,
    s2: Graph,
    s3: Graph,
    s4: Graph,
    s5: Graph,
    s6: Graph,
    s7: Graph,
    s8: Graph,
    g9: Graph,
)
    requires
        healthy(s1),
        codecs_bound(s1),
        populate_post(s1, s2),
        count_constrain(s2.nodes@) == 0 ==> s3 == s2,
        populate_frame(s3, s4),
        same_shape(s4, s5),
        forall|i: int| #[trigger] s4.live_node(i) ==> s5.node_at(i) == (Node {
            stage: optimize_stage(s4.node_at(i).stage),
            ..s4.node_at(i)
        }),
        populate_frame(s5, s6),
        same_shape(s6, s7),
        forall|i: int| #[trigger] s6.live_node(i) ==> s7.node_at(i) == (Node {
            stage: post_flatten_stage(s6.node_at(i).stage),
            ..s6.node_at(i)
        }),
        populate_frame(s7, s8),
        execute_post(s8, g9),
        g9.wf(),
        count_constrain(s1.nodes@) == 0,
    ensures
        all_executed(g9),
{
    lemma_healthy_populate(s1, s2);
    lemma_count_same_shape(s1, s2);
                    // a composite-free body finishes the whole graph
                    lemma_all_est_after_populate(s1, s2);
                    assert(count_constrain(s2.nodes@) == 0);
                    assert(s3 == s2);
                    // stages reached OutboundDimensionsKnown during population
                    assert forall|i: int| #[trigger] s2.live_node(i) implies stage_index(
                        s2.node_at(i).stage,
                    ) >= 1 && s2.node_at(i).frame_est is Some by {
                        assert(s1.live_node(i));
                        if s1.node_at(i).frame_est is Some {
                            assert(s2.node_at(i) == s1.node_at(i));
                        }
                    }
                // the second population sweep changes nothing
                assert forall|i: int| #[trigger] s4.live_node(i) implies s4.node_at(i)
                    == s2.node_at(i) && stage_index(s4.node_at(i).stage) >= 1 && s4.node_at(
                    i,
                ).frame_est is Some by {
                    assert(s3.live_node(i));
                    assert(s3.node_at(i).frame_est is Some);
                }
                // optimization clears every node through Optimized
                assert forall|i: int| #[trigger] s5.live_node(i) implies stage_index(
                    s5.node_at(i).stage,
                ) >= 3 && s5.node_at(i).frame_est is Some && s5.node_at(i).codec == s4.node_at(
                    i,
                ).codec by {
                    assert(s4.live_node(i));
                    assert(s5.node_at(i) == (Node {
                        stage: optimize_stage(s4.node_at(i).stage),
                        ..s4.node_at(i)
                    }));
                }
                // the third population sweep changes nothing
                assert forall|i: int| #[trigger] s6.live_node(i) implies s6.node_at(i)
                    == s5.node_at(i) by {
                    assert(s5.live_node(i));
                    assert(s5.node_at(i).frame_est is Some);
                }
                // the post-optimize pass clears every node for execution
                assert forall|i: int| #[trigger] s7.live_node(i) implies stage_index(
                    s7.node_at(i).stage,
                ) >= 5 && s7.node_at(i).frame_est is Some && s7.node_at(i).codec == s6.node_at(
                    i,
                ).codec by {
                    assert(s6.live_node(i));
                    assert(s7.node_at(i) == (Node {
                        stage: post_flatten_stage(s6.node_at(i).stage),
                        ..s6.node_at(i)
                    }));
                }
                // the fourth population sweep changes nothing
                assert forall|i: int| #[trigger] s8.live_node(i) implies s8.node_at(i)
                    == s7.node_at(i) && stage_index(s8.node_at(i).stage) >= 5 by {
                    assert(s7.live_node(i));
                    assert(s7.node_at(i).frame_est is Some);
                }
                    // codecs stayed bound all the way
                    assert forall|i: int| #[trigger] s8.live_node(i) && op_uses_codec(
                        s8.node_at(i).op,
                    ) implies s8.node_at(i).codec is Some by {
                        assert(s7.live_node(i) && s6.live_node(i) && s5.live_node(i)
                            && s4.live_node(i) && s2.live_node(i) && s1.live_node(i));
                        assert(s8.node_at(i).codec == s2.node_at(i).codec);
                        if s1.node_at(i).frame_est is Some {
                            assert(s2.node_at(i) == s1.node_at(i));
                        } else {
                            assert(s2.node_at(i).codec == s1.node_at(i).codec);
                        }
                        assert(s8.node_at(i).op == s1.node_at(i).op);
                    }
                    lemma_all_executed_after_execute(s8, g9);
}

/// The inputs on which the orchestrator owes success outright: a
/// healthy, composite-free graph, every codec bound or resolvable, and
/// at least one pass allowed. A graph with composite nodes needs one
/// further pass per round of flattening; the ceiling such a graph
/// demands is not characterized by this contract.
pub open spec fn one_pass_sufficient(job: Job, g: Graph) -> bool {
    &&& healthy(g)
    &&& count_constrain(g.nodes@) == 0
    &&& job.max_calc_flatten_execute_passes >= 1
    &&& forall|i: int| #[trigger] g.live_node(i) && op_uses_codec(g.node_at(i).op)
        ==> g.node_at(i).codec is Some || codec_resolvable(
        job.codecs@,
        op_placeholder(g.node_at(i).op),
    )
}

/// The job orchestrator: links codecs once, then repeats the pass
/// sequence (populate, pre-optimize flatten, populate, optimize, populate,
/// post-optimize flatten, populate, execute) until every node is
/// `Executed` or the pass ceiling is reached. For an acyclic graph this
/// always returns: with resolvable codecs, either success or
/// `MaximumGraphPassesExceeded` with the pass count and the nodes left
/// unexecuted; a rewrite is re-validated as it is applied, so
/// `GraphInvalid` is never reported.
#[verifier::rlimit(100)]
#[verifier::spinoff_prover]
pub fn job_execute(job: &mut Job, g: &mut Graph) -> (r: Result<(), FlowError>)
    requires
        old(g).wf(),
        stage_est_ok(*old(g)),
        executed_closed(*old(g)),
        old(job).max_calc_flatten_execute_passes >= 0,
    ensures
        final(g).wf(),
        stage_est_ok(*final(g)),
        executed_closed(*final(g)),
        graph_evolves(*old(g), *final(g)),
        job_same_but_version(*old(job), *final(job)),
        one_pass_sufficient(*old(job), *old(g)) ==> r is Ok,
        match r {
            Ok(_) => all_executed(*final(g)),
            Err(err) => match err {
                FlowError::CodecNotFound { placeholder_id, node_index } => {
                    &&& old(g).live_node(node_index as int)
                    &&& op_uses_codec(old(g).node_at(node_index as int).op)
                    &&& op_placeholder(old(g).node_at(node_index as int).op) == placeholder_id
                    &&& old(g).node_at(node_index as int).codec is None
                    &&& final(g).live_node(node_index as int)
                    &&& op_uses_codec(final(g).node_at(node_index as int).op)
                    &&& op_placeholder(final(g).node_at(node_index as int).op) == placeholder_id
                    &&& !codec_resolvable(final(job).codecs@, placeholder_id)
                },
                FlowError::MaximumGraphPassesExceeded { passes, unexecuted } => {
                    &&& passes == final(job).max_calc_flatten_execute_passes
                    &&& !all_executed(*final(g))
                    &&& forall|k: int| 0 <= k < unexecuted@.len() ==> final(g).live_node(
                        #[trigger] unexecuted@[k] as int,
                    ) && !(final(g).node_at(unexecuted@[k] as int).stage is Executed)
                    &&& forall|i: int| #[trigger] final(g).live_node(i) && !(final(g).node_at(
                        i,
                    ).stage is Executed) ==> exists|k: int| 0 <= k < unexecuted@.len()
                        && unexecuted@[k] == i
                },
                _ => false,
            },
        },
{
    let ghost hcond = one_pass_sufficient(*old(job), *old(g));
    job_notify_graph_changed(job, g);
    match job_link_codecs(job, g) {
        Ok(_) => {},
        Err(e) => {
            proof {
                if hcond {
                    match e {
                        FlowError::CodecNotFound { placeholder_id, node_index } => {
                            assert(old(g).live_node(node_index as int));
                            assert(false);
                        },
                        _ => {
                            assert(false);
                        },
                    }
                }
            }
            return Err(e);
        },
    }
    let ghost gl = *g;
    proof {
        if hcond {
            assert(codecs_bound(gl));
            assert forall|i: int| #[trigger] gl.live_node(i) implies {
                &&& (match gl.node_at(i).op {
                    NodeOp::Crop { x1, y1, x2, y2 } => x1 <= x2 && y1 <= y2,
                    NodeOp::Encode { .. } => exists|e: int| #[trigger] gl.live_edge(e)
                        && gl.edge_at(e).to == i && gl.edge_at(e).kind is Input,
                    NodeOp::Constrain { .. } => gl.node_at(i).frame_est is None,
                    _ => true,
                })
                &&& (gl.node_at(i).frame_est is Some ==> stage_index(gl.node_at(i).stage) >= 1)
            } by {
                if !old(g).live_node(i) {
                    assert(gl.nodes@[i] == old(g).nodes@[i]);
                    assert(false);
                }
                match old(g).node_at(i).op {
                    NodeOp::Encode { .. } => {
                        let e = choose|e: int|
                            old(g).live_edge(e) && old(g).edge_at(e).to == i && old(g).edge_at(
                                e,
                            ).kind is Input;
                        assert(gl.live_edge(e) && gl.edge_at(e).to == i && gl.edge_at(
                            e,
                        ).kind is Input);
                    },
                    _ => {},
                }
            }
            assert(healthy(gl));
            assert forall|i: int| 0 <= i < old(g).nodes@.len() implies ((#[trigger] old(
                g,
            ).nodes@[i]) is Some <==> gl.nodes@[i] is Some) && (old(g).nodes@[i] is Some
                ==> old(g).nodes@[i]->0.op == gl.nodes@[i]->0.op) by {
                if !old(g).live_node(i) {
                    assert(gl.nodes@[i] == old(g).nodes@[i]);
                }
            }
            lemma_count_constrain_same_ops(old(g).nodes@, gl.nodes@);
            assert(count_constrain(gl.nodes@) == 0);
        }
    }
    let mut passes: i32 = 0;
    loop
        invariant
            g.wf(),
            stage_est_ok(*g),
            executed_closed(*g),
            graph_evolves(*old(g), *g),
            job_same_but_version(*old(job), *job),
            job.max_calc_flatten_execute_passes >= 0,
            0 <= passes <= job.max_calc_flatten_execute_passes,
            hcond == one_pass_sufficient(*old(job), *old(g)),
            hcond ==> codecs_bound(gl) && healthy(gl) && count_constrain(gl.nodes@) == 0
                && job.max_calc_flatten_execute_passes >= 1,
            hcond ==> ((passes == 0 && *g == gl) || all_executed(*g)),
        decreases job.max_calc_flatten_execute_passes - passes,
    {
        if job_graph_fully_executed(g) {
            return Ok(());
        }
        if passes >= job.max_calc_flatten_execute_passes {
            proof {
                if hcond {
                    assert(all_executed(*g));
                    assert(false);
                }
            }
            let unexec = collect_unexecuted(g);
            return Err(
                FlowError::MaximumGraphPassesExceeded { passes, unexecuted: unexec },
            );
        }
        let ghost s1 = *g;
        job_populate_dimensions_where_certain(g);
        proof {
            lemma_evolves_trans(*old(g), s1, *g);
        }
        job_notify_graph_changed(job, g);
        let ghost s2 = *g;
        crate::flatten::graph_pre_optimize_flatten(g);
        proof {
            lemma_evolves_trans(*old(g), s2, *g);
        }
        job_notify_graph_changed(job, g);
        let ghost s3 = *g;
        job_populate_dimensions_where_certain(g);
        proof {
            lemma_evolves_trans(*old(g), s3, *g);
        }
        job_notify_graph_changed(job, g);
        let ghost s4 = *g;
        graph_optimize(g);
        proof {
            lemma_evolves_trans(*old(g), s4, *g);
        }
        job_notify_graph_changed(job, g);
        let ghost s5 = *g;
        job_populate_dimensions_where_certain(g);
        proof {
            lemma_evolves_trans(*old(g), s5, *g);
        }
        job_notify_graph_changed(job, g);
        let ghost s6 = *g;
        graph_post_optimize_flatten(g);
        proof {
            lemma_evolves_trans(*old(g), s6, *g);
        }
        job_notify_graph_changed(job, g);
        let ghost s7 = *g;
        job_populate_dimensions_where_certain(g);
        proof {
            lemma_evolves_trans(*old(g), s7, *g);
        }
        job_notify_graph_changed(job, g);
        let ghost s8 = *g;
        job_execute_where_certain(g);
        proof {
            lemma_evolves_trans(*old(g), s8, *g);
            if hcond && !all_executed(*g) {
                assert(s1 == gl);
                lemma_body_completes(s1, s2, s3, s4, s5, s6, s7, s8, *g);
            }
        }
        passes = passes + 1;
        job_notify_graph_changed(job, g);
    }
}

} // verus!
