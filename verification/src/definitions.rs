//! Core data model of the graph execution engine: node stages, edge kinds,
//! operation payloads, frame estimates, per-node cost accounting, codec
//! instances, and the engine's error type.

use vstd::prelude::*;

verus! {

/// The stage a node has reached within one job execution. Stages only ever
/// advance (in the order the variants are declared); they never regress.
#[derive(Clone, Copy, PartialEq, Eq, Structural, Debug)]
pub enum NodeStage {
    New,
    OutboundDimensionsKnown,
    ReadyForOptimize,
    Optimized,
    ReadyForPostOptimizeFlatten,
    ReadyForExecution,
    Executed,
}

/// Position of a stage in the forward order of the state machine.
pub open spec fn stage_index(s: NodeStage) -> int {
    match s {
        NodeStage::New => 0,
        NodeStage::OutboundDimensionsKnown => 1,
        NodeStage::ReadyForOptimize => 2,
        NodeStage::Optimized => 3,
        NodeStage::ReadyForPostOptimizeFlatten => 4,
        NodeStage::ReadyForExecution => 5,
        NodeStage::Executed => 6,
    }
}

/// `a` precedes or equals `b` in the stage order.
pub open spec fn stage_le(a: NodeStage, b: NodeStage) -> bool {
    stage_index(a) <= stage_index(b)
}

/// The kind of a directed edge. Only `Input` and `Canvas` edges carry a data
/// dependency; `Advisory` edges impose no ordering.
#[derive(Clone, Copy, PartialEq, Eq, Structural, Debug)]
pub enum EdgeKind {
    Advisory,
    Input,
    Canvas,
}

/// Estimated output dimensions of a node, in pixels.
#[derive(Clone, Copy, PartialEq, Eq, Structural, Debug)]
pub struct FrameEstimate {
    pub width: u32,
    pub height: u32,
}

/// Cumulative time spent computing this node's dimensions and execution.
#[derive(Clone, Copy, PartialEq, Eq, Structural, Debug)]
pub struct NodeCost {
    pub wall_ticks: u64,
}

/// A concrete codec bound to a decode or encode node. The registry supplies
/// one per placeholder id; for a decoder the dimensions are those of the
/// frame it will produce.
#[derive(Clone, Copy, PartialEq, Eq, Structural, Debug)]
pub struct CodecInstance {
    pub placeholder_id: i32,
    pub width: u32,
    pub height: u32,
}

/// The closed set of operations a node can perform. `Constrain` is a
/// composite operation: a pre-optimize flatten rewrites it into a primitive
/// `Resize` once the dimensions of its input are known.
#[derive(Clone, Copy, PartialEq, Eq, Structural, Debug)]
pub enum NodeOp {
    Decode { placeholder_id: i32 },
    Encode { placeholder_id: i32 },
    Resize { width: u32, height: u32 },
    Crop { x1: u32, y1: u32, x2: u32, y2: u32 },
    Constrain { max_width: u32, max_height: u32 },
}

/// True of operations that resolve a codec through a placeholder id.
pub open spec fn op_uses_codec(op: NodeOp) -> bool {
    op is Decode || op is Encode
}

/// The placeholder id of a decode or encode operation.
pub open spec fn op_placeholder(op: NodeOp) -> i32 {
    match op {
        NodeOp::Decode { placeholder_id } => placeholder_id,
        NodeOp::Encode { placeholder_id } => placeholder_id,
        _ => 0,
    }
}

/// One operation in the pipeline graph.
#[derive(Clone, Copy, Debug)]
pub struct Node {
    pub op: NodeOp,
    pub stage: NodeStage,
    pub frame_est: Option<FrameEstimate>,
    pub cost: NodeCost,
    pub codec: Option<CodecInstance>,
}

/// The value of a freshly inserted node: stage `New`, no estimate, no cost,
/// no codec bound.
pub open spec fn fresh_node(op: NodeOp) -> Node {
    Node {
        op,
        stage: NodeStage::New,
        frame_est: Option::None,
        cost: NodeCost { wall_ticks: 0 },
        codec: Option::None,
    }
}

impl Node {
    /// A fresh node: stage `New`, no estimate, no cost, no codec bound.
    pub fn new(op: NodeOp) -> (n: Node)
        ensures
            n == fresh_node(op),
    {
        Node {
            op,
            stage: NodeStage::New,
            frame_est: Option::None,
            cost: NodeCost { wall_ticks: 0 },
            codec: Option::None,
        }
    }
}

/// A directed edge between two nodes, identified by their indices.
#[derive(Clone, Copy, Debug)]
pub struct Edge {
    pub from: usize,
    pub to: usize,
    pub kind: EdgeKind,
}

/// Failures of one job execution. A failure is local to the job: the graph
/// is left in a consistent state and other jobs are unaffected.
#[derive(Clone, Debug)]
pub enum FlowError {
    /// A malformed edge, or an edge that would close a cycle.
    GraphInvalid,
    /// No codec instance is registered for this placeholder id.
    CodecNotFound { placeholder_id: i32, node_index: usize },
    /// The convergence loop hit the configured pass ceiling; `unexecuted`
    /// lists the live nodes that had not reached `Executed`.
    MaximumGraphPassesExceeded { passes: i32, unexecuted: Vec<usize> },
}

} // verus!
