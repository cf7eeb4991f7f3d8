//! An image-processing job engine: a requested transformation (decode,
//! resize, crop, constrain, encode) is a directed acyclic graph of
//! operation nodes, driven to completion by a bounded multi-pass
//! convergence loop that alternates dimension inference, graph rewriting
//! and execution. The graph store, the dependency walker, the per-node
//! state machine, the five passes and the orchestrator are verified;
//! alongside them sits a license parsing and signature verification
//! service.

pub mod definitions;
pub mod graph;
pub mod paths;
pub mod walker;
pub mod flow;
pub mod flatten;
pub mod abi;
pub mod licensing;

pub use definitions::{
    CodecInstance, Edge, EdgeKind, FlowError, FrameEstimate, Node, NodeCost, NodeOp, NodeStage,
};
pub use flatten::graph_pre_optimize_flatten;
pub use flow::{
    Job, flow_job_force_populate_dimensions, flow_job_populate_dimensions_for_node,
    flow_node_has_dimensions, flow_node_inputs_have_dimensions, flow_node_populate_dimensions,
    graph_optimize, graph_post_optimize_flatten, job_execute, job_execute_where_certain,
    job_graph_fully_executed, job_link_codecs, job_notify_graph_changed,
    job_populate_dimensions_where_certain, node_visitor_optimize,
};
pub use graph::Graph;
pub use walker::dependency_walk_order;
