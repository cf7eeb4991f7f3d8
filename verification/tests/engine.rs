//! Tests of the graph execution engine: the convergence loop, the state
//! machine, cycle rejection, dimension population, the flatten rewrite,
//! and the dependency walker.

use imageflow::{
    dependency_walk_order, graph_optimize, graph_post_optimize_flatten, graph_pre_optimize_flatten,
    job_execute, job_execute_where_certain, job_graph_fully_executed, job_link_codecs,
    job_populate_dimensions_where_certain, EdgeKind, FlowError, Graph, Job, NodeOp, NodeStage,
};

fn stage_rank(s: NodeStage) -> u32 {
    match s {
        NodeStage::New => 0,
        NodeStage::OutboundDimensionsKnown => 1,
        NodeStage::ReadyForOptimize => 2,
        NodeStage::Optimized => 3,
        NodeStage::ReadyForPostOptimizeFlatten => 4,
        NodeStage::ReadyForExecution => 5,
        NodeStage::Executed => 6,
    }
}

/// One decode feeding one encode completes within a single pass, and both
/// nodes end `Executed`.
#[test]
fn decode_encode_completes_in_one_pass() {
    let mut job = Job::new(1);
    job.add_codec(0, 640, 480);
    let mut g = Graph::new();
    let d = g.add_node(NodeOp::Decode { placeholder_id: 0 });
    let e = g.add_node(NodeOp::Encode { placeholder_id: 0 });
    g.add_edge(d, e, EdgeKind::Input).unwrap();
    let r = job_execute(&mut job, &mut g);
    assert!(r.is_ok());
    assert_eq!(g.node_stage(d), Some(NodeStage::Executed));
    assert_eq!(g.node_stage(e), Some(NodeStage::Executed));
    let nd = *g.node_weight(d).unwrap();
    assert_eq!(nd.frame_est.unwrap().width, 640);
    assert_eq!(nd.frame_est.unwrap().height, 480);
    let ne = *g.node_weight(e).unwrap();
    assert_eq!(ne.frame_est.unwrap().width, 640);
    assert_eq!(ne.frame_est.unwrap().height, 480);
}

/// An unregistered decode placeholder aborts before the loop with
/// `CodecNotFound` naming the placeholder and the node.
#[test]
fn unregistered_codec_fails() {
    let mut job = Job::new(4);
    let mut g = Graph::new();
    let d = g.add_node(NodeOp::Decode { placeholder_id: 7 });
    let e = g.add_node(NodeOp::Encode { placeholder_id: 7 });
    g.add_edge(d, e, EdgeKind::Input).unwrap();
    match job_execute(&mut job, &mut g) {
        Err(FlowError::CodecNotFound { placeholder_id, node_index }) => {
            assert_eq!(placeholder_id, 7);
            assert_eq!(node_index, d);
        },
        _ => panic!("expected CodecNotFound"),
    }
}

/// A chain of two composite constrain nodes needs two rounds of
/// flatten-then-optimize: it fails with a ceiling of one pass and
/// succeeds with a ceiling of three.
#[test]
fn chained_constrains_need_two_passes() {
    let build = |max_passes: i32| -> (Job, Graph, usize, usize) {
        let mut job = Job::new(max_passes);
        job.add_codec(0, 1000, 500);
        let mut g = Graph::new();
        let d = g.add_node(NodeOp::Decode { placeholder_id: 0 });
        let c1 = g.add_node(NodeOp::Constrain { max_width: 500, max_height: 500 });
        let c2 = g.add_node(NodeOp::Constrain { max_width: 100, max_height: 100 });
        let e = g.add_node(NodeOp::Encode { placeholder_id: 0 });
        g.add_edge(d, c1, EdgeKind::Input).unwrap();
        g.add_edge(c1, c2, EdgeKind::Input).unwrap();
        g.add_edge(c2, e, EdgeKind::Input).unwrap();
        (job, g, d, e)
    };
    let (mut job1, mut g1, _, _) = build(1);
    match job_execute(&mut job1, &mut g1) {
        Err(FlowError::MaximumGraphPassesExceeded { passes, unexecuted }) => {
            assert_eq!(passes, 1);
            assert!(!unexecuted.is_empty());
        },
        _ => panic!("expected MaximumGraphPassesExceeded with a ceiling of 1"),
    }
    let (mut job3, mut g3, d, e) = build(3);
    assert!(job_execute(&mut job3, &mut g3).is_ok());
    assert_eq!(g3.node_stage(d), Some(NodeStage::Executed));
    assert_eq!(g3.node_stage(e), Some(NodeStage::Executed));
}

/// Flattening replaces a constrain node by a resize node with the
/// aspect-preserving fit of its input, on a fresh index; the composite's
/// slot is tombstoned and never renumbered.
#[test]
fn constrain_flattens_to_fitted_resize() {
    let mut job = Job::new(4);
    job.add_codec(0, 1000, 500);
    let mut g = Graph::new();
    let d = g.add_node(NodeOp::Decode { placeholder_id: 0 });
    let c = g.add_node(NodeOp::Constrain { max_width: 100, max_height: 100 });
    let e = g.add_node(NodeOp::Encode { placeholder_id: 0 });
    g.add_edge(d, c, EdgeKind::Input).unwrap();
    g.add_edge(c, e, EdgeKind::Input).unwrap();
    assert!(job_execute(&mut job, &mut g).is_ok());
    // the composite slot is tombstoned; a new node took its place
    assert!(g.node_weight(c).is_none());
    assert_eq!(g.node_slots(), 4);
    let replacement = *g.node_weight(3).unwrap();
    // 1000x500 fitted into 100x100 is 100x50
    match replacement.op {
        NodeOp::Resize { width, height } => {
            assert_eq!(width, 100);
            assert_eq!(height, 50);
        },
        _ => panic!("expected the composite to flatten into a resize"),
    }
    assert_eq!(replacement.frame_est.unwrap().width, 100);
    assert_eq!(replacement.frame_est.unwrap().height, 50);
    // the encoder now estimates the fitted frame
    let enc = *g.node_weight(e).unwrap();
    assert_eq!(enc.frame_est.unwrap().width, 100);
    assert_eq!(enc.frame_est.unwrap().height, 50);
}

/// Three independent decode-resize-encode chains all reach `Executed`,
/// and the walker keeps each chain's own order.
#[test]
fn three_chains_execute_and_keep_order() {
    let mut job = Job::new(4);
    job.add_codec(0, 64, 64);
    job.add_codec(1, 128, 128);
    job.add_codec(2, 256, 256);
    let mut g = Graph::new();
    let mut chains: Vec<(usize, usize, usize)> = Vec::new();
    for pid in 0..3i32 {
        let d = g.add_node(NodeOp::Decode { placeholder_id: pid });
        let r = g.add_node(NodeOp::Resize { width: 32, height: 32 });
        let e = g.add_node(NodeOp::Encode { placeholder_id: pid });
        g.add_edge(d, r, EdgeKind::Input).unwrap();
        g.add_edge(r, e, EdgeKind::Input).unwrap();
        chains.push((d, r, e));
    }
    let order = dependency_walk_order(&g);
    let pos = |v: usize| order.iter().position(|&x| x == v).unwrap();
    for &(d, r, e) in &chains {
        assert!(pos(d) < pos(r));
        assert!(pos(r) < pos(e));
    }
    assert!(job_execute(&mut job, &mut g).is_ok());
    for &(d, r, e) in &chains {
        assert_eq!(g.node_stage(d), Some(NodeStage::Executed));
        assert_eq!(g.node_stage(r), Some(NodeStage::Executed));
        assert_eq!(g.node_stage(e), Some(NodeStage::Executed));
    }
}

/// Inserting an edge that would close a cycle always fails with
/// `GraphInvalid` and leaves the graph unchanged.
#[test]
fn cycle_rejection_leaves_graph_unchanged() {
    let mut g = Graph::new();
    let a = g.add_node(NodeOp::Resize { width: 1, height: 1 });
    let b = g.add_node(NodeOp::Resize { width: 2, height: 2 });
    let c = g.add_node(NodeOp::Resize { width: 3, height: 3 });
    g.add_edge(a, b, EdgeKind::Input).unwrap();
    g.add_edge(b, c, EdgeKind::Input).unwrap();
    let edges_before = g.edge_slots();
    assert!(matches!(g.add_edge(c, a, EdgeKind::Input), Err(FlowError::GraphInvalid)));
    assert!(matches!(g.add_edge(b, a, EdgeKind::Canvas), Err(FlowError::GraphInvalid)));
    assert!(matches!(g.add_edge(a, a, EdgeKind::Input), Err(FlowError::GraphInvalid)));
    assert!(matches!(g.add_edge(a, 99, EdgeKind::Input), Err(FlowError::GraphInvalid)));
    assert_eq!(g.edge_slots(), edges_before);
    // a legal edge still goes through afterwards
    assert!(g.add_edge(a, c, EdgeKind::Canvas).is_ok());
}

/// An advisory edge imposes no ordering, but still may not close a cycle.
#[test]
fn advisory_edges_do_not_order_the_walk() {
    let mut g = Graph::new();
    let a = g.add_node(NodeOp::Resize { width: 1, height: 1 });
    let b = g.add_node(NodeOp::Resize { width: 2, height: 2 });
    g.add_edge(b, a, EdgeKind::Advisory).unwrap();
    // despite the advisory edge b -> a, index order decides
    let order = dependency_walk_order(&g);
    assert_eq!(order, vec![a, b]);
    // an advisory back-edge would still close a cycle
    assert!(matches!(g.add_edge(a, b, EdgeKind::Advisory), Err(FlowError::GraphInvalid)));
}

/// Re-running dimension population on a graph whose dimensions are all
/// known changes nothing: stages, estimates and costs stay as they were.
#[test]
fn population_is_idempotent_once_known() {
    let mut job = Job::new(4);
    job.add_codec(0, 320, 200);
    let mut g = Graph::new();
    let d = g.add_node(NodeOp::Decode { placeholder_id: 0 });
    let r = g.add_node(NodeOp::Resize { width: 100, height: 80 });
    g.add_edge(d, r, EdgeKind::Input).unwrap();
    job_link_codecs(&job, &mut g).unwrap();
    job_populate_dimensions_where_certain(&mut g);
    let snapshot: Vec<_> = (0..g.node_slots()).map(|i| {
        let n = g.node_weight(i).unwrap();
        (n.stage, n.frame_est, n.cost.wall_ticks)
    }).collect();
    assert!(snapshot.iter().all(|(_, est, _)| est.is_some()));
    job_populate_dimensions_where_certain(&mut g);
    for i in 0..g.node_slots() {
        let n = g.node_weight(i).unwrap();
        assert_eq!(n.stage, snapshot[i].0);
        assert_eq!(n.frame_est, snapshot[i].1);
        assert_eq!(n.cost.wall_ticks, snapshot[i].2);
    }
}

/// Running the pass sequence by hand advances each node through the
/// stages in order, never backwards.
#[test]
fn stages_advance_monotonically_through_passes() {
    let mut job = Job::new(4);
    job.add_codec(0, 10, 10);
    let mut g = Graph::new();
    let d = g.add_node(NodeOp::Decode { placeholder_id: 0 });
    let e = g.add_node(NodeOp::Encode { placeholder_id: 0 });
    g.add_edge(d, e, EdgeKind::Input).unwrap();
    job_link_codecs(&job, &mut g).unwrap();
    let mut last: Vec<u32> = vec![0, 0];
    let mut check = |g: &Graph, last: &mut Vec<u32>| {
        for i in 0..2 {
            let rank = stage_rank(g.node_stage(i).unwrap());
            assert!(rank >= last[i], "stage regressed");
            last[i] = rank;
        }
    };
    job_populate_dimensions_where_certain(&mut g);
    check(&g, &mut last);
    assert_eq!(g.node_stage(d), Some(NodeStage::OutboundDimensionsKnown));
    graph_pre_optimize_flatten(&mut g);
    check(&g, &mut last);
    graph_optimize(&mut g);
    check(&g, &mut last);
    assert_eq!(g.node_stage(d), Some(NodeStage::Optimized));
    graph_post_optimize_flatten(&mut g);
    check(&g, &mut last);
    assert_eq!(g.node_stage(d), Some(NodeStage::ReadyForExecution));
    job_execute_where_certain(&mut g);
    check(&g, &mut last);
    assert_eq!(g.node_stage(d), Some(NodeStage::Executed));
    assert_eq!(g.node_stage(e), Some(NodeStage::Executed));
    assert!(job_graph_fully_executed(&g));
}

/// A data-dependency target never executes before its source: after an
/// execute pass cut short by an unready parent, the child is still
/// waiting too.
#[test]
fn dependents_wait_for_their_sources() {
    let mut job = Job::new(4);
    job.add_codec(0, 10, 10);
    let mut g = Graph::new();
    let d = g.add_node(NodeOp::Decode { placeholder_id: 0 });
    let c = g.add_node(NodeOp::Constrain { max_width: 5, max_height: 5 });
    let e = g.add_node(NodeOp::Encode { placeholder_id: 0 });
    g.add_edge(d, c, EdgeKind::Input).unwrap();
    g.add_edge(c, e, EdgeKind::Input).unwrap();
    job_link_codecs(&job, &mut g).unwrap();
    job_populate_dimensions_where_certain(&mut g);
    graph_optimize(&mut g);
    graph_post_optimize_flatten(&mut g);
    job_execute_where_certain(&mut g);
    // the decode may execute, but the unflattened composite blocks its
    // descendants
    assert_eq!(g.node_stage(d), Some(NodeStage::Executed));
    assert_ne!(g.node_stage(c), Some(NodeStage::Executed));
    assert_ne!(g.node_stage(e), Some(NodeStage::Executed));
}

/// The pass ceiling error reports the pass count and exactly the nodes
/// left unexecuted.
#[test]
fn pass_ceiling_reports_unexecuted_nodes() {
    let mut job = Job::new(1);
    job.add_codec(0, 10, 10);
    let mut g = Graph::new();
    let d = g.add_node(NodeOp::Decode { placeholder_id: 0 });
    let c1 = g.add_node(NodeOp::Constrain { max_width: 9, max_height: 9 });
    let c2 = g.add_node(NodeOp::Constrain { max_width: 8, max_height: 8 });
    let e = g.add_node(NodeOp::Encode { placeholder_id: 0 });
    g.add_edge(d, c1, EdgeKind::Input).unwrap();
    g.add_edge(c1, c2, EdgeKind::Input).unwrap();
    g.add_edge(c2, e, EdgeKind::Input).unwrap();
    match job_execute(&mut job, &mut g) {
        Err(FlowError::MaximumGraphPassesExceeded { passes, unexecuted }) => {
            assert_eq!(passes, 1);
            for &i in &unexecuted {
                assert_ne!(g.node_stage(i), Some(NodeStage::Executed));
            }
            for i in 0..g.node_slots() {
                if let Some(s) = g.node_stage(i) {
                    if s != NodeStage::Executed {
                        assert!(unexecuted.contains(&i));
                    }
                }
            }
        },
        _ => panic!("expected MaximumGraphPassesExceeded"),
    }
}

/// Tombstoning: an edge can be removed, a node only once no live edge
/// touches it, and indices are never reused.
#[test]
fn removal_tombstones_and_never_reuses_indices() {
    let mut g = Graph::new();
    let a = g.add_node(NodeOp::Resize { width: 1, height: 1 });
    let b = g.add_node(NodeOp::Resize { width: 2, height: 2 });
    let e = g.add_edge(a, b, EdgeKind::Input).unwrap();
    assert!(!g.remove_node(a));
    assert!(g.remove_edge(e));
    assert!(!g.remove_edge(e));
    assert!(g.remove_node(a));
    assert!(g.node_weight(a).is_none());
    assert_eq!(g.edge_weight(e), None);
    let c = g.add_node(NodeOp::Resize { width: 3, height: 3 });
    assert_eq!(c, 2);
}

/// A crop node estimates its own window; an inverted window never
/// estimates, which shows up as a ceiling failure.
#[test]
fn crop_estimates_its_window() {
    let mut job = Job::new(2);
    job.add_codec(0, 100, 100);
    let mut g = Graph::new();
    let d = g.add_node(NodeOp::Decode { placeholder_id: 0 });
    let c = g.add_node(NodeOp::Crop { x1: 10, y1: 20, x2: 60, y2: 90 });
    g.add_edge(d, c, EdgeKind::Input).unwrap();
    assert!(job_execute(&mut job, &mut g).is_ok());
    let n = *g.node_weight(c).unwrap();
    assert_eq!(n.frame_est.unwrap().width, 50);
    assert_eq!(n.frame_est.unwrap().height, 70);

    let mut job2 = Job::new(2);
    job2.add_codec(0, 100, 100);
    let mut g2 = Graph::new();
    let d2 = g2.add_node(NodeOp::Decode { placeholder_id: 0 });
    let bad = g2.add_node(NodeOp::Crop { x1: 60, y1: 20, x2: 10, y2: 90 });
    g2.add_edge(d2, bad, EdgeKind::Input).unwrap();
    assert!(matches!(
        job_execute(&mut job2, &mut g2),
        Err(FlowError::MaximumGraphPassesExceeded { .. })
    ));
}

/// An empty graph is trivially fully executed.
#[test]
fn empty_graph_executes_immediately() {
    let mut job = Job::new(1);
    let mut g = Graph::new();
    assert!(job_execute(&mut job, &mut g).is_ok());
    assert!(job_graph_fully_executed(&g));
}

/// Fitting the largest frame does not overflow the arithmetic.
#[test]
fn big_dimensions_fit_without_overflow() {
    let mut job = Job::new(4);
    job.add_codec(0, u32::MAX, 2);
    let mut g = Graph::new();
    let d = g.add_node(NodeOp::Decode { placeholder_id: 0 });
    let c = g.add_node(NodeOp::Constrain { max_width: u32::MAX, max_height: 1 });
    g.add_edge(d, c, EdgeKind::Input).unwrap();
    assert!(job_execute(&mut job, &mut g).is_ok());
    let replacement = *g.node_weight(2).unwrap();
    match replacement.op {
        NodeOp::Resize { width, height } => {
            // height scaled to the box: width follows as MAX * 1 / 2
            assert_eq!(width, u32::MAX / 2);
            assert_eq!(height, 1);
        },
        _ => panic!("expected the composite to flatten into a resize"),
    }
}

/// The optimize visitor reports whether the node exists and advances
/// only nodes that are ready for optimization.
#[test]
fn optimize_visitor_advances_ready_nodes() {
    let mut g = Graph::new();
    let a = g.add_node(NodeOp::Resize { width: 1, height: 1 });
    let mut quit = false;
    let mut skip = false;
    assert!(imageflow::node_visitor_optimize(&mut g, a, &mut quit, &mut skip));
    // a node that is not ReadyForOptimize is left alone
    assert_eq!(g.node_stage(a), Some(NodeStage::New));
    // a missing node reports false; neither signal is raised
    assert!(!imageflow::node_visitor_optimize(&mut g, 5, &mut quit, &mut skip));
    assert!(!quit);
    assert!(!skip);
}

/// The node-level population helpers: a node computes its estimate once
/// its inputs have theirs, and computing it twice does nothing more.
#[test]
fn node_level_population_helpers() {
    let job = {
        let mut j = Job::new(4);
        j.add_codec(0, 30, 20);
        j
    };
    let mut g = Graph::new();
    let d = g.add_node(NodeOp::Decode { placeholder_id: 0 });
    let r = g.add_node(NodeOp::Resize { width: 3, height: 2 });
    g.add_edge(d, r, EdgeKind::Input).unwrap();
    job_link_codecs(&job, &mut g).unwrap();
    assert!(!imageflow::flow_node_has_dimensions(&g, d));
    assert!(imageflow::flow_node_inputs_have_dimensions(&g, d));
    assert!(imageflow::flow_node_populate_dimensions(&mut g, d, false));
    assert!(imageflow::flow_node_has_dimensions(&g, d));
    assert!(!imageflow::flow_node_populate_dimensions(&mut g, d, false));
    assert!(imageflow::flow_node_inputs_have_dimensions(&g, r));
    imageflow::flow_job_populate_dimensions_for_node(&mut g, r, false);
    assert!(imageflow::flow_node_has_dimensions(&g, r));
    assert_eq!(g.node_weight(r).unwrap().frame_est.unwrap().width, 3);

    // the forced sweep covers a whole fresh graph at once
    let mut g2 = Graph::new();
    let d2 = g2.add_node(NodeOp::Decode { placeholder_id: 0 });
    let r2 = g2.add_node(NodeOp::Resize { width: 3, height: 2 });
    g2.add_edge(d2, r2, EdgeKind::Input).unwrap();
    job_link_codecs(&job, &mut g2).unwrap();
    imageflow::flow_job_force_populate_dimensions(&mut g2);
    assert!(imageflow::flow_node_has_dimensions(&g2, d2));
    assert!(imageflow::flow_node_has_dimensions(&g2, r2));
}

/// The snapshot counter advances only when recording is on.
#[test]
fn notify_advances_version_only_when_recording() {
    let mut job = Job::new(1);
    let g = Graph::new();
    imageflow::job_notify_graph_changed(&mut job, &g);
    assert_eq!(job.next_graph_version, 0);
    job.record_graph_versions = true;
    imageflow::job_notify_graph_changed(&mut job, &g);
    imageflow::job_notify_graph_changed(&mut job, &g);
    assert_eq!(job.next_graph_version, 2);
}
