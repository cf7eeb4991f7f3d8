//! The graph store: an index-stable arena of nodes and edges. Removal
//! tombstones a slot and indices are never reused, so node indices held by
//! pending edges stay valid across flatten rewrites. The store forbids
//! cycles: inserting an edge that would close one fails with `GraphInvalid`
//! and leaves the graph unchanged.

use vstd::prelude::*;

use crate::definitions::{Edge, EdgeKind, FlowError, Node, NodeOp, NodeStage, fresh_node};
use crate::paths::{
    count_falses, lemma_add_edge_acyclic, lemma_closed_set_unreachable, lemma_count_falses_update,
    lemma_edge_reaches, lemma_reaches_extend,
};

verus! {

/// The node/edge container for one job execution.
pub struct Graph {
    pub nodes: Vec<Option<Node>>,
    pub edges: Vec<Option<Edge>>,
}

impl Graph {
    /// Node index `i` holds a live (not removed) node.
    pub open spec fn live_node(self, i: int) -> bool {
        0 <= i < self.nodes.len() && self.nodes[i] is Some
    }

    /// The node at live index `i`.
    pub open spec fn node_at(self, i: int) -> Node {
        self.nodes[i]->0
    }

    /// Edge index `e` holds a live (not removed) edge.
    pub open spec fn live_edge(self, e: int) -> bool {
        0 <= e < self.edges.len() && self.edges[e] is Some
    }

    /// The edge at live index `e`.
    pub open spec fn edge_at(self, e: int) -> Edge {
        self.edges[e]->0
    }

    /// Edge `e` is live and runs from node `u` to node `v`.
    pub open spec fn edge_connects(self, e: int, u: int, v: int) -> bool {
        self.live_edge(e) && self.edge_at(e).from == u && self.edge_at(e).to == v
    }

    /// Some live edge (of any kind) runs from `u` to `v`.
    pub open spec fn edge_between(self, u: int, v: int) -> bool {
        exists|e: int| self.edge_connects(e, u, v)
    }

    /// Edge `e` is live, carries a data dependency, and runs from `u` to `v`.
    pub open spec fn data_edge_connects(self, e: int, u: int, v: int) -> bool {
        self.edge_connects(e, u, v) && self.edge_at(e).kind != EdgeKind::Advisory
    }

    /// `u` is a data-dependency parent of `v`.
    pub open spec fn data_parent(self, u: int, v: int) -> bool {
        exists|e: int| self.data_edge_connects(e, u, v)
    }

    /// `p` is a walk along data-dependency edges only.
    pub open spec fn is_data_walk(self, p: Seq<int>) -> bool {
        &&& p.len() >= 2
        &&& forall|k: int| #![trigger p[k]] 0 <= k < p.len() - 1 ==> self.data_parent(p[k], p[k + 1])
    }

    /// A walk of one or more data-dependency edges leads from `u` to `v`.
    pub open spec fn data_reaches(self, u: int, v: int) -> bool {
        exists|p: Seq<int>| #[trigger] self.is_data_walk(p) && p.first() == u && p.last() == v
    }

    /// `p` is a walk: at least one edge, and consecutive entries joined by
    /// live edges.
    pub open spec fn is_walk(self, p: Seq<int>) -> bool {
        &&& p.len() >= 2
        &&& forall|k: int| #![trigger p[k]] 0 <= k < p.len() - 1 ==> self.edge_between(p[k], p[k + 1])
    }

    /// A walk of one or more edges leads from `u` to `v`.
    pub open spec fn reaches(self, u: int, v: int) -> bool {
        exists|p: Seq<int>| #[trigger] self.is_walk(p) && p.first() == u && p.last() == v
    }

    /// `u` reaches `v`, or they are the same node.
    pub open spec fn reaches_or_eq(self, u: int, v: int) -> bool {
        u == v || self.reaches(u, v)
    }

    /// Every live edge joins two distinct live nodes.
    pub open spec fn edges_wf(self) -> bool {
        forall|e: int| #[trigger] self.live_edge(e) ==> {
            &&& self.live_node(self.edge_at(e).from as int)
            &&& self.live_node(self.edge_at(e).to as int)
            &&& self.edge_at(e).from != self.edge_at(e).to
        }
    }

    /// No walk returns to its starting node.
    pub open spec fn acyclic(self) -> bool {
        forall|u: int| !self.reaches(u, u)
    }

    /// The store's invariant: edges well formed and the graph acyclic.
    pub open spec fn wf(self) -> bool {
        self.edges_wf() && self.acyclic()
    }

    /// An empty graph.
    pub fn new() -> (g: Graph)
        ensures
            g.nodes.len() == 0,
            g.edges.len() == 0,
            g.wf(),
    {
        let g = Graph { nodes: Vec::new(), edges: Vec::new() };
        proof {
            assert forall|u: int| !g.reaches(u, u) by {
                if g.reaches(u, u) {
                    let p = choose|p: Seq<int>|
                        g.is_walk(p) && p.first() == u && p.last() == u;
                    assert(g.edge_between(p[0], p[1int]));
                    let a = p[0];
                    let b = p[1int];
                    let e = choose|e: int| g.edge_connects(e, a, b);
                    assert(false);
                }
            }
        }
        g
    }

    /// Inserts a node with the given operation and returns its index.
    /// Indices are assigned in insertion order and never reused.
    pub fn add_node(&mut self, op: NodeOp) -> (idx: usize)
        ensures
            idx == old(self).nodes.len(),
            final(self).nodes@ == old(self).nodes@.push(Some(fresh_node(op))),
            final(self).edges == old(self).edges,
            old(self).wf() ==> final(self).wf(),
    {
        let idx = self.nodes.len();
        self.nodes.push(Some(Node::new(op)));
        proof {
            assert(forall|e: int| self.live_edge(e) <==> old(self).live_edge(e));
            assert(forall|e: int| self.live_edge(e) ==> self.edge_at(e) == old(self).edge_at(e));
            lemma_same_edges_same_reach(*old(self), *self);
            lemma_same_edges_same_reach(*self, *old(self));
            if old(self).wf() {
                assert forall|e: int| #[trigger] self.live_edge(e) implies {
                    &&& self.live_node(self.edge_at(e).from as int)
                    &&& self.live_node(self.edge_at(e).to as int)
                    &&& self.edge_at(e).from != self.edge_at(e).to
                } by {
                    assert(old(self).live_edge(e));
                }
                assert forall|u: int| !self.reaches(u, u) by {
                    assert(!old(self).reaches(u, u));
                }
            }
        }
        idx
    }

    /// The number of node slots ever allocated (live and removed).
    pub fn node_slots(&self) -> (n: usize)
        ensures
            n == self.nodes.len(),
    {
        self.nodes.len()
    }

    /// The number of edge slots ever allocated (live and removed).
    pub fn edge_slots(&self) -> (n: usize)
        ensures
            n == self.edges.len(),
    {
        self.edges.len()
    }

    /// Fetches the node at `idx`, or nothing if it was removed or never
    /// existed.
    pub fn node_weight(&self, idx: usize) -> (r: Option<&Node>)
        ensures
            match r {
                Some(n) => self.live_node(idx as int) && *n == self.node_at(idx as int),
                None => !self.live_node(idx as int),
            },
    {
        if idx < self.nodes.len() {
            self.nodes[idx].as_ref()
        } else {
            Option::None
        }
    }

    /// Fetches the kind of the edge at index `e`, if it is live.
    pub fn edge_weight(&self, e: usize) -> (r: Option<EdgeKind>)
        ensures
            match r {
                Some(k) => self.live_edge(e as int) && k == self.edge_at(e as int).kind,
                None => !self.live_edge(e as int),
            },
    {
        if e < self.edges.len() {
            match &self.edges[e] {
                Some(ed) => Some(ed.kind),
                None => Option::None,
            }
        } else {
            Option::None
        }
    }

    /// The stage of the node at `idx`, if it is live. Introspection for
    /// diagnostics and tests.
    pub fn node_stage(&self, idx: usize) -> (r: Option<NodeStage>)
        ensures
            match r {
                Some(s) => self.live_node(idx as int) && s == self.node_at(idx as int).stage,
                None => !self.live_node(idx as int),
            },
    {
        match self.node_weight(idx) {
            Some(n) => Some(n.stage),
            None => Option::None,
        }
    }

    /// Overwrites the attributes of the live node at `idx`. Topology is
    /// untouched, so well-formedness is preserved.
    pub fn set_node(&mut self, idx: usize, n: Node)
        requires
            old(self).live_node(idx as int),
        ensures
            final(self).nodes@ == old(self).nodes@.update(idx as int, Some(n)),
            final(self).edges == old(self).edges,
            old(self).wf() ==> final(self).wf(),
    {
        self.nodes[idx] = Some(n);
        proof {
            assert(forall|e: int| self.live_edge(e) <==> old(self).live_edge(e));
            assert(forall|e: int| self.live_edge(e) ==> self.edge_at(e) == old(self).edge_at(e));
            if old(self).wf() {
                assert forall|e: int| #[trigger] self.live_edge(e) implies {
                    &&& self.live_node(self.edge_at(e).from as int)
                    &&& self.live_node(self.edge_at(e).to as int)
                    &&& self.edge_at(e).from != self.edge_at(e).to
                } by {
                    assert(old(self).live_edge(e));
                }
                assert forall|u: int| !self.reaches(u, u) by {
                    lemma_same_edges_same_reach(*self, *old(self));
                    assert(!old(self).reaches(u, u));
                }
            }
        }
    }

    /// Removes the edge at index `e`, tombstoning its slot. Returns false
    /// (and changes nothing) if no live edge sits there.
    pub fn remove_edge(&mut self, e: usize) -> (r: bool)
        ensures
            r == old(self).live_edge(e as int),
            final(self).nodes == old(self).nodes,
            r ==> final(self).edges@ == old(self).edges@.update(e as int, Option::None),
            !r ==> final(self).edges == old(self).edges,
            old(self).wf() ==> final(self).wf(),
    {
        if e < self.edges.len() && self.edges[e].is_some() {
            self.edges[e] = Option::None;
            proof {
                if old(self).wf() {
                    lemma_edge_subset_preserves_wf(*old(self), *self);
                }
            }
            true
        } else {
            false
        }
    }

    /// Removes the node at index `idx`, tombstoning its slot. Fails (and
    /// changes nothing) if the node is not live or still has an incident
    /// live edge.
    pub fn remove_node(&mut self, idx: usize) -> (r: bool)
        ensures
            r == (old(self).live_node(idx as int) && forall|e: int|
                #[trigger] old(self).live_edge(e) ==> old(self).edge_at(e).from != idx
                    && old(self).edge_at(e).to != idx),
            final(self).edges == old(self).edges,
            r ==> final(self).nodes@ == old(self).nodes@.update(idx as int, Option::None),
            !r ==> final(self).nodes == old(self).nodes,
            old(self).wf() ==> final(self).wf(),
    {
        if idx >= self.nodes.len() || self.nodes[idx].is_none() {
            return false;
        }
        let mut e: usize = 0;
        while e < self.edges.len()
            invariant
                e <= self.edges.len(),
                forall|j: int| 0 <= j < e ==> #[trigger] self.live_edge(j)
                    ==> self.edge_at(j).from != idx && self.edge_at(j).to != idx,
            decreases self.edges.len() - e,
        {
            match &self.edges[e] {
                Some(ed) => {
                    if ed.from == idx || ed.to == idx {
                        proof {
                            assert(old(self).live_edge(e as int));
                        }
                        return false;
                    }
                },
                None => {},
            }
            e += 1;
        }
        self.nodes[idx] = Option::None;
        proof {
            assert(forall|e: int| self.live_edge(e) <==> old(self).live_edge(e));
            assert(forall|e: int| self.live_edge(e) ==> self.edge_at(e) == old(self).edge_at(e));
            if old(self).wf() {
                assert forall|e: int| #[trigger] self.live_edge(e) implies {
                    &&& self.live_node(self.edge_at(e).from as int)
                    &&& self.live_node(self.edge_at(e).to as int)
                    &&& self.edge_at(e).from != self.edge_at(e).to
                } by {
                    assert(old(self).live_edge(e));
                    assert(old(self).edge_at(e).from != idx && old(self).edge_at(e).to != idx);
                }
                assert forall|u: int| !self.reaches(u, u) by {
                    lemma_same_edges_same_reach(*self, *old(self));
                    assert(!old(self).reaches(u, u));
                }
            }
        }
        true
    }

    /// Whether a walk leads from `src` to `dst` (or the two are the same
    /// node). A depth-first search over the live edges.
    pub fn reaches_from(&self, src: usize, dst: usize) -> (r: bool)
        requires
            self.edges_wf(),
            src < self.nodes.len(),
        ensures
            r == (src == dst || self.reaches(src as int, dst as int)),
    {
        let n = self.nodes.len();
        if dst >= n {
            proof {
                if self.reaches(src as int, dst as int) {
                    let p = choose|p: Seq<int>|
                        self.is_walk(p) && p.first() == src as int && p.last() == dst as int;
                    assert(self.edge_between(p[p.len() - 2], p[p.len() - 2 + 1]));
                    let a = p[p.len() - 2];
                    let b = p[p.len() - 1];
                    let e = choose|e: int| self.edge_connects(e, a, b);
                    assert(self.live_node(self.edge_at(e).to as int));
                    assert(false);
                }
            }
            return false;
        }
        let mut visited: Vec<bool> = vec![false; n];
        visited[src] = true;
        let mut stack: Vec<usize> = Vec::new();
        stack.push(src);
        proof {
            assert(stack@[0] == src);
            assert(stack@.contains(src));
        }
        while stack.len() > 0
            invariant
                n == self.nodes.len(),
                self.edges_wf(),
                visited.len() == n,
                src < n,
                visited[src as int],
                forall|i: int| 0 <= i < n && #[trigger] visited[i] ==> i == src
                    || self.reaches(src as int, i),
                forall|j: int| 0 <= j < stack.len() ==> #[trigger] stack[j] < n
                    && visited[stack[j] as int],
                forall|i: int| 0 <= i < n && #[trigger] visited[i] && !stack@.contains(i as usize)
                    ==> forall|e: int| #[trigger] self.live_edge(e) && self.edge_at(e).from == i
                        ==> visited[self.edge_at(e).to as int],
            decreases count_falses(visited@), stack.len(),
        {
            let ghost c0 = count_falses(visited@);
            let ghost s0 = stack@.len();
            let ghost stkpre = stack@;
            let cur = stack.pop().unwrap();
            proof {
                assert(stack@ =~= stkpre.drop_last());
                assert forall|i: int|
                    0 <= i < n && #[trigger] visited@[i] && i != cur as int && !stack@.contains(
                        i as usize,
                    ) implies !stkpre.contains(i as usize) by {
                    if stkpre.contains(i as usize) {
                        let j = choose|j: int| 0 <= j < stkpre.len() && stkpre[j] == i as usize;
                        if j < stkpre.len() - 1 {
                            assert(stack@[j] == i as usize);
                            assert(stack@.contains(i as usize));
                        }
                        assert(false);
                    }
                }
            }
            let mut e: usize = 0;
            while e < self.edges.len()
                invariant
                    n == self.nodes.len(),
                    self.edges_wf(),
                    visited.len() == n,
                    src < n,
                    cur < n,
                    visited[src as int],
                    visited[cur as int],
                    e <= self.edges.len(),
                    forall|i: int| 0 <= i < n && #[trigger] visited[i] ==> i == src
                        || self.reaches(src as int, i),
                    forall|j: int| 0 <= j < stack.len() ==> #[trigger] stack[j] < n
                        && visited[stack[j] as int],
                    forall|i: int| 0 <= i < n && #[trigger] visited[i] && i != cur as int
                        && !stack@.contains(i as usize) ==> forall|e2: int|
                        #[trigger] self.live_edge(e2) && self.edge_at(e2).from == i
                            ==> visited[self.edge_at(e2).to as int],
                    forall|e2: int| 0 <= e2 < e && #[trigger] self.live_edge(e2)
                        && self.edge_at(e2).from == cur as int
                        ==> visited[self.edge_at(e2).to as int],
                    count_falses(visited@) <= c0,
                    count_falses(visited@) + stack@.len() <= c0 + s0 - 1,
                decreases self.edges.len() - e,
            {
                match &self.edges[e] {
                    Some(ed) => {
                        if ed.from == cur {
                            proof {
                                assert(self.live_edge(e as int));
                                assert(self.live_node(ed.to as int));
                            }
                            if !visited[ed.to] {
                                proof {
                                    lemma_count_falses_update(visited@, ed.to as int);
                                    assert(self.edge_connects(e as int, cur as int, ed.to as int));
                                    assert(self.edge_between(cur as int, ed.to as int));
                                    if cur == src {
                                        lemma_edge_reaches(*self, src as int, ed.to as int);
                                    } else {
                                        lemma_reaches_extend(
                                            *self,
                                            src as int,
                                            cur as int,
                                            ed.to as int,
                                        );
                                    }
                                }
                                let ghost stkmid = stack@;
                                let ghost vispre = visited@;
                                visited[ed.to] = true;
                                stack.push(ed.to);
                                proof {
                                    assert(stack@ =~= stkmid.push(ed.to));
                                    assert forall|i: int|
                                        0 <= i < n && #[trigger] visited@[i] && i != cur as int
                                            && !stack@.contains(i as usize) implies
                                        !stkmid.contains(i as usize) && vispre[i] by {
                                        if stkmid.contains(i as usize) {
                                            let j = choose|j: int|
                                                0 <= j < stkmid.len() && stkmid[j] == i as usize;
                                            assert(stack@[j] == i as usize);
                                            assert(stack@.contains(i as usize));
                                            assert(false);
                                        }
                                        assert(stack@[stack@.len() - 1] == ed.to);
                                        if i == ed.to as int {
                                            assert(stack@.contains(i as usize));
                                            assert(false);
                                        }
                                    }
                                }
                            }
                        }
                    },
                    None => {},
                }
                e += 1;
            }
        }
        proof {
            if visited@[dst as int] {
                if dst != src {
                    assert(self.reaches(src as int, dst as int));
                }
            } else {
                assert(dst != src);
                assert forall|e: int|
                    #[trigger] self.live_edge(e) && visited@[self.edge_at(e).from as int]
                    implies visited@[self.edge_at(e).to as int] by {
                    let i = self.edge_at(e).from as int;
                    assert(self.live_node(i));
                    assert(visited@[i] && !stack@.contains(i as usize));
                }
                lemma_closed_set_unreachable(*self, visited@, src as int, dst as int);
            }
        }
        visited[dst]
    }

    /// Inserts an edge. Both endpoints must be live, distinct nodes and the
    /// edge must not close a cycle; otherwise the call fails with
    /// `GraphInvalid` and the graph is unchanged.
    pub fn add_edge(&mut self, from: usize, to: usize, kind: EdgeKind) -> (r: Result<
        usize,
        FlowError,
    >)
        requires
            old(self).wf(),
        ensures
            final(self).wf(),
            final(self).nodes == old(self).nodes,
            match r {
                Ok(e) => {
                    &&& old(self).live_node(from as int) && old(self).live_node(to as int)
                    &&& from != to
                    &&& !old(self).reaches(to as int, from as int)
                    &&& e == old(self).edges.len()
                    &&& final(self).edges@ == old(self).edges@.push(
                        Some(Edge { from, to, kind }),
                    )
                },
                Err(err) => {
                    &&& err is GraphInvalid
                    &&& final(self).edges == old(self).edges
                    &&& (from == to || !old(self).live_node(from as int) || !old(self).live_node(
                        to as int,
                    ) || old(self).reaches(to as int, from as int))
                },
            },
    {
        if from >= self.nodes.len() || self.nodes[from].is_none() {
            return Err(FlowError::GraphInvalid);
        }
        if to >= self.nodes.len() || self.nodes[to].is_none() {
            return Err(FlowError::GraphInvalid);
        }
        if from == to {
            return Err(FlowError::GraphInvalid);
        }
        if self.reaches_from(to, from) {
            return Err(FlowError::GraphInvalid);
        }
        let e = self.edges.len();
        self.edges.push(Some(Edge { from, to, kind }));
        proof {
            assert forall|e2: int| #[trigger] self.live_edge(e2) implies {
                &&& self.live_node(self.edge_at(e2).from as int)
                &&& self.live_node(self.edge_at(e2).to as int)
                &&& self.edge_at(e2).from != self.edge_at(e2).to
            } by {
                if e2 < old(self).edges.len() {
                    assert(old(self).live_edge(e2));
                }
            }
            assert forall|e2: int| #[trigger] old(self).live_edge(e2) implies self.live_edge(e2)
                && self.edge_at(e2) == old(self).edge_at(e2) by {}
            assert(crate::paths::edge_extension(*old(self), *self, from as int, to as int));
            lemma_add_edge_acyclic(*old(self), *self, from as int, to as int);
        }
        Ok(e)
    }

    /// Enumerates the live in-edges of `v`, in edge-index order, as pairs of
    /// edge index and source node index.
    pub fn parents(&self, v: usize) -> (r: Vec<(usize, usize)>)
        ensures
            forall|k: int| 0 <= k < r.len() ==> {
                &&& self.live_edge(#[trigger] r[k].0 as int)
                &&& self.edge_at(r[k].0 as int).to == v
                &&& self.edge_at(r[k].0 as int).from == r[k].1
            },
            forall|k1: int, k2: int| 0 <= k1 < k2 < r.len() ==> r[k1].0 < r[k2].0,
            forall|e: int| #[trigger] self.live_edge(e) && self.edge_at(e).to == v
                ==> exists|k: int| 0 <= k < r.len() && r[k].0 == e,
    {
        let mut r: Vec<(usize, usize)> = Vec::new();
        let mut e: usize = 0;
        while e < self.edges.len()
            invariant
                e <= self.edges.len(),
                forall|k: int| 0 <= k < r.len() ==> {
                    &&& self.live_edge(#[trigger] r[k].0 as int)
                    &&& self.edge_at(r[k].0 as int).to == v
                    &&& self.edge_at(r[k].0 as int).from == r[k].1
                    &&& r[k].0 < e
                },
                forall|k1: int, k2: int| 0 <= k1 < k2 < r.len() ==> r[k1].0 < r[k2].0,
                forall|j: int| 0 <= j < e && #[trigger] self.live_edge(j) && self.edge_at(j).to == v
                    ==> exists|k: int| 0 <= k < r.len() && r[k].0 == j,
            decreases self.edges.len() - e,
        {
            let ghost r0 = r@;
            match &self.edges[e] {
                Some(ed) => {
                    if ed.to == v {
                        r.push((e, ed.from));
                    }
                },
                None => {},
            }
            proof {
                assert forall|j: int|
                    0 <= j <= e as int && #[trigger] self.live_edge(j) && self.edge_at(j).to == v
                    implies exists|k: int| 0 <= k < r@.len() && r@[k].0 == j by {
                    if j < e as int {
                        let k = choose|k: int| 0 <= k < r0.len() && r0[k].0 == j;
                        assert(r@[k].0 == j);
                    } else {
                        assert(r@[r@.len() - 1].0 == j);
                    }
                }
            }
            e += 1;
        }
        r
    }

    /// Enumerates the live out-edges of `v`, in edge-index order, as pairs
    /// of edge index and target node index.
    pub fn children(&self, v: usize) -> (r: Vec<(usize, usize)>)
        ensures
            forall|k: int| 0 <= k < r.len() ==> {
                &&& self.live_edge(#[trigger] r[k].0 as int)
                &&& self.edge_at(r[k].0 as int).from == v
                &&& self.edge_at(r[k].0 as int).to == r[k].1
            },
            forall|k1: int, k2: int| 0 <= k1 < k2 < r.len() ==> r[k1].0 < r[k2].0,
            forall|e: int| #[trigger] self.live_edge(e) && self.edge_at(e).from == v
                ==> exists|k: int| 0 <= k < r.len() && r[k].0 == e,
    {
        let mut r: Vec<(usize, usize)> = Vec::new();
        let mut e: usize = 0;
        while e < self.edges.len()
            invariant
                e <= self.edges.len(),
                forall|k: int| 0 <= k < r.len() ==> {
                    &&& self.live_edge(#[trigger] r[k].0 as int)
                    &&& self.edge_at(r[k].0 as int).from == v
                    &&& self.edge_at(r[k].0 as int).to == r[k].1
                    &&& r[k].0 < e
                },
                forall|k1: int, k2: int| 0 <= k1 < k2 < r.len() ==> r[k1].0 < r[k2].0,
                forall|j: int| 0 <= j < e && #[trigger] self.live_edge(j) && self.edge_at(j).from == v
                    ==> exists|k: int| 0 <= k < r.len() && r[k].0 == j,
            decreases self.edges.len() - e,
        {
            let ghost r0 = r@;
            match &self.edges[e] {
                Some(ed) => {
                    if ed.from == v {
                        r.push((e, ed.to));
                    }
                },
                None => {},
            }
            proof {
                assert forall|j: int|
                    0 <= j <= e as int && #[trigger] self.live_edge(j) && self.edge_at(j).from == v
                    implies exists|k: int| 0 <= k < r@.len() && r@[k].0 == j by {
                    if j < e as int {
                        let k = choose|k: int| 0 <= k < r0.len() && r0[k].0 == j;
                        assert(r@[k].0 == j);
                    } else {
                        assert(r@[r@.len() - 1].0 == j);
                    }
                }
            }
            e += 1;
        }
        r
    }
}

/// Two graphs with identical live edges admit exactly the same walks, so
/// one reaches what the other reaches.
pub proof fn lemma_same_edges_same_reach(g1: Graph, g2: Graph)
    requires
        forall|e: int| g1.live_edge(e) <==> g2.live_edge(e),
        forall|e: int| g1.live_edge(e) ==> g1.edge_at(e) == g2.edge_at(e),
    ensures
        forall|u: int, v: int| g1.reaches(u, v) ==> #[trigger] g2.reaches(u, v),
{
    assert forall|u: int, v: int| g1.reaches(u, v) implies #[trigger] g2.reaches(u, v) by {
        let p = choose|p: Seq<int>| g1.is_walk(p) && p.first() == u && p.last() == v;
        assert forall|k: int| 0 <= k < p.len() - 1 implies g2.edge_between(p[k], #[trigger] p[k + 1]) by {
            assert(g1.edge_between(p[k], p[k + 1]));
            let a = p[k];
            let b = p[k + 1];
            let e = choose|e: int| g1.edge_connects(e, a, b);
            assert(g2.edge_connects(e, a, b));
        }
        assert(g2.is_walk(p));
    }
}

/// Removing edges only removes walks: a graph whose live edges are a subset
/// of a well-formed graph's is itself well formed.
pub proof fn lemma_edge_subset_preserves_wf(g1: Graph, g2: Graph)
    requires
        g1.wf(),
        forall|e: int| #[trigger] g2.live_edge(e) ==> g1.live_edge(e) && g2.edge_at(e)
            == g1.edge_at(e),
        forall|i: int| g1.live_node(i) ==> #[trigger] g2.live_node(i),
    ensures
        g2.wf(),
{
    assert forall|e: int| #[trigger] g2.live_edge(e) implies {
        &&& g2.live_node(g2.edge_at(e).from as int)
        &&& g2.live_node(g2.edge_at(e).to as int)
        &&& g2.edge_at(e).from != g2.edge_at(e).to
    } by {
        assert(g1.live_edge(e));
    }
    assert forall|u: int| !g2.reaches(u, u) by {
        if g2.reaches(u, u) {
            let p = choose|p: Seq<int>| g2.is_walk(p) && p.first() == u && p.last() == u;
            assert forall|k: int| 0 <= k < p.len() - 1 implies g1.edge_between(
                p[k],
                #[trigger] p[k + 1],
            ) by {
                assert(g2.edge_between(p[k], p[k + 1]));
                let a = p[k];
                let b = p[k + 1];
                let e = choose|e: int| g2.edge_connects(e, a, b);
                assert(g1.edge_connects(e, a, b));
            }
            assert(g1.is_walk(p));
            assert(g1.reaches(u, u));
            assert(false);
        }
    }
}

} // verus!
