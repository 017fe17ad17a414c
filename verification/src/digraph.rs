//! The directed graph of `petgraph` that holds entities and events, with
//! what its operations do to the graph's contents.

use vstd::prelude::*;
use petgraph::graph::DiGraph;
use petgraph::visit::EdgeRef;
use crate::graph::{EntityNode, EventEdge, EdgeView, NodeView};

verus! {

#[verifier::external_type_specification]
#[verifier::external_body]
#[verifier::reject_recursive_types(N)]
#[verifier::reject_recursive_types(E)]
#[verifier::reject_recursive_types(Ty)]
#[verifier::reject_recursive_types(Ix)]
pub struct ExGraph<N, E, Ty, Ix>(petgraph::graph::Graph<N, E, Ty, Ix>);

#[verifier::external_type_specification]
#[verifier::external_body]
pub struct ExDirected(petgraph::Directed);

/// An edge of the graph: its endpoints and the view of its weight.
pub struct EdgeRec {
    pub source: nat,
    pub target: nat,
    pub weight: EdgeView,
}

/// The contents of a graph: node weights and edges by index, and for each
/// node the indices of its outgoing and incoming edges in the order the
/// graph walks them.
pub struct GraphModel {
    pub nodes: Seq<NodeView>,
    pub edges: Seq<EdgeRec>,
    pub outgoing: Seq<Seq<nat>>,
    pub incoming: Seq<Seq<nat>>,
}

/// `l` with the index `from` renamed to `to`.
pub open spec fn rename(l: Seq<nat>, from: nat, to: nat) -> Seq<nat> {
    l.map_values(|i: nat| if i == from { to } else { i })
}

/// `l` without the index `e`, the other indices in their order.
pub open spec fn without(l: Seq<nat>, e: nat) -> Seq<nat>
    decreases l.len(),
{
    if l.len() == 0 {
        l
    } else if l[0] == e {
        without(l.drop_first(), e)
    } else {
        seq![l[0]] + without(l.drop_first(), e)
    }
}

impl GraphModel {
    /// Every node has an outgoing list, and the lists hold edge indices.
    pub open spec fn wf(self) -> bool {
        &&& self.outgoing.len() == self.nodes.len()
        &&& forall|a: int, k: int|
            0 <= a < self.outgoing.len() && 0 <= k < self.outgoing[a].len() ==> #[trigger] self.outgoing[a][k]
                < self.edges.len()
    }

    /// The empty graph.
    pub open spec fn empty() -> GraphModel {
        GraphModel { nodes: seq![], edges: seq![], outgoing: seq![], incoming: seq![] }
    }

    /// The graph after `add_node(w)`: a new last node without edges.
    pub open spec fn with_node(self, w: NodeView) -> GraphModel {
        GraphModel {
            nodes: self.nodes.push(w),
            edges: self.edges,
            outgoing: self.outgoing.push(seq![]),
            incoming: self.incoming.push(seq![]),
        }
    }

    /// The graph after `add_edge(a, b, w)`: a new last edge, first in the
    /// outgoing list of `a` and in the incoming list of `b`.
    pub open spec fn with_edge(self, a: nat, b: nat, w: EdgeView) -> GraphModel {
        let e = self.edges.len();
        GraphModel {
            nodes: self.nodes,
            edges: self.edges.push(EdgeRec { source: a, target: b, weight: w }),
            outgoing: self.outgoing.update(a as int, seq![e] + self.outgoing[a as int]),
            incoming: self.incoming.update(b as int, seq![e] + self.incoming[b as int]),
        }
    }

    /// No edge starts or ends at node `a`.
    pub open spec fn isolated(self, a: nat) -> bool {
        forall|j: int| 0 <= j < self.edges.len() ==> (#[trigger] self.edges[j]).source != a && self.edges[j].target != a
    }

    /// The graph after `remove_node(a)` of an existing node without edges:
    /// the last node takes index `a` with its lists, and the edges that
    /// started or ended at the last node now start or end at `a`.
    pub open spec fn relocated(self, a: nat) -> GraphModel {
        let last = (self.nodes.len() - 1) as nat;
        GraphModel {
            nodes: self.nodes.update(a as int, self.nodes[last as int]).drop_last(),
            edges: self.edges.map_values(
                |r: EdgeRec|
                    EdgeRec {
                        source: if r.source == last {
                            a
                        } else {
                            r.source
                        },
                        target: if r.target == last {
                            a
                        } else {
                            r.target
                        },
                        weight: r.weight,
                    },
            ),
            outgoing: self.outgoing.update(a as int, self.outgoing[last as int]).drop_last(),
            incoming: self.incoming.update(a as int, self.incoming[last as int]).drop_last(),
        }
    }

    /// The graph after `remove_edge(e)` of an existing edge: the last edge
    /// takes index `e`, and every list loses `e` and renames the last index
    /// to `e` in place.
    pub open spec fn without_edge(self, e: nat) -> GraphModel {
        let last = (self.edges.len() - 1) as nat;
        GraphModel {
            nodes: self.nodes,
            edges: self.edges.update(e as int, self.edges[last as int]).drop_last(),
            outgoing: self.outgoing.map_values(|l: Seq<nat>| rename(without(l, e), last, e)),
            incoming: self.incoming.map_values(|l: Seq<nat>| rename(without(l, e), last, e)),
        }
    }
}

/// The contents of a `petgraph` graph of entities and events.
pub uninterp spec fn graph_view(g: DiGraph<EntityNode, EventEdge>) -> GraphModel;

/// The contents of the graph after `remove_node(a)` on a graph with the
/// given contents, for an existing node `a`.
pub uninterp spec fn graph_after_node_removal(m: GraphModel, a: nat) -> GraphModel;

/// `Graph::new`: an empty graph.
#[verifier::external_body]
pub(crate) fn graph_new() -> (g: DiGraph<EntityNode, EventEdge>)
    ensures
        graph_view(g) == GraphModel::empty(),
{
    DiGraph::new()
}

/// `Graph::node_count`.
#[verifier::external_body]
pub(crate) fn graph_node_count(g: &DiGraph<EntityNode, EventEdge>) -> (r: usize)
    ensures
        r == graph_view(*g).nodes.len(),
{
    g.node_count()
}

/// `Graph::edge_count`.
#[verifier::external_body]
pub(crate) fn graph_edge_count(g: &DiGraph<EntityNode, EventEdge>) -> (r: usize)
    ensures
        r == graph_view(*g).edges.len(),
{
    g.edge_count()
}

/// `Graph::add_node`: the node becomes the last one and its index is
/// returned. The graph panics when the `u32` index space is used up.
#[verifier::external_body]
pub(crate) fn graph_add_node(g: &mut DiGraph<EntityNode, EventEdge>, w: EntityNode) -> (r: usize)
    requires
        graph_view(*old(g)).nodes.len() < u32::MAX,
    ensures
        r == graph_view(*old(g)).nodes.len(),
        graph_view(*final(g)) == graph_view(*old(g)).with_node(w@),
{
    g.add_node(w).index()
}

/// `Graph::add_edge`: the edge becomes the last one and its index is
/// returned (see `GraphModel::with_edge`). The graph panics when an
/// endpoint does not exist or the `u32` index space is used up.
#[verifier::external_body]
pub(crate) fn graph_add_edge(g: &mut DiGraph<EntityNode, EventEdge>, a: usize, b: usize, w: EventEdge) -> (r: usize)
    requires
        a < graph_view(*old(g)).nodes.len(),
        b < graph_view(*old(g)).nodes.len(),
        graph_view(*old(g)).edges.len() < u32::MAX,
    ensures
        r == graph_view(*old(g)).edges.len(),
        graph_view(*final(g)) == graph_view(*old(g)).with_edge(a as nat, b as nat, w@),
{
    g.add_edge(petgraph::graph::NodeIndex::new(a), petgraph::graph::NodeIndex::new(b), w).index()
}

/// `Graph::remove_edge`: for an existing edge, its weight, with the graph
/// changed as `GraphModel::without_edge` says; otherwise nothing.
#[verifier::external_body]
pub(crate) fn graph_remove_edge(g: &mut DiGraph<EntityNode, EventEdge>, e: usize) -> (r: Option<EventEdge>)
    requires
        e <= u32::MAX,
    ensures
        e < graph_view(*old(g)).edges.len() ==> (r matches Some(w) && w@ == graph_view(*old(g)).edges[e as int].weight
            && graph_view(*final(g)) == graph_view(*old(g)).without_edge(e as nat)),
        e >= graph_view(*old(g)).edges.len() ==> r is None && graph_view(*final(g)) == graph_view(*old(g)),
{
    g.remove_edge(petgraph::graph::EdgeIndex::new(e))
}

/// `Graph::remove_node`: for an existing node, its weight. The node's
/// edges go one by one, each as `remove_edge` takes it; then the last node
/// takes index `a` (swap removal) and the edges of the moved node are
/// renumbered to `a`. For a node without edges this is
/// `GraphModel::relocated`. In general the new contents are named by
/// `graph_after_node_removal`, with these facts: no edge is added, every
/// remaining edge weight was an edge weight before, and the lists stay
/// consistent. For an index that is not a node, nothing changes.
#[verifier::external_body]
pub(crate) fn graph_remove_node(g: &mut DiGraph<EntityNode, EventEdge>, a: usize) -> (r: Option<EntityNode>)
    requires
        a <= u32::MAX,
    ensures
        a < graph_view(*old(g)).nodes.len() ==> (r matches Some(w) && w@ == graph_view(*old(g)).nodes[a as int]
            && graph_view(*final(g)) == graph_after_node_removal(graph_view(*old(g)), a as nat)
            && graph_view(*final(g)).nodes == graph_view(*old(g)).nodes.update(
                a as int,
                graph_view(*old(g)).nodes.last(),
            ).drop_last()
            && (forall|i: int| 0 <= i < graph_view(*final(g)).edges.len() ==> exists|j: int|
                0 <= j < graph_view(*old(g)).edges.len() && #[trigger] graph_view(*final(g)).edges[i].weight
                    == graph_view(*old(g)).edges[j].weight)
            && graph_view(*final(g)).edges.len() <= graph_view(*old(g)).edges.len()
            && (graph_view(*old(g)).wf() ==> graph_view(*final(g)).wf())
            && (graph_view(*old(g)).isolated(a as nat) ==> graph_view(*final(g)) == graph_view(*old(g)).relocated(
                a as nat,
            ))),
        a >= graph_view(*old(g)).nodes.len() ==> r is None && graph_view(*final(g)) == graph_view(*old(g)),
{
    g.remove_node(petgraph::graph::NodeIndex::new(a))
}

/// `graph[a]` for a node.
#[verifier::external_body]
pub(crate) fn graph_node_weight(g: &DiGraph<EntityNode, EventEdge>, a: usize) -> (r: &EntityNode)
    requires
        a < graph_view(*g).nodes.len(),
    ensures
        r@ == graph_view(*g).nodes[a as int],
{
    &g[petgraph::graph::NodeIndex::new(a)]
}

/// `graph[e]` for an edge.
#[verifier::external_body]
pub(crate) fn graph_edge_weight(g: &DiGraph<EntityNode, EventEdge>, e: usize) -> (r: &EventEdge)
    requires
        e < graph_view(*g).edges.len(),
    ensures
        r@ == graph_view(*g).edges[e as int].weight,
{
    &g[petgraph::graph::EdgeIndex::new(e)]
}

/// `Graph::edge_endpoints` of an existing edge: its source and target.
#[verifier::external_body]
pub(crate) fn graph_edge_endpoints(g: &DiGraph<EntityNode, EventEdge>, e: usize) -> (r: (usize, usize))
    requires
        e < graph_view(*g).edges.len(),
    ensures
        r.0 == graph_view(*g).edges[e as int].source,
        r.1 == graph_view(*g).edges[e as int].target,
{
    let (a, b) = g.edge_endpoints(petgraph::graph::EdgeIndex::new(e)).unwrap_or_default();
    (a.index(), b.index())
}

/// The indices of the edges that `Graph::edges(a)` walks: the outgoing
/// edges of an existing node, in list order; none for a missing node.
#[verifier::external_body]
pub(crate) fn graph_outgoing(g: &DiGraph<EntityNode, EventEdge>, a: usize) -> (r: Vec<usize>)
    requires
        a <= u32::MAX,
    ensures
        a < graph_view(*g).nodes.len() ==> r@.map_values(|i: usize| i as nat) == graph_view(*g).outgoing[a as int],
        a >= graph_view(*g).nodes.len() ==> r@ == Seq::<usize>::empty(),
{
    let mut r = Vec::new();
    for e in g.edges(petgraph::graph::NodeIndex::new(a)) {
        r.push(e.id().index());
    }
    r
}

} // verus!
