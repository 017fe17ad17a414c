//! The event graph: entities as nodes, events as edges, with time-based
//! pruning, snapshots and pattern search.

use vstd::prelude::*;
use vstd::string::StringExecFns;
use petgraph::graph::DiGraph;
use crate::digraph::{
    EdgeRec, GraphModel, graph_add_edge, graph_add_node, graph_after_node_removal, graph_edge_count,
    graph_edge_endpoints, graph_edge_weight, graph_new, graph_node_count, graph_node_weight,
    graph_outgoing, graph_remove_edge, graph_remove_node, graph_view, rename, without,
};
use crate::platform::{Timestamp, elapsed_secs, rfc3339, rfc3339_text, seconds_between, utc_now, uuid_string, uuid_text};
use crate::shared::{CanonicalEvent, EntityKind, EventType, event_type_name, kind_name};
use crate::text::{str_eq};

verus! {

/// How long an event stays in the graph, in seconds.
pub const GRAPH_TTL_SECS: i64 = 1800;

/// How often the pruner runs, in seconds.
pub const PRUNE_INTERVAL_SECS: u64 = 60;

/// A node: an entity.
#[derive(Clone, Debug)]
pub struct EntityNode {
    pub key: String,
    pub kind: EntityKind,
}

/// The plain content of a node.
pub struct NodeView {
    pub key: Seq<char>,
    pub kind: EntityKind,
}

impl View for EntityNode {
    type V = NodeView;

    open spec fn view(&self) -> NodeView {
        NodeView { key: self.key@, kind: self.kind }
    }
}

/// An edge: an event, with its score as the bits of an IEEE-754 `f32`.
#[derive(Clone, Debug)]
pub struct EventEdge {
    pub id: String,
    pub timestamp: Timestamp,
    pub event_type: EventType,
    pub score_bits: u32,
    pub sigma_rule_id: Option<String>,
}

/// The view of an optional string.
pub open spec fn opt_view(o: Option<String>) -> Option<Seq<char>> {
    match o {
        Some(s) => Some(s@),
        None => None,
    }
}

/// The plain content of an edge.
pub struct EdgeView {
    pub id: Seq<char>,
    pub timestamp: Timestamp,
    pub event_type: EventType,
    pub score_bits: u32,
    pub sigma_rule_id: Option<Seq<char>>,
}

impl View for EventEdge {
    type V = EdgeView;

    open spec fn view(&self) -> EdgeView {
        EdgeView {
            id: self.id@,
            timestamp: self.timestamp,
            event_type: self.event_type,
            score_bits: self.score_bits,
            sigma_rule_id: opt_view(self.sigma_rule_id),
        }
    }
}

/// Keys of entities and the indices of their nodes.
pub type IndexEntries = Seq<(Seq<char>, usize)>;

/// The predicate "this entry has key `k`".
pub open spec fn index_key(k: Seq<char>) -> spec_fn((Seq<char>, usize)) -> bool {
    |e: (Seq<char>, usize)| e.0 == k
}

/// The node index recorded for a key.
pub open spec fn index_of(map: IndexEntries, k: Seq<char>) -> Option<usize> {
    let i = crate::text::first_where(map, index_key(k));
    if 0 <= i < map.len() {
        Some(map[i].1)
    } else {
        None
    }
}

/// The map after recording index `v` for key `k`.
pub open spec fn index_set(map: IndexEntries, k: Seq<char>, v: usize) -> IndexEntries {
    let i = crate::text::first_where(map, index_key(k));
    if 0 <= i < map.len() {
        map.update(i, (k, v))
    } else {
        map.push((k, v))
    }
}

/// The graph, map and node index after finding or adding the node of `key`.
pub open spec fn node_for(m: GraphModel, map: IndexEntries, key: Seq<char>, kind: EntityKind) -> (
    GraphModel,
    IndexEntries,
    nat,
) {
    match index_of(map, key) {
        Some(i) => (m, map, i as nat),
        None => (
            m.with_node(NodeView { key: key, kind: kind }),
            index_set(map, key, m.nodes.len() as usize),
            m.nodes.len(),
        ),
    }
}

/// The edge recorded for an event.
pub open spec fn edge_of(event: CanonicalEvent, score_bits: u32, sigma_rule_id: Option<Seq<char>>) -> EdgeView {
    EdgeView {
        id: uuid_text(event.id),
        timestamp: event.timestamp,
        event_type: event.event_type,
        score_bits: score_bits,
        sigma_rule_id: sigma_rule_id,
    }
}

/// Every edge carries a representable time stamp.
pub open spec fn weights_wf(m: GraphModel) -> bool {
    forall|i: int| 0 <= i < m.edges.len() ==> (#[trigger] m.edges[i]).weight.timestamp.wf()
}

/// Every edge starts and ends at a node.
pub open spec fn endpoints_wf(m: GraphModel) -> bool {
    forall|j: int| 0 <= j < m.edges.len() ==> (#[trigger] m.edges[j]).source < m.nodes.len() && m.edges[j].target < m.nodes.len()
}

/// The index map agrees with the graph: no key is recorded twice, every
/// node's key is recorded with the node's index, and every recorded index
/// names a node with that key (so nodes have distinct keys).
pub open spec fn map_consistent(m: GraphModel, map: IndexEntries) -> bool {
    &&& forall|j1: int, j2: int| 0 <= j1 < j2 < map.len() ==> (#[trigger] map[j1]).0 != (#[trigger] map[j2]).0
    &&& forall|i: int| 0 <= i < m.nodes.len() ==> index_of(map, (#[trigger] m.nodes[i]).key) == Some(i as usize)
    &&& forall|j: int| 0 <= j < map.len() ==> (#[trigger] map[j]).1 < m.nodes.len() && m.nodes[map[j].1 as int].key == map[j].0
}

/// A node of a snapshot.
#[derive(Clone, Debug)]
pub struct GraphNodeDto {
    pub id: usize,
    pub key: String,
    pub kind: String,
}

/// An edge of a snapshot; the score is the bits of an IEEE-754 `f32`.
#[derive(Clone, Debug)]
pub struct GraphEdgeDto {
    pub id: String,
    pub source: usize,
    pub target: usize,
    pub event_type: String,
    pub score_bits: u32,
    pub timestamp: String,
}

/// A copy of the graph's nodes and edges, in index order.
#[derive(Clone, Debug)]
pub struct GraphSnapshot {
    pub nodes: Vec<GraphNodeDto>,
    pub edges: Vec<GraphEdgeDto>,
}

/// The graph of entities and events.
pub struct EventGraph {
    graph: DiGraph<EntityNode, EventEdge>,
    node_index_map: Vec<(String, usize)>,
}

impl EventGraph {
    /// The contents of the graph.
    pub closed spec fn model(&self) -> GraphModel {
        graph_view(self.graph)
    }

    /// The node index recorded for each entity key.
    pub closed spec fn index_map(&self) -> IndexEntries {
        self.node_index_map@.map_values(|e: (String, usize)| (e.0@, e.1))
    }

    /// The graph's lists are consistent, its edges join nodes and carry
    /// representable time stamps, the index map agrees with the nodes, and
    /// indices fit the graph's index type.
    pub open spec fn wf(&self) -> bool {
        &&& self.model().wf()
        &&& weights_wf(self.model())
        &&& endpoints_wf(self.model())
        &&& map_consistent(self.model(), self.index_map())
        &&& self.model().nodes.len() <= u32::MAX
        &&& self.model().edges.len() <= u32::MAX
    }

    /// An empty graph.
    pub fn new() -> (r: EventGraph)
        ensures
            r.wf(),
            r.model() == GraphModel::empty(),
            r.index_map() == Seq::<(Seq<char>, usize)>::empty(),
    {
        let r = EventGraph { graph: graph_new(), node_index_map: Vec::new() };
        assert(r.index_map() =~= Seq::<(Seq<char>, usize)>::empty());
        r
    }

    /// Position of `key` in the index map, or its length.
    fn index_position(&self, key: &str) -> (r: usize)
        ensures
            r as int == crate::text::first_where(self.index_map(), index_key(key@)),
    {
        let mut i: usize = 0;
        while i < self.node_index_map.len()
            invariant
                i <= self.index_map().len(),
                self.index_map().len() == self.node_index_map@.len(),
                forall|j: int| 0 <= j < i ==> !index_key(key@)(#[trigger] self.index_map()[j]),
            decreases self.node_index_map.len() - i,
        {
            assert(self.index_map()[i as int].0 == self.node_index_map@[i as int].0@);
            if str_eq(self.node_index_map[i].0.as_str(), key) {
                proof {
                    crate::text::lemma_first_where_unique(self.index_map(), index_key(key@), i as int);
                }
                return i;
            }
            i = i + 1;
        }
        proof {
            crate::text::lemma_first_where_unique(self.index_map(), index_key(key@), i as int);
        }
        i
    }

    /// The node of `key`, added with `kind` when the key has none.
    fn get_or_insert_node(&mut self, key: &str, kind: EntityKind) -> (r: usize)
        requires
            old(self).wf(),
            old(self).model().nodes.len() < u32::MAX,
        ensures
            final(self).wf(),
            (r as int) < final(self).model().nodes.len(),
            final(self).model().nodes[r as int].key == key@,
            (final(self).model(), final(self).index_map(), r as nat) == node_for(
                old(self).model(),
                old(self).index_map(),
                key@,
                kind,
            ),
    {
        let pos = self.index_position(key);
        let ghost map0 = self.index_map();
        let ghost m0 = self.model();
        proof {
            crate::text::lemma_first_where(map0, index_key(key@));
        }
        if pos < self.node_index_map.len() {
            assert(map0[pos as int].1 == self.node_index_map@[pos as int].1);
            return self.node_index_map[pos].1;
        }
        let node = EntityNode { key: String::from_str(key), kind };
        let idx = graph_add_node(&mut self.graph, node);
        let ghost before = self.node_index_map@;
        self.node_index_map.push((String::from_str(key), idx));
        proof {
            let map1 = self.index_map();
            let m1 = self.model();
            assert(map1 =~= map0.push((key@, idx)));
            lemma_with_node_wf(m0, NodeView { key: key@, kind: kind });
            assert forall|j1: int, j2: int| 0 <= j1 < j2 < map1.len() implies (#[trigger] map1[j1]).0 != (
            #[trigger] map1[j2]).0 by {
                if j2 == map0.len() {
                    assert(!index_key(key@)(map0[j1]));
                } else {
                    assert(map1[j1] == map0[j1] && map1[j2] == map0[j2]);
                }
            }
            assert forall|i: int| 0 <= i < m1.nodes.len() implies index_of(map1, (#[trigger] m1.nodes[i]).key) == Some(
                i as usize,
            ) by {
                lemma_index_set_of(map0, key@, idx, m1.nodes[i].key);
                if i < m0.nodes.len() {
                    assert(m1.nodes[i] == m0.nodes[i]);
                    let k = m0.nodes[i].key;
                    assert(index_of(map0, k) == Some(i as usize));
                    crate::text::lemma_first_where(map0, index_key(k));
                    let f = crate::text::first_where(map0, index_key(k));
                    if k == key@ {
                        assert(!index_key(key@)(map0[f]));
                    }
                }
            }
            assert forall|j: int| 0 <= j < map1.len() implies (#[trigger] map1[j]).1 < m1.nodes.len()
                && m1.nodes[map1[j].1 as int].key == map1[j].0 by {
                if j < map0.len() {
                    assert(map1[j] == map0[j]);
                    assert(m1.nodes[map0[j].1 as int] == m0.nodes[map0[j].1 as int]);
                }
            }
            assert forall|j: int| 0 <= j < m1.edges.len() implies (#[trigger] m1.edges[j]).source < m1.nodes.len()
                && m1.edges[j].target < m1.nodes.len() by {
                assert(m1.edges[j] == m0.edges[j]);
            }
        }
        idx
    }

    /// Whether `insert_event` can record an event: the graph has room for
    /// two more nodes and one more edge in its `u32` index space.
    pub fn insert_ready(&self, event: &CanonicalEvent) -> (r: bool)
        requires
            self.wf(),
        ensures
            r == (self.model().nodes.len() + 2 < u32::MAX && self.model().edges.len() + 1 < u32::MAX),
    {
        let n = graph_node_count(&self.graph);
        let m = graph_edge_count(&self.graph);
        n < 0xFFFF_FFFD && m < 0xFFFF_FFFE
    }

    /// Records an event as an edge from its source entity to its
    /// destination entity, adding their nodes when needed.
    pub fn insert_event(&mut self, event: &CanonicalEvent, score_bits: u32, sigma_rule_id: Option<String>)
        requires
            old(self).wf(),
            event.timestamp.wf(),
            old(self).model().nodes.len() + 2 < u32::MAX,
            old(self).model().edges.len() + 1 < u32::MAX,
        ensures
            final(self).wf(),
            ({
                let (m1, map1, s) = node_for(
                    old(self).model(),
                    old(self).index_map(),
                    event.src_entity.key@,
                    event.src_entity.kind,
                );
                let (m2, map2, d) = node_for(m1, map1, event.dst_entity.key@, event.dst_entity.kind);
                &&& final(self).model() == m2.with_edge(s, d, edge_of(*event, score_bits, opt_view(sigma_rule_id)))
                &&& final(self).index_map() == map2
            }),
    {
        let ghost sigma = opt_view(sigma_rule_id);
        let src_idx = self.get_or_insert_node(event.src_entity.key.as_str(), event.src_entity.kind);
        proof {
            lemma_index_set_of(old(self).index_map(), event.src_entity.key@, old(self).model().nodes.len() as usize, event.dst_entity.key@);
        }
        let dst_idx = self.get_or_insert_node(event.dst_entity.key.as_str(), event.dst_entity.kind);
        let edge = EventEdge {
            id: uuid_string(event.id),
            timestamp: event.timestamp,
            event_type: event.event_type,
            score_bits,
            sigma_rule_id,
        };
        let ghost mid = self.model();
        graph_add_edge(&mut self.graph, src_idx, dst_idx, edge);
        proof {
            lemma_with_edge_wf(mid, src_idx as nat, dst_idx as nat, edge@);
            let m2 = self.model();
            assert forall|j: int| 0 <= j < m2.edges.len() implies (#[trigger] m2.edges[j]).source < m2.nodes.len()
                && m2.edges[j].target < m2.nodes.len() by {
                if j < mid.edges.len() {
                    assert(m2.edges[j] == mid.edges[j]);
                }
            }
        }
    }

    /// A copy of the nodes and edges, in index order.
    pub fn get_snapshot(&self) -> (r: GraphSnapshot)
        requires
            self.wf(),
        ensures
            r.nodes.len() == self.model().nodes.len(),
            forall|i: int| 0 <= i < r.nodes.len() ==> {
                let n = #[trigger] r.nodes@[i];
                &&& n.id == i
                &&& n.key@ == self.model().nodes[i].key
                &&& n.kind@ == kind_name(self.model().nodes[i].kind)
            },
            r.edges.len() == self.model().edges.len(),
            forall|i: int| 0 <= i < r.edges.len() ==> {
                let e = #[trigger] r.edges@[i];
                let m = self.model().edges[i];
                &&& e.id@ == m.weight.id
                &&& e.source == m.source
                &&& e.target == m.target
                &&& e.event_type@ == event_type_name(m.weight.event_type)
                &&& e.score_bits == m.weight.score_bits
                &&& e.timestamp@ == rfc3339(m.weight.timestamp.secs, m.weight.timestamp.nanos)
            },
    {
        let n = graph_node_count(&self.graph);
        let mut nodes: Vec<GraphNodeDto> = Vec::new();
        let mut i: usize = 0;
        while i < n
            invariant
                n == self.model().nodes.len(),
                i <= n,
                nodes.len() == i,
                forall|k: int| 0 <= k < i ==> {
                    let d = #[trigger] nodes@[k];
                    &&& d.id == k
                    &&& d.key@ == self.model().nodes[k].key
                    &&& d.kind@ == kind_name(self.model().nodes[k].kind)
                },
            decreases n - i,
        {
            let w = graph_node_weight(&self.graph, i);
            nodes.push(GraphNodeDto { id: i, key: w.key.clone(), kind: w.kind.name() });
            i = i + 1;
        }
        let m = graph_edge_count(&self.graph);
        let mut edges: Vec<GraphEdgeDto> = Vec::new();
        let mut j: usize = 0;
        while j < m
            invariant
                self.wf(),
                m == self.model().edges.len(),
                j <= m,
                edges.len() == j,
                forall|k: int| 0 <= k < j ==> {
                    let e = #[trigger] edges@[k];
                    let x = self.model().edges[k];
                    &&& e.id@ == x.weight.id
                    &&& e.source == x.source
                    &&& e.target == x.target
                    &&& e.event_type@ == event_type_name(x.weight.event_type)
                    &&& e.score_bits == x.weight.score_bits
                    &&& e.timestamp@ == rfc3339(x.weight.timestamp.secs, x.weight.timestamp.nanos)
                },
            decreases m - j,
        {
            let (src, dst) = graph_edge_endpoints(&self.graph, j);
            let w = graph_edge_weight(&self.graph, j);
            assert(self.model().edges[j as int].weight.timestamp.wf());
            edges.push(GraphEdgeDto {
                id: w.id.clone(),
                source: src,
                target: dst,
                event_type: w.event_type.name(),
                score_bits: w.score_bits,
                timestamp: rfc3339_text(&w.timestamp),
            });
            j = j + 1;
        }
        GraphSnapshot { nodes, edges }
    }

    /// The events leaving the node of `entity_key`, in the order the graph
    /// walks them; none when the key has no node.
    pub fn get_edges_for_entity(&self, entity_key: &str) -> (r: Vec<&EventEdge>)
        requires
            self.wf(),
        ensures
            r@.map_values(|e: &EventEdge| e@) == edges_of_key(self.model(), self.index_map(), entity_key@),
    {
        let pos = self.index_position(entity_key);
        if pos >= self.node_index_map.len() {
            proof {
                lemma_empty_views();
            }
            return Vec::new();
        }
        let idx = self.node_index_map[pos].1;
        assert(self.index_map()[pos as int].1 == idx);
        self.out_edges(idx)
    }

    /// Removes the events that are older than `GRAPH_TTL_SECS` as of the
    /// current time, then the nodes left without any event (see `pruned_as`).
    pub fn prune_old_edges(&mut self)
        requires
            old(self).wf(),
        ensures
            final(self).wf(),
            exists|now: Timestamp| now.wf() && #[trigger] pruned_as(old(self).model(), final(self).model(), now),
    {
        let now = utc_now();
        self.prune_old_edges_at(&now);
    }

    /// Removes the events that are older than `GRAPH_TTL_SECS` as of `now`,
    /// then the nodes left without any event, keeping the index map in step
    /// (see `pruned_as`).
    pub fn prune_old_edges_at(&mut self, now: &Timestamp)
        requires
            old(self).wf(),
            now.wf(),
        ensures
            final(self).wf(),
            pruned_as(old(self).model(), final(self).model(), *now),
    {
        let ghost m0 = self.model();
        self.drop_stale_edges(now);
        let ghost m1 = self.model();
        self.prune_orphaned_nodes();
        proof {
            let m2 = self.model();
            assert forall|j: int| 0 <= j < m2.edges.len() implies !is_stale((#[trigger] m2.edges[j]).weight, *now) by {
                assert(m2.edges[j].weight == m1.edges[j].weight);
                assert(!is_stale(m1.edges[j].weight, *now));
            }
            assert forall|i: int| 0 <= i < m0.nodes.len() && key_used(edge_keys(m2), (#[trigger] m0.nodes[i]).key) implies m2.nodes.contains(
                m0.nodes[i],
            ) by {
                assert(m1.nodes[i] == m0.nodes[i]);
            }
        }
    }

    /// Removes every edge that is stale as of `now`, by decreasing index:
    /// removing an edge moves the last edge into its place, and every edge
    /// above the current index has already been kept.
    fn drop_stale_edges(&mut self, now: &Timestamp)
        requires
            old(self).wf(),
            now.wf(),
        ensures
            final(self).wf(),
            final(self).model().nodes == old(self).model().nodes,
            final(self).index_map() == old(self).index_map(),
            edge_keys(final(self).model()).to_multiset() == edge_keys(old(self).model()).filter(
                recent_key(*now),
            ).to_multiset(),
            forall|j: int|
                0 <= j < final(self).model().edges.len() ==> !is_stale((#[trigger] final(self).model().edges[j]).weight, *now),
    {
        let ghost m0 = self.model();
        let ghost k0 = edge_keys(m0);
        let ghost total = k0.len() as int;
        let mut e: usize = graph_edge_count(&self.graph);
        proof {
            assert(k0.subrange(total, total) =~= Seq::<(Seq<char>, Seq<char>, EdgeView)>::empty());
            reveal(Seq::filter);
            assert(k0.subrange(total, total).filter(recent_key(*now)) =~= Seq::<(Seq<char>, Seq<char>, EdgeView)>::empty());
            assert(k0.subrange(0, total) =~= k0);
            assert(k0.to_multiset().add(Seq::<(Seq<char>, Seq<char>, EdgeView)>::empty().to_multiset()) =~= k0.to_multiset()) by {
                broadcast use vstd::multiset::group_multiset_axioms;
                vstd::seq_lib::to_multiset_len(Seq::<(Seq<char>, Seq<char>, EdgeView)>::empty());
                assert(Seq::<(Seq<char>, Seq<char>, EdgeView)>::empty().to_multiset() =~= vstd::multiset::Multiset::empty());
            }
        }
        while e > 0
            invariant
                self.wf(),
                now.wf(),
                self.model().nodes == m0.nodes,
                self.index_map() == old(self).index_map(),
                k0 == edge_keys(m0),
                total == k0.len(),
                e <= self.model().edges.len(),
                e <= total,
                forall|k: int| 0 <= k < e ==> #[trigger] self.model().edges[k] == m0.edges[k],
                forall|k: int| e <= k < self.model().edges.len() ==> !is_stale((#[trigger] self.model().edges[k]).weight, *now),
                edge_keys(self.model()).to_multiset() == k0.subrange(0, e as int).to_multiset().add(
                    k0.subrange(e as int, total).filter(recent_key(*now)).to_multiset(),
                ),
            decreases e,
        {
            e = e - 1;
            let ghost cur = self.model();
            let ghost ck = edge_keys(cur);
            let w = graph_edge_weight(&self.graph, e);
            proof {
                assert(cur.edges[e as int].weight.timestamp.wf());
            }
            let stale = elapsed_secs(now, &w.timestamp) > GRAPH_TTL_SECS;
            let ghost x = k0[e as int];
            let ghost lo = k0.subrange(0, e as int);
            let ghost hi = k0.subrange(e + 1, total).filter(recent_key(*now));
            proof {
                assert(cur.edges[e as int] == m0.edges[e as int]);
                assert(ck[e as int] == x);
                assert(k0.subrange(0, e + 1) =~= lo.push(x));
                assert(k0.subrange(e as int, total) =~= seq![x] + k0.subrange(e + 1, total));
                k0.subrange(e + 1, total).lemma_filter_prepend(x, recent_key(*now));
                vstd::seq_lib::to_multiset_build(lo, x);
                vstd::seq_lib::lemma_multiset_commutative(seq![x], hi);
                vstd::seq_lib::to_multiset_build(Seq::<(Seq<char>, Seq<char>, EdgeView)>::empty(), x);
                assert(seq![x] =~= Seq::<(Seq<char>, Seq<char>, EdgeView)>::empty().push(x));
                assert(Seq::<(Seq<char>, Seq<char>, EdgeView)>::empty().to_multiset() =~= vstd::multiset::Multiset::empty()) by {
                    vstd::seq_lib::to_multiset_len(Seq::<(Seq<char>, Seq<char>, EdgeView)>::empty());
                }
            }
            if stale {
                let _ = graph_remove_edge(&mut self.graph, e);
                proof {
                    let nw = self.model();
                    let last = cur.edges.len() - 1;
                    lemma_without_edge_wf(cur, e as nat);
                    assert(edge_keys(nw) =~= ck.update(e as int, ck.last()).drop_last());
                    lemma_swap_remove_multiset(ck, e as int);
                    assert(!recent_key(*now)(x));
                    assert(k0.subrange(e as int, total).filter(recent_key(*now)) =~= hi);
                    assert(edge_keys(nw).to_multiset() =~= lo.to_multiset().add(hi.to_multiset())) by {
                        broadcast use vstd::multiset::group_multiset_axioms;
                    }
                    assert forall|j: int| 0 <= j < nw.edges.len() implies (#[trigger] nw.edges[j]).source < nw.nodes.len()
                        && nw.edges[j].target < nw.nodes.len() by {
                        if j == e {
                            assert(nw.edges[j] == cur.edges[last]);
                        } else {
                            assert(nw.edges[j] == cur.edges[j]);
                        }
                    }
                    assert forall|k: int| 0 <= k < e implies #[trigger] nw.edges[k] == m0.edges[k] by {
                        assert(nw.edges[k] == cur.edges[k]);
                    }
                    assert forall|k: int| e <= k < nw.edges.len() implies !is_stale((#[trigger] nw.edges[k]).weight, *now) by {
                        if k == e {
                            assert(nw.edges[k] == cur.edges[last]);
                        } else {
                            assert(nw.edges[k] == cur.edges[k]);
                        }
                    }
                }
            } else {
                proof {
                    assert(recent_key(*now)(x));
                    assert(ck.to_multiset() =~= lo.to_multiset().add(k0.subrange(e as int, total).filter(
                        recent_key(*now),
                    ).to_multiset())) by {
                        broadcast use vstd::multiset::group_multiset_axioms;
                    }
                }
            }
        }
        proof {
            assert(k0.subrange(0, 0) =~= Seq::<(Seq<char>, Seq<char>, EdgeView)>::empty());
            assert(k0.subrange(0, total) =~= k0);
            vstd::seq_lib::to_multiset_len(Seq::<(Seq<char>, Seq<char>, EdgeView)>::empty());
            assert(Seq::<(Seq<char>, Seq<char>, EdgeView)>::empty().to_multiset() =~= vstd::multiset::Multiset::empty());
            assert(edge_keys(self.model()).to_multiset() =~= k0.filter(recent_key(*now)).to_multiset()) by {
                broadcast use vstd::multiset::group_multiset_axioms;
            }
        }
    }

    /// Removes every node that no edge starts or ends at, by decreasing
    /// index, keeping the index map in step: removing a node moves the last
    /// node into its place, and every node above the current index has
    /// already been kept.
    fn prune_orphaned_nodes(&mut self)
        requires
            old(self).wf(),
        ensures
            final(self).wf(),
            edge_keys(final(self).model()) == edge_keys(old(self).model()),
            final(self).model().edges.len() == old(self).model().edges.len(),
            forall|j: int|
                0 <= j < final(self).model().edges.len() ==> (#[trigger] final(self).model().edges[j]).weight == old(
                    self,
                ).model().edges[j].weight,
            forall|i: int|
                0 <= i < final(self).model().nodes.len() ==> old(self).model().nodes.contains(
                    #[trigger] final(self).model().nodes[i],
                ) && key_used(edge_keys(final(self).model()), final(self).model().nodes[i].key),
            forall|i: int|
                0 <= i < old(self).model().nodes.len() && key_used(
                    edge_keys(old(self).model()),
                    (#[trigger] old(self).model().nodes[i]).key,
                ) ==> final(self).model().nodes.contains(old(self).model().nodes[i]),
    {
        let ghost m0 = self.model();
        let ghost k0 = edge_keys(m0);
        let mut a: usize = graph_node_count(&self.graph);
        proof {
            assert forall|i: int| 0 <= i < m0.nodes.len() implies m0.nodes.contains(#[trigger] m0.nodes[i]) by {}
        }
        while a > 0
            invariant
                self.wf(),
                k0 == edge_keys(m0),
                edge_keys(self.model()) == k0,
                self.model().edges.len() == m0.edges.len(),
                forall|j: int| 0 <= j < self.model().edges.len() ==> (#[trigger] self.model().edges[j]).weight == m0.edges[j].weight,
                a <= self.model().nodes.len(),
                forall|k: int| 0 <= k < a ==> #[trigger] self.model().nodes[k] == m0.nodes[k],
                forall|k: int| a <= k < self.model().nodes.len() ==> key_used(k0, (#[trigger] self.model().nodes[k]).key),
                forall|i: int| 0 <= i < self.model().nodes.len() ==> m0.nodes.contains(#[trigger] self.model().nodes[i]),
                forall|i: int|
                    0 <= i < m0.nodes.len() && key_used(k0, (#[trigger] m0.nodes[i]).key) ==> self.model().nodes.contains(
                        m0.nodes[i],
                    ),
            decreases a,
        {
            a = a - 1;
            let ghost cur = self.model();
            let ghost map0 = self.index_map();
            let m = graph_edge_count(&self.graph);
            let mut j: usize = 0;
            let mut isolated = true;
            while j < m
                invariant
                    self.model() == cur,
                    m == cur.edges.len(),
                    j <= m,
                    isolated == (forall|k: int| 0 <= k < j ==> (#[trigger] cur.edges[k]).source != a && cur.edges[k].target != a),
                decreases m - j,
            {
                let (src, dst) = graph_edge_endpoints(&self.graph, j);
                if src == a || dst == a {
                    isolated = false;
                }
                j = j + 1;
            }
            if !isolated {
                proof {
                    let k = choose|k: int| 0 <= k < m && !((#[trigger] cur.edges[k]).source != a && cur.edges[k].target != a);
                    assert(edge_keys(cur)[k].0 == cur.nodes[cur.edges[k].source as int].key);
                    assert(edge_keys(cur)[k].1 == cur.nodes[cur.edges[k].target as int].key);
                    assert(key_used(k0, cur.nodes[a as int].key));
                }
            } else {
                let n = graph_node_count(&self.graph);
                let key_a = graph_node_weight(&self.graph, a).key.clone();
                let _ = graph_remove_node(&mut self.graph, a);
                proof {
                    assert(cur.isolated(a as nat));
                    lemma_drop_isolated(cur, map0, a as nat);
                }
                let pos = self.index_position(key_a.as_str());
                proof {
                    lemma_map_lookup(cur, map0, key_a@);
                    crate::text::lemma_first_where(map0, index_key(key_a@));
                }
                self.node_index_map.remove(pos);
                let ghost map1 = self.index_map();
                proof {
                    assert(map1 =~= map0.remove(pos as int));
                }
                if a + 1 < n {
                    let key_l = graph_node_weight(&self.graph, a).key.clone();
                    let pos2 = self.index_position(key_l.as_str());
                    proof {
                        lemma_map_after_remove(cur, map0, a as nat, pos as int);
                    }
                    self.node_index_map.set(pos2, (key_l, a));
                    proof {
                        assert(self.index_map() =~= map1.update(pos2 as int, (cur.nodes[n - 1].key, a)));
                        lemma_map_after_relocation(cur, map0, a as nat, pos as int, pos2 as int);
                    }
                } else {
                    proof {
                        lemma_map_after_remove(cur, map0, a as nat, pos as int);
                    }
                }
                proof {
                    let nw = self.model();
                    let last = cur.nodes.len() - 1;
                    assert(nw == cur.relocated(a as nat));
                    assert forall|k: int| 0 <= k < a implies #[trigger] nw.nodes[k] == m0.nodes[k] by {
                        assert(nw.nodes[k] == cur.nodes[k]);
                    }
                    assert forall|k: int| a <= k < nw.nodes.len() implies key_used(k0, (#[trigger] nw.nodes[k]).key) by {
                        if k == a {
                            assert(nw.nodes[k] == cur.nodes[last]);
                        } else {
                            assert(nw.nodes[k] == cur.nodes[k]);
                        }
                    }
                    assert forall|i: int| 0 <= i < nw.nodes.len() implies m0.nodes.contains(#[trigger] nw.nodes[i]) by {
                        if i == a {
                            assert(nw.nodes[i] == cur.nodes[last]);
                        } else {
                            assert(nw.nodes[i] == cur.nodes[i]);
                        }
                    }
                    assert forall|i: int|
                        0 <= i < m0.nodes.len() && key_used(k0, (#[trigger] m0.nodes[i]).key) implies nw.nodes.contains(
                        m0.nodes[i],
                    ) by {
                        let p = choose|p: int| 0 <= p < cur.nodes.len() && cur.nodes[p] == m0.nodes[i];
                        if p == a {
                            assert(cur.nodes[a as int].key == m0.nodes[i].key);
                        } else if p == last {
                            assert(nw.nodes[a as int] == cur.nodes[p]);
                        } else {
                            assert(nw.nodes[p] == cur.nodes[p]);
                        }
                    }
                }
            }
        }
    }

    /// The sequences of events, each leaving one node within `window_secs`
    /// seconds of the current time, whose types follow `pattern` (see
    /// `find_chain_at`).
    pub fn find_chain(&self, pattern: &[EventType], window_secs: i64) -> (r: Vec<Vec<&EventEdge>>)
        requires
            self.wf(),
        ensures
            exists|now: Timestamp|
                now.wf() && chain_views(r@) == #[trigger] all_chains(
                    self.model(),
                    now,
                    window_secs,
                    pattern@,
                    self.model().nodes.len(),
                ),
    {
        let now = utc_now();
        self.find_chain_at(pattern, window_secs, &now)
    }

    /// For each node in turn, the sequences of its outgoing events that
    /// happened within `window_secs` seconds before `now` and whose types
    /// follow `pattern`; an event may appear more than once in a sequence.
    pub fn find_chain_at(&self, pattern: &[EventType], window_secs: i64, now: &Timestamp) -> (r: Vec<Vec<&EventEdge>>)
        requires
            self.wf(),
            now.wf(),
        ensures
            chain_views(r@) == all_chains(self.model(), *now, window_secs, pattern@, self.model().nodes.len()),
    {
        let n = graph_node_count(&self.graph);
        let mut chains: Vec<Vec<&EventEdge>> = Vec::new();
        let mut a: usize = 0;
        assert(chain_views(chains@) =~= Seq::<Seq<EdgeView>>::empty());
        while a < n
            invariant
                self.wf(),
                now.wf(),
                n == self.model().nodes.len(),
                n <= u32::MAX,
                a <= n,
                chain_views(chains@) == all_chains(self.model(), *now, window_secs, pattern@, a as nat),
            decreases n - a,
        {
            let out = self.out_edges(a);
            let ghost ws = out@.map_values(|e: &EventEdge| e@);
            let mut recent: Vec<&EventEdge> = Vec::new();
            let mut k: usize = 0;
            assert(ws.subrange(0, 0) =~= Seq::<EdgeView>::empty());
            assert(recent@.map_values(|e: &EventEdge| e@) =~= Seq::<EdgeView>::empty());
            while k < out.len()
                invariant
                    self.wf(),
                    now.wf(),
                    ws == out@.map_values(|e: &EventEdge| e@),
                    ws == out_weights(self.model(), a as nat),
                    a < self.model().nodes.len(),
                    k <= out.len(),
                    recent@.map_values(|e: &EventEdge| e@) == keep_recent(ws.subrange(0, k as int), *now, window_secs),
                decreases out.len() - k,
            {
                let w = out[k];
                proof {
                    assert(ws[k as int] == w@);
                    let md = self.model();
                    let ids = md.outgoing[a as int];
                    assert(ws == ids.map_values(|i: nat| md.edges[i as int].weight));
                    assert(ws.len() == ids.len());
                    assert(md.wf());
                    assert(ids[k as int] == md.outgoing[a as int][k as int]);
                    assert(ids[k as int] < md.edges.len());
                    assert(ws[k as int] == md.edges[ids[k as int] as int].weight);
                    assert(ws.subrange(0, k + 1).drop_last() =~= ws.subrange(0, k as int));
                    assert(ws.subrange(0, k + 1).last() == w@);
                }
                let ghost before = recent@;
                if elapsed_secs(now, &w.timestamp) <= window_secs {
                    recent.push(w);
                    assert(recent@.map_values(|e: &EventEdge| e@) =~= before.map_values(|e: &EventEdge| e@).push(w@));
                }
                k = k + 1;
            }
            assert(ws.subrange(0, out.len() as int) =~= ws);
            let mut current: Vec<&EventEdge> = Vec::new();
            let ghost before = chain_views(chains@);
            self.find_chain_recursive(&recent, pattern, 0, &mut current, &mut chains);
            proof {
                let es = recent@.map_values(|e: &EventEdge| e@);
                assert(current@.map_values(|e: &EventEdge| e@) =~= Seq::<EdgeView>::empty());
                assert(pattern@.subrange(0, pattern@.len() as int) =~= pattern@);
                lemma_appended_empty(es, pattern@);
            }
            a = a + 1;
        }
        chains
    }

    /// Appends to `results` the chains that extend `current` by edges of
    /// `edges` following `pattern` from position `k` on; `current` ends as
    /// it began.
    fn find_chain_recursive<'a>(
        &self,
        edges: &Vec<&'a EventEdge>,
        pattern: &[EventType],
        k: usize,
        current: &mut Vec<&'a EventEdge>,
        results: &mut Vec<Vec<&'a EventEdge>>,
    )
        requires
            k <= pattern@.len(),
        ensures
            final(current)@ == old(current)@,
            chain_views(final(results)@) == chain_views(old(results)@) + appended(
                old(current)@.map_values(|e: &EventEdge| e@),
                edges@.map_values(|e: &EventEdge| e@),
                pattern@.subrange(k as int, pattern@.len() as int),
            ),
        decreases pattern@.len() - k,
    {
        let ghost es = edges@.map_values(|e: &EventEdge| e@);
        let ghost cur = current@.map_values(|e: &EventEdge| e@);
        let ghost pat = pattern@.subrange(k as int, pattern@.len() as int);
        if k == pattern.len() {
            if current.len() > 0 {
                let copy = copy_refs(current);
                let ghost before = results@;
                results.push(copy);
                assert(chain_views(results@) =~= chain_views(before).push(cur));
                assert(chain_views(results@) =~= chain_views(before) + seq![cur]);
            } else {
                assert(chain_views(results@) =~= chain_views(results@) + Seq::<Seq<EdgeView>>::empty());
            }
            return;
        }
        let target = pattern[k];
        let ghost start = chain_views(results@);
        let mut i: usize = 0;
        assert(es.subrange(0, es.len() as int) =~= es);
        assert(chain_views(results@) + prefixed(cur, chains_via(es, es, pat)) =~= start + prefixed(cur, chains_via(es, es, pat)));
        while i < edges.len()
            invariant
                k < pattern.len(),
                current@ == old(current)@,
                target == pattern@[k as int],
                pat == pattern@.subrange(k as int, pattern@.len() as int),
                es == edges@.map_values(|e: &EventEdge| e@),
                cur == current@.map_values(|e: &EventEdge| e@),
                i <= edges.len(),
                chain_views(results@) + prefixed(cur, chains_via(es, es.subrange(i as int, es.len() as int), pat))
                    == start + prefixed(cur, chains_via(es, es, pat)),
            decreases edges.len() - i,
        {
            let ghost rest = es.subrange(i as int, es.len() as int);
            proof {
                assert(rest.drop_first() =~= es.subrange(i + 1, es.len() as int));
                assert(rest[0] == edges@[i as int]@);
                assert(pat[0] == target);
            }
            let ghost before = chain_views(results@);
            let e = edges[i];
            if e.event_type == target {
                current.push(e);
                proof {
                    assert(current@.map_values(|x: &EventEdge| x@) =~= cur.push(e@));
                    assert(pattern@.subrange(k + 1, pattern@.len() as int) =~= pat.drop_first());
                }
                self.find_chain_recursive(edges, pattern, k + 1, current, results);
                current.pop();
                proof {
                    assert(current@ =~= old(current)@);
                    lemma_appended_step(cur, e@, es, pat);
                    lemma_prefixed_concat(
                        cur,
                        prefix_each(e@, chains_from(es, pat.drop_first())),
                        chains_via(es, rest.drop_first(), pat),
                    );
                }
            } else {
                proof {
                    assert(chains_via(es, rest, pat) =~= chains_via(es, rest.drop_first(), pat));
                }
            }
            i = i + 1;
        }
        assert(es.subrange(es.len() as int, es.len() as int) =~= Seq::<EdgeView>::empty());
        assert(chain_views(results@) + prefixed(cur, Seq::<Seq<EdgeView>>::empty()) =~= chain_views(results@));
    }

    /// The events leaving node `a`, in the order the graph walks them.
    fn out_edges(&self, a: usize) -> (r: Vec<&EventEdge>)
        requires
            self.wf(),
            a < u32::MAX,
        ensures
            r@.map_values(|e: &EventEdge| e@) == out_weights(self.model(), a as nat),
    {
        let out = graph_outgoing(&self.graph, a);
        let ghost ids = out@.map_values(|i: usize| i as nat);
        let mut r: Vec<&EventEdge> = Vec::new();
        let mut k: usize = 0;
        while k < out.len()
            invariant
                self.wf(),
                ids == out@.map_values(|i: usize| i as nat),
                a < self.model().nodes.len() ==> ids == self.model().outgoing[a as int],
                a >= self.model().nodes.len() ==> out@.len() == 0,
                k <= out.len(),
                r@.map_values(|e: &EventEdge| e@) == ids.subrange(0, k as int).map_values(
                    |i: nat| self.model().edges[i as int].weight,
                ),
            decreases out.len() - k,
        {
            assert(ids[k as int] == out@[k as int] as nat);
            assert(out@[k as int] < self.model().edges.len());
            let w = graph_edge_weight(&self.graph, out[k]);
            let ghost before = r@;
            r.push(w);
            proof {
                let g = |i: nat| self.model().edges[i as int].weight;
                assert(r@ == before.push(w));
                assert(r@.map_values(|e: &EventEdge| e@) =~= before.map_values(|e: &EventEdge| e@).push(w@));
                assert(ids.subrange(0, k + 1) =~= ids.subrange(0, k as int).push(ids[k as int]));
                assert(ids.subrange(0, k + 1).map_values(g) =~= ids.subrange(0, k as int).map_values(g).push(
                    g(ids[k as int]),
                ));
            }
            k = k + 1;
        }
        assert(ids.subrange(0, out.len() as int) =~= ids);
        proof {
            if a >= self.model().nodes.len() {
                assert(r@.map_values(|e: &EventEdge| e@) =~= Seq::<EdgeView>::empty());
            }
        }
        r
    }
}

/// An event is older than the graph keeps, as of `now`.
pub open spec fn is_stale(w: EdgeView, now: Timestamp) -> bool {
    seconds_between(now, w.timestamp) > GRAPH_TTL_SECS
}

/// The edges as (source key, target key, weight).
pub open spec fn edge_keys(m: GraphModel) -> Seq<(Seq<char>, Seq<char>, EdgeView)> {
    m.edges.map_values(|r: EdgeRec| (m.nodes[r.source as int].key, m.nodes[r.target as int].key, r.weight))
}

/// The predicate "this edge is not stale as of `now`", on edge keys.
pub open spec fn recent_key(now: Timestamp) -> spec_fn((Seq<char>, Seq<char>, EdgeView)) -> bool {
    |k: (Seq<char>, Seq<char>, EdgeView)| !is_stale(k.2, now)
}

/// Some edge starts or ends at the entity with key `k`.
pub open spec fn key_used(ks: Seq<(Seq<char>, Seq<char>, EdgeView)>, k: Seq<char>) -> bool {
    exists|j: int| 0 <= j < ks.len() && ((#[trigger] ks[j]).0 == k || ks[j].1 == k)
}

/// `m1` is `m0` pruned as of `now`: its edges, each with its endpoints'
/// keys, are exactly the edges of `m0` that are not stale (none is stale);
/// its nodes are exactly the nodes of `m0` that some remaining edge starts
/// or ends at.
pub open spec fn pruned_as(m0: GraphModel, m1: GraphModel, now: Timestamp) -> bool {
    &&& edge_keys(m1).to_multiset() == edge_keys(m0).filter(recent_key(now)).to_multiset()
    &&& forall|j: int| 0 <= j < m1.edges.len() ==> !is_stale((#[trigger] m1.edges[j]).weight, now)
    &&& forall|i: int|
        0 <= i < m1.nodes.len() ==> m0.nodes.contains(#[trigger] m1.nodes[i]) && key_used(edge_keys(m1), m1.nodes[i].key)
    &&& forall|i: int|
        0 <= i < m0.nodes.len() && key_used(edge_keys(m1), (#[trigger] m0.nodes[i]).key) ==> m1.nodes.contains(m0.nodes[i])
}

/// The edges of `ws` that happened at most `window` seconds before `now`, in order.
pub open spec fn keep_recent(ws: Seq<EdgeView>, now: Timestamp, window: i64) -> Seq<EdgeView>
    decreases ws.len(),
{
    if ws.len() == 0 {
        seq![]
    } else {
        let p = keep_recent(ws.drop_last(), now, window);
        if seconds_between(now, ws.last().timestamp) <= window {
            p.push(ws.last())
        } else {
            p
        }
    }
}

/// Each chain of `cs` with `e` put in front.
pub open spec fn prefix_each(e: EdgeView, cs: Seq<Seq<EdgeView>>) -> Seq<Seq<EdgeView>> {
    cs.map_values(|c: Seq<EdgeView>| seq![e] + c)
}

/// Each chain of `cs` with `cur` put in front.
pub open spec fn prefixed(cur: Seq<EdgeView>, cs: Seq<Seq<EdgeView>>) -> Seq<Seq<EdgeView>> {
    cs.map_values(|c: Seq<EdgeView>| cur + c)
}

/// Every sequence of edges of `es` (an edge may repeat) whose types are
/// those of `pat` in order; in the order that choosing the first edge,
/// then the second, and so on, from the front of `es` gives.
pub open spec fn chains_from(es: Seq<EdgeView>, pat: Seq<EventType>) -> Seq<Seq<EdgeView>>
    decreases pat.len(), es.len() + 1,
{
    if pat.len() == 0 {
        seq![seq![]]
    } else {
        chains_via(es, es, pat)
    }
}

/// The chains of `chains_from(all, pat)` whose first edge is taken from `rest`.
pub open spec fn chains_via(all: Seq<EdgeView>, rest: Seq<EdgeView>, pat: Seq<EventType>) -> Seq<Seq<EdgeView>>
    decreases pat.len(), rest.len(),
{
    if rest.len() == 0 || pat.len() == 0 {
        seq![]
    } else {
        let head = if rest[0].event_type == pat[0] {
            prefix_each(rest[0], chains_from(all, pat.drop_first()))
        } else {
            seq![]
        };
        head + chains_via(all, rest.drop_first(), pat)
    }
}

/// The chains that a search from the partial chain `cur` adds, with `pat`
/// left to match: `cur` itself when nothing is left (if it is not empty),
/// else `cur` extended by each chain for `pat`.
pub open spec fn appended(cur: Seq<EdgeView>, es: Seq<EdgeView>, pat: Seq<EventType>) -> Seq<Seq<EdgeView>> {
    if pat.len() == 0 {
        if cur.len() > 0 {
            seq![cur]
        } else {
            seq![]
        }
    } else {
        prefixed(cur, chains_via(es, es, pat))
    }
}

/// The chains found among the events of one node: none for an empty pattern.
pub open spec fn node_chains(es: Seq<EdgeView>, pat: Seq<EventType>) -> Seq<Seq<EdgeView>> {
    if pat.len() == 0 {
        seq![]
    } else {
        chains_from(es, pat)
    }
}

/// The chains over the recent outgoing events of the nodes below `k`, node by node.
pub open spec fn all_chains(m: GraphModel, now: Timestamp, window: i64, pat: Seq<EventType>, k: nat) -> Seq<
    Seq<EdgeView>,
>
    decreases k,
{
    if k == 0 {
        seq![]
    } else {
        all_chains(m, now, window, pat, (k - 1) as nat) + node_chains(
            keep_recent(out_weights(m, (k - 1) as nat), now, window),
            pat,
        )
    }
}

/// The views of a list of chains.
pub open spec fn chain_views(r: Seq<Vec<&EventEdge>>) -> Seq<Seq<EdgeView>> {
    r.map_values(|v: Vec<&EventEdge>| v@.map_values(|e: &EventEdge| e@))
}

/// The weights of the edges leaving node `a`, in list order; none when `a`
/// is not a node.
pub open spec fn out_weights(m: GraphModel, a: nat) -> Seq<EdgeView> {
    if a < m.nodes.len() {
        m.outgoing[a as int].map_values(|i: nat| m.edges[i as int].weight)
    } else {
        seq![]
    }
}

/// The weights of the edges leaving the node recorded for `key`.
pub open spec fn edges_of_key(m: GraphModel, map: IndexEntries, key: Seq<char>) -> Seq<EdgeView> {
    match index_of(map, key) {
        Some(i) => out_weights(m, i as nat),
        None => seq![],
    }
}

proof fn lemma_empty_views()
    ensures
        Seq::<&EventEdge>::empty().map_values(|e: &EventEdge| e@) == Seq::<EdgeView>::empty(),
{
    assert(Seq::<&EventEdge>::empty().map_values(|e: &EventEdge| e@) =~= Seq::<EdgeView>::empty());
}

proof fn lemma_with_node_wf(m: GraphModel, w: NodeView)
    requires
        m.wf(),
        weights_wf(m),
    ensures
        m.with_node(w).wf(),
        weights_wf(m.with_node(w)),
{
    let m2 = m.with_node(w);
    assert forall|a: int, k: int| 0 <= a < m2.outgoing.len() && 0 <= k < m2.outgoing[a].len() implies #[trigger] m2.outgoing[a][k]
        < m2.edges.len() by {
        if a < m.outgoing.len() {
            assert(m2.outgoing[a] == m.outgoing[a]);
        }
    }
}

proof fn lemma_with_edge_wf(m: GraphModel, a: nat, b: nat, w: EdgeView)
    requires
        m.wf(),
        weights_wf(m),
        a < m.nodes.len(),
        b < m.nodes.len(),
        w.timestamp.wf(),
    ensures
        m.with_edge(a, b, w).wf(),
        weights_wf(m.with_edge(a, b, w)),
{
    let m2 = m.with_edge(a, b, w);
    assert forall|x: int, k: int| 0 <= x < m2.outgoing.len() && 0 <= k < m2.outgoing[x].len() implies #[trigger] m2.outgoing[x][k]
        < m2.edges.len() by {
        if x == a {
            if k > 0 {
                assert(m2.outgoing[x][k] == m.outgoing[x][k - 1]);
            }
        } else {
            assert(m2.outgoing[x] == m.outgoing[x]);
        }
    }
    assert forall|i: int| 0 <= i < m2.edges.len() implies (#[trigger] m2.edges[i]).weight.timestamp.wf() by {
        if i < m.edges.len() {
            assert(m2.edges[i] == m.edges[i]);
        }
    }
}

proof fn lemma_swap_remove_multiset<A>(t: Seq<A>, e: int)
    requires
        0 <= e < t.len(),
    ensures
        t.update(e, t.last()).drop_last().to_multiset() == t.to_multiset().remove(t[e]),
{
    broadcast use vstd::multiset::group_multiset_axioms;
    let u = t.update(e, t.last());
    assert(u.drop_last().push(u.last()) =~= u);
    vstd::seq_lib::to_multiset_build(u.drop_last(), u.last());
    vstd::seq_lib::to_multiset_update(t, e, t.last());
    vstd::seq_lib::to_multiset_contains(t, t[e]);
    assert(t.contains(t[e]));
    assert(u.last() == t.last());
    let x = u.drop_last().to_multiset();
    let z = t.to_multiset().remove(t[e]);
    assert forall|y: A| x.count(y) == z.count(y) by {
        assert(x.insert(t.last()).count(y) == t.to_multiset().insert(t.last()).remove(t[e]).count(y));
    }
    assert(x =~= z);
}

/// Distinct keys: the index recorded for the key of an entry is that entry's.
proof fn lemma_index_of_entry(map: IndexEntries, j: int)
    requires
        forall|j1: int, j2: int| 0 <= j1 < j2 < map.len() ==> (#[trigger] map[j1]).0 != (#[trigger] map[j2]).0,
        0 <= j < map.len(),
    ensures
        index_of(map, map[j].0) == Some(map[j].1),
{
    let k = map[j].0;
    assert forall|i: int| 0 <= i < j implies !index_key(k)(#[trigger] map[i]) by {
        assert(map[i].0 != map[j].0);
    }
    crate::text::lemma_first_where_unique(map, index_key(k), j);
}

/// A key the map records names a node with that key.
proof fn lemma_map_lookup(m: GraphModel, map: IndexEntries, k: Seq<char>)
    requires
        map_consistent(m, map),
    ensures
        index_of(map, k) matches Some(i) ==> (i as int) < m.nodes.len() && m.nodes[i as int].key == k && ({
            let f = crate::text::first_where(map, index_key(k));
            0 <= f < map.len() && map[f] == (k, i)
        }),
{
    crate::text::lemma_first_where(map, index_key(k));
}

/// Nodes have distinct keys.
proof fn lemma_node_keys_distinct(m: GraphModel, map: IndexEntries, i1: int, i2: int)
    requires
        map_consistent(m, map),
        m.nodes.len() <= u32::MAX,
        0 <= i1 < m.nodes.len(),
        0 <= i2 < m.nodes.len(),
        m.nodes[i1].key == m.nodes[i2].key,
    ensures
        i1 == i2,
{
    assert(index_of(map, m.nodes[i1].key) == Some(i1 as usize));
    assert(index_of(map, m.nodes[i2].key) == Some(i2 as usize));
}

/// Removing a node without edges keeps the edges, with their endpoints'
/// keys, and the graph's consistency; the removed node's key is on no edge.
proof fn lemma_drop_isolated(cur: GraphModel, map: IndexEntries, a: nat)
    requires
        cur.wf(),
        weights_wf(cur),
        endpoints_wf(cur),
        map_consistent(cur, map),
        cur.nodes.len() <= u32::MAX,
        a < cur.nodes.len(),
        cur.isolated(a),
    ensures
        ({
            let nw = cur.relocated(a);
            &&& nw.wf()
            &&& weights_wf(nw)
            &&& endpoints_wf(nw)
            &&& edge_keys(nw) == edge_keys(cur)
            &&& nw.edges.len() == cur.edges.len()
            &&& forall|j: int| 0 <= j < nw.edges.len() ==> (#[trigger] nw.edges[j]).weight == cur.edges[j].weight
            &&& !key_used(edge_keys(cur), cur.nodes[a as int].key)
        }),
{
    let nw = cur.relocated(a);
    let last = cur.nodes.len() - 1;
    assert forall|x: int, k: int| 0 <= x < nw.outgoing.len() && 0 <= k < nw.outgoing[x].len() implies #[trigger] nw.outgoing[x][k]
        < nw.edges.len() by {
        if x == a {
            assert(nw.outgoing[x] == cur.outgoing[last]);
        } else {
            assert(nw.outgoing[x] == cur.outgoing[x]);
        }
    }
    assert forall|j: int| 0 <= j < nw.edges.len() implies (#[trigger] nw.edges[j]).weight.timestamp.wf() by {
        assert(nw.edges[j].weight == cur.edges[j].weight);
    }
    assert forall|j: int| 0 <= j < nw.edges.len() implies (#[trigger] nw.edges[j]).source < nw.nodes.len()
        && nw.edges[j].target < nw.nodes.len() by {
        assert(cur.edges[j].source != a && cur.edges[j].target != a);
    }
    assert forall|j: int| 0 <= j < nw.edges.len() implies #[trigger] edge_keys(nw)[j] == edge_keys(cur)[j] by {
        let r = cur.edges[j];
        assert(r.source != a && r.target != a);
        if r.source != last {
            assert(nw.nodes[r.source as int] == cur.nodes[r.source as int]);
        }
        if r.target != last {
            assert(nw.nodes[r.target as int] == cur.nodes[r.target as int]);
        }
    }
    assert(edge_keys(nw) =~= edge_keys(cur));
    let ka = cur.nodes[a as int].key;
    if key_used(edge_keys(cur), ka) {
        let j = choose|j: int| 0 <= j < edge_keys(cur).len() && ((#[trigger] edge_keys(cur)[j]).0 == ka || edge_keys(cur)[j].1 == ka);
        let r = cur.edges[j];
        if edge_keys(cur)[j].0 == ka {
            lemma_node_keys_distinct(cur, map, r.source as int, a as int);
        } else {
            lemma_node_keys_distinct(cur, map, r.target as int, a as int);
        }
    }
}

/// The index map after forgetting the key of removed node `a`: consistent
/// when `a` was the last node; otherwise the last node's key is still
/// recorded, with the last index.
proof fn lemma_map_after_remove(cur: GraphModel, map: IndexEntries, a: nat, pos: int)
    requires
        map_consistent(cur, map),
        cur.nodes.len() <= u32::MAX,
        a < cur.nodes.len(),
        0 <= pos < map.len(),
        map[pos] == (cur.nodes[a as int].key, a as usize),
    ensures
        a == cur.nodes.len() - 1 ==> map_consistent(cur.relocated(a), map.remove(pos)),
        a < cur.nodes.len() - 1 ==> ({
            let map1 = map.remove(pos);
            let kl = cur.nodes[cur.nodes.len() - 1].key;
            let f = crate::text::first_where(map1, index_key(kl));
            0 <= f < map1.len() && map1[f] == (kl, (cur.nodes.len() - 1) as usize)
        }),
{
    let map1 = map.remove(pos);
    let last = cur.nodes.len() - 1;
    let nw = cur.relocated(a);
    let ka = cur.nodes[a as int].key;
    assert forall|j1: int, j2: int| 0 <= j1 < j2 < map1.len() implies (#[trigger] map1[j1]).0 != (#[trigger] map1[j2]).0 by {
        let o1 = if j1 < pos { j1 } else { j1 + 1 };
        let o2 = if j2 < pos { j2 } else { j2 + 1 };
        assert(map1[j1] == map[o1] && map1[j2] == map[o2]);
    }
    // every entry left names a node other than `a`
    assert forall|j: int| 0 <= j < map1.len() implies (#[trigger] map1[j]).0 != ka && map1[j].1 != a by {
        let o = if j < pos { j } else { j + 1 };
        assert(map1[j] == map[o]);
        assert(map[o].0 != map[pos].0);
    }
    if a == last {
        assert forall|j: int| 0 <= j < map1.len() implies (#[trigger] map1[j]).1 < nw.nodes.len()
            && nw.nodes[map1[j].1 as int].key == map1[j].0 by {
            let o = if j < pos { j } else { j + 1 };
            assert(map1[j] == map[o]);
            assert(nw.nodes[map[o].1 as int] == cur.nodes[map[o].1 as int]);
        }
        assert forall|i: int| 0 <= i < nw.nodes.len() implies index_of(map1, (#[trigger] nw.nodes[i]).key) == Some(
            i as usize,
        ) by {
            assert(nw.nodes[i] == cur.nodes[i]);
            let k = cur.nodes[i].key;
            lemma_map_lookup(cur, map, k);
            let f = crate::text::first_where(map, index_key(k));
            if f == pos {
                lemma_node_keys_distinct(cur, map, i, a as int);
            }
            let g = if f < pos { f } else { f - 1 };
            assert(map1[g] == map[f]);
            lemma_index_of_entry(map1, g);
        }
    } else {
        let kl = cur.nodes[last].key;
        lemma_map_lookup(cur, map, kl);
        let f = crate::text::first_where(map, index_key(kl));
        if f == pos {
            lemma_node_keys_distinct(cur, map, last, a as int);
        }
        let g = if f < pos { f } else { f - 1 };
        assert(map1[g] == map[f]);
        lemma_index_of_entry(map1, g);
        crate::text::lemma_first_where(map1, index_key(kl));
    }
}

/// The index map after forgetting the key of removed node `a` and moving
/// the last node's entry to `a` agrees with the graph after the removal.
proof fn lemma_map_after_relocation(cur: GraphModel, map: IndexEntries, a: nat, pos: int, pos2: int)
    requires
        map_consistent(cur, map),
        cur.nodes.len() <= u32::MAX,
        a < cur.nodes.len() - 1,
        0 <= pos < map.len(),
        map[pos] == (cur.nodes[a as int].key, a as usize),
        0 <= pos2 < map.len() - 1,
        map.remove(pos)[pos2] == (cur.nodes[cur.nodes.len() - 1].key, (cur.nodes.len() - 1) as usize),
    ensures
        map_consistent(
            cur.relocated(a),
            map.remove(pos).update(pos2, (cur.nodes[cur.nodes.len() - 1].key, a as usize)),
        ),
{
    let map1 = map.remove(pos);
    let last = cur.nodes.len() - 1;
    let kl = cur.nodes[last].key;
    let ka = cur.nodes[a as int].key;
    let map2 = map1.update(pos2, (kl, a as usize));
    let nw = cur.relocated(a);
    assert forall|j1: int, j2: int| 0 <= j1 < j2 < map1.len() implies (#[trigger] map1[j1]).0 != (#[trigger] map1[j2]).0 by {
        let o1 = if j1 < pos { j1 } else { j1 + 1 };
        let o2 = if j2 < pos { j2 } else { j2 + 1 };
        assert(map1[j1] == map[o1] && map1[j2] == map[o2]);
    }
    assert forall|j1: int, j2: int| 0 <= j1 < j2 < map2.len() implies (#[trigger] map2[j1]).0 != (#[trigger] map2[j2]).0 by {
        assert(map2[j1].0 == map1[j1].0 && map2[j2].0 == map1[j2].0);
    }
    assert forall|j: int| 0 <= j < map2.len() implies (#[trigger] map2[j]).1 < nw.nodes.len()
        && nw.nodes[map2[j].1 as int].key == map2[j].0 by {
        if j != pos2 {
            let o = if j < pos { j } else { j + 1 };
            assert(map2[j] == map1[j] && map1[j] == map[o]);
            assert(map[o].0 != map[pos].0);
            assert(map1[j].0 != map1[pos2].0);
            let v = map[o].1 as int;
            if v == a as int {
                assert(cur.nodes[v].key == ka);
            }
            if v == last {
                assert(cur.nodes[v].key == kl);
            }
            assert(nw.nodes[v] == cur.nodes[v]);
        }
    }
    assert forall|i: int| 0 <= i < nw.nodes.len() implies index_of(map2, (#[trigger] nw.nodes[i]).key) == Some(
        i as usize,
    ) by {
        if i == a {
            assert(map2[pos2] == (kl, a as usize));
            lemma_index_of_entry(map2, pos2);
        } else {
            assert(nw.nodes[i] == cur.nodes[i]);
            let k = cur.nodes[i].key;
            lemma_map_lookup(cur, map, k);
            let f = crate::text::first_where(map, index_key(k));
            if f == pos {
                lemma_node_keys_distinct(cur, map, i, a as int);
            }
            let g = if f < pos { f } else { f - 1 };
            assert(map1[g] == map[f]);
            if g == pos2 {
                lemma_node_keys_distinct(cur, map, i, last);
            }
            assert(map2[g] == map1[g]);
            lemma_index_of_entry(map2, g);
        }
    }
}

proof fn lemma_index_set_of(map: IndexEntries, k: Seq<char>, v: usize, k2: Seq<char>)
    ensures
        index_of(index_set(map, k, v), k2) == if k2 == k {
            Some(v)
        } else {
            index_of(map, k2)
        },
{
    crate::text::lemma_first_where(map, index_key(k));
    crate::text::lemma_first_where(map, index_key(k2));
    let i = crate::text::first_where(map, index_key(k));
    let i2 = crate::text::first_where(map, index_key(k2));
    let t = index_set(map, k, v);
    if k2 == k {
        assert forall|j: int| 0 <= j < i implies !index_key(k2)(#[trigger] t[j]) by {
            assert(t[j] == map[j]);
        }
        crate::text::lemma_first_where_unique(t, index_key(k2), i);
    } else {
        assert forall|j: int| 0 <= j < i2 implies !index_key(k2)(#[trigger] t[j]) by {
            if j == i && i < map.len() {
                assert(t[j].0 == k);
            } else {
                assert(t[j] == map[j]);
            }
        }
        if i2 < map.len() {
            if i2 == i {
                assert(map[i2].0 == k2);
            }
            assert(t[i2] == map[i2]);
            crate::text::lemma_first_where_unique(t, index_key(k2), i2);
        } else {
            if i == map.len() {
                assert(t[map.len() as int].0 == k);
            }
            crate::text::lemma_first_where_unique(t, index_key(k2), t.len() as int);
        }
    }
}


/// The lists of a graph after removing an edge only hold indices they held,
/// other than the removed one.
proof fn lemma_without_elems(l: Seq<nat>, e: nat)
    ensures
        forall|k: int| 0 <= k < without(l, e).len() ==> #[trigger] without(l, e)[k] != e && l.contains(
            without(l, e)[k],
        ),
    decreases l.len(),
{
    if l.len() > 0 {
        lemma_without_elems(l.drop_first(), e);
        let w = without(l, e);
        let w1 = without(l.drop_first(), e);
        assert forall|k: int| 0 <= k < w.len() implies #[trigger] w[k] != e && l.contains(w[k]) by {
            if l[0] == e {
                assert(w[k] == w1[k]);
                let j = choose|j: int| 0 <= j < l.drop_first().len() && l.drop_first()[j] == w1[k];
                assert(l[j + 1] == w1[k]);
            } else if k == 0 {
                assert(w[0] == l[0]);
                assert(l[0] == l[0]);
            } else {
                assert(w[k] == w1[k - 1]);
                let j = choose|j: int| 0 <= j < l.drop_first().len() && l.drop_first()[j] == w1[k - 1];
                assert(l[j + 1] == w1[k - 1]);
            }
        }
    }
}

proof fn lemma_without_edge_wf(m: GraphModel, e: nat)
    requires
        m.wf(),
        weights_wf(m),
        e < m.edges.len(),
    ensures
        m.without_edge(e).wf(),
        weights_wf(m.without_edge(e)),
{
    let m2 = m.without_edge(e);
    let last = (m.edges.len() - 1) as nat;
    assert forall|a: int, k: int| 0 <= a < m2.outgoing.len() && 0 <= k < m2.outgoing[a].len() implies #[trigger] m2.outgoing[a][k]
        < m2.edges.len() by {
        let l = m.outgoing[a];
        lemma_without_elems(l, e);
        let w = without(l, e);
        assert(m2.outgoing[a] == rename(w, last, e));
        let x = w[k];
        let j = choose|j: int| 0 <= j < l.len() && l[j] == x;
        assert(l[j] < m.edges.len());
    }
    assert forall|i: int| 0 <= i < m2.edges.len() implies (#[trigger] m2.edges[i]).weight.timestamp.wf() by {
        if i == e {
            assert(m2.edges[i] == m.edges[last as int]);
        } else {
            assert(m2.edges[i] == m.edges[i]);
        }
    }
}


/// A copy of a list of references.
fn copy_refs<'a>(v: &Vec<&'a EventEdge>) -> (r: Vec<&'a EventEdge>)
    ensures
        r@ == v@,
{
    let mut r: Vec<&'a EventEdge> = Vec::new();
    let mut i: usize = 0;
    while i < v.len()
        invariant
            i <= v.len(),
            r@ == v@.subrange(0, i as int),
        decreases v.len() - i,
    {
        r.push(v[i]);
        i = i + 1;
        assert(r@ =~= v@.subrange(0, i as int));
    }
    assert(r@ =~= v@);
    r
}

proof fn lemma_prefixed_concat(cur: Seq<EdgeView>, a: Seq<Seq<EdgeView>>, b: Seq<Seq<EdgeView>>)
    ensures
        prefixed(cur, a + b) == prefixed(cur, a) + prefixed(cur, b),
{
    assert(prefixed(cur, a + b) =~= prefixed(cur, a) + prefixed(cur, b));
}

/// Extending `cur` by `e` and searching the rest of the pattern adds the
/// chains that start with `e`, each after `cur`.
proof fn lemma_appended_step(cur: Seq<EdgeView>, e: EdgeView, es: Seq<EdgeView>, pat: Seq<EventType>)
    requires
        pat.len() > 0,
    ensures
        appended(cur.push(e), es, pat.drop_first()) == prefixed(cur, prefix_each(e, chains_from(es, pat.drop_first()))),
{
    let q = pat.drop_first();
    if q.len() == 0 {
        assert(chains_from(es, q) == seq![Seq::<EdgeView>::empty()]);
        assert(prefix_each(e, chains_from(es, q)) =~= seq![seq![e]]);
        assert(cur + seq![e] =~= cur.push(e));
        assert(prefixed(cur, seq![seq![e]]) =~= seq![cur.push(e)]);
    } else {
        let x = chains_from(es, q);
        assert(x == chains_via(es, es, q));
        assert forall|i: int| 0 <= i < x.len() implies cur.push(e) + x[i] == cur + (seq![e] + x[i]) by {
            assert(cur.push(e) + x[i] =~= cur + (seq![e] + x[i]));
        }
        assert(prefixed(cur.push(e), x) =~= prefixed(cur, prefix_each(e, x)));
    }
}

/// Searching from an empty partial chain adds exactly the node's chains.
proof fn lemma_appended_empty(es: Seq<EdgeView>, pat: Seq<EventType>)
    ensures
        appended(Seq::<EdgeView>::empty(), es, pat) == node_chains(es, pat),
{
    if pat.len() > 0 {
        let x = chains_via(es, es, pat);
        assert forall|i: int| 0 <= i < x.len() implies Seq::<EdgeView>::empty() + x[i] == x[i] by {
            assert(Seq::<EdgeView>::empty() + x[i] =~= x[i]);
        }
        assert(prefixed(Seq::<EdgeView>::empty(), x) =~= x);
    }
}

/// Finding or adding the node of a key keeps the index map in agreement
/// with the graph, keeps the existing nodes, and adds a node only for a
/// key that has none.
proof fn lemma_node_for(m: GraphModel, map: IndexEntries, key: Seq<char>, kind: EntityKind)
    requires
        map_consistent(m, map),
        m.nodes.len() < u32::MAX,
    ensures
        ({
            let (m1, map1, r) = node_for(m, map, key, kind);
            &&& map_consistent(m1, map1)
            &&& r < m1.nodes.len()
            &&& m1.nodes[r as int].key == key
            &&& m1.nodes.len() == m.nodes.len() + (if index_of(map, key) is None { 1int } else { 0int })
            &&& forall|i: int| 0 <= i < m.nodes.len() ==> #[trigger] m1.nodes[i] == m.nodes[i]
            &&& m1.edges == m.edges
        }),
{
    crate::text::lemma_first_where(map, index_key(key));
    lemma_map_lookup(m, map, key);
    if index_of(map, key) is None {
        let n = m.nodes.len();
        let m1 = m.with_node(NodeView { key: key, kind: kind });
        let map1 = index_set(map, key, n as usize);
        assert(map1 =~= map.push((key, n as usize)));
        assert forall|j1: int, j2: int| 0 <= j1 < j2 < map1.len() implies (#[trigger] map1[j1]).0 != (
        #[trigger] map1[j2]).0 by {
            if j2 == map.len() {
                assert(!index_key(key)(map[j1]));
            } else {
                assert(map1[j1] == map[j1] && map1[j2] == map[j2]);
            }
        }
        assert forall|i: int| 0 <= i < m1.nodes.len() implies index_of(map1, (#[trigger] m1.nodes[i]).key) == Some(
            i as usize,
        ) by {
            lemma_index_set_of(map, key, n as usize, m1.nodes[i].key);
            if i < n {
                assert(m1.nodes[i] == m.nodes[i]);
                let k = m.nodes[i].key;
                assert(index_of(map, k) == Some(i as usize));
                crate::text::lemma_first_where(map, index_key(k));
                let f = crate::text::first_where(map, index_key(k));
                if k == key {
                    assert(!index_key(key)(map[f]));
                }
            }
        }
        assert forall|j: int| 0 <= j < map1.len() implies (#[trigger] map1[j]).1 < m1.nodes.len()
            && m1.nodes[map1[j].1 as int].key == map1[j].0 by {
            if j < map.len() {
                assert(map1[j] == map[j]);
                assert(m1.nodes[map[j].1 as int] == m.nodes[map[j].1 as int]);
            }
        }
    }
}

/// Recording an event adds exactly one edge, from the source entity's
/// node to the destination entity's node, and puts it first among the
/// source's events; a node is added only for an entity key that has none
/// yet (so an entity seen before keeps its node), and afterwards both keys
/// have one. The old nodes keep their indices, a new node carries the
/// source's or the destination's key, and the index map still agrees with
/// the nodes (one node per key).
pub proof fn law_insert_event(
    m: GraphModel,
    map: IndexEntries,
    event: CanonicalEvent,
    score_bits: u32,
    sigma_rule_id: Option<Seq<char>>,
)
    requires
        m.wf(),
        map_consistent(m, map),
        m.nodes.len() + 2 < u32::MAX,
    ensures
        ({
            let src = event.src_entity.key@;
            let dst = event.dst_entity.key@;
            let w = edge_of(event, score_bits, sigma_rule_id);
            let (m1, map1, s) = node_for(m, map, src, event.src_entity.kind);
            let (m2, map2, d) = node_for(m1, map1, dst, event.dst_entity.kind);
            let m3 = m2.with_edge(s, d, w);
            &&& m3.edges == m.edges.push(EdgeRec { source: s, target: d, weight: w })
            &&& m3.nodes.len() == m.nodes.len() + (if index_of(map, src) is None { 1int } else { 0int }) + (
            if index_of(map, dst) is None && dst != src {
                1int
            } else {
                0int
            })
            &&& index_of(map2, src) == Some(s as usize)
            &&& index_of(map2, dst) == Some(d as usize)
            &&& edges_of_key(m3, map2, src) == seq![w] + edges_of_key(m, map, src)
            &&& map_consistent(m3, map2)
            &&& m3.nodes[s as int].key == src
            &&& m3.nodes[d as int].key == dst
            &&& forall|i: int| 0 <= i < m.nodes.len() ==> #[trigger] m3.nodes[i] == m.nodes[i]
            &&& forall|i: int| m.nodes.len() <= i < m3.nodes.len() ==> (#[trigger] m3.nodes[i]).key == src || m3.nodes[i].key == dst
        }),
{
    lemma_node_for(m, map, event.src_entity.key@, event.src_entity.kind);
    let (m1x, map1x, sx) = node_for(m, map, event.src_entity.key@, event.src_entity.kind);
    lemma_node_for(m1x, map1x, event.dst_entity.key@, event.dst_entity.kind);
    let src = event.src_entity.key@;
    let dst = event.dst_entity.key@;
    let w = edge_of(event, score_bits, sigma_rule_id);
    let (m1, map1, s) = node_for(m, map, src, event.src_entity.kind);
    let (m2, map2, d) = node_for(m1, map1, dst, event.dst_entity.kind);
    let m3 = m2.with_edge(s, d, w);
    lemma_index_set_of(map, src, m.nodes.len() as usize, dst);
    lemma_index_set_of(map, src, m.nodes.len() as usize, src);
    lemma_index_set_of(map1, dst, m1.nodes.len() as usize, src);
    lemma_index_set_of(map1, dst, m1.nodes.len() as usize, dst);
    assert(s < m2.nodes.len());
    assert(m2.outgoing.len() == m2.nodes.len());
    let old_out = edges_of_key(m, map, src);
    let f = |i: nat| m3.edges[i as int].weight;
    let new_list = m3.outgoing[s as int];
    assert(new_list == seq![m.edges.len()] + m2.outgoing[s as int]);
    assert(m2.edges == m.edges);
    match index_of(map, src) {
        Some(i) => {
            assert(m2.outgoing[s as int] == m.outgoing[s as int]);
            assert forall|k: int| 0 <= k < m.outgoing[s as int].len() implies #[trigger] m.outgoing[s as int][k]
                < m.edges.len() by {}
            assert(new_list.map_values(f) =~= seq![w] + old_out);
            assert(edges_of_key(m3, map2, src) == out_weights(m3, s));
        },
        None => {
            assert(m2.outgoing[s as int] == Seq::<nat>::empty());
            assert(old_out == Seq::<EdgeView>::empty());
            assert(new_list.map_values(f) =~= seq![w] + old_out);
            assert(edges_of_key(m3, map2, src) == out_weights(m3, s));
        },
    }
}

/// A chain follows a pattern: one event per step of the pattern, each of
/// the step's type and taken from `es`.
pub open spec fn follows(c: Seq<EdgeView>, pat: Seq<EventType>, es: Seq<EdgeView>) -> bool {
    &&& c.len() == pat.len()
    &&& forall|j: int| 0 <= j < c.len() ==> (#[trigger] c[j]).event_type == pat[j] && es.contains(c[j])
}

proof fn lemma_chains_via(all: Seq<EdgeView>, rest: Seq<EdgeView>, pat: Seq<EventType>)
    requires
        forall|j: int| 0 <= j < rest.len() ==> all.contains(#[trigger] rest[j]),
    ensures
        forall|i: int| 0 <= i < chains_via(all, rest, pat).len() ==> follows(#[trigger] chains_via(all, rest, pat)[i], pat, all),
        pat.len() == 0 ==> chains_from(all, pat) == seq![Seq::<EdgeView>::empty()],
        pat.len() > 0 ==> chains_from(all, pat) == chains_via(all, all, pat),
    decreases pat.len(), rest.len(),
{
    if rest.len() > 0 && pat.len() > 0 {
        let tail = pat.drop_first();
        let sub = chains_from(all, tail);
        assert(forall|j: int| 0 <= j < all.len() ==> all.contains(#[trigger] all[j]));
        if tail.len() > 0 {
            lemma_chains_via(all, all, tail);
        } else {
            assert(sub == seq![Seq::<EdgeView>::empty()]);
        }
        assert forall|i: int| 0 <= i < sub.len() implies follows(#[trigger] sub[i], tail, all) by {
            if tail.len() == 0 {
                assert(sub[i] == Seq::<EdgeView>::empty());
            }
        }
        assert(forall|j: int| 0 <= j < rest.drop_first().len() ==> rest.drop_first()[j] == rest[j + 1]);
        lemma_chains_via(all, rest.drop_first(), pat);
        let head = if rest[0].event_type == pat[0] {
            prefix_each(rest[0], sub)
        } else {
            seq![]
        };
        let later = chains_via(all, rest.drop_first(), pat);
        let r = chains_via(all, rest, pat);
        assert(r == head + later);
        assert forall|i: int| 0 <= i < r.len() implies follows(#[trigger] r[i], pat, all) by {
            if i < head.len() {
                let c = r[i];
                assert(c == seq![rest[0]] + sub[i]);
                assert(follows(sub[i], tail, all));
                assert forall|j: int| 0 <= j < c.len() implies (#[trigger] c[j]).event_type == pat[j] && all.contains(c[j]) by {
                    if j > 0 {
                        assert(c[j] == sub[i][j - 1]);
                    }
                }
            } else {
                assert(r[i] == later[i - head.len()]);
            }
        }
    }
}

proof fn lemma_keep_recent(ws: Seq<EdgeView>, now: Timestamp, window: i64)
    ensures
        forall|j: int| 0 <= j < keep_recent(ws, now, window).len() ==> ws.contains(#[trigger] keep_recent(ws, now, window)[j])
            && seconds_between(now, keep_recent(ws, now, window)[j].timestamp) <= window,
    decreases ws.len(),
{
    if ws.len() > 0 {
        let d = ws.drop_last();
        lemma_keep_recent(d, now, window);
        let r = keep_recent(ws, now, window);
        let p = keep_recent(d, now, window);
        assert forall|j: int| 0 <= j < r.len() implies ws.contains(#[trigger] r[j]) && seconds_between(now, r[j].timestamp) <= window by {
            if j < p.len() {
                assert(r[j] == p[j]);
                let k = choose|k: int| 0 <= k < d.len() && d[k] == p[j];
                assert(ws[k] == d[k]);
            } else {
                assert(r[j] == ws.last());
                assert(ws[ws.len() - 1] == ws.last());
            }
        }
    }
}

/// Every chain that a search finds has one event per step of the pattern,
/// each of that step's type and within the window before `now`, all of
/// them events leaving one node; an empty pattern finds nothing.
pub proof fn law_chain_shape(m: GraphModel, now: Timestamp, window: i64, pat: Seq<EventType>, k: nat)
    ensures
        forall|i: int| 0 <= i < all_chains(m, now, window, pat, k).len() ==> {
            let c = #[trigger] all_chains(m, now, window, pat, k)[i];
            &&& pat.len() > 0
            &&& exists|a: nat| a < k && follows(c, pat, out_weights(m, a))
            &&& forall|j: int| 0 <= j < c.len() ==> seconds_between(now, (#[trigger] c[j]).timestamp) <= window
        },
    decreases k,
{
    if k > 0 {
        let a = (k - 1) as nat;
        law_chain_shape(m, now, window, pat, a);
        let prev = all_chains(m, now, window, pat, a);
        let es = keep_recent(out_weights(m, a), now, window);
        let here = node_chains(es, pat);
        let r = all_chains(m, now, window, pat, k);
        lemma_keep_recent(out_weights(m, a), now, window);
        assert(forall|j: int| 0 <= j < es.len() ==> es.contains(#[trigger] es[j]));
        lemma_chains_via(es, es, pat);
        assert forall|i: int| 0 <= i < r.len() implies {
            let c = #[trigger] r[i];
            &&& pat.len() > 0
            &&& exists|b: nat| b < k && follows(c, pat, out_weights(m, b))
            &&& forall|j: int| 0 <= j < c.len() ==> seconds_between(now, (#[trigger] c[j]).timestamp) <= window
        } by {
            if i < prev.len() {
                assert(r[i] == prev[i]);
                let b = choose|b: nat| b < a && follows(prev[i], pat, out_weights(m, b));
                assert(follows(r[i], pat, out_weights(m, b)));
            } else {
                let c = r[i];
                assert(c == here[i - prev.len()]);
                assert(pat.len() > 0);
                assert(follows(c, pat, es));
                assert forall|j: int| 0 <= j < c.len() implies (#[trigger] c[j]).event_type == pat[j] && out_weights(m, a).contains(c[j])
                    && seconds_between(now, c[j].timestamp) <= window by {
                    assert(es.contains(c[j]));
                    let q = choose|q: int| 0 <= q < es.len() && es[q] == c[j];
                    assert(es[q] == c[j]);
                }
                assert(follows(c, pat, out_weights(m, a)));
            }
        }
    }
}

/// The number of edges of `es` of type `t`.
pub open spec fn count_of_type(es: Seq<EdgeView>, t: EventType) -> nat
    decreases es.len(),
{
    if es.len() == 0 {
        0
    } else {
        (if es[0].event_type == t { 1nat } else { 0nat }) + count_of_type(es.drop_first(), t)
    }
}

/// The number of ways to pick, for each step of `pat`, an edge of `es` of
/// that step's type.
pub open spec fn pattern_choices(es: Seq<EdgeView>, pat: Seq<EventType>) -> nat
    decreases pat.len(),
{
    if pat.len() == 0 {
        1
    } else {
        count_of_type(es, pat[0]) * pattern_choices(es, pat.drop_first())
    }
}

proof fn lemma_via_count(all: Seq<EdgeView>, rest: Seq<EdgeView>, pat: Seq<EventType>)
    requires
        pat.len() > 0,
    ensures
        chains_via(all, rest, pat).len() == count_of_type(rest, pat[0]) * pattern_choices(all, pat.drop_first()),
    decreases pat.len(), rest.len(),
{
    let tail = pat.drop_first();
    let sub = chains_from(all, tail);
    lemma_from_count(all, tail);
    let c = count_of_type(rest, pat[0]);
    let pc = pattern_choices(all, tail);
    if rest.len() > 0 {
        lemma_via_count(all, rest.drop_first(), pat);
        let c1 = count_of_type(rest.drop_first(), pat[0]);
        if rest[0].event_type == pat[0] {
            assert(prefix_each(rest[0], sub).len() == sub.len());
            assert(c == 1 + c1);
            assert((1 + c1) * pc == pc + c1 * pc) by (nonlinear_arith);
        } else {
            assert(c == c1);
        }
    } else {
        assert(c == 0);
        assert(0 * pc == 0) by (nonlinear_arith);
    }
}

proof fn lemma_from_count(all: Seq<EdgeView>, pat: Seq<EventType>)
    ensures
        chains_from(all, pat).len() == pattern_choices(all, pat),
    decreases pat.len(), all.len() + 1,
{
    if pat.len() > 0 {
        lemma_via_count(all, all, pat);
    } else {
        assert(chains_from(all, pat) == seq![Seq::<EdgeView>::empty()]);
    }
}

/// Chain search counts right: the chains found among one node's recent
/// events number exactly the ways of picking, for each step of a non-empty
/// pattern, an event of that step's type (none for an empty pattern); with
/// `law_chain_shape` and `law_chain_cover`, each such pick is listed once.
pub proof fn law_chain_count(es: Seq<EdgeView>, pat: Seq<EventType>)
    ensures
        node_chains(es, pat).len() == if pat.len() == 0 { 0 } else { pattern_choices(es, pat) },
{
    lemma_from_count(es, pat);
}

/// The edges of `es` at the positions `idx`, in order.
pub open spec fn picked(es: Seq<EdgeView>, idx: Seq<int>) -> Seq<EdgeView> {
    Seq::new(idx.len(), |j: int| es[idx[j]])
}

/// Positions of edges of `es` whose types are those of `pat`, step by step.
pub open spec fn is_pick(es: Seq<EdgeView>, pat: Seq<EventType>, idx: Seq<int>) -> bool {
    &&& idx.len() == pat.len()
    &&& forall|j: int| 0 <= j < idx.len() ==> 0 <= #[trigger] idx[j] < es.len() && es[idx[j]].event_type == pat[j]
}

proof fn lemma_cover_via(all: Seq<EdgeView>, k: int, pat: Seq<EventType>, idx: Seq<int>)
    requires
        pat.len() > 0,
        is_pick(all, pat, idx),
        0 <= k <= idx[0],
    ensures
        chains_via(all, all.subrange(k, all.len() as int), pat).contains(picked(all, idx)),
    decreases pat.len(), all.len() - k,
{
    let rest = all.subrange(k, all.len() as int);
    let tail = pat.drop_first();
    let it = idx.drop_first();
    assert(rest.len() > 0);
    let later = chains_via(all, rest.drop_first(), pat);
    let sub = chains_from(all, tail);
    let head = if rest[0].event_type == pat[0] {
        prefix_each(rest[0], sub)
    } else {
        seq![]
    };
    assert(chains_via(all, rest, pat) == head + later);
    if idx[0] == k {
        assert(is_pick(all, tail, it)) by {
            assert forall|j: int| 0 <= j < it.len() implies 0 <= #[trigger] it[j] < all.len() && all[it[j]].event_type
                == tail[j] by {
                assert(it[j] == idx[j + 1]);
            }
        }
        let m: int = if tail.len() == 0 {
            assert(sub == seq![Seq::<EdgeView>::empty()]);
            assert(picked(all, it) =~= Seq::<EdgeView>::empty());
            0
        } else {
            assert(all.subrange(0, all.len() as int) =~= all);
            lemma_cover_via(all, 0, tail, it);
            choose|m: int| 0 <= m < sub.len() && sub[m] == picked(all, it)
        };
        assert(sub[m] == picked(all, it));
        assert(rest[0] == all[k]);
        assert(head[m] == seq![all[k]] + sub[m]);
        assert(seq![all[k]] + picked(all, it) =~= picked(all, idx));
        assert((head + later)[m] == head[m]);
    } else {
        assert(rest.drop_first() =~= all.subrange(k + 1, all.len() as int));
        lemma_cover_via(all, k + 1, pat, idx);
        let m = choose|m: int| 0 <= m < later.len() && later[m] == picked(all, idx);
        assert((head + later)[head.len() + m] == later[m]);
    }
}

/// Chain search misses nothing: every way of picking, for each step of a
/// non-empty pattern, an event of a node's recent events of that step's
/// type is among the chains found for that node.
pub proof fn law_chain_cover(es: Seq<EdgeView>, pat: Seq<EventType>, idx: Seq<int>)
    requires
        pat.len() > 0,
        is_pick(es, pat, idx),
    ensures
        node_chains(es, pat).contains(picked(es, idx)),
{
    assert(es.subrange(0, es.len() as int) =~= es);
    lemma_cover_via(es, 0, pat, idx);
}

/// The graph keeps an event for `GRAPH_TTL_SECS` whole seconds: an event
/// at most that old is never stale, one older always is; and a chain search
/// keeps exactly the events at most `window` whole seconds old.
pub proof fn law_staleness_boundary(w: EdgeView, now: Timestamp, ws: Seq<EdgeView>, window: i64)
    ensures
        is_stale(w, now) == (seconds_between(now, w.timestamp) > GRAPH_TTL_SECS),
        seconds_between(now, w.timestamp) <= GRAPH_TTL_SECS ==> !is_stale(w, now),
        forall|i: int| 0 <= i < keep_recent(ws, now, window).len() ==> seconds_between(
            now,
            (#[trigger] keep_recent(ws, now, window)[i]).timestamp,
        ) <= window,
        forall|i: int|
            0 <= i < ws.len() && seconds_between(now, (#[trigger] ws[i]).timestamp) <= window ==> keep_recent(
                ws,
                now,
                window,
            ).contains(ws[i]),
    decreases ws.len(),
{
    if ws.len() > 0 {
        let d = ws.drop_last();
        law_staleness_boundary(w, now, d, window);
        let r = keep_recent(ws, now, window);
        let p = keep_recent(d, now, window);
        assert forall|i: int| 0 <= i < r.len() implies seconds_between(now, (#[trigger] r[i]).timestamp) <= window by {
            if i < p.len() {
                assert(r[i] == p[i]);
            }
        }
        assert forall|i: int| 0 <= i < ws.len() && seconds_between(now, (#[trigger] ws[i]).timestamp) <= window implies r.contains(
            ws[i],
        ) by {
            if i < d.len() {
                assert(ws[i] == d[i]);
                let k = choose|k: int| 0 <= k < p.len() && p[k] == d[i];
                assert(r[k] == p[k]);
            } else {
                assert(ws[i] == ws.last());
                assert(r[r.len() - 1] == ws.last());
            }
        }
    }
}

} // verus!
