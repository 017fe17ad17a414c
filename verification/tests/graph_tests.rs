use soc_core::fields::FieldMap;
use soc_core::graph::EventGraph;
use soc_core::platform::Timestamp;
use soc_core::shared::{CanonicalEvent, Entity, EventType};

fn event(src: Entity, dst: Entity, t: EventType) -> CanonicalEvent {
    CanonicalEvent::new(src, dst, t, FieldMap::new())
}

fn at(secs: i64) -> Timestamp {
    Timestamp { secs, nanos: 0 }
}

#[test]
fn test_insert_and_snapshot() {
    let mut graph = EventGraph::new();

    let event = CanonicalEvent::new(
        Entity::user("alice"),
        Entity::device("server1"),
        EventType::Login,
        FieldMap::new(),
    );

    graph.insert_event(&event, 0.8f32.to_bits(), Some("test_rule".to_string()));

    let snapshot = graph.get_snapshot();
    assert_eq!(snapshot.nodes.len(), 2);
    assert_eq!(snapshot.edges.len(), 1);
}

#[test]
fn test_node_deduplication() {
    let mut graph = EventGraph::new();

    let event1 = CanonicalEvent::new(
        Entity::user("alice"),
        Entity::device("server1"),
        EventType::Login,
        FieldMap::new(),
    );

    let event2 = CanonicalEvent::new(
        Entity::user("alice"),
        Entity::device("server2"),
        EventType::Connect,
        FieldMap::new(),
    );

    graph.insert_event(&event1, 0.5f32.to_bits(), None);
    graph.insert_event(&event2, 0.6f32.to_bits(), None);

    let snapshot = graph.get_snapshot();
    assert_eq!(snapshot.nodes.len(), 3);
}

#[test]
fn snapshot_describes_nodes_and_edges() {
    let mut graph = EventGraph::new();
    let e = event(Entity::user("alice"), Entity::device("server1"), EventType::Login);
    graph.insert_event(&e, 0.8f32.to_bits(), Some("r1".to_string()));
    let s = graph.get_snapshot();
    assert_eq!(s.nodes[0].id, 0);
    assert_eq!(s.nodes[0].key, "alice");
    assert_eq!(s.nodes[0].kind, "User");
    assert_eq!(s.nodes[1].key, "server1");
    assert_eq!(s.nodes[1].kind, "Device");
    let edge = &s.edges[0];
    assert_eq!(edge.source, 0);
    assert_eq!(edge.target, 1);
    assert_eq!(edge.event_type, "Login");
    assert_eq!(f32::from_bits(edge.score_bits), 0.8f32);
    // the identifier is the hyphenated text of the event's UUID
    assert_eq!(edge.id.len(), 36);
    assert_eq!(edge.id.matches('-').count(), 4);
    assert_ne!(edge.id, format!("{}", e.id));
    // the time is the RFC 3339 text of the event's time stamp
    assert!(edge.timestamp.contains('T'));
    assert!(edge.timestamp.ends_with("+00:00"));
}

#[test]
fn edges_for_entity_newest_first() {
    let mut graph = EventGraph::new();
    let e1 = event(Entity::user("alice"), Entity::device("server1"), EventType::Login);
    let e2 = event(Entity::user("alice"), Entity::device("server2"), EventType::Connect);
    graph.insert_event(&e1, 0, None);
    graph.insert_event(&e2, 0, None);
    let edges = graph.get_edges_for_entity("alice");
    assert_eq!(edges.len(), 2);
    assert_eq!(edges[0].event_type, EventType::Connect);
    assert_eq!(edges[1].event_type, EventType::Login);
    assert_eq!(graph.get_edges_for_entity("server1").len(), 0);
    assert_eq!(graph.get_edges_for_entity("nobody").len(), 0);
}

#[test]
fn prune_removes_stale_edges_and_orphans() {
    let mut graph = EventGraph::new();
    let mut old = event(Entity::user("alice"), Entity::device("server1"), EventType::Login);
    old.timestamp = at(1_000);
    let mut fresh1 = event(Entity::user("bob"), Entity::device("server2"), EventType::Login);
    fresh1.timestamp = at(10_000);
    let mut fresh2 = event(Entity::user("carol"), Entity::user("bob"), EventType::Connect);
    fresh2.timestamp = at(10_000);
    graph.insert_event(&old, 0, None);
    graph.insert_event(&fresh1, 0, None);
    graph.insert_event(&fresh2, 0, None);
    // 1800 seconds after the fresh events: only the old one is stale
    graph.prune_old_edges_at(&at(11_800));
    let s = graph.get_snapshot();
    assert_eq!(s.edges.len(), 2);
    // nodes with no event left go; a node that is only a destination stays
    let mut keys: Vec<String> = s.nodes.iter().map(|n| n.key.clone()).collect();
    keys.sort();
    assert_eq!(keys, vec!["bob".to_string(), "carol".to_string(), "server2".to_string()]);
    // edges keep their endpoints
    for e in &s.edges {
        let src = &s.nodes[e.source].key;
        let dst = &s.nodes[e.target].key;
        assert!((src == "bob" && dst == "server2") || (src == "carol" && dst == "bob"));
    }
    // the index map follows the renumbering
    assert_eq!(graph.get_edges_for_entity("carol").len(), 1);
    assert_eq!(graph.get_edges_for_entity("bob").len(), 1);
    assert_eq!(graph.get_edges_for_entity("alice").len(), 0);
    let again = event(Entity::user("carol"), Entity::user("alice"), EventType::Login);
    assert!(graph.insert_ready(&again));
    graph.insert_event(&again, 0, None);
    assert_eq!(graph.get_edges_for_entity("carol").len(), 2);
    assert_eq!(graph.get_snapshot().nodes.len(), 4);
}

#[test]
fn prune_keeps_edges_at_the_limit() {
    let mut graph = EventGraph::new();
    let mut e = event(Entity::user("alice"), Entity::device("server1"), EventType::Login);
    e.timestamp = at(0);
    graph.insert_event(&e, 0, None);
    graph.prune_old_edges_at(&at(1_800));
    assert_eq!(graph.get_snapshot().edges.len(), 1);
    assert_eq!(graph.get_snapshot().nodes.len(), 2);
    graph.prune_old_edges_at(&at(1_801));
    assert_eq!(graph.get_snapshot().edges.len(), 0);
    assert_eq!(graph.get_snapshot().nodes.len(), 0);
}

#[test]
fn every_stale_edge_goes() {
    let mut graph = EventGraph::new();
    let mut e1 = event(Entity::user("a"), Entity::user("b"), EventType::Login);
    e1.timestamp = at(0);
    let mut e2 = event(Entity::user("b"), Entity::user("a"), EventType::Login);
    e2.timestamp = at(2_000);
    let mut e3 = event(Entity::user("a"), Entity::user("b"), EventType::Connect);
    e3.timestamp = at(0);
    graph.insert_event(&e1, 0, None);
    graph.insert_event(&e2, 0, None);
    graph.insert_event(&e3, 0, None);
    graph.prune_old_edges_at(&at(2_000));
    let s = graph.get_snapshot();
    assert_eq!(s.edges.len(), 1);
    assert_eq!(s.nodes[s.edges[0].source].key, "b");
    assert_eq!(s.nodes[s.edges[0].target].key, "a");
    assert_eq!(s.nodes.len(), 2);
    // two stale edges out of two
    let mut g2 = EventGraph::new();
    let mut f1 = event(Entity::user("alice"), Entity::device("s1"), EventType::Login);
    f1.timestamp = at(0);
    let mut f2 = event(Entity::user("alice"), Entity::device("s2"), EventType::Login);
    f2.timestamp = at(0);
    g2.insert_event(&f1, 0, None);
    g2.insert_event(&f2, 0, None);
    g2.prune_old_edges_at(&at(5_000));
    assert_eq!(g2.get_snapshot().edges.len(), 0);
    assert_eq!(g2.get_snapshot().nodes.len(), 0);
}

#[test]
fn find_chain_follows_pattern() {
    let mut graph = EventGraph::new();
    let mut login = event(Entity::user("alice"), Entity::device("server1"), EventType::Login);
    login.timestamp = at(1_000);
    let mut spawn = event(Entity::user("alice"), Entity::device("server1"), EventType::Spawn);
    spawn.timestamp = at(1_010);
    let mut late = event(Entity::user("alice"), Entity::device("server1"), EventType::Spawn);
    late.timestamp = at(100);
    graph.insert_event(&login, 0, None);
    graph.insert_event(&spawn, 0, None);
    graph.insert_event(&late, 0, None);
    let chains = graph.find_chain_at(&[EventType::Login, EventType::Spawn], 600, &at(1_100));
    assert_eq!(chains.len(), 1);
    assert_eq!(chains[0].len(), 2);
    assert_eq!(chains[0][0].event_type, EventType::Login);
    assert_eq!(chains[0][1].timestamp, at(1_010));
    // an event may be used at more than one step
    let twice = graph.find_chain_at(&[EventType::Spawn, EventType::Spawn], 600, &at(1_100));
    assert_eq!(twice.len(), 1);
    assert!(graph.find_chain_at(&[], 600, &at(1_100)).is_empty());
    assert!(graph.find_chain(&[EventType::Escalate], 600).is_empty());
}

#[test]
fn chain_count_is_product_of_choices() {
    let mut graph = EventGraph::new();
    for (t, secs) in [(EventType::Login, 1_000), (EventType::Login, 1_001), (EventType::Spawn, 1_002), (EventType::Spawn, 1_003), (EventType::Spawn, 1_004)] {
        let mut e = event(Entity::user("alice"), Entity::user("alice"), t);
        e.timestamp = at(secs);
        graph.insert_event(&e, 0, None);
    }
    // two logins times three spawns
    let chains = graph.find_chain_at(&[EventType::Login, EventType::Spawn], 600, &at(1_100));
    assert_eq!(chains.len(), 6);
    let mut seen: Vec<(i64, i64)> = chains.iter().map(|c| (c[0].timestamp.secs, c[1].timestamp.secs)).collect();
    seen.sort();
    seen.dedup();
    assert_eq!(seen.len(), 6);
}
