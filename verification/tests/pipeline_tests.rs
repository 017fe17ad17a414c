use soc_core::api::{find_incident, ingest_incident, select_incidents};
use soc_core::correlator::{ChainType, Incident};
use soc_core::fields::FieldMap;
use soc_core::input::{canonical_to_api_event, event_from_json, event_line_body, JsonEvent};
use soc_core::platform::{elapsed_secs, Timestamp};
use soc_core::shared::{CanonicalEvent, Entity, EntityKind, EventType};

fn blank() -> JsonEvent {
    JsonEvent {
        timestamp: None,
        event_type: None,
        username: None,
        source_ip: None,
        source_host: None,
        destination_host: None,
        destination_ip: None,
        destination_port: None,
        source_port: None,
        status: None,
        process_name: None,
        command_line: None,
        bytes_sent: None,
        direction: None,
    }
}

#[test]
fn input_lines_are_screened() {
    assert_eq!(event_line_body("   "), None);
    assert_eq!(event_line_body("  # comment {}"), None);
    assert_eq!(event_line_body("\t{\"a\":1}  \r"), Some("{\"a\":1}".to_string()));
}

#[test]
fn json_record_becomes_event() {
    let mut j = blank();
    j.event_type = Some("login_failed".to_string());
    j.username = Some("Alice".to_string());
    j.source_ip = Some("10.0.0.5".to_string());
    j.destination_ip = Some("10.0.0.9".to_string());
    j.status = Some("failed".to_string());
    j.bytes_sent = Some(4096);
    let e = event_from_json(&j);
    assert_eq!(e.src_entity.kind, EntityKind::User);
    assert_eq!(e.src_entity.key, "user:alice");
    assert_eq!(e.dst_entity.kind, EntityKind::IP);
    assert_eq!(e.dst_entity.key, "ip:10.0.0.9");
    assert_eq!(e.event_type, EventType::Login);
    assert_eq!(e.raw_fields.len(), 4);
    assert_eq!(e.raw_fields.key_at(0), "event_type");
    assert_eq!(e.raw_fields.get("source_ip").unwrap(), "10.0.0.5");
    assert_eq!(e.raw_fields.get("bytes").unwrap(), "4096");
    assert!(!e.raw_fields.contains_key("direction"));
    assert_eq!(e.score_bits, 0);
}

#[test]
fn json_record_defaults() {
    let e = event_from_json(&blank());
    assert_eq!(e.src_entity.key, "user:unknown");
    assert_eq!(e.dst_entity.key, "device:unknown");
    assert_eq!(e.event_type, EventType::Login);
    assert_eq!(e.raw_fields.len(), 0);
    let mut j = blank();
    j.source_host = Some("ws1".to_string());
    j.destination_host = Some("db1".to_string());
    j.event_type = Some("process_spawn".to_string());
    let f = event_from_json(&j);
    assert_eq!(f.src_entity.key, "device:ws1");
    assert_eq!(f.src_entity.kind, EntityKind::Device);
    assert_eq!(f.dst_entity.key, "device:db1");
    assert_eq!(f.event_type, EventType::Spawn);
    for (name, t) in [("port_scan", EventType::Connect), ("access", EventType::Access), ("escalate", EventType::Escalate), ("other", EventType::Login)] {
        let mut k = blank();
        k.event_type = Some(name.to_string());
        assert_eq!(event_from_json(&k).event_type, t);
    }
}

#[test]
fn api_record_of_an_event() {
    let mut fields = FieldMap::new();
    fields.insert("event_type".to_string(), "login_failed".to_string());
    fields.insert("status".to_string(), "failed".to_string());
    let e = CanonicalEvent::new(Entity::user("user:alice"), Entity::device("device:db1"), EventType::Login, fields);
    let a = canonical_to_api_event(&e);
    assert_eq!(a.event_type, "login");
    assert_eq!(a.entity.get("kind").unwrap(), "User");
    assert_eq!(a.entity.get("value").unwrap(), "user:alice");
    assert_eq!(a.metadata.get("dst_entity").unwrap(), "device:db1");
    // the raw fields come last and win over the type name
    assert_eq!(a.metadata.get("event_type").unwrap(), "login_failed");
    assert_eq!(a.metadata.get("status").unwrap(), "failed");
    assert_eq!(a.metadata.len(), 3);
}

#[test]
fn failed_login_raises_incident() {
    let mut entity = FieldMap::new();
    entity.insert("value".to_string(), "user:alice".to_string());
    let i = ingest_incident("login_failed", &entity).unwrap();
    assert_eq!(i.severity, "HIGH");
    assert_eq!(i.chain, vec!["login_failed".to_string()]);
    assert_eq!(i.entities, vec!["user:alice".to_string()]);
    assert_eq!(f32::from_bits(i.sigma_score_bits), 0.9);
    assert_eq!(f32::from_bits(i.z_score_bits), 2.5);
    assert_eq!(f32::from_bits(i.cvss_bits), 7.5);
    assert_eq!(f32::from_bits(i.base_signal_bits), 1.0);
    assert_eq!(i.actions, Some(vec!["alert".to_string()]));
    assert_eq!(i.summary.as_deref(), Some("Multiple failed login attempts detected"));
    assert_eq!(i.id.len(), 36);
    let no_value = ingest_incident("login_failed", &FieldMap::new()).unwrap();
    assert_eq!(no_value.entities, vec![String::new()]);
    assert!(ingest_incident("login_success", &entity).is_none());
    assert!(ingest_incident("LOGIN_FAILED", &entity).is_none());
}

fn incident_at(c: ChainType, secs: i64) -> Incident {
    let mut i = Incident::new(&c, vec![], 0);
    i.timestamp = Timestamp { secs, nanos: 0 };
    i
}

#[test]
fn listing_is_newest_first_filtered_and_limited() {
    let list = vec![
        incident_at(ChainType::LateralMove, 100),
        incident_at(ChainType::ExfilCandidate, 300),
        incident_at(ChainType::BruteForceSuccess, 200),
        incident_at(ChainType::PrivilegeEscalate, 300),
    ];
    let all = select_incidents(&list, None, 50);
    let secs: Vec<i64> = all.iter().map(|i| i.timestamp.secs).collect();
    assert_eq!(secs, vec![300, 300, 200, 100]);
    // equal times keep their order
    assert_eq!(all[0].severity, "CRITICAL");
    assert_eq!(all[1].severity, "MEDIUM");
    let high = select_incidents(&list, Some("high"), 50);
    let secs: Vec<i64> = high.iter().map(|i| i.timestamp.secs).collect();
    assert_eq!(secs, vec![200, 100]);
    assert_eq!(select_incidents(&list, Some("HiGh"), 1).len(), 1);
    assert_eq!(select_incidents(&list, Some("HiGh"), 1)[0].timestamp.secs, 200);
    assert!(select_incidents(&list, Some("low"), 50).is_empty());
    assert!(select_incidents(&list, None, 0).is_empty());
}

#[test]
fn incident_lookup_by_id() {
    let list = vec![incident_at(ChainType::LateralMove, 1), incident_at(ChainType::ExfilCandidate, 2)];
    let id = list[1].id.clone();
    assert_eq!(find_incident(&list, &id).unwrap().timestamp.secs, 2);
    assert!(find_incident(&list, "nope").is_none());
}

#[test]
fn whole_seconds_round_toward_zero() {
    let a = Timestamp { secs: 10, nanos: 500_000_000 };
    let b = Timestamp { secs: 0, nanos: 700_000_000 };
    assert_eq!(elapsed_secs(&a, &b), 9);
    assert_eq!(elapsed_secs(&b, &a), -9);
    assert_eq!(elapsed_secs(&a, &a), 0);
}

#[test]
fn field_map_reads_back_writes() {
    let mut m = FieldMap::new();
    m.insert("a".to_string(), "1".to_string());
    m.insert("b".to_string(), "2".to_string());
    m.insert("a".to_string(), "3".to_string());
    assert_eq!(m.len(), 2);
    assert_eq!(m.get("a").unwrap(), "3");
    assert_eq!(m.get("b").unwrap(), "2");
    assert_eq!(m.key_at(0), "a");
    assert_eq!(m.value_at(1), "2");
    assert_eq!(m.position("b"), 1);
    assert_eq!(m.position("z"), 2);
    assert!(m.contains_key("a"));
    assert!(!m.contains_key("z"));
    assert!(m.get("z").is_none());
}

#[test]
fn names_of_kinds_and_types() {
    assert_eq!(EventType::from_str("LOGIN"), Some(EventType::Login));
    assert_eq!(EventType::from_str("Escalate"), Some(EventType::Escalate));
    assert_eq!(EventType::from_str("spawn"), Some(EventType::Spawn));
    assert_eq!(EventType::from_str("bogus"), None);
    for t in [EventType::Login, EventType::Spawn, EventType::Connect, EventType::Access, EventType::Escalate] {
        assert_eq!(EventType::from_str(&t.name()), Some(t));
        assert_eq!(EventType::from_str(&t.name().to_uppercase()), Some(t));
    }
    assert_eq!(EventType::Connect.name(), "Connect");
    assert_eq!(EntityKind::IP.name(), "IP");
    assert_eq!(Entity::process("sh").kind, EntityKind::Process);
    assert_eq!(Entity::file("/x").key, "/x");
    assert_eq!(Entity::ip("1.1.1.1").kind, EntityKind::IP);
    let e = Entity::new(EntityKind::Device, "pc".to_string());
    assert_eq!(e.duplicate(), e);
}
