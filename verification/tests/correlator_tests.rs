use soc_core::correlator::{
    ChainType, ConfigNumber, CorrelationThresholds, Correlator, Incident, VecDequeWithMax,
};
use soc_core::graph::EventEdge;
use soc_core::platform::Timestamp;
use soc_core::shared::EventType;

#[test]
fn test_incident_scoring() {
    let thresholds = CorrelationThresholds::default();

    let base_signal = 0.8f32;
    let tactic_span_weight = 1.25f32;
    let asset_crit = f32::from_bits(thresholds.get_asset_criticality("user:admin"));

    let final_score = base_signal * tactic_span_weight * asset_crit;

    assert!((final_score - 2.0).abs() < 0.01);
}

fn edge(t: EventType, secs: i64, score: f32, rule: Option<&str>) -> EventEdge {
    EventEdge {
        id: format!("e{}", secs),
        timestamp: Timestamp { secs, nanos: 0 },
        event_type: t,
        score_bits: score.to_bits(),
        sigma_rule_id: rule.map(|s| s.to_string()),
    }
}

fn correlate(c: &Correlator, edges: &[EventEdge], reached: Vec<bool>) -> Option<ChainType> {
    let refs: Vec<&EventEdge> = edges.iter().collect();
    c.correlate(&refs, &reached).map(|k| k.chain_type)
}

#[test]
fn criticality_defaults_to_one() {
    let t = CorrelationThresholds::default();
    assert_eq!(f32::from_bits(t.get_asset_criticality("device:dc01")), 2.0);
    assert_eq!(f32::from_bits(t.get_asset_criticality("src_entity")), 1.0);
    assert_eq!(t.max_chain_window_secs, 60);
    assert_eq!(t.lateral_move_window_secs, 900);
    assert_eq!(t.priv_esc_window_secs, 300);
    assert_eq!(f32::from_bits(t.exfil_min_zscore_bits), 4.0);
}

#[test]
fn five_failed_logins_within_a_minute_are_brute_force() {
    let c = Correlator::new();
    let edges: Vec<EventEdge> =
        (0..5).map(|i| edge(EventType::Login, 1_000 + i * 10, 0.1, Some("login_failed"))).collect();
    assert_eq!(correlate(&c, &edges, vec![false; 5]), Some(ChainType::BruteForceSuccess));
    let refs: Vec<&EventEdge> = edges.iter().collect();
    let k = c.correlate(&refs, &vec![false; 5]).unwrap();
    assert_eq!(k.entities, vec!["src_entity".to_string()]);
    assert!(k.exfil_edge.is_none());
}

#[test]
fn failed_logins_75_seconds_apart_are_not_brute_force() {
    let c = Correlator::new();
    let edges: Vec<EventEdge> =
        (0..5).map(|i| edge(EventType::Login, 1_700_000_000 + i * 75, 0.9, Some("login_failed"))).collect();
    assert_eq!(correlate(&c, &edges, vec![false; 5]), None);
    let tight: Vec<EventEdge> =
        (0..5).map(|i| edge(EventType::Login, 1_700_000_000 + i * 15, 0.9, Some("login_failed"))).collect();
    assert_eq!(correlate(&c, &tight, vec![false; 5]), Some(ChainType::BruteForceSuccess));
}

#[test]
fn four_failed_logins_are_not_enough() {
    let c = Correlator::new();
    let edges: Vec<EventEdge> =
        (0..4).map(|i| edge(EventType::Login, 1_000 + i, 0.1, Some("failed"))).collect();
    assert_eq!(correlate(&c, &edges, vec![false; 4]), None);
}

#[test]
fn failed_logins_spread_too_far_apart() {
    let c = Correlator::new();
    let mut edges: Vec<EventEdge> =
        (0..5).map(|i| edge(EventType::Login, 1_000 + i, 0.9, Some("auth"))).collect();
    edges[4].timestamp = Timestamp { secs: 1_000 + 601, nanos: 0 };
    assert_eq!(correlate(&c, &edges, vec![false; 5]), None);
    // a low score under a rule that does not say "failed" is not counted
    let low: Vec<EventEdge> = (0..5).map(|i| edge(EventType::Login, 1_000 + i, 0.5, Some("auth"))).collect();
    assert_eq!(correlate(&c, &low, vec![false; 5]), None);
}

#[test]
fn login_then_connect_is_lateral_movement() {
    let c = Correlator::new();
    let edges = vec![
        edge(EventType::Login, 1_000, 0.1, Some("ok")),
        edge(EventType::Connect, 1_900, 0.1, Some("smb_445")),
    ];
    assert_eq!(correlate(&c, &edges, vec![false; 2]), Some(ChainType::LateralMove));
    let web = vec![
        edge(EventType::Login, 1_000, 0.1, Some("ok")),
        edge(EventType::Connect, 1_010, 0.1, Some("https_443")),
    ];
    assert_eq!(correlate(&c, &web, vec![false; 2]), None);
    let late = vec![
        edge(EventType::Login, 1_000, 0.1, Some("ok")),
        edge(EventType::Connect, 1_901, 0.1, Some("smb")),
    ];
    assert_eq!(correlate(&c, &late, vec![false; 2]), None);
}

#[test]
fn access_and_outbound_connection_is_exfiltration() {
    let c = Correlator::new();
    let edges = vec![
        edge(EventType::Access, 1_000, 0.1, None),
        edge(EventType::Connect, 1_000, 0.9, Some("outbound_80")),
    ];
    let refs: Vec<&EventEdge> = edges.iter().collect();
    let k = c.correlate(&refs, &vec![false, true]).unwrap();
    assert_eq!(k.chain_type, ChainType::ExfilCandidate);
    assert_eq!(k.exfil_edge, Some(1));
    assert_eq!(k.entities, vec!["internal_host".to_string(), "external_ip".to_string()]);
    assert_eq!(correlate(&c, &edges, vec![false, false]), None);
}

#[test]
fn login_escalate_access_is_privilege_escalation() {
    let c = Correlator::new();
    let edges = vec![
        edge(EventType::Login, 1_000, 0.1, Some("ok")),
        edge(EventType::Escalate, 1_200, 0.1, None),
        edge(EventType::Access, 1_500, 0.1, None),
    ];
    assert_eq!(correlate(&c, &edges, vec![false; 3]), Some(ChainType::PrivilegeEscalate));
    let far = vec![
        edge(EventType::Login, 1_000, 0.1, Some("ok")),
        edge(EventType::Escalate, 1_200, 0.1, None),
        edge(EventType::Access, 1_501, 0.1, None),
    ];
    assert_eq!(correlate(&c, &far, vec![false; 3]), None);
    assert_eq!(correlate(&c, &[], vec![]), None);
}

#[test]
fn thresholds_from_config() {
    let cfg = vec![
        ("max_chain_window_secs".to_string(), ConfigNumber { as_i64: Some(60), as_u64: Some(60), as_f32_bits: Some(60f32.to_bits()) }),
        ("brute_force_min_attempts".to_string(), ConfigNumber { as_i64: Some(3), as_u64: Some(3), as_f32_bits: Some(3f32.to_bits()) }),
        ("priv_esc_window_secs".to_string(), ConfigNumber { as_i64: None, as_u64: None, as_f32_bits: Some(1.5f32.to_bits()) }),
        ("exfil_min_zscore".to_string(), ConfigNumber { as_i64: None, as_u64: None, as_f32_bits: Some(2.5f32.to_bits()) }),
    ];
    let t = CorrelationThresholds::from_config(&cfg);
    assert_eq!(t.max_chain_window_secs, 60);
    assert_eq!(t.brute_force_min_attempts, 3);
    assert_eq!(t.priv_esc_window_secs, 300);
    assert_eq!(t.lateral_move_window_secs, 900);
    assert_eq!(f32::from_bits(t.exfil_min_zscore_bits), 2.5);
    let c = Correlator::new().with_thresholds(t);
    let edges: Vec<EventEdge> = (0..3).map(|i| edge(EventType::Login, 1_000 + i, 0.1, None)).collect();
    assert_eq!(correlate(&c, &edges, vec![false; 3]), Some(ChainType::BruteForceSuccess));
    assert_eq!(c.thresholds().brute_force_min_attempts, 3);
    assert_eq!(f32::from_bits(c.thresholds().exfil_min_zscore_bits), 2.5);
    assert_eq!(f32::from_bits(c.thresholds().get_asset_criticality("user:admin")), 2.0);
}

#[test]
fn chain_metadata_and_new_incident() {
    let (sev, chain, cvss) = ChainType::ExfilCandidate.metadata();
    assert_eq!(sev, "CRITICAL");
    assert_eq!(chain, vec!["T1041".to_string(), "TA0010".to_string()]);
    assert_eq!(f32::from_bits(cvss), 9.0);
    let i = Incident::new(&ChainType::PrivilegeEscalate, vec!["user".to_string()], 0.6f32.to_bits());
    assert_eq!(i.severity, "MEDIUM");
    assert_eq!(i.chain, vec!["T1068".to_string(), "TA0004".to_string()]);
    assert_eq!(f32::from_bits(i.cvss_bits), 6.5);
    assert_eq!(i.sigma_score_bits, 0.6f32.to_bits());
    assert_eq!(i.base_signal_bits, 0.6f32.to_bits());
    assert_eq!(i.z_score_bits, 0);
    assert!(i.summary.is_none() && i.actions.is_none() && i.ioc_match.is_none());
    assert_eq!(i.id.len(), 36);
    let j = Incident::new(&ChainType::PrivilegeEscalate, vec![], 0);
    assert_ne!(i.id, j.id);
}

#[test]
fn bounded_queue_drops_oldest() {
    let mut q: VecDequeWithMax<u32> = VecDequeWithMax::new(2);
    q.push_back(1);
    q.push_back(2);
    q.push_back(3);
    let all: Vec<u32> = q.get_all().into_iter().copied().collect();
    assert_eq!(all, vec![2, 3]);
    let mut z: VecDequeWithMax<u32> = VecDequeWithMax::new(0);
    z.push_back(7);
    z.push_back(8);
    let all: Vec<u32> = z.get_all().into_iter().copied().collect();
    assert_eq!(all, vec![8]);
}

#[test]
fn added_incident_is_found_and_listed() {
    let mut c = Correlator::new();
    let a = Incident::new(&ChainType::LateralMove, vec![], 0);
    let b = Incident::new(&ChainType::ExfilCandidate, vec![], 0);
    let b_id = b.id.clone();
    c.add_incident(a);
    c.add_incident(b);
    assert_eq!(c.get_incident(&b_id).unwrap().severity, "CRITICAL");
    assert!(c.get_incident("missing").is_none());
    assert_eq!(c.get_incidents(None, 10).len(), 2);
    assert_eq!(c.get_incidents(Some("high"), 10).len(), 1);
    assert_eq!(c.get_incidents(Some("critical"), 10)[0].id, b_id);
    assert_eq!(c.get_incidents(None, 1).len(), 1);
    assert_eq!(c.get_incidents(Some("low"), 10).len(), 0);
}

#[test]
fn chain_scoring_table() {
    let (base, weight, key) = ChainType::PrivilegeEscalate.scoring();
    assert_eq!(f32::from_bits(base), 0.6);
    assert_eq!(f32::from_bits(weight), 1.75);
    assert_eq!(key.as_deref(), Some("user:admin"));
    let (base, weight, key) = ChainType::LateralMove.scoring();
    assert_eq!(f32::from_bits(base), 0.7);
    assert_eq!(f32::from_bits(weight), 1.25);
    assert!(key.is_none());
    let (base, _, key) = ChainType::BruteForceSuccess.scoring();
    assert_eq!(f32::from_bits(base), 0.8);
    assert_eq!(key.as_deref(), Some("src_entity"));
    let (base, _, key) = ChainType::ExfilCandidate.scoring();
    assert_eq!(f32::from_bits(base), 0.9);
    assert_eq!(key.as_deref(), Some("internal_host"));
}
