use soc_core::fields::FieldMap;
use soc_core::ioc::{abuseipdb_url, check_ioc_step, is_private_ip, IocFilter, IocStep};
use soc_core::normaliser::{detect_entity_kind, Normaliser};
use soc_core::shared::{CanonicalEvent, Entity, EntityKind, EventType};
use soc_core::sigma::{evaluate_sigma_rules, SigmaRule};

fn event_with(t: EventType, fields: &[(&str, &str)]) -> CanonicalEvent {
    let mut m = FieldMap::new();
    for (k, v) in fields {
        m.insert(k.to_string(), v.to_string());
    }
    CanonicalEvent::new(Entity::user("alice"), Entity::device("server1"), t, m)
}

const RULE: &str = "title: Failed Login Burst\nlogsource:\n  category: authentication\ndetection:\n    condition: status=failed, user|contains=adm\nthreshold: 5\ntimewindow: +60\nseverity: High\n";

#[test]
fn sigma_rule_text_is_read() {
    let r = SigmaRule::parse_yaml(RULE).unwrap();
    assert_eq!(r.title, "Failed Login Burst");
    assert_eq!(r.id, "failed_login_burst");
    // indented keys are trimmed before matching, so only `logsource:` counts
    assert_eq!(r.logsource_category, "");
    assert_eq!(r.condition, "");
    assert_eq!(r.threshold, Some(5));
    assert_eq!(r.timewindow, Some(60));
    assert_eq!(r.severity, "High");
    assert_eq!(r.severity_score(), 3);
}

#[test]
fn sigma_rule_defaults() {
    let r = SigmaRule::parse_yaml("threshold: many\nlogsource: cat: auth\ndetection: status=failed").unwrap();
    assert_eq!(r.id, "");
    assert_eq!(r.threshold, None);
    assert_eq!(r.timewindow, None);
    assert_eq!(r.logsource_category, "auth");
    assert_eq!(r.condition, "status=failed");
    assert_eq!(r.severity, "medium");
    assert_eq!(r.severity_score(), 2);
}

fn rule(category: &str, condition: &str, severity: &str) -> SigmaRule {
    SigmaRule {
        id: "r".to_string(),
        title: "r".to_string(),
        logsource_category: category.to_string(),
        condition: condition.to_string(),
        threshold: None,
        timewindow: None,
        severity: severity.to_string(),
    }
}

#[test]
fn sigma_rule_matching() {
    let failed = event_with(EventType::Login, &[("status", "FAILED")]);
    assert!(rule("", "", "low").evaluate(&failed));
    assert!(rule("login", "status=failed", "low").evaluate(&failed));
    assert!(!rule("network", "", "low").evaluate(&failed));
    assert!(!rule("", "status=success", "low").evaluate(&failed));
    // a missing field reads as empty, which every value contains
    assert!(rule("", "port=22", "low").evaluate(&failed));
    // keys with a modifier are not checked
    assert!(rule("", "cmd|contains=x", "low").evaluate(&failed));
    let categorised = event_with(EventType::Spawn, &[("category", "process_creation")]);
    assert!(rule("process", "", "low").evaluate(&categorised));
    assert!(rule("spawn", "", "low").evaluate(&categorised));
}

#[test]
fn severity_weights() {
    assert_eq!(rule("", "", "CRITICAL").severity_score(), 4);
    assert_eq!(rule("", "", "high").severity_score(), 3);
    assert_eq!(rule("", "", "Medium").severity_score(), 2);
    assert_eq!(rule("", "", "low").severity_score(), 1);
    assert_eq!(rule("", "", "unknown").severity_score(), 2);
}

#[test]
fn first_matching_rule_wins() {
    let e = event_with(EventType::Connect, &[("direction", "outbound")]);
    let rules = vec![
        rule("login", "", "low"),
        rule("connect", "direction=outbound", "high"),
        rule("", "", "critical"),
    ];
    assert_eq!(evaluate_sigma_rules(&rules, &e), Some(1));
    assert_eq!(evaluate_sigma_rules(&rules[..1].to_vec(), &e), None);
    assert_eq!(evaluate_sigma_rules(&Vec::new(), &e), None);
}

#[test]
fn normaliser_reads_raw_lines() {
    let n = Normaliser::new();
    let e = n.parse("Failed login for user=Admin from src=10.1.2.3 dst=server1").unwrap();
    assert_eq!(e.event_type, EventType::Login);
    assert_eq!(e.src_entity.kind, EntityKind::IP);
    assert_eq!(e.src_entity.key, "subnet:internal-a");
    assert_eq!(e.dst_entity.kind, EntityKind::User);
    assert_eq!(e.dst_entity.key, "user:server1");
    assert_eq!(e.raw_fields.get("status").unwrap(), "failed");
    assert_eq!(e.raw_fields.get("type").unwrap(), "login");
    assert_eq!(e.raw_fields.get("src").unwrap(), "10.1.2.3");
    assert_eq!(e.raw_fields.get("raw").unwrap(), "Failed login for user=Admin from src=10.1.2.3 dst=server1");
    assert_eq!(e.score_bits, 0);
}

#[test]
fn normaliser_aliases_and_defaults() {
    let n = Normaliser::new();
    let e = n.parse("user=DOMAIN\\admin escalation attempt").unwrap();
    assert_eq!(e.event_type, EventType::Escalate);
    assert_eq!(e.src_entity.key, "user:admin");
    assert_eq!(e.dst_entity.key, "user:unknown");
    let f = n.parse("bob@corp.com accessed payroll.xlsx successfully").unwrap();
    assert_eq!(f.event_type, EventType::Access);
    assert_eq!(f.src_entity.key, "user:bob@corp.com");
    assert_eq!(f.raw_fields.get("status").unwrap(), "success");
    let g = n.parse("nothing to see").unwrap();
    assert_eq!(g.event_type, EventType::Login);
    assert!(g.raw_fields.get("type").is_none());
    assert_eq!(g.raw_fields.get("dst").unwrap(), "unknown");
}

#[test]
fn entity_kinds_are_guessed() {
    assert_eq!(detect_entity_kind("a@b"), EntityKind::User);
    assert_eq!(detect_entity_kind("DOM\\x"), EntityKind::User);
    assert_eq!(detect_entity_kind("192.168.1.7"), EntityKind::IP);
    assert_eq!(detect_entity_kind("::1"), EntityKind::IP);
    assert_eq!(detect_entity_kind("device:pc1"), EntityKind::Device);
    assert_eq!(detect_entity_kind("host:pc1"), EntityKind::Device);
    assert_eq!(detect_entity_kind("process:sh"), EntityKind::Process);
    assert_eq!(detect_entity_kind("file:/tmp/x"), EntityKind::File);
    assert_eq!(detect_entity_kind("bob"), EntityKind::User);
}

#[test]
fn loaded_indicators_are_flagged() {
    let mut f = IocFilter::new();
    let quiet = CanonicalEvent::new(Entity::ip("1.2.3.4"), Entity::device("pc"), EventType::Connect, FieldMap::new());
    // nothing recorded yet: nothing is flagged
    assert!(!f.evaluate_ioc(&quiet));
    f.load_ioc_list("# known bad\n1.2.3.4\n\n   evil.example  \n#5.6.7.8\n");
    assert!(f.evaluate_ioc(&quiet));
    let out = CanonicalEvent::new(Entity::device("pc"), Entity::ip("evil.example"), EventType::Connect, FieldMap::new());
    assert!(f.evaluate_ioc(&out));
}

#[test]
fn indicator_lookup_steps() {
    assert!(is_private_ip("10.0.0.1"));
    assert!(is_private_ip("192.168.3.4"));
    assert!(is_private_ip("172.16.0.9"));
    assert!(is_private_ip("127.0.0.1"));
    assert!(is_private_ip("localhost"));
    assert!(!is_private_ip("172.17.0.1"));
    assert!(!is_private_ip("8.8.8.8"));
    assert_eq!(check_ioc_step("10.0.0.1", Some(7), true), IocStep::Answer(0));
    assert_eq!(check_ioc_step("8.8.8.8", Some(0.5f32.to_bits()), true), IocStep::Answer(0.5f32.to_bits()));
    assert_eq!(check_ioc_step("8.8.8.8", None, false), IocStep::Answer(0));
    assert_eq!(check_ioc_step("8.8.8.8", None, true), IocStep::AskService);
    assert_eq!(
        abuseipdb_url("8.8.8.8"),
        "https://api.abuseipdb.com/api/v2/check?ipAddress=8.8.8.8&maxAgeInDays=30"
    );
}

#[test]
fn unknown_lines_change_nothing() {
    let plain = SigmaRule::parse_yaml("title: Port Scan\nseverity: low\nthreshold: 3").unwrap();
    let noisy = SigmaRule::parse_yaml("# comment\ntitle: Port Scan\ndescription: many ports\n  category: net\nseverity: low\n\nthreshold: 3\nauthor: x").unwrap();
    assert_eq!(plain.id, "port_scan");
    assert_eq!(noisy.id, plain.id);
    assert_eq!(noisy.title, plain.title);
    assert_eq!(noisy.logsource_category, plain.logsource_category);
    assert_eq!(noisy.condition, plain.condition);
    assert_eq!(noisy.threshold, plain.threshold);
    assert_eq!(noisy.timewindow, plain.timewindow);
    assert_eq!(noisy.severity, plain.severity);
}
