use soc_core::fields::FieldMap;
use soc_core::resolver::{Config, EntityResolver, ResolverError};
use soc_core::shared::EntityKind;

#[test]
fn test_username_normalization() {
    let config = Config {
        aliases: {
            let mut m = FieldMap::new();
            m.insert("ADMIN".to_string(), "user:admin".to_string());
            m.insert("DOMAIN\\ADMIN".to_string(), "user:admin".to_string());
            m
        },
        cidr_groups: FieldMap::new(),
    };

    let resolver = EntityResolver::from_config(&config).unwrap();

    assert_eq!(resolver.normalize_username("admin"), "user:admin");
    assert_eq!(resolver.normalize_username("ADMIN"), "user:admin");
    assert_eq!(resolver.normalize_username("Domain\\admin"), "user:admin");
    assert_eq!(resolver.normalize_username("john"), "user:john");
}

#[test]
fn test_ip_normalization() {
    let config = Config {
        aliases: FieldMap::new(),
        cidr_groups: {
            let mut m = FieldMap::new();
            m.insert("10.0.0.0/8".to_string(), "subnet:internal-a".to_string());
            m
        },
    };

    let resolver = EntityResolver::from_config(&config).unwrap();

    assert_eq!(
        resolver.normalize_ip("10.1.2.3").unwrap().key,
        "subnet:internal-a"
    );
    assert_eq!(
        resolver.normalize_ip("192.168.1.1").unwrap().key,
        "ip:192.168.1.1"
    );
}

fn groups(pairs: &[(&str, &str)]) -> Config {
    let mut m = FieldMap::new();
    for (k, v) in pairs {
        m.insert(k.to_string(), v.to_string());
    }
    Config { aliases: FieldMap::new(), cidr_groups: m }
}

#[test]
fn longest_prefix_wins() {
    let r = EntityResolver::from_config(&groups(&[
        ("10.0.0.0/8", "subnet:wide"),
        ("10.1.0.0/16", "subnet:narrow"),
        ("10.1.2.3", "host:exact"),
    ]))
    .unwrap();
    assert_eq!(r.normalize_ip("10.1.2.3").unwrap().key, "host:exact");
    assert_eq!(r.normalize_ip("10.1.9.9").unwrap().key, "subnet:narrow");
    assert_eq!(r.normalize_ip("10.2.0.1").unwrap().key, "subnet:wide");
    assert_eq!(r.normalize_ip("11.0.0.1").unwrap().key, "ip:11.0.0.1");
}

#[test]
fn ipv6_groups_and_family_mismatch() {
    let r = EntityResolver::from_config(&groups(&[("fd00::/8", "subnet:ula"), ("0.0.0.0/0", "subnet:any4")]))
        .unwrap();
    assert_eq!(r.normalize_ip("fd12::1").unwrap().key, "subnet:ula");
    assert_eq!(r.normalize_ip("2001:db8::1").unwrap().key, "ip:2001:db8::1");
    assert_eq!(r.normalize_ip("8.8.8.8").unwrap().key, "subnet:any4");
}

#[test]
fn not_an_address() {
    let r = EntityResolver::from_config(&groups(&[])).unwrap();
    assert!(r.normalize_ip("not-an-ip").is_none());
    assert!(r.normalize_ip("10.0.0.0/8").is_none());
    assert!(r.normalize_ip("10.1").is_none());
    let e = r.resolve(&EntityKind::IP, "bogus");
    assert_eq!(e.kind, EntityKind::IP);
    assert_eq!(e.key, "ip:bogus");
}

#[test]
fn bad_network_is_a_config_error() {
    match EntityResolver::from_config(&groups(&[("10.0.0.0/8", "a"), ("300.1.1.1/8", "b")])) {
        Err(ResolverError::ConfigError(m)) => {
            assert_eq!(m, "Invalid CIDR 300.1.1.1/8: invalid address: 300.1.1.1/8")
        }
        _ => panic!("expected a configuration error"),
    }
    let mut aliases = FieldMap::new();
    aliases.insert("x".to_string(), "y".to_string());
    let pairs = vec![("10.0.0.0/33".to_string(), "g".to_string())];
    assert!(matches!(EntityResolver::new(aliases, pairs), Err(ResolverError::ConfigError(_))));
}

#[test]
fn resolve_each_kind() {
    let mut aliases = FieldMap::new();
    aliases.insert("ROOT".to_string(), "user:admin".to_string());
    let r = EntityResolver::from_config(&Config { aliases, cidr_groups: FieldMap::new() }).unwrap();
    assert_eq!(r.resolve(&EntityKind::User, "root").key, "user:admin");
    assert_eq!(r.resolve(&EntityKind::User, "Bob").key, "user:bob");
    assert_eq!(r.resolve(&EntityKind::IP, "1.2.3.4").key, "ip:1.2.3.4");
    assert_eq!(r.resolve(&EntityKind::Device, "pc1").key, "device:pc1");
    assert_eq!(r.resolve(&EntityKind::Process, "sh").key, "process:sh");
    assert_eq!(r.resolve(&EntityKind::File, "/etc/passwd").key, "file:/etc/passwd");
    let empty = EntityResolver::empty();
    assert_eq!(empty.normalize_username("X"), "user:x");
}

#[test]
fn config_text_is_parsed() {
    let text = "# settings\n[aliases]\nADMIN = \"user:admin\"\nROOT = user:root\nADMIN = user:boss\n\n[cidr_groups]\n10.0.0.0/8 = \"subnet:internal-a\"\n[other]\nx = y\nnot a pair\n";
    let c = Config::parse(text).unwrap();
    assert_eq!(c.aliases.len(), 2);
    assert_eq!(c.aliases.get("ADMIN").unwrap(), "user:boss");
    assert_eq!(c.aliases.get("ROOT").unwrap(), "user:root");
    assert_eq!(c.cidr_groups.len(), 1);
    assert_eq!(c.cidr_groups.get("10.0.0.0/8").unwrap(), "subnet:internal-a");
    let r = EntityResolver::from_config(&c).unwrap();
    assert_eq!(r.normalize_username("admin"), "user:boss");
}

#[test]
fn equal_prefixes_keep_configured_order() {
    let r = EntityResolver::from_config(&groups(&[
        ("10.0.0.0/8", "subnet:first"),
        ("10.0.0.0/16", "subnet:narrow"),
        ("10.9.0.0/8", "subnet:second"),
    ]))
    .unwrap();
    assert_eq!(r.normalize_ip("10.5.5.5").unwrap().key, "subnet:first");
    assert_eq!(r.normalize_ip("10.0.5.5").unwrap().key, "subnet:narrow");
}

#[test]
fn first_bad_network_is_named() {
    match EntityResolver::from_config(&groups(&[("bad-one", "a"), ("bad-two", "b")])) {
        Err(ResolverError::ConfigError(m)) => assert_eq!(m, "Invalid CIDR bad-one: invalid address: bad-one"),
        _ => panic!("expected a configuration error"),
    }
}
