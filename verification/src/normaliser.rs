//! Turns raw log lines into canonical events.

use vstd::prelude::*;
use vstd::string::StringExecFns;
use crate::fields::{Entries, FieldMap, insert_entry, lookup};
use crate::resolver::{
    EntityResolver, GroupEntry, by_prefix_desc, ip_parse, parse_groups, parse_ip, resolved_key,
    upper_aliases,
};
use crate::shared::{CanonicalEvent, Entity, EntityKind, EventType, event_type_named};
use crate::text::{
    chars_of, contains, contains_chars, has_char, lowercase, starts_with, string_of, sub_chars,
    views, words, words_chars,
};

verus! {

/// Errors of log collection.
#[derive(Clone, Debug)]
pub enum CollectError {
    ParseError(String),
    NormalisationError(String),
}

/// The built-in alias table of the normaliser.
pub open spec fn default_aliases() -> Entries {
    insert_entry(
        insert_entry(
            insert_entry(Seq::empty(), "ADMIN"@, "user:admin"@),
            "DOMAIN\\admin"@,
            "user:admin"@,
        ),
        "ADMINISTRATOR"@,
        "user:admin"@,
    )
}

/// The built-in network groups of the normaliser.
pub open spec fn default_cidr_groups() -> Entries {
    insert_entry(
        insert_entry(
            insert_entry(Seq::empty(), "10.0.0.0/8"@, "subnet:internal-a"@),
            "192.168.0.0/16"@,
            "subnet:internal-b"@,
        ),
        "172.16.0.0/12"@,
        "subnet:internal-c"@,
    )
}

/// The kind of entity a raw key names: a user when it holds `@` or `\`,
/// an IP when it is an address, a device for `device:`/`host:`, a process
/// for `process:`, a file for `file:`, and a user otherwise.
pub open spec fn entity_kind_of(key: Seq<char>) -> EntityKind {
    if key.contains('@') || key.contains('\\') {
        EntityKind::User
    } else if ip_parse(key) is Some {
        EntityKind::IP
    } else if "device:"@.is_prefix_of(key) || "host:"@.is_prefix_of(key) {
        EntityKind::Device
    } else if "process:"@.is_prefix_of(key) {
        EntityKind::Process
    } else if "file:"@.is_prefix_of(key) {
        EntityKind::File
    } else {
        EntityKind::User
    }
}

/// The event type that the wording of a lowercased log line suggests.
pub open spec fn type_field(lower: Seq<char>) -> Option<Seq<char>> {
    if contains(lower, "login"@) || contains(lower, "logon"@) || contains(lower, "auth"@) {
        Some("login"@)
    } else if contains(lower, "spawn"@) || contains(lower, "exec"@) {
        Some("spawn"@)
    } else if contains(lower, "connect"@) || contains(lower, "network"@) {
        Some("connect"@)
    } else if contains(lower, "access"@) || contains(lower, "read"@) {
        Some("access"@)
    } else if contains(lower, "escalat"@) || contains(lower, "privilege"@) {
        Some("escalate"@)
    } else {
        None
    }
}

/// The status that the wording of a lowercased log line suggests.
pub open spec fn status_field(lower: Seq<char>) -> Option<Seq<char>> {
    if contains(lower, "failed"@) || contains(lower, "failure"@) {
        Some("failed"@)
    } else if contains(lower, "success"@) {
        Some("success"@)
    } else {
        None
    }
}

/// The fields after reading one word of a log line: a word with `@` is the
/// source, `src=`/`user=` give the source and `dst=` the destination.
pub open spec fn word_field(fs: Entries, w: Seq<char>) -> Entries {
    if w.contains('@') {
        insert_entry(fs, "src"@, w)
    } else if "src="@.is_prefix_of(w) {
        insert_entry(fs, "src"@, w.subrange(4, w.len() as int))
    } else if "dst="@.is_prefix_of(w) {
        insert_entry(fs, "dst"@, w.subrange(4, w.len() as int))
    } else if "user="@.is_prefix_of(w) {
        insert_entry(fs, "src"@, w.subrange(5, w.len() as int))
    } else {
        fs
    }
}

/// The fields after reading the given words in turn.
pub open spec fn words_fields(fs: Entries, ws: Seq<Seq<char>>) -> Entries
    decreases ws.len(),
{
    if ws.len() == 0 {
        fs
    } else {
        word_field(words_fields(fs, ws.drop_last()), ws.last())
    }
}

/// `fs` with `v` stored under `k` unless `k` already has a value.
pub open spec fn with_default(fs: Entries, k: Seq<char>, v: Seq<char>) -> Entries {
    if lookup(fs, k) is Some {
        fs
    } else {
        insert_entry(fs, k, v)
    }
}

/// The fields read from a raw log line.
pub open spec fn extracted_fields(raw: Seq<char>) -> Entries {
    let lower = lowercase(raw);
    let f0: Entries = Seq::empty();
    let f1 = match type_field(lower) {
        Some(t) => insert_entry(f0, "type"@, t),
        None => f0,
    };
    let f2 = match status_field(lower) {
        Some(st) => insert_entry(f1, "status"@, st),
        None => f1,
    };
    let f3 = words_fields(f2, words(raw));
    with_default(with_default(f3, "src"@, "unknown"@), "dst"@, "unknown"@)
}

/// The value of `k`, or `d` when there is none.
pub open spec fn field_or(fs: Entries, k: Seq<char>, d: Seq<char>) -> Seq<char> {
    match lookup(fs, k) {
        Some(v) => v,
        None => d,
    }
}

/// The raw fields recorded with an event: the whole line under `raw`, then
/// the extracted fields.
pub open spec fn recorded_fields(raw: Seq<char>) -> Entries {
    crate::fields::insert_all(insert_entry(Seq::empty(), "raw"@, raw), extracted_fields(raw))
}

/// The event type of a parsed line: the one its `type` field names, else login.
pub open spec fn parsed_event_type(raw: Seq<char>) -> EventType {
    match event_type_named(lowercase(field_or(extracted_fields(raw), "type"@, "login"@))) {
        Some(t) => t,
        None => EventType::Login,
    }
}

/// Normalises raw log lines with a resolver.
pub struct Normaliser {
    resolver: EntityResolver,
}

impl Normaliser {
    /// The alias table of the resolver in use.
    pub closed spec fn aliases(&self) -> Entries {
        self.resolver.alias_view()
    }

    /// The network groups of the resolver in use.
    pub closed spec fn groups(&self) -> Seq<GroupEntry> {
        self.resolver.group_list()
    }

    /// The resolver is well formed.
    pub closed spec fn wf(&self) -> bool {
        self.resolver.wf()
    }

    /// A normaliser with the built-in aliases and network groups, or with
    /// no aliases and no groups when the built-in networks do not parse.
    pub fn new() -> (r: Normaliser)
        ensures
            r.wf(),
            match parse_groups(default_cidr_groups()) {
                Ok(gs) => r.aliases() == upper_aliases(default_aliases()) && r.groups()
                    == by_prefix_desc(gs, 128),
                Err(_) => r.aliases() == Seq::<(Seq<char>, Seq<char>)>::empty() && r.groups()
                    == Seq::<GroupEntry>::empty(),
            },
    {
        let mut aliases = FieldMap::new();
        aliases.insert(String::from_str("ADMIN"), String::from_str("user:admin"));
        aliases.insert(String::from_str("DOMAIN\\admin"), String::from_str("user:admin"));
        aliases.insert(String::from_str("ADMINISTRATOR"), String::from_str("user:admin"));
        let mut cidr_groups = FieldMap::new();
        cidr_groups.insert(String::from_str("10.0.0.0/8"), String::from_str("subnet:internal-a"));
        cidr_groups.insert(String::from_str("192.168.0.0/16"), String::from_str("subnet:internal-b"));
        cidr_groups.insert(String::from_str("172.16.0.0/12"), String::from_str("subnet:internal-c"));
        let config = crate::resolver::Config { aliases, cidr_groups };
        let resolver = match EntityResolver::from_config(&config) {
            Ok(r) => r,
            Err(_) => EntityResolver::empty(),
        };
        Normaliser { resolver }
    }

    /// The canonical event for a raw log line. The fields are read from the
    /// wording and the `key=value` words of the line; the source and
    /// destination default to `unknown` and the type to login; each entity
    /// is resolved after its kind is guessed from its key.
    pub fn parse(&self, raw_log: &str) -> (r: Result<CanonicalEvent, CollectError>)
        requires
            self.wf(),
        ensures
            r matches Ok(e) && {
                let fs = extracted_fields(raw_log@);
                let src = field_or(fs, "src"@, "unknown"@);
                let dst = field_or(fs, "dst"@, "unknown"@);
                &&& e.src_entity.kind == entity_kind_of(src)
                &&& e.src_entity.key@ == resolved_key(self.aliases(), self.groups(), entity_kind_of(src), src)
                &&& e.dst_entity.kind == entity_kind_of(dst)
                &&& e.dst_entity.key@ == resolved_key(self.aliases(), self.groups(), entity_kind_of(dst), dst)
                &&& e.event_type == parsed_event_type(raw_log@)
                &&& e.raw_fields@ == recorded_fields(raw_log@)
                &&& e.timestamp.wf()
                &&& e.score_bits == 0
            },
    {
        let fields = self.extract_fields(raw_log);
        let src_key = match fields.get("src") {
            Some(v) => v.clone(),
            None => String::from_str("unknown"),
        };
        let dst_key = match fields.get("dst") {
            Some(v) => v.clone(),
            None => String::from_str("unknown"),
        };
        let type_str = match fields.get("type") {
            Some(v) => v.clone(),
            None => String::from_str("login"),
        };
        let event_type = match EventType::from_str(type_str.as_str()) {
            Some(t) => t,
            None => EventType::Login,
        };
        let src_kind = detect_entity_kind(src_key.as_str());
        let dst_kind = detect_entity_kind(dst_key.as_str());
        let src_entity = self.resolver.resolve(&src_kind, src_key.as_str());
        let dst_entity = self.resolver.resolve(&dst_kind, dst_key.as_str());
        let mut raw_fields = FieldMap::new();
        raw_fields.insert(String::from_str("raw"), String::from_str(raw_log));
        let ghost start = raw_fields@;
        let mut i: usize = 0;
        assert(fields@.subrange(0, 0) =~= Seq::<(Seq<char>, Seq<char>)>::empty());
        while i < fields.len()
            invariant
                i <= fields@.len(),
                raw_fields@ == crate::fields::insert_all(start, fields@.subrange(0, i as int)),
            decreases fields@.len() - i,
        {
            proof {
                crate::fields::lemma_insert_all_push(start, fields@.subrange(0, i as int), fields@[i as int]);
                assert(fields@.subrange(0, i as int).push(fields@[i as int]) =~= fields@.subrange(0, i + 1));
            }
            raw_fields.insert(fields.key_at(i).clone(), fields.value_at(i).clone());
            i = i + 1;
        }
        assert(fields@.subrange(0, fields@.len() as int) =~= fields@);
        Ok(CanonicalEvent::new(src_entity, dst_entity, event_type, raw_fields))
    }

    /// The fields of a raw log line.
    fn extract_fields(&self, raw_log: &str) -> (r: FieldMap)
        ensures
            r@ == extracted_fields(raw_log@),
    {
        let mut fields = FieldMap::new();
        let lower_s = raw_log.to_lowercase();
        let lower = chars_of(lower_s.as_str());
        if contains_chars(&lower, &chars_of("login")) || contains_chars(&lower, &chars_of("logon"))
            || contains_chars(&lower, &chars_of("auth")) {
            fields.insert(String::from_str("type"), String::from_str("login"));
        } else if contains_chars(&lower, &chars_of("spawn")) || contains_chars(&lower, &chars_of("exec")) {
            fields.insert(String::from_str("type"), String::from_str("spawn"));
        } else if contains_chars(&lower, &chars_of("connect")) || contains_chars(
            &lower,
            &chars_of("network"),
        ) {
            fields.insert(String::from_str("type"), String::from_str("connect"));
        } else if contains_chars(&lower, &chars_of("access")) || contains_chars(&lower, &chars_of("read")) {
            fields.insert(String::from_str("type"), String::from_str("access"));
        } else if contains_chars(&lower, &chars_of("escalat")) || contains_chars(
            &lower,
            &chars_of("privilege"),
        ) {
            fields.insert(String::from_str("type"), String::from_str("escalate"));
        }
        if contains_chars(&lower, &chars_of("failed")) || contains_chars(&lower, &chars_of("failure")) {
            fields.insert(String::from_str("status"), String::from_str("failed"));
        } else if contains_chars(&lower, &chars_of("success")) {
            fields.insert(String::from_str("status"), String::from_str("success"));
        }
        let ghost f2 = fields@;
        let raw = chars_of(raw_log);
        let parts = words_chars(&raw);
        let ghost ws = views(parts@);
        let src_p = chars_of("src=");
        let dst_p = chars_of("dst=");
        let user_p = chars_of("user=");
        let mut i: usize = 0;
        assert(ws.subrange(0, 0) =~= Seq::<Seq<char>>::empty());
        while i < parts.len()
            invariant
                ws == views(parts@),
                ws == words(raw_log@),
                src_p@ == "src="@,
                dst_p@ == "dst="@,
                user_p@ == "user="@,
                i <= parts.len(),
                fields@ == words_fields(f2, ws.subrange(0, i as int)),
            decreases parts.len() - i,
        {
            proof {
                reveal_strlit("src=");
                reveal_strlit("dst=");
                reveal_strlit("user=");
                assert(ws.subrange(0, i + 1).drop_last() =~= ws.subrange(0, i as int));
                assert(ws.subrange(0, i + 1).last() == parts@[i as int]@);
            }
            let part = &parts[i];
            if has_char(part, '@') {
                fields.insert(String::from_str("src"), string_of(part));
            } else if starts_with(part, &src_p) {
                fields.insert(String::from_str("src"), string_of(&sub_chars(part, 4, part.len())));
            } else if starts_with(part, &dst_p) {
                fields.insert(String::from_str("dst"), string_of(&sub_chars(part, 4, part.len())));
            } else if starts_with(part, &user_p) {
                fields.insert(String::from_str("src"), string_of(&sub_chars(part, 5, part.len())));
            }
            i = i + 1;
        }
        assert(ws.subrange(0, parts.len() as int) =~= ws);
        if !fields.contains_key("src") {
            fields.insert(String::from_str("src"), String::from_str("unknown"));
        }
        if !fields.contains_key("dst") {
            fields.insert(String::from_str("dst"), String::from_str("unknown"));
        }
        fields
    }
}

/// The kind of entity a raw key names.
pub fn detect_entity_kind(key: &str) -> (r: EntityKind)
    ensures
        r == entity_kind_of(key@),
{
    let k = chars_of(key);
    if has_char(&k, '@') || has_char(&k, '\\') {
        EntityKind::User
    } else if parse_ip(key).is_some() {
        EntityKind::IP
    } else if starts_with(&k, &chars_of("device:")) || starts_with(&k, &chars_of("host:")) {
        EntityKind::Device
    } else if starts_with(&k, &chars_of("process:")) {
        EntityKind::Process
    } else if starts_with(&k, &chars_of("file:")) {
        EntityKind::File
    } else {
        EntityKind::User
    }
}

proof fn lemma_words_keep(fs: Entries, ws: Seq<Seq<char>>, k: Seq<char>)
    requires
        k != "src"@,
        k != "dst"@,
    ensures
        lookup(words_fields(fs, ws), k) == lookup(fs, k),
        crate::fields::distinct_keys(fs) ==> crate::fields::distinct_keys(words_fields(fs, ws)),
    decreases ws.len(),
{
    if ws.len() > 0 {
        let d = words_fields(fs, ws.drop_last());
        let w = ws.last();
        lemma_words_keep(fs, ws.drop_last(), k);
        crate::fields::law_lookup_after_insert(d, "src"@, w);
        crate::fields::law_lookup_after_insert(d, "dst"@, w.subrange(4, w.len() as int));
        crate::fields::law_lookup_after_insert(d, "src"@, w.subrange(4, w.len() as int));
        crate::fields::law_lookup_after_insert(d, "src"@, w.subrange(5, w.len() as int));
        if crate::fields::distinct_keys(d) {
            crate::fields::law_insert_keeps_keys_distinct(d, "src"@, w);
            crate::fields::law_insert_keeps_keys_distinct(d, "dst"@, w.subrange(4, w.len() as int));
            crate::fields::law_insert_keeps_keys_distinct(d, "src"@, w.subrange(4, w.len() as int));
            crate::fields::law_insert_keeps_keys_distinct(d, "src"@, w.subrange(5, w.len() as int));
        }
    }
}

/// The type and status fields a raw line records are those that
/// `extracted_fields` holds: the ones its wording suggests.
proof fn lemma_recorded_type(raw: Seq<char>)
    ensures
        lookup(recorded_fields(raw), "type"@) == type_field(lowercase(raw)),
        lookup(extracted_fields(raw), "type"@) == type_field(lowercase(raw)),
        lookup(recorded_fields(raw), "status"@) == status_field(lowercase(raw)),
{
    reveal_strlit("type");
    reveal_strlit("status");
    reveal_strlit("src");
    reveal_strlit("dst");
    reveal_strlit("raw");
    assert("src"@ != "type"@) by {
        assert("src"@.len() != "type"@.len());
    }
    assert("dst"@ != "type"@) by {
        assert("dst"@.len() != "type"@.len());
    }
    assert("status"@ != "type"@) by {
        assert("status"@.len() != "type"@.len());
    }
    assert("raw"@ != "type"@) by {
        assert("raw"@.len() != "type"@.len());
    }
    assert("src"@ != "status"@) by {
        assert("src"@.len() != "status"@.len());
    }
    assert("dst"@ != "status"@) by {
        assert("dst"@.len() != "status"@.len());
    }
    assert("raw"@ != "status"@) by {
        assert("raw"@.len() != "status"@.len());
    }
    let lower = lowercase(raw);
    let f0: Entries = Seq::empty();
    crate::text::lemma_first_where(f0, crate::fields::has_key("type"@));
    crate::text::lemma_first_where(f0, crate::fields::has_key("status"@));
    let f1 = match type_field(lower) {
        Some(t) => insert_entry(f0, "type"@, t),
        None => f0,
    };
    match type_field(lower) {
        Some(t) => {
            crate::fields::law_lookup_after_insert(f0, "type"@, t);
            crate::fields::law_insert_keeps_keys_distinct(f0, "type"@, t);
        },
        None => {},
    }
    let f2 = match status_field(lower) {
        Some(st) => insert_entry(f1, "status"@, st),
        None => f1,
    };
    match status_field(lower) {
        Some(st) => {
            crate::fields::law_lookup_after_insert(f1, "status"@, st);
            crate::fields::law_insert_keeps_keys_distinct(f1, "status"@, st);
        },
        None => {},
    }
    assert(lookup(f0, "status"@) is None);
    assert(lookup(f0, "type"@) is None);
    assert(lookup(f1, "status"@) is None);
    assert(lookup(f2, "status"@) == status_field(lower));
    assert(lookup(f2, "type"@) == type_field(lower));
    let ws = crate::text::words(raw);
    let f3 = words_fields(f2, ws);
    lemma_words_keep(f2, ws, "type"@);
    lemma_words_keep(f2, ws, "status"@);
    let f4 = with_default(f3, "src"@, "unknown"@);
    crate::fields::law_lookup_after_insert(f3, "src"@, "unknown"@);
    crate::fields::law_insert_keeps_keys_distinct(f3, "src"@, "unknown"@);
    crate::fields::law_lookup_after_insert(f4, "dst"@, "unknown"@);
    crate::fields::law_insert_keeps_keys_distinct(f4, "dst"@, "unknown"@);
    let ex = extracted_fields(raw);
    assert(ex == with_default(f4, "dst"@, "unknown"@));
    assert(lookup(f3, "status"@) == status_field(lower));
    assert(lookup(f4, "status"@) == status_field(lower));
    assert(lookup(ex, "status"@) == status_field(lower));
    assert(lookup(ex, "type"@) == type_field(lower));
    assert(crate::fields::distinct_keys(ex));
    let e0 = Seq::<(Seq<char>, Seq<char>)>::empty();
    let r0 = insert_entry(e0, "raw"@, raw);
    crate::fields::lemma_insert_all_lookup(r0, ex, "type"@);
    crate::fields::lemma_insert_all_lookup(r0, ex, "status"@);
    crate::fields::law_lookup_after_insert(e0, "raw"@, raw);
    crate::text::lemma_first_where(e0, crate::fields::has_key("type"@));
    crate::text::lemma_first_where(e0, crate::fields::has_key("status"@));
    assert(lookup(r0, "status"@) is None);
    assert(lookup(r0, "type"@) is None);
}

proof fn lemma_type_names()
    ensures
        lowercase("login"@) == "login"@ && event_type_named("login"@) == Some(EventType::Login),
        lowercase("spawn"@) == "spawn"@ && event_type_named("spawn"@) == Some(EventType::Spawn),
        lowercase("connect"@) == "connect"@ && event_type_named("connect"@) == Some(EventType::Connect),
        lowercase("access"@) == "access"@ && event_type_named("access"@) == Some(EventType::Access),
        lowercase("escalate"@) == "escalate"@ && event_type_named("escalate"@) == Some(EventType::Escalate),
{
    reveal_strlit("login");
    reveal_strlit("spawn");
    reveal_strlit("connect");
    reveal_strlit("access");
    reveal_strlit("escalate");
    assert("login"@.map_values(|c: char| crate::text::ascii_lower_char(c)) =~= "login"@);
    assert("spawn"@.map_values(|c: char| crate::text::ascii_lower_char(c)) =~= "spawn"@);
    assert("connect"@.map_values(|c: char| crate::text::ascii_lower_char(c)) =~= "connect"@);
    assert("access"@.map_values(|c: char| crate::text::ascii_lower_char(c)) =~= "access"@);
    assert("escalate"@.map_values(|c: char| crate::text::ascii_lower_char(c)) =~= "escalate"@);
    assert("login"@[0] != "spawn"@[0] && "login"@[0] != "access"@[0] && "spawn"@[0] != "access"@[0]);
    assert("login"@.len() != "connect"@.len() && "spawn"@.len() != "connect"@.len() && "access"@.len()
        != "connect"@.len());
    assert("login"@.len() != "escalate"@.len() && "spawn"@.len() != "escalate"@.len() && "access"@.len()
        != "escalate"@.len() && "connect"@.len() != "escalate"@.len());
}

/// A raw line's event type comes from its wording (lowercased), the first
/// group that occurs deciding: `login`/`logon`/`auth` give a login,
/// `spawn`/`exec` a spawn, `connect`/`network` a connection, `access`/`read`
/// an access, `escalat`/`privilege` an escalation; the event records that
/// type under `type`. A line with none of these words records no type and
/// is a login.
pub proof fn law_event_type_from_wording(raw: Seq<char>)
    ensures
        ({
            let lower = lowercase(raw);
            let t = lookup(recorded_fields(raw), "type"@);
            let login = contains(lower, "login"@) || contains(lower, "logon"@) || contains(lower, "auth"@);
            let spawn = contains(lower, "spawn"@) || contains(lower, "exec"@);
            let connect = contains(lower, "connect"@) || contains(lower, "network"@);
            let access = contains(lower, "access"@) || contains(lower, "read"@);
            let escalate = contains(lower, "escalat"@) || contains(lower, "privilege"@);
            &&& login ==> t == Some("login"@) && parsed_event_type(raw) == EventType::Login
            &&& !login && spawn ==> t == Some("spawn"@) && parsed_event_type(raw) == EventType::Spawn
            &&& !login && !spawn && connect ==> t == Some("connect"@) && parsed_event_type(raw) == EventType::Connect
            &&& !login && !spawn && !connect && access ==> t == Some("access"@) && parsed_event_type(raw)
                == EventType::Access
            &&& !login && !spawn && !connect && !access && escalate ==> t == Some("escalate"@) && parsed_event_type(raw)
                == EventType::Escalate
            &&& !login && !spawn && !connect && !access && !escalate ==> t is None && parsed_event_type(raw)
                == EventType::Login
        }),
{
    lemma_recorded_type(raw);
    lemma_type_names();
}

/// A raw line's status comes from its wording (lowercased): `failed` or
/// `failure` record the status `failed`, otherwise `success` records
/// `success`, and a line with none of these words records no status.
pub proof fn law_status_from_wording(raw: Seq<char>)
    ensures
        ({
            let lower = lowercase(raw);
            let st = lookup(recorded_fields(raw), "status"@);
            let failed = contains(lower, "failed"@) || contains(lower, "failure"@);
            &&& failed ==> st == Some("failed"@)
            &&& !failed && contains(lower, "success"@) ==> st == Some("success"@)
            &&& !failed && !contains(lower, "success"@) ==> st is None
        }),
{
    lemma_recorded_type(raw);
}

} // verus!
