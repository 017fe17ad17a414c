//! Events fed in as JSON lines: which lines carry events, how a parsed
//! record becomes a canonical event, and the record sent on to the API.

use vstd::prelude::*;
use vstd::string::StringExecFns;
use crate::fields::{Entries, FieldMap, insert_entry};
use crate::shared::{CanonicalEvent, Entity, EntityKind, EventType, event_type_name, kind_name};
use crate::text::{chars_of, decimal, lowercase, str_eq, string_of, trim, trim_chars, u64_text};

verus! {

/// The fields of an input record (every one may be missing).
#[derive(Clone, Debug)]
pub struct JsonEvent {
    pub timestamp: Option<String>,
    pub event_type: Option<String>,
    pub username: Option<String>,
    pub source_ip: Option<String>,
    pub source_host: Option<String>,
    pub destination_host: Option<String>,
    pub destination_ip: Option<String>,
    pub destination_port: Option<u16>,
    pub source_port: Option<u16>,
    pub status: Option<String>,
    pub process_name: Option<String>,
    pub command_line: Option<String>,
    pub bytes_sent: Option<u64>,
    pub direction: Option<String>,
}

/// The text of an input line that may hold a record: the trimmed line,
/// unless it is empty or a comment (starting with `#`).
pub open spec fn line_body(line: Seq<char>) -> Option<Seq<char>> {
    let t = trim(line);
    if t.len() == 0 || t[0] == '#' {
        None
    } else {
        Some(t)
    }
}

/// The text of an input line that may hold a record.
pub fn event_line_body(line: &str) -> (r: Option<String>)
    ensures
        match r {
            Some(t) => line_body(line@) == Some(t@),
            None => line_body(line@) is None,
        },
{
    let t = trim_chars(&chars_of(line));
    if t.len() == 0 || t[0] == '#' {
        None
    } else {
        Some(string_of(&t))
    }
}

/// The view of an optional string.
pub open spec fn ov(o: Option<String>) -> Option<Seq<char>> {
    match o {
        Some(s) => Some(s@),
        None => None,
    }
}

/// The source entity of a record: its user, else its source address, else
/// its source host, else the unknown user.
pub open spec fn json_source(ev: JsonEvent) -> (EntityKind, Seq<char>) {
    if ev.username is Some {
        (EntityKind::User, "user:"@ + lowercase(ov(ev.username)->0))
    } else if ev.source_ip is Some {
        (EntityKind::IP, "ip:"@ + ov(ev.source_ip)->0)
    } else if ev.source_host is Some {
        (EntityKind::Device, "device:"@ + ov(ev.source_host)->0)
    } else {
        (EntityKind::User, "user:unknown"@)
    }
}

/// The destination entity of a record: its destination host, else its
/// destination address, else the unknown device.
pub open spec fn json_destination(ev: JsonEvent) -> (EntityKind, Seq<char>) {
    if ev.destination_host is Some {
        (EntityKind::Device, "device:"@ + ov(ev.destination_host)->0)
    } else if ev.destination_ip is Some {
        (EntityKind::IP, "ip:"@ + ov(ev.destination_ip)->0)
    } else {
        (EntityKind::Device, "device:unknown"@)
    }
}

/// The event type a record's type name stands for (login by default).
pub open spec fn json_event_type(name: Option<Seq<char>>) -> EventType {
    match name {
        Some(n) => if n == "login_success"@ || n == "login_failed"@ {
            EventType::Login
        } else if n == "connect"@ || n == "port_scan"@ {
            EventType::Connect
        } else if n == "access"@ {
            EventType::Access
        } else if n == "escalate"@ {
            EventType::Escalate
        } else if n == "process_spawn"@ || n == "spawn"@ {
            EventType::Spawn
        } else {
            EventType::Login
        },
        None => EventType::Login,
    }
}

/// `fs` with `v` stored under `k` when `v` is present.
pub open spec fn put_opt(fs: Entries, k: Seq<char>, v: Option<Seq<char>>) -> Entries {
    match v {
        Some(x) => insert_entry(fs, k, x),
        None => fs,
    }
}

/// The raw fields kept from a record: its type name, status, source
/// address, byte count (in decimal) and direction, when present.
pub open spec fn json_fields(ev: JsonEvent) -> Entries {
    let f1 = put_opt(Seq::empty(), "event_type"@, ov(ev.event_type));
    let f2 = put_opt(f1, "status"@, ov(ev.status));
    let f3 = put_opt(f2, "source_ip"@, ov(ev.source_ip));
    let f4 = put_opt(
        f3,
        "bytes"@,
        match ev.bytes_sent {
            Some(b) => Some(decimal(b as nat)),
            None => None,
        },
    );
    put_opt(f4, "direction"@, ov(ev.direction))
}

/// `prefix` followed by `s`.
fn prefixed_text(prefix: &str, s: &str) -> (r: String)
    ensures
        r@ == prefix@ + s@,
{
    let mut r = String::from_str(prefix);
    r.append(s);
    r
}

/// The canonical event for an input record, with a fresh identifier and
/// the current time.
pub fn event_from_json(ev: &JsonEvent) -> (r: CanonicalEvent)
    ensures
        (r.src_entity.kind, r.src_entity.key@) == json_source(*ev),
        (r.dst_entity.kind, r.dst_entity.key@) == json_destination(*ev),
        r.event_type == json_event_type(ov(ev.event_type)),
        r.raw_fields@ == json_fields(*ev),
        r.timestamp.wf(),
        r.score_bits == 0,
{
    let src_entity = match &ev.username {
        Some(u) => Entity::new(EntityKind::User, prefixed_text("user:", u.as_str().to_lowercase().as_str())),
        None => match &ev.source_ip {
            Some(ip) => Entity::new(EntityKind::IP, prefixed_text("ip:", ip.as_str())),
            None => match &ev.source_host {
                Some(h) => Entity::new(EntityKind::Device, prefixed_text("device:", h.as_str())),
                None => Entity::new(EntityKind::User, String::from_str("user:unknown")),
            },
        },
    };
    let dst_entity = match &ev.destination_host {
        Some(h) => Entity::new(EntityKind::Device, prefixed_text("device:", h.as_str())),
        None => match &ev.destination_ip {
            Some(ip) => Entity::new(EntityKind::IP, prefixed_text("ip:", ip.as_str())),
            None => Entity::new(EntityKind::Device, String::from_str("device:unknown")),
        },
    };
    let event_type = match &ev.event_type {
        Some(n) => {
            let s = n.as_str();
            if str_eq(s, "login_success") || str_eq(s, "login_failed") {
                EventType::Login
            } else if str_eq(s, "connect") || str_eq(s, "port_scan") {
                EventType::Connect
            } else if str_eq(s, "access") {
                EventType::Access
            } else if str_eq(s, "escalate") {
                EventType::Escalate
            } else if str_eq(s, "process_spawn") || str_eq(s, "spawn") {
                EventType::Spawn
            } else {
                EventType::Login
            }
        },
        None => EventType::Login,
    };
    let mut raw_fields = FieldMap::new();
    match &ev.event_type {
        Some(x) => raw_fields.insert(String::from_str("event_type"), x.clone()),
        None => {},
    }
    match &ev.status {
        Some(x) => raw_fields.insert(String::from_str("status"), x.clone()),
        None => {},
    }
    match &ev.source_ip {
        Some(x) => raw_fields.insert(String::from_str("source_ip"), x.clone()),
        None => {},
    }
    match ev.bytes_sent {
        Some(b) => raw_fields.insert(String::from_str("bytes"), u64_text(b)),
        None => {},
    }
    match &ev.direction {
        Some(x) => raw_fields.insert(String::from_str("direction"), x.clone()),
        None => {},
    }
    CanonicalEvent::new(src_entity, dst_entity, event_type, raw_fields)
}

/// The record sent on to the API for an event.
#[derive(Clone, Debug)]
pub struct ApiEvent {
    pub event_type: String,
    pub entity: FieldMap,
    pub metadata: FieldMap,
}

/// The entity part of the record sent on for an event.
pub open spec fn api_entity(e: CanonicalEvent) -> Entries {
    insert_entry(insert_entry(Seq::empty(), "kind"@, kind_name(e.src_entity.kind)), "value"@, e.src_entity.key@)
}

/// The metadata part of the record sent on for an event: the destination
/// key and the type name, then the raw fields (which win on equal keys).
pub open spec fn api_metadata(e: CanonicalEvent) -> Entries {
    crate::fields::insert_all(
        insert_entry(
            insert_entry(Seq::empty(), "dst_entity"@, e.dst_entity.key@),
            "event_type"@,
            event_type_name(e.event_type),
        ),
        e.raw_fields@,
    )
}

/// The record sent on to the API for an event; its type is the lowercase
/// type name.
pub fn canonical_to_api_event(event: &CanonicalEvent) -> (r: ApiEvent)
    ensures
        r.event_type@ == lowercase(event_type_name(event.event_type)),
        r.entity@ == api_entity(*event),
        r.metadata@ == api_metadata(*event),
{
    let mut entity = FieldMap::new();
    entity.insert(String::from_str("kind"), event.src_entity.kind.name());
    entity.insert(String::from_str("value"), event.src_entity.key.clone());
    let mut metadata = FieldMap::new();
    metadata.insert(String::from_str("dst_entity"), event.dst_entity.key.clone());
    metadata.insert(String::from_str("event_type"), event.event_type.name());
    let ghost start = metadata@;
    let mut i: usize = 0;
    assert(event.raw_fields@.subrange(0, 0) =~= Seq::<(Seq<char>, Seq<char>)>::empty());
    while i < event.raw_fields.len()
        invariant
            i <= event.raw_fields@.len(),
            metadata@ == crate::fields::insert_all(start, event.raw_fields@.subrange(0, i as int)),
        decreases event.raw_fields@.len() - i,
    {
        proof {
            crate::fields::lemma_insert_all_push(start, event.raw_fields@.subrange(0, i as int), event.raw_fields@[i as int]);
            assert(event.raw_fields@.subrange(0, i as int).push(event.raw_fields@[i as int]) =~= event.raw_fields@.subrange(0, i + 1));
        }
        metadata.insert(event.raw_fields.key_at(i).clone(), event.raw_fields.value_at(i).clone());
        i = i + 1;
    }
    assert(event.raw_fields@.subrange(0, event.raw_fields@.len() as int) =~= event.raw_fields@);
    let event_type = event.event_type.name().as_str().to_lowercase();
    ApiEvent { event_type, entity, metadata }
}

} // verus!
