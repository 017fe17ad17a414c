//! The event model shared by every stage: entities, event types and the
//! canonical event.

use vstd::prelude::*;
use vstd::string::StringExecFns;
use crate::fields::FieldMap;
use crate::platform::{Timestamp, new_uuid_v4, utc_now};
use crate::text::{ascii_lower_char, lowercase, str_eq};

verus! {

/// The kinds of entity an event can involve.
#[derive(Clone, Copy, Debug, PartialEq, Eq, Structural)]
pub enum EntityKind {
    User,
    IP,
    Device,
    Process,
    File,
}

/// The name of an entity kind, as its `Display` and `Debug` forms print it.
pub open spec fn kind_name(k: EntityKind) -> Seq<char> {
    match k {
        EntityKind::User => "User"@,
        EntityKind::IP => "IP"@,
        EntityKind::Device => "Device"@,
        EntityKind::Process => "Process"@,
        EntityKind::File => "File"@,
    }
}

impl EntityKind {
    /// The name of the kind.
    pub fn name(&self) -> (r: String)
        ensures
            r@ == kind_name(*self),
    {
        match self {
            EntityKind::User => String::from_str("User"),
            EntityKind::IP => String::from_str("IP"),
            EntityKind::Device => String::from_str("Device"),
            EntityKind::Process => String::from_str("Process"),
            EntityKind::File => String::from_str("File"),
        }
    }
}

/// An entity: its kind and the key that identifies it.
#[derive(Clone, Debug, PartialEq, Eq)]
pub struct Entity {
    pub kind: EntityKind,
    pub key: String,
}

impl Entity {
    /// An entity of the given kind and key.
    pub fn new(kind: EntityKind, key: String) -> (r: Entity)
        ensures
            r.kind == kind,
            r.key@ == key@,
    {
        Entity { kind, key }
    }

    /// A user entity.
    pub fn user(key: &str) -> (r: Entity)
        ensures
            r.kind == EntityKind::User,
            r.key@ == key@,
    {
        Entity { kind: EntityKind::User, key: String::from_str(key) }
    }

    /// An IP entity.
    pub fn ip(key: &str) -> (r: Entity)
        ensures
            r.kind == EntityKind::IP,
            r.key@ == key@,
    {
        Entity { kind: EntityKind::IP, key: String::from_str(key) }
    }

    /// A device entity.
    pub fn device(key: &str) -> (r: Entity)
        ensures
            r.kind == EntityKind::Device,
            r.key@ == key@,
    {
        Entity { kind: EntityKind::Device, key: String::from_str(key) }
    }

    /// A process entity.
    pub fn process(key: &str) -> (r: Entity)
        ensures
            r.kind == EntityKind::Process,
            r.key@ == key@,
    {
        Entity { kind: EntityKind::Process, key: String::from_str(key) }
    }

    /// A file entity.
    pub fn file(key: &str) -> (r: Entity)
        ensures
            r.kind == EntityKind::File,
            r.key@ == key@,
    {
        Entity { kind: EntityKind::File, key: String::from_str(key) }
    }

    /// A copy of the entity.
    pub fn duplicate(&self) -> (r: Entity)
        ensures
            r.kind == self.kind,
            r.key@ == self.key@,
    {
        Entity { kind: self.kind, key: self.key.clone() }
    }
}

/// The kinds of event.
#[derive(Clone, Copy, Debug, PartialEq, Eq, Structural)]
pub enum EventType {
    Login,
    Spawn,
    Connect,
    Access,
    Escalate,
}

/// The name of an event type, as its `Display` and `Debug` forms print it.
pub open spec fn event_type_name(t: EventType) -> Seq<char> {
    match t {
        EventType::Login => "Login"@,
        EventType::Spawn => "Spawn"@,
        EventType::Connect => "Connect"@,
        EventType::Access => "Access"@,
        EventType::Escalate => "Escalate"@,
    }
}

/// The event type whose lowercase name is `name`.
pub open spec fn event_type_named(name: Seq<char>) -> Option<EventType> {
    if name == "login"@ {
        Some(EventType::Login)
    } else if name == "spawn"@ {
        Some(EventType::Spawn)
    } else if name == "connect"@ {
        Some(EventType::Connect)
    } else if name == "access"@ {
        Some(EventType::Access)
    } else if name == "escalate"@ {
        Some(EventType::Escalate)
    } else {
        None
    }
}

impl EventType {
    /// The event type named by `s`, compared after lowercasing it.
    pub fn from_str(s: &str) -> (r: Option<EventType>)
        ensures
            r == event_type_named(lowercase(s@)),
    {
        let lower = s.to_lowercase();
        let l = lower.as_str();
        if str_eq(l, "login") {
            Some(EventType::Login)
        } else if str_eq(l, "spawn") {
            Some(EventType::Spawn)
        } else if str_eq(l, "connect") {
            Some(EventType::Connect)
        } else if str_eq(l, "access") {
            Some(EventType::Access)
        } else if str_eq(l, "escalate") {
            Some(EventType::Escalate)
        } else {
            None
        }
    }

    /// The name of the event type.
    pub fn name(&self) -> (r: String)
        ensures
            r@ == event_type_name(*self),
    {
        match self {
            EventType::Login => String::from_str("Login"),
            EventType::Spawn => String::from_str("Spawn"),
            EventType::Connect => String::from_str("Connect"),
            EventType::Access => String::from_str("Access"),
            EventType::Escalate => String::from_str("Escalate"),
        }
    }
}

/// A normalised event: who acted on what, how, when, and the raw fields it
/// came with. `id` is the 128-bit value of a version-4 UUID; the score is
/// the bits of an IEEE-754 `f32`.
#[derive(Clone, Debug)]
pub struct CanonicalEvent {
    pub id: u128,
    pub timestamp: Timestamp,
    pub src_entity: Entity,
    pub dst_entity: Entity,
    pub event_type: EventType,
    pub raw_fields: FieldMap,
    pub score_bits: u32,
}

impl CanonicalEvent {
    /// A new event with a fresh random identifier, stamped with the current
    /// time, with score 0.0.
    pub fn new(src_entity: Entity, dst_entity: Entity, event_type: EventType, raw_fields: FieldMap)
        -> (r: CanonicalEvent)
        ensures
            r.src_entity == src_entity,
            r.dst_entity == dst_entity,
            r.event_type == event_type,
            r.raw_fields@ == raw_fields@,
            r.timestamp.wf(),
            r.score_bits == 0,
            (r.id >> 76u128) & 0xf == 4,
            (r.id >> 62u128) & 0x3 == 2,
    {
        CanonicalEvent {
            id: new_uuid_v4(),
            timestamp: utc_now(),
            src_entity,
            dst_entity,
            event_type,
            raw_fields,
            score_bits: 0,
        }
    }
}

proof fn lemma_lower_names()
    ensures
        lowercase("Login"@) == "login"@,
        lowercase("Spawn"@) == "spawn"@,
        lowercase("Connect"@) == "connect"@,
        lowercase("Access"@) == "access"@,
        lowercase("Escalate"@) == "escalate"@,
{
    reveal_strlit("Login");
    reveal_strlit("login");
    reveal_strlit("Spawn");
    reveal_strlit("spawn");
    reveal_strlit("Connect");
    reveal_strlit("connect");
    reveal_strlit("Access");
    reveal_strlit("access");
    reveal_strlit("Escalate");
    reveal_strlit("escalate");
    assert("Login"@.map_values(|c: char| ascii_lower_char(c)) =~= "login"@);
    assert("Spawn"@.map_values(|c: char| ascii_lower_char(c)) =~= "spawn"@);
    assert("Connect"@.map_values(|c: char| ascii_lower_char(c)) =~= "connect"@);
    assert("Access"@.map_values(|c: char| ascii_lower_char(c)) =~= "access"@);
    assert("Escalate"@.map_values(|c: char| ascii_lower_char(c)) =~= "escalate"@);
}

/// Event type names round-trip: `from_str` reads back every type's name,
/// and accepts a text exactly when it is some type's name up to case
/// (its lowercase is that name's lowercase).
pub proof fn law_event_type_names(t: EventType, s: Seq<char>)
    ensures
        event_type_named(lowercase(event_type_name(t))) == Some(t),
        (event_type_named(lowercase(s)) == Some(t)) == (lowercase(s) == lowercase(event_type_name(t))),
{
    lemma_lower_names();
    reveal_strlit("login");
    reveal_strlit("spawn");
    reveal_strlit("connect");
    reveal_strlit("access");
    reveal_strlit("escalate");
    assert("login"@ != "spawn"@ && "login"@ != "access"@ && "spawn"@ != "access"@) by {
        assert("login"@[0] != "spawn"@[0]);
        assert("login"@[0] != "access"@[0]);
        assert("spawn"@[0] != "access"@[0]);
    }
    assert("connect"@ != "escalate"@) by {
        assert("connect"@.len() != "escalate"@.len());
    }
    assert(("login"@ != "connect"@) && ("login"@ != "escalate"@) && ("spawn"@ != "connect"@) && ("spawn"@
        != "escalate"@) && ("access"@ != "connect"@) && ("access"@ != "escalate"@)) by {
        assert("login"@.len() != "connect"@.len());
        assert("login"@.len() != "escalate"@.len());
        assert("spawn"@.len() != "connect"@.len());
        assert("spawn"@.len() != "escalate"@.len());
        assert("access"@.len() != "connect"@.len());
        assert("access"@.len() != "escalate"@.len());
    }
}

} // verus!
