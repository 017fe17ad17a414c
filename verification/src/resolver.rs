//! Entity resolution: user aliases, network groups and key prefixes that
//! turn raw identifiers into canonical entity keys.

use vstd::prelude::*;
use vstd::string::StringExecFns;
use crate::fields::{Entries, FieldMap, insert_entry, lookup};
use crate::shared::{Entity, EntityKind};
use crate::text::{
    chars_of, has_char, lines, lines_chars, lowercase, split_once, split_once_chars, string_of, trim,
    trim_char, trim_char_chars, trim_chars, uppercase, views,
};

verus! {

/// Errors of resolver construction and configuration.
#[derive(Clone, Debug)]
pub enum ResolverError {
    InvalidIp(String),
    ConfigError(String),
}

// ---------------------------------------------------------------------
// Addresses and networks
// ---------------------------------------------------------------------

/// An IP address as its numeric value.
#[derive(Clone, Copy, Debug, PartialEq, Eq, Structural)]
pub enum IpValue {
    V4(u32),
    V6(u128),
}

/// An IP network: base address and prefix length.
#[derive(Clone, Copy, Debug, PartialEq, Eq, Structural)]
pub enum Network {
    V4 { addr: u32, prefix: u8 },
    V6 { addr: u128, prefix: u8 },
}

impl Network {
    /// The prefix fits the address width.
    pub open spec fn wf(&self) -> bool {
        match *self {
            Network::V4 { prefix, .. } => prefix <= 32,
            Network::V6 { prefix, .. } => prefix <= 128,
        }
    }

    /// The prefix covers the whole address.
    pub open spec fn full_width(&self) -> bool {
        match *self {
            Network::V4 { prefix, .. } => prefix == 32,
            Network::V6 { prefix, .. } => prefix == 128,
        }
    }

    /// The base address.
    pub open spec fn address(&self) -> IpValue {
        match *self {
            Network::V4 { addr, .. } => IpValue::V4(addr),
            Network::V6 { addr, .. } => IpValue::V6(addr),
        }
    }

    /// The prefix length.
    pub open spec fn prefix_len(&self) -> u8 {
        match *self {
            Network::V4 { prefix, .. } => prefix,
            Network::V6 { prefix, .. } => prefix,
        }
    }

    /// The prefix length.
    pub fn prefix(&self) -> (r: u8)
        ensures
            r == self.prefix_len(),
    {
        match *self {
            Network::V4 { prefix, .. } => prefix,
            Network::V6 { prefix, .. } => prefix,
        }
    }
}

/// What `ipnetwork::IpNetwork`'s `FromStr` gives for a text: the network,
/// or `None` when the text is not one.
pub uninterp spec fn network_parse(s: Seq<char>) -> Option<Network>;

/// `str::parse::<ipnetwork::IpNetwork>`, with the network as plain values.
/// Which texts parse is named `network_parse`. The parser keeps prefixes
/// within the address width; a text without `/` is read as
/// a bare address (the standard library's `Ipv4Addr` or `Ipv6Addr` parser)
/// with the full-width prefix; and its error for any text `s` is
/// `InvalidAddr(s)`, whose message is `invalid address: ` and `s`.
#[verifier::external_body]
pub(crate) fn parse_network(s: &str) -> (r: Result<Network, String>)
    ensures
        match r {
            Ok(n) => network_parse(s@) == Some(n) && n.wf() && (!s@.contains('/') ==> n.full_width()),
            Err(m) => network_parse(s@) is None && m@ == "invalid address: "@ + s@,
        },
{
    match s.parse::<ipnetwork::IpNetwork>() {
        Ok(ipnetwork::IpNetwork::V4(n)) => Ok(Network::V4 { addr: u32::from(n.ip()), prefix: n.prefix() }),
        Ok(ipnetwork::IpNetwork::V6(n)) => Ok(Network::V6 { addr: u128::from(n.ip()), prefix: n.prefix() }),
        Err(e) => Err(e.to_string()),
    }
}

/// The address a text denotes, as the standard library's `IpAddr` parser
/// reads it: a text without `/` that reads as a network, which then is a
/// bare address.
pub open spec fn ip_parse(s: Seq<char>) -> Option<IpValue> {
    if s.contains('/') {
        None
    } else {
        match network_parse(s) {
            Some(n) => Some(n.address()),
            None => None,
        }
    }
}

/// Parses an IP address text.
pub fn parse_ip(s: &str) -> (r: Option<IpValue>)
    ensures
        r == ip_parse(s@),
{
    let cs = chars_of(s);
    if has_char(&cs, '/') {
        return None;
    }
    match parse_network(s) {
        Ok(n) => match n {
            Network::V4 { addr, .. } => Some(IpValue::V4(addr)),
            Network::V6 { addr, .. } => Some(IpValue::V6(addr)),
        },
        Err(_) => None,
    }
}

/// Whether the network holds the address: the same family, and the same top
/// `prefix` bits (what `ipnetwork::IpNetwork::contains` computes with its mask).
pub open spec fn network_contains(n: Network, ip: IpValue) -> bool {
    match (n, ip) {
        (Network::V4 { addr, prefix }, IpValue::V4(x)) => prefix == 0 || (x >> ((32 - prefix) as u32))
            == (addr >> ((32 - prefix) as u32)),
        (Network::V6 { addr, prefix }, IpValue::V6(x)) => prefix == 0 || (x >> ((128 - prefix) as u32))
            == (addr >> ((128 - prefix) as u32)),
        _ => false,
    }
}

/// Whether the network holds the address.
pub fn contains_ip(n: &Network, ip: &IpValue) -> (r: bool)
    requires
        n.wf(),
    ensures
        r == network_contains(*n, *ip),
{
    match (*n, *ip) {
        (Network::V4 { addr, prefix }, IpValue::V4(x)) => {
            if prefix == 0 {
                true
            } else {
                let sh: u32 = (32 - prefix) as u32;
                (x >> sh) == (addr >> sh)
            }
        },
        (Network::V6 { addr, prefix }, IpValue::V6(x)) => {
            if prefix == 0 {
                true
            } else {
                let sh: u32 = (128 - prefix) as u32;
                (x >> sh) == (addr >> sh)
            }
        },
        _ => false,
    }
}

/// A configured network and the group it resolves to.
pub type GroupEntry = (Network, Seq<char>);

/// The entries whose prefix length is `p`, in order.
pub open spec fn with_prefix(s: Seq<GroupEntry>, p: int) -> Seq<GroupEntry> {
    s.filter(|e: GroupEntry| e.0.prefix_len() == p)
}

/// The entries with prefix length at most `p`, longest prefixes first and,
/// among equal prefixes, in their given order: a stable sort by
/// decreasing prefix length.
pub open spec fn by_prefix_desc(s: Seq<GroupEntry>, p: int) -> Seq<GroupEntry>
    decreases p + 1,
{
    if p < 0 {
        seq![]
    } else {
        with_prefix(s, p) + by_prefix_desc(s, p - 1)
    }
}

/// The view of a list of networks and group names.
pub open spec fn group_view(v: Seq<(Network, String)>) -> Seq<GroupEntry> {
    v.map_values(|e: (Network, String)| (e.0, e.1@))
}

/// The view of a list of string pairs.
pub open spec fn pair_view(v: Seq<(String, String)>) -> Entries {
    v.map_values(|p: (String, String)| (p.0@, p.1@))
}

/// The first entry, in order, whose network holds the address.
pub open spec fn first_containing(s: Seq<GroupEntry>, ip: IpValue) -> int {
    crate::text::first_where(s, |e: GroupEntry| network_contains(e.0, ip))
}

proof fn lemma_filter_push(s: Seq<GroupEntry>, e: GroupEntry, p: int)
    ensures
        with_prefix(s.push(e), p) == if e.0.prefix_len() == p {
            with_prefix(s, p).push(e)
        } else {
            with_prefix(s, p)
        },
{
    reveal(Seq::filter);
    assert(s.push(e).drop_last() =~= s);
}

/// Orders the networks by decreasing prefix length, keeping the order of
/// equal prefixes (what a stable `sort_by` on the reversed prefix order gives).
fn order_by_prefix(v: Vec<(Network, String)>) -> (r: Vec<(Network, String)>)
    requires
        forall|i: int| 0 <= i < v.len() ==> (#[trigger] v@[i]).0.wf(),
    ensures
        group_view(r@) == by_prefix_desc(group_view(v@), 128),
        forall|i: int| 0 <= i < r.len() ==> (#[trigger] r@[i]).0.wf(),
{
    let ghost s = group_view(v@);
    let mut out: Vec<(Network, String)> = Vec::new();
    let mut p: u8 = 128;
    let mut done = false;
    assert(group_view(out@) =~= Seq::<GroupEntry>::empty());
    while !done
        invariant
            s == group_view(v@),
            forall|i: int| 0 <= i < v.len() ==> (#[trigger] v@[i]).0.wf(),
            forall|i: int| 0 <= i < out.len() ==> (#[trigger] out@[i]).0.wf(),
            p <= 128,
            !done ==> group_view(out@) + by_prefix_desc(s, p as int) == by_prefix_desc(s, 128),
            done ==> group_view(out@) == by_prefix_desc(s, 128),
        decreases p + (if done { 0int } else { 1int }),
    {
        let ghost before = out@;
        let mut i: usize = 0;
        assert(s.subrange(0, 0) =~= Seq::<GroupEntry>::empty());
        assert(with_prefix(Seq::<GroupEntry>::empty(), p as int) =~= Seq::<GroupEntry>::empty()) by {
            reveal(Seq::filter);
        }
        assert(group_view(out@) =~= group_view(before) + with_prefix(s.subrange(0, 0), p as int));
        while i < v.len()
            invariant
                s == group_view(v@),
                i <= v.len(),
                forall|k: int| 0 <= k < v.len() ==> (#[trigger] v@[k]).0.wf(),
                forall|k: int| 0 <= k < out.len() ==> (#[trigger] out@[k]).0.wf(),
                group_view(out@) == group_view(before) + with_prefix(s.subrange(0, i as int), p as int),
            decreases v.len() - i,
        {
            let ghost old_out = out@;
            proof {
                lemma_filter_push(s.subrange(0, i as int), s[i as int], p as int);
                assert(s.subrange(0, i as int).push(s[i as int]) =~= s.subrange(0, i + 1));
            }
            assert(s[i as int] == (v@[i as int].0, v@[i as int].1@));
            if v[i].0.prefix() == p {
                let e = (v[i].0, v[i].1.clone());
                out.push(e);
                assert(group_view(out@) =~= group_view(out@.drop_last()).push(s[i as int]));
                assert(out@.drop_last() == old_out);
            } else {
            }
            i = i + 1;
        }
        assert(s.subrange(0, v.len() as int) =~= s);
        if p == 0 {
            assert(by_prefix_desc(s, -1) =~= Seq::<GroupEntry>::empty());
            assert(group_view(out@) =~= group_view(before) + by_prefix_desc(s, 0));
            done = true;
        } else {
            assert(group_view(out@) + by_prefix_desc(s, p - 1) =~= group_view(before) + by_prefix_desc(s, p as int));
            p = p - 1;
        }
    }
    out
}

// ---------------------------------------------------------------------
// Configuration
// ---------------------------------------------------------------------

/// Alias and network tables, as read from a configuration text.
pub struct Config {
    pub aliases: FieldMap,
    pub cidr_groups: FieldMap,
}

/// The state while reading a configuration text: the current section and
/// the two tables.
pub type ParseState = (Seq<char>, Entries, Entries);

/// The effect of one line of configuration text.
pub open spec fn config_line(st: ParseState, raw: Seq<char>) -> ParseState {
    let line = trim(raw);
    if line.len() == 0 || line[0] == '#' {
        st
    } else if line[0] == '[' && line.last() == ']' {
        (line.subrange(1, line.len() - 1), st.1, st.2)
    } else {
        match split_once(line, '=') {
            Some((k, v)) => {
                let key = trim(k);
                let value = trim_char(trim(v), '"');
                if st.0 == "aliases"@ {
                    (st.0, insert_entry(st.1, key, value), st.2)
                } else if st.0 == "cidr_groups"@ {
                    (st.0, st.1, insert_entry(st.2, key, value))
                } else {
                    st
                }
            },
            None => st,
        }
    }
}

/// The state after reading the given lines, starting with no section and
/// empty tables.
pub open spec fn config_lines(ls: Seq<Seq<char>>) -> ParseState
    decreases ls.len(),
{
    if ls.len() == 0 {
        (Seq::empty(), Seq::empty(), Seq::empty())
    } else {
        config_line(config_lines(ls.drop_last()), ls.last())
    }
}

impl Config {
    /// Reads `[aliases]` and `[cidr_groups]` sections of `key = value` lines;
    /// blank lines and lines starting with `#` are skipped, values lose
    /// surrounding double quotes, and a repeated key keeps its last value.
    pub fn parse(content: &str) -> (r: Result<Config, ResolverError>)
        ensures
            r matches Ok(c) && c.aliases@ == config_lines(lines(content@)).1 && c.cidr_groups@
                == config_lines(lines(content@)).2,
    {
        let text = chars_of(content);
        let ls = lines_chars(&text);
        let ghost lv = views(ls@);
        let mut aliases = FieldMap::new();
        let mut cidr_groups = FieldMap::new();
        let mut section: Vec<char> = Vec::new();
        let mut i: usize = 0;
        assert(lv.subrange(0, 0) =~= Seq::<Seq<char>>::empty());
        while i < ls.len()
            invariant
                lv == views(ls@),
                lv == lines(content@),
                i <= ls.len(),
                config_lines(lv.subrange(0, i as int)) == (section@, aliases@, cidr_groups@),
            decreases ls.len() - i,
        {
            proof {
                assert(lv.subrange(0, i + 1).drop_last() =~= lv.subrange(0, i as int));
                assert(lv.subrange(0, i + 1).last() == ls@[i as int]@);
            }
            let line = trim_chars(&ls[i]);
            if line.len() == 0 || line[0] == '#' {
            } else if line[0] == '[' && line[line.len() - 1] == ']' {
                section = crate::text::sub_chars(&line, 1, line.len() - 1);
            } else {
                match split_once_chars(&line, '=') {
                    Some((k, v)) => {
                        let key = trim_chars(&k);
                        let value = trim_char_chars(&trim_chars(&v), '"');
                        let key_s = string_of(&key);
                        let value_s = string_of(&value);
                        let sec = string_of(&section);
                        if crate::text::str_eq(sec.as_str(), "aliases") {
                            aliases.insert(key_s, value_s);
                        } else if crate::text::str_eq(sec.as_str(), "cidr_groups") {
                            cidr_groups.insert(key_s, value_s);
                        }
                    },
                    None => {},
                }
            }
            i = i + 1;
        }
        assert(lv.subrange(0, ls.len() as int) =~= lv);
        Ok(Config { aliases, cidr_groups })
    }
}

// ---------------------------------------------------------------------
// The resolver
// ---------------------------------------------------------------------

/// Resolves raw identifiers to canonical entities.
pub struct EntityResolver {
    aliases: FieldMap,
    cidr_groups: Vec<(Network, String)>,
}

/// The configured networks parsed in order, with their groups; or the
/// message for the first text that is not a network.
pub open spec fn parse_groups(pairs: Seq<(Seq<char>, Seq<char>)>) -> Result<Seq<GroupEntry>, Seq<char>>
    decreases pairs.len(),
{
    if pairs.len() == 0 {
        Ok(seq![])
    } else {
        match network_parse(pairs[0].0) {
            None => Err("Invalid CIDR "@ + pairs[0].0 + ": "@ + "invalid address: "@ + pairs[0].0),
            Some(n) => match parse_groups(pairs.drop_first()) {
                Ok(rest) => Ok(seq![(n, pairs[0].1)] + rest),
                Err(m) => Err(m),
            },
        }
    }
}

/// The canonical key of a user name: its alias when the uppercase name has
/// one, else `user:` and the lowercase name.
pub open spec fn username_key(aliases: Entries, name: Seq<char>) -> Seq<char> {
    match lookup(aliases, uppercase(name)) {
        Some(v) => v,
        None => "user:"@ + lowercase(name),
    }
}

impl EntityResolver {
    /// The alias table: uppercase names to canonical keys.
    pub closed spec fn alias_view(&self) -> Entries {
        self.aliases@
    }

    /// The configured networks, longest prefix first.
    pub closed spec fn group_list(&self) -> Seq<GroupEntry> {
        group_view(self.cidr_groups@)
    }

    /// Every configured network has a valid prefix.
    pub closed spec fn wf(&self) -> bool {
        forall|i: int| 0 <= i < self.cidr_groups@.len() ==> (#[trigger] self.cidr_groups@[i]).0.wf()
    }

    /// A resolver over the given aliases and `(network text, group)` pairs.
    /// The first text that is not a network makes a `ConfigError`; otherwise
    /// the networks are kept longest prefix first.
    pub fn new(aliases: FieldMap, cidr_groups: Vec<(String, String)>) -> (r: Result<EntityResolver, ResolverError>)
        ensures
            match parse_groups(cidr_groups@.map_values(|p: (String, String)| (p.0@, p.1@))) {
                Ok(gs) => r matches Ok(res) && res.wf() && res.alias_view() == aliases@ && res.group_list()
                    == by_prefix_desc(gs, 128),
                Err(m) => r matches Err(ResolverError::ConfigError(e)) && e@ == m,
            },
    {
        let ghost pv = cidr_groups@.map_values(|p: (String, String)| (p.0@, p.1@));
        let mut parsed: Vec<(Network, String)> = Vec::new();
        let mut i: usize = 0;
        assert(pv.subrange(0, pv.len() as int) =~= pv);
        assert(group_view(parsed@) =~= Seq::<GroupEntry>::empty());
        assert forall|rest: Seq<GroupEntry>| Seq::<GroupEntry>::empty() + rest == rest by {
            assert(Seq::<GroupEntry>::empty() + rest =~= rest);
        }
        while i < cidr_groups.len()
            invariant
                pv == cidr_groups@.map_values(|p: (String, String)| (p.0@, p.1@)),
                i <= cidr_groups.len(),
                forall|k: int| 0 <= k < parsed.len() ==> (#[trigger] parsed@[k]).0.wf(),
                parse_groups(pv) == match parse_groups(pv.subrange(i as int, pv.len() as int)) {
                    Ok(rest) => Ok(group_view(parsed@) + rest),
                    Err(m) => Err::<Seq<GroupEntry>, Seq<char>>(m),
                },
            decreases cidr_groups.len() - i,
        {
            let ghost t = pv.subrange(i as int, pv.len() as int);
            assert(t.drop_first() =~= pv.subrange(i + 1, pv.len() as int));
            assert(t[0] == (cidr_groups@[i as int].0@, cidr_groups@[i as int].1@));
            match parse_network(cidr_groups[i].0.as_str()) {
                Ok(n) => {
                    let ghost before = parsed@;
                    parsed.push((n, cidr_groups[i].1.clone()));
                    proof {
                        assert(group_view(parsed@) =~= group_view(before).push((n, cidr_groups@[i as int].1@)));
                        match parse_groups(t.drop_first()) {
                            Ok(rest) => {
                                assert(group_view(parsed@) + rest =~= group_view(before) + (seq![(n, t[0].1)] + rest));
                            },
                            Err(_) => {},
                        }
                    }
                },
                Err(m) => {
                    let mut e = String::from_str("Invalid CIDR ");
                    e.append(cidr_groups[i].0.as_str());
                    e.append(": ");
                    e.append(m.as_str());
                    return Err(ResolverError::ConfigError(e));
                },
            }
            i = i + 1;
        }
        assert(pv.subrange(pv.len() as int, pv.len() as int) =~= Seq::<(Seq<char>, Seq<char>)>::empty());
        assert(group_view(parsed@) + seq![] =~= group_view(parsed@));
        let sorted = order_by_prefix(parsed);
        Ok(EntityResolver { aliases, cidr_groups: sorted })
    }

    /// A resolver with no aliases and no networks.
    pub fn empty() -> (r: EntityResolver)
        ensures
            r.wf(),
            r.alias_view() == Seq::<(Seq<char>, Seq<char>)>::empty(),
            r.group_list() == Seq::<GroupEntry>::empty(),
    {
        let r = EntityResolver { aliases: FieldMap::new(), cidr_groups: Vec::new() };
        assert(r.group_list() =~= Seq::<GroupEntry>::empty());
        r
    }

    /// A resolver built from a configuration: alias names are uppercased
    /// (a later name wins over an earlier one that uppercases the same way),
    /// and the networks are taken in their configured order.
    pub fn from_config(config: &Config) -> (r: Result<EntityResolver, ResolverError>)
        ensures
            match parse_groups(config.cidr_groups@) {
                Ok(gs) => r matches Ok(res) && res.wf() && res.alias_view() == upper_aliases(config.aliases@)
                    && res.group_list() == by_prefix_desc(gs, 128),
                Err(m) => r matches Err(ResolverError::ConfigError(e)) && e@ == m,
            },
    {
        let mut aliases = FieldMap::new();
        let mut i: usize = 0;
        assert(config.aliases@.subrange(0, 0) =~= Seq::<(Seq<char>, Seq<char>)>::empty());
        while i < config.aliases.len()
            invariant
                i <= config.aliases@.len(),
                aliases@ == upper_aliases(config.aliases@.subrange(0, i as int)),
            decreases config.aliases@.len() - i,
        {
            let k = config.aliases.key_at(i).as_str().to_uppercase();
            let v = config.aliases.value_at(i).clone();
            aliases.insert(k, v);
            assert(config.aliases@.subrange(0, i + 1).drop_last() =~= config.aliases@.subrange(0, i as int));
            i = i + 1;
        }
        assert(config.aliases@.subrange(0, config.aliases@.len() as int) =~= config.aliases@);
        let mut pairs: Vec<(String, String)> = Vec::new();
        let mut j: usize = 0;
        while j < config.cidr_groups.len()
            invariant
                j <= config.cidr_groups@.len(),
                pair_view(pairs@) == config.cidr_groups@.subrange(0, j as int),
            decreases config.cidr_groups@.len() - j,
        {
            let ghost before = pairs@;
            let k = config.cidr_groups.key_at(j).clone();
            let v = config.cidr_groups.value_at(j).clone();
            pairs.push((k, v));
            assert(pairs@ == before.push((k, v)));
            assert(pair_view(pairs@) =~= pair_view(before).push((k@, v@)));
            assert(pair_view(pairs@) =~= config.cidr_groups@.subrange(0, j + 1));
            j = j + 1;
        }
        assert(config.cidr_groups@.subrange(0, config.cidr_groups@.len() as int) =~= config.cidr_groups@);
        assert(pair_view(pairs@) == pairs@.map_values(|p: (String, String)| (p.0@, p.1@)));
        EntityResolver::new(aliases, pairs)
    }

    /// The canonical key of a user name.
    pub fn normalize_username(&self, username: &str) -> (r: String)
        ensures
            r@ == username_key(self.alias_view(), username@),
    {
        let upper = username.to_uppercase();
        match self.aliases.get(upper.as_str()) {
            Some(v) => v.clone(),
            None => {
                let mut r = String::from_str("user:");
                let lower = username.to_lowercase();
                r.append(lower.as_str());
                r
            },
        }
    }

    /// The entity for an address text: `None` when it is not an address;
    /// else the group of the first configured network (longest prefix
    /// first) that holds it, or `ip:` and the text when none does.
    pub fn normalize_ip(&self, ip_str: &str) -> (r: Option<Entity>)
        requires
            self.wf(),
        ensures
            match ip_parse(ip_str@) {
                None => r is None,
                Some(ip) => r matches Some(e) && e.kind == EntityKind::IP && e.key@ == ip_key(
                    self.group_list(),
                    ip,
                    ip_str@,
                ),
            },
    {
        let ip = match parse_ip(ip_str) {
            Some(ip) => ip,
            None => return None,
        };
        let mut i: usize = 0;
        while i < self.cidr_groups.len()
            invariant
                self.wf(),
                ip_parse(ip_str@) == Some(ip),
                i <= self.cidr_groups@.len(),
                forall|k: int| 0 <= k < i ==> !network_contains(#[trigger] self.cidr_groups@[k].0, ip),
            decreases self.cidr_groups.len() - i,
        {
            if contains_ip(&self.cidr_groups[i].0, &ip) {
                proof {
                    assert forall|k: int| 0 <= k < i implies !network_contains(#[trigger] self.group_list()[k].0, ip) by {
                        assert(self.group_list()[k].0 == self.cidr_groups@[k].0);
                    }
                    assert(self.group_list()[i as int] == (self.cidr_groups@[i as int].0, self.cidr_groups@[i as int].1@));
                    lemma_first_containing(self.group_list(), ip, i as int);
                    assert(ip_key(self.group_list(), ip, ip_str@) == self.cidr_groups@[i as int].1@);
                }
                let g = self.cidr_groups[i].1.clone();
                assert(g@ == self.cidr_groups@[i as int].1@);
                return Some(Entity::new(EntityKind::IP, g));
            }
            i = i + 1;
        }
        proof {
            assert forall|k: int| 0 <= k < i implies !network_contains(#[trigger] self.group_list()[k].0, ip) by {
                assert(self.group_list()[k].0 == self.cidr_groups@[k].0);
            }
            lemma_first_containing(self.group_list(), ip, i as int);
        }
        let mut key = String::from_str("ip:");
        key.append(ip_str);
        Some(Entity::new(EntityKind::IP, key))
    }

    /// The canonical entity for a key of the given kind.
    pub fn resolve(&self, kind: &EntityKind, key: &str) -> (r: Entity)
        requires
            self.wf(),
        ensures
            r.kind == *kind,
            r.key@ == resolved_key(self.alias_view(), self.group_list(), *kind, key@),
    {
        match kind {
            EntityKind::User => Entity::new(EntityKind::User, self.normalize_username(key)),
            EntityKind::IP => match self.normalize_ip(key) {
                Some(e) => e,
                None => {
                    let mut k = String::from_str("ip:");
                    k.append(key);
                    Entity::new(EntityKind::IP, k)
                },
            },
            EntityKind::Device => {
                let mut k = String::from_str("device:");
                k.append(key);
                Entity::new(EntityKind::Device, k)
            },
            EntityKind::Process => {
                let mut k = String::from_str("process:");
                k.append(key);
                Entity::new(EntityKind::Process, k)
            },
            EntityKind::File => {
                let mut k = String::from_str("file:");
                k.append(key);
                Entity::new(EntityKind::File, k)
            },
        }
    }
}

/// The alias table with every name uppercased, later names winning.
pub open spec fn upper_aliases(s: Entries) -> Entries
    decreases s.len(),
{
    if s.len() == 0 {
        seq![]
    } else {
        insert_entry(upper_aliases(s.drop_last()), uppercase(s.last().0), s.last().1)
    }
}

/// The key of an address: the group of the first network that holds it,
/// else `ip:` and the address text.
pub open spec fn ip_key(groups: Seq<GroupEntry>, ip: IpValue, text: Seq<char>) -> Seq<char> {
    let i = first_containing(groups, ip);
    if 0 <= i < groups.len() {
        groups[i].1
    } else {
        "ip:"@ + text
    }
}

/// The canonical key for a raw key of the given kind.
pub open spec fn resolved_key(aliases: Entries, groups: Seq<GroupEntry>, kind: EntityKind, key: Seq<char>) -> Seq<char> {
    match kind {
        EntityKind::User => username_key(aliases, key),
        EntityKind::IP => match ip_parse(key) {
            Some(ip) => ip_key(groups, ip, key),
            None => "ip:"@ + key,
        },
        EntityKind::Device => "device:"@ + key,
        EntityKind::Process => "process:"@ + key,
        EntityKind::File => "file:"@ + key,
    }
}

proof fn lemma_first_containing(s: Seq<GroupEntry>, ip: IpValue, k: int)
    requires
        0 <= k <= s.len(),
        forall|j: int| 0 <= j < k ==> !network_contains(#[trigger] s[j].0, ip),
        k < s.len() ==> network_contains(s[k].0, ip),
    ensures
        first_containing(s, ip) == k,
{
    let p = |e: GroupEntry| network_contains(e.0, ip);
    assert forall|j: int| 0 <= j < k implies !p(#[trigger] s[j]) by {}
    crate::text::lemma_first_where_unique(s, p, k);
}

proof fn lemma_first_where_concat<A>(a: Seq<A>, b: Seq<A>, p: spec_fn(A) -> bool)
    ensures
        crate::text::first_where(a + b, p) == if crate::text::first_where(a, p) < a.len() {
            crate::text::first_where(a, p)
        } else {
            a.len() + crate::text::first_where(b, p)
        },
{
    crate::text::lemma_first_where(a, p);
    crate::text::lemma_first_where(b, p);
    let fa = crate::text::first_where(a, p);
    let fb = crate::text::first_where(b, p);
    let c = a + b;
    if fa < a.len() {
        assert forall|j: int| 0 <= j < fa implies !p(#[trigger] c[j]) by {
            assert(c[j] == a[j]);
        }
        assert(c[fa] == a[fa]);
        crate::text::lemma_first_where_unique(c, p, fa);
    } else {
        assert forall|j: int| 0 <= j < a.len() + fb implies !p(#[trigger] c[j]) by {
            if j < a.len() {
                assert(c[j] == a[j]);
            } else {
                assert(c[j] == b[j - a.len()]);
            }
        }
        if fb < b.len() {
            assert(c[a.len() + fb] == b[fb]);
        }
        crate::text::lemma_first_where_unique(c, p, a.len() + fb);
    }
}

proof fn lemma_most_specific(gs: Seq<GroupEntry>, ip: IpValue, p: int)
    requires
        p >= -1,
    ensures
        ({
            let r = by_prefix_desc(gs, p);
            let i = first_containing(r, ip);
            &&& 0 <= i <= r.len()
            &&& forall|j: int| 0 <= j < r.len() ==> gs.contains(#[trigger] r[j]) && r[j].0.prefix_len() <= p
            &&& i < r.len() ==> network_contains(r[i].0, ip)
            &&& forall|k: int|
                0 <= k < gs.len() && (#[trigger] gs[k]).0.prefix_len() <= p && network_contains(gs[k].0, ip) ==> i
                    < r.len() && r[i].0.prefix_len() >= gs[k].0.prefix_len()
        }),
    decreases p + 1,
{
    let r = by_prefix_desc(gs, p);
    let q = |e: GroupEntry| network_contains(e.0, ip);
    crate::text::lemma_first_where(r, q);
    if p == -1 {
        assert(r =~= Seq::<GroupEntry>::empty());
        assert forall|k: int| 0 <= k < gs.len() && (#[trigger] gs[k]).0.prefix_len() <= p implies false by {}
    } else {
        let w = with_prefix(gs, p);
        let rest = by_prefix_desc(gs, p - 1);
        lemma_most_specific(gs, ip, p - 1);
        lemma_first_where_concat(w, rest, q);
        crate::text::lemma_first_where(w, q);
        let pw = |e: GroupEntry| e.0.prefix_len() == p;
        assert(r == w + rest);
        assert forall|j: int| 0 <= j < r.len() implies gs.contains(#[trigger] r[j]) && r[j].0.prefix_len() <= p by {
            if j < w.len() {
                assert(r[j] == w[j]);
                gs.lemma_filter_pred(pw, j);
                assert(w.contains(w[j]));
                gs.lemma_filter_contains_rev(pw, w[j]);
            } else {
                assert(r[j] == rest[j - w.len()]);
            }
        }
        let i = first_containing(r, ip);
        assert forall|k: int|
            0 <= k < gs.len() && (#[trigger] gs[k]).0.prefix_len() <= p && network_contains(gs[k].0, ip) implies i
                < r.len() && r[i].0.prefix_len() >= gs[k].0.prefix_len() by {
            let fw = crate::text::first_where(w, q);
            if fw < w.len() {
                assert(r[fw] == w[fw]);
                gs.lemma_filter_pred(pw, fw);
            } else if gs[k].0.prefix_len() == p {
                gs.lemma_filter_contains(pw, k);
                let m = choose|m: int| 0 <= m < w.len() && w[m] == gs[k];
                assert(q(w[m]));
            } else {
                let fr = crate::text::first_where(rest, q);
                assert(r[w.len() + fr] == rest[fr]);
            }
        }
    }
}

proof fn lemma_filter_first(s: Seq<GroupEntry>, pw: spec_fn(GroupEntry) -> bool, q: spec_fn(GroupEntry) -> bool)
    ensures
        ({
            let both = |e: GroupEntry| pw(e) && q(e);
            let k0 = crate::text::first_where(s, both);
            let f = s.filter(pw);
            let fw = crate::text::first_where(f, q);
            &&& (fw < f.len()) == (k0 < s.len())
            &&& fw < f.len() ==> f[fw] == s[k0]
        }),
    decreases s.len(),
{
    let both = |e: GroupEntry| pw(e) && q(e);
    crate::text::lemma_first_where(s, both);
    crate::text::lemma_first_where(s.filter(pw), q);
    if s.len() > 0 {
        let d = s.drop_last();
        let x = s.last();
        lemma_filter_first(d, pw, q);
        crate::text::lemma_first_where(d, both);
        crate::text::lemma_first_where(d.filter(pw), q);
        reveal(Seq::filter);
        assert(d + seq![x] =~= s);
        lemma_first_where_concat(d, seq![x], both);
        crate::text::lemma_first_where(seq![x], both);
        let fd = d.filter(pw);
        assert(s.filter(pw) == if pw(x) { fd.push(x) } else { fd });
        if pw(x) {
            assert(fd + seq![x] =~= fd.push(x));
            lemma_first_where_concat(fd, seq![x], q);
            crate::text::lemma_first_where(seq![x], q);
        }
        let kd = crate::text::first_where(d, both);
        if kd < d.len() {
            assert(s[kd] == d[kd]);
        }
        let fwd = crate::text::first_where(fd, q);
        if pw(x) && fwd < fd.len() {
            assert(fd.push(x)[fwd] == fd[fwd]);
        }
    }
}

proof fn lemma_earliest(gs: Seq<GroupEntry>, ip: IpValue, p: int)
    requires
        p >= -1,
    ensures
        ({
            let r = by_prefix_desc(gs, p);
            let i = first_containing(r, ip);
            i < r.len() ==> exists|k0: int|
                0 <= k0 < gs.len() && gs[k0] == r[i] && forall|k: int|
                    0 <= k < k0 && network_contains((#[trigger] gs[k]).0, ip) ==> gs[k].0.prefix_len()
                        != r[i].0.prefix_len()
        }),
    decreases p + 1,
{
    let r = by_prefix_desc(gs, p);
    let q = |e: GroupEntry| network_contains(e.0, ip);
    crate::text::lemma_first_where(r, q);
    if p == -1 {
        assert(r =~= Seq::<GroupEntry>::empty());
    } else {
        let w = with_prefix(gs, p);
        let rest = by_prefix_desc(gs, p - 1);
        lemma_earliest(gs, ip, p - 1);
        lemma_first_where_concat(w, rest, q);
        crate::text::lemma_first_where(w, q);
        let pw = |e: GroupEntry| e.0.prefix_len() == p;
        assert(r == w + rest);
        let i = first_containing(r, ip);
        let fw = crate::text::first_where(w, q);
        if i < r.len() {
            if fw < w.len() {
                lemma_filter_first(gs, pw, q);
                let both = |e: GroupEntry| pw(e) && q(e);
                let k0 = crate::text::first_where(gs, both);
                crate::text::lemma_first_where(gs, both);
                assert(r[i] == w[fw]);
                assert(gs[k0] == r[i]);
                assert(pw(gs[k0]));
                assert forall|k: int| 0 <= k < k0 && network_contains((#[trigger] gs[k]).0, ip) implies gs[k].0.prefix_len()
                    != r[i].0.prefix_len() by {
                    assert(!both(gs[k]));
                }
            } else {
                let fr = crate::text::first_where(rest, q);
                assert(r[i] == rest[fr]);
            }
        }
    }
}

/// Longest-prefix match: among networks of valid prefix ordered as a
/// resolver keeps them, the first that holds an address is one whose
/// prefix is at least as long as that of every configured network that
/// holds it, and among those of that prefix the earliest configured; none
/// is found exactly when no configured network holds it.
pub proof fn law_most_specific_group(gs: Seq<GroupEntry>, ip: IpValue)
    requires
        forall|k: int| 0 <= k < gs.len() ==> (#[trigger] gs[k]).0.wf(),
    ensures
        ({
            let r = by_prefix_desc(gs, 128);
            let i = first_containing(r, ip);
            &&& (0 <= i < r.len()) == (exists|k: int| 0 <= k < gs.len() && network_contains((#[trigger] gs[k]).0, ip))
            &&& 0 <= i < r.len() ==> gs.contains(r[i]) && network_contains(r[i].0, ip) && forall|k: int|
                0 <= k < gs.len() && network_contains((#[trigger] gs[k]).0, ip) ==> gs[k].0.prefix_len()
                    <= r[i].0.prefix_len()
            &&& 0 <= i < r.len() ==> exists|k0: int|
                0 <= k0 < gs.len() && gs[k0] == r[i] && forall|k: int|
                    0 <= k < k0 && network_contains((#[trigger] gs[k]).0, ip) ==> gs[k].0.prefix_len()
                        < r[i].0.prefix_len()
        }),
{
    lemma_most_specific(gs, ip, 128);
    lemma_earliest(gs, ip, 128);
    let r = by_prefix_desc(gs, 128);
    let i = first_containing(r, ip);
    assert forall|k: int| 0 <= k < gs.len() implies (#[trigger] gs[k]).0.prefix_len() <= 128 by {
        assert(gs[k].0.wf());
    }
    if 0 <= i < r.len() {
        assert(gs.contains(r[i]));
        let k = choose|k: int| 0 <= k < gs.len() && gs[k] == r[i];
        assert(network_contains(gs[k].0, ip));
    }
}

/// The predicate "this text is not a network".
pub open spec fn bad_network() -> spec_fn((Seq<char>, Seq<char>)) -> bool {
    |p: (Seq<char>, Seq<char>)| network_parse(p.0) is None
}

/// Building a resolver's networks fails exactly when some configured text
/// is not a network, and then names the first such text; otherwise it
/// keeps every network with its group, in the configured order.
pub proof fn law_network_parsing(pairs: Seq<(Seq<char>, Seq<char>)>)
    ensures
        ({
            let j = crate::text::first_where(pairs, bad_network());
            match parse_groups(pairs) {
                Err(m) => 0 <= j < pairs.len() && m == "Invalid CIDR "@ + pairs[j].0 + ": "@ + "invalid address: "@
                    + pairs[j].0,
                Ok(gs) => j == pairs.len() && gs.len() == pairs.len() && forall|k: int|
                    0 <= k < pairs.len() ==> #[trigger] gs[k] == (network_parse(pairs[k].0)->0, pairs[k].1),
            }
        }),
        (parse_groups(pairs) is Err) == (exists|k: int| 0 <= k < pairs.len() && network_parse((#[trigger] pairs[k]).0) is None),
    decreases pairs.len(),
{
    crate::text::lemma_first_where(pairs, bad_network());
    if pairs.len() > 0 {
        let rest = pairs.drop_first();
        law_network_parsing(rest);
        crate::text::lemma_first_where(rest, bad_network());
        match parse_groups(pairs) {
            Ok(gs) => {
                let n = network_parse(pairs[0].0)->0;
                let tail = parse_groups(rest)->Ok_0;
                assert(gs == seq![(n, pairs[0].1)] + tail);
                assert forall|k: int| 0 <= k < pairs.len() implies #[trigger] gs[k] == (network_parse(pairs[k].0)->0, pairs[k].1) by {
                    if k > 0 {
                        assert(gs[k] == tail[k - 1]);
                        assert(rest[k - 1] == pairs[k]);
                    }
                }
                assert forall|k: int| 0 <= k < pairs.len() implies !(network_parse((#[trigger] pairs[k]).0) is None) by {
                    if k > 0 {
                        assert(rest[k - 1] == pairs[k]);
                    }
                }
            },
            Err(m) => {
                if network_parse(pairs[0].0) is None {
                } else {
                    let j = crate::text::first_where(rest, bad_network());
                    assert(rest[j] == pairs[j + 1]);
                    assert(pairs[j + 1] == rest[j]);
                }
            },
        }
        if exists|k: int| 0 <= k < pairs.len() && network_parse((#[trigger] pairs[k]).0) is None {
            let k = choose|k: int| 0 <= k < pairs.len() && network_parse((#[trigger] pairs[k]).0) is None;
            if k > 0 {
                assert(rest[k - 1] == pairs[k]);
            }
        }
    }
}

/// The `key = value` pair a configuration line holds, if it is such a line:
/// not blank, not a comment, not a section header; key and value trimmed,
/// the value without surrounding double quotes.
pub open spec fn line_pair(raw: Seq<char>) -> Option<(Seq<char>, Seq<char>)> {
    let line = trim(raw);
    if line.len() == 0 || line[0] == '#' || (line[0] == '[' && line.last() == ']') {
        None
    } else {
        match split_once(line, '=') {
            Some((k, v)) => Some((trim(k), trim_char(trim(v), '"'))),
            None => None,
        }
    }
}

/// The section in effect at line `j` of a configuration text.
pub open spec fn section_at(ls: Seq<Seq<char>>, j: int) -> Seq<char> {
    config_lines(ls.subrange(0, j)).0
}

proof fn lemma_insert_entry_elems(s: Entries, k: Seq<char>, v: Seq<char>)
    ensures
        forall|i: int| 0 <= i < insert_entry(s, k, v).len() ==> #[trigger] insert_entry(s, k, v)[i] == (k, v)
            || s.contains(insert_entry(s, k, v)[i]),
{
    let t = insert_entry(s, k, v);
    assert forall|i: int| 0 <= i < t.len() implies #[trigger] t[i] == (k, v) || s.contains(t[i]) by {
        if i < s.len() && t[i] != (k, v) {
            assert(t[i] == s[i]);
        }
    }
}

/// Some line of `ls` under section `section` holds the pair `x`.
pub open spec fn pair_from_line(ls: Seq<Seq<char>>, section: Seq<char>, x: (Seq<char>, Seq<char>)) -> bool {
    exists|j: int| 0 <= j < ls.len() && section_at(ls, j) == section && #[trigger] line_pair(ls[j]) == Some(x)
}

/// Every pair a configuration text yields comes from a `key = value` line
/// of it under the matching section header: `[aliases]` for an alias,
/// `[cidr_groups]` for a network group.
pub proof fn law_config_pairs_from_lines(ls: Seq<Seq<char>>)
    ensures
        forall|i: int| 0 <= i < config_lines(ls).1.len() ==> pair_from_line(ls, "aliases"@, #[trigger] config_lines(ls).1[i]),
        forall|i: int| 0 <= i < config_lines(ls).2.len() ==> pair_from_line(ls, "cidr_groups"@, #[trigger] config_lines(ls).2[i]),
    decreases ls.len(),
{
    if ls.len() > 0 {
        let d = ls.drop_last();
        let l = ls.last();
        let n = d.len() as int;
        law_config_pairs_from_lines(d);
        let st = config_lines(d);
        let line = trim(l);
        assert(ls.subrange(0, n) =~= d);
        assert(ls[n] == l);
        assert forall|j: int| 0 <= j < n implies section_at(ls, j) == section_at(d, j) && ls[j] == d[j] by {
            assert(ls.subrange(0, j) =~= d.subrange(0, j));
        }
        assert forall|sec: Seq<char>, x: (Seq<char>, Seq<char>)| pair_from_line(d, sec, x) implies pair_from_line(ls, sec, x) by {
            let j = choose|j: int| 0 <= j < d.len() && section_at(d, j) == sec && #[trigger] line_pair(d[j]) == Some(x);
            assert(ls[j] == d[j]);
            assert(section_at(ls, j) == section_at(d, j));
        }
        assert forall|x: (Seq<char>, Seq<char>)| st.1.contains(x) implies pair_from_line(d, "aliases"@, x) by {
            let m = choose|m: int| 0 <= m < st.1.len() && st.1[m] == x;
            assert(pair_from_line(d, "aliases"@, st.1[m]));
        }
        assert forall|x: (Seq<char>, Seq<char>)| st.2.contains(x) implies pair_from_line(d, "cidr_groups"@, x) by {
            let m = choose|m: int| 0 <= m < st.2.len() && st.2[m] == x;
            assert(pair_from_line(d, "cidr_groups"@, st.2[m]));
        }
        let r = config_lines(ls);
        assert(r == config_line(st, l));
        assert(section_at(ls, n) == st.0);
        if !(line.len() == 0 || line[0] == '#') && !(line[0] == '[' && line.last() == ']') {
            match split_once(line, '=') {
                Some((k, v)) => {
                    let key = trim(k);
                    let value = trim_char(trim(v), '"');
                    assert(line_pair(l) == Some((key, value)));
                    lemma_insert_entry_elems(st.1, key, value);
                    lemma_insert_entry_elems(st.2, key, value);
                    if st.0 == "aliases"@ {
                        assert(pair_from_line(ls, "aliases"@, (key, value))) by {
                            assert(line_pair(ls[n]) == Some((key, value)));
                        }
                    }
                    if st.0 == "cidr_groups"@ {
                        assert(pair_from_line(ls, "cidr_groups"@, (key, value))) by {
                            assert(line_pair(ls[n]) == Some((key, value)));
                        }
                    }
                },
                None => {},
            }
        }
        assert forall|i: int| 0 <= i < r.1.len() implies pair_from_line(ls, "aliases"@, #[trigger] r.1[i]) by {
            if r.1 == st.1 {
                assert(pair_from_line(d, "aliases"@, st.1[i]));
            }
        }
        assert forall|i: int| 0 <= i < r.2.len() implies pair_from_line(ls, "cidr_groups"@, #[trigger] r.2[i]) by {
            if r.2 == st.2 {
                assert(pair_from_line(d, "cidr_groups"@, st.2[i]));
            }
        }
    }
}

/// The first address of the aligned block of `2^s` addresses that holds `a`.
pub open spec fn block_start(a: int, s: nat) -> int {
    a - a % (vstd::arithmetic::power2::pow2(s) as int)
}

/// Whether `y` lies in the aligned block of `2^s` addresses that holds `a`.
pub open spec fn same_block(a: int, y: int, s: nat) -> bool {
    block_start(a, s) <= y < block_start(a, s) + vstd::arithmetic::power2::pow2(s)
}

proof fn lemma_same_quotient(x: int, a: int, d: int)
    requires
        d > 0,
    ensures
        (x / d == a / d) == (a - a % d <= x < a - a % d + d),
{
    vstd::arithmetic::div_mod::lemma_fundamental_div_mod(x, d);
    vstd::arithmetic::div_mod::lemma_fundamental_div_mod(a, d);
    vstd::arithmetic::div_mod::lemma_mod_bound(x, d);
    vstd::arithmetic::div_mod::lemma_mod_bound(a, d);
    let q = a / d;
    if a - a % d <= x < a - a % d + d {
        assert(a - a % d == q * d) by (nonlinear_arith)
            requires
                a == d * (a / d) + a % d,
                q == a / d,
        ;
        vstd::arithmetic::div_mod::lemma_fundamental_div_mod_converse(x, d, q, x - q * d);
    }
    if x / d == a / d {
        assert(x - x % d == a - a % d) by (nonlinear_arith)
            requires
                a == d * (a / d) + a % d,
                x == d * (x / d) + x % d,
                x / d == a / d,
        ;
    }
}

/// Networks hold aligned address blocks: a network with prefix `p` holds
/// exactly the addresses of its own family that lie in the aligned block of
/// `2^(w - p)` addresses (`w` the address width) holding its base address,
/// that is those agreeing with the base address on the top `p` bits, for
/// every `p` (so `172.16.0.0/12` holds `172.16.0.0` to `172.31.255.255`).
pub proof fn law_network_block(n: Network, x: IpValue)
    requires
        n.wf(),
    ensures
        match (n, x) {
            (Network::V4 { addr, prefix }, IpValue::V4(y)) => network_contains(n, x) == same_block(
                addr as int,
                y as int,
                (32 - prefix) as nat,
            ),
            (Network::V6 { addr, prefix }, IpValue::V6(y)) => network_contains(n, x) == same_block(
                addr as int,
                y as int,
                (128 - prefix) as nat,
            ),
            _ => !network_contains(n, x),
        },
{
    match (n, x) {
        (Network::V4 { addr, prefix }, IpValue::V4(y)) => {
            let s = (32 - prefix) as nat;
            vstd::arithmetic::power2::lemma_pow2_pos(s);
            let d = vstd::arithmetic::power2::pow2(s) as int;
            if prefix == 0 {
                vstd::arithmetic::power2::lemma2_to64();
                vstd::arithmetic::div_mod::lemma_small_mod(addr as nat, d as nat);
            } else {
                vstd::bits::lemma_u32_shr_is_div(y, (32 - prefix) as u32);
                vstd::bits::lemma_u32_shr_is_div(addr, (32 - prefix) as u32);
                lemma_same_quotient(y as int, addr as int, d);
            }
        },
        (Network::V6 { addr, prefix }, IpValue::V6(y)) => {
            let s = (128 - prefix) as nat;
            vstd::arithmetic::power2::lemma_pow2_pos(s);
            let d = vstd::arithmetic::power2::pow2(s) as int;
            if prefix == 0 {
                vstd::arithmetic::power2::lemma2_to64();
                vstd::arithmetic::power2::lemma2_to64_rest();
                vstd::arithmetic::power2::lemma_pow2_adds(64, 64);
                assert(vstd::arithmetic::power2::pow2(128) == 0x1_0000_0000_0000_0000_0000_0000_0000_0000);
                vstd::arithmetic::div_mod::lemma_small_mod(addr as nat, d as nat);
            } else {
                vstd::bits::lemma_u128_shr_is_div(y, (128 - prefix) as u128);
                vstd::bits::lemma_u128_shr_is_div(addr, (128 - prefix) as u128);
                lemma_same_quotient(y as int, addr as int, d);
            }
        },
        _ => {},
    }
}

} // verus!
