//! Correlation of events into attack chains, and the incident store.

use vstd::prelude::*;
use vstd::string::StringExecFns;
use std::collections::VecDeque;
use crate::graph::{EdgeView, EventEdge, opt_view};
use crate::platform::{Timestamp, elapsed_secs, new_uuid_v4, seconds_between, utc_now, uuid_string, uuid_text};
use crate::shared::EventType;
use crate::text::{chars_of, contains, contains_chars, str_eq, uppercase};

verus! {

// ---------------------------------------------------------------------
// Chain types and incidents
// ---------------------------------------------------------------------

/// The attack chains the correlator recognises.
#[derive(Clone, Copy, Debug, PartialEq, Eq, Structural)]
pub enum ChainType {
    BruteForceSuccess,
    LateralMove,
    ExfilCandidate,
    PrivilegeEscalate,
}

/// The bits of the `f32` value 7.5.
pub const CVSS_7_5_BITS: u32 = 0x40F0_0000;

/// The bits of the `f32` value 8.0.
pub const CVSS_8_0_BITS: u32 = 0x4100_0000;

/// The bits of the `f32` value 9.0.
pub const CVSS_9_0_BITS: u32 = 0x4110_0000;

/// The bits of the `f32` value 6.5.
pub const CVSS_6_5_BITS: u32 = 0x40D0_0000;

/// The bits of the `f32` value 1.0.
pub const ONE_BITS: u32 = 0x3F80_0000;

/// The bits of the `f32` value 2.0.
pub const TWO_BITS: u32 = 0x4000_0000;

/// The bits of the `f32` value 4.0.
pub const FOUR_BITS: u32 = 0x4080_0000;

/// The severity, technique identifiers and CVSS score (as `f32` bits) of a chain.
pub open spec fn chain_metadata(c: ChainType) -> (Seq<char>, Seq<Seq<char>>, u32) {
    match c {
        ChainType::BruteForceSuccess => ("HIGH"@, seq!["T1110"@, "TA0001"@], CVSS_7_5_BITS),
        ChainType::LateralMove => ("HIGH"@, seq!["T1021"@, "TA0008"@], CVSS_8_0_BITS),
        ChainType::ExfilCandidate => ("CRITICAL"@, seq!["T1041"@, "TA0010"@], CVSS_9_0_BITS),
        ChainType::PrivilegeEscalate => ("MEDIUM"@, seq!["T1068"@, "TA0004"@], CVSS_6_5_BITS),
    }
}

/// The views of a list of strings.
pub open spec fn strings_view(v: Seq<String>) -> Seq<Seq<char>> {
    v.map_values(|s: String| s@)
}

/// A list of two strings.
fn two_strings(a: &str, b: &str) -> (r: Vec<String>)
    ensures
        strings_view(r@) == seq![a@, b@],
{
    let mut v: Vec<String> = Vec::new();
    v.push(String::from_str(a));
    v.push(String::from_str(b));
    assert(strings_view(v@) =~= seq![a@, b@]);
    v
}

impl ChainType {
    /// The severity, technique identifiers and CVSS score (as `f32` bits).
    pub fn metadata(&self) -> (r: (String, Vec<String>, u32))
        ensures
            (r.0@, strings_view(r.1@), r.2) == chain_metadata(*self),
    {
        match self {
            ChainType::BruteForceSuccess => (String::from_str("HIGH"), two_strings("T1110", "TA0001"), CVSS_7_5_BITS),
            ChainType::LateralMove => (String::from_str("HIGH"), two_strings("T1021", "TA0008"), CVSS_8_0_BITS),
            ChainType::ExfilCandidate => (String::from_str("CRITICAL"), two_strings("T1041", "TA0010"), CVSS_9_0_BITS),
            ChainType::PrivilegeEscalate => (String::from_str("MEDIUM"), two_strings("T1068", "TA0004"), CVSS_6_5_BITS),
        }
    }
}

/// A security incident. Scores are the bits of IEEE-754 `f32` values.
#[derive(Clone, Debug)]
pub struct Incident {
    pub id: String,
    pub timestamp: Timestamp,
    pub severity: String,
    pub chain: Vec<String>,
    pub entities: Vec<String>,
    pub sigma_score_bits: u32,
    pub z_score_bits: u32,
    pub ioc_match: Option<String>,
    pub cvss_bits: u32,
    pub base_signal_bits: u32,
    pub summary: Option<String>,
    pub actions: Option<Vec<String>>,
}

/// The plain content of an incident.
pub struct IncidentView {
    pub id: Seq<char>,
    pub timestamp: Timestamp,
    pub severity: Seq<char>,
    pub chain: Seq<Seq<char>>,
    pub entities: Seq<Seq<char>>,
    pub sigma_score_bits: u32,
    pub z_score_bits: u32,
    pub ioc_match: Option<Seq<char>>,
    pub cvss_bits: u32,
    pub base_signal_bits: u32,
    pub summary: Option<Seq<char>>,
    pub actions: Option<Seq<Seq<char>>>,
}

impl View for Incident {
    type V = IncidentView;

    open spec fn view(&self) -> IncidentView {
        IncidentView {
            id: self.id@,
            timestamp: self.timestamp,
            severity: self.severity@,
            chain: strings_view(self.chain@),
            entities: strings_view(self.entities@),
            sigma_score_bits: self.sigma_score_bits,
            z_score_bits: self.z_score_bits,
            ioc_match: opt_view(self.ioc_match),
            cvss_bits: self.cvss_bits,
            base_signal_bits: self.base_signal_bits,
            summary: opt_view(self.summary),
            actions: match self.actions {
                Some(v) => Some(strings_view(v@)),
                None => None,
            },
        }
    }
}

/// A copy of a list of strings.
pub fn copy_strings(v: &Vec<String>) -> (r: Vec<String>)
    ensures
        strings_view(r@) == strings_view(v@),
{
    let mut r: Vec<String> = Vec::new();
    let mut i: usize = 0;
    while i < v.len()
        invariant
            i <= v.len(),
            strings_view(r@) == strings_view(v@.subrange(0, i as int)),
        decreases v.len() - i,
    {
        let ghost before = r@;
        let c = v[i].clone();
        r.push(c);
        assert(r@ == before.push(c));
        assert(v@.subrange(0, i + 1) =~= v@.subrange(0, i as int).push(v@[i as int]));
        assert(strings_view(r@) =~= strings_view(before).push(c@));
        assert(strings_view(v@.subrange(0, i + 1)) =~= strings_view(v@.subrange(0, i as int)).push(v@[i as int]@));
        i = i + 1;
    }
    assert(v@.subrange(0, v.len() as int) =~= v@);
    r
}

/// A copy of an optional string.
fn copy_opt(o: &Option<String>) -> (r: Option<String>)
    ensures
        opt_view(r) == opt_view(*o),
{
    match o {
        Some(s) => Some(s.clone()),
        None => None,
    }
}

impl Incident {
    /// A new incident for a chain, with a fresh random identifier and the
    /// current time; its severity, techniques and CVSS come from the chain,
    /// and both its signal and its sigma score are `base_signal_bits`.
    pub fn new(chain_type: &ChainType, entities: Vec<String>, base_signal_bits: u32) -> (r: Incident)
        ensures
            ({
                let (severity, chain, cvss) = chain_metadata(*chain_type);
                &&& r@.severity == severity
                &&& r@.chain == chain
                &&& r@.cvss_bits == cvss
                &&& r@.entities == strings_view(entities@)
                &&& r@.sigma_score_bits == base_signal_bits
                &&& r@.base_signal_bits == base_signal_bits
                &&& r@.z_score_bits == 0
                &&& r@.ioc_match is None
                &&& r@.summary is None
                &&& r@.actions is None
                &&& r@.timestamp.wf()
                &&& exists|u: u128| r@.id == #[trigger] uuid_text(u)
            }),
    {
        let (severity, chain, cvss) = chain_type.metadata();
        let u = new_uuid_v4();
        Incident {
            id: uuid_string(u),
            timestamp: utc_now(),
            severity,
            chain,
            entities,
            sigma_score_bits: base_signal_bits,
            z_score_bits: 0,
            ioc_match: None,
            cvss_bits: cvss,
            base_signal_bits,
            summary: None,
            actions: None,
        }
    }

    /// A copy of the incident.
    pub fn duplicate(&self) -> (r: Incident)
        ensures
            r@ == self@,
    {
        Incident {
            id: self.id.clone(),
            timestamp: self.timestamp,
            severity: self.severity.clone(),
            chain: copy_strings(&self.chain),
            entities: copy_strings(&self.entities),
            sigma_score_bits: self.sigma_score_bits,
            z_score_bits: self.z_score_bits,
            ioc_match: copy_opt(&self.ioc_match),
            cvss_bits: self.cvss_bits,
            base_signal_bits: self.base_signal_bits,
            summary: copy_opt(&self.summary),
            actions: match &self.actions {
                Some(v) => Some(copy_strings(v)),
                None => None,
            },
        }
    }
}

// ---------------------------------------------------------------------
// A bounded queue
// ---------------------------------------------------------------------

/// A queue that drops its oldest item when a push finds it full.
pub struct VecDequeWithMax<T> {
    data: VecDeque<T>,
    max_capacity: usize,
}

/// The items after pushing `x` onto a queue holding `s` with room for `cap`.
pub open spec fn bounded_push<T>(s: Seq<T>, cap: nat, x: T) -> Seq<T> {
    if s.len() >= cap && s.len() > 0 {
        s.drop_first().push(x)
    } else {
        s.push(x)
    }
}

impl<T> VecDequeWithMax<T> {
    /// The items, oldest first.
    pub closed spec fn items(&self) -> Seq<T> {
        self.data@
    }

    /// The capacity.
    pub closed spec fn capacity(&self) -> nat {
        self.max_capacity as nat
    }

    /// An empty queue with room for `max_capacity` items.
    pub fn new(max_capacity: usize) -> (r: VecDequeWithMax<T>)
        ensures
            r.items() == Seq::<T>::empty(),
            r.capacity() == max_capacity,
    {
        VecDequeWithMax { data: VecDeque::new(), max_capacity }
    }

    /// Appends `item`, first dropping the oldest item when the queue is full.
    pub fn push_back(&mut self, item: T)
        ensures
            final(self).items() == bounded_push(old(self).items(), old(self).capacity(), item),
            final(self).capacity() == old(self).capacity(),
    {
        if self.data.len() >= self.max_capacity {
            let _ = self.data.pop_front();
        }
        self.data.push_back(item);
    }

    /// References to the items, oldest first.
    pub fn get_all(&self) -> (r: Vec<&T>)
        ensures
            r@.len() == self.items().len(),
            forall|i: int| 0 <= i < r@.len() ==> *r@[i] == self.items()[i],
    {
        let mut r: Vec<&T> = Vec::new();
        let mut i: usize = 0;
        while i < self.data.len()
            invariant
                i <= self.data@.len(),
                r@.len() == i,
                forall|k: int| 0 <= k < i ==> *r@[k] == self.data@[k],
            decreases self.data@.len() - i,
        {
            r.push(&self.data[i]);
            i = i + 1;
        }
        r
    }
}

// ---------------------------------------------------------------------
// Thresholds
// ---------------------------------------------------------------------

/// The windows, counts and weights of correlation. `exfil_min_zscore_bits`
/// and the criticality weights are the bits of `f32` values.
pub struct CorrelationThresholds {
    pub max_chain_window_secs: i64,
    pub lateral_move_window_secs: i64,
    pub priv_esc_window_secs: i64,
    pub brute_force_min_attempts: usize,
    pub exfil_min_zscore_bits: u32,
    pub asset_criticality: Vec<(String, u32)>,
}

/// The criticality recorded for an entity key (the first entry with that key).
pub open spec fn criticality_of(table: Seq<(Seq<char>, u32)>, key: Seq<char>) -> u32 {
    let i = crate::text::first_where(table, |e: (Seq<char>, u32)| e.0 == key);
    if 0 <= i < table.len() {
        table[i].1
    } else {
        ONE_BITS
    }
}

/// A configured number as the thresholds read it: the value as an `i64`
/// and as a `u64` where it is one, and as an `f32` (its bits) where it is
/// a number at all.
#[derive(Clone, Copy, Debug)]
pub struct ConfigNumber {
    pub as_i64: Option<i64>,
    pub as_u64: Option<u64>,
    pub as_f32_bits: Option<u32>,
}

/// The view of a threshold configuration.
pub open spec fn config_view(c: Seq<(String, ConfigNumber)>) -> Seq<(Seq<char>, ConfigNumber)> {
    c.map_values(|e: (String, ConfigNumber)| (e.0@, e.1))
}

/// The number configured under `key` (the first entry with that key).
pub open spec fn config_entry(c: Seq<(Seq<char>, ConfigNumber)>, key: Seq<char>) -> Option<ConfigNumber> {
    let i = crate::text::first_where(c, |e: (Seq<char>, ConfigNumber)| e.0 == key);
    if 0 <= i < c.len() {
        Some(c[i].1)
    } else {
        None
    }
}

/// A configured `i64` under `key`, else `d`.
pub open spec fn config_i64(c: Seq<(Seq<char>, ConfigNumber)>, key: Seq<char>, d: i64) -> i64 {
    match config_entry(c, key) {
        Some(n) => match n.as_i64 {
            Some(v) => v,
            None => d,
        },
        None => d,
    }
}

/// The number configured under `key`.
fn find_number(config: &Vec<(String, ConfigNumber)>, key: &str) -> (r: Option<ConfigNumber>)
    ensures
        r == config_entry(config_view(config@), key@),
{
    let ghost t = config_view(config@);
    let ghost p = |e: (Seq<char>, ConfigNumber)| e.0 == key@;
    let mut i: usize = 0;
    while i < config.len()
        invariant
            t == config_view(config@),
            p == (|e: (Seq<char>, ConfigNumber)| e.0 == key@),
            i <= t.len(),
            t.len() == config@.len(),
            forall|j: int| 0 <= j < i ==> !p(#[trigger] t[j]),
        decreases config.len() - i,
    {
        assert(t[i as int] == (config@[i as int].0@, config@[i as int].1));
        if str_eq(config[i].0.as_str(), key) {
            proof {
                crate::text::lemma_first_where_unique(t, p, i as int);
            }
            return Some(config[i].1);
        }
        i = i + 1;
    }
    proof {
        crate::text::lemma_first_where_unique(t, p, i as int);
    }
    None
}

impl CorrelationThresholds {
    /// The plain content of the thresholds.
    pub open spec fn view_of(&self) -> ThresholdView {
        ThresholdView {
            max_chain_window_secs: self.max_chain_window_secs,
            lateral_move_window_secs: self.lateral_move_window_secs,
            priv_esc_window_secs: self.priv_esc_window_secs,
            brute_force_min_attempts: self.brute_force_min_attempts,
            exfil_min_zscore_bits: self.exfil_min_zscore_bits,
            criticality: self.criticality_table(),
        }
    }

    /// The view of the criticality table.
    pub open spec fn criticality_table(&self) -> Seq<(Seq<char>, u32)> {
        self.asset_criticality@.map_values(|e: (String, u32)| (e.0@, e.1))
    }

    /// The default thresholds (see `default_thresholds`): brute force within
    /// 60 s, lateral movement within 15 minutes, privilege escalation within
    /// 5 minutes.
    pub fn default() -> (r: CorrelationThresholds)
        ensures
            r.view_of() == default_thresholds(),
            r.max_chain_window_secs == 60,
            r.lateral_move_window_secs == 900,
            r.priv_esc_window_secs == 300,
            r.brute_force_min_attempts == 5,
            r.exfil_min_zscore_bits == FOUR_BITS,
            r.criticality_table() == seq![
                ("subnet:internal-a"@, TWO_BITS),
                ("user:admin"@, TWO_BITS),
                ("device:dc01"@, TWO_BITS),
            ],
    {
        let mut table: Vec<(String, u32)> = Vec::new();
        table.push((String::from_str("subnet:internal-a"), TWO_BITS));
        table.push((String::from_str("user:admin"), TWO_BITS));
        table.push((String::from_str("device:dc01"), TWO_BITS));
        let r = CorrelationThresholds {
            max_chain_window_secs: 60,
            lateral_move_window_secs: 900,
            priv_esc_window_secs: 300,
            brute_force_min_attempts: 5,
            exfil_min_zscore_bits: FOUR_BITS,
            asset_criticality: table,
        };
        assert(r.criticality_table() =~= seq![
            ("subnet:internal-a"@, TWO_BITS),
            ("user:admin"@, TWO_BITS),
            ("device:dc01"@, TWO_BITS),
        ]);
        r
    }

    /// The default thresholds with each configured number in place of its
    /// default: the three windows where configured as `i64`, the attempt
    /// count where configured as `u64`, the z-score where configured as a
    /// number.
    pub fn from_config(config: &Vec<(String, ConfigNumber)>) -> (r: CorrelationThresholds)
        ensures
            ({
                let c = config_view(config@);
                &&& r.max_chain_window_secs == config_i64(c, "max_chain_window_secs"@, 60)
                &&& r.lateral_move_window_secs == config_i64(c, "lateral_move_window_secs"@, 900)
                &&& r.priv_esc_window_secs == config_i64(c, "priv_esc_window_secs"@, 300)
                &&& r.brute_force_min_attempts == match config_entry(c, "brute_force_min_attempts"@) {
                    Some(n) => match n.as_u64 {
                        Some(v) => v as usize,
                        None => 5usize,
                    },
                    None => 5usize,
                }
                &&& r.exfil_min_zscore_bits == match config_entry(c, "exfil_min_zscore"@) {
                    Some(n) => match n.as_f32_bits {
                        Some(v) => v,
                        None => FOUR_BITS,
                    },
                    None => FOUR_BITS,
                }
                &&& r.criticality_table() == seq![
                    ("subnet:internal-a"@, TWO_BITS),
                    ("user:admin"@, TWO_BITS),
                    ("device:dc01"@, TWO_BITS),
                ]
            }),
    {
        let mut t = CorrelationThresholds::default();
        match find_number(config, "max_chain_window_secs") {
            Some(n) => match n.as_i64 {
                Some(v) => t.max_chain_window_secs = v,
                None => {},
            },
            None => {},
        }
        match find_number(config, "lateral_move_window_secs") {
            Some(n) => match n.as_i64 {
                Some(v) => t.lateral_move_window_secs = v,
                None => {},
            },
            None => {},
        }
        match find_number(config, "priv_esc_window_secs") {
            Some(n) => match n.as_i64 {
                Some(v) => t.priv_esc_window_secs = v,
                None => {},
            },
            None => {},
        }
        match find_number(config, "brute_force_min_attempts") {
            Some(n) => match n.as_u64 {
                Some(v) => t.brute_force_min_attempts = v as usize,
                None => {},
            },
            None => {},
        }
        match find_number(config, "exfil_min_zscore") {
            Some(n) => match n.as_f32_bits {
                Some(v) => t.exfil_min_zscore_bits = v,
                None => {},
            },
            None => {},
        }
        t
    }

    /// The criticality weight of an entity (as `f32` bits): its entry, or 1.0.
    pub fn get_asset_criticality(&self, entity: &str) -> (r: u32)
        ensures
            r == criticality_of(self.criticality_table(), entity@),
    {
        let ghost t = self.criticality_table();
        let ghost p = |e: (Seq<char>, u32)| e.0 == entity@;
        let mut i: usize = 0;
        while i < self.asset_criticality.len()
            invariant
                t == self.criticality_table(),
                p == (|e: (Seq<char>, u32)| e.0 == entity@),
                i <= t.len(),
                t.len() == self.asset_criticality@.len(),
                forall|j: int| 0 <= j < i ==> !p(#[trigger] t[j]),
            decreases self.asset_criticality.len() - i,
        {
            assert(t[i as int] == (self.asset_criticality@[i as int].0@, self.asset_criticality@[i as int].1));
            if str_eq(self.asset_criticality[i].0.as_str(), entity) {
                proof {
                    crate::text::lemma_first_where_unique(t, p, i as int);
                }
                return self.asset_criticality[i].1;
            }
            i = i + 1;
        }
        proof {
            crate::text::lemma_first_where_unique(t, p, i as int);
        }
        ONE_BITS
    }
}

// ---------------------------------------------------------------------
// Correlation
// ---------------------------------------------------------------------

/// The `f32` whose bits are `b` is greater than 0.5: a positive number
/// above one half, or positive infinity (a NaN compares false).
pub open spec fn bits_gt_half(b: u32) -> bool {
    0x3F00_0000 < b && b <= 0x7F80_0000
}

/// A failed login for brute-force counting: a login without a rule, or whose
/// rule mentions `failed`, or whose score is above one half.
pub open spec fn is_failed_login(e: EdgeView) -> bool {
    e.event_type == EventType::Login && match e.sigma_rule_id {
        None => true,
        Some(id) => contains(id, "failed"@) || bits_gt_half(e.score_bits),
    }
}

/// The failed logins among `es`, in order.
pub open spec fn failed_logins(es: Seq<EdgeView>) -> Seq<EdgeView>
    decreases es.len(),
{
    if es.len() == 0 {
        seq![]
    } else {
        let p = failed_logins(es.drop_last());
        if is_failed_login(es.last()) {
            p.push(es.last())
        } else {
            p
        }
    }
}

/// The earliest time stamp of a non-empty list of events.
pub open spec fn earliest(es: Seq<EdgeView>) -> Timestamp
    decreases es.len(),
{
    if es.len() <= 1 {
        es[0].timestamp
    } else {
        let e = earliest(es.drop_last());
        if es.last().timestamp.total_nanos() < e.total_nanos() {
            es.last().timestamp
        } else {
            e
        }
    }
}

/// The latest time stamp of a non-empty list of events.
pub open spec fn latest(es: Seq<EdgeView>) -> Timestamp
    decreases es.len(),
{
    if es.len() <= 1 {
        es[0].timestamp
    } else {
        let e = latest(es.drop_last());
        if es.last().timestamp.total_nanos() > e.total_nanos() {
            es.last().timestamp
        } else {
            e
        }
    }
}

/// Brute force: at least the minimum number of failed logins (and at least
/// one), the first and last within the chain window.
pub open spec fn brute_force(es: Seq<EdgeView>, min_attempts: nat, window: i64) -> bool {
    let f = failed_logins(es);
    f.len() >= min_attempts && f.len() > 0 && seconds_between(latest(f), earliest(f)) <= window
}

/// A rule identifier that names a common service port (80, 443 or 22).
pub open spec fn names_common_port(id: Option<Seq<char>>) -> bool {
    match id {
        Some(s) => contains(s, "80"@) || contains(s, "443"@) || contains(s, "22"@),
        None => false,
    }
}

/// The absolute value.
pub open spec fn abs(x: int) -> int {
    if x < 0 {
        -x
    } else {
        x
    }
}

/// An outbound connection within the lateral-movement window of a login.
pub open spec fn lateral_partner(login: EdgeView, c: EdgeView, window: i64) -> bool {
    &&& c.event_type == EventType::Connect
    &&& abs(seconds_between(login.timestamp, c.timestamp)) <= window
    &&& !names_common_port(c.sigma_rule_id)
}

/// A login at `i` with an outbound connection at `j` near it.
pub open spec fn lateral_pair(es: Seq<EdgeView>, i: int, j: int, window: i64) -> bool {
    es[i].event_type == EventType::Login && lateral_partner(es[i], es[j], window)
}

/// Lateral movement: a login with an outbound connection near it.
pub open spec fn lateral_move(es: Seq<EdgeView>, window: i64) -> bool {
    exists|i: int, j: int| 0 <= i < es.len() && 0 <= j < es.len() && #[trigger] lateral_pair(es, i, j, window)
}

/// A connection whose rule marks it outbound or external.
pub open spec fn is_exfil_connect(e: EdgeView) -> bool {
    e.event_type == EventType::Connect && match e.sigma_rule_id {
        Some(id) => contains(id, "outbound"@) || contains(id, "external"@),
        None => false,
    }
}

/// Some event is a file access.
pub open spec fn has_access(es: Seq<EdgeView>) -> bool {
    exists|i: int| 0 <= i < es.len() && #[trigger] es[i].event_type == EventType::Access
}

/// The first outbound or external connection whose z-score reaches the
/// exfiltration threshold, when some event is an access.
pub open spec fn exfil_edge(es: Seq<EdgeView>, reached: Seq<bool>) -> Option<int> {
    let i = crate::text::first_where(
        Seq::new(es.len(), |k: int| (es[k], reached[k])),
        |p: (EdgeView, bool)| is_exfil_connect(p.0) && p.1,
    );
    if has_access(es) && 0 <= i < es.len() {
        Some(i)
    } else {
        None
    }
}

/// Privilege escalation: a login, an escalation near it and a file access
/// near the escalation.
pub open spec fn privilege_escalate(es: Seq<EdgeView>, window: i64) -> bool {
    exists|i: int, j: int, k: int|
        0 <= i < es.len() && 0 <= j < es.len() && 0 <= k < es.len() && #[trigger] esc_triple(es, i, j, k, window)
}

/// A recognised chain: its type and the entities it names; for
/// exfiltration, the position of the connection that reached the threshold.
#[derive(Clone, Debug)]
pub struct Correlation {
    pub chain_type: ChainType,
    pub entities: Vec<String>,
    pub exfil_edge: Option<usize>,
}

/// The chain recognised in `es`, trying brute force, lateral movement,
/// exfiltration and privilege escalation in that order.
pub open spec fn correlation_of(es: Seq<EdgeView>, reached: Seq<bool>, t: ThresholdView) -> Option<(ChainType, Option<int>)> {
    if es.len() == 0 {
        None
    } else if brute_force(es, t.brute_force_min_attempts as nat, t.max_chain_window_secs) {
        Some((ChainType::BruteForceSuccess, None))
    } else if lateral_move(es, t.lateral_move_window_secs) {
        Some((ChainType::LateralMove, None))
    } else if exfil_edge(es, reached) is Some {
        Some((ChainType::ExfilCandidate, exfil_edge(es, reached)))
    } else if privilege_escalate(es, t.priv_esc_window_secs) {
        Some((ChainType::PrivilegeEscalate, None))
    } else {
        None
    }
}

/// The entities an incident of each chain names.
pub open spec fn chain_entities(c: ChainType) -> Seq<Seq<char>> {
    match c {
        ChainType::BruteForceSuccess => seq!["src_entity"@],
        ChainType::LateralMove => seq!["source"@, "target"@],
        ChainType::ExfilCandidate => seq!["internal_host"@, "external_ip"@],
        ChainType::PrivilegeEscalate => seq!["user"@],
    }
}

/// The bits of the `f32` value 0.8.
pub const SIGNAL_0_8_BITS: u32 = 0x3F4C_CCCD;

/// The bits of the `f32` value 0.7.
pub const SIGNAL_0_7_BITS: u32 = 0x3F33_3333;

/// The bits of the `f32` value 0.9.
pub const SIGNAL_0_9_BITS: u32 = 0x3F66_6666;

/// The bits of the `f32` value 0.6.
pub const SIGNAL_0_6_BITS: u32 = 0x3F19_999A;

/// The bits of the `f32` value 1.25.
pub const WEIGHT_1_25_BITS: u32 = 0x3FA0_0000;

/// The bits of the `f32` value 1.75.
pub const WEIGHT_1_75_BITS: u32 = 0x3FE0_0000;

/// How an incident of each chain is scored: its base signal and its
/// tactic-span weight (as `f32` bits), and the entity key whose asset
/// criticality also scales it (none for lateral movement).
pub open spec fn chain_scoring(c: ChainType) -> (u32, u32, Option<Seq<char>>) {
    match c {
        ChainType::BruteForceSuccess => (SIGNAL_0_8_BITS, WEIGHT_1_25_BITS, Some("src_entity"@)),
        ChainType::LateralMove => (SIGNAL_0_7_BITS, WEIGHT_1_25_BITS, None),
        ChainType::ExfilCandidate => (SIGNAL_0_9_BITS, WEIGHT_1_25_BITS, Some("internal_host"@)),
        ChainType::PrivilegeEscalate => (SIGNAL_0_6_BITS, WEIGHT_1_75_BITS, Some("user:admin"@)),
    }
}

impl ChainType {
    /// How an incident of this chain is scored (see `chain_scoring`).
    pub fn scoring(&self) -> (r: (u32, u32, Option<String>))
        ensures
            (r.0, r.1, opt_view(r.2)) == chain_scoring(*self),
    {
        match self {
            ChainType::BruteForceSuccess => (SIGNAL_0_8_BITS, WEIGHT_1_25_BITS, Some(String::from_str("src_entity"))),
            ChainType::LateralMove => (SIGNAL_0_7_BITS, WEIGHT_1_25_BITS, None),
            ChainType::ExfilCandidate => (
                SIGNAL_0_9_BITS,
                WEIGHT_1_25_BITS,
                Some(String::from_str("internal_host")),
            ),
            ChainType::PrivilegeEscalate => (SIGNAL_0_6_BITS, WEIGHT_1_75_BITS, Some(String::from_str("user:admin"))),
        }
    }
}

/// The plain content of a set of thresholds: the windows and count that
/// decide correlation, the exfiltration z-score (as `f32` bits) and the
/// asset-criticality table.
pub struct ThresholdView {
    pub max_chain_window_secs: i64,
    pub lateral_move_window_secs: i64,
    pub priv_esc_window_secs: i64,
    pub brute_force_min_attempts: usize,
    pub exfil_min_zscore_bits: u32,
    pub criticality: Seq<(Seq<char>, u32)>,
}

/// The default thresholds: a 60 s brute-force window, 900 s lateral
/// movement, 300 s privilege escalation, five attempts, a z-score of 4.0,
/// and weight 2.0 for `subnet:internal-a`, `user:admin` and `device:dc01`.
pub open spec fn default_thresholds() -> ThresholdView {
    ThresholdView {
        max_chain_window_secs: 60,
        lateral_move_window_secs: 900,
        priv_esc_window_secs: 300,
        brute_force_min_attempts: 5,
        exfil_min_zscore_bits: FOUR_BITS,
        criticality: seq![
            ("subnet:internal-a"@, TWO_BITS),
            ("user:admin"@, TWO_BITS),
            ("device:dc01"@, TWO_BITS),
        ],
    }
}

/// The views of a list of edge references.
pub open spec fn edge_views(v: Seq<&EventEdge>) -> Seq<EdgeView> {
    v.map_values(|e: &EventEdge| e@)
}

/// Every event carries a representable time stamp.
pub open spec fn stamps_wf(v: Seq<&EventEdge>) -> bool {
    forall|i: int| 0 <= i < v.len() ==> (#[trigger] v[i]).timestamp.wf()
}

/// Correlates events into attack chains and keeps the incidents found.
pub struct Correlator {
    thresholds: CorrelationThresholds,
    incident_store: VecDequeWithMax<Incident>,
}

/// The capacity of the incident store.
pub const INCIDENT_STORE_CAPACITY: usize = 10000;

impl Correlator {
    /// The thresholds that decide correlation.
    pub closed spec fn threshold_view(&self) -> ThresholdView {
        self.thresholds.view_of()
    }

    /// The stored incidents, oldest first.
    pub closed spec fn incidents(&self) -> Seq<IncidentView> {
        self.incident_store.items().map_values(|i: Incident| i@)
    }

    /// The capacity of the incident store.
    pub closed spec fn store_capacity(&self) -> nat {
        self.incident_store.capacity()
    }

    /// A correlator with the default thresholds and an empty store of
    /// `INCIDENT_STORE_CAPACITY` incidents.
    pub fn new() -> (r: Correlator)
        ensures
            r.threshold_view() == default_thresholds(),
            r.incidents() == Seq::<IncidentView>::empty(),
            r.store_capacity() == INCIDENT_STORE_CAPACITY,
    {
        let r = Correlator {
            thresholds: CorrelationThresholds::default(),
            incident_store: VecDequeWithMax::new(INCIDENT_STORE_CAPACITY),
        };
        assert(r.incidents() =~= Seq::<IncidentView>::empty());
        r
    }

    /// The correlator with other thresholds.
    pub fn with_thresholds(self, thresholds: CorrelationThresholds) -> (r: Correlator)
        ensures
            r.threshold_view() == thresholds.view_of(),
            r.incidents() == self.incidents(),
            r.store_capacity() == self.store_capacity(),
    {
        Correlator { thresholds, incident_store: self.incident_store }
    }

    /// The thresholds in use.
    pub fn thresholds(&self) -> (r: &CorrelationThresholds)
        ensures
            r.view_of() == self.threshold_view(),
    {
        &self.thresholds
    }

    /// The attack chain that the events form, if any; `exfil_reached[i]`
    /// says whether event `i`'s score scaled to a z-score reaches the
    /// exfiltration threshold (a floating-point comparison made by the caller).
    pub fn correlate(&self, event_edges: &Vec<&EventEdge>, exfil_reached: &Vec<bool>) -> (r: Option<Correlation>)
        requires
            stamps_wf(event_edges@),
            exfil_reached.len() == event_edges.len(),
        ensures
            match correlation_of(edge_views(event_edges@), exfil_reached@, self.threshold_view()) {
                None => r is None,
                Some((c, x)) => r matches Some(k) && k.chain_type == c && strings_view(k.entities@)
                    == chain_entities(c) && match x {
                    Some(i) => k.exfil_edge == Some(i as usize),
                    None => k.exfil_edge is None,
                },
            },
    {
        if event_edges.len() == 0 {
            return None;
        }
        if self.detect_brute_force(event_edges) {
            let entities = one_string("src_entity");
            return Some(Correlation { chain_type: ChainType::BruteForceSuccess, entities, exfil_edge: None });
        }
        if self.detect_lateral_move(event_edges) {
            return Some(Correlation {
                chain_type: ChainType::LateralMove,
                entities: two_strings("source", "target"),
                exfil_edge: None,
            });
        }
        match detect_exfil(event_edges, exfil_reached) {
            Some(i) => {
                return Some(Correlation {
                    chain_type: ChainType::ExfilCandidate,
                    entities: two_strings("internal_host", "external_ip"),
                    exfil_edge: Some(i),
                });
            },
            None => {},
        }
        if self.detect_privilege_escalate(event_edges) {
            return Some(Correlation {
                chain_type: ChainType::PrivilegeEscalate,
                entities: one_string("user"),
                exfil_edge: None,
            });
        }
        None
    }

    /// Whether the events hold a brute-force attempt.
    fn detect_brute_force(&self, edges: &Vec<&EventEdge>) -> (r: bool)
        requires
            stamps_wf(edges@),
        ensures
            r == brute_force(
                edge_views(edges@),
                self.threshold_view().brute_force_min_attempts as nat,
                self.threshold_view().max_chain_window_secs,
            ),
    {
        let ghost es = edge_views(edges@);
        let failed_word = chars_of("failed");
        let mut count: usize = 0;
        let mut first: Timestamp = Timestamp { secs: 0, nanos: 0 };
        let mut last: Timestamp = Timestamp { secs: 0, nanos: 0 };
        let mut i: usize = 0;
        assert(es.subrange(0, 0) =~= Seq::<EdgeView>::empty());
        while i < edges.len()
            invariant
                es == edge_views(edges@),
                stamps_wf(edges@),
                failed_word@ == "failed"@,
                i <= edges.len(),
                count as nat == failed_logins(es.subrange(0, i as int)).len(),
                count <= i,
                count > 0 ==> first == earliest(failed_logins(es.subrange(0, i as int))) && last == latest(
                    failed_logins(es.subrange(0, i as int)),
                ) && first.wf() && last.wf(),
            decreases edges.len() - i,
        {
            let e = edges[i];
            proof {
                assert(es.subrange(0, i + 1).drop_last() =~= es.subrange(0, i as int));
                assert(es.subrange(0, i + 1).last() == e@);
                assert(e.timestamp.wf());
            }
            let failed = match &e.sigma_rule_id {
                None => true,
                Some(id) => contains_chars(&chars_of(id.as_str()), &failed_word) || (0x3F00_0000u32 < e.score_bits
                    && e.score_bits <= 0x7F80_0000u32),
            };
            proof {
                let sub = es.subrange(0, i as int);
                let sub1 = es.subrange(0, i + 1);
                assert(is_failed_login(e@) == (e.event_type == EventType::Login && failed));
                let f = failed_logins(sub);
                if is_failed_login(e@) {
                    assert(failed_logins(sub1) == f.push(e@));
                    assert(f.push(e@).drop_last() =~= f);
                    assert(f.push(e@).last() == e@);
                } else {
                    assert(failed_logins(sub1) == f);
                }
            }
            if e.event_type == EventType::Login && failed {
                let t = e.timestamp;
                if count == 0 {
                    first = t;
                    last = t;
                } else {
                    if (t.secs as i128) * 1_000_000_000 + (t.nanos as i128) < (first.secs as i128) * 1_000_000_000
                        + (first.nanos as i128) {
                        first = t;
                    }
                    if (t.secs as i128) * 1_000_000_000 + (t.nanos as i128) > (last.secs as i128) * 1_000_000_000
                        + (last.nanos as i128) {
                        last = t;
                    }
                }
                count = count + 1;
            }
            i = i + 1;
        }
        assert(es.subrange(0, edges.len() as int) =~= es);
        if count < self.thresholds.brute_force_min_attempts || count == 0 {
            return false;
        }
        elapsed_secs(&last, &first) <= self.thresholds.max_chain_window_secs
    }

    /// Whether the events hold a login with an outbound connection near it.
    fn detect_lateral_move(&self, edges: &Vec<&EventEdge>) -> (r: bool)
        requires
            stamps_wf(edges@),
        ensures
            r == lateral_move(edge_views(edges@), self.threshold_view().lateral_move_window_secs),
    {
        let ghost es = edge_views(edges@);
        let window = self.thresholds.lateral_move_window_secs;
        let mut i: usize = 0;
        while i < edges.len()
            invariant
                es == edge_views(edges@),
                stamps_wf(edges@),
                window == self.threshold_view().lateral_move_window_secs,
                i <= edges.len(),
                forall|a: int, b: int| 0 <= a < i && 0 <= b < es.len() ==> !#[trigger] lateral_pair(es, a, b, window),
            decreases edges.len() - i,
        {
            let login = edges[i];
            assert(es[i as int] == login@);
            if login.event_type == EventType::Login {
                let mut j: usize = 0;
                while j < edges.len()
                    invariant
                        es == edge_views(edges@),
                        stamps_wf(edges@),
                        i < edges.len(),
                        es[i as int] == login@,
                        login.timestamp.wf(),
                        j <= edges.len(),
                        login.event_type == EventType::Login,
                        window == self.threshold_view().lateral_move_window_secs,
                        forall|b: int| 0 <= b < j ==> !#[trigger] lateral_pair(es, i as int, b, window),
                    decreases edges.len() - j,
                {
                    let c = edges[j];
                    assert(es[j as int] == c@);
                    assert(c.timestamp.wf());
                    if c.event_type == EventType::Connect {
                        let d = elapsed_secs(&login.timestamp, &c.timestamp);
                        let ad: i64 = if d < 0 {
                            -d
                        } else {
                            d
                        };
                        if ad <= window && !names_port(&c.sigma_rule_id) {
                            assert(lateral_pair(es, i as int, j as int, window));
                            return true;
                        }
                    }
                    j = j + 1;
                }
            }
            i = i + 1;
        }
        false
    }

    /// Whether the events hold a login, an escalation near it and an access
    /// near the escalation.
    fn detect_privilege_escalate(&self, edges: &Vec<&EventEdge>) -> (r: bool)
        requires
            stamps_wf(edges@),
        ensures
            r == privilege_escalate(edge_views(edges@), self.threshold_view().priv_esc_window_secs),
    {
        let ghost es = edge_views(edges@);
        let window = self.thresholds.priv_esc_window_secs;
        let mut i: usize = 0;
        while i < edges.len()
            invariant
                es == edge_views(edges@),
                stamps_wf(edges@),
                window == self.threshold_view().priv_esc_window_secs,
                i <= edges.len(),
                forall|a: int, b: int, c: int|
                    0 <= a < i && 0 <= b < es.len() && 0 <= c < es.len() ==> !#[trigger] esc_triple(es, a, b, c, window),
            decreases edges.len() - i,
        {
            let login = edges[i];
            assert(es[i as int] == login@);
            if login.event_type == EventType::Login {
                let mut j: usize = 0;
                while j < edges.len()
                    invariant
                        es == edge_views(edges@),
                        stamps_wf(edges@),
                        i < edges.len(),
                        es[i as int] == login@,
                        login.event_type == EventType::Login,
                        window == self.threshold_view().priv_esc_window_secs,
                        j <= edges.len(),
                        forall|b: int, c: int| 0 <= b < j && 0 <= c < es.len() ==> !#[trigger] esc_triple(es, i as int, b, c, window),
                    decreases edges.len() - j,
                {
                    let x = edges[j];
                    assert(es[j as int] == x@);
                    if x.event_type == EventType::Escalate {
                        let d = elapsed_secs(&x.timestamp, &login.timestamp);
                        let ad: i64 = if d < 0 {
                            -d
                        } else {
                            d
                        };
                        if ad <= window {
                            let mut k: usize = 0;
                            while k < edges.len()
                                invariant
                                    es == edge_views(edges@),
                                    stamps_wf(edges@),
                                    i < edges.len(),
                                    j < edges.len(),
                                    es[i as int] == login@,
                                    es[j as int] == x@,
                                    login.event_type == EventType::Login,
                                    x.event_type == EventType::Escalate,
                                    abs(seconds_between(x.timestamp, login.timestamp)) <= window,
                                    window == self.threshold_view().priv_esc_window_secs,
                                    k <= edges.len(),
                                    forall|c: int| 0 <= c < k ==> !#[trigger] esc_triple(es, i as int, j as int, c, window),
                                decreases edges.len() - k,
                            {
                                let y = edges[k];
                                assert(es[k as int] == y@);
                                if y.event_type == EventType::Access {
                                    let d2 = elapsed_secs(&y.timestamp, &x.timestamp);
                                    let ad2: i64 = if d2 < 0 {
                                        -d2
                                    } else {
                                        d2
                                    };
                                    if ad2 <= window {
                                        assert(esc_triple(es, i as int, j as int, k as int, window));
                                        return true;
                                    }
                                }
                                k = k + 1;
                            }
                        }
                    }
                    j = j + 1;
                }
            }
            i = i + 1;
        }
        false
    }

    /// Stores an incident, dropping the oldest when the store is full.
    pub fn add_incident(&mut self, incident: Incident)
        ensures
            final(self).incidents() == bounded_push(old(self).incidents(), old(self).store_capacity(), incident@),
            final(self).store_capacity() == old(self).store_capacity(),
            final(self).threshold_view() == old(self).threshold_view(),
    {
        let ghost v = incident@;
        self.incident_store.push_back(incident);
        proof {
            let s = old(self).incident_store.items();
            let f = |i: Incident| i@;
            if s.len() >= old(self).store_capacity() && s.len() > 0 {
                assert(s.drop_first().push(incident).map_values(f) =~= s.map_values(f).drop_first().push(v));
            } else {
                assert(s.push(incident).map_values(f) =~= s.map_values(f).push(v));
            }
        }
    }

    /// Up to `limit` stored incidents, oldest first, of the given severity
    /// (compared in uppercase) or of any severity.
    pub fn get_incidents(&self, severity: Option<&str>, limit: usize) -> (r: Vec<Incident>)
        ensures
            r@.map_values(|i: Incident| i@) == take(filter_severity(self.incidents(), opt_str(severity)), limit as nat),
    {
        let all = self.incident_store.get_all();
        let ghost src = self.incidents();
        let mut out: Vec<Incident> = Vec::new();
        let mut i: usize = 0;
        assert(src.subrange(0, 0) =~= Seq::<IncidentView>::empty());
        while i < all.len()
            invariant
                src == self.incidents(),
                all@.len() == src.len(),
                forall|k: int| 0 <= k < all@.len() ==> (*all@[k])@ == #[trigger] src[k],
                i <= all.len(),
                out@.map_values(|x: Incident| x@) == take(filter_severity(src.subrange(0, i as int), opt_str(severity)), limit as nat),
            decreases all.len() - i,
        {
            proof {
                assert(src.subrange(0, i + 1).drop_last() =~= src.subrange(0, i as int));
                assert(src.subrange(0, i + 1).last() == src[i as int]);
                lemma_take_filter_push(src.subrange(0, i as int), src[i as int], opt_str(severity), limit as nat);
            }
            let inc = all[i];
            let keep = match severity {
                None => true,
                Some(s) => {
                    let a = inc.severity.as_str().to_uppercase();
                    let b = s.to_uppercase();
                    str_eq(a.as_str(), b.as_str())
                },
            };
            if keep && out.len() < limit {
                let ghost before = out@;
                out.push(inc.duplicate());
                assert(out@.map_values(|x: Incident| x@) =~= before.map_values(|x: Incident| x@).push(inc@));
            }
            i = i + 1;
        }
        assert(src.subrange(0, all.len() as int) =~= src);
        out
    }

    /// The stored incident with the given identifier (the oldest such).
    pub fn get_incident(&self, id: &str) -> (r: Option<Incident>)
        ensures
            match r {
                Some(x) => first_with_id(self.incidents(), id@) matches Some(v) && x@ == v,
                None => first_with_id(self.incidents(), id@) is None,
            },
    {
        let all = self.incident_store.get_all();
        let ghost src = self.incidents();
        let ghost p = |x: IncidentView| x.id == id@;
        let mut i: usize = 0;
        while i < all.len()
            invariant
                src == self.incidents(),
                p == (|x: IncidentView| x.id == id@),
                all@.len() == src.len(),
                forall|k: int| 0 <= k < all@.len() ==> (*all@[k])@ == #[trigger] src[k],
                i <= all.len(),
                forall|k: int| 0 <= k < i ==> !p(#[trigger] src[k]),
            decreases all.len() - i,
        {
            assert((*all@[i as int])@ == src[i as int]);
            if str_eq(all[i].id.as_str(), id) {
                proof {
                    crate::text::lemma_first_where_unique(src, p, i as int);
                }
                return Some(all[i].duplicate());
            }
            i = i + 1;
        }
        proof {
            crate::text::lemma_first_where_unique(src, p, i as int);
        }
        None
    }
}

/// A login at `a`, an escalation at `b` near it, an access at `c` near that.
pub open spec fn esc_triple(es: Seq<EdgeView>, a: int, b: int, c: int, window: i64) -> bool {
    &&& es[a].event_type == EventType::Login
    &&& es[b].event_type == EventType::Escalate
    &&& abs(seconds_between(es[b].timestamp, es[a].timestamp)) <= window
    &&& es[c].event_type == EventType::Access
    &&& abs(seconds_between(es[c].timestamp, es[b].timestamp)) <= window
}

/// The view of an optional string slice.
pub open spec fn opt_str(s: Option<&str>) -> Option<Seq<char>> {
    match s {
        Some(x) => Some(x@),
        None => None,
    }
}

/// The incidents of the given severity (compared in uppercase), or all of them.
pub open spec fn filter_severity(s: Seq<IncidentView>, severity: Option<Seq<char>>) -> Seq<IncidentView>
    decreases s.len(),
{
    if s.len() == 0 {
        seq![]
    } else {
        let p = filter_severity(s.drop_last(), severity);
        let keep = match severity {
            None => true,
            Some(w) => uppercase(s.last().severity) == uppercase(w),
        };
        if keep {
            p.push(s.last())
        } else {
            p
        }
    }
}

/// The first `n` items.
pub open spec fn take<A>(s: Seq<A>, n: nat) -> Seq<A> {
    if s.len() <= n {
        s
    } else {
        s.subrange(0, n as int)
    }
}

/// The first incident with the given identifier.
pub open spec fn first_with_id(s: Seq<IncidentView>, id: Seq<char>) -> Option<IncidentView> {
    let i = crate::text::first_where(s, |x: IncidentView| x.id == id);
    if 0 <= i < s.len() {
        Some(s[i])
    } else {
        None
    }
}

proof fn lemma_take_filter_push(s: Seq<IncidentView>, x: IncidentView, sev: Option<Seq<char>>, n: nat)
    ensures
        take(filter_severity(s.push(x), sev), n) == ({
            let keep = match sev {
                None => true,
                Some(w) => uppercase(x.severity) == uppercase(w),
            };
            let t = take(filter_severity(s, sev), n);
            if keep && t.len() < n {
                t.push(x)
            } else {
                t
            }
        }),
{
    assert(s.push(x).drop_last() =~= s);
    let f = filter_severity(s, sev);
    let keep = match sev {
        None => true,
        Some(w) => uppercase(x.severity) == uppercase(w),
    };
    if keep {
        if f.len() < n {
        } else {
            assert(f.push(x).subrange(0, n as int) =~= take(f, n));
        }
    }
}

/// Whether a rule identifier names a common service port.
fn names_port(id: &Option<String>) -> (r: bool)
    ensures
        r == names_common_port(opt_view(*id)),
{
    match id {
        Some(s) => {
            let c = chars_of(s.as_str());
            contains_chars(&c, &chars_of("80")) || contains_chars(&c, &chars_of("443")) || contains_chars(
                &c,
                &chars_of("22"),
            )
        },
        None => false,
    }
}

/// A list of one string.
fn one_string(a: &str) -> (r: Vec<String>)
    ensures
        strings_view(r@) == seq![a@],
{
    let mut v: Vec<String> = Vec::new();
    v.push(String::from_str(a));
    assert(strings_view(v@) =~= seq![a@]);
    v
}

/// The first outbound or external connection whose z-score reached the
/// threshold, when some event is an access.
fn detect_exfil(edges: &Vec<&EventEdge>, reached: &Vec<bool>) -> (r: Option<usize>)
    requires
        reached.len() == edges.len(),
    ensures
        match exfil_edge(edge_views(edges@), reached@) {
            Some(i) => r == Some(i as usize),
            None => r is None,
        },
{
    let ghost es = edge_views(edges@);
    let ghost pairs = Seq::new(es.len(), |k: int| (es[k], reached@[k]));
    let ghost p = |q: (EdgeView, bool)| is_exfil_connect(q.0) && q.1;
    let mut any_access = false;
    let mut a: usize = 0;
    while a < edges.len()
        invariant
            es == edge_views(edges@),
            a <= edges.len(),
            any_access == exists|k: int| 0 <= k < a && #[trigger] es[k].event_type == EventType::Access,
        decreases edges.len() - a,
    {
        assert(es[a as int] == edges@[a as int]@);
        if edges[a].event_type == EventType::Access {
            any_access = true;
            assert(es[a as int].event_type == EventType::Access);
        }
        a = a + 1;
    }
    if !any_access {
        return None;
    }
    let mut i: usize = 0;
    while i < edges.len()
        invariant
            es == edge_views(edges@),
            reached.len() == edges.len(),
            pairs == Seq::new(es.len(), |k: int| (es[k], reached@[k])),
            p == (|q: (EdgeView, bool)| is_exfil_connect(q.0) && q.1),
            has_access(es),
            i <= edges.len(),
            forall|k: int| 0 <= k < i ==> !p(#[trigger] pairs[k]),
        decreases edges.len() - i,
    {
        let e = edges[i];
        assert(es[i as int] == e@);
        assert(pairs[i as int] == (e@, reached@[i as int]));
        let marked = match &e.sigma_rule_id {
            Some(id) => {
                let c = chars_of(id.as_str());
                contains_chars(&c, &chars_of("outbound")) || contains_chars(&c, &chars_of("external"))
            },
            None => false,
        };
        if e.event_type == EventType::Connect && marked && reached[i] {
            proof {
                crate::text::lemma_first_where_unique(pairs, p, i as int);
            }
            return Some(i);
        }
        i = i + 1;
    }
    proof {
        crate::text::lemma_first_where_unique(pairs, p, i as int);
    }
    None
}

/// The incident store never grows past its capacity (or past one item,
/// for a capacity of zero), and a push always keeps the pushed item, last.
pub proof fn law_store_bounded<T>(s: Seq<T>, cap: nat, x: T)
    requires
        s.len() <= if cap == 0 { 1 } else { cap },
    ensures
        bounded_push(s, cap, x).len() <= if cap == 0 { 1 } else { cap },
        bounded_push(s, cap, x).last() == x,
        s.len() < cap ==> bounded_push(s, cap, x) == s.push(x),
{
}

/// Read after write on the incident store: after an incident is added,
/// looking up its identifier finds an incident with that identifier, and
/// finds the added one itself when no stored incident already had it.
pub proof fn law_added_incident_found(s: Seq<IncidentView>, cap: nat, x: IncidentView)
    ensures
        first_with_id(bounded_push(s, cap, x), x.id) matches Some(v) && v.id == x.id,
        (forall|k: int| 0 <= k < s.len() ==> (#[trigger] s[k]).id != x.id) ==> first_with_id(
            bounded_push(s, cap, x),
            x.id,
        ) == Some(x),
{
    let t = bounded_push(s, cap, x);
    let p = |v: IncidentView| v.id == x.id;
    crate::text::lemma_first_where(t, p);
    let i = crate::text::first_where(t, p);
    assert(p(t[t.len() - 1]));
    if i >= t.len() {
        assert(!p(t[t.len() - 1]));
    }
    if forall|k: int| 0 <= k < s.len() ==> (#[trigger] s[k]).id != x.id {
        assert forall|j: int| 0 <= j < t.len() - 1 implies !p(#[trigger] t[j]) by {
            if s.len() >= cap && s.len() > 0 {
                assert(t[j] == s[j + 1]);
            } else {
                assert(t[j] == s[j]);
            }
        }
        crate::text::lemma_first_where_unique(t, p, t.len() - 1);
    }
}

/// The exfiltration decision: an edge is reported exactly when some event
/// is a file access and some outbound or external connection reached the
/// z-score threshold, and then it is the first such connection.
pub proof fn law_exfil_decision(es: Seq<EdgeView>, reached: Seq<bool>)
    requires
        reached.len() == es.len(),
    ensures
        (exfil_edge(es, reached) is Some) == (has_access(es) && exists|k: int|
            0 <= k < es.len() && #[trigger] is_exfil_connect(es[k]) && reached[k]),
        exfil_edge(es, reached) matches Some(i) ==> 0 <= i < es.len() && is_exfil_connect(es[i]) && reached[i]
            && forall|k: int| 0 <= k < i ==> !(#[trigger] is_exfil_connect(es[k]) && reached[k]),
{
    let pairs = Seq::new(es.len(), |k: int| (es[k], reached[k]));
    let p = |q: (EdgeView, bool)| is_exfil_connect(q.0) && q.1;
    crate::text::lemma_first_where(pairs, p);
    let i = crate::text::first_where(pairs, p);
    if exists|k: int| 0 <= k < es.len() && #[trigger] is_exfil_connect(es[k]) && reached[k] {
        let k = choose|k: int| 0 <= k < es.len() && #[trigger] is_exfil_connect(es[k]) && reached[k];
        assert(p(pairs[k]));
    }
    if 0 <= i < es.len() {
        assert(p(pairs[i]));
        assert forall|k: int| 0 <= k < i implies !(#[trigger] is_exfil_connect(es[k]) && reached[k]) by {
            assert(!p(pairs[k]));
        }
    }
}

/// The earliest and latest time stamps of a non-empty list are its least
/// and greatest ones, whatever the order of the list: every event lies
/// between them, and some event has each.
pub proof fn law_earliest_latest(es: Seq<EdgeView>)
    requires
        es.len() > 0,
    ensures
        forall|i: int|
            0 <= i < es.len() ==> earliest(es).total_nanos() <= (#[trigger] es[i]).timestamp.total_nanos()
                && es[i].timestamp.total_nanos() <= latest(es).total_nanos(),
        exists|i: int| 0 <= i < es.len() && (#[trigger] es[i]).timestamp == earliest(es),
        exists|j: int| 0 <= j < es.len() && (#[trigger] es[j]).timestamp == latest(es),
    decreases es.len(),
{
    if es.len() == 1 {
        assert(es[0].timestamp == earliest(es));
        assert(es[0].timestamp == latest(es));
    } else {
        let d = es.drop_last();
        law_earliest_latest(d);
        assert forall|i: int| 0 <= i < es.len() implies earliest(es).total_nanos() <= (#[trigger] es[i]).timestamp.total_nanos()
            && es[i].timestamp.total_nanos() <= latest(es).total_nanos() by {
            if i < d.len() {
                assert(es[i] == d[i]);
            }
        }
        let i0 = choose|i: int| 0 <= i < d.len() && (#[trigger] d[i]).timestamp == earliest(d);
        let j0 = choose|j: int| 0 <= j < d.len() && (#[trigger] d[j]).timestamp == latest(d);
        assert(es[i0] == d[i0]);
        assert(es[j0] == d[j0]);
        assert(es[es.len() - 1] == es.last());
    }
}

proof fn lemma_in_other(a: Seq<EdgeView>, b: Seq<EdgeView>, i: int)
    requires
        a.to_multiset() == b.to_multiset(),
        0 <= i < a.len(),
    ensures
        exists|j: int| 0 <= j < b.len() && #[trigger] b[j] == a[i],
{
    vstd::seq_lib::to_multiset_contains(a, a[i]);
    vstd::seq_lib::to_multiset_contains(b, a[i]);
    assert(a.contains(a[i]));
}

proof fn lemma_failed_counts(es: Seq<EdgeView>)
    ensures
        forall|x: EdgeView| #[trigger] failed_logins(es).to_multiset().count(x) == if is_failed_login(x) {
            es.to_multiset().count(x)
        } else {
            0
        },
    decreases es.len(),
{
    broadcast use vstd::multiset::group_multiset_axioms;
    broadcast use vstd::seq_lib::group_to_multiset_ensures;
    if es.len() == 0 {
        assert(failed_logins(es) =~= Seq::<EdgeView>::empty());
        assert(es =~= Seq::<EdgeView>::empty());
        assert(es.to_multiset() =~= vstd::multiset::Multiset::empty()) by {
            vstd::seq_lib::to_multiset_len(es);
        }
    } else {
        let d = es.drop_last();
        lemma_failed_counts(d);
        assert(d.push(es.last()) =~= es);
        vstd::seq_lib::to_multiset_build(d, es.last());
        if is_failed_login(es.last()) {
            vstd::seq_lib::to_multiset_build(failed_logins(d), es.last());
        }
    }
}

/// The brute-force verdict does not depend on the order of the events:
/// any two lists holding the same events (as multisets) get the same
/// verdict, since only the number of failed logins and the span between
/// the earliest and the latest of them count.
pub proof fn law_brute_force_order_free(es1: Seq<EdgeView>, es2: Seq<EdgeView>, min_attempts: nat, window: i64)
    requires
        es1.to_multiset() == es2.to_multiset(),
    ensures
        brute_force(es1, min_attempts, window) == brute_force(es2, min_attempts, window),
{
    let f1 = failed_logins(es1);
    let f2 = failed_logins(es2);
    lemma_failed_counts(es1);
    lemma_failed_counts(es2);
    assert(f1.to_multiset() =~= f2.to_multiset());
    vstd::seq_lib::to_multiset_len(f1);
    vstd::seq_lib::to_multiset_len(f2);
    if f1.len() > 0 {
        law_earliest_latest(f1);
        law_earliest_latest(f2);
        let i1 = choose|i: int| 0 <= i < f1.len() && (#[trigger] f1[i]).timestamp == earliest(f1);
        let i2 = choose|i: int| 0 <= i < f2.len() && (#[trigger] f2[i]).timestamp == earliest(f2);
        let j1 = choose|j: int| 0 <= j < f1.len() && (#[trigger] f1[j]).timestamp == latest(f1);
        let j2 = choose|j: int| 0 <= j < f2.len() && (#[trigger] f2[j]).timestamp == latest(f2);
        lemma_in_other(f1, f2, i1);
        lemma_in_other(f2, f1, i2);
        lemma_in_other(f1, f2, j1);
        lemma_in_other(f2, f1, j2);
        let a1 = choose|j: int| 0 <= j < f2.len() && #[trigger] f2[j] == f1[i1];
        let a2 = choose|j: int| 0 <= j < f1.len() && #[trigger] f1[j] == f2[i2];
        let b1 = choose|j: int| 0 <= j < f2.len() && #[trigger] f2[j] == f1[j1];
        let b2 = choose|j: int| 0 <= j < f1.len() && #[trigger] f1[j] == f2[j2];
        assert(earliest(f1).total_nanos() == earliest(f2).total_nanos());
        assert(latest(f1).total_nanos() == latest(f2).total_nanos());
    }
}

/// The correlation windows look both ways in time: a connection counts
/// for lateral movement whether it comes before or after the login, and
/// the escalation and access of a privilege escalation may come before or
/// after the event they follow, as long as each pair is at most `window`
/// whole seconds apart.
pub proof fn law_windows_both_ways(es: Seq<EdgeView>, a: int, b: int, c: int, window: i64)
    requires
        0 <= a < es.len(),
        0 <= b < es.len(),
        0 <= c < es.len(),
    ensures
        lateral_partner(es[a], es[b], window) == (es[b].event_type == EventType::Connect && !names_common_port(
            es[b].sigma_rule_id,
        ) && seconds_between(es[a].timestamp, es[b].timestamp) <= window && seconds_between(
            es[b].timestamp,
            es[a].timestamp,
        ) <= window),
        esc_triple(es, a, b, c, window) == (es[a].event_type == EventType::Login && es[b].event_type
            == EventType::Escalate && es[c].event_type == EventType::Access && seconds_between(
            es[b].timestamp,
            es[a].timestamp,
        ) <= window && seconds_between(es[a].timestamp, es[b].timestamp) <= window && seconds_between(
            es[c].timestamp,
            es[b].timestamp,
        ) <= window && seconds_between(es[b].timestamp, es[c].timestamp) <= window),
{
    crate::platform::law_seconds_between(es[a].timestamp, es[b].timestamp);
    crate::platform::law_seconds_between(es[c].timestamp, es[b].timestamp);
}

} // verus!
