//! Time stamps and identifiers: the plain values that stand for chrono's
//! `DateTime<Utc>` and uuid's `Uuid`, and the calls into those crates.

use vstd::prelude::*;

verus! {

/// The earliest second that `chrono::DateTime<Utc>` can represent
/// (1 January of year -262143).
pub const MIN_TIMESTAMP_SECS: i64 = -8334601315200;

/// The last second that `chrono::DateTime<Utc>` can represent
/// (31 December of year 262142).
pub const MAX_TIMESTAMP_SECS: i64 = 8210266876799;

/// Nanoseconds in a second.
pub const NANOS_PER_SEC: i64 = 1_000_000_000;

/// An instant in UTC: whole seconds since the Unix epoch and the
/// nanoseconds within that second.
#[derive(Clone, Copy, Debug, PartialEq, Eq, Structural)]
pub struct Timestamp {
    pub secs: i64,
    pub nanos: u32,
}

impl Timestamp {
    /// A representable, non-leap instant.
    pub open spec fn wf(&self) -> bool {
        &&& MIN_TIMESTAMP_SECS <= self.secs <= MAX_TIMESTAMP_SECS
        &&& self.nanos < 1_000_000_000
    }

    /// Nanoseconds since the Unix epoch.
    pub open spec fn total_nanos(&self) -> int {
        self.secs * 1_000_000_000 + self.nanos
    }
}

/// Integer division rounded toward zero.
pub open spec fn div_toward_zero(a: int, b: int) -> int {
    if a >= 0 {
        a / b
    } else {
        -((-a) / b)
    }
}

/// Whole seconds from `earlier` to `later`, rounded toward zero: what
/// `(later - earlier).num_seconds()` gives in chrono.
pub open spec fn seconds_between(later: Timestamp, earlier: Timestamp) -> int {
    div_toward_zero(later.total_nanos() - earlier.total_nanos(), 1_000_000_000)
}

/// Whole seconds from `earlier` to `later`, rounded toward zero.
pub fn elapsed_secs(later: &Timestamp, earlier: &Timestamp) -> (r: i64)
    requires
        later.wf(),
        earlier.wf(),
    ensures
        r as int == seconds_between(*later, *earlier),
{
    let d: i128 = (later.secs as i128 - earlier.secs as i128) * 1_000_000_000 + (later.nanos as i128
        - earlier.nanos as i128);
    assert(d == later.total_nanos() - earlier.total_nanos());
    if d >= 0 {
        (d / 1_000_000_000) as i64
    } else {
        let m: i128 = -d;
        -((m / 1_000_000_000) as i64)
    }
}

/// `chrono::Utc::now`, as seconds and nanoseconds since the epoch. The value
/// depends on the system clock, so nothing is promised of it but that it is
/// a representable instant with a sub-second part below one second, which
/// chrono builds it to be. (chrono panics when the clock reads before 1970.)
#[verifier::external_body]
pub(crate) fn utc_now() -> (r: Timestamp)
    ensures
        r.wf(),
{
    let now = chrono::Utc::now();
    Timestamp { secs: now.timestamp(), nanos: now.timestamp_subsec_nanos() }
}

/// The RFC 3339 text that chrono's `DateTime::to_rfc3339` gives for the instant.
pub uninterp spec fn rfc3339(secs: i64, nanos: u32) -> Seq<char>;

/// `chrono::DateTime::<Utc>::to_rfc3339` of the instant; the text is named
/// `rfc3339` and its format is not spelled out.
#[verifier::external_body]
pub(crate) fn rfc3339_text(t: &Timestamp) -> (r: String)
    requires
        t.wf(),
    ensures
        r@ == rfc3339(t.secs, t.nanos),
{
    chrono::DateTime::from_timestamp(t.secs, t.nanos).unwrap_or_default().to_rfc3339()
}

/// A lowercase hexadecimal digit.
pub open spec fn hex_digit(d: nat) -> char {
    if d < 10 {
        (48 + d) as char
    } else {
        (87 + d) as char
    }
}

/// The last `w` hexadecimal digits of `v`, most significant first.
pub open spec fn hex_width(v: nat, w: nat) -> Seq<char>
    decreases w,
{
    if w == 0 {
        seq![]
    } else {
        hex_width(v / 16, (w - 1) as nat).push(hex_digit(v % 16))
    }
}

/// The hyphenated text of a UUID: 32 lowercase hexadecimal digits grouped
/// 8-4-4-4-12.
pub open spec fn uuid_text(id: u128) -> Seq<char> {
    let h = hex_width(id as nat, 32);
    h.subrange(0, 8) + seq!['-'] + h.subrange(8, 12) + seq!['-'] + h.subrange(12, 16) + seq!['-']
        + h.subrange(16, 20) + seq!['-'] + h.subrange(20, 32)
}

/// `uuid::Uuid::new_v4`, as its 128-bit value. The value is random; the
/// crate sets its version field to 4 and its variant bits to `10`.
#[verifier::external_body]
pub(crate) fn new_uuid_v4() -> (r: u128)
    ensures
        (r >> 76u128) & 0xf == 4,
        (r >> 62u128) & 0x3 == 2,
{
    uuid::Uuid::new_v4().as_u128()
}

/// The `Display` text of `uuid::Uuid::from_u128(id)`: the hyphenated lowercase form.
#[verifier::external_body]
pub(crate) fn uuid_string(id: u128) -> (r: String)
    ensures
        r@ == uuid_text(id),
{
    uuid::Uuid::from_u128(id).to_string()
}

/// Elapsed time counts whole seconds toward zero: swapping the two
/// instants negates it, and for a later first instant it is the number of
/// whole seconds that fit in the gap.
pub proof fn law_seconds_between(later: Timestamp, earlier: Timestamp)
    ensures
        seconds_between(later, earlier) == -seconds_between(earlier, later),
        ({
            let d = later.total_nanos() - earlier.total_nanos();
            let s = seconds_between(later, earlier);
            d >= 0 ==> s >= 0 && s * 1_000_000_000 <= d < s * 1_000_000_000 + 1_000_000_000
        }),
{
    let d = later.total_nanos() - earlier.total_nanos();
    if d == 0 {
        assert(div_toward_zero(0, 1_000_000_000) == 0);
    }
    if d >= 0 {
        vstd::arithmetic::div_mod::lemma_fundamental_div_mod(d, 1_000_000_000);
        vstd::arithmetic::div_mod::lemma_mod_bound(d, 1_000_000_000);
        vstd::arithmetic::div_mod::lemma_div_pos_is_pos(d, 1_000_000_000);
    }
}

} // verus!
