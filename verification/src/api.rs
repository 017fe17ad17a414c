//! The decisions behind the HTTP API: which ingested events raise an
//! incident, and how incidents are listed and looked up.

use vstd::prelude::*;
use vstd::string::StringExecFns;
use crate::correlator::{
    CVSS_7_5_BITS, Incident, IncidentView, ONE_BITS, filter_severity, first_with_id, opt_str, strings_view,
    take,
};
use crate::fields::{FieldMap, lookup};
use crate::platform::{new_uuid_v4, utc_now, uuid_string, uuid_text};
use crate::text::{str_eq, uppercase};

verus! {

/// The bits of the `f32` value 0.9.
pub const SCORE_0_9_BITS: u32 = 0x3F66_6666;

/// The bits of the `f32` value 2.5.
pub const SCORE_2_5_BITS: u32 = 0x4020_0000;

/// The incident raised for an ingested event of the given type and entity
/// fields: one for a failed login, none otherwise.
pub open spec fn ingest_raises(event_type: Seq<char>) -> bool {
    event_type == "login_failed"@
}

/// The incident that an ingested event raises, if any: a failed login
/// raises a high-severity incident naming the entity's `value` field.
pub fn ingest_incident(event_type: &str, entity: &FieldMap) -> (r: Option<Incident>)
    ensures
        ingest_raises(event_type@) ==> (r matches Some(i) && {
            let v = i@;
            &&& v.severity == "HIGH"@
            &&& v.chain == seq!["login_failed"@]
            &&& v.entities == seq![
                match lookup(entity@, "value"@) {
                    Some(x) => x,
                    None => Seq::<char>::empty(),
                },
            ]
            &&& v.sigma_score_bits == SCORE_0_9_BITS
            &&& v.z_score_bits == SCORE_2_5_BITS
            &&& v.ioc_match is None
            &&& v.actions == Some(seq!["alert"@])
            &&& v.base_signal_bits == ONE_BITS
            &&& v.cvss_bits == CVSS_7_5_BITS
            &&& v.summary == Some("Multiple failed login attempts detected"@)
            &&& v.timestamp.wf()
            &&& exists|u: u128| v.id == #[trigger] uuid_text(u)
        }),
        !ingest_raises(event_type@) ==> r is None,
{
    if !str_eq(event_type, "login_failed") {
        return None;
    }
    let value = match entity.get("value") {
        Some(v) => v.clone(),
        None => String::new(),
    };
    let mut chain: Vec<String> = Vec::new();
    chain.push(String::from_str("login_failed"));
    let mut entities: Vec<String> = Vec::new();
    entities.push(value);
    let mut actions: Vec<String> = Vec::new();
    actions.push(String::from_str("alert"));
    assert(strings_view(chain@) =~= seq!["login_failed"@]);
    assert(strings_view(actions@) =~= seq!["alert"@]);
    assert(strings_view(entities@) =~= seq![value@]);
    let u = new_uuid_v4();
    Some(Incident {
        id: uuid_string(u),
        timestamp: utc_now(),
        severity: String::from_str("HIGH"),
        chain,
        entities,
        sigma_score_bits: SCORE_0_9_BITS,
        z_score_bits: SCORE_2_5_BITS,
        ioc_match: None,
        cvss_bits: CVSS_7_5_BITS,
        base_signal_bits: ONE_BITS,
        summary: Some(String::from_str("Multiple failed login attempts detected")),
        actions: Some(actions),
    })
}

/// `l` with `x` placed after every incident that is not older than `x`,
/// counting from the end: one step of a stable sort, newest first.
pub open spec fn insert_newest_first(l: Seq<IncidentView>, x: IncidentView) -> Seq<IncidentView>
    decreases l.len(),
{
    if l.len() == 0 {
        seq![x]
    } else if x.timestamp.total_nanos() > l.last().timestamp.total_nanos() {
        insert_newest_first(l.drop_last(), x).push(l.last())
    } else {
        l.push(x)
    }
}

/// The incidents sorted newest first, equal times keeping their order (a
/// stable sort by decreasing time stamp).
pub open spec fn newest_first(s: Seq<IncidentView>) -> Seq<IncidentView>
    decreases s.len(),
{
    if s.len() == 0 {
        seq![]
    } else {
        insert_newest_first(newest_first(s.drop_last()), s.last())
    }
}

/// The incidents an API listing returns: those of the given severity
/// (compared in uppercase) or all, newest first, at most `limit` of them.
pub open spec fn listing(s: Seq<IncidentView>, severity: Option<Seq<char>>, limit: nat) -> Seq<IncidentView> {
    take(newest_first(filter_severity(s, severity)), limit)
}

proof fn lemma_insert_at(l: Seq<IncidentView>, x: IncidentView, p: int)
    requires
        0 <= p <= l.len(),
        forall|k: int| p <= k < l.len() ==> x.timestamp.total_nanos() > #[trigger] l[k].timestamp.total_nanos(),
        p == 0 || !(x.timestamp.total_nanos() > l[p - 1].timestamp.total_nanos()),
    ensures
        insert_newest_first(l, x) == l.insert(p, x),
    decreases l.len(),
{
    if l.len() == 0 {
        assert(l.insert(p, x) =~= seq![x]);
    } else if p == l.len() {
        assert(l.insert(p, x) =~= l.push(x));
    } else {
        let d = l.drop_last();
        assert forall|k: int| p <= k < d.len() implies x.timestamp.total_nanos() > #[trigger] d[k].timestamp.total_nanos() by {
            assert(d[k] == l[k]);
        }
        if p > 0 {
            assert(d[p - 1] == l[p - 1]);
        }
        lemma_insert_at(d, x, p);
        assert(d.insert(p, x).push(l.last()) =~= l.insert(p, x));
    }
}

/// The incidents an API listing returns (see `listing`).
pub fn select_incidents(list: &Vec<Incident>, severity: Option<&str>, limit: usize) -> (r: Vec<Incident>)
    ensures
        r@.map_values(|i: Incident| i@) == listing(list@.map_values(|i: Incident| i@), opt_str(severity), limit as nat),
{
    let ghost src = list@.map_values(|i: Incident| i@);
    let mut sorted: Vec<Incident> = Vec::new();
    let mut i: usize = 0;
    assert(src.subrange(0, 0) =~= Seq::<IncidentView>::empty());
    assert(sorted@.map_values(|x: Incident| x@) =~= Seq::<IncidentView>::empty());
    while i < list.len()
        invariant
            src == list@.map_values(|i: Incident| i@),
            i <= list.len(),
            sorted@.map_values(|x: Incident| x@) == newest_first(filter_severity(src.subrange(0, i as int), opt_str(severity))),
        decreases list.len() - i,
    {
        let ghost sv = sorted@.map_values(|x: Incident| x@);
        proof {
            assert(src.subrange(0, i + 1).drop_last() =~= src.subrange(0, i as int));
            assert(src.subrange(0, i + 1).last() == list@[i as int]@);
        }
        let inc = &list[i];
        let ghost f = filter_severity(src.subrange(0, i as int), opt_str(severity));
        let keep = match severity {
            None => true,
            Some(s) => {
                let a = inc.severity.as_str().to_uppercase();
                let b = s.to_uppercase();
                str_eq(a.as_str(), b.as_str())
            },
        };
        if keep {
            let x = inc.duplicate();
            let xt: i128 = (x.timestamp.secs as i128) * 1_000_000_000 + (x.timestamp.nanos as i128);
            let mut p: usize = sorted.len();
            while p > 0 && xt > (sorted[p - 1].timestamp.secs as i128) * 1_000_000_000 + (sorted[p
                - 1].timestamp.nanos as i128)
                invariant
                    p <= sorted.len(),
                    sv == sorted@.map_values(|x: Incident| x@),
                    xt == x@.timestamp.total_nanos(),
                    forall|k: int| p <= k < sv.len() ==> x@.timestamp.total_nanos() > #[trigger] sv[k].timestamp.total_nanos(),
                decreases p,
            {
                assert(sv[p - 1] == sorted@[p - 1]@);
                p = p - 1;
            }
            proof {
                if p > 0 {
                    assert(sv[p - 1] == sorted@[p - 1]@);
                }
                lemma_insert_at(sv, x@, p as int);
            }
            let ghost xv = x@;
            sorted.insert(p, x);
            assert(sorted@.map_values(|y: Incident| y@) =~= sv.insert(p as int, xv));
            proof {
                assert(filter_severity(src.subrange(0, i + 1), opt_str(severity)) == f.push(xv));
                assert(f.push(xv).drop_last() =~= f);
                assert(newest_first(f.push(xv)) == insert_newest_first(newest_first(f), xv));
            }
        } else {
            assert(filter_severity(src.subrange(0, i + 1), opt_str(severity)) == f);
        }
        i = i + 1;
    }
    assert(src.subrange(0, list.len() as int) =~= src);
    let ghost sv = sorted@.map_values(|x: Incident| x@);
    assert(sv == newest_first(filter_severity(src, opt_str(severity))));
    let mut out: Vec<Incident> = Vec::new();
    let mut k: usize = 0;
    while k < sorted.len() && k < limit
        invariant
            sv == sorted@.map_values(|x: Incident| x@),
            k <= sorted.len(),
            k <= limit,
            out@.map_values(|x: Incident| x@) == sv.subrange(0, k as int),
        decreases sorted.len() - k,
    {
        let ghost before = out@;
        let d = sorted[k].duplicate();
        assert(d@ == sv[k as int]);
        out.push(d);
        assert(out@ == before.push(d));
        assert(out@.map_values(|x: Incident| x@) =~= before.map_values(|x: Incident| x@).push(d@));
        assert(out@.map_values(|x: Incident| x@) =~= sv.subrange(0, k + 1));
        k = k + 1;
    }
    proof {
        assert(sv.len() == sorted.len());
        if sv.len() <= limit {
            assert(k == sv.len());
            assert(sv.subrange(0, k as int) =~= sv);
        } else {
            assert(k == limit);
        }
        assert(take(sv, limit as nat) == sv.subrange(0, k as int));
    }
    out
}

/// The incident with the given identifier among those listed (the first such).
pub fn find_incident(list: &Vec<Incident>, id: &str) -> (r: Option<Incident>)
    ensures
        match r {
            Some(x) => first_with_id(list@.map_values(|i: Incident| i@), id@) matches Some(v) && x@ == v,
            None => first_with_id(list@.map_values(|i: Incident| i@), id@) is None,
        },
{
    let ghost src = list@.map_values(|i: Incident| i@);
    let ghost p = |x: IncidentView| x.id == id@;
    let mut i: usize = 0;
    while i < list.len()
        invariant
            src == list@.map_values(|i: Incident| i@),
            p == (|x: IncidentView| x.id == id@),
            i <= list.len(),
            forall|k: int| 0 <= k < i ==> !p(#[trigger] src[k]),
        decreases list.len() - i,
    {
        assert(src[i as int] == list@[i as int]@);
        if str_eq(list[i].id.as_str(), id) {
            proof {
                crate::text::lemma_first_where_unique(src, p, i as int);
            }
            return Some(list[i].duplicate());
        }
        i = i + 1;
    }
    proof {
        crate::text::lemma_first_where_unique(src, p, i as int);
    }
    None
}

/// Incidents that run from newest to oldest.
pub open spec fn is_newest_first(s: Seq<IncidentView>) -> bool {
    forall|i: int, j: int|
        0 <= i < j < s.len() ==> (#[trigger] s[i]).timestamp.total_nanos() >= (#[trigger] s[j]).timestamp.total_nanos()
}

/// An incident has the severity asked for (compared in uppercase), or none was asked for.
pub open spec fn severity_matches(x: IncidentView, severity: Option<Seq<char>>) -> bool {
    match severity {
        None => true,
        Some(w) => uppercase(x.severity) == uppercase(w),
    }
}

proof fn lemma_insert_sorted(l: Seq<IncidentView>, x: IncidentView)
    requires
        is_newest_first(l),
    ensures
        is_newest_first(insert_newest_first(l, x)),
        insert_newest_first(l, x).to_multiset() == l.to_multiset().insert(x),
{
    let q = |y: IncidentView| x.timestamp.total_nanos() > y.timestamp.total_nanos();
    crate::text::lemma_first_where(l, q);
    let p = crate::text::first_where(l, q);
    assert forall|k: int| p <= k < l.len() implies x.timestamp.total_nanos() > #[trigger] l[k].timestamp.total_nanos() by {
        assert(q(l[p]));
        if k > p {
            assert(l[p].timestamp.total_nanos() >= l[k].timestamp.total_nanos());
        }
    }
    if p > 0 {
        assert(!q(l[p - 1]));
    }
    lemma_insert_at(l, x, p);
    let t = l.insert(p, x);
    assert forall|i: int, j: int| 0 <= i < j < t.len() implies (#[trigger] t[i]).timestamp.total_nanos() >= (#[trigger] t[j]).timestamp.total_nanos() by {
        if i < p {
            assert(t[i] == l[i]);
            if j == p {
                assert(!q(l[i])) by {
                    assert(!q(l[p - 1]));
                    if i < p - 1 {
                        assert(l[i].timestamp.total_nanos() >= l[p - 1].timestamp.total_nanos());
                    }
                }
            } else if j < p {
                assert(t[j] == l[j]);
            } else {
                assert(t[j] == l[j - 1]);
            }
        } else if i == p {
            assert(t[j] == l[j - 1]);
        } else {
            assert(t[i] == l[i - 1]);
            assert(t[j] == l[j - 1]);
        }
    }
    assert(t.remove(p) =~= l);
    vstd::seq_lib::to_multiset_remove(t, p);
    vstd::seq_lib::to_multiset_contains(t, x);
    assert(t[p] == x);
    assert(t.contains(x));
    assert(t.to_multiset() =~= l.to_multiset().insert(x));
}

/// Sorting newest first gives the same incidents, from newest to oldest.
pub proof fn law_newest_first_sorts(s: Seq<IncidentView>)
    ensures
        is_newest_first(newest_first(s)),
        newest_first(s).to_multiset() == s.to_multiset(),
    decreases s.len(),
{
    if s.len() == 0 {
        assert(newest_first(s) =~= s);
    } else {
        law_newest_first_sorts(s.drop_last());
        lemma_insert_sorted(newest_first(s.drop_last()), s.last());
        vstd::seq_lib::to_multiset_build(s.drop_last(), s.last());
        assert(s.drop_last().push(s.last()) =~= s);
    }
}

proof fn lemma_filter_severity(s: Seq<IncidentView>, severity: Option<Seq<char>>)
    ensures
        forall|i: int| 0 <= i < filter_severity(s, severity).len() ==> s.contains(#[trigger] filter_severity(s, severity)[i])
            && severity_matches(filter_severity(s, severity)[i], severity),
    decreases s.len(),
{
    if s.len() > 0 {
        lemma_filter_severity(s.drop_last(), severity);
        let f = filter_severity(s, severity);
        let g = filter_severity(s.drop_last(), severity);
        assert forall|i: int| 0 <= i < f.len() implies s.contains(#[trigger] f[i]) && severity_matches(f[i], severity) by {
            if i < g.len() {
                assert(f[i] == g[i]);
                let k = choose|k: int| 0 <= k < s.drop_last().len() && s.drop_last()[k] == g[i];
                assert(s[k] == g[i]);
            } else {
                assert(f[i] == s.last());
                assert(s[s.len() - 1] == s.last());
            }
        }
    }
}

/// What an incident listing returns: at most `limit` incidents, newest
/// first, each a stored incident of the severity asked for; and when no
/// more than `limit` match, every one of them.
pub proof fn law_listing(s: Seq<IncidentView>, severity: Option<Seq<char>>, limit: nat)
    ensures
        listing(s, severity, limit).len() <= limit,
        is_newest_first(listing(s, severity, limit)),
        forall|i: int| 0 <= i < listing(s, severity, limit).len() ==> s.contains(#[trigger] listing(s, severity, limit)[i])
            && severity_matches(listing(s, severity, limit)[i], severity),
        filter_severity(s, severity).len() <= limit ==> listing(s, severity, limit).to_multiset()
            == filter_severity(s, severity).to_multiset(),
{
    let f = filter_severity(s, severity);
    let n = newest_first(f);
    let r = listing(s, severity, limit);
    law_newest_first_sorts(f);
    lemma_filter_severity(s, severity);
    vstd::seq_lib::to_multiset_len(n);
    vstd::seq_lib::to_multiset_len(f);
    assert forall|i: int| 0 <= i < r.len() implies s.contains(#[trigger] r[i]) && severity_matches(r[i], severity) by {
        assert(r[i] == n[i]);
        vstd::seq_lib::to_multiset_contains(n, n[i]);
        assert(n.contains(n[i]));
        vstd::seq_lib::to_multiset_contains(f, n[i]);
        let k = choose|k: int| 0 <= k < f.len() && f[k] == n[i];
        assert(f[k] == n[i]);
    }
    assert forall|i: int, j: int| 0 <= i < j < r.len() implies (#[trigger] r[i]).timestamp.total_nanos() >= (#[trigger] r[j]).timestamp.total_nanos() by {
        assert(r[i] == n[i]);
        assert(r[j] == n[j]);
    }
}

/// The predicate "stamped at `t` nanoseconds".
pub open spec fn stamped_at(t: int) -> spec_fn(IncidentView) -> bool {
    |x: IncidentView| x.timestamp.total_nanos() == t
}

proof fn lemma_none_stamped(s: Seq<IncidentView>, t: int)
    requires
        forall|k: int| 0 <= k < s.len() ==> (#[trigger] s[k]).timestamp.total_nanos() < t,
    ensures
        s.filter(stamped_at(t)) == Seq::<IncidentView>::empty(),
{
    let f = s.filter(stamped_at(t));
    if f.len() > 0 {
        s.lemma_filter_pred(stamped_at(t), 0);
        assert(f.contains(f[0]));
        s.lemma_filter_contains_rev(stamped_at(t), f[0]);
    }
    assert(f =~= Seq::<IncidentView>::empty());
}

proof fn lemma_insert_stable(l: Seq<IncidentView>, x: IncidentView, t: int)
    requires
        is_newest_first(l),
    ensures
        insert_newest_first(l, x).filter(stamped_at(t)) == l.push(x).filter(stamped_at(t)),
{
    let q = |y: IncidentView| x.timestamp.total_nanos() > y.timestamp.total_nanos();
    crate::text::lemma_first_where(l, q);
    let p = crate::text::first_where(l, q);
    assert forall|k: int| p <= k < l.len() implies x.timestamp.total_nanos() > #[trigger] l[k].timestamp.total_nanos() by {
        assert(q(l[p]));
        if k > p {
            assert(l[p].timestamp.total_nanos() >= l[k].timestamp.total_nanos());
        }
    }
    if p > 0 {
        assert(!q(l[p - 1]));
    }
    lemma_insert_at(l, x, p);
    let a = l.subrange(0, p);
    let b = l.subrange(p, l.len() as int);
    let ft = stamped_at(t);
    assert(l.insert(p, x) =~= a + seq![x] + b);
    assert(l =~= a + b);
    assert(l.push(x) =~= a + b + seq![x]);
    Seq::filter_distributes_over_add(a + seq![x], b, ft);
    Seq::filter_distributes_over_add(a, seq![x], ft);
    Seq::filter_distributes_over_add(a + b, seq![x], ft);
    Seq::filter_distributes_over_add(a, b, ft);
    reveal(Seq::filter);
    assert(seq![x].drop_last() =~= Seq::<IncidentView>::empty());
    assert(Seq::<IncidentView>::empty().filter(ft) =~= Seq::<IncidentView>::empty());
    if ft(x) {
        assert forall|k: int| 0 <= k < b.len() implies (#[trigger] b[k]).timestamp.total_nanos() < t by {
            assert(b[k] == l[p + k]);
        }
        lemma_none_stamped(b, t);
        assert(seq![x].filter(ft) =~= seq![x]);
    } else {
        assert(seq![x].filter(ft) =~= Seq::<IncidentView>::empty());
    }
}

/// The newest-first order is stable: the incidents stamped with any one
/// time come in the order in which they are stored.
pub proof fn law_newest_first_stable(s: Seq<IncidentView>, t: int)
    ensures
        newest_first(s).filter(stamped_at(t)) == s.filter(stamped_at(t)),
    decreases s.len(),
{
    if s.len() == 0 {
        assert(newest_first(s) =~= s);
    } else {
        let d = s.drop_last();
        law_newest_first_stable(d, t);
        law_newest_first_sorts(d);
        lemma_insert_sorted(newest_first(d), s.last());
        lemma_insert_stable(newest_first(d), s.last(), t);
        reveal(Seq::filter);
        assert(d.push(s.last()) =~= s);
        assert(newest_first(d).push(s.last()).drop_last() =~= newest_first(d));
        assert(newest_first(d).push(s.last()).last() == s.last());
    }
}

} // verus!
