//! Indicators of compromise: a Bloom filter of known-bad keys, and the
//! decisions around looking an address up with a reputation service.

use vstd::prelude::*;
use bloomfilter::Bloom;
use crate::shared::CanonicalEvent;
use vstd::string::StringExecFns;
use crate::text::{chars_of, lines, lines_chars, starts_with, str_eq, string_of, trim, trim_chars, views};

verus! {

#[verifier::external_type_specification]
#[verifier::external_body]
#[verifier::reject_recursive_types(T)]
pub struct ExBloom<T: ?Sized>(bloomfilter::Bloom<T>);

/// The keys for which `Bloom::check` answers true on a filter: a function
/// of the filter's bits and of the hash keys it was seeded with.
pub uninterp spec fn bloom_answers(b: Bloom<String>) -> Set<Seq<char>>;

/// `Bloom::new(bitmap_size, items_count)`: a filter whose bits are all
/// clear, so that `check` answers false for every key (it tests at least
/// one bit). The hash keys come from a random seed. The crate panics when either size is zero or the bitmap's bit count
/// does not fit; it also panics when the system gives no random seed.
#[verifier::external_body]
pub(crate) fn bloom_new(bitmap_size: usize, items_count: usize) -> (r: Bloom<String>)
    requires
        bitmap_size > 0,
        items_count > 0,
        bitmap_size as nat * 8 <= usize::MAX,
        bitmap_size as nat * 8 <= u64::MAX,
    ensures
        bloom_answers(r) == Set::<Seq<char>>::empty(),
{
    Bloom::new(bitmap_size, items_count)
}

/// `Bloom::set`: sets the key's bits, the same bits that `check` tests.
/// Bits are only ever set, never cleared, so every key answered before is
/// still answered, and so is the key itself; other keys may now be answered
/// too (false positives), which the random hash keys decide. When the key
/// was already answered, all its bits were set and the filter is unchanged.
#[verifier::external_body]
pub(crate) fn bloom_set(b: &mut Bloom<String>, item: &String)
    ensures
        bloom_answers(*old(b)).insert(item@).subset_of(bloom_answers(*final(b))),
        bloom_answers(*old(b)).contains(item@) ==> *final(b) == *old(b),
{
    b.set(item)
}

/// `Bloom::check`: whether the filter answers the key (see `bloom_answers`).
#[verifier::external_body]
pub(crate) fn bloom_check(b: &Bloom<String>, item: &String) -> (r: bool)
    ensures
        r == bloom_answers(*b).contains(item@),
{
    b.check(item)
}

/// The size in bytes of the indicator filter's bitmap.
pub const IOC_BITMAP_BYTES: usize = 10000;

/// The number of indicators the filter is sized for.
pub const IOC_ITEMS: usize = 4;

/// The indicators a list text holds: its trimmed lines that are neither
/// empty nor comments (starting with `#`), in order.
pub open spec fn ioc_entries(ls: Seq<Seq<char>>) -> Seq<Seq<char>>
    decreases ls.len(),
{
    if ls.len() == 0 {
        seq![]
    } else {
        let p = ioc_entries(ls.drop_last());
        let l = trim(ls.last());
        if l.len() > 0 && l[0] != '#' {
            p.push(l)
        } else {
            p
        }
    }
}

/// Every indicator line of `ls` (trimmed, neither empty nor a comment)
/// is in `s`.
pub open spec fn indicators_in(ls: Seq<Seq<char>>, s: Set<Seq<char>>) -> bool {
    forall|j: int|
        0 <= j < ls.len() ==> {
            let l = trim(#[trigger] ls[j]);
            l.len() > 0 && l[0] != '#' ==> s.contains(l)
        }
}

/// A filter of indicators of compromise.
pub struct IocFilter {
    bloom: Bloom<String>,
}

impl IocFilter {
    /// The keys the filter flags: every recorded indicator, and possibly
    /// other keys that share their bits (false positives).
    pub closed spec fn flagged(&self) -> Set<Seq<char>> {
        bloom_answers(self.bloom)
    }

    /// An empty filter.
    pub fn new() -> (r: IocFilter)
        ensures
            r.flagged() == Set::<Seq<char>>::empty(),
    {
        IocFilter { bloom: bloom_new(IOC_BITMAP_BYTES, IOC_ITEMS) }
    }

    /// Records the indicators of a list text: afterwards the filter flags
    /// each of them and every key it flagged before.
    pub fn load_ioc_list(&mut self, content: &str)
        ensures
            old(self).flagged().union(ioc_entries(lines(content@)).to_set()).subset_of(final(self).flagged()),
            indicators_in(lines(content@), old(self).flagged()) ==> final(self).flagged() == old(self).flagged(),
    {
        let text = chars_of(content);
        let ls = lines_chars(&text);
        let ghost lv = views(ls@);
        let mut i: usize = 0;
        assert(lv.subrange(0, 0) =~= Seq::<Seq<char>>::empty());
        assert(old(self).flagged().union(Seq::<Seq<char>>::empty().to_set()) =~= old(self).flagged());
        while i < ls.len()
            invariant
                lv == views(ls@),
                lv == lines(content@),
                i <= ls.len(),
                old(self).flagged().union(ioc_entries(lv.subrange(0, i as int)).to_set()).subset_of(self.flagged()),
                indicators_in(lv, old(self).flagged()) ==> self.bloom == old(self).bloom,
            decreases ls.len() - i,
        {
            proof {
                assert(lv.subrange(0, i + 1).drop_last() =~= lv.subrange(0, i as int));
                assert(lv.subrange(0, i + 1).last() == ls@[i as int]@);
            }
            let line = trim_chars(&ls[i]);
            let ghost before = ioc_entries(lv.subrange(0, i as int));
            if line.len() > 0 && line[0] != '#' {
                let owned = string_of(&line);
                let ghost prev = self.flagged();
                proof {
                    assert(trim(lv[i as int]) == line@);
                }
                bloom_set(&mut self.bloom, &owned);
                proof {
                    before.lemma_push_to_set_commute(line@);
                    assert(old(self).flagged().union(before.push(line@).to_set()) =~= old(self).flagged().union(
                        before.to_set(),
                    ).insert(line@));
                }
            }
            i = i + 1;
        }
        assert(lv.subrange(0, ls.len() as int) =~= lv);
    }

    /// Whether the filter flags the event's source or destination key.
    pub fn evaluate_ioc(&self, event: &CanonicalEvent) -> (r: bool)
        ensures
            r == (self.flagged().contains(event.src_entity.key@) || self.flagged().contains(event.dst_entity.key@)),
    {
        bloom_check(&self.bloom, &event.src_entity.key) || bloom_check(&self.bloom, &event.dst_entity.key)
    }
}

/// An address in a private or loopback range, by its text.
pub open spec fn private_ip(ip: Seq<char>) -> bool {
    "192.168."@.is_prefix_of(ip) || "10."@.is_prefix_of(ip) || "172.16."@.is_prefix_of(ip)
        || "127."@.is_prefix_of(ip) || ip == "localhost"@
}

/// Whether an address text is private or loopback (and so never looked up).
pub fn is_private_ip(ip: &str) -> (r: bool)
    ensures
        r == private_ip(ip@),
{
    let c = chars_of(ip);
    starts_with(&c, &chars_of("192.168.")) || starts_with(&c, &chars_of("10.")) || starts_with(
        &c,
        &chars_of("172.16."),
    ) || starts_with(&c, &chars_of("127.")) || str_eq(ip, "localhost")
}

/// The next step of an indicator lookup for an address.
#[derive(Clone, Copy, Debug, PartialEq, Eq, Structural)]
pub enum IocStep {
    /// Answer with this score (the bits of an `f32`).
    Answer(u32),
    /// Ask the reputation service, then cache its answer.
    AskService,
}

/// What an indicator lookup does next: private addresses score 0; a cached
/// score is reused; without an API key the score is 0; otherwise the
/// service is asked.
pub open spec fn ioc_step(ip: Seq<char>, cached_bits: Option<u32>, has_api_key: bool) -> IocStep {
    if private_ip(ip) {
        IocStep::Answer(0)
    } else if cached_bits is Some {
        IocStep::Answer(cached_bits->0)
    } else if !has_api_key {
        IocStep::Answer(0)
    } else {
        IocStep::AskService
    }
}

/// What an indicator lookup for `ip` does next, given the cached score if
/// any and whether an API key is configured.
pub fn check_ioc_step(ip: &str, cached_bits: Option<u32>, has_api_key: bool) -> (r: IocStep)
    ensures
        r == ioc_step(ip@, cached_bits, has_api_key),
{
    if is_private_ip(ip) {
        return IocStep::Answer(0);
    }
    match cached_bits {
        Some(b) => IocStep::Answer(b),
        None => {
            if !has_api_key {
                IocStep::Answer(0)
            } else {
                IocStep::AskService
            }
        },
    }
}

/// No false negatives: whenever the keys a filter flags after loading a
/// list text relate to those before as `load_ioc_list` promises, the filter
/// flags every indicator of the text and still flags what it flagged
/// before, so `evaluate_ioc` is true of every event whose source or
/// destination key is one of them.
pub proof fn law_loaded_indicator_flagged(before: Set<Seq<char>>, after: Set<Seq<char>>, content: Seq<char>, i: int)
    requires
        before.union(ioc_entries(lines(content)).to_set()).subset_of(after),
        0 <= i < ioc_entries(lines(content)).len(),
    ensures
        after.contains(ioc_entries(lines(content))[i]),
        before.subset_of(after),
{
    let es = ioc_entries(lines(content));
    assert(es.contains(es[i]));
    assert(es.to_set().contains(es[i]));
}

/// The reputation service's address for looking `ip` up over the last 30 days.
pub open spec fn abuse_check_url(ip: Seq<char>) -> Seq<char> {
    "https://api.abuseipdb.com/api/v2/check?ipAddress="@ + ip + "&maxAgeInDays=30"@
}

/// The reputation service's address for looking `ip` up.
pub fn abuseipdb_url(ip: &str) -> (r: String)
    ensures
        r@ == abuse_check_url(ip@),
{
    let mut r = String::from_str("https://api.abuseipdb.com/api/v2/check?ipAddress=");
    r.append(ip);
    r.append("&maxAgeInDays=30");
    r
}

proof fn lemma_indicator_is_entry(ls: Seq<Seq<char>>, j: int)
    requires
        0 <= j < ls.len(),
        trim(ls[j]).len() > 0,
        trim(ls[j])[0] != '#',
    ensures
        ioc_entries(ls).contains(trim(ls[j])),
    decreases ls.len(),
{
    let d = ls.drop_last();
    let p = ioc_entries(d);
    if j == ls.len() - 1 {
        assert(ioc_entries(ls) == p.push(trim(ls.last())));
        assert(ioc_entries(ls)[p.len() as int] == trim(ls[j]));
    } else {
        assert(ls[j] == d[j]);
        lemma_indicator_is_entry(d, j);
        let k = choose|k: int| 0 <= k < p.len() && p[k] == trim(ls[j]);
        let l = trim(ls.last());
        if l.len() > 0 && l[0] != '#' {
            assert(ioc_entries(ls)[k] == p[k]);
        }
    }
}

/// Loading is idempotent: once a list text is loaded, every indicator line
/// of it is flagged, so loading the same text again leaves the flagged keys
/// exactly as they were (by `load_ioc_list`'s contract); in particular a
/// text of blank and comment lines only never changes the filter.
pub proof fn law_reload_changes_nothing(before: Set<Seq<char>>, after: Set<Seq<char>>, content: Seq<char>)
    requires
        before.union(ioc_entries(lines(content)).to_set()).subset_of(after),
    ensures
        indicators_in(lines(content), after),
{
    let ls = lines(content);
    assert forall|j: int| 0 <= j < ls.len() implies {
        let l = trim(#[trigger] ls[j]);
        l.len() > 0 && l[0] != '#' ==> after.contains(l)
    } by {
        let l = trim(ls[j]);
        if l.len() > 0 && l[0] != '#' {
            lemma_indicator_is_entry(ls, j);
            let k = choose|k: int| 0 <= k < ioc_entries(ls).len() && ioc_entries(ls)[k] == l;
            assert(ioc_entries(ls).to_set().contains(l));
        }
    }
}

/// Private and loopback addresses are never looked up: they score 0
/// whatever is cached and whether or not a key is configured; a public
/// address reuses a cached score, scores 0 without a key, and is asked of
/// the service only when neither holds.
pub proof fn law_lookup_order(ip: Seq<char>, cached_bits: Option<u32>, has_api_key: bool)
    ensures
        private_ip(ip) ==> ioc_step(ip, cached_bits, has_api_key) == IocStep::Answer(0),
        !private_ip(ip) && cached_bits is Some ==> ioc_step(ip, cached_bits, has_api_key) == IocStep::Answer(
            cached_bits->0,
        ),
        (ioc_step(ip, cached_bits, has_api_key) == IocStep::AskService) == (!private_ip(ip) && cached_bits is None
            && has_api_key),
{
}

} // verus!
