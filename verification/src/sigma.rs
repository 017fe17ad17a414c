//! Sigma-style detection rules: reading them from their YAML text and
//! matching them against events.

use vstd::prelude::*;
use vstd::string::StringExecFns;
use crate::fields::{Entries, lookup};
use crate::normaliser::field_or;
use crate::shared::{CanonicalEvent, EventType, event_type_name};
use crate::text::{
    chars_of, contains, contains_chars, has_char, lines, lines_chars, lowercase, parse_unsigned,
    parse_unsigned_chars, replace, replace_chars, split_on, split_chars, split_once,
    split_once_chars, starts_with, string_of, trim, trim_chars, views,
};

verus! {

/// A detection rule.
#[derive(Clone, Debug)]
pub struct SigmaRule {
    pub id: String,
    pub title: String,
    pub logsource_category: String,
    pub condition: String,
    pub threshold: Option<usize>,
    pub timewindow: Option<u64>,
    pub severity: String,
}

/// The plain content of a rule.
pub struct RuleView {
    pub id: Seq<char>,
    pub title: Seq<char>,
    pub logsource_category: Seq<char>,
    pub condition: Seq<char>,
    pub threshold: Option<usize>,
    pub timewindow: Option<u64>,
    pub severity: Seq<char>,
}

impl View for SigmaRule {
    type V = RuleView;

    open spec fn view(&self) -> RuleView {
        RuleView {
            id: self.id@,
            title: self.title@,
            logsource_category: self.logsource_category@,
            condition: self.condition@,
            threshold: self.threshold,
            timewindow: self.timewindow,
            severity: self.severity@,
        }
    }
}

/// The rule before any line is read.
pub open spec fn initial_rule() -> RuleView {
    RuleView {
        id: Seq::empty(),
        title: Seq::empty(),
        logsource_category: Seq::empty(),
        condition: Seq::empty(),
        threshold: None,
        timewindow: None,
        severity: "medium"@,
    }
}

/// `line` with `key` removed, trimmed.
pub open spec fn value_after(line: Seq<char>, key: Seq<char>) -> Seq<char> {
    trim(replace(line, key, Seq::empty()))
}

/// A number as `str::parse` reads it for an unsigned type of largest value `max`.
pub open spec fn parse_number(s: Seq<char>, max: nat) -> Option<nat> {
    parse_unsigned(s, max)
}

/// The rule after one line of its text. Lines are trimmed first, so the
/// indented `category:`/`condition:` forms never match; a `logsource:` line
/// takes what follows the last `:` once the keys are removed.
pub open spec fn rule_line(r: RuleView, raw: Seq<char>) -> RuleView {
    let line = trim(raw);
    if "title:"@.is_prefix_of(line) {
        let title = value_after(line, "title:"@);
        RuleView { title: title, id: replace(lowercase(title), " "@, "_"@), ..r }
    } else if "logsource:"@.is_prefix_of(line) || "  category:"@.is_prefix_of(line) {
        let rest = trim(replace(replace(line, "logsource:"@, Seq::empty()), "category:"@, Seq::empty()));
        let parts = split_on(rest, ':');
        RuleView { logsource_category: trim(parts.last()), ..r }
    } else if "detection:"@.is_prefix_of(line) || "    condition:"@.is_prefix_of(line) {
        RuleView {
            condition: trim(replace(replace(line, "detection:"@, Seq::empty()), "condition:"@, Seq::empty())),
            ..r
        }
    } else if "threshold:"@.is_prefix_of(line) {
        RuleView {
            threshold: match parse_number(value_after(line, "threshold:"@), usize::MAX as nat) {
                Some(v) => Some(v as usize),
                None => None,
            },
            ..r
        }
    } else if "timewindow:"@.is_prefix_of(line) {
        RuleView {
            timewindow: match parse_number(value_after(line, "timewindow:"@), u64::MAX as nat) {
                Some(v) => Some(v as u64),
                None => None,
            },
            ..r
        }
    } else if "severity:"@.is_prefix_of(line) {
        RuleView { severity: value_after(line, "severity:"@), ..r }
    } else {
        r
    }
}

/// The rule read from the given lines.
pub open spec fn rule_lines(ls: Seq<Seq<char>>) -> RuleView
    decreases ls.len(),
{
    if ls.len() == 0 {
        initial_rule()
    } else {
        rule_line(rule_lines(ls.drop_last()), ls.last())
    }
}

/// Whether one `key=value` item of a condition holds for the fields: items
/// without `=` and keys with `|` are not checked; otherwise the lowercased
/// value and the lowercased field (empty when absent) must contain one another.
pub open spec fn condition_item_holds(item: Seq<char>, fields: Entries) -> bool {
    match split_once(item, '=') {
        Some((k, v)) => {
            let key = trim(k);
            let value = trim(v);
            if key.contains('|') {
                true
            } else {
                let field = lowercase(field_or(fields, key, Seq::empty()));
                let wanted = lowercase(value);
                contains(wanted, field) || contains(field, wanted)
            }
        },
        None => true,
    }
}

/// Whether a rule matches an event with the given raw fields and type.
pub open spec fn rule_matches(r: RuleView, fields: Entries, t: EventType) -> bool {
    let kind_text = lowercase(event_type_name(t));
    let category = field_or(fields, "category"@, kind_text);
    if r.logsource_category.len() > 0 && !contains(category, r.logsource_category)
        && r.logsource_category != kind_text {
        false
    } else if r.condition.len() == 0 {
        true
    } else {
        let items = split_on(r.condition, ',');
        forall|i: int| 0 <= i < items.len() ==> condition_item_holds(trim(#[trigger] items[i]), fields)
    }
}

/// The weight of a severity, in quarters: critical 4, high 3, medium 2,
/// low 1, and 2 for any other name (compared after lowercasing).
pub open spec fn severity_quarters(severity: Seq<char>) -> u8 {
    let s = lowercase(severity);
    if s == "critical"@ {
        4
    } else if s == "high"@ {
        3
    } else if s == "medium"@ {
        2
    } else if s == "low"@ {
        1
    } else {
        2
    }
}

/// Position of the first rule that matches, or `rules.len()`.
pub open spec fn first_matching(rules: Seq<RuleView>, fields: Entries, t: EventType) -> int {
    crate::text::first_where(rules, |r: RuleView| rule_matches(r, fields, t))
}

/// Removes `key` from `line` (all occurrences) and trims.
fn value_after_chars(line: &Vec<char>, key: &str) -> (r: Vec<char>)
    requires
        key@.len() > 0,
    ensures
        r@ == value_after(line@, key@),
{
    let k = chars_of(key);
    let empty: Vec<char> = Vec::new();
    assert(empty@ =~= Seq::<char>::empty());
    trim_chars(&replace_chars(line, &k, &empty))
}

impl SigmaRule {
    /// Reads a rule from its YAML text, line by line (see `rule_line`).
    pub fn parse_yaml(content: &str) -> (r: Result<SigmaRule, String>)
        ensures
            r matches Ok(rule) && rule@ == rule_lines(lines(content@)),
    {
        let text = chars_of(content);
        let ls = lines_chars(&text);
        let ghost lv = views(ls@);
        let mut rule = SigmaRule {
            id: String::new(),
            title: String::new(),
            logsource_category: String::new(),
            condition: String::new(),
            threshold: None,
            timewindow: None,
            severity: String::from_str("medium"),
        };
        let mut i: usize = 0;
        assert(lv.subrange(0, 0) =~= Seq::<Seq<char>>::empty());
        assert(rule@ == initial_rule());
        while i < ls.len()
            invariant
                lv == views(ls@),
                lv == lines(content@),
                i <= ls.len(),
                rule@ == rule_lines(lv.subrange(0, i as int)),
            decreases ls.len() - i,
        {
            proof {
                assert(lv.subrange(0, i + 1).drop_last() =~= lv.subrange(0, i as int));
                assert(lv.subrange(0, i + 1).last() == ls@[i as int]@);
                reveal_strlit("title:");
                reveal_strlit("logsource:");
                reveal_strlit("category:");
                reveal_strlit("detection:");
                reveal_strlit("condition:");
                reveal_strlit("threshold:");
                reveal_strlit("timewindow:");
                reveal_strlit("severity:");
                reveal_strlit(" ");
            }
            let line = trim_chars(&ls[i]);
            if starts_with(&line, &chars_of("title:")) {
                let title = value_after_chars(&line, "title:");
                let title_s = string_of(&title);
                let lower = chars_of(title_s.as_str().to_lowercase().as_str());
                let id = replace_chars(&lower, &chars_of(" "), &chars_of("_"));
                rule.title = title_s;
                rule.id = string_of(&id);
            } else if starts_with(&line, &chars_of("logsource:")) || starts_with(
                &line,
                &chars_of("  category:"),
            ) {
                let empty: Vec<char> = Vec::new();
                let a = replace_chars(&line, &chars_of("logsource:"), &empty);
                let b = replace_chars(&a, &chars_of("category:"), &empty);
                let rest = trim_chars(&b);
                let parts = split_chars(&rest, ':');
                assert(views(parts@).len() > 0) by {
                    assert(split_on(rest@, ':').len() > 0);
                }
                let last = trim_chars(&parts[parts.len() - 1]);
                assert(views(parts@).last() == parts@[parts.len() - 1]@);
                rule.logsource_category = string_of(&last);
            } else if starts_with(&line, &chars_of("detection:")) || starts_with(
                &line,
                &chars_of("    condition:"),
            ) {
                let empty: Vec<char> = Vec::new();
                let a = replace_chars(&line, &chars_of("detection:"), &empty);
                let b = replace_chars(&a, &chars_of("condition:"), &empty);
                rule.condition = string_of(&trim_chars(&b));
            } else if starts_with(&line, &chars_of("threshold:")) {
                let v = value_after_chars(&line, "threshold:");
                rule.threshold = match parse_unsigned_chars(&v, usize::MAX as u64) {
                    Some(n) => Some(n as usize),
                    None => None,
                };
            } else if starts_with(&line, &chars_of("timewindow:")) {
                let v = value_after_chars(&line, "timewindow:");
                rule.timewindow = parse_unsigned_chars(&v, u64::MAX);
            } else if starts_with(&line, &chars_of("severity:")) {
                rule.severity = string_of(&value_after_chars(&line, "severity:"));
            }
            i = i + 1;
        }
        assert(lv.subrange(0, ls.len() as int) =~= lv);
        Ok(rule)
    }

    /// Whether the rule matches the event (see `rule_matches`).
    pub fn evaluate(&self, event: &CanonicalEvent) -> (r: bool)
        ensures
            r == rule_matches(self@, event.raw_fields@, event.event_type),
    {
        let kind_text_s = event.event_type.name().as_str().to_lowercase();
        let kind_text = chars_of(kind_text_s.as_str());
        let category = match event.raw_fields.get("category") {
            Some(v) => chars_of(v.as_str()),
            None => chars_of(kind_text_s.as_str()),
        };
        let lsc = chars_of(self.logsource_category.as_str());
        if lsc.len() > 0 && !contains_chars(&category, &lsc) && !crate::text::chars_eq(&lsc, &kind_text) {
            return false;
        }
        let cond = chars_of(self.condition.as_str());
        if cond.len() == 0 {
            return true;
        }
        let items = split_chars(&cond, ',');
        let ghost iv = views(items@);
        let mut i: usize = 0;
        while i < items.len()
            invariant
                iv == views(items@),
                iv == split_on(self.condition@, ','),
                rule_matches(self@, event.raw_fields@, event.event_type) == (forall|j: int|
                    0 <= j < iv.len() ==> condition_item_holds(trim(#[trigger] iv[j]), event.raw_fields@)),
                i <= items.len(),
                forall|j: int| 0 <= j < i ==> condition_item_holds(trim(#[trigger] iv[j]), event.raw_fields@),
            decreases items.len() - i,
        {
            let item = trim_chars(&items[i]);
            assert(iv[i as int] == items@[i as int]@);
            if !item_holds(&item, event) {
                return false;
            }
            i = i + 1;
        }
        true
    }

    /// The weight of the rule's severity, in quarters of the unit score
    /// (see `severity_quarters`).
    pub fn severity_score(&self) -> (r: u8)
        ensures
            r == severity_quarters(self.severity@),
    {
        let s = self.severity.as_str().to_lowercase();
        let l = s.as_str();
        if crate::text::str_eq(l, "critical") {
            4
        } else if crate::text::str_eq(l, "high") {
            3
        } else if crate::text::str_eq(l, "medium") {
            2
        } else if crate::text::str_eq(l, "low") {
            1
        } else {
            2
        }
    }
}

/// Whether one trimmed condition item holds for the event's fields.
fn item_holds(item: &Vec<char>, event: &CanonicalEvent) -> (r: bool)
    ensures
        r == condition_item_holds(item@, event.raw_fields@),
{
    match split_once_chars(item, '=') {
        Some((k, v)) => {
            let key = trim_chars(&k);
            let value = trim_chars(&v);
            if has_char(&key, '|') {
                true
            } else {
                let key_s = string_of(&key);
                let field_s = match event.raw_fields.get(key_s.as_str()) {
                    Some(f) => f.clone(),
                    None => String::new(),
                };
                let field = chars_of(field_s.as_str().to_lowercase().as_str());
                let value_s = string_of(&value);
                let wanted = chars_of(value_s.as_str().to_lowercase().as_str());
                contains_chars(&wanted, &field) || contains_chars(&field, &wanted)
            }
        },
        None => true,
    }
}

/// The position of the first rule that matches the event, if any.
pub fn evaluate_sigma_rules(rules: &Vec<SigmaRule>, event: &CanonicalEvent) -> (r: Option<usize>)
    ensures
        match r {
            Some(i) => i == first_matching(rules@.map_values(|x: SigmaRule| x@), event.raw_fields@, event.event_type),
            None => first_matching(rules@.map_values(|x: SigmaRule| x@), event.raw_fields@, event.event_type)
                == rules.len(),
        },
{
    let ghost rv = rules@.map_values(|x: SigmaRule| x@);
    let ghost p = |r: RuleView| rule_matches(r, event.raw_fields@, event.event_type);
    let mut i: usize = 0;
    while i < rules.len()
        invariant
            rv == rules@.map_values(|x: SigmaRule| x@),
            p == (|r: RuleView| rule_matches(r, event.raw_fields@, event.event_type)),
            i <= rules.len(),
            forall|j: int| 0 <= j < i ==> !p(#[trigger] rv[j]),
        decreases rules.len() - i,
    {
        assert(rv[i as int] == rules@[i as int]@);
        if rules[i].evaluate(event) {
            proof {
                crate::text::lemma_first_where_unique(rv, p, i as int);
            }
            return Some(i);
        }
        i = i + 1;
    }
    proof {
        crate::text::lemma_first_where_unique(rv, p, i as int);
    }
    None
}

/// A line that names none of the keys a rule is read from (after trimming).
pub open spec fn unknown_line(raw: Seq<char>) -> bool {
    let line = trim(raw);
    &&& !"title:"@.is_prefix_of(line)
    &&& !"logsource:"@.is_prefix_of(line)
    &&& !"  category:"@.is_prefix_of(line)
    &&& !"detection:"@.is_prefix_of(line)
    &&& !"    condition:"@.is_prefix_of(line)
    &&& !"threshold:"@.is_prefix_of(line)
    &&& !"timewindow:"@.is_prefix_of(line)
    &&& !"severity:"@.is_prefix_of(line)
}

/// The rule after reading `ls` in turn, starting from `r`.
pub open spec fn rule_fold(r: RuleView, ls: Seq<Seq<char>>) -> RuleView
    decreases ls.len(),
{
    if ls.len() == 0 {
        r
    } else {
        rule_line(rule_fold(r, ls.drop_last()), ls.last())
    }
}

proof fn lemma_rule_lines_fold(ls: Seq<Seq<char>>)
    ensures
        rule_lines(ls) == rule_fold(initial_rule(), ls),
    decreases ls.len(),
{
    if ls.len() > 0 {
        lemma_rule_lines_fold(ls.drop_last());
    }
}

proof fn lemma_rule_fold_concat(r: RuleView, a: Seq<Seq<char>>, b: Seq<Seq<char>>)
    ensures
        rule_fold(r, a + b) == rule_fold(rule_fold(r, a), b),
    decreases b.len(),
{
    if b.len() == 0 {
        assert(a + b =~= a);
    } else {
        assert((a + b).drop_last() =~= a + b.drop_last());
        assert((a + b).last() == b.last());
        lemma_rule_fold_concat(r, a, b.drop_last());
    }
}

/// Lines that name no known key change nothing: inserting such a line
/// anywhere in a rule's text gives the same rule.
pub proof fn law_unknown_lines_ignored(a: Seq<Seq<char>>, l: Seq<char>, b: Seq<Seq<char>>)
    requires
        unknown_line(l),
    ensures
        rule_lines(a + seq![l] + b) == rule_lines(a + b),
{
    lemma_rule_lines_fold(a + seq![l] + b);
    lemma_rule_lines_fold(a + b);
    lemma_rule_fold_concat(initial_rule(), a + seq![l], b);
    lemma_rule_fold_concat(initial_rule(), a, seq![l]);
    lemma_rule_fold_concat(initial_rule(), a, b);
    let x = rule_fold(initial_rule(), a);
    assert(seq![l].drop_last() =~= Seq::<Seq<char>>::empty());
    assert(seq![l].last() == l);
    assert(rule_fold(x, Seq::<Seq<char>>::empty()) == x);
    assert(rule_fold(x, seq![l]) == rule_line(rule_fold(x, seq![l].drop_last()), seq![l].last()));
    assert(rule_fold(x, seq![l]) == rule_line(x, l));
    assert(rule_line(x, l) == x);
}

/// The predicate "this line names a known key".
pub open spec fn known_line() -> spec_fn(Seq<char>) -> bool {
    |l: Seq<char>| !unknown_line(l)
}

/// Only the lines that name a known key count: any number of other lines,
/// anywhere in a rule's text, leave the rule as the known lines alone give
/// it; so two texts with the same known lines in the same order give the
/// same rule.
pub proof fn law_only_known_lines_count(ls: Seq<Seq<char>>)
    ensures
        rule_lines(ls) == rule_lines(ls.filter(known_line())),
    decreases ls.len(),
{
    if ls.len() > 0 {
        let d = ls.drop_last();
        law_only_known_lines_count(d);
        reveal(Seq::filter);
        let f = d.filter(known_line());
        if known_line()(ls.last()) {
            assert(ls.filter(known_line()) == f.push(ls.last()));
            assert(f.push(ls.last()).drop_last() =~= f);
        } else {
            assert(ls.filter(known_line()) == f);
        }
    } else {
        reveal(Seq::filter);
        assert(ls.filter(known_line()) =~= ls);
    }
}

/// A rule's identifier is its title lowercased with spaces turned into
/// underscores; both are empty when the text has no title line.
pub proof fn law_rule_id(ls: Seq<Seq<char>>)
    ensures
        rule_lines(ls).id == replace(lowercase(rule_lines(ls).title), " "@, "_"@) || (rule_lines(ls).id
            == Seq::<char>::empty() && rule_lines(ls).title == Seq::<char>::empty()),
    decreases ls.len(),
{
    if ls.len() > 0 {
        law_rule_id(ls.drop_last());
    }
}

/// A `key=value` condition item is a two-way substring match on lowercased
/// text: it holds when the event's field (empty when absent) contains the
/// wanted value, when the wanted value contains the field, and only then.
pub proof fn law_condition_item(item: Seq<char>, k: Seq<char>, v: Seq<char>, fields: Entries)
    requires
        split_once(item, '=') == Some((k, v)),
        !trim(k).contains('|'),
    ensures
        ({
            let field = lowercase(field_or(fields, trim(k), Seq::empty()));
            let wanted = lowercase(trim(v));
            &&& contains(field, wanted) ==> condition_item_holds(item, fields)
            &&& contains(wanted, field) ==> condition_item_holds(item, fields)
            &&& !contains(field, wanted) && !contains(wanted, field) ==> !condition_item_holds(item, fields)
        }),
{
}

/// A rule without a log-source category whose condition is one `key=value`
/// item matches an event exactly when the event's field and the wanted
/// value, lowercased, contain one another (in either direction), whatever
/// the event's type.
pub proof fn law_single_item_rule(r: RuleView, k: Seq<char>, v: Seq<char>, fields: Entries, t: EventType)
    requires
        r.logsource_category.len() == 0,
        r.condition.len() > 0,
        !r.condition.contains(','),
        split_once(trim(r.condition), '=') == Some((k, v)),
        !trim(k).contains('|'),
    ensures
        ({
            let field = lowercase(field_or(fields, trim(k), Seq::empty()));
            let wanted = lowercase(trim(v));
            rule_matches(r, fields, t) == (contains(field, wanted) || contains(wanted, field))
        }),
{
    let c = r.condition;
    crate::text::lemma_first_where(c, crate::text::is_char(','));
    let f = crate::text::first_where(c, crate::text::is_char(','));
    if f < c.len() {
        assert(c[f] == ',');
    }
    assert(split_on(c, ',') == seq![c]);
    let items = split_on(c, ',');
    if condition_item_holds(trim(c), fields) {
        assert forall|i: int| 0 <= i < items.len() implies condition_item_holds(trim(#[trigger] items[i]), fields) by {
            assert(items[i] == c);
        }
    } else {
        assert(!condition_item_holds(trim(items[0]), fields));
    }
}

} // verus!
