//! Character-level text processing with exact specifications.
//!
//! Strings are handled as `Seq<char>` in specifications; the executable
//! helpers work on `Vec<char>` and convert to and from `String`/`&str`.

use vstd::prelude::*;
use vstd::string::StrSliceExecFns;

verus! {

// ---------------------------------------------------------------------
// Facts about std that vstd does not state
// ---------------------------------------------------------------------

/// Every character is ASCII.
pub open spec fn is_ascii_text(s: Seq<char>) -> bool {
    forall|i: int| 0 <= i < s.len() ==> (#[trigger] s[i] as u32) < 128
}

/// The ASCII lowercase of a character: `A`-`Z` become `a`-`z`, others stay.
pub open spec fn ascii_lower_char(c: char) -> char {
    if 65 <= (c as u32) && (c as u32) <= 90 {
        ((c as u32) + 32) as char
    } else {
        c
    }
}

/// The result of `str::to_lowercase` on a string that is not all ASCII:
/// its Unicode lowercase mapping (a character may map to several).
pub uninterp spec fn unicode_lowercase(s: Seq<char>) -> Seq<char>;

/// The result of `str::to_lowercase` on a string: on ASCII text, `A`-`Z`
/// lowered one by one (the Unicode mapping of those letters); otherwise
/// the Unicode lowercase mapping.
pub open spec fn lowercase(s: Seq<char>) -> Seq<char> {
    if is_ascii_text(s) {
        s.map_values(|c: char| ascii_lower_char(c))
    } else {
        unicode_lowercase(s)
    }
}

/// The ASCII uppercase of a character: `a`-`z` become `A`-`Z`, others stay.
pub open spec fn ascii_upper_char(c: char) -> char {
    if 97 <= (c as u32) && (c as u32) <= 122 {
        ((c as u32) - 32) as char
    } else {
        c
    }
}

/// The result of `str::to_uppercase` on a string that is not all ASCII:
/// its Unicode uppercase mapping (a character may map to several).
pub uninterp spec fn unicode_uppercase(s: Seq<char>) -> Seq<char>;

/// The result of `str::to_uppercase` on a string: on ASCII text, `a`-`z`
/// raised one by one (the Unicode mapping of those letters); otherwise the
/// Unicode uppercase mapping.
pub open spec fn uppercase(s: Seq<char>) -> Seq<char> {
    if is_ascii_text(s) {
        s.map_values(|c: char| ascii_upper_char(c))
    } else {
        unicode_uppercase(s)
    }
}

/// The Unicode `White_Space` property, which `char::is_whitespace` tests:
/// U+0009 to U+000D, U+0020, U+0085, U+00A0, U+1680, U+2000 to U+200A,
/// U+2028, U+2029, U+202F, U+205F and U+3000.
pub open spec fn is_white_space(c: char) -> bool {
    let u = c as u32;
    (9 <= u && u <= 13) || u == 32 || u == 0x85 || u == 0xA0 || u == 0x1680 || (0x2000 <= u && u <= 0x200A)
        || u == 0x2028 || u == 0x2029 || u == 0x202F || u == 0x205F || u == 0x3000
}

/// `str::to_lowercase`: the lowercase mapping of the input. On ASCII text
/// it lowers `A`-`Z` and keeps every other character; beyond ASCII the
/// mapping is named `unicode_lowercase` and not spelled out.
pub assume_specification[ str::to_lowercase ](s: &str) -> (r: String)
    ensures
        r@ == lowercase(s@),
        !is_ascii_text(s@) ==> r@ == unicode_lowercase(s@),
;

/// `str::to_uppercase`: the uppercase mapping of the input. On ASCII text
/// it raises `a`-`z` and keeps every other character; beyond ASCII the
/// mapping is named `unicode_uppercase` and not spelled out.
pub assume_specification[ str::to_uppercase ](s: &str) -> (r: String)
    ensures
        r@ == uppercase(s@),
        !is_ascii_text(s@) ==> r@ == unicode_uppercase(s@),
;

/// `char::is_whitespace`: whether the character has the Unicode
/// `White_Space` property (see `is_white_space`).
pub assume_specification[ char::is_whitespace ](c: char) -> (r: bool)
    ensures
        r == is_white_space(c),
;

/// `String::push` appends one character to the string.
pub assume_specification[ String::push ](s: &mut String, ch: char)
    ensures
        final(s)@ == old(s)@.push(ch),
;

/// The ASCII digit for a value below ten.
pub open spec fn digit_char(d: nat) -> char {
    (d + 48) as char
}

/// The decimal text of a natural number, without sign or leading zeros.
pub open spec fn decimal(n: nat) -> Seq<char>
    decreases n,
{
    if n < 10 {
        seq![digit_char(n)]
    } else {
        decimal(n / 10).push(digit_char(n % 10))
    }
}

/// The decimal text of a number, as `u64::to_string` writes it.
pub(crate) fn u64_text(n: u64) -> (r: String)
    ensures
        r@ == decimal(n as nat),
{
    let mut m: u64 = n;
    let mut acc: Vec<char> = Vec::new();
    while m >= 10
        invariant
            decimal(n as nat) == decimal(m as nat) + acc@,
        decreases m,
    {
        let d: u64 = m % 10;
        let c = char_of_digit(d);
        let ghost before = acc@;
        acc.insert(0, c);
        assert(acc@ =~= seq![c] + before);
        assert(decimal(m as nat) == decimal((m / 10) as nat).push(digit_char((m % 10) as nat)));
        assert(decimal((m / 10) as nat).push(c) + before =~= decimal((m / 10) as nat) + (seq![c] + before));
        m = m / 10;
    }
    let c = char_of_digit(m);
    let ghost before = acc@;
    acc.insert(0, c);
    assert(acc@ =~= seq![c] + before);
    assert(decimal(m as nat) == seq![digit_char(m as nat)]);
    string_of(&acc)
}

/// The ASCII digit for a value below ten.
fn char_of_digit(d: u64) -> (r: char)
    requires
        d < 10,
    ensures
        r == digit_char(d as nat),
{
    match d {
        0 => '0',
        1 => '1',
        2 => '2',
        3 => '3',
        4 => '4',
        5 => '5',
        6 => '6',
        7 => '7',
        8 => '8',
        _ => '9',
    }
}

// ---------------------------------------------------------------------
// Specifications
// ---------------------------------------------------------------------

/// The whitespace predicate as a value, for the predicate-generic definitions.
pub open spec fn ws() -> spec_fn(char) -> bool {
    |c: char| is_white_space(c)
}

/// The negation of a predicate.
pub open spec fn negate(p: spec_fn(char) -> bool) -> spec_fn(char) -> bool {
    |x: char| !p(x)
}

/// The predicate "equals `c`".
pub open spec fn is_char(c: char) -> spec_fn(char) -> bool {
    |x: char| x == c
}

/// Index of the first element of `s` satisfying `p`, or `s.len()` if none does.
pub open spec fn first_where<A>(s: Seq<A>, p: spec_fn(A) -> bool) -> int
    decreases s.len(),
{
    if s.len() == 0 {
        0
    } else if p(s[0]) {
        0
    } else {
        1 + first_where(s.drop_first(), p)
    }
}

/// `s` with its leading characters that satisfy `p` removed.
pub open spec fn trim_start_by(s: Seq<char>, p: spec_fn(char) -> bool) -> Seq<char>
    decreases s.len(),
{
    if s.len() > 0 && p(s[0]) {
        trim_start_by(s.drop_first(), p)
    } else {
        s
    }
}

/// `s` with its trailing characters that satisfy `p` removed.
pub open spec fn trim_end_by(s: Seq<char>, p: spec_fn(char) -> bool) -> Seq<char>
    decreases s.len(),
{
    if s.len() > 0 && p(s.last()) {
        trim_end_by(s.drop_last(), p)
    } else {
        s
    }
}

/// What `str::trim` gives: leading and trailing whitespace removed.
pub open spec fn trim(s: Seq<char>) -> Seq<char> {
    trim_end_by(trim_start_by(s, ws()), ws())
}

/// What `str::trim_matches(c)` gives: leading and trailing runs of `c` removed.
pub open spec fn trim_char(s: Seq<char>, c: char) -> Seq<char> {
    trim_end_by(trim_start_by(s, is_char(c)), is_char(c))
}

/// `p` occurs in `s` starting at index `i`.
pub open spec fn occurs_at(s: Seq<char>, p: Seq<char>, i: int) -> bool {
    0 <= i && i + p.len() <= s.len() && s.subrange(i, i + p.len()) == p
}

/// What `str::contains` gives for a string pattern.
pub open spec fn contains(s: Seq<char>, p: Seq<char>) -> bool {
    exists|i: int| occurs_at(s, p, i)
}

/// What `str::split(c)` yields for a character separator.
pub open spec fn split_on(s: Seq<char>, c: char) -> Seq<Seq<char>>
    decreases s.len(),
{
    let f = first_where(s, is_char(c));
    if 0 <= f < s.len() {
        seq![s.subrange(0, f)] + split_on(s.subrange(f + 1, s.len() as int), c)
    } else {
        seq![s]
    }
}

/// What `str::split_once(c)` gives for a character separator.
pub open spec fn split_once(s: Seq<char>, c: char) -> Option<(Seq<char>, Seq<char>)> {
    let f = first_where(s, is_char(c));
    if 0 <= f < s.len() {
        Some((s.subrange(0, f), s.subrange(f + 1, s.len() as int)))
    } else {
        None
    }
}

/// A line without its `\r` when it ended in `\r\n`.
pub open spec fn strip_cr(t: Seq<char>) -> Seq<char> {
    if t.len() > 0 && t.last() == '\r' {
        t.drop_last()
    } else {
        t
    }
}

/// What `str::lines` yields: pieces ended by `\n` (with a `\r` before it
/// dropped); a final line ending adds no empty line.
pub open spec fn lines(s: Seq<char>) -> Seq<Seq<char>>
    decreases s.len(),
{
    let f = first_where(s, is_char('\n'));
    if s.len() == 0 {
        seq![]
    } else if 0 <= f < s.len() {
        seq![strip_cr(s.subrange(0, f))] + lines(s.subrange(f + 1, s.len() as int))
    } else {
        seq![s]
    }
}

/// What `str::split_whitespace` yields: the maximal runs of non-whitespace.
pub open spec fn words(s: Seq<char>) -> Seq<Seq<char>>
    decreases s.len(),
{
    if s.len() == 0 {
        seq![]
    } else if is_white_space(s[0]) {
        words(s.drop_first())
    } else {
        let f = first_where(s, ws());
        if 1 <= f <= s.len() {
            seq![s.subrange(0, f)] + words(s.subrange(f, s.len() as int))
        } else {
            seq![s]
        }
    }
}

/// What `str::replace(from, to)` gives for a non-empty `from`: the
/// non-overlapping occurrences of `from`, found from the left, replaced by `to`.
pub open spec fn replace(s: Seq<char>, from: Seq<char>, to: Seq<char>) -> Seq<char>
    decreases s.len(),
{
    if s.len() == 0 {
        s
    } else if from.len() > 0 && from.is_prefix_of(s) {
        to + replace(s.subrange(from.len() as int, s.len() as int), from, to)
    } else {
        seq![s[0]] + replace(s.drop_first(), from, to)
    }
}

/// An ASCII decimal digit.
pub open spec fn is_digit(c: char) -> bool {
    '0' <= c && c <= '9'
}

/// Every character is an ASCII decimal digit.
pub open spec fn all_digits(s: Seq<char>) -> bool {
    forall|i: int| 0 <= i < s.len() ==> is_digit(#[trigger] s[i])
}

/// The value of a run of decimal digits.
pub open spec fn digits_value(s: Seq<char>) -> nat
    decreases s.len(),
{
    if s.len() == 0 {
        0
    } else {
        digits_value(s.drop_last()) * 10 + ((s.last() as int - 48) as nat)
    }
}

/// What `str::parse` gives for an unsigned integer type whose largest value
/// is `max`: an optional `+`, then one or more ASCII digits, with a value
/// not above `max`.
pub open spec fn parse_unsigned(s: Seq<char>, max: nat) -> Option<nat> {
    let d = if s.len() > 0 && s[0] == '+' {
        s.drop_first()
    } else {
        s
    };
    if d.len() > 0 && all_digits(d) && digits_value(d) <= max {
        Some(digits_value(d))
    } else {
        None
    }
}

// ---------------------------------------------------------------------
// Lemmas
// ---------------------------------------------------------------------

/// `first_where` is the least index whose character satisfies `p`.
pub proof fn lemma_first_where<A>(s: Seq<A>, p: spec_fn(A) -> bool)
    ensures
        0 <= first_where(s, p) <= s.len(),
        forall|j: int| 0 <= j < first_where(s, p) ==> !p(#[trigger] s[j]),
        first_where(s, p) < s.len() ==> p(s[first_where(s, p)]),
    decreases s.len(),
{
    if s.len() > 0 && !p(s[0]) {
        lemma_first_where(s.drop_first(), p);
        assert forall|j: int| 0 <= j < first_where(s, p) implies !p(#[trigger] s[j]) by {
            if j > 0 {
                assert(s[j] == s.drop_first()[j - 1]);
            }
        }
    }
}

/// Any index with the characterising properties is `first_where`.
pub proof fn lemma_first_where_unique<A>(s: Seq<A>, p: spec_fn(A) -> bool, k: int)
    requires
        0 <= k <= s.len(),
        forall|j: int| 0 <= j < k ==> !p(#[trigger] s[j]),
        k < s.len() ==> p(s[k]),
    ensures
        first_where(s, p) == k,
{
    lemma_first_where(s, p);
    let f = first_where(s, p);
    if f < k {
        assert(!p(s[f]));
    } else if k < f {
        assert(!p(s[k]));
    }
}

/// Trimming from the start drops exactly the leading run of `p`.
pub proof fn lemma_trim_start_by(s: Seq<char>, p: spec_fn(char) -> bool)
    ensures
        trim_start_by(s, p) == s.subrange(first_where(s, negate(p)), s.len() as int),
    decreases s.len(),
{
    if s.len() > 0 && p(s[0]) {
        lemma_trim_start_by(s.drop_first(), p);
        lemma_first_where(s.drop_first(), negate(p));
        assert(s.drop_first().subrange(first_where(s.drop_first(), negate(p)), s.len() - 1)
            =~= s.subrange(first_where(s, negate(p)), s.len() as int));
    } else if s.len() > 0 {
        assert(s.subrange(0, s.len() as int) =~= s);
    } else {
        assert(s.subrange(0, 0) =~= s);
    }
}

/// Trimming from the end of a prefix of `s` that ends in a character failing `p`.
pub proof fn lemma_trim_end_step(s: Seq<char>, p: spec_fn(char) -> bool, j: int)
    requires
        0 < j <= s.len(),
        p(s[j - 1]),
    ensures
        trim_end_by(s.subrange(0, j), p) == trim_end_by(s.subrange(0, j - 1), p),
{
    assert(s.subrange(0, j).drop_last() =~= s.subrange(0, j - 1));
}

/// Appending more digits never lowers the value of a digit run.
pub proof fn lemma_digits_value_prefix(s: Seq<char>, k: int)
    requires
        0 <= k <= s.len(),
    ensures
        digits_value(s.subrange(0, k)) <= digits_value(s),
    decreases s.len() - k,
{
    if k < s.len() {
        lemma_digits_value_prefix(s, k + 1);
        assert(s.subrange(0, k + 1).drop_last() =~= s.subrange(0, k));
    } else {
        assert(s.subrange(0, k) =~= s);
    }
}

// ---------------------------------------------------------------------
// Executable helpers
// ---------------------------------------------------------------------

/// The characters of a string slice.
pub fn chars_of(s: &str) -> (r: Vec<char>)
    ensures
        r@ == s@,
{
    let n = s.unicode_len();
    let mut r: Vec<char> = Vec::new();
    let mut i: usize = 0;
    while i < n
        invariant
            n == s@.len(),
            i <= n,
            r@ == s@.subrange(0, i as int),
        decreases n - i,
    {
        r.push(s.get_char(i));
        i = i + 1;
    }
    assert(r@ =~= s@);
    r
}

/// A string made of the given characters.
pub fn string_of(v: &Vec<char>) -> (r: String)
    ensures
        r@ == v@,
{
    let mut r = String::new();
    let mut i: usize = 0;
    while i < v.len()
        invariant
            i <= v.len(),
            r@ == v@.subrange(0, i as int),
        decreases v.len() - i,
    {
        r.push(v[i]);
        i = i + 1;
        assert(r@ =~= v@.subrange(0, i as int));
    }
    assert(r@ =~= v@);
    r
}

/// The characters of `s` from `a` up to `b`.
pub fn sub_chars(s: &Vec<char>, a: usize, b: usize) -> (r: Vec<char>)
    requires
        a <= b <= s.len(),
    ensures
        r@ == s@.subrange(a as int, b as int),
{
    let mut r: Vec<char> = Vec::new();
    let mut i: usize = a;
    while i < b
        invariant
            a <= i <= b,
            b <= s.len(),
            r@ == s@.subrange(a as int, i as int),
        decreases b - i,
    {
        r.push(s[i]);
        i = i + 1;
        assert(r@ =~= s@.subrange(a as int, i as int));
    }
    r
}

/// Appends the characters of `t` to `out`.
pub fn append_chars(out: &mut Vec<char>, t: &Vec<char>)
    ensures
        final(out)@ == old(out)@ + t@,
{
    let ghost start = out@;
    let mut i: usize = 0;
    while i < t.len()
        invariant
            i <= t.len(),
            out@ == start + t@.subrange(0, i as int),
        decreases t.len() - i,
    {
        out.push(t[i]);
        i = i + 1;
        assert(out@ =~= start + t@.subrange(0, i as int));
    }
    assert(t@.subrange(0, t.len() as int) =~= t@);
}

/// Whether two character sequences are equal.
pub fn chars_eq(a: &Vec<char>, b: &Vec<char>) -> (r: bool)
    ensures
        r == (a@ == b@),
{
    if a.len() != b.len() {
        return false;
    }
    let mut i: usize = 0;
    while i < a.len()
        invariant
            a.len() == b.len(),
            i <= a.len(),
            forall|j: int| 0 <= j < i ==> a@[j] == b@[j],
        decreases a.len() - i,
    {
        if a[i] != b[i] {
            return false;
        }
        i = i + 1;
    }
    assert(a@ =~= b@);
    true
}

/// Whether two strings are equal.
pub fn str_eq(a: &str, b: &str) -> (r: bool)
    ensures
        r == (a@ == b@),
{
    let x = chars_of(a);
    let y = chars_of(b);
    chars_eq(&x, &y)
}

/// Whether `p` is a prefix of `s` (`str::starts_with`).
pub fn starts_with(s: &Vec<char>, p: &Vec<char>) -> (r: bool)
    ensures
        r == p@.is_prefix_of(s@),
{
    if p.len() > s.len() {
        return false;
    }
    let mut i: usize = 0;
    while i < p.len()
        invariant
            p.len() <= s.len(),
            i <= p.len(),
            forall|j: int| 0 <= j < i ==> p@[j] == s@[j],
        decreases p.len() - i,
    {
        if p[i] != s[i] {
            assert(p@[i as int] != s@.subrange(0, p.len() as int)[i as int]);
            return false;
        }
        i = i + 1;
    }
    assert(p@ =~= s@.subrange(0, p.len() as int));
    true
}

/// Whether `p` is a suffix of `s` (`str::ends_with`).
pub fn ends_with(s: &Vec<char>, p: &Vec<char>) -> (r: bool)
    ensures
        r == p@.is_suffix_of(s@),
{
    if p.len() > s.len() {
        return false;
    }
    let off = s.len() - p.len();
    let mut i: usize = 0;
    while i < p.len()
        invariant
            p.len() <= s.len(),
            off == s.len() - p.len(),
            i <= p.len(),
            forall|j: int| 0 <= j < i ==> p@[j] == s@[off + j],
        decreases p.len() - i,
    {
        if p[i] != s[off + i] {
            assert(p@[i as int] != s@.subrange(off as int, s.len() as int)[i as int]);
            return false;
        }
        i = i + 1;
    }
    assert(p@ =~= s@.subrange(off as int, s.len() as int));
    true
}

/// Whether `p` occurs at index `i` of `s`.
fn matches_at(s: &Vec<char>, p: &Vec<char>, i: usize) -> (r: bool)
    ensures
        r == occurs_at(s@, p@, i as int),
{
    if i > s.len() || p.len() > s.len() - i {
        return false;
    }
    let mut k: usize = 0;
    while k < p.len()
        invariant
            i + p.len() <= s.len(),
            k <= p.len(),
            forall|j: int| 0 <= j < k ==> p@[j] == s@[i + j],
        decreases p.len() - k,
    {
        if p[k] != s[i + k] {
            assert(s@.subrange(i as int, i + p.len())[k as int] != p@[k as int]);
            return false;
        }
        k = k + 1;
    }
    assert(s@.subrange(i as int, i + p.len()) =~= p@);
    true
}

/// Whether `p` occurs anywhere in `s` (`str::contains`).
pub fn contains_chars(s: &Vec<char>, p: &Vec<char>) -> (r: bool)
    ensures
        r == contains(s@, p@),
{
    if p.len() > s.len() {
        assert forall|i: int| !occurs_at(s@, p@, i) by {}
        return false;
    }
    let last = s.len() - p.len();
    let mut i: usize = 0;
    while i < last
        invariant
            p.len() <= s.len(),
            last == s.len() - p.len(),
            i <= last,
            forall|j: int| 0 <= j < i ==> !occurs_at(s@, p@, j),
        decreases last - i,
    {
        if matches_at(s, p, i) {
            return true;
        }
        i = i + 1;
    }
    if matches_at(s, p, last) {
        return true;
    }
    assert forall|j: int| !occurs_at(s@, p@, j) by {
        if 0 <= j < i {
        }
    }
    false
}

/// Whether `s` holds the character `c`.
pub fn has_char(s: &Vec<char>, c: char) -> (r: bool)
    ensures
        r == s@.contains(c),
{
    let mut i: usize = 0;
    while i < s.len()
        invariant
            i <= s.len(),
            forall|j: int| 0 <= j < i ==> s@[j] != c,
        decreases s.len() - i,
    {
        if s[i] == c {
            return true;
        }
        i = i + 1;
    }
    false
}

/// Index of the first `c` in `s`, or `s.len()`.
pub fn find_char(s: &Vec<char>, c: char) -> (r: usize)
    ensures
        r as int == first_where(s@, is_char(c)),
{
    let mut i: usize = 0;
    while i < s.len()
        invariant
            i <= s.len(),
            forall|j: int| 0 <= j < i ==> s@[j] != c,
        decreases s.len() - i,
    {
        if s[i] == c {
            proof {
                lemma_first_where_unique(s@, is_char(c), i as int);
            }
            return i;
        }
        i = i + 1;
    }
    proof {
        lemma_first_where_unique(s@, is_char(c), i as int);
    }
    i
}

/// `s` without leading and trailing whitespace (`str::trim`).
pub fn trim_chars(s: &Vec<char>) -> (r: Vec<char>)
    ensures
        r@ == trim(s@),
{
    let n = s.len();
    let mut i: usize = 0;
    while i < n && s[i].is_whitespace()
        invariant
            n == s.len(),
            i <= n,
            forall|j: int| 0 <= j < i ==> is_white_space(#[trigger] s@[j]),
        decreases n - i,
    {
        i = i + 1;
    }
    proof {
        assert forall|j: int| 0 <= j < i implies !negate(ws())(#[trigger] s@[j]) by {}
        if i < n {
            assert(negate(ws())(s@[i as int]));
        }
        lemma_first_where_unique(s@, negate(ws()), i as int);
        lemma_trim_start_by(s@, ws());
    }
    let ghost t = s@.subrange(i as int, n as int);
    assert(trim_start_by(s@, ws()) == t);
    assert(t.subrange(0, n - i) =~= t);
    let mut j: usize = n;
    while j > i && s[j - 1].is_whitespace()
        invariant
            n == s.len(),
            i <= j <= n,
            t == s@.subrange(i as int, n as int),
            trim_end_by(t, ws()) == trim_end_by(t.subrange(0, j - i), ws()),
        decreases j,
    {
        proof {
            assert(t[j - i - 1] == s@[j - 1]);
            lemma_trim_end_step(t, ws(), j - i);
        }
        j = j - 1;
    }
    let r = sub_chars(s, i, j);
    proof {
        assert(r@ =~= t.subrange(0, j - i));
        if j > i {
            assert(r@.last() == s@[j - 1]);
        }
    }
    r
}

/// `s` without leading and trailing runs of `c` (`str::trim_matches(c)`).
pub fn trim_char_chars(s: &Vec<char>, c: char) -> (r: Vec<char>)
    ensures
        r@ == trim_char(s@, c),
{
    let n = s.len();
    let mut i: usize = 0;
    while i < n && s[i] == c
        invariant
            n == s.len(),
            i <= n,
            forall|j: int| 0 <= j < i ==> #[trigger] s@[j] == c,
        decreases n - i,
    {
        i = i + 1;
    }
    proof {
        assert forall|j: int| 0 <= j < i implies !negate(is_char(c))(#[trigger] s@[j]) by {}
        if i < n {
            assert(negate(is_char(c))(s@[i as int]));
        }
        lemma_first_where_unique(s@, negate(is_char(c)), i as int);
        lemma_trim_start_by(s@, is_char(c));
    }
    let ghost t = s@.subrange(i as int, n as int);
    assert(trim_start_by(s@, is_char(c)) == t);
    assert(t.subrange(0, n - i) =~= t);
    let mut j: usize = n;
    while j > i && s[j - 1] == c
        invariant
            n == s.len(),
            i <= j <= n,
            t == s@.subrange(i as int, n as int),
            trim_end_by(t, is_char(c)) == trim_end_by(t.subrange(0, j - i), is_char(c)),
        decreases j,
    {
        proof {
            assert(t[j - i - 1] == s@[j - 1]);
            lemma_trim_end_step(t, is_char(c), j - i);
        }
        j = j - 1;
    }
    let r = sub_chars(s, i, j);
    proof {
        assert(r@ =~= t.subrange(0, j - i));
        if j > i {
            assert(r@.last() == s@[j - 1]);
        }
    }
    r
}


/// The character views of a sequence of character vectors.
pub open spec fn views(v: Seq<Vec<char>>) -> Seq<Seq<char>> {
    v.map_values(|x: Vec<char>| x@)
}

proof fn lemma_views_push(v: Seq<Vec<char>>, x: Vec<char>)
    ensures
        views(v.push(x)) == views(v).push(x@),
{
    assert(views(v.push(x)) =~= views(v).push(x@));
}

/// Index of the first `c` in `s` at or after `start`, or `s.len()`.
pub fn find_char_from(s: &Vec<char>, c: char, start: usize) -> (r: usize)
    requires
        start <= s.len(),
    ensures
        r as int == start + first_where(s@.subrange(start as int, s.len() as int), is_char(c)),
        start <= r <= s.len(),
{
    let ghost t = s@.subrange(start as int, s.len() as int);
    let mut i: usize = start;
    while i < s.len()
        invariant
            start <= i <= s.len(),
            t == s@.subrange(start as int, s.len() as int),
            forall|j: int| start <= j < i ==> s@[j] != c,
        decreases s.len() - i,
    {
        if s[i] == c {
            proof {
                assert forall|j: int| 0 <= j < i - start implies !is_char(c)(#[trigger] t[j]) by {
                    assert(t[j] == s@[start + j]);
                }
                lemma_first_where_unique(t, is_char(c), i - start);
            }
            return i;
        }
        i = i + 1;
    }
    proof {
        assert forall|j: int| 0 <= j < i - start implies !is_char(c)(#[trigger] t[j]) by {
            assert(t[j] == s@[start + j]);
        }
        lemma_first_where_unique(t, is_char(c), i - start);
    }
    i
}

/// Index of the first whitespace in `s` at or after `start`, or `s.len()`.
fn find_ws_from(s: &Vec<char>, start: usize) -> (r: usize)
    requires
        start <= s.len(),
    ensures
        r as int == start + first_where(s@.subrange(start as int, s.len() as int), ws()),
        start <= r <= s.len(),
{
    let ghost t = s@.subrange(start as int, s.len() as int);
    let mut i: usize = start;
    while i < s.len()
        invariant
            start <= i <= s.len(),
            t == s@.subrange(start as int, s.len() as int),
            forall|j: int| start <= j < i ==> !is_white_space(#[trigger] s@[j]),
        decreases s.len() - i,
    {
        if s[i].is_whitespace() {
            proof {
                assert forall|j: int| 0 <= j < i - start implies !ws()(#[trigger] t[j]) by {
                    assert(t[j] == s@[start + j]);
                }
                lemma_first_where_unique(t, ws(), i - start);
            }
            return i;
        }
        i = i + 1;
    }
    proof {
        assert forall|j: int| 0 <= j < i - start implies !ws()(#[trigger] t[j]) by {
            assert(t[j] == s@[start + j]);
        }
        lemma_first_where_unique(t, ws(), i - start);
    }
    i
}

/// The pieces of `s` between occurrences of `c` (`str::split(c)`).
pub fn split_chars(s: &Vec<char>, c: char) -> (r: Vec<Vec<char>>)
    ensures
        views(r@) == split_on(s@, c),
{
    let n = s.len();
    let mut out: Vec<Vec<char>> = Vec::new();
    let mut start: usize = 0;
    assert(s@.subrange(0, n as int) =~= s@);
    loop
        invariant
            n == s.len(),
            start <= n,
            views(out@) + split_on(s@.subrange(start as int, n as int), c) == split_on(s@, c),
        decreases n - start,
    {
        let ghost t = s@.subrange(start as int, n as int);
        let k = find_char_from(s, c, start);
        if k < n {
            let piece = sub_chars(s, start, k);
            proof {
                assert(piece@ =~= t.subrange(0, k - start));
                assert(t.subrange(k - start + 1, t.len() as int) =~= s@.subrange(k + 1, n as int));
                lemma_views_push(out@, piece);
                assert(views(out@.push(piece)) + split_on(s@.subrange(k + 1, n as int), c)
                    =~= views(out@) + split_on(t, c));
            }
            out.push(piece);
            start = k + 1;
        } else {
            let piece = sub_chars(s, start, n);
            proof {
                lemma_views_push(out@, piece);
                assert(views(out@.push(piece)) =~= views(out@) + split_on(t, c));
            }
            out.push(piece);
            return out;
        }
    }
}

/// The text before and after the first `c` in `s`, if any (`str::split_once(c)`).
pub fn split_once_chars(s: &Vec<char>, c: char) -> (r: Option<(Vec<char>, Vec<char>)>)
    ensures
        match r {
            Some((a, b)) => split_once(s@, c) == Some((a@, b@)),
            None => split_once(s@, c) is None,
        },
{
    let k = find_char(s, c);
    if k < s.len() {
        let a = sub_chars(s, 0, k);
        let b = sub_chars(s, k + 1, s.len());
        Some((a, b))
    } else {
        None
    }
}

/// `t` without a final `\r`.
fn strip_cr_chars(t: Vec<char>) -> (r: Vec<char>)
    ensures
        r@ == strip_cr(t@),
{
    let mut t = t;
    if t.len() > 0 && t[t.len() - 1] == '\r' {
        t.pop();
    }
    t
}

/// The lines of `s` (`str::lines`).
pub fn lines_chars(s: &Vec<char>) -> (r: Vec<Vec<char>>)
    ensures
        views(r@) == lines(s@),
{
    let n = s.len();
    let mut out: Vec<Vec<char>> = Vec::new();
    let mut start: usize = 0;
    assert(s@.subrange(0, n as int) =~= s@);
    while start < n
        invariant
            n == s.len(),
            start <= n,
            views(out@) + lines(s@.subrange(start as int, n as int)) == lines(s@),
        decreases n - start,
    {
        let ghost t = s@.subrange(start as int, n as int);
        let k = find_char_from(s, '\n', start);
        if k < n {
            let piece = strip_cr_chars(sub_chars(s, start, k));
            proof {
                assert(t.subrange(0, k - start) =~= s@.subrange(start as int, k as int));
                assert(t.subrange(k - start + 1, t.len() as int) =~= s@.subrange(k + 1, n as int));
                lemma_views_push(out@, piece);
                assert(views(out@.push(piece)) + lines(s@.subrange(k + 1, n as int))
                    =~= views(out@) + lines(t));
            }
            out.push(piece);
            start = k + 1;
        } else {
            let piece = sub_chars(s, start, n);
            proof {
                lemma_views_push(out@, piece);
                assert(s@.subrange(n as int, n as int) =~= Seq::<char>::empty());
                assert(views(out@.push(piece)) + lines(s@.subrange(n as int, n as int))
                    =~= views(out@) + lines(t));
            }
            out.push(piece);
            start = n;
        }
    }
    assert(s@.subrange(n as int, n as int) =~= Seq::<char>::empty());
    assert(views(out@) + lines(Seq::<char>::empty()) =~= views(out@));
    out
}

/// The whitespace-separated words of `s` (`str::split_whitespace`).
pub fn words_chars(s: &Vec<char>) -> (r: Vec<Vec<char>>)
    ensures
        views(r@) == words(s@),
{
    let n = s.len();
    let mut out: Vec<Vec<char>> = Vec::new();
    let mut i: usize = 0;
    assert(s@.subrange(0, n as int) =~= s@);
    while i < n
        invariant
            n == s.len(),
            i <= n,
            views(out@) + words(s@.subrange(i as int, n as int)) == words(s@),
        decreases n - i,
    {
        let ghost t = s@.subrange(i as int, n as int);
        if s[i].is_whitespace() {
            assert(t.drop_first() =~= s@.subrange(i + 1, n as int));
            i = i + 1;
        } else {
            let k = find_ws_from(s, i);
            let piece = sub_chars(s, i, k);
            proof {
                lemma_first_where(t, ws());
                assert(t[0] == s@[i as int]);
                assert(first_where(t, ws()) >= 1);
                assert(t.subrange(0, k - i) =~= piece@);
                assert(t.subrange(k - i, t.len() as int) =~= s@.subrange(k as int, n as int));
                lemma_views_push(out@, piece);
                assert(views(out@.push(piece)) + words(s@.subrange(k as int, n as int))
                    =~= views(out@) + words(t));
            }
            out.push(piece);
            i = k;
        }
    }
    assert(s@.subrange(n as int, n as int) =~= Seq::<char>::empty());
    assert(views(out@) + words(Seq::<char>::empty()) =~= views(out@));
    out
}

/// `s` with every non-overlapping occurrence of `from` replaced by `to`
/// (`str::replace` with a non-empty pattern).
pub fn replace_chars(s: &Vec<char>, from: &Vec<char>, to: &Vec<char>) -> (r: Vec<char>)
    requires
        from.len() > 0,
    ensures
        r@ == replace(s@, from@, to@),
{
    let n = s.len();
    let mut out: Vec<char> = Vec::new();
    let mut i: usize = 0;
    assert(s@.subrange(0, n as int) =~= s@);
    while i < n
        invariant
            n == s.len(),
            from.len() > 0,
            i <= n,
            out@ + replace(s@.subrange(i as int, n as int), from@, to@) == replace(s@, from@, to@),
        decreases n - i,
    {
        let ghost t = s@.subrange(i as int, n as int);
        if matches_at(s, from, i) {
            proof {
                assert(s@.subrange(i as int, i + from.len()) =~= t.subrange(0, from.len() as int));
                assert(from@.is_prefix_of(t));
                assert(t.subrange(from.len() as int, t.len() as int) =~= s@.subrange(
                    i + from.len(),
                    n as int,
                ));
            }
            let ghost before = out@;
            append_chars(&mut out, to);
            i = i + from.len();
            assert(out@ + replace(s@.subrange(i as int, n as int), from@, to@) =~= before
                + replace(t, from@, to@));
        } else {
            proof {
                if from@.is_prefix_of(t) {
                    assert(s@.subrange(i as int, i + from.len()) =~= t.subrange(
                        0,
                        from.len() as int,
                    ));
                }
                assert(t.drop_first() =~= s@.subrange(i + 1, n as int));
            }
            let ghost before = out@;
            out.push(s[i]);
            i = i + 1;
            assert(out@ + replace(s@.subrange(i as int, n as int), from@, to@) =~= before
                + replace(t, from@, to@));
        }
    }
    assert(s@.subrange(n as int, n as int) =~= Seq::<char>::empty());
    assert(out@ + replace(Seq::<char>::empty(), from@, to@) =~= out@);
    out
}

/// Parses an unsigned decimal number no larger than `max`, as `str::parse`
/// does for an unsigned integer type whose largest value is `max`.
pub fn parse_unsigned_chars(s: &Vec<char>, max: u64) -> (r: Option<u64>)
    ensures
        r == (match parse_unsigned(s@, max as nat) {
            Some(v) => Some(v as u64),
            None => None::<u64>,
        }),
{
    let n = s.len();
    let start: usize = if n > 0 && s[0] == '+' {
        1
    } else {
        0
    };
    let ghost d = if s@.len() > 0 && s@[0] == '+' {
        s@.drop_first()
    } else {
        s@
    };
    assert(d =~= s@.subrange(start as int, n as int));
    if start == n {
        return None;
    }
    let mut value: u64 = 0;
    let mut i: usize = start;
    assert(d.subrange(0, 0) =~= Seq::<char>::empty());
    while i < n
        invariant
            n == s.len(),
            start < n,
            start <= i <= n,
            d == s@.subrange(start as int, n as int),
            d == (if s@.len() > 0 && s@[0] == '+' {
                s@.drop_first()
            } else {
                s@
            }),
            forall|j: int| 0 <= j < i - start ==> is_digit(#[trigger] d[j]),
            value as nat == digits_value(d.subrange(0, i - start)),
            value <= max,
        decreases n - i,
    {
        let c = s[i];
        if !('0' <= c && c <= '9') {
            assert(!is_digit(d[i - start]));
            assert(!all_digits(d));
            assert(parse_unsigned(s@, max as nat) is None);
            return None;
        }
        let digit: u64 = (c as u32 - 48) as u64;
        let next: u128 = value as u128 * 10 + digit as u128;
        proof {
            let k = i - start;
            assert(d.subrange(0, k + 1).drop_last() =~= d.subrange(0, k));
            assert(d.subrange(0, k + 1).last() == d[k]);
            assert(next as nat == digits_value(d.subrange(0, k + 1)));
        }
        if next > max as u128 {
            proof {
                lemma_digits_value_prefix(d, i - start + 1);
                assert(digits_value(d) > max);
                assert(parse_unsigned(s@, max as nat) is None);
            }
            return None;
        }
        value = next as u64;
        i = i + 1;
    }
    assert(d.subrange(0, n - start) =~= d);
    Some(value)
}

} // verus!
