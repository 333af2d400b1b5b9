//! Text as sequences of characters: what the usual string operations mean, and
//! executable versions of them.

use vstd::prelude::*;
use vstd::string::*;

verus! {

/// Appends one character to a string, as `String::push` documents.
pub assume_specification[ String::push ](s: &mut String, c: char)
    ensures
        final(s)@ == old(s)@.push(c),
;

// ---------------------------------------------------------------------------
// Characters
// ---------------------------------------------------------------------------

/// Characters with the Unicode property `White_Space`.
pub open spec fn is_space(c: char) -> bool {
    let u = c as u32;
    ||| 0x09 <= u <= 0x0d
    ||| u == 0x20
    ||| u == 0x85
    ||| u == 0xa0
    ||| u == 0x1680
    ||| 0x2000 <= u <= 0x200a
    ||| u == 0x2028
    ||| u == 0x2029
    ||| u == 0x202f
    ||| u == 0x205f
    ||| u == 0x3000
}

pub fn char_is_space(c: char) -> (r: bool)
    ensures
        r == is_space(c),
{
    let u: u32 = c as u32;
    (0x09 <= u && u <= 0x0d) || u == 0x20 || u == 0x85 || u == 0xa0 || u == 0x1680 || (0x2000 <= u
        && u <= 0x200a) || u == 0x2028 || u == 0x2029 || u == 0x202f || u == 0x205f || u == 0x3000
}

pub open spec fn is_digit(c: char) -> bool {
    '0' <= c && c <= '9'
}

pub fn char_is_digit(c: char) -> (r: bool)
    ensures
        r == is_digit(c),
{
    '0' <= c && c <= '9'
}

/// ASCII letters and digits.
pub open spec fn is_alnum(c: char) -> bool {
    is_digit(c) || ('a' <= c && c <= 'z') || ('A' <= c && c <= 'Z')
}

pub fn char_is_alnum(c: char) -> (r: bool)
    ensures
        r == is_alnum(c),
{
    char_is_digit(c) || ('a' <= c && c <= 'z') || ('A' <= c && c <= 'Z')
}

pub open spec fn upper_char(c: char) -> char {
    if 'a' <= c && c <= 'z' {
        ((c as u8) - 32) as u8 as char
    } else {
        c
    }
}

pub open spec fn lower_char(c: char) -> char {
    if 'A' <= c && c <= 'Z' {
        ((c as u8) + 32) as u8 as char
    } else {
        c
    }
}

pub fn char_to_upper(c: char) -> (r: char)
    ensures
        r == upper_char(c),
{
    if 'a' <= c && c <= 'z' {
        let u: u8 = c as u8;
        (u - 32) as char
    } else {
        c
    }
}

pub fn char_to_lower(c: char) -> (r: char)
    ensures
        r == lower_char(c),
{
    if 'A' <= c && c <= 'Z' {
        let u: u8 = c as u8;
        (u + 32) as char
    } else {
        c
    }
}

// ---------------------------------------------------------------------------
// Conversions
// ---------------------------------------------------------------------------

/// The characters of a string.
pub fn chars_of(s: &str) -> (v: Vec<char>)
    ensures
        v@ == s@,
{
    let mut v: Vec<char> = Vec::new();
    for c in it: s.chars()
        invariant
            it.seq() == s@,
            v@ == s@.take(it.index()),
    {
        v.push(c);
    }
    assert(s@.take(s@.len() as int) == s@);
    v
}

/// The texts of a list of strings.
pub open spec fn texts(v: Seq<String>) -> Seq<Seq<char>> {
    v.map_values(|s: String| s@)
}

// ---------------------------------------------------------------------------
// Comparing
// ---------------------------------------------------------------------------

pub fn same(a: &str, b: &str) -> (r: bool)
    ensures
        r == (a@ == b@),
{
    let x = chars_of(a);
    let y = chars_of(b);
    if x.len() != y.len() {
        return false;
    }
    let mut i: usize = 0;
    while i < x.len()
        invariant
            i <= x@.len(),
            x@.len() == y@.len(),
            forall|j: int| 0 <= j < i ==> x@[j] == y@[j],
        decreases x@.len() - i,
    {
        if x[i] != y[i] {
            return false;
        }
        i = i + 1;
    }
    assert(x@ == y@);
    true
}

/// Whether `pat` stands in `s` at position `i`.
pub open spec fn matches_at(s: Seq<char>, pat: Seq<char>, i: int) -> bool {
    0 <= i && i + pat.len() <= s.len() && s.subrange(i, i + pat.len()) == pat
}

pub fn chars_match_at(s: &[char], pat: &[char], i: usize) -> (r: bool)
    requires
        i <= s@.len(),
    ensures
        r == matches_at(s@, pat@, i as int),
{
    if pat.len() > s.len() - i {
        return false;
    }
    let mut j: usize = 0;
    while j < pat.len()
        invariant
            i <= s@.len(),
            pat@.len() <= s@.len() - i,
            j <= pat@.len(),
            forall|k: int| 0 <= k < j ==> s@[i + k] == pat@[k],
        decreases pat@.len() - j,
    {
        if s[i + j] != pat[j] {
            assert(s@.subrange(i as int, i + pat@.len())[j as int] != pat@[j as int]);
            return false;
        }
        j = j + 1;
    }
    assert(s@.subrange(i as int, i + pat@.len()) == pat@);
    true
}

pub open spec fn starts(s: Seq<char>, pat: Seq<char>) -> bool {
    matches_at(s, pat, 0)
}

pub open spec fn ends(s: Seq<char>, pat: Seq<char>) -> bool {
    matches_at(s, pat, s.len() - pat.len())
}

pub fn starts_with(s: &str, pat: &str) -> (r: bool)
    ensures
        r == starts(s@, pat@),
{
    chars_match_at(&chars_of(s), &chars_of(pat), 0)
}

pub fn ends_with(s: &str, pat: &str) -> (r: bool)
    ensures
        r == ends(s@, pat@),
{
    let v = chars_of(s);
    let p = chars_of(pat);
    if p.len() > v.len() {
        return false;
    }
    chars_match_at(&v, &p, v.len() - p.len())
}

// ---------------------------------------------------------------------------
// Searching
// ---------------------------------------------------------------------------

/// The first position from `i` on at which `pat` stands in `s`.
pub open spec fn find_from(s: Seq<char>, pat: Seq<char>, i: int) -> Option<int>
    decreases s.len() + 1 - i,
{
    if i < 0 || i + pat.len() > s.len() {
        None
    } else if matches_at(s, pat, i) {
        Some(i)
    } else {
        find_from(s, pat, i + 1)
    }
}

/// The first position at which `pat` stands in `s`.
pub open spec fn find(s: Seq<char>, pat: Seq<char>) -> Option<int> {
    find_from(s, pat, 0)
}

/// The last position up to `i` at which `pat` stands in `s`.
pub open spec fn rfind_from(s: Seq<char>, pat: Seq<char>, i: int) -> Option<int>
    decreases i + 1,
{
    if i < 0 {
        None
    } else if matches_at(s, pat, i) {
        Some(i)
    } else {
        rfind_from(s, pat, i - 1)
    }
}

/// The last position at which `pat` stands in `s`.
pub open spec fn rfind(s: Seq<char>, pat: Seq<char>) -> Option<int> {
    rfind_from(s, pat, s.len() - pat.len())
}

pub open spec fn holds(s: Seq<char>, pat: Seq<char>) -> bool {
    find(s, pat) is Some
}

/// The position that `find_from` reports is a match, and none comes before it.
pub proof fn lemma_find_from(s: Seq<char>, pat: Seq<char>, i: int)
    requires
        0 <= i,
    ensures
        find_from(s, pat, i) matches Some(k) ==> i <= k && k + pat.len() <= s.len() && matches_at(
            s,
            pat,
            k,
        ) && (forall|j: int| i <= j < k ==> !matches_at(s, pat, j)),
        find_from(s, pat, i) is None ==> (forall|j: int| i <= j ==> !matches_at(s, pat, j)),
    decreases s.len() + 1 - i,
{
    if i + pat.len() <= s.len() && !matches_at(s, pat, i) {
        lemma_find_from(s, pat, i + 1);
    }
}

/// The position that `rfind_from` reports is a match, and none comes after it up to `i`.
pub proof fn lemma_rfind_from(s: Seq<char>, pat: Seq<char>, i: int)
    ensures
        rfind_from(s, pat, i) matches Some(k) ==> 0 <= k <= i && k + pat.len() <= s.len()
            && matches_at(s, pat, k) && (forall|j: int| k < j <= i ==> !matches_at(s, pat, j)),
        rfind_from(s, pat, i) is None ==> (forall|j: int| j <= i ==> !matches_at(s, pat, j)),
    decreases i + 1,
{
    if i >= 0 && !matches_at(s, pat, i) {
        lemma_rfind_from(s, pat, i - 1);
    }
}

/// A text contains a pattern exactly where the pattern stands at some position.
pub proof fn lemma_holds(s: Seq<char>, pat: Seq<char>)
    ensures
        holds(s, pat) <==> exists|i: int| matches_at(s, pat, i),
{
    lemma_find_from(s, pat, 0);
}

/// An optional position as a mathematical one.
pub open spec fn at(r: Option<usize>) -> Option<int> {
    match r {
        Some(k) => Some(k as int),
        None => None,
    }
}

/// The first match of `pat` from position `from` on.
pub fn index_from(s: &str, pat: &str, from: usize) -> (r: Option<usize>)
    ensures
        at(r) == find_from(s@, pat@, from as int),
        r matches Some(k) ==> from <= k && k + pat@.len() <= s@.len() && matches_at(
            s@,
            pat@,
            k as int,
        ),
{
    let v = chars_of(s);
    let p = chars_of(pat);
    let mut i: usize = from;
    while i <= v.len() && p.len() <= v.len() - i
        invariant
            from <= i <= v@.len() + 1 || i == from,
            find_from(v@, p@, from as int) == find_from(v@, p@, i as int),
        decreases v@.len() + 1 - i,
    {
        if chars_match_at(&v, &p, i) {
            return Some(i);
        }
        if i == v.len() {
            assert(find_from(v@, p@, i + 1) is None);
            return None;
        }
        i = i + 1;
    }
    None
}

pub fn index_of(s: &str, pat: &str) -> (r: Option<usize>)
    ensures
        at(r) == find(s@, pat@),
        r matches Some(k) ==> k + pat@.len() <= s@.len() && matches_at(s@, pat@, k as int),
{
    index_from(s, pat, 0)
}

pub fn last_index_of(s: &str, pat: &str) -> (r: Option<usize>)
    ensures
        at(r) == rfind(s@, pat@),
        r matches Some(k) ==> k + pat@.len() <= s@.len() && matches_at(s@, pat@, k as int),
{
    let v = chars_of(s);
    let p = chars_of(pat);
    if p.len() > v.len() {
        return None;
    }
    let mut i: usize = v.len() - p.len();
    loop
        invariant
            i <= v@.len() - p@.len(),
            rfind(v@, p@) == rfind_from(v@, p@, i as int),
        decreases i,
    {
        if chars_match_at(&v, &p, i) {
            return Some(i);
        }
        if i == 0 {
            assert(rfind_from(v@, p@, -1) is None);
            return None;
        }
        i = i - 1;
    }
}

pub fn contains(s: &str, pat: &str) -> (r: bool)
    ensures
        r == holds(s@, pat@),
{
    index_of(s, pat).is_some()
}

/// The first position from `i` on whose character is (`want`) or is not (`!want`) in `set`.
pub open spec fn find_any_from(s: Seq<char>, set: Seq<char>, want: bool, i: int) -> Option<int>
    decreases s.len() - i,
{
    if i < 0 || i >= s.len() {
        None
    } else if set.contains(s[i]) == want {
        Some(i)
    } else {
        find_any_from(s, set, want, i + 1)
    }
}

pub proof fn lemma_find_any_from(s: Seq<char>, set: Seq<char>, want: bool, i: int)
    requires
        0 <= i,
    ensures
        find_any_from(s, set, want, i) matches Some(k) ==> i <= k < s.len() && set.contains(s[k])
            == want && (forall|j: int| i <= j < k ==> set.contains(s[j]) != want),
        find_any_from(s, set, want, i) is None ==> (forall|j: int|
            i <= j < s.len() ==> set.contains(s[j]) != want),
    decreases s.len() - i,
{
    if i < s.len() && set.contains(s[i]) != want {
        lemma_find_any_from(s, set, want, i + 1);
    }
}

pub fn chars_contain(set: &[char], c: char) -> (r: bool)
    ensures
        r == set@.contains(c),
{
    let mut i: usize = 0;
    while i < set.len()
        invariant
            i <= set@.len(),
            forall|j: int| 0 <= j < i ==> set@[j] != c,
        decreases set@.len() - i,
    {
        if set[i] == c {
            return true;
        }
        i = i + 1;
    }
    false
}

pub fn index_of_any(s: &str, set: &str, want: bool) -> (r: Option<usize>)
    ensures
        at(r) == find_any_from(s@, set@, want, 0),
        r matches Some(k) ==> k < s@.len() && set@.contains(s@[k as int]) == want,
{
    let v = chars_of(s);
    let p = chars_of(set);
    let mut i: usize = 0;
    while i < v.len()
        invariant
            i <= v@.len(),
            find_any_from(v@, p@, want, 0) == find_any_from(v@, p@, want, i as int),
        decreases v@.len() - i,
    {
        if chars_contain(&p, v[i]) == want {
            return Some(i);
        }
        i = i + 1;
    }
    None
}

// ---------------------------------------------------------------------------
// Parts of a text
// ---------------------------------------------------------------------------

/// The part before and the part after the first occurrence of `pat`.
pub open spec fn cut(s: Seq<char>, pat: Seq<char>) -> Option<(Seq<char>, Seq<char>)> {
    match find(s, pat) {
        Some(k) => Some((s.take(k), s.skip(k + pat.len()))),
        None => None,
    }
}

/// The part before and the part after the last occurrence of `pat`.
pub open spec fn rcut(s: Seq<char>, pat: Seq<char>) -> Option<(Seq<char>, Seq<char>)> {
    match rfind(s, pat) {
        Some(k) => Some((s.take(k), s.skip(k + pat.len()))),
        None => None,
    }
}

/// A pair of strings as texts.
pub open spec fn pair_view(r: Option<(&str, &str)>) -> Option<(Seq<char>, Seq<char>)> {
    match r {
        Some(p) => Some((p.0@, p.1@)),
        None => None,
    }
}

/// An optional string as a text.
pub open spec fn opt_view(r: Option<String>) -> Option<Seq<char>> {
    match r {
        Some(p) => Some(p@),
        None => None,
    }
}

/// An optional borrowed string as a text.
pub open spec fn opt_str(r: Option<&str>) -> Option<Seq<char>> {
    match r {
        Some(p) => Some(p@),
        None => None,
    }
}

/// The text up to position `k`.
pub fn take<'a>(s: &'a str, k: usize) -> (r: &'a str)
    requires
        k <= s@.len(),
    ensures
        r@ == s@.take(k as int),
{
    s.substring_char(0, k)
}

/// The text from position `k` on.
pub fn skip<'a>(s: &'a str, k: usize) -> (r: &'a str)
    requires
        k <= s@.len(),
    ensures
        r@ == s@.skip(k as int),
{
    s.substring_char(k, s.unicode_len())
}

pub fn split_once<'a>(s: &'a str, pat: &str) -> (r: Option<(&'a str, &'a str)>)
    ensures
        pair_view(r) == cut(s@, pat@),
{
    let n: usize = s.unicode_len();
    match index_of(s, pat) {
        Some(k) => Some((take(s, k), skip(s, k + pat.unicode_len()))),
        None => None,
    }
}

pub fn rsplit_once<'a>(s: &'a str, pat: &str) -> (r: Option<(&'a str, &'a str)>)
    ensures
        pair_view(r) == rcut(s@, pat@),
{
    let n: usize = s.unicode_len();
    match last_index_of(s, pat) {
        Some(k) => Some((take(s, k), skip(s, k + pat.unicode_len()))),
        None => None,
    }
}

/// The text without the given beginning, if it has it.
pub open spec fn after_prefix(s: Seq<char>, pat: Seq<char>) -> Option<Seq<char>> {
    if starts(s, pat) {
        Some(s.skip(pat.len() as int))
    } else {
        None
    }
}

/// The text without the given end, if it has it.
pub open spec fn before_suffix(s: Seq<char>, pat: Seq<char>) -> Option<Seq<char>> {
    if ends(s, pat) {
        Some(s.take(s.len() - pat.len()))
    } else {
        None
    }
}

pub fn strip_prefix<'a>(s: &'a str, pat: &str) -> (r: Option<&'a str>)
    ensures
        opt_str(r) == after_prefix(s@, pat@),
{
    if starts_with(s, pat) {
        Some(skip(s, pat.unicode_len()))
    } else {
        None
    }
}

pub fn strip_suffix<'a>(s: &'a str, pat: &str) -> (r: Option<&'a str>)
    ensures
        opt_str(r) == before_suffix(s@, pat@),
{
    if ends_with(s, pat) {
        Some(take(s, s.unicode_len() - pat.unicode_len()))
    } else {
        None
    }
}

// ---------------------------------------------------------------------------
// Trimming
// ---------------------------------------------------------------------------

/// The text without leading white space.
pub open spec fn trimmed_start(s: Seq<char>) -> Seq<char>
    decreases s.len(),
{
    if s.len() > 0 && is_space(s[0]) {
        trimmed_start(s.skip(1))
    } else {
        s
    }
}

/// The text without trailing white space.
pub open spec fn trimmed_end(s: Seq<char>) -> Seq<char>
    decreases s.len(),
{
    if s.len() > 0 && is_space(s.last()) {
        trimmed_end(s.drop_last())
    } else {
        s
    }
}

/// The text without white space at either end.
pub open spec fn trimmed(s: Seq<char>) -> Seq<char> {
    trimmed_end(trimmed_start(s))
}

/// The text without leading characters of `set`.
pub open spec fn strip_set_start(s: Seq<char>, set: Seq<char>) -> Seq<char>
    decreases s.len(),
{
    if s.len() > 0 && set.contains(s[0]) {
        strip_set_start(s.skip(1), set)
    } else {
        s
    }
}

/// The text without trailing characters of `set`.
pub open spec fn strip_set_end(s: Seq<char>, set: Seq<char>) -> Seq<char>
    decreases s.len(),
{
    if s.len() > 0 && set.contains(s.last()) {
        strip_set_end(s.drop_last(), set)
    } else {
        s
    }
}

/// The text without characters of `set` at either end.
pub open spec fn strip_set(s: Seq<char>, set: Seq<char>) -> Seq<char> {
    strip_set_end(strip_set_start(s, set), set)
}

/// The text without any repetition of `pat` at its beginning.
pub open spec fn strip_all_start(s: Seq<char>, pat: Seq<char>) -> Seq<char>
    decreases s.len(),
{
    if pat.len() > 0 && starts(s, pat) {
        strip_all_start(s.skip(pat.len() as int), pat)
    } else {
        s
    }
}

/// The text without any repetition of `pat` at its end.
pub open spec fn strip_all_end(s: Seq<char>, pat: Seq<char>) -> Seq<char>
    decreases s.len(),
{
    if pat.len() > 0 && ends(s, pat) {
        strip_all_end(s.take(s.len() - pat.len()), pat)
    } else {
        s
    }
}

pub fn trim_start<'a>(s: &'a str) -> (r: &'a str)
    ensures
        r@ == trimmed_start(s@),
        r@.len() <= s@.len(),
        r@ == s@.skip(s@.len() - r@.len()),
{
    let v = chars_of(s);
    let mut i: usize = 0;
    assert(v@.skip(0) == v@);
    while i < v.len() && char_is_space(v[i])
        invariant
            i <= v@.len(),
            trimmed_start(v@) == trimmed_start(v@.skip(i as int)),
        decreases v@.len() - i,
    {
        assert(v@.skip(i as int).skip(1) == v@.skip(i + 1));
        i = i + 1;
    }
    skip(s, i)
}

pub fn trim_end<'a>(s: &'a str) -> (r: &'a str)
    ensures
        r@ == trimmed_end(s@),
        r@.len() <= s@.len(),
        r@ == s@.take(r@.len() as int),
{
    let v = chars_of(s);
    let mut i: usize = v.len();
    assert(v@.take(v@.len() as int) == v@);
    while i > 0 && char_is_space(v[i - 1])
        invariant
            i <= v@.len(),
            trimmed_end(v@) == trimmed_end(v@.take(i as int)),
        decreases i,
    {
        assert(v@.take(i as int).drop_last() == v@.take(i - 1));
        i = i - 1;
    }
    take(s, i)
}

pub fn trim<'a>(s: &'a str) -> (r: &'a str)
    ensures
        r@ == trimmed(s@),
        r@.len() <= s@.len(),
{
    trim_end(trim_start(s))
}

pub fn trim_start_chars<'a>(s: &'a str, set: &str) -> (r: &'a str)
    ensures
        r@ == strip_set_start(s@, set@),
{
    let v = chars_of(s);
    let p = chars_of(set);
    let mut i: usize = 0;
    assert(v@.skip(0) == v@);
    while i < v.len() && chars_contain(&p, v[i])
        invariant
            i <= v@.len(),
            strip_set_start(v@, p@) == strip_set_start(v@.skip(i as int), p@),
        decreases v@.len() - i,
    {
        assert(v@.skip(i as int).skip(1) == v@.skip(i + 1));
        i = i + 1;
    }
    skip(s, i)
}

pub fn trim_end_chars<'a>(s: &'a str, set: &str) -> (r: &'a str)
    ensures
        r@ == strip_set_end(s@, set@),
{
    let v = chars_of(s);
    let p = chars_of(set);
    let mut i: usize = v.len();
    assert(v@.take(v@.len() as int) == v@);
    while i > 0 && chars_contain(&p, v[i - 1])
        invariant
            i <= v@.len(),
            strip_set_end(v@, p@) == strip_set_end(v@.take(i as int), p@),
        decreases i,
    {
        assert(v@.take(i as int).drop_last() == v@.take(i - 1));
        i = i - 1;
    }
    take(s, i)
}

pub fn trim_chars<'a>(s: &'a str, set: &str) -> (r: &'a str)
    ensures
        r@ == strip_set(s@, set@),
{
    trim_end_chars(trim_start_chars(s, set), set)
}

pub fn trim_start_text<'a>(s: &'a str, pat: &str) -> (r: &'a str)
    requires
        pat@.len() > 0,
    ensures
        r@ == strip_all_start(s@, pat@),
{
    let mut r = s;
    while starts_with(r, pat)
        invariant
            strip_all_start(s@, pat@) == strip_all_start(r@, pat@),
        decreases r@.len(),
    {
        r = skip(r, pat.unicode_len());
    }
    r
}

pub fn trim_end_text<'a>(s: &'a str, pat: &str) -> (r: &'a str)
    requires
        pat@.len() > 0,
    ensures
        r@ == strip_all_end(s@, pat@),
{
    let mut r = s;
    while ends_with(r, pat)
        invariant
            strip_all_end(s@, pat@) == strip_all_end(r@, pat@),
        decreases r@.len(),
    {
        r = take(r, r.unicode_len() - pat.unicode_len());
    }
    r
}

// ---------------------------------------------------------------------------
// Case
// ---------------------------------------------------------------------------

/// The text with ASCII letters in upper case.
pub open spec fn upper(s: Seq<char>) -> Seq<char> {
    s.map_values(|c: char| upper_char(c))
}

/// The text with ASCII letters in lower case.
pub open spec fn lower(s: Seq<char>) -> Seq<char> {
    s.map_values(|c: char| lower_char(c))
}

pub fn to_upper(s: &str) -> (r: String)
    ensures
        r@ == upper(s@),
{
    let v = chars_of(s);
    let mut r = String::new();
    let mut i: usize = 0;
    while i < v.len()
        invariant
            i <= v@.len(),
            r@ == upper(v@.take(i as int)),
        decreases v@.len() - i,
    {
        r.push(char_to_upper(v[i]));
        i = i + 1;
    }
    assert(v@.take(v@.len() as int) == v@);
    r
}

pub fn to_lower(s: &str) -> (r: String)
    ensures
        r@ == lower(s@),
{
    let v = chars_of(s);
    let mut r = String::new();
    let mut i: usize = 0;
    while i < v.len()
        invariant
            i <= v@.len(),
            r@ == lower(v@.take(i as int)),
        decreases v@.len() - i,
    {
        r.push(char_to_lower(v[i]));
        i = i + 1;
    }
    assert(v@.take(v@.len() as int) == v@);
    r
}

pub fn same_ignoring_case(a: &str, b: &str) -> (r: bool)
    ensures
        r == (lower(a@) == lower(b@)),
{
    same(&to_lower(a), &to_lower(b))
}

/// A text in lower case by the rules of Unicode.
pub uninterp spec fn unicode_lower(s: Seq<char>) -> Seq<char>;

/// `str::to_lowercase`: the text in lower case by the rules of Unicode, a function of the
/// text alone. Which character becomes which is left unsaid.
pub assume_specification[ str::to_lowercase ](s: &str) -> (r: String)
    ensures
        r@ == unicode_lower(s@),
;

/// Copies an optional string.
pub fn copy_opt(o: &Option<String>) -> (r: Option<String>)
    ensures
        opt_view(r) == opt_view(*o),
{
    match o {
        Some(s) => Some(s.clone()),
        None => None,
    }
}

/// Whether two optional strings hold the same text, or both none.
pub fn same_opt(a: &Option<String>, b: &Option<String>) -> (r: bool)
    ensures
        r == (opt_view(*a) == opt_view(*b)),
{
    match a {
        Some(x) => match b {
            Some(y) => same(x.as_str(), y.as_str()),
            None => false,
        },
        None => b.is_none(),
    }
}

// ---------------------------------------------------------------------------
// Rewriting
// ---------------------------------------------------------------------------

/// What the text from position `i` on becomes when every occurrence of `from` that is met
/// from left to right gives way to `to`.
pub open spec fn replaced_from(s: Seq<char>, from: Seq<char>, to: Seq<char>, i: int) -> Seq<char>
    decreases s.len() - i,
{
    if i < 0 || i >= s.len() || from.len() == 0 {
        Seq::empty()
    } else if matches_at(s, from, i) {
        to + replaced_from(s, from, to, i + from.len())
    } else {
        seq![s[i]] + replaced_from(s, from, to, i + 1)
    }
}

/// The text with every occurrence of the non-empty `from`, left to right, replaced by `to`.
pub open spec fn replaced(s: Seq<char>, from: Seq<char>, to: Seq<char>) -> Seq<char> {
    replaced_from(s, from, to, 0)
}

pub fn replace(s: &str, from: &str, to: &str) -> (r: String)
    requires
        from@.len() > 0,
    ensures
        r@ == replaced(s@, from@, to@),
{
    let v = chars_of(s);
    let p = chars_of(from);
    let mut r = String::new();
    let mut i: usize = 0;
    while i < v.len()
        invariant
            i <= v@.len(),
            r@ + replaced_from(v@, p@, to@, i as int) == replaced(v@, p@, to@),
        decreases v@.len() - i,
    {
        let ghost before = r@;
        if chars_match_at(&v, &p, i) {
            r.append(to);
            i = i + p.len();
            assert(before + (to@ + replaced_from(v@, p@, to@, i as int)) == r@ + replaced_from(
                v@,
                p@,
                to@,
                i as int,
            ));
        } else {
            r.push(v[i]);
            i = i + 1;
            assert(before + (seq![v@[i - 1]] + replaced_from(v@, p@, to@, i as int)) == r@
                + replaced_from(v@, p@, to@, i as int));
        }
    }
    assert(r@ + Seq::<char>::empty() == r@);
    r
}

/// The text with the first occurrence of `from` replaced by `to`.
pub open spec fn replaced_once(s: Seq<char>, from: Seq<char>, to: Seq<char>) -> Seq<char> {
    match cut(s, from) {
        Some(p) => p.0 + to + p.1,
        None => s,
    }
}

pub fn replace_once(s: &str, from: &str, to: &str) -> (r: String)
    ensures
        r@ == replaced_once(s@, from@, to@),
{
    match split_once(s, from) {
        Some(p) => concat3(p.0, to, p.1),
        None => s.to_owned(),
    }
}

/// A text in which `from` does not occur is left as it is.
pub proof fn lemma_replaced_absent(s: Seq<char>, from: Seq<char>, to: Seq<char>, i: int)
    requires
        from.len() > 0,
        0 <= i <= s.len(),
        forall|j: int| i <= j ==> !matches_at(s, from, j),
    ensures
        replaced_from(s, from, to, i) == s.skip(i),
    decreases s.len() - i,
{
    if i < s.len() {
        lemma_replaced_absent(s, from, to, i + 1);
        assert(seq![s[i]] + s.skip(i + 1) == s.skip(i));
    } else {
        assert(s.skip(i) == Seq::<char>::empty());
    }
}

// ---------------------------------------------------------------------------
// Putting together
// ---------------------------------------------------------------------------

pub fn concat2(a: &str, b: &str) -> (r: String)
    ensures
        r@ == a@ + b@,
{
    let mut r = a.to_owned();
    r.append(b);
    r
}

pub fn concat3(a: &str, b: &str, c: &str) -> (r: String)
    ensures
        r@ == a@ + b@ + c@,
{
    let mut r = concat2(a, b);
    r.append(c);
    r
}

pub fn concat4(a: &str, b: &str, c: &str, d: &str) -> (r: String)
    ensures
        r@ == a@ + b@ + c@ + d@,
{
    let mut r = concat3(a, b, c);
    r.append(d);
    r
}

pub fn concat5(a: &str, b: &str, c: &str, d: &str, e: &str) -> (r: String)
    ensures
        r@ == a@ + b@ + c@ + d@ + e@,
{
    let mut r = concat4(a, b, c, d);
    r.append(e);
    r
}

pub fn concat6(a: &str, b: &str, c: &str, d: &str, e: &str, f: &str) -> (r: String)
    ensures
        r@ == a@ + b@ + c@ + d@ + e@ + f@,
{
    let mut r = concat5(a, b, c, d, e);
    r.append(f);
    r
}

/// The parts from `i` on, each but the first of them after the separator.
pub open spec fn joined_from(parts: Seq<Seq<char>>, sep: Seq<char>, i: int) -> Seq<char>
    decreases parts.len() - i,
{
    if i < 0 || i >= parts.len() {
        Seq::empty()
    } else {
        (if i == 0 {
            Seq::empty()
        } else {
            sep
        }) + parts[i] + joined_from(parts, sep, i + 1)
    }
}

/// The parts with the separator between them.
pub open spec fn joined(parts: Seq<Seq<char>>, sep: Seq<char>) -> Seq<char> {
    joined_from(parts, sep, 0)
}

pub fn join(parts: &Vec<String>, sep: &str) -> (r: String)
    ensures
        r@ == joined(texts(parts@), sep@),
{
    let mut r = String::new();
    let mut i: usize = 0;
    let ghost ps = texts(parts@);
    while i < parts.len()
        invariant
            i <= parts@.len(),
            ps == texts(parts@),
            r@ + joined_from(ps, sep@, i as int) == joined(ps, sep@),
        decreases parts@.len() - i,
    {
        let ghost before = r@;
        if i > 0 {
            r.append(sep);
        }
        r.append(parts[i].as_str());
        i = i + 1;
        assert(before + joined_from(ps, sep@, i - 1) == r@ + joined_from(ps, sep@, i as int));
    }
    assert(r@ + Seq::<char>::empty() == r@);
    r
}

// ---------------------------------------------------------------------------
// Lines, words and fields
// ---------------------------------------------------------------------------

/// The lines from `start` on, each with its line feed, where `i` is the next position to
/// look at.
pub open spec fn chunks_from(s: Seq<char>, start: int, i: int) -> Seq<Seq<char>>
    decreases s.len() - i,
{
    if i < 0 || i >= s.len() {
        if start < s.len() {
            seq![s.skip(start)]
        } else {
            Seq::empty()
        }
    } else if s[i] == '\n' {
        seq![s.subrange(start, i + 1)] + chunks_from(s, i + 1, i + 1)
    } else {
        chunks_from(s, start, i + 1)
    }
}

/// The lines of a text, each with the line feed that ends it.
pub open spec fn chunks(s: Seq<char>) -> Seq<Seq<char>> {
    chunks_from(s, 0, 0)
}

/// A line without the line feed, or carriage return and line feed, that ends it.
pub open spec fn line_body(s: Seq<char>) -> Seq<char> {
    if s.len() > 0 && s.last() == '\n' {
        let t = s.drop_last();
        if t.len() > 0 && t.last() == '\r' {
            t.drop_last()
        } else {
            t
        }
    } else {
        s
    }
}

/// The lines of a text without their ends.
pub open spec fn lines(s: Seq<char>) -> Seq<Seq<char>> {
    chunks(s).map_values(|l: Seq<char>| line_body(l))
}

pub fn split_inclusive(s: &str) -> (r: Vec<String>)
    ensures
        texts(r@) == chunks(s@),
{
    let v = chars_of(s);
    let mut r: Vec<String> = Vec::new();
    let mut start: usize = 0;
    let mut i: usize = 0;
    while i < v.len()
        invariant
            start <= i <= v@.len(),
            texts(r@) + chunks_from(v@, start as int, i as int) == chunks(v@),
        decreases v@.len() - i,
    {
        if v[i] == '\n' {
            let ghost before = texts(r@);
            let ghost rest = chunks_from(v@, i + 1, i + 1);
            let line = s.substring_char(start, i + 1).to_owned();
            r.push(line);
            assert(texts(r@) == before.push(line@));
            assert(before.push(line@) + rest == before + (seq![line@] + rest));
            start = i + 1;
        }
        i = i + 1;
    }
    if start < v.len() {
        let ghost before = texts(r@);
        let line = skip(s, start).to_owned();
        r.push(line);
        assert(texts(r@) == before.push(line@));
        assert(before.push(line@) == before + seq![line@]);
    } else {
        assert(texts(r@) + Seq::<Seq<char>>::empty() == texts(r@));
    }
    r
}

/// A line without what ends it.
pub(crate) fn line_content(s: &str) -> (r: &str)
    ensures
        r@ == line_body(s@),
{
    let v = chars_of(s);
    let n: usize = v.len();
    if n > 0 && v[n - 1] == '\n' {
        if n > 1 && v[n - 2] == '\r' {
            assert(s@.take(n - 2) == s@.drop_last().drop_last());
            take(s, n - 2)
        } else {
            assert(s@.take(n - 1) == s@.drop_last());
            take(s, n - 1)
        }
    } else {
        s
    }
}

pub fn lines_of(s: &str) -> (r: Vec<String>)
    ensures
        texts(r@) == lines(s@),
{
    let parts = split_inclusive(s);
    let ghost ps = chunks(s@);
    let mut r: Vec<String> = Vec::new();
    let mut i: usize = 0;
    while i < parts.len()
        invariant
            i <= parts@.len(),
            parts@.len() == ps.len(),
            texts(parts@) == ps,
            texts(r@) == lines(s@).take(i as int),
        decreases parts@.len() - i,
    {
        assert(parts@[i as int]@ == texts(parts@)[i as int]);
        let line = line_content(parts[i].as_str()).to_owned();
        let ghost before = texts(r@);
        r.push(line);
        assert(texts(r@) == before.push(line@));
        i = i + 1;
    }
    assert(lines(s@).take(lines(s@).len() as int) == lines(s@));
    r
}

/// The words from `start` on, where `i` is the next position to look at.
pub open spec fn words_from(s: Seq<char>, start: int, i: int) -> Seq<Seq<char>>
    decreases s.len() - i,
{
    if i < 0 || i >= s.len() {
        if start < s.len() {
            seq![s.skip(start)]
        } else {
            Seq::empty()
        }
    } else if is_space(s[i]) {
        (if start < i {
            seq![s.subrange(start, i)]
        } else {
            Seq::empty()
        }) + words_from(s, i + 1, i + 1)
    } else {
        words_from(s, start, i + 1)
    }
}

/// The non-empty runs of characters between white space.
pub open spec fn words(s: Seq<char>) -> Seq<Seq<char>> {
    words_from(s, 0, 0)
}

pub fn split_whitespace(s: &str) -> (r: Vec<String>)
    ensures
        texts(r@) == words(s@),
{
    let v = chars_of(s);
    let mut r: Vec<String> = Vec::new();
    let mut start: usize = 0;
    let mut i: usize = 0;
    while i < v.len()
        invariant
            start <= i <= v@.len(),
            texts(r@) + words_from(v@, start as int, i as int) == words(v@),
        decreases v@.len() - i,
    {
        if char_is_space(v[i]) {
            let ghost before = texts(r@);
            let ghost rest = words_from(v@, i + 1, i + 1);
            if start < i {
                let word = s.substring_char(start, i).to_owned();
                r.push(word);
                assert(texts(r@) == before.push(word@));
                assert(before.push(word@) + rest == before + (seq![word@] + rest));
            } else {
                assert(Seq::<Seq<char>>::empty() + rest == rest);
            }
            start = i + 1;
        }
        i = i + 1;
    }
    if start < v.len() {
        let ghost before = texts(r@);
        let word = skip(s, start).to_owned();
        r.push(word);
        assert(texts(r@) == before.push(word@));
        assert(before.push(word@) == before + seq![word@]);
    } else {
        assert(texts(r@) + Seq::<Seq<char>>::empty() == texts(r@));
    }
    r
}

/// The fields from `start` on, where `i` is the next position to look at.
pub open spec fn fields_from(s: Seq<char>, sep: char, start: int, i: int) -> Seq<Seq<char>>
    decreases s.len() - i,
{
    if i < 0 || i >= s.len() {
        seq![s.skip(start)]
    } else if s[i] == sep {
        seq![s.subrange(start, i)] + fields_from(s, sep, i + 1, i + 1)
    } else {
        fields_from(s, sep, start, i + 1)
    }
}

/// The parts of a text between occurrences of `sep`; at least one, and they may be empty.
pub open spec fn fields(s: Seq<char>, sep: char) -> Seq<Seq<char>> {
    fields_from(s, sep, 0, 0)
}

pub fn split(s: &str, sep: char) -> (r: Vec<String>)
    ensures
        texts(r@) == fields(s@, sep),
        r@.len() > 0,
{
    let v = chars_of(s);
    let mut r: Vec<String> = Vec::new();
    let mut start: usize = 0;
    let mut i: usize = 0;
    while i < v.len()
        invariant
            start <= i <= v@.len(),
            texts(r@) + fields_from(v@, sep, start as int, i as int) == fields(v@, sep),
        decreases v@.len() - i,
    {
        if v[i] == sep {
            let ghost before = texts(r@);
            let ghost rest = fields_from(v@, sep, i + 1, i + 1);
            let word = s.substring_char(start, i).to_owned();
            r.push(word);
            assert(texts(r@) == before.push(word@));
            assert(before.push(word@) + rest == before + (seq![word@] + rest));
            start = i + 1;
        }
        i = i + 1;
    }
    let ghost before = texts(r@);
    let word = skip(s, start).to_owned();
    r.push(word);
    assert(texts(r@) == before.push(word@));
    assert(before.push(word@) == before + seq![word@]);
    r
}

// ---------------------------------------------------------------------------
// Numbers
// ---------------------------------------------------------------------------

pub open spec fn digit_char(d: int) -> char {
    ((48 + d) as u8) as char
}

pub open spec fn digit_value(c: char) -> int {
    (c as u32) - 48
}

/// A number in decimal notation.
pub open spec fn decimal(n: nat) -> Seq<char>
    decreases n,
{
    if n < 10 {
        seq![digit_char(n as int)]
    } else {
        decimal(n / 10).push(digit_char((n % 10) as int))
    }
}

pub fn decimal_of(n: u64) -> (r: String)
    ensures
        r@ == decimal(n as nat),
    decreases n,
{
    if n < 10 {
        let mut r = String::new();
        r.push((48 + n as u8) as char);
        assert(r@ == decimal(n as nat));
        r
    } else {
        let mut r = decimal_of(n / 10);
        let d: u8 = (n % 10) as u8;
        r.push((48 + d) as char);
        r
    }
}

pub open spec fn all_digits(s: Seq<char>) -> bool {
    forall|i: int| 0 <= i < s.len() ==> is_digit(#[trigger] s[i])
}

pub fn only_digits(s: &str) -> (r: bool)
    ensures
        r == all_digits(s@),
{
    let v = chars_of(s);
    let mut i: usize = 0;
    while i < v.len()
        invariant
            i <= v@.len(),
            forall|j: int| 0 <= j < i ==> is_digit(#[trigger] v@[j]),
        decreases v@.len() - i,
    {
        if !char_is_digit(v[i]) {
            return false;
        }
        i = i + 1;
    }
    true
}

/// The number that a row of digits stands for.
pub open spec fn digits_value(s: Seq<char>) -> int
    decreases s.len(),
{
    if s.len() == 0 {
        0
    } else {
        digits_value(s.drop_last()) * 10 + digit_value(s.last())
    }
}

/// The digits of a number: the text without one leading plus sign.
pub open spec fn number_digits(s: Seq<char>) -> Seq<char> {
    if s.len() > 0 && s[0] == '+' {
        s.skip(1)
    } else {
        s
    }
}

/// The unsigned number no greater than `max` that a text is the decimal notation of.
pub open spec fn parsed(s: Seq<char>, max: int) -> Option<int> {
    let d = number_digits(s);
    if d.len() > 0 && all_digits(d) && digits_value(d) <= max {
        Some(digits_value(d))
    } else {
        None
    }
}

/// A row of digits is worth at least what its beginning is worth.
pub proof fn lemma_digits_value_monotonic(s: Seq<char>, i: int)
    requires
        0 <= i <= s.len(),
        all_digits(s),
    ensures
        0 <= digits_value(s.take(i)) <= digits_value(s),
    decreases s.len(),
{
    if s.len() == 0 {
        assert(s.take(i) == s);
    } else if i == s.len() {
        assert(s.take(i) == s);
        lemma_digits_value_monotonic(s.drop_last(), i - 1);
        assert(is_digit(s.last()));
        assert(s.drop_last().take(i - 1) == s.drop_last());
    } else {
        lemma_digits_value_monotonic(s.drop_last(), i);
        assert(s.drop_last().take(i) == s.take(i));
        assert(is_digit(s.last()));
    }
}

pub proof fn lemma_decimal_value(n: nat)
    ensures
        decimal(n).len() > 0,
        all_digits(decimal(n)),
        digits_value(decimal(n)) == n,
    decreases n,
{
    reveal_with_fuel(digits_value, 2);
    if n < 10 {
        let d = decimal(n);
        assert(d.drop_last() == Seq::<char>::empty());
        assert(digits_value(d.drop_last()) == 0);
        assert(d.last() == digit_char(n as int));
    } else {
        lemma_decimal_value(n / 10);
        let d = decimal(n);
        assert(d.drop_last() == decimal(n / 10));
        assert(d.last() == digit_char((n % 10) as int));
    }
}

/// Reading a number back from its decimal notation gives the number.
pub proof fn law_decimal_parses_back(n: nat, max: int)
    requires
        n <= max,
    ensures
        parsed(decimal(n), max) == Some(n as int),
{
    lemma_decimal_value(n);
    assert(is_digit(decimal(n)[0]));
    assert(number_digits(decimal(n)) == decimal(n));
}

/// An optional machine integer as a mathematical one.
pub open spec fn num(r: Option<u64>) -> Option<int> {
    match r {
        Some(n) => Some(n as int),
        None => None,
    }
}

/// An optional port as a mathematical integer.
pub open spec fn port_num(r: Option<u16>) -> Option<int> {
    match r {
        Some(n) => Some(n as int),
        None => None,
    }
}

/// Reads an unsigned number of at most `max`.
pub fn parse_up_to(s: &str, max: u64) -> (r: Option<u64>)
    ensures
        num(r) == parsed(s@, max as int),
{
    let v = chars_of(s);
    let start: usize = if v.len() > 0 && v[0] == '+' {
        1
    } else {
        0
    };
    let ghost d = number_digits(v@);
    assert(d == v@.skip(start as int));
    if v.len() == start {
        return None;
    }
    let mut value: u64 = 0;
    let mut i: usize = start;
    assert(d.take(0) == Seq::<char>::empty());
    while i < v.len()
        invariant
            start <= i <= v@.len(),
            d == v@.skip(start as int),
            d == number_digits(v@),
            all_digits(d.take(i - start)),
            value == digits_value(d.take(i - start)),
            value <= max,
        decreases v@.len() - i,
    {
        assert(v@[i as int] == d[i - start]);
        if !char_is_digit(v[i]) {
            return None;
        }
        let digit: u64 = (v[i] as u32 - 48) as u64;
        proof {
            let t = d.take(i - start + 1);
            assert(t.drop_last() == d.take(i - start));
            assert(t.last() == v@[i as int]);
            assert(digits_value(t) == value * 10 + digit);
            assert forall|j: int| 0 <= j < t.len() implies is_digit(#[trigger] t[j]) by {
                if j < i - start {
                    assert(t[j] == d.take(i - start)[j]);
                }
            }
            if all_digits(d) {
                lemma_digits_value_monotonic(d, i - start + 1);
            }
        }
        if value > max / 10 {
            return None;
        }
        let scaled: u64 = value * 10;
        if digit > max - scaled {
            return None;
        }
        value = scaled + digit;
        i = i + 1;
    }
    assert(d.take(v@.len() - start) == d);
    Some(value)
}

pub fn parse_u16(s: &str) -> (r: Option<u16>)
    ensures
        port_num(r) == parsed(s@, 65535),
{
    match parse_up_to(s, 65535) {
        Some(n) => Some(n as u16),
        None => None,
    }
}

// ---------------------------------------------------------------------------
// Bytes
// ---------------------------------------------------------------------------

/// The length of a text in UTF-8.
pub open spec fn bytes(s: Seq<char>) -> nat {
    vstd::utf8::encode_utf8(s).len()
}

/// The number of bytes that a character takes in UTF-8.
pub open spec fn char_bytes(c: char) -> int {
    let u = c as u32;
    if u < 0x80 {
        1
    } else if u < 0x800 {
        2
    } else if u < 0x10000 {
        3
    } else {
        4
    }
}

pub fn char_byte_len(c: char) -> (n: usize)
    ensures
        n == char_bytes(c),
        1 <= n <= 4,
{
    let u: u32 = c as u32;
    if u < 0x80 {
        1
    } else if u < 0x800 {
        2
    } else if u < 0x10000 {
        3
    } else {
        4
    }
}

/// One character more takes the bytes of that character more.
pub proof fn lemma_bytes_push(s: Seq<char>, c: char)
    ensures
        bytes(s.push(c)) == bytes(s) + char_bytes(c),
    decreases s.len(),
{
    vstd::utf8::char_is_scalar(c);
    let t = s.push(c);
    if s.len() == 0 {
        assert(t.drop_first() == s);
        assert(t[0] == c);
    } else {
        assert(t.drop_first() == s.drop_first().push(c));
        assert(t[0] == s[0]);
        lemma_bytes_push(s.drop_first(), c);
    }
}

/// A text takes at least as many bytes as what is left of it behind position `k`.
pub proof fn lemma_bytes_skip(s: Seq<char>, k: int)
    requires
        0 <= k <= s.len(),
    ensures
        bytes(s.skip(k)) <= bytes(s),
    decreases k,
{
    if k == 0 {
        assert(s.skip(0) == s);
    } else {
        assert(s.drop_first() == s.skip(1));
        lemma_bytes_skip(s.skip(1), k - 1);
        assert(s.skip(1).skip(k - 1) == s.skip(k));
    }
}

/// The position of the character that starts at byte `k`, from `i` on, if one starts there.
pub open spec fn char_at_byte(s: Seq<char>, k: int, i: int) -> Option<int>
    decreases s.len() + 1 - i,
{
    if i < 0 || i > s.len() {
        None
    } else if bytes(s.take(i)) == k {
        Some(i)
    } else if i == s.len() {
        None
    } else {
        char_at_byte(s, k, i + 1)
    }
}

/// The position of the character that starts at byte `k`, if one starts there.
pub fn char_index_at_byte(s: &str, k: usize) -> (r: Option<usize>)
    ensures
        at(r) == char_at_byte(s@, k as int, 0),
        r matches Some(j) ==> j <= s@.len(),
{
    let n: usize = s.unicode_len();
    let mut i: usize = 0;
    loop
        invariant
            i <= n,
            n == s@.len(),
            char_at_byte(s@, k as int, 0) == char_at_byte(s@, k as int, i as int),
        decreases n - i,
    {
        if byte_len(take(s, i)) == k {
            return Some(i);
        }
        if i == n {
            return None;
        }
        i = i + 1;
    }
}

/// How many bytes of white space a line starts with.
pub open spec fn indentation(s: Seq<char>) -> int {
    bytes(s) - bytes(trimmed_start(s))
}

pub fn indent_of(s: &str) -> (n: usize)
    ensures
        n == indentation(s@),
{
    let rest = trim_start(s);
    proof {
        lemma_bytes_skip(s@, s@.len() - rest@.len());
    }
    byte_len(s) - byte_len(rest)
}

pub fn byte_len(s: &str) -> (n: usize)
    ensures
        n == bytes(s@),
{
    s.as_bytes().len()
}

// ---------------------------------------------------------------------------
// Order
// ---------------------------------------------------------------------------

/// Whether a text comes before another: at the first place where they differ it has the
/// smaller character, or it ends there.
pub open spec fn text_before(a: Seq<char>, b: Seq<char>, i: int) -> bool
    decreases a.len() - i,
{
    if i < 0 || i >= a.len() {
        i < b.len()
    } else if i >= b.len() {
        false
    } else if a[i] != b[i] {
        a[i] < b[i]
    } else {
        text_before(a, b, i + 1)
    }
}

pub fn comes_before(a: &str, b: &str) -> (r: bool)
    ensures
        r == text_before(a@, b@, 0),
{
    let x = chars_of(a);
    let y = chars_of(b);
    let mut i: usize = 0;
    while i < x.len()
        invariant
            i <= x@.len(),
            i <= y@.len(),
            text_before(x@, y@, 0) == text_before(x@, y@, i as int),
        decreases x@.len() - i,
    {
        if i >= y.len() {
            return false;
        }
        if x[i] != y[i] {
            return x[i] < y[i];
        }
        i = i + 1;
    }
    i < y.len()
}

/// The place of a text among others, ascending, from `i` on: before the first that it comes
/// before.
pub open spec fn place_from(sorted: Seq<Seq<char>>, t: Seq<char>, i: int) -> int
    decreases sorted.len() - i,
{
    if 0 <= i < sorted.len() && !text_before(t, sorted[i], 0) {
        place_from(sorted, t, i + 1)
    } else {
        i
    }
}

/// Texts in ascending order.
pub open spec fn ascending(ts: Seq<Seq<char>>) -> Seq<Seq<char>>
    decreases ts.len(),
{
    if ts.len() == 0 {
        Seq::empty()
    } else {
        let sorted = ascending(ts.drop_last());
        sorted.insert(place_from(sorted, ts.last(), 0), ts.last())
    }
}

/// Sorts texts in ascending order.
pub fn sort_texts(v: &Vec<String>) -> (r: Vec<String>)
    ensures
        texts(r@) == ascending(texts(v@)),
{
    let ghost ts = texts(v@);
    let mut r: Vec<String> = Vec::new();
    let mut i: usize = 0;
    assert(texts(r@) == ascending(ts.take(0)));
    while i < v.len()
        invariant
            i <= v@.len(),
            ts == texts(v@),
            texts(r@) == ascending(ts.take(i as int)),
        decreases v@.len() - i,
    {
        assert(ts.take(i + 1).drop_last() == ts.take(i as int));
        assert(ts.take(i + 1).last() == v@[i as int]@);
        let ghost sorted = texts(r@);
        let mut k: usize = 0;
        while k < r.len() && !comes_before(v[i].as_str(), r[k].as_str())
            invariant
                k <= r@.len(),
                sorted == texts(r@),
                place_from(sorted, v@[i as int]@, 0) == place_from(
                    sorted,
                    v@[i as int]@,
                    k as int,
                ),
            decreases r@.len() - k,
        {
            assert(sorted[k as int] == r@[k as int]@);
            k = k + 1;
        }
        if k < r.len() {
            assert(sorted[k as int] == r@[k as int]@);
        }
        let copy = v[i].clone();
        let ghost model = copy@;
        r.insert(k, copy);
        assert(texts(r@) == sorted.insert(k as int, model));
        i = i + 1;
    }
    assert(ts.take(ts.len() as int) == ts);
    r
}

pub proof fn lemma_text_order_total(a: Seq<char>, b: Seq<char>, i: int)
    requires
        0 <= i,
    ensures
        !(text_before(a, b, i) && text_before(b, a, i)),
    decreases a.len() - i,
{
    if i < a.len() && i < b.len() && a[i] == b[i] {
        lemma_text_order_total(a, b, i + 1);
    }
}

pub proof fn lemma_text_order_transitive(a: Seq<char>, b: Seq<char>, c: Seq<char>, i: int)
    requires
        0 <= i,
        !text_before(b, a, i),
        text_before(b, c, i),
    ensures
        text_before(a, c, i),
    decreases a.len() - i,
{
    if i < a.len() && i < b.len() && i < c.len() && a[i] == b[i] && b[i] == c[i] {
        lemma_text_order_transitive(a, b, c, i + 1);
    }
}

proof fn lemma_place_from(sorted: Seq<Seq<char>>, t: Seq<char>, i: int)
    requires
        0 <= i <= sorted.len(),
    ensures
        i <= place_from(sorted, t, i) <= sorted.len(),
        forall|j: int|
            i <= j < place_from(sorted, t, i) ==> !text_before(t, #[trigger] sorted[j], 0),
        place_from(sorted, t, i) < sorted.len() ==> text_before(
            t,
            sorted[place_from(sorted, t, i)],
            0,
        ),
    decreases sorted.len() - i,
{
    if i < sorted.len() && !text_before(t, sorted[i], 0) {
        lemma_place_from(sorted, t, i + 1);
    }
}

/// Sorted texts are the same texts, and none stands behind one that it comes before.
pub proof fn law_sorted_texts(ts: Seq<Seq<char>>)
    ensures
        ascending(ts).to_multiset() =~= ts.to_multiset(),
        forall|i: int, j: int|
            0 <= i < j < ascending(ts).len() ==> !text_before(
                #[trigger] ascending(ts)[j],
                #[trigger] ascending(ts)[i],
                0,
            ),
    decreases ts.len(),
{
    broadcast use vstd::seq_lib::group_to_multiset_ensures;

    if ts.len() > 0 {
        let before = ts.drop_last();
        let sorted = ascending(before);
        let t = ts.last();
        law_sorted_texts(before);
        lemma_place_from(sorted, t, 0);
        let k = place_from(sorted, t, 0);
        let out = sorted.insert(k, t);
        vstd::seq_lib::to_multiset_insert(sorted, k, t);
        assert(before.push(t) == ts);
        sorted.insert_ensures(k, t);
        assert forall|i: int, j: int| 0 <= i < j < out.len() implies !text_before(
            #[trigger] out[j],
            #[trigger] out[i],
            0,
        ) by {
            if j < k {
            } else if j == k {
                assert(out[i] == sorted[i]);
            } else if i == k {
                assert(out[j] == sorted[j - 1]);
                if text_before(sorted[j - 1], t, 0) {
                    if j - 1 > k {
                        assert(!text_before(sorted[j - 1], sorted[k], 0));
                        lemma_text_order_transitive(sorted[k], sorted[j - 1], t, 0);
                    }
                    lemma_text_order_total(t, sorted[k], 0);
                }
            } else if i > k {
                assert(out[i] == sorted[i - 1] && out[j] == sorted[j - 1]);
            } else {
                assert(out[i] == sorted[i] && out[j] == sorted[j - 1]);
            }
        }
    } else {
        assert(ascending(ts) == ts);
    }
}

} // verus!
