//! Laws of lifecycle manifests: one that follows the environment stays as it is.

use crate::env_laws::{lemma_chunks_shift, lemma_first_chunk, lemma_trimmed};
use crate::lifecycle::{
    default_line, env_port, env_value, quoted_span, section_after, synced_from, synced_line,
    synced_manifest, url_keys, url_line, with_span,
};
use crate::models::EnvModel;
use crate::ports::is_service_port_key;
use crate::text::{
    chunks, chunks_from, decimal, find, find_any_from, find_from, holds, is_digit, is_space,
    lemma_decimal_value, lemma_find_any_from, lemma_find_from, lemma_holds, lemma_rfind_from,
    matches_at, starts, trimmed,
};
use crate::urls::{authority_len, law_last_port_wins, url_parts, with_url_port};
use vstd::prelude::*;
use vstd::string::*;

verus! {

// ---------------------------------------------------------------------------
// Lines of the form key = "value"
// ---------------------------------------------------------------------------

/// Whether a text holds a character.
pub open spec fn has_char(s: Seq<char>, c: char) -> bool {
    exists|i: int| 0 <= i < s.len() && #[trigger] s[i] == c
}

/// What surrounds the quoted value of a line: an equals sign before it, and one quote on
/// either side that does not stand within it.
proof fn lemma_span(line: Seq<char>, keys: Seq<Seq<char>>) -> (eq: int)
    requires
        quoted_span(line, keys) is Some,
    ensures
        ({
            let (a, b) = quoted_span(line, keys)->0;
            &&& find(line, "="@) == Some(eq)
            &&& 0 <= eq < a - 1
            &&& line[eq] == '='
            &&& keys.contains(trimmed(line.take(eq)))
            &&& a <= b < line.len()
            &&& line[a - 1] == '\'' || line[a - 1] == '"'
            &&& line[b] == line[a - 1]
            &&& forall|i: int| a <= i < b ==> #[trigger] line[i] != line[a - 1]
            &&& forall|i: int| eq < i < a - 1 ==> #[trigger] line[i] != '\'' && line[i] != '"'
        }),
{
    reveal_strlit("=");
    reveal_strlit("'\"");
    let (a, b) = quoted_span(line, keys)->0;
    lemma_find_from(line, "="@, 0);
    let eq = find(line, "="@)->0;
    assert(line.subrange(eq, eq + 1)[0] == line[eq]);
    let value = line.skip(eq + 1);
    lemma_find_any_from(value, "'\""@, true, 0);
    let q = find_any_from(value, "'\""@, true, 0)->0;
    assert(value[q] == line[eq + 1 + q]);
    assert("'\""@[0] == '\'' && "'\""@[1] == '"');
    assert(value[q] == '\'' || value[q] == '"') by {
        let i = choose|i: int| 0 <= i < "'\""@.len() && "'\""@[i] == value[q];
        assert(i == 0 || i == 1);
    }
    let pat = seq![value[q]];
    lemma_find_from(value, pat, q + 1);
    let e = find_from(value, pat, q + 1)->0;
    assert(value.subrange(e, e + 1)[0] == value[e]);
    assert(pat[0] == value[q]);
    assert(value[e] == line[b]);
    assert forall|i: int| a <= i < b implies #[trigger] line[i] != line[a - 1] by {
        let j = i - eq - 1;
        assert(value[j] == line[i]);
        if value[j] == value[q] {
            assert(value.subrange(j, j + 1) == pat);
            assert(matches_at(value, pat, j));
        }
    }
    assert forall|i: int| eq < i < a - 1 implies #[trigger] line[i] != '\'' && line[i] != '"' by {
        let j = i - eq - 1;
        assert(value[j] == line[i]);
        assert("'\""@.contains('\'')) by {
            assert("'\""@[0] == '\'');
        }
        assert("'\""@.contains('"')) by {
            assert("'\""@[1] == '"');
        }
        assert("'\""@.contains(value[j]) != true);
    }
    eq
}

/// A line whose value was exchanged has the new value at the same place, if its quote does not
/// occur in the new value.
proof fn lemma_span_again(line: Seq<char>, keys: Seq<Seq<char>>, to: Seq<char>)
    requires
        quoted_span(line, keys) is Some,
        ({
            let (a, b) = quoted_span(line, keys)->0;
            !has_char(to, line[a - 1])
        }),
    ensures
        ({
            let span = quoted_span(line, keys)->0;
            let after = with_span(line, span, to);
            &&& quoted_span(after, keys) == Some((span.0, (span.0 + to.len()) as int))
            &&& after.subrange(span.0, (span.0 + to.len()) as int) == to
        }),
{
    reveal_strlit("=");
    reveal_strlit("'\"");
    let (a, b) = quoted_span(line, keys)->0;
    let eq = lemma_span(line, keys);
    let after = with_span(line, (a, b), to);
    let n = to.len() as int;
    assert forall|i: int| 0 <= i < a implies #[trigger] after[i] == line[i] by {}
    assert(after[a + n] == line[b]);
    lemma_find_from(line, "="@, 0);
    lemma_find_from(after, "="@, 0);
    assert(matches_at(after, "="@, eq)) by {
        assert(after.subrange(eq, eq + 1) == "="@);
    }
    let f = find_from(after, "="@, 0)->0;
    assert(f == eq) by {
        if f < eq {
            assert(after.subrange(f, f + 1) == line.subrange(f, f + 1));
            assert(matches_at(line, "="@, f));
        }
    }
    assert(after.take(eq) == line.take(eq));
    let value = after.skip(eq + 1);
    let q = a - 1 - eq - 1;
    lemma_find_any_from(value, "'\""@, true, 0);
    assert(value[q] == line[a - 1]);
    assert("'\""@.contains('\'')) by {
        assert("'\""@[0] == '\'');
    }
    assert("'\""@.contains('"')) by {
        assert("'\""@[1] == '"');
    }
    let g = find_any_from(value, "'\""@, true, 0)->0;
    assert(g == q) by {
        if g < q {
            assert(value[g] == line[eq + 1 + g]);
            let i = choose|i: int| 0 <= i < "'\""@.len() && "'\""@[i] == value[g];
            assert(i == 0 || i == 1);
        }
    }
    let pat = seq![value[q]];
    lemma_find_from(value, pat, q + 1);
    let e = q + 1 + n;
    assert(value[e] == after[a + n]);
    assert(matches_at(value, pat, e)) by {
        assert(value.subrange(e, e + 1) == pat);
    }
    let h = find_from(value, pat, q + 1)->0;
    assert(h == e) by {
        if h < e {
            assert(value.subrange(h, h + 1)[0] == value[h]);
            assert(pat[0] == value[q]);
            assert(value[h] == after[eq + 1 + h]);
            assert(after[eq + 1 + h] == to[h - q - 1]);
            assert(has_char(to, line[a - 1]));
        }
    }
    assert(after.subrange(a, a + n) == to);
}

/// A line with its value exchanged twice is the line with its value exchanged once.
proof fn lemma_with_span_again(line: Seq<char>, a: int, b: int, to: Seq<char>)
    requires
        0 <= a <= b <= line.len(),
    ensures
        with_span(with_span(line, (a, b), to), (a, (a + to.len()) as int), to) == with_span(
            line,
            (a, b),
            to,
        ),
{
    let after = with_span(line, (a, b), to);
    assert(after.take(a) == line.take(a));
    assert(after.skip(a + to.len()) == line.skip(b));
}

// ---------------------------------------------------------------------------
// URLs
// ---------------------------------------------------------------------------

/// Setting a port brings in colons and digits only.
proof fn lemma_port_brings_in(url: Seq<char>, port: nat, c: char)
    requires
        !has_char(url, c),
        c != ':',
        !is_digit(c),
    ensures
        !has_char(with_url_port(url, port), c),
{
    if let Some(p) = url_parts(url) {
        let out = with_url_port(url, port);
        reveal_strlit(":");
        lemma_decimal_value(port);
        let d = decimal(port);
        if has_char(out, c) {
            let i = choose|i: int| 0 <= i < out.len() && #[trigger] out[i] == c;
            lemma_parts_of(url);
            let s = p.scheme.len() as int;
            let h = s + p.host.len();
            if i < h {
                assert(out[i] == (p.scheme + p.host)[i]);
                assert(url[i] == c);
            } else if i == h {
                assert(out[i] == ':');
            } else if i < h + 1 + d.len() {
                assert(out[i] == d[i - h - 1]);
            } else {
                let t = i - h - 1 - d.len();
                assert(out[i] == p.tail[t]);
                assert(url[url.len() - p.tail.len() + t] == c);
            }
        }
    }
}

/// The scheme and the host start a URL, and the tail ends it.
proof fn lemma_parts_of(url: Seq<char>)
    requires
        url_parts(url) is Some,
    ensures
        ({
            let p = url_parts(url)->0;
            &&& p.scheme.len() + p.host.len() + p.tail.len() <= url.len()
            &&& forall|i: int|
                0 <= i < p.scheme.len() + p.host.len() ==> #[trigger] (p.scheme + p.host)[i]
                    == url[i]
            &&& forall|i: int|
                0 <= i < p.tail.len() ==> #[trigger] p.tail[i] == url[url.len() - p.tail.len() + i]
        }),
{
    reveal_strlit("://");
    reveal_strlit("]");
    reveal_strlit(":");
    lemma_find_from(url, "://"@, 0);
    let k = find(url, "://"@)->0;
    let rest = url.skip(k + 3);
    lemma_find_any_from(rest, "/?#"@, true, 0);
    let end = authority_len(rest);
    let authority = rest.take(end);
    lemma_find_from(authority, "]"@, 0);
    lemma_rfind_from(authority, ":"@, authority.len() - 1);
    let p = url_parts(url)->0;
    assert forall|i: int| 0 <= i < p.scheme.len() + p.host.len() implies #[trigger] (p.scheme
        + p.host)[i] == url[i] by {
        if i >= p.scheme.len() {
            assert(p.host[i - p.scheme.len()] == rest[i - p.scheme.len()]);
        }
    }
}

/// Setting a port brings in no reference to a variable.
proof fn lemma_port_brings_in_no_variable(url: Seq<char>, port: nat)
    requires
        !holds(url, "${"@),
    ensures
        !holds(with_url_port(url, port), "${"@),
{
    let out = with_url_port(url, port);
    if url_parts(url) is Some && holds(out, "${"@) {
        reveal_strlit("${");
        reveal_strlit(":");
        let p = url_parts(url)->0;
        lemma_parts_of(url);
        lemma_decimal_value(port);
        let d = decimal(port);
        lemma_holds(out, "${"@);
        lemma_holds(url, "${"@);
        let j = choose|j: int| matches_at(out, "${"@, j);
        assert(out.subrange(j, j + 2)[0] == out[j]);
        assert(out.subrange(j, j + 2)[1] == out[j + 1]);
        assert(out[j] == '$' && out[j + 1] == '{');
        let h = p.scheme.len() + p.host.len();
        assert forall|i: int| 0 <= i < h implies #[trigger] out[i] == url[i] by {
            assert(out[i] == (p.scheme + p.host)[i]);
        }
        assert(out[h as int] == ':');
        assert forall|i: int| h < i < h + 1 + d.len() implies is_digit(#[trigger] out[i]) by {
            assert(out[i] == d[i - h - 1]);
        }
        if j + 1 < h {
            assert(url.subrange(j, j + 2) == "${"@);
            assert(matches_at(url, "${"@, j));
        } else if j > h + d.len() {
            let t = j - h - 1 - d.len();
            let w = url.len() - p.tail.len() + t;
            assert(out[j] == p.tail[t] && out[j + 1] == p.tail[t + 1]);
            assert(url.subrange(w, w + 2) == "${"@);
            assert(matches_at(url, "${"@, w));
        } else {
            assert(j + 1 == h || j == h || (h < j && j < h + 1 + d.len()));
        }
    }
}

// ---------------------------------------------------------------------------
// Lines
// ---------------------------------------------------------------------------

/// Whether a line has a line feed at its end only, if at all.
spec fn is_chunk(line: Seq<char>) -> bool {
    &&& line.len() > 0
    &&& forall|i: int| 0 <= i < line.len() - 1 ==> #[trigger] line[i] != '\n'
}

/// What an exchanged value leaves of a line: where it starts, and how it ends.
spec fn is_same_frame(line: Seq<char>, after: Seq<char>) -> bool {
    &&& is_chunk(line) ==> is_chunk(after)
    &&& line.last() == after.last()
    &&& forall|open: (Option<Seq<char>>, Option<Seq<char>>)|
        #[trigger] section_after(after, open) == section_after(line, open)
}

proof fn lemma_first_char(s: Seq<char>, k: int)
    requires
        0 <= k < s.len(),
        !is_space(s[k]),
    ensures
        trimmed(s).len() > 0,
        exists|r: int|
            0 <= r <= k && trimmed(s)[0] == #[trigger] s[r] && !is_space(s[r]) && (forall|i: int|
                0 <= i < r ==> is_space(#[trigger] s[i])),
{
    let r = lemma_trimmed(s);
    if r.0 > k {
        assert(is_space(s[k]));
    }
    if r.1 <= k {
        assert(is_space(s[k]));
    }
    assert(trimmed(s)[0] == s[r.0]);
}

/// A line with its value exchanged opens the same section, and ends in the same way.
proof fn lemma_span_keeps_frame(line: Seq<char>, keys: Seq<Seq<char>>, to: Seq<char>)
    requires
        line.len() > 0,
        quoted_span(line, keys) is Some,
        !has_char(to, '\n'),
        forall|k: int|
            0 <= k < keys.len() ==> (#[trigger] keys[k]).len() > 0 && keys[k][0] != '[',
    ensures
        is_same_frame(line, with_span(line, quoted_span(line, keys)->0, to)),
{
    let (a, b) = quoted_span(line, keys)->0;
    let eq = lemma_span(line, keys);
    let after = with_span(line, (a, b), to);
    let n = to.len() as int;
    assert forall|i: int| 0 <= i < a implies #[trigger] after[i] == line[i] by {}
    assert forall|i: int| a + n <= i < after.len() implies #[trigger] after[i] == line[i - n - a
        + b] by {}
    assert(after.last() == line.last());
    if is_chunk(line) {
        assert forall|i: int| 0 <= i < after.len() - 1 implies #[trigger] after[i] != '\n' by {
            if i < a {
                assert(after[i] == line[i]);
            } else if i < a + n {
                assert(after[i] == to[i - a]);
            } else {
                assert(after[i] == line[i - n - a + b]);
            }
        }
    }
    // Neither line is a header: the first character of the key is no bracket.
    assert(!is_space('='));
    lemma_first_char(line, eq);
    lemma_first_char(after, eq);
    let key = trimmed(line.take(eq));
    let k = choose|k: int| 0 <= k < keys.len() && keys[k] == key;
    assert(keys[k].len() > 0);
    let kr = lemma_trimmed(line.take(eq));
    assert(key[0] == line[kr.0]);
    assert forall|i: int| 0 <= i < kr.0 implies is_space(#[trigger] line[i]) by {
        assert(line.take(eq)[i] == line[i]);
    }
    assert(!is_space(line[kr.0]));
    let r = choose|r: int|
        0 <= r <= eq && trimmed(line)[0] == #[trigger] line[r] && !is_space(line[r]) && (forall|
            i: int,
        | 0 <= i < r ==> is_space(#[trigger] line[i]));
    assert(r == kr.0) by {
        if r < kr.0 {
            assert(is_space(line[r]));
        }
        if kr.0 < r {
            assert(is_space(line[kr.0]));
        }
    }
    let s = choose|s: int|
        0 <= s <= eq && trimmed(after)[0] == #[trigger] after[s] && !is_space(after[s]) && (forall|
            i: int,
        | 0 <= i < s ==> is_space(#[trigger] after[i]));
    assert(s == kr.0) by {
        if s < kr.0 {
            assert(is_space(line[s]));
            assert(after[s] == line[s]);
        }
        if kr.0 < s {
            assert(is_space(after[kr.0]));
            assert(after[kr.0] == line[kr.0]);
        }
    }
    reveal_strlit("[");
    assert(!starts(trimmed(line), "["@)) by {
        if starts(trimmed(line), "["@) {
            assert(trimmed(line).subrange(0, 1)[0] == trimmed(line)[0]);
        }
    }
    assert(!starts(trimmed(after), "["@)) by {
        if starts(trimmed(after), "["@) {
            assert(trimmed(after).subrange(0, 1)[0] == trimmed(after)[0]);
        }
    }
}

proof fn lemma_url_line(line: Seq<char>, port: nat)
    requires
        is_chunk(line),
    ensures
        url_line(url_line(line, port), port) == url_line(line, port),
        is_same_frame(line, url_line(line, port)),
{
    reveal_strlit("url");
    reveal_strlit("target");
    let keys = url_keys();
    assert(keys[0][0] == 'u' && keys[1][0] == 't');
    if let Some(span) = quoted_span(line, keys) {
        let eq = lemma_span(line, keys);
        let current = line.subrange(span.0, span.1);
        let quote = line[span.0 - 1];
        assert(!has_char(current, quote)) by {
            if has_char(current, quote) {
                let i = choose|i: int| 0 <= i < current.len() && #[trigger] current[i] == quote;
                assert(line[span.0 + i] == quote);
            }
        }
        assert(!has_char(current, '\n')) by {
            if has_char(current, '\n') {
                let i = choose|i: int| 0 <= i < current.len() && #[trigger] current[i] == '\n';
                assert(line[span.0 + i] == '\n');
            }
        }
        let to = if holds(current, "${"@) {
            current
        } else {
            with_url_port(current, port)
        };
        if !holds(current, "${"@) {
            lemma_port_brings_in(current, port, quote);
            lemma_port_brings_in(current, port, '\n');
            lemma_port_brings_in_no_variable(current, port);
            law_last_port_wins(current, port, port);
        }
        lemma_span_again(line, keys, to);
        lemma_with_span_again(line, span.0, span.1, to);
        lemma_span_keeps_frame(line, keys, to);
    }
}

proof fn lemma_default_line(line: Seq<char>, value: Seq<char>)
    requires
        is_chunk(line),
        !has_char(value, '\n'),
        !has_char(value, '\''),
        !has_char(value, '"'),
    ensures
        default_line(default_line(line, value), value) == default_line(line, value),
        is_same_frame(line, default_line(line, value)),
{
    reveal_strlit("default");
    let keys = seq!["default"@];
    assert(keys[0][0] == 'd');
    if let Some(span) = quoted_span(line, keys) {
        let eq = lemma_span(line, keys);
        lemma_span_again(line, keys, value);
        lemma_with_span_again(line, span.0, span.1, value);
        lemma_span_keeps_frame(line, keys, value);
    }
}

/// Whether the ports that an environment gives can stand between quotes on a line.
pub open spec fn has_plain_ports(env: Seq<EnvModel>) -> bool {
    forall|i: int|
        0 <= i < env.len() && is_service_port_key((#[trigger] env[i]).key) ==> !has_char(
            env[i].value,
            '\n',
        ) && !has_char(env[i].value, '\'') && !has_char(env[i].value, '"')
}

proof fn lemma_env_value_is_plain(env: Seq<EnvModel>, key: Seq<char>)
    requires
        has_plain_ports(env),
        is_service_port_key(key),
    ensures
        env_value(env, key) matches Some(v) ==> !has_char(v, '\n') && !has_char(v, '\'')
            && !has_char(v, '"'),
    decreases env.len(),
{
    if env.len() > 0 {
        let last = env[env.len() - 1];
        assert(env.last() == last);
        if last.key != key {
            let rest = env.drop_last();
            assert forall|i: int|
                0 <= i < rest.len() && is_service_port_key((#[trigger] rest[i]).key) implies !has_char(
                rest[i].value,
                '\n',
            ) && !has_char(rest[i].value, '\'') && !has_char(rest[i].value, '"') by {
                assert(rest[i] == env[i]);
            }
            lemma_env_value_is_plain(rest, key);
        }
    }
}

/// A line that follows the environment stays as it is, and keeps its place among the lines.
proof fn lemma_synced_line(
    line: Seq<char>,
    open: (Option<Seq<char>>, Option<Seq<char>>),
    env: Seq<EnvModel>,
)
    requires
        is_chunk(line),
        has_plain_ports(env),
    ensures
        synced_line(synced_line(line, open, env), open, env) == synced_line(line, open, env),
        is_same_frame(line, synced_line(line, open, env)),
{
    if open.0 is Some && env_port(open.0->0, env) is Some {
        lemma_url_line(line, env_port(open.0->0, env)->0 as nat);
    } else if open.1 is Some && is_service_port_key(open.1->0) && env_value(env, open.1->0) is Some {
        lemma_env_value_is_plain(env, open.1->0);
        lemma_default_line(line, env_value(env, open.1->0)->0);
    }
}

// ---------------------------------------------------------------------------
// Texts
// ---------------------------------------------------------------------------

/// Whether lines are those of one text: each ends with a line feed, but perhaps the last.
spec fn are_chunks(ls: Seq<Seq<char>>) -> bool {
    forall|k: int|
        0 <= k < ls.len() ==> is_chunk(#[trigger] ls[k]) && (k + 1 < ls.len() ==> ls[k].last()
            == '\n')
}

/// The lines from `i` on as one text.
spec fn text_of(ls: Seq<Seq<char>>, i: int) -> Seq<char>
    decreases ls.len() - i,
{
    if i < 0 || i >= ls.len() {
        Seq::empty()
    } else {
        ls[i] + text_of(ls, i + 1)
    }
}

proof fn lemma_chunks_are_chunks(s: Seq<char>, start: int, i: int)
    requires
        0 <= start <= i <= s.len(),
        forall|j: int| start <= j < i ==> #[trigger] s[j] != '\n',
    ensures
        are_chunks(chunks_from(s, start, i)),
    decreases s.len() - i,
{
    if i < s.len() {
        if s[i] == '\n' {
            lemma_chunks_are_chunks(s, i + 1, i + 1);
            let first = s.subrange(start, i + 1);
            let rest = chunks_from(s, i + 1, i + 1);
            let all = chunks_from(s, start, i);
            assert(all == seq![first] + rest);
            assert(first.last() == '\n');
            assert forall|k: int| 0 <= k < all.len() implies is_chunk(#[trigger] all[k]) && (k + 1
                < all.len() ==> all[k].last() == '\n') by {
                if k == 0 {
                    assert forall|j: int| 0 <= j < first.len() - 1 implies #[trigger] first[j]
                        != '\n' by {
                        assert(first[j] == s[start + j]);
                    }
                } else {
                    assert(all[k] == rest[k - 1]);
                }
            }
        } else {
            lemma_chunks_are_chunks(s, start, i + 1);
        }
    } else if start < s.len() {
        let only = s.skip(start);
        assert forall|j: int| 0 <= j < only.len() - 1 implies #[trigger] only[j] != '\n' by {
            assert(only[j] == s[start + j]);
        }
    }
}

proof fn lemma_lone_chunk(s: Seq<char>, i: int)
    requires
        is_chunk(s),
        s.last() != '\n',
        0 <= i <= s.len(),
    ensures
        chunks_from(s, 0, i) == seq![s],
    decreases s.len() - i,
{
    if i < s.len() {
        assert(s[i] != '\n') by {
            if i == s.len() - 1 {
                assert(s[i] == s.last());
            }
        }
        lemma_lone_chunk(s, i + 1);
    } else {
        assert(s.skip(0) == s);
    }
}

/// The lines of a text made up of lines are those lines.
proof fn lemma_chunks_of_text(ls: Seq<Seq<char>>, i: int)
    requires
        are_chunks(ls),
        0 <= i <= ls.len(),
    ensures
        chunks(text_of(ls, i)) == ls.skip(i),
    decreases ls.len() - i,
{
    if i == ls.len() {
        assert(text_of(ls, i) == Seq::<char>::empty());
        assert(ls.skip(i) == Seq::<Seq<char>>::empty());
    } else {
        lemma_chunks_of_text(ls, i + 1);
        let first = ls[i];
        let rest = text_of(ls, i + 1);
        let s = text_of(ls, i);
        assert(s == first + rest);
        assert(ls.skip(i) == seq![first] + ls.skip(i + 1));
        assert(is_chunk(first));
        if i + 1 == ls.len() {
            assert(rest == Seq::<char>::empty());
            assert(s == first);
            assert(ls.skip(i + 1) == Seq::<Seq<char>>::empty());
            if first.last() == '\n' {
                let n = first.len() - 1;
                lemma_first_chunk(s, n, 0);
                assert(s.subrange(0, n + 1) == first);
            } else {
                lemma_lone_chunk(first, 0);
            }
            assert(chunks(s) == seq![first]);
            assert(ls.skip(i) == seq![first]);
        } else {
            let n = first.len() - 1;
            assert(s[n] == first[n]);
            assert forall|j: int| 0 <= j < n implies #[trigger] s[j] != '\n' by {
                assert(s[j] == first[j]);
            }
            lemma_first_chunk(s, n, 0);
            assert(s.subrange(0, n + 1) == first);
            lemma_chunks_shift(s, n + 1, n + 1, n + 1);
            assert(s.skip(n + 1) == rest);
        }
    }
}

/// The lines from `i` on, each following the environment.
spec fn synced_lines(
    ls: Seq<Seq<char>>,
    env: Seq<EnvModel>,
    i: int,
    open: (Option<Seq<char>>, Option<Seq<char>>),
) -> Seq<Seq<char>>
    decreases ls.len() - i,
{
    if i < 0 || i >= ls.len() {
        Seq::empty()
    } else {
        let now = section_after(ls[i], open);
        seq![synced_line(ls[i], now, env)] + synced_lines(ls, env, i + 1, now)
    }
}

proof fn lemma_synced_lines(
    ls: Seq<Seq<char>>,
    env: Seq<EnvModel>,
    i: int,
    open: (Option<Seq<char>>, Option<Seq<char>>),
)
    requires
        are_chunks(ls),
        has_plain_ports(env),
        0 <= i <= ls.len(),
    ensures
        ({
            let out = synced_lines(ls, env, i, open);
            &&& are_chunks(out)
            &&& out.len() == ls.len() - i
            &&& text_of(out, 0) == synced_from(ls, env, i, open)
            &&& synced_from(out, env, 0, open) == text_of(out, 0)
        }),
    decreases ls.len() - i,
{
    let out = synced_lines(ls, env, i, open);
    if i < ls.len() {
        let now = section_after(ls[i], open);
        let first = synced_line(ls[i], now, env);
        let rest = synced_lines(ls, env, i + 1, now);
        lemma_synced_lines(ls, env, i + 1, now);
        lemma_synced_line(ls[i], now, env);
        assert(out == seq![first] + rest);
        assert forall|k: int| 0 <= k < out.len() implies is_chunk(#[trigger] out[k]) && (k + 1
            < out.len() ==> out[k].last() == '\n') by {
            if k == 0 {
                assert(is_chunk(ls[i]));
            } else {
                assert(out[k] == rest[k - 1]);
            }
        }
        lemma_text_of_rest(first, rest, 0);
        assert(text_of(out, 0) == first + text_of(rest, 0)) by {
            assert(out[0] == first);
        }
        assert(section_after(first, open) == now);
        assert(out[0] == first);
        lemma_synced_from_rest(first, rest, env, 0, now);
        assert(synced_from(out, env, 0, open) == first + synced_from(out, env, 1, now));
    }
}

proof fn lemma_text_of_rest(first: Seq<char>, rest: Seq<Seq<char>>, i: int)
    requires
        0 <= i <= rest.len(),
    ensures
        text_of(seq![first] + rest, i + 1) == text_of(rest, i),
    decreases rest.len() - i,
{
    if i < rest.len() {
        lemma_text_of_rest(first, rest, i + 1);
        assert((seq![first] + rest)[i + 1] == rest[i]);
    }
}

proof fn lemma_synced_from_rest(
    first: Seq<char>,
    rest: Seq<Seq<char>>,
    env: Seq<EnvModel>,
    i: int,
    open: (Option<Seq<char>>, Option<Seq<char>>),
)
    requires
        0 <= i <= rest.len(),
    ensures
        synced_from(seq![first] + rest, env, i + 1, open) == synced_from(rest, env, i, open),
    decreases rest.len() - i,
{
    if i < rest.len() {
        assert((seq![first] + rest)[i + 1] == rest[i]);
        lemma_synced_from_rest(first, rest, env, i + 1, section_after(rest[i], open));
    }
}

/// A manifest that follows an environment stays as it is when it is made to follow it again.
/// Left out are ports with quotes or line feeds in them, which a line cannot quote.
pub proof fn law_synced_manifest_is_stable(content: Seq<char>, env: Seq<EnvModel>)
    requires
        has_plain_ports(env),
    ensures
        synced_manifest(synced_manifest(content, env), env) == synced_manifest(content, env),
{
    let ls = chunks(content);
    lemma_chunks_are_chunks(content, 0, 0);
    lemma_synced_lines(ls, env, 0, (None, None));
    let out = synced_lines(ls, env, 0, (None, None));
    lemma_chunks_of_text(out, 0);
    assert(out.skip(0) == out);
}

} // verus!
