//! Laws of environments: what is written is read back, what the vault leaves alone, and which
//! addresses follow a port.

use crate::environment::{
    address_follows_from, assignment, change_of, comment_lines_from, comment_text, comments_after,
    endpoint_follows, entries_of, entry_of, env_entries, example_of, hash_from, host_of,
    is_address_key, is_container_url, is_shared, last_entry, lifecycle_follows, merged,
    merged_entry, names_domain, position_from, rendered, rendered_entry, rendered_from, restored,
    shared_from, value_and_comment, vault_with,
};
use crate::models::{ChangeModel, EnvModel};
use crate::ports::{is_loopback_url, is_service_port_key};
use crate::state::{vault_fault_from, vault_kept};
use crate::text::{
    after_prefix, chunks, chunks_from, find_from, is_space, joined, joined_from, lemma_find_from,
    line_body, lines, matches_at, starts, strip_set_start, trimmed, trimmed_end, trimmed_start,
};
use crate::urls::{
    law_last_port_wins, law_ports_in_queries_stay, law_set_port_is_read_back, url_parts, url_port,
    with_url_port,
};
use vstd::prelude::*;
use vstd::string::*;

verus! {

// ---------------------------------------------------------------------------
// Trimming
// ---------------------------------------------------------------------------

/// Whether a text neither starts nor ends with white space.
pub open spec fn is_trim(s: Seq<char>) -> bool {
    s.len() > 0 ==> !is_space(s[0]) && !is_space(s.last())
}

/// Whether a text holds no line feed.
pub open spec fn is_one_line(s: Seq<char>) -> bool {
    forall|i: int| 0 <= i < s.len() ==> #[trigger] s[i] != '\n'
}

pub proof fn lemma_trim_stays(s: Seq<char>)
    requires
        is_trim(s),
    ensures
        trimmed(s) == s,
{
}

proof fn lemma_trimmed_start(s: Seq<char>) -> (k: int)
    ensures
        0 <= k <= s.len(),
        trimmed_start(s) == s.skip(k),
        k < s.len() ==> !is_space(s[k]),
        forall|i: int| 0 <= i < k ==> is_space(#[trigger] s[i]),
    decreases s.len(),
{
    if s.len() > 0 && is_space(s[0]) {
        let k = lemma_trimmed_start(s.skip(1));
        assert(s.skip(1).skip(k) == s.skip(k + 1));
        assert forall|i: int| 0 <= i < k + 1 implies is_space(#[trigger] s[i]) by {
            if i > 0 {
                assert(s.skip(1)[i - 1] == s[i]);
            }
        }
        if k + 1 < s.len() {
            assert(s.skip(1)[k] == s[k + 1]);
        }
        k + 1
    } else {
        assert(s.skip(0) == s);
        0
    }
}

proof fn lemma_trimmed_end(s: Seq<char>) -> (k: int)
    ensures
        0 <= k <= s.len(),
        trimmed_end(s) == s.take(k),
        k > 0 ==> !is_space(s[k - 1]),
        forall|i: int| k <= i < s.len() ==> is_space(#[trigger] s[i]),
    decreases s.len(),
{
    if s.len() > 0 && is_space(s.last()) {
        let k = lemma_trimmed_end(s.drop_last());
        assert(s.drop_last().take(k) == s.take(k));
        assert forall|i: int| k <= i < s.len() implies is_space(#[trigger] s[i]) by {
            if i < s.len() - 1 {
                assert(s.drop_last()[i] == s[i]);
            }
        }
        k
    } else {
        assert(s.take(s.len() as int) == s);
        s.len() as int
    }
}

/// A trimmed text is the part of the text between the white space around it.
pub proof fn lemma_trimmed(s: Seq<char>) -> (r: (int, int))
    ensures
        0 <= r.0 <= r.1 <= s.len(),
        trimmed(s) == s.subrange(r.0, r.1),
        is_trim(trimmed(s)),
        forall|i: int| 0 <= i < r.0 ==> is_space(#[trigger] s[i]),
        forall|i: int| r.1 <= i < s.len() ==> is_space(#[trigger] s[i]),
{
    let a = lemma_trimmed_start(s);
    let t = s.skip(a);
    let b = lemma_trimmed_end(t);
    assert(t.take(b) == s.subrange(a, a + b));
    assert forall|i: int| a + b <= i < s.len() implies is_space(#[trigger] s[i]) by {
        assert(t[i - a] == s[i]);
    }
    if b > 0 {
        assert(t[b - 1] == s[a + b - 1]);
        assert(t[0] == s[a]);
    }
    (a, a + b)
}

proof fn lemma_trimmed_one_line(s: Seq<char>)
    requires
        is_one_line(s),
    ensures
        is_one_line(trimmed(s)),
        is_trim(trimmed(s)),
{
    let r = lemma_trimmed(s);
    assert forall|i: int| 0 <= i < trimmed(s).len() implies #[trigger] trimmed(s)[i] != '\n' by {
        assert(trimmed(s)[i] == s[r.0 + i]);
    }
}

// ---------------------------------------------------------------------------
// Lines
// ---------------------------------------------------------------------------

/// The lines behind a position are those of the rest of the text.
pub proof fn lemma_chunks_shift(s: Seq<char>, k: int, start: int, i: int)
    requires
        0 <= k <= start <= i <= s.len(),
    ensures
        chunks_from(s, start, i) == chunks_from(s.skip(k), start - k, i - k),
    decreases s.len() - i,
{
    let t = s.skip(k);
    if i < s.len() {
        assert(t[i - k] == s[i]);
        if s[i] == '\n' {
            lemma_chunks_shift(s, k, i + 1, i + 1);
            assert(s.subrange(start, i + 1) == t.subrange(start - k, i + 1 - k));
        } else {
            lemma_chunks_shift(s, k, start, i + 1);
        }
    } else if start < s.len() {
        assert(s.skip(start) == t.skip(start - k));
    }
}

/// The first line of a text, with the line feed that ends it, and the lines behind it.
pub proof fn lemma_first_chunk(s: Seq<char>, n: int, i: int)
    requires
        0 <= i <= n < s.len(),
        s[n] == '\n',
        forall|j: int| i <= j < n ==> #[trigger] s[j] != '\n',
    ensures
        chunks_from(s, 0, i) == seq![s.subrange(0, n + 1)] + chunks_from(s, n + 1, n + 1),
    decreases n - i,
{
    if i < n {
        lemma_first_chunk(s, n, i + 1);
    }
}

/// The first line of a text, and the lines behind it.
pub proof fn lemma_first_line(a: Seq<char>, b: Seq<char>)
    requires
        is_one_line(a),
        a.len() > 0 ==> a.last() != '\r',
    ensures
        lines(a + "\n"@ + b) == seq![a] + lines(b),
{
    reveal_strlit("\n");
    let s = a + "\n"@ + b;
    let n = a.len() as int;
    assert forall|j: int| 0 <= j < n implies #[trigger] s[j] != '\n' by {
        assert(s[j] == a[j]);
    }
    assert(s[n] == '\n');
    lemma_first_chunk(s, n, 0);
    lemma_chunks_shift(s, n + 1, n + 1, n + 1);
    assert(s.skip(n + 1) == b);
    let first = s.subrange(0, n + 1);
    assert(first.drop_last() == a);
    assert(first.last() == '\n');
    assert(line_body(first) == a);
    assert(lines(s) == seq![a] + lines(b));
}

proof fn lemma_chunks_have_one_feed(s: Seq<char>, start: int, i: int, k: int)
    requires
        0 <= start <= i <= s.len(),
        forall|j: int| start <= j < i ==> #[trigger] s[j] != '\n',
        0 <= k < chunks_from(s, start, i).len(),
    ensures
        is_one_line(line_body(chunks_from(s, start, i)[k])),
    decreases s.len() - i,
{
    if i < s.len() {
        if s[i] == '\n' {
            if k == 0 {
                let c = s.subrange(start, i + 1);
                assert(c.last() == '\n');
                assert forall|j: int| 0 <= j < line_body(c).len() implies #[trigger] line_body(
                    c,
                )[j] != '\n' by {
                    assert(line_body(c)[j] == s[start + j]);
                }
            } else {
                lemma_chunks_have_one_feed(s, i + 1, i + 1, k - 1);
            }
        } else {
            lemma_chunks_have_one_feed(s, start, i + 1, k);
        }
    } else {
        let c = s.skip(start);
        assert(c.len() > 0);
        assert(c.last() == s[s.len() - 1]);
        assert forall|j: int| 0 <= j < c.len() implies #[trigger] c[j] != '\n' by {
            assert(c[j] == s[start + j]);
        }
    }
}

/// No line holds a line feed.
pub proof fn lemma_lines_are_lines(s: Seq<char>)
    ensures
        forall|k: int| 0 <= k < lines(s).len() ==> is_one_line(#[trigger] lines(s)[k]),
{
    assert forall|k: int| 0 <= k < lines(s).len() implies is_one_line(#[trigger] lines(s)[k]) by {
        lemma_chunks_have_one_feed(s, 0, 0, k);
        assert(lines(s)[k] == line_body(chunks(s)[k]));
    }
}

// ---------------------------------------------------------------------------
// Comments
// ---------------------------------------------------------------------------

/// The texts without white space around them.
pub open spec fn all_trimmed(ls: Seq<Seq<char>>) -> Seq<Seq<char>> {
    ls.map_values(|l: Seq<char>| trimmed(l))
}

/// A comment as it is read back: without white space around its lines, and without blank lines
/// around it.
pub open spec fn tidy_comment(comment: Seq<char>) -> Seq<char> {
    if trimmed(comment).len() > 0 {
        trimmed(joined(all_trimmed(lines(comment)), "\n"@))
    } else {
        Seq::empty()
    }
}

proof fn lemma_comment_line(t: Seq<char>)
    requires
        is_trim(t),
    ensures
        ({
            let line = trimmed("# "@ + t);
            &&& starts(line, "#"@)
            &&& comment_text(line) == t
        }),
{
    reveal_strlit("# ");
    reveal_strlit("#");
    let s = "# "@ + t;
    assert("#"@.contains('#')) by {
        assert("#"@[0] == '#');
    }
    assert(!"#"@.contains(' '));
    if t.len() == 0 {
        assert(s.drop_last() == "#"@);
        assert(s.last() == ' ');
        assert(trimmed_end(s.drop_last()) == "#"@);
        assert(trimmed(s) == "#"@);
        let line = "#"@;
        assert(line.subrange(0, 1) == "#"@);
        assert(line.skip(1) == t);
        assert(strip_set_start(line.skip(1), "#"@) == t);
        assert(strip_set_start(line, "#"@) == t);
        lemma_trim_stays(t);
    } else {
        assert(s.last() == t.last());
        lemma_trim_stays(s);
        assert(s.subrange(0, 1) == "#"@);
        let rest = s.skip(1);
        assert(rest[0] == ' ');
        assert(strip_set_start(rest, "#"@) == rest);
        assert(strip_set_start(s, "#"@) == rest);
        assert(rest.skip(1) == t);
        assert(trimmed_start(t) == t);
        assert(trimmed_start(rest) == t);
    }
}

/// Comment lines that were written are read as comment lines above what follows.
proof fn lemma_comments_are_read(
    ls: Seq<Seq<char>>,
    i: int,
    rest: Seq<char>,
    above: Seq<Seq<char>>,
)
    requires
        0 <= i <= ls.len(),
        forall|k: int| 0 <= k < ls.len() ==> is_one_line(#[trigger] ls[k]),
    ensures
        entries_of(lines(comment_lines_from(ls, i) + rest), above) == entries_of(
            lines(rest),
            above + all_trimmed(ls.skip(i)),
        ),
    decreases ls.len() - i,
{
    if i == ls.len() {
        assert(comment_lines_from(ls, i) + rest == rest);
        assert(above + all_trimmed(ls.skip(i)) == above);
    } else {
        reveal_strlit("# ");
        let t = trimmed(ls[i]);
        lemma_trimmed_one_line(ls[i]);
        let first = "# "@ + t;
        let behind = comment_lines_from(ls, i + 1) + rest;
        assert(comment_lines_from(ls, i) + rest == first + "\n"@ + behind);
        assert forall|j: int| 0 <= j < first.len() implies #[trigger] first[j] != '\n' by {
            if j >= 2 {
                assert(first[j] == t[j - 2]);
            }
        }
        assert(first.last() != '\r') by {
            if t.len() > 0 {
                assert(first.last() == t.last());
                assert(is_space('\r'));
            }
        }
        lemma_first_line(first, behind);
        let all = lines(first + "\n"@ + behind);
        assert(all[0] == first);
        assert(all.drop_first() == lines(behind));
        lemma_comment_line(t);
        let next = above.push(t);
        assert(comments_after(trimmed(first), above) == next);
        lemma_comments_are_read(ls, i + 1, rest, next);
        assert(next + all_trimmed(ls.skip(i + 1)) == above + all_trimmed(ls.skip(i))) by {
            assert(ls.skip(i) == seq![ls[i]] + ls.skip(i + 1));
            assert(all_trimmed(ls.skip(i)) == seq![t] + all_trimmed(ls.skip(i + 1)));
        }
    }
}

// ---------------------------------------------------------------------------
// Entries
// ---------------------------------------------------------------------------

/// Whether a name can be written so that it is read back: it is not blank, has no white space
/// around it, stands on one line without an equals sign, and cannot be taken for a comment or
/// for the word that marks an exported variable.
pub open spec fn is_writable_key(key: Seq<char>) -> bool {
    &&& key.len() > 0
    &&& is_trim(key)
    &&& is_one_line(key)
    &&& forall|i: int| 0 <= i < key.len() ==> #[trigger] key[i] != '='
    &&& key[0] != '#'
    &&& !starts(key, "export "@)
}

/// Whether a value can be written so that it is read back: it has no white space around it,
/// stands on one line, and no part of it can be taken for a comment.
pub open spec fn is_writable_value(value: Seq<char>) -> bool {
    &&& is_trim(value)
    &&& is_one_line(value)
    &&& hash_from(value, 0, None, false) is None
}

/// Whether all entries can be written so that they are read back.
pub open spec fn is_writable(env: Seq<EnvModel>) -> bool {
    forall|i: int|
        0 <= i < env.len() ==> is_writable_key((#[trigger] env[i]).key) && is_writable_value(
            env[i].value,
        )
}

/// An entry as it is read back: with a tidy comment, and as one of a file.
pub open spec fn read_back(e: EnvModel) -> EnvModel {
    EnvModel {
        key: e.key,
        value: e.value,
        comment: tidy_comment(e.comment),
        source: "template"@,
        modified: false,
    }
}

proof fn lemma_assignment_is_read(key: Seq<char>, value: Seq<char>)
    requires
        is_writable_key(key),
        is_writable_value(value),
    ensures
        ({
            let line = key + "="@ + value;
            &&& trimmed(line) == line
            &&& is_one_line(line)
            &&& line.last() != '\r'
            &&& line.len() > 0
            &&& !starts(line, "#"@)
            &&& assignment(line) == Some((key, value))
        }),
{
    reveal_strlit("=");
    reveal_strlit("#");
    reveal_strlit("export ");
    let line = key + "="@ + value;
    let n = key.len() as int;
    assert(line[0] == key[0]);
    assert(line[n] == '=');
    if value.len() > 0 {
        assert(line.last() == value.last());
    } else {
        assert(line.last() == '=');
    }
    assert(is_space('\r'));
    lemma_trim_stays(line);
    assert forall|j: int| 0 <= j < line.len() implies #[trigger] line[j] != '\n' by {
        if j < n {
            assert(line[j] == key[j]);
        } else if j > n {
            assert(line[j] == value[j - n - 1]);
        }
    }
    assert(!starts(line, "#"@)) by {
        assert(line.subrange(0, 1)[0] == line[0]);
    }
    assert(!starts(line, "export "@)) by {
        if starts(line, "export "@) {
            let head = line.subrange(0, 7);
            if n >= 7 {
                assert(key.subrange(0, 7) == head);
            } else {
                assert(head[n] == line[n]);
                assert("export "@[n] != '=');
            }
        }
    }
    lemma_find_from(line, "="@, 0);
    assert(matches_at(line, "="@, n)) by {
        assert(line.subrange(n, n + 1) == "="@);
    }
    let k = find_from(line, "="@, 0)->0;
    assert(k == n) by {
        if k < n {
            assert(line.subrange(k, k + 1)[0] == line[k]);
            assert(line[k] == key[k]);
        }
    }
    assert(line.take(n) == key);
    assert(line.skip(n + 1) == value);
    lemma_trim_stays(key);
    lemma_trim_stays(value);
}

proof fn lemma_entry_is_read(e: EnvModel, rest: Seq<char>)
    requires
        is_writable_key(e.key),
        is_writable_value(e.value),
    ensures
        entries_of(lines(rendered_entry(e) + rest), Seq::empty()) == seq![read_back(e)]
            + entries_of(lines(rest), Seq::empty()),
{
    let none = Seq::<Seq<char>>::empty();
    let line = e.key + "="@ + e.value;
    lemma_assignment_is_read(e.key, e.value);
    reveal_strlit("\n\n");
    reveal_strlit("\n");
    let tail = Seq::<char>::empty() + "\n"@ + rest;
    let body = line + "\n"@ + tail;
    assert(e.key + "="@ + e.value + "\n\n"@ + rest == body);
    lemma_first_line(line, tail);
    lemma_first_line(Seq::<char>::empty(), rest);
    assert(lines(body)[0] == line);
    assert(lines(body).drop_first() == lines(tail));
    assert(lines(tail)[0] == Seq::<char>::empty());
    assert(lines(tail).drop_first() == lines(rest));
    lemma_trim_stays(Seq::<char>::empty());
    assert(!starts(Seq::<char>::empty(), "#"@)) by {
        reveal_strlit("#");
    }
    assert(entries_of(lines(tail), none) == entries_of(lines(rest), none));
    let ls = lines(e.comment);
    let above = if trimmed(e.comment).len() > 0 {
        all_trimmed(ls)
    } else {
        none
    };
    assert(entries_of(lines(body), above) == seq![entry_of((e.key, e.value), above)] + entries_of(
        lines(tail),
        none,
    ));
    assert(value_and_comment(e.value) == (e.value, None::<Seq<char>>));
    if trimmed(e.comment).len() > 0 {
        lemma_lines_are_lines(e.comment);
        lemma_comments_are_read(ls, 0, body, none);
        assert(ls.skip(0) == ls);
        assert(none + all_trimmed(ls) == all_trimmed(ls));
        assert(rendered_entry(e) + rest == comment_lines_from(ls, 0) + body);
    } else {
        assert(rendered_entry(e) + rest == body);
        lemma_trim_stays(Seq::<char>::empty());
        assert(joined(none, "\n"@) == Seq::<char>::empty());
    }
    assert(entry_of((e.key, e.value), above) == read_back(e));
}

proof fn lemma_rendered_is_read(env: Seq<EnvModel>, i: int)
    requires
        0 <= i <= env.len(),
        is_writable(env),
    ensures
        entries_of(lines(rendered_from(env, i)), Seq::empty()) == env.skip(i).map_values(
            |e: EnvModel| read_back(e),
        ),
    decreases env.len() - i,
{
    let back = |e: EnvModel| read_back(e);
    if i == env.len() {
        assert(rendered_from(env, i) == Seq::<char>::empty());
        assert(lines(Seq::<char>::empty()) == Seq::<Seq<char>>::empty());
        assert(env.skip(i).map_values(back) == Seq::<EnvModel>::empty());
    } else {
        lemma_rendered_is_read(env, i + 1);
        lemma_entry_is_read(env[i], rendered_from(env, i + 1));
        assert(env.skip(i) == seq![env[i]] + env.skip(i + 1));
        assert(env.skip(i).map_values(back) == seq![read_back(env[i])] + env.skip(
            i + 1,
        ).map_values(back));
    }
}

/// What is written is read back: the same entries in the same order, with their keys and
/// values, and with their comments tidied up.
pub proof fn law_written_entries_are_read_back(env: Seq<EnvModel>)
    requires
        is_writable(env),
    ensures
        env_entries(rendered(env)) == env.map_values(|e: EnvModel| read_back(e)),
{
    lemma_rendered_is_read(env, 0);
    assert(env.skip(0) == env);
}

// ---------------------------------------------------------------------------
// What was read
// ---------------------------------------------------------------------------

/// Whether a line feed at the given position, if there is one, has no other white space beside
/// it.
spec fn is_bare_at(s: Seq<char>, i: int) -> bool {
    0 <= i < s.len() && s[i] == '\n' ==> (i == 0 || s[i - 1] == '\n' || !is_space(s[i - 1])) && (i
        + 1 == s.len() || s[i + 1] == '\n' || !is_space(s[i + 1]))
}

/// Whether no line of a text has white space around it, but perhaps the first at its start and
/// the last at its end.
spec fn has_trim_lines(s: Seq<char>) -> bool {
    forall|i: int| #[trigger] is_bare_at(s, i)
}

/// Whether all texts are lines without white space around them.
pub open spec fn are_trim_lines(ls: Seq<Seq<char>>) -> bool {
    forall|k: int| 0 <= k < ls.len() ==> is_trim(#[trigger] ls[k]) && is_one_line(ls[k])
}

proof fn lemma_joined_has_trim_lines(ls: Seq<Seq<char>>, i: int)
    requires
        0 <= i <= ls.len(),
        are_trim_lines(ls),
    ensures
        has_trim_lines(joined_from(ls, "\n"@, i)),
        i > 0 && joined_from(ls, "\n"@, i).len() > 0 ==> joined_from(ls, "\n"@, i)[0] == '\n',
    decreases ls.len() - i,
{
    reveal_strlit("\n");
    if i < ls.len() {
        lemma_joined_has_trim_lines(ls, i + 1);
        let head = if i == 0 {
            Seq::empty()
        } else {
            "\n"@
        };
        let n = head.len() as int;
        let l = ls[i];
        let m = l.len() as int;
        let y = joined_from(ls, "\n"@, i + 1);
        let s = joined_from(ls, "\n"@, i);
        assert(s == head + l + y);
        assert forall|j: int| #[trigger] is_bare_at(s, j) by {
            assert(is_bare_at(y, j - n - m));
            if j < 0 {
            } else if j < n {
                if m > 0 {
                    assert(s[j + 1] == l[0]);
                } else if y.len() > 0 {
                    assert(s[j + 1] == y[0]);
                }
            } else if j < n + m {
                assert(s[j] == l[j - n]);
            } else if j < s.len() {
                let k = j - n - m;
                assert(s[j] == y[k]);
                if k > 0 {
                    assert(s[j - 1] == y[k - 1]);
                } else if m > 0 {
                    assert(s[j - 1] == l[m - 1]);
                } else if n > 0 {
                    assert(s[j - 1] == '\n');
                }
                if j + 1 < s.len() {
                    assert(s[j + 1] == y[k + 1]);
                }
            }
        }
    }
}

proof fn lemma_trim_lines_within(s: Seq<char>, a: int, b: int)
    requires
        0 <= a <= b <= s.len(),
        has_trim_lines(s),
    ensures
        has_trim_lines(s.subrange(a, b)),
{
    let t = s.subrange(a, b);
    assert forall|i: int| #[trigger] is_bare_at(t, i) by {
        assert(is_bare_at(s, a + i));
    }
}

proof fn lemma_joined_from_shift(a: Seq<char>, ps: Seq<Seq<char>>, sep: Seq<char>, i: int)
    requires
        1 <= i <= ps.len(),
    ensures
        joined_from(seq![a] + ps, sep, i + 1) == joined_from(ps, sep, i),
    decreases ps.len() - i,
{
    if i < ps.len() {
        lemma_joined_from_shift(a, ps, sep, i + 1);
        assert((seq![a] + ps)[i + 1] == ps[i]);
    }
}

/// Joined texts are the first, the separator, and the others joined.
pub proof fn lemma_joined_first(a: Seq<char>, ps: Seq<Seq<char>>, sep: Seq<char>)
    requires
        ps.len() > 0,
    ensures
        joined(seq![a] + ps, sep) == a + sep + joined(ps, sep),
{
    let all = seq![a] + ps;
    lemma_joined_from_shift(a, ps, sep, 1);
    assert(all[0] == a && all[1] == ps[0]);
    assert(joined_from(all, sep, 0) == a + joined_from(all, sep, 1));
    assert(joined_from(all, sep, 1) == sep + ps[0] + joined_from(all, sep, 2));
    assert(joined_from(ps, sep, 0) == ps[0] + joined_from(ps, sep, 1));
    assert(joined(all, sep) == a + sep + joined(ps, sep));
}

proof fn lemma_only_chunk(s: Seq<char>, i: int)
    requires
        0 <= i <= s.len(),
        s.len() > 0,
        is_one_line(s),
    ensures
        chunks_from(s, 0, i) == seq![s],
    decreases s.len() - i,
{
    if i < s.len() {
        lemma_only_chunk(s, i + 1);
    } else {
        assert(s.skip(0) == s);
    }
}

/// A text whose lines have no white space around them is what its lines make up.
proof fn lemma_trim_lines_join(s: Seq<char>)
    requires
        s.len() > 0,
        has_trim_lines(s),
        !is_space(s.last()),
        s[0] == '\n' || !is_space(s[0]),
    ensures
        all_trimmed(lines(s)) == lines(s),
        lines(s).len() > 0,
        joined(lines(s), "\n"@) == s,
    decreases s.len(),
{
    reveal_strlit("\n");
    lemma_find_from(s, "\n"@, 0);
    assert(is_space('\n'));
    assert(is_space('\r'));
    if find_from(s, "\n"@, 0) is None {
        assert forall|i: int| 0 <= i < s.len() implies #[trigger] s[i] != '\n' by {
            if s[i] == '\n' {
                assert(s.subrange(i, i + 1) == "\n"@);
                assert(matches_at(s, "\n"@, i));
            }
        }
        lemma_only_chunk(s, 0);
        assert(lines(s) == seq![s]);
        lemma_trim_stays(s);
        assert(all_trimmed(lines(s)) == lines(s));
        assert(joined_from(seq![s], "\n"@, 1) == Seq::<char>::empty());
        assert(joined(seq![s], "\n"@) == s);
    } else {
        let n = find_from(s, "\n"@, 0)->0;
        assert(s.subrange(n, n + 1)[0] == s[n]);
        assert(s[n] == '\n');
        assert(is_bare_at(s, n));
        assert(n < s.len() - 1);
        let a = s.take(n);
        let b = s.skip(n + 1);
        assert(s == a + "\n"@ + b);
        assert forall|i: int| 0 <= i < a.len() implies #[trigger] a[i] != '\n' by {
            assert(a[i] == s[i]);
            if s[i] == '\n' {
                assert(s.subrange(i, i + 1) == "\n"@);
                assert(matches_at(s, "\n"@, i));
            }
        }
        if n > 0 {
            assert(a.last() == s[n - 1]);
            assert(a.last() != '\n');
            assert(a[0] == s[0]);
        }
        lemma_first_line(a, b);
        assert(b.last() == s.last());
        assert(b[0] == s[n + 1]);
        lemma_trim_lines_within(s, n + 1, s.len() as int);
        assert(s.subrange(n + 1, s.len() as int) == b);
        lemma_trim_lines_join(b);
        lemma_trim_stays(a);
        assert(all_trimmed(seq![a] + lines(b)) == seq![a] + all_trimmed(lines(b)));
        lemma_joined_first(a, lines(b), "\n"@);
    }
}

/// A comment made up of lines without white space around them is tidy once it is trimmed.
proof fn lemma_read_comment_is_tidy(ls: Seq<Seq<char>>)
    requires
        are_trim_lines(ls),
    ensures
        ({
            let c = trimmed(joined(ls, "\n"@));
            tidy_comment(c) == c
        }),
{
    let s = joined(ls, "\n"@);
    let c = trimmed(s);
    lemma_joined_has_trim_lines(ls, 0);
    let r = lemma_trimmed(s);
    lemma_trim_stays(c);
    if c.len() > 0 {
        lemma_trim_lines_within(s, r.0, r.1);
        lemma_trim_lines_join(c);
    }
}

/// The prefix of a raw value up to its inline comment holds none.
proof fn lemma_no_hash_before(
    raw: Seq<char>,
    m: int,
    i: int,
    quote: Option<char>,
    escaped: bool,
)
    requires
        0 <= i,
        0 <= m <= raw.len(),
        hash_from(raw, i, quote, escaped) matches Some(k) ==> m <= k,
    ensures
        hash_from(raw.take(m), i, quote, escaped) is None,
    decreases m - i,
{
    if i < m {
        let c = raw[i];
        assert(raw.take(m)[i] == c);
        if i > 0 {
            assert(raw.take(m)[i - 1] == raw[i - 1]);
        }
        if escaped {
            lemma_no_hash_before(raw, m, i + 1, quote, false);
        } else if c == '\\' && quote == Some('"') {
            lemma_no_hash_before(raw, m, i + 1, quote, true);
        } else if c == '\'' || c == '"' {
            let next = if quote == Some(c) {
                None
            } else if quote is None {
                Some(c)
            } else {
                quote
            };
            lemma_no_hash_before(raw, m, i + 1, next, false);
        } else {
            lemma_no_hash_before(raw, m, i + 1, quote, false);
        }
    }
}

proof fn lemma_hash_place(raw: Seq<char>, i: int, quote: Option<char>, escaped: bool)
    requires
        0 <= i,
    ensures
        hash_from(raw, i, quote, escaped) matches Some(k) ==> i <= k < raw.len(),
    decreases raw.len() - i,
{
    if i < raw.len() {
        let c = raw[i];
        if escaped {
            lemma_hash_place(raw, i + 1, quote, false);
        } else if c == '\\' && quote == Some('"') {
            lemma_hash_place(raw, i + 1, quote, true);
        } else if c == '\'' || c == '"' {
            let next = if quote == Some(c) {
                None
            } else if quote is None {
                Some(c)
            } else {
                quote
            };
            lemma_hash_place(raw, i + 1, next, false);
        } else {
            lemma_hash_place(raw, i + 1, quote, false);
        }
    }
}

/// A value that was read can be written, and the comment beside it is a trimmed line.
proof fn lemma_read_value(raw: Seq<char>)
    requires
        is_trim(raw),
        is_one_line(raw),
    ensures
        is_writable_value(value_and_comment(raw).0),
        value_and_comment(raw).1 matches Some(c) ==> is_trim(c) && is_one_line(c),
{
    lemma_hash_place(raw, 0, None, false);
    if let Some(k) = hash_from(raw, 0, None, false) {
        let head = raw.take(k);
        let m = lemma_trimmed_end(head);
        let v = head.take(m);
        assert(v == raw.take(m));
        if m > 0 {
            assert(v.last() == head[m - 1]);
            assert(v[0] == raw[0]);
        }
        assert forall|i: int| 0 <= i < v.len() implies #[trigger] v[i] != '\n' by {
            assert(v[i] == raw[i]);
        }
        lemma_no_hash_before(raw, m, 0, None, false);
        let rest = raw.skip(k + 1);
        assert forall|i: int| 0 <= i < rest.len() implies #[trigger] rest[i] != '\n' by {
            assert(rest[i] == raw[k + 1 + i]);
        }
        lemma_trimmed_one_line(rest);
    }
}

/// Whether a name has the form of one that was read.
pub open spec fn is_read_key(key: Seq<char>) -> bool {
    &&& key.len() > 0
    &&& is_trim(key)
    &&& is_one_line(key)
    &&& forall|i: int| 0 <= i < key.len() ==> #[trigger] key[i] != '='
}

/// Whether an entry has the form of one that was read.
pub open spec fn is_read_entry(e: EnvModel) -> bool {
    &&& is_read_key(e.key)
    &&& is_writable_value(e.value)
    &&& tidy_comment(e.comment) == e.comment
    &&& e.source == "template"@
    &&& !e.modified
}

proof fn lemma_read_assignment(line: Seq<char>)
    requires
        is_one_line(line),
    ensures
        assignment(line) matches Some(p) ==> is_read_key(p.0) && is_trim(p.1) && is_one_line(p.1),
{
    reveal_strlit("=");
    reveal_strlit("export ");
    let body = match after_prefix(line, "export "@) {
        Some(rest) => rest,
        None => line,
    };
    let off = line.len() - body.len();
    assert forall|i: int| 0 <= i < body.len() implies #[trigger] body[i] != '\n' by {
        assert(body[i] == line[off + i]);
    }
    lemma_find_from(body, "="@, 0);
    if let Some(k) = find_from(body, "="@, 0) {
        let a = body.take(k);
        let b = body.skip(k + 1);
        assert forall|i: int| 0 <= i < a.len() implies #[trigger] a[i] != '\n' && a[i] != '=' by {
            assert(a[i] == body[i]);
            if body[i] == '=' {
                assert(body.subrange(i, i + 1) == "="@);
                assert(matches_at(body, "="@, i));
            }
        }
        assert forall|i: int| 0 <= i < b.len() implies #[trigger] b[i] != '\n' by {
            assert(b[i] == body[k + 1 + i]);
        }
        lemma_trimmed_one_line(a);
        lemma_trimmed_one_line(b);
        let r = lemma_trimmed(a);
        assert forall|i: int| 0 <= i < trimmed(a).len() implies #[trigger] trimmed(a)[i] != '=' by {
            assert(trimmed(a)[i] == a[r.0 + i]);
        }
    }
}

proof fn lemma_strip_set_start_is_suffix(s: Seq<char>, set: Seq<char>) -> (k: int)
    ensures
        0 <= k <= s.len(),
        strip_set_start(s, set) == s.skip(k),
    decreases s.len(),
{
    if s.len() > 0 && set.contains(s[0]) {
        let k = lemma_strip_set_start_is_suffix(s.skip(1), set);
        assert(s.skip(1).skip(k) == s.skip(k + 1));
        k + 1
    } else {
        assert(s.skip(0) == s);
        0
    }
}

proof fn lemma_read_comment(line: Seq<char>, above: Seq<Seq<char>>)
    requires
        is_one_line(line),
        are_trim_lines(above),
    ensures
        are_trim_lines(comments_after(line, above)),
{
    let k = lemma_strip_set_start_is_suffix(line, "#"@);
    let t = line.skip(k);
    assert forall|i: int| 0 <= i < t.len() implies #[trigger] t[i] != '\n' by {
        assert(t[i] == line[k + i]);
    }
    lemma_trimmed_one_line(t);
    let next = comments_after(line, above);
    assert forall|j: int| 0 <= j < next.len() implies is_trim(#[trigger] next[j]) && is_one_line(
        next[j],
    ) by {
        if j < above.len() {
            assert(next[j] == above[j]);
        }
    }
}

proof fn lemma_entries_are_read(ls: Seq<Seq<char>>, above: Seq<Seq<char>>, k: int)
    requires
        forall|i: int| 0 <= i < ls.len() ==> is_one_line(#[trigger] ls[i]),
        are_trim_lines(above),
        0 <= k < entries_of(ls, above).len(),
    ensures
        is_read_entry(entries_of(ls, above)[k]),
    decreases ls.len(),
{
    if ls.len() > 0 {
        let line = trimmed(ls[0]);
        lemma_trimmed_one_line(ls[0]);
        let rest = ls.drop_first();
        assert forall|i: int| 0 <= i < rest.len() implies is_one_line(#[trigger] rest[i]) by {
            assert(rest[i] == ls[i + 1]);
        }
        if starts(line, "#"@) || line.len() == 0 || assignment(line) is None {
            lemma_read_comment(line, above);
            lemma_entries_are_read(rest, comments_after(line, above), k);
        } else {
            lemma_read_assignment(line);
            if k == 0 {
                let p = assignment(line)->0;
                lemma_read_value(p.1);
                let all = match value_and_comment(p.1).1 {
                    Some(beside) => above.push(beside),
                    None => above,
                };
                assert forall|j: int| 0 <= j < all.len() implies is_trim(#[trigger] all[j])
                    && is_one_line(all[j]) by {
                    if j < above.len() {
                        assert(all[j] == above[j]);
                    }
                }
                lemma_read_comment_is_tidy(all);
            } else {
                lemma_entries_are_read(rest, Seq::empty(), k - 1);
            }
        }
    }
}

/// A file that is read, written and read again gives the same entries, comments and all. Left
/// out are names that start with a hash sign or with the word for exported variables, which
/// only a line that exports them can have.
pub proof fn law_rewritten_files_read_the_same(content: Seq<char>)
    requires
        forall|i: int|
            0 <= i < env_entries(content).len() ==> (#[trigger] env_entries(content)[i]).key[0]
                != '#' && !starts(env_entries(content)[i].key, "export "@),
    ensures
        env_entries(rendered(env_entries(content))) == env_entries(content),
{
    let env = env_entries(content);
    lemma_lines_are_lines(content);
    assert forall|i: int| 0 <= i < env.len() implies is_read_entry(#[trigger] env[i]) by {
        lemma_entries_are_read(lines(content), Seq::empty(), i);
    }
    law_written_entries_are_read_back(env);
    assert(env.map_values(|e: EnvModel| read_back(e)) == env);
}

// ---------------------------------------------------------------------------
// The vault
// ---------------------------------------------------------------------------

/// The first entry with a key.
pub open spec fn entry_named(env: Seq<EnvModel>, key: Seq<char>) -> Option<EnvModel> {
    let k = position_from(env, key, 0);
    if k < env.len() {
        Some(env[k])
    } else {
        None
    }
}

/// Whether no key occurs twice.
pub open spec fn has_distinct_keys(env: Seq<EnvModel>) -> bool {
    forall|i: int, j: int|
        0 <= i < j < env.len() ==> (#[trigger] env[i]).key != (#[trigger] env[j]).key
}

proof fn lemma_position_from(env: Seq<EnvModel>, key: Seq<char>, i: int)
    requires
        0 <= i <= env.len(),
    ensures
        i <= position_from(env, key, i) <= env.len(),
        position_from(env, key, i) < env.len() ==> env[position_from(env, key, i)].key == key,
        forall|j: int| i <= j < position_from(env, key, i) ==> (#[trigger] env[j]).key != key,
    decreases env.len() - i,
{
    if i < env.len() && env[i].key != key {
        lemma_position_from(env, key, i + 1);
    }
}

/// Saving one entry leaves the entries with other keys alone.
proof fn lemma_vault_with_keeps_others(vault: Seq<EnvModel>, e: EnvModel, key: Seq<char>)
    requires
        key != e.key,
    ensures
        entry_named(vault_with(vault, e), key) == entry_named(vault, key),
{
    let after = vault_with(vault, e);
    let m = position_from(vault, key, 0);
    let n = position_from(after, key, 0);
    lemma_position_from(vault, e.key, 0);
    lemma_position_from(vault, key, 0);
    lemma_position_from(after, key, 0);
    if m < vault.len() {
        assert(after[m] == vault[m]);
        if n < m {
            assert(after[n].key == vault[n].key);
        }
    } else if n < after.len() {
        if n < vault.len() {
            assert(after[n].key == vault[n].key);
        }
    }
}

proof fn lemma_vault_with_keeps_keys_distinct(vault: Seq<EnvModel>, e: EnvModel)
    requires
        has_distinct_keys(vault),
    ensures
        has_distinct_keys(vault_with(vault, e)),
{
    let after = vault_with(vault, e);
    lemma_position_from(vault, e.key, 0);
    assert forall|i: int, j: int| 0 <= i < j < after.len() implies (#[trigger] after[i]).key != (
    #[trigger] after[j]).key by {
        assert(i < vault.len() ==> after[i].key == vault[i].key);
        assert(j < vault.len() ==> after[j].key == vault[j].key);
    }
}

/// Ports are a matter of an instance: saving its environment neither changes nor adds an
/// entry of the vault that is one.
pub proof fn law_ports_stay_out_of_the_vault(
    vault: Seq<EnvModel>,
    env: Seq<EnvModel>,
    i: int,
    count: int,
    key: Seq<char>,
)
    requires
        0 <= i,
        is_service_port_key(key),
    ensures
        entry_named(shared_from(vault, env, false, i, count).0, key) == entry_named(vault, key),
    decreases env.len() - i,
{
    if i < env.len() {
        if is_shared(env[i], false) {
            lemma_vault_with_keeps_others(vault, env[i], key);
            law_ports_stay_out_of_the_vault(
                vault_with(vault, env[i]),
                env,
                i + 1,
                count + 1,
                key,
            );
        } else {
            law_ports_stay_out_of_the_vault(vault, env, i + 1, count, key);
        }
    }
}

/// Saving an environment keeps the keys of the vault distinct.
pub proof fn law_sharing_keeps_keys_distinct(
    vault: Seq<EnvModel>,
    env: Seq<EnvModel>,
    ports_too: bool,
    i: int,
    count: int,
)
    requires
        0 <= i,
        has_distinct_keys(vault),
    ensures
        has_distinct_keys(shared_from(vault, env, ports_too, i, count).0),
    decreases env.len() - i,
{
    if i < env.len() {
        if is_shared(env[i], ports_too) {
            lemma_vault_with_keeps_keys_distinct(vault, env[i]);
            law_sharing_keeps_keys_distinct(
                vault_with(vault, env[i]),
                env,
                ports_too,
                i + 1,
                count + 1,
            );
        } else {
            law_sharing_keeps_keys_distinct(vault, env, ports_too, i + 1, count);
        }
    }
}

proof fn lemma_accepted_from(env: Seq<EnvModel>, i: int, j: int)
    requires
        0 <= i <= j < env.len(),
        vault_fault_from(env, i) is None,
    ensures
        trimmed(env[j].key).len() > 0,
        forall|k: int| 0 <= k < j ==> trimmed((#[trigger] env[k]).key) != trimmed(env[j].key),
    decreases j - i,
{
    if i < j {
        lemma_accepted_from(env, i + 1, j);
    }
}

/// A vault that is accepted holds no blank key and none twice, and each without white space
/// around it; accepting it again changes nothing.
pub proof fn law_accepted_vault_is_clean(env: Seq<EnvModel>)
    requires
        vault_fault_from(env, 0) is None,
    ensures
        has_distinct_keys(vault_kept(env)),
        forall|i: int|
            0 <= i < env.len() ==> (#[trigger] vault_kept(env)[i]).key.len() > 0 && trimmed(
                vault_kept(env)[i].key,
            ) == vault_kept(env)[i].key,
        vault_kept(vault_kept(env)) == vault_kept(env),
{
    let kept = vault_kept(env);
    assert forall|i: int| 0 <= i < env.len() implies (#[trigger] kept[i]).key.len() > 0 && trimmed(
        kept[i].key,
    ) == kept[i].key by {
        lemma_accepted_from(env, 0, i);
        let r = lemma_trimmed(env[i].key);
        lemma_trim_stays(trimmed(env[i].key));
    }
    assert forall|i: int, j: int| 0 <= i < j < kept.len() implies (#[trigger] kept[i]).key != (
    #[trigger] kept[j]).key by {
        lemma_accepted_from(env, 0, j);
        assert(trimmed(env[i].key) != trimmed(env[j].key));
    }
    assert(vault_kept(kept) == kept);
}

// ---------------------------------------------------------------------------
// What an instance keeps for itself
// ---------------------------------------------------------------------------

/// The vault sets no port of an instance, and puts no container host where the template names
/// this machine; the key of an entry, and whether it was modified, stay in any case.
pub proof fn law_vault_leaves_instance_values_alone(e: EnvModel, vault: Seq<EnvModel>)
    ensures
        merged_entry(e, vault).key == e.key,
        merged_entry(e, vault).modified == e.modified,
        is_service_port_key(e.key) ==> merged_entry(e, vault).value == e.value,
        is_loopback_url(e.value) && is_address_key(e.key) ==> !is_container_url(
            merged_entry(e, vault).value,
        ),
{
}

/// Merging with the same vault once more changes nothing.
pub proof fn law_merging_again_changes_nothing(env: Seq<EnvModel>, vault: Seq<EnvModel>)
    ensures
        merged(merged(env, vault), vault) == merged(env, vault),
{
    let once = merged(env, vault);
    let twice = merged(once, vault);
    assert forall|i: int| 0 <= i < env.len() implies #[trigger] twice[i] == once[i] by {
        assert(once[i] == merged_entry(env[i], vault));
        assert(twice[i] == merged_entry(once[i], vault));
        match last_entry(vault, env[i].key) {
            None => {},
            Some(saved) => {
                if saved.comment.len() == 0 {
                    assert(saved.comment == Seq::<char>::empty());
                }
            },
        }
    }
    assert(twice == once);
}

/// Whether no port that ports moved to is one that a port was moved from.
pub open spec fn moves_settle(changes: Seq<ChangeModel>) -> bool {
    forall|i: int, j: int|
        0 <= i < changes.len() && 0 <= j < changes.len() ==> (#[trigger] changes[i]).new_port != (
        #[trigger] changes[j]).old_port
}

proof fn lemma_change_of(changes: Seq<ChangeModel>, port: int, i: int)
    requires
        0 <= i,
    ensures
        change_of(changes, port, i) matches Some(c) ==> exists|k: int|
            i <= k < changes.len() && #[trigger] changes[k] == c && c.old_port == port,
        change_of(changes, port, i) is None ==> forall|k: int|
            i <= k < changes.len() ==> (#[trigger] changes[k]).old_port != port,
    decreases changes.len() - i,
{
    if i < changes.len() && changes[i].old_port != port {
        lemma_change_of(changes, port, i + 1);
    }
}

/// Only endpoints on this machine that name a moved port follow it: one that names another
/// port, and any other entry, stays as it is.
pub proof fn law_only_moved_ports_are_followed(e: EnvModel, changes: Seq<ChangeModel>)
    requires
        forall|k: int|
            0 <= k < changes.len() ==> url_port(e.value) != Some(
                (#[trigger] changes[k]).old_port as int,
            ),
    ensures
        endpoint_follows(e, changes) == e,
{
    if url_port(e.value) is Some {
        lemma_change_of(changes, url_port(e.value)->0, 0);
    }
}

/// Following the same moves once more changes nothing, where no port moves to one that another
/// moved from.
pub proof fn law_following_again_changes_nothing(e: EnvModel, changes: Seq<ChangeModel>)
    requires
        moves_settle(changes),
    ensures
        endpoint_follows(endpoint_follows(e, changes), changes) == endpoint_follows(e, changes),
{
    let once = endpoint_follows(e, changes);
    if once != e {
        let c = change_of(changes, url_port(e.value)->0, 0)->0;
        lemma_change_of(changes, url_port(e.value)->0, 0);
        let port = c.new_port as nat;
        assert(once.value == with_url_port(e.value, port));
        let tail = url_parts(e.value)->0.tail;
        if tail.len() > 0 && tail[0] != '/' {
            law_ports_in_queries_stay(e.value, port);
            law_last_port_wins(e.value, port, port);
        } else {
            law_set_port_is_read_back(e.value, port);
            law_only_moved_ports_are_followed(once, changes);
        }
    }
}

/// An address that names a domain other than the template's, and one on this machine, is not
/// restored.
pub proof fn law_chosen_hosts_are_not_restored(e: EnvModel, examples: Seq<EnvModel>)
    requires
        is_loopback_url(e.value) || (names_domain(e.value) && (example_of(
            examples,
            e.key,
            0,
        ) matches Some(example) ==> host_of(e.value) != host_of(example.value))),
    ensures
        restored(e, examples) == e,
{
}

/// An address inside a container network keeps its port whichever ports of services were
/// resolved or moved, and whatever the lifecycle names.
pub proof fn law_container_addresses_keep_their_ports(
    e: EnvModel,
    ports: Seq<(Seq<char>, int)>,
    changes: Seq<ChangeModel>,
    i: int,
)
    requires
        !is_loopback_url(e.value),
    ensures
        address_follows_from(e, ports, i) == e,
        lifecycle_follows(e, ports) == e,
        endpoint_follows(e, changes) == e,
    decreases ports.len() - i,
{
    if 0 <= i < ports.len() {
        law_container_addresses_keep_their_ports(e, ports, changes, i + 1);
    }
}

} // verus!
