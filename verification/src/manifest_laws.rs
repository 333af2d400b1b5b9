//! Laws of manifests that follow the environment: which lines change, and to what.

use crate::env_laws::{
    is_one_line, lemma_chunks_shift, lemma_first_chunk, lemma_trim_stays, lemma_trimmed,
};
use crate::lifecycle::{
    assigns_name, comment_from, env_port, env_value, line_parts, name_line, named_from, quoted_span,
    section_after, section_env_key, section_parts, section_service, synced_from, synced_line,
    synced_manifest, url_keys, with_project_name, with_span,
};
use crate::mapping_laws::lemma_trimmed_core;
use crate::models::EnvModel;
use crate::ports::is_service_port_key;
use crate::rewrite::lemma_chunks_split;
use crate::text::{
    chunks, cut, ends, find, find_any_from, find_from, holds, is_space, lemma_find_any_from,
    lemma_find_from, matches_at, starts, strip_set, trimmed, trimmed_end, trimmed_start,
};
use crate::urls::with_url_port;
use vstd::prelude::*;
use vstd::string::*;

verus! {

/// The chunks of a text whose first line ends with a line feed.
proof fn lemma_chunks_of_two(a: Seq<char>, b: Seq<char>)
    requires
        is_one_line(a),
    ensures
        chunks(a + "\n"@ + b) == seq![a + "\n"@] + chunks(b),
{
    reveal_strlit("\n");
    let s = a + "\n"@ + b;
    let n = a.len() as int;
    assert forall|j: int| 0 <= j < n implies #[trigger] s[j] != '\n' by {
        assert(s[j] == a[j]);
    }
    lemma_first_chunk(s, n, 0);
    lemma_chunks_shift(s, n + 1, n + 1, n + 1);
    assert(s.skip(n + 1) == b);
    assert(s.subrange(0, n + 1) == a + "\n"@);
}

proof fn lemma_synced_shift(
    first: Seq<char>,
    ls: Seq<Seq<char>>,
    env: Seq<EnvModel>,
    i: int,
    open: (Option<Seq<char>>, Option<Seq<char>>),
)
    requires
        0 <= i,
    ensures
        synced_from(seq![first] + ls, env, i + 1, open) == synced_from(ls, env, i, open),
    decreases ls.len() - i,
{
    if i < ls.len() {
        assert((seq![first] + ls)[i + 1] == ls[i]);
        lemma_synced_shift(first, ls, env, i + 1, section_after(ls[i], open));
    }
}

/// A manifest read line by line.
proof fn lemma_synced_first(
    a: Seq<char>,
    b: Seq<char>,
    env: Seq<EnvModel>,
    open: (Option<Seq<char>>, Option<Seq<char>>),
)
    requires
        is_one_line(a),
    ensures
        ({
            let now = section_after(a + "\n"@, open);
            synced_from(chunks(a + "\n"@ + b), env, 0, open) == synced_line(a + "\n"@, now, env)
                + synced_from(chunks(b), env, 0, now)
        }),
{
    lemma_chunks_of_two(a, b);
    let now = section_after(a + "\n"@, open);
    lemma_synced_shift(a + "\n"@, chunks(b), env, 0, now);
}

/// What stands above a header does not reach into its section, and the section does not depend on
/// it.
proof fn lemma_synced_apart(
    head: Seq<char>,
    section: Seq<char>,
    env: Seq<EnvModel>,
    open: (Option<Seq<char>>, Option<Seq<char>>),
    other: (Option<Seq<char>>, Option<Seq<char>>),
)
    requires
        head.len() > 0 ==> head.last() == '\n',
        section.len() > 0,
        section[0] == '[',
    ensures
        synced_from(chunks(head + section), env, 0, open) == synced_from(chunks(head), env, 0, open)
            + synced_from(chunks(section), env, 0, other),
    decreases head.len(),
{
    reveal_strlit("\n");
    reveal_strlit("[");
    if head.len() == 0 {
        assert(head + section == section);
        assert(chunks(head) == Seq::<Seq<char>>::empty());
        let n = lemma_chunks_split(section);
        let first = section.take(n);
        assert(first[0] == '[');
        let r = lemma_trimmed(first);
        assert(!is_space('['));
        assert(r.0 == 0 && r.1 > 0);
        assert(trimmed(first)[0] == '[');
        assert(trimmed(first).subrange(0, 1) == "["@);
        assert(starts(trimmed(first), "["@));
        assert(chunks(section)[0] == first);
        assert(section_after(first, open) == section_after(first, other));
        assert(synced_from(chunks(section), env, 0, open) == synced_from(
            chunks(section),
            env,
            0,
            other,
        ));
        assert(Seq::<char>::empty() + synced_from(chunks(section), env, 0, other) == synced_from(
            chunks(section),
            env,
            0,
            other,
        ));
    } else {
        let n = lemma_chunks_split(head);
        assert(head[n - 1] == '\n') by {
            if n == head.len() {
                assert(head.last() == '\n');
            }
        }
        let a = head.take(n - 1);
        let rest = head.skip(n);
        assert(is_one_line(a));
        assert(head == a + "\n"@ + rest);
        assert(head + section == a + "\n"@ + (rest + section));
        if rest.len() > 0 {
            assert(rest.last() == head.last());
        }
        let now = section_after(a + "\n"@, open);
        lemma_synced_first(a, rest, env, open);
        lemma_synced_first(a, rest + section, env, open);
        lemma_synced_apart(rest, section, env, now, other);
        let line = synced_line(a + "\n"@, now, env);
        let x = synced_from(chunks(rest), env, 0, now);
        let y = synced_from(chunks(section), env, 0, other);
        assert(line + (x + y) == (line + x) + y);
    }
}

/// The sections of a manifest follow the environment each on its own: a manifest cut before a
/// header is synchronized in two.
pub proof fn law_sections_follow_on_their_own(
    head: Seq<char>,
    section: Seq<char>,
    env: Seq<EnvModel>,
)
    requires
        head.len() > 0 ==> head.last() == '\n',
        section.len() > 0,
        section[0] == '[',
    ensures
        synced_manifest(head + section, env) == synced_manifest(head, env) + synced_manifest(
            section,
            env,
        ),
{
    lemma_synced_apart(head, section, env, (None, None), (None, None));
}

// ---------------------------------------------------------------------------
// Headers
// ---------------------------------------------------------------------------

/// Whether a text can stand in a header without quotes.
pub open spec fn is_bare_name(name: Seq<char>) -> bool {
    &&& name.len() > 0
    &&& forall|i: int|
        0 <= i < name.len() ==> !is_space(#[trigger] name[i]) && name[i] != '\'' && name[i] != '"'
            && name[i] != '.'
}

/// The header of a section, without its line feed.
pub open spec fn header_of(group: Seq<char>, name: Seq<char>) -> Seq<char> {
    "["@ + group + "."@ + name + "]"@
}

proof fn lemma_header(group: Seq<char>, name: Seq<char>)
    requires
        is_bare_name(group),
        is_bare_name(name),
    ensures
        is_one_line(header_of(group, name)),
        trimmed(header_of(group, name) + "\n"@) == header_of(group, name),
        starts(header_of(group, name), "["@),
        section_parts(header_of(group, name)) == Some((group, name)),
{
    reveal_strlit("[");
    reveal_strlit("]");
    reveal_strlit(".");
    reveal_strlit("\n");
    reveal_strlit("'\"");
    let h = header_of(group, name);
    assert(is_space('\n') && !is_space('[') && !is_space(']') && !is_space('.'));
    let inner = group + "."@ + name;
    assert(h == "["@ + inner + "]"@);
    assert forall|i: int| 0 <= i < inner.len() implies !is_space(#[trigger] inner[i]) by {
        if i < group.len() {
            assert(inner[i] == group[i]);
        } else if i > group.len() {
            assert(inner[i] == name[i - group.len() - 1]);
        }
    }
    assert(is_one_line(h)) by {
        assert forall|i: int| 0 <= i < h.len() implies #[trigger] h[i] != '\n' by {
            if 0 < i < h.len() - 1 {
                assert(h[i] == inner[i - 1]);
            }
        }
    }
    assert(Seq::<char>::empty() + h + "\n"@ == h + "\n"@);
    lemma_trimmed_core(Seq::empty(), h, "\n"@);
    assert(h.subrange(0, 1) == "["@);
    let rest = h.skip(1);
    assert(rest == inner + "]"@);
    assert(rest.subrange(rest.len() - 1, rest.len() as int) == "]"@);
    assert(rest.take(rest.len() - 1) == inner);
    lemma_trim_stays(inner);
    let n = group.len() as int;
    lemma_find_from(inner, "."@, 0);
    assert(inner.subrange(n, n + 1) == "."@);
    assert(matches_at(inner, "."@, n));
    assert forall|j: int| 0 <= j < n implies !matches_at(inner, "."@, j) by {
        if matches_at(inner, "."@, j) {
            assert(inner.subrange(j, j + 1)[0] == inner[j]);
            assert(inner[j] == group[j]);
        }
    }
    assert(find(inner, "."@) == Some(n));
    assert(inner.take(n) == group && inner.skip(n + 1) == name);
    assert(!is_space(group[0]) && !is_space(group[group.len() - 1]));
    assert(!is_space(name[0]) && !is_space(name[name.len() - 1]));
    lemma_trim_stays(group);
    lemma_trim_stays(name);
    let set = "'\""@;
    assert(set[0] == '\'' && set[1] == '"');
    assert(!set.contains(name[0]) && !set.contains(name[name.len() - 1]));
    assert(strip_set(name, set) == name);
}

// ---------------------------------------------------------------------------
// Lines with a quoted value
// ---------------------------------------------------------------------------

/// Where the quoted value of a line is.
proof fn lemma_quoted_value(
    left: Seq<char>,
    gap: Seq<char>,
    quote: char,
    value: Seq<char>,
    right: Seq<char>,
    keys: Seq<Seq<char>>,
)
    requires
        forall|i: int| 0 <= i < left.len() ==> #[trigger] left[i] != '=',
        forall|i: int| 0 <= i < gap.len() ==> is_space(#[trigger] gap[i]),
        quote == '"' || quote == '\'',
        forall|i: int| 0 <= i < value.len() ==> #[trigger] value[i] != quote,
        keys.contains(trimmed(left)),
    ensures
        ({
            let line = left + "="@ + gap + seq![quote] + value + seq![quote] + right;
            let a = (left.len() + 1 + gap.len() + 1) as int;
            &&& quoted_span(line, keys) == Some((a, a + value.len()))
            &&& line.subrange(a, a + value.len()) == value
            &&& forall|to: Seq<char>|
                #[trigger] with_span(line, (a, a + value.len()), to) == left + "="@ + gap
                    + seq![quote] + to + seq![quote] + right
        }),
{
    reveal_strlit("=");
    let q = seq![quote];
    let v = gap + q + value + q + right;
    let line = left + "="@ + gap + q + value + q + right;
    assert(line == left + "="@ + v);
    lemma_equals_at(left, v);
    lemma_quotes_at(gap, quote, value, right);
    let n = left.len() as int;
    let g = gap.len() as int;
    let a = n + 1 + g + 1;
    let b = a + value.len();
    assert(line.subrange(a, b) == value);
    assert(line.take(a) == left + "="@ + gap + q);
    assert(line.skip(b) == q + right);
    assert forall|to: Seq<char>| #[trigger] with_span(line, (a, b), to) == left + "="@ + gap + q
        + to + q + right by {
        assert(left + "="@ + gap + q + to + (q + right) == left + "="@ + gap + q + to + q + right);
    }
}

/// The first equals sign stands behind what has none.
proof fn lemma_equals_at(left: Seq<char>, more: Seq<char>)
    requires
        forall|i: int| 0 <= i < left.len() ==> #[trigger] left[i] != '=',
    ensures
        find(left + "="@ + more, "="@) == Some(left.len() as int),
        (left + "="@ + more).take(left.len() as int) == left,
        (left + "="@ + more).skip(left.len() as int + 1) == more,
{
    reveal_strlit("=");
    let line = left + "="@ + more;
    let n = left.len() as int;
    lemma_find_from(line, "="@, 0);
    assert(line.subrange(n, n + 1) == "="@);
    assert(matches_at(line, "="@, n));
    assert forall|j: int| 0 <= j < n implies !matches_at(line, "="@, j) by {
        if matches_at(line, "="@, j) {
            assert(line.subrange(j, j + 1)[0] == line[j]);
            assert(line[j] == left[j]);
        }
    }
    assert(line.take(n) == left);
    assert(line.skip(n + 1) == more);
}

proof fn lemma_quote_marks(c: char)
    ensures
        "'\""@.contains(c) <==> c == '\'' || c == '"',
        is_space(c) ==> !"'\""@.contains(c),
{
    reveal_strlit("'\"");
    let set = "'\""@;
    assert(set.len() == 2 && set[0] == '\'' && set[1] == '"');
}

/// Where the quotes around a value are.
proof fn lemma_quotes_at(gap: Seq<char>, quote: char, value: Seq<char>, right: Seq<char>)
    requires
        forall|i: int| 0 <= i < gap.len() ==> is_space(#[trigger] gap[i]),
        quote == '"' || quote == '\'',
        forall|i: int| 0 <= i < value.len() ==> #[trigger] value[i] != quote,
    ensures
        ({
            let v = gap + seq![quote] + value + seq![quote] + right;
            let g = gap.len() as int;
            &&& find_any_from(v, "'\""@, true, 0) == Some(g)
            &&& find_from(v, seq![v[g]], g + 1) == Some(g + 1 + value.len())
        }),
{
    let q = seq![quote];
    let v = gap + q + value + q + right;
    let set = "'\""@;
    let g = gap.len() as int;
    lemma_find_any_from(v, set, true, 0);
    assert(v[g] == quote);
    lemma_quote_marks(quote);
    assert forall|j: int| 0 <= j < g implies !set.contains(#[trigger] v[j]) by {
        assert(v[j] == gap[j]);
        lemma_quote_marks(gap[j]);
    }
    assert(find_any_from(v, set, true, 0) == Some(g));
    lemma_closing_quote(gap + q, quote, value, right);
    assert(v == (gap + q) + value + q + right);
    assert(seq![v[g]] == q);
}

proof fn lemma_closing_quote(before: Seq<char>, quote: char, value: Seq<char>, right: Seq<char>)
    requires
        forall|i: int| 0 <= i < value.len() ==> #[trigger] value[i] != quote,
    ensures
        find_from(
            before + value + seq![quote] + right,
            seq![quote],
            before.len() as int,
        ) == Some((before.len() + value.len()) as int),
{
    let q = seq![quote];
    let v = before + value + q + right;
    let n = before.len() as int;
    let e = n + value.len();
    lemma_find_from(v, q, n);
    assert(v.subrange(e, e + 1) == q);
    assert(matches_at(v, q, e));
    assert forall|j: int| n <= j < e implies !matches_at(v, q, j) by {
        if matches_at(v, q, j) {
            assert(v.subrange(j, j + 1)[0] == v[j]);
            assert(v[j] == value[j - n]);
        }
    }
}

/// A line in the section of a service, or of its check, that gives a URL takes the port of the
/// service in the environment; one that refers to a variable stays. A line in the section of a
/// port variable that gives a default takes the value that the environment has. Whatever stands
/// around the quotes stays. And what follows in the section does not depend on the line.
pub proof fn law_manifest_lines_follow(
    group: Seq<char>,
    name: Seq<char>,
    left: Seq<char>,
    gap: Seq<char>,
    quote: char,
    value: Seq<char>,
    right: Seq<char>,
    rest: Seq<char>,
    env: Seq<EnvModel>,
)
    requires
        is_bare_name(group) && is_bare_name(name),
        forall|i: int|
            0 <= i < left.len() ==> (#[trigger] left[i]) != '=' && left[i] != '\n' && left[i] != '[',
        forall|i: int| 0 <= i < gap.len() ==> is_space(#[trigger] gap[i]) && gap[i] != '\n',
        quote == '"' || quote == '\'',
        forall|i: int|
            0 <= i < value.len() ==> (#[trigger] value[i]) != quote && value[i] != '\n',
        is_one_line(right),
        trimmed(left).len() > 0,
    ensures
        ({
            let header = header_of(group, name) + "\n"@;
            let line = |v: Seq<char>| left + "="@ + gap + seq![quote] + v + seq![quote] + right;
            let key = trimmed(left);
            let port = env_port(name, env);
            let service = group == "services"@ || group == "checks"@;
            let variable = group == "env"@ && is_service_port_key(name);
            let now = if service && (key == "url"@ || key == "target"@) && port is Some && !holds(
                value,
                "${"@,
            ) {
                with_url_port(value, port->0 as nat)
            } else if variable && key == "default"@ && env_value(env, name) is Some {
                env_value(env, name)->0
            } else {
                value
            };
            exists|after: Seq<char>|
                synced_manifest(header + rest, env) == #[trigger] (header + after)
                    && synced_manifest(
                    header + (line(value) + "\n"@ + rest),
                    env,
                ) == header + (line(now) + "\n"@) + after
        }),
{
    reveal_strlit("\n");
    reveal_strlit("=");
    let h = header_of(group, name);
    let line = |v: Seq<char>| left + "="@ + gap + seq![quote] + v + seq![quote] + right;
    let l = line(value);
    lemma_header(group, name);
    let none = (None::<Seq<char>>, None::<Seq<char>>);
    let open = section_after(h + "\n"@, none);
    lemma_groups();
    assert(open.0 == section_service(h) && open.1 == section_env_key(h));
    lemma_synced_first(h, rest, env, none);
    lemma_synced_first(h, l + "\n"@ + rest, env, none);
    let after = synced_from(chunks(rest), env, 0, open);
    assert(is_one_line(l)) by {
        assert forall|i: int| 0 <= i < l.len() implies #[trigger] l[i] != '\n' by {
            lemma_line_char(left, gap, quote, value, right, i);
        }
    }
    lemma_synced_first(l, rest, env, open);
    lemma_no_header(left, l.skip(left.len() as int) + "\n"@);
    assert(l + "\n"@ == left + (l.skip(left.len() as int) + "\n"@)) by {
        assert(l.take(left.len() as int) == left);
    }
    assert(section_after(l + "\n"@, open) == open);
    lemma_header_stays(group, name, open, env);
    lemma_line_now(left, gap, quote, value, right, open, env);
    assert(h + "\n"@ + (l + "\n"@ + rest) == h + "\n"@ + (l + "\n"@ + rest));
    let now_line = synced_line(l + "\n"@, open, env);
    assert((h + "\n"@) + (now_line + after) == (h + "\n"@) + now_line + after);
    assert(synced_manifest(h + "\n"@ + rest, env) == (h + "\n"@) + after);
}

proof fn lemma_groups()
    ensures
        "env"@ != "services"@,
        "env"@ != "checks"@,
        "services"@ != "checks"@,
        "default"@ != "url"@,
        "default"@ != "target"@,
{
    reveal_strlit("env");
    reveal_strlit("services");
    reveal_strlit("checks");
    reveal_strlit("default");
    reveal_strlit("url");
    reveal_strlit("target");
    assert("env"@.len() == 3 && "services"@.len() == 8 && "checks"@.len() == 6);
    assert("default"@.len() == 7 && "url"@.len() == 3 && "target"@.len() == 6);
}

proof fn lemma_line_char(
    left: Seq<char>,
    gap: Seq<char>,
    quote: char,
    value: Seq<char>,
    right: Seq<char>,
    i: int,
)
    requires
        is_one_line(left),
        is_one_line(gap),
        is_one_line(value),
        is_one_line(right),
        quote != '\n',
        0 <= i < (left + "="@ + gap + seq![quote] + value + seq![quote] + right).len(),
    ensures
        (left + "="@ + gap + seq![quote] + value + seq![quote] + right)[i] != '\n',
{
    reveal_strlit("=");
    let l = left + "="@ + gap + seq![quote] + value + seq![quote] + right;
    let a = left.len();
    let b = a + 1 + gap.len();
    let c = b + 1 + value.len();
    if i < a {
        assert(l[i] == left[i]);
    } else if i == a {
        assert(l[i] == '=');
    } else if i < b {
        assert(l[i] == gap[i - a - 1]);
    } else if i == b {
        assert(l[i] == quote);
    } else if i < c {
        assert(l[i] == value[i - b - 1]);
    } else if i == c {
        assert(l[i] == quote);
    } else {
        assert(l[i] == right[i - c - 1]);
    }
}

/// A line that starts with a key opens no section.
proof fn lemma_no_header(left: Seq<char>, more: Seq<char>)
    requires
        forall|i: int| 0 <= i < left.len() ==> #[trigger] left[i] != '[',
        trimmed(left).len() > 0,
    ensures
        !starts(trimmed(left + more), "["@),
{
    reveal_strlit("[");
    let s = left + more;
    let r = lemma_trimmed(left);
    let t = lemma_trimmed(s);
    assert(trimmed(left)[0] == left[r.0]);
    assert(!is_space(left[r.0]));
    assert(s[r.0] == left[r.0]);
    assert(t.0 <= r.0 < t.1);
    if starts(trimmed(s), "["@) {
        assert(trimmed(s).subrange(0, 1)[0] == trimmed(s)[0]);
        assert(trimmed(s)[0] == s[t.0]);
        assert(s[t.0] == left[t.0]);
    }
}

/// A header gives no value, and stays.
proof fn lemma_header_stays(
    group: Seq<char>,
    name: Seq<char>,
    open: (Option<Seq<char>>, Option<Seq<char>>),
    env: Seq<EnvModel>,
)
    requires
        is_bare_name(group),
        is_bare_name(name),
    ensures
        synced_line(header_of(group, name) + "\n"@, open, env) == header_of(group, name) + "\n"@,
{
    reveal_strlit("=");
    reveal_strlit("[");
    reveal_strlit("url");
    reveal_strlit("target");
    reveal_strlit("default");
    let h = header_of(group, name) + "\n"@;
    lemma_find_from(h, "="@, 0);
    if let Some(eq) = find(h, "="@) {
        assert(h.subrange(eq, eq + 1)[0] == h[eq]);
        assert(h[0] == '[');
        let left = h.take(eq);
        assert(left[0] == '[');
        let r = lemma_trimmed(left);
        assert(!is_space('['));
        assert(r.0 == 0 && r.1 > 0);
        assert(trimmed(left)[0] == '[');
        let us = url_keys();
        assert(us[0] == "url"@ && us[1] == "target"@ && us.len() == 2);
        assert("url"@[0] == 'u' && "target"@[0] == 't' && "default"@[0] == 'd');
        assert(!us.contains(trimmed(left)));
        assert(!seq!["default"@].contains(trimmed(left)));
    }
}

proof fn lemma_line_now(
    left: Seq<char>,
    gap: Seq<char>,
    quote: char,
    value: Seq<char>,
    right: Seq<char>,
    open: (Option<Seq<char>>, Option<Seq<char>>),
    env: Seq<EnvModel>,
)
    requires
        forall|i: int| 0 <= i < left.len() ==> #[trigger] left[i] != '=',
        forall|i: int| 0 <= i < gap.len() ==> is_space(#[trigger] gap[i]),
        quote == '"' || quote == '\'',
        forall|i: int| 0 <= i < value.len() ==> #[trigger] value[i] != quote,
        open.0 is None || open.1 is None,
    ensures
        ({
            let key = trimmed(left);
            let now = if open.0 is Some && (key == "url"@ || key == "target"@) && env_port(
                open.0->0,
                env,
            ) is Some && !holds(value, "${"@) {
                with_url_port(value, env_port(open.0->0, env)->0 as nat)
            } else if open.1 is Some && is_service_port_key(open.1->0) && key == "default"@
                && env_value(env, open.1->0) is Some {
                env_value(env, open.1->0)->0
            } else {
                value
            };
            synced_line(
                left + "="@ + gap + seq![quote] + value + seq![quote] + right + "\n"@,
                open,
                env,
            ) == left + "="@ + gap + seq![quote] + now + seq![quote] + right + "\n"@
        }),
{
    reveal_strlit("=");
    lemma_groups();
    let key = trimmed(left);
    let more = right + "\n"@;
    let l = left + "="@ + gap + seq![quote] + value + seq![quote] + right + "\n"@;
    assert(l == left + "="@ + gap + seq![quote] + value + seq![quote] + more);
    let us = url_keys();
    assert(us[0] == "url"@ && us[1] == "target"@ && us.len() == 2);
    let ds = seq!["default"@];
    assert(ds[0] == "default"@);
    assert forall|v: Seq<char>| (#[trigger] (left + "="@ + gap + seq![quote] + v + seq![quote]
        + more)) == left + "="@ + gap + seq![quote] + v + seq![quote] + right + "\n"@ by {}
    let v = gap + seq![quote] + value + seq![quote] + more;
    assert(l == left + "="@ + v);
    lemma_equals_at(left, v);
    if us.contains(key) {
        lemma_quoted_value(left, gap, quote, value, more, us);
    }
    if ds.contains(key) {
        lemma_quoted_value(left, gap, quote, value, more, ds);
    }
    assert(us.contains(key) <==> key == "url"@ || key == "target"@);
    assert(ds.contains(key) <==> key == "default"@);
}

// ---------------------------------------------------------------------------
// The project name
// ---------------------------------------------------------------------------

proof fn lemma_named_shift(
    first: Seq<char>,
    ls: Seq<Seq<char>>,
    rendered: Seq<char>,
    i: int,
    root: bool,
    found: bool,
)
    requires
        0 <= i,
    ensures
        named_from(seq![first] + ls, rendered, i + 1, root, found) == named_from(
            ls,
            rendered,
            i,
            root,
            found,
        ),
    decreases ls.len() - i,
{
    if i < ls.len() {
        assert((seq![first] + ls)[i + 1] == ls[i]);
        let now = root && !starts(trimmed(ls[i]), "["@);
        let next = if now && !found {
            name_line(ls[i], rendered) != ls[i] || assigns_name(ls[i])
        } else {
            found
        };
        lemma_named_shift(first, ls, rendered, i + 1, now, next);
    }
}

/// Behind the name, and below a header, everything stays.
proof fn lemma_nothing_more(b: Seq<char>, rendered: Seq<char>, root: bool, found: bool)
    requires
        found || !root,
    ensures
        named_from(chunks(b), rendered, 0, root, found) == b,
    decreases b.len(),
{
    if b.len() > 0 {
        let n = lemma_chunks_split(b);
        let first = b.take(n);
        let rest = b.skip(n);
        assert(chunks(b) == seq![first] + chunks(rest));
        let now = root && !starts(trimmed(first), "["@);
        lemma_named_shift(first, chunks(rest), rendered, 0, now, found);
        lemma_nothing_more(rest, rendered, now, found);
        assert(first + rest == b);
    } else {
        assert(chunks(b) == Seq::<Seq<char>>::empty());
    }
}

/// Whether a line neither opens a section nor assigns to `name`.
pub open spec fn is_other_root_line(line: Seq<char>) -> bool {
    !starts(trimmed(line), "["@) && !(cut(line, "="@) matches Some(p) && trimmed(p.0) == "name"@)
}

proof fn lemma_other_line_stays(line: Seq<char>, rendered: Seq<char>)
    requires
        is_other_root_line(line),
    ensures
        name_line(line, rendered) == line,
        !assigns_name(line),
{
    reveal_strlit("=");
    reveal_strlit("\n");
    reveal_strlit("\r\n");
    let (body, ending) = line_parts(line);
    lemma_find_from(body, "="@, 0);
    lemma_find_from(line, "="@, 0);
    if let Some(eq) = find(body, "="@) {
        assert(body == line.take(body.len() as int));
        assert(line.subrange(eq, eq + 1) == body.subrange(eq, eq + 1));
        assert(matches_at(line, "="@, eq));
        assert forall|j: int| 0 <= j < eq implies !matches_at(line, "="@, j) by {
            assert(!matches_at(body, "="@, j));
            assert(line.subrange(j, j + 1) == body.subrange(j, j + 1));
        }
        assert(find(line, "="@) == Some(eq));
        assert(line.take(eq) == body.take(eq));
    }
}

proof fn lemma_named_behind(
    head: Seq<char>,
    b: Seq<char>,
    rendered: Seq<char>,
)
    requires
        head.len() > 0 ==> head.last() == '\n',
        forall|i: int| 0 <= i < chunks(head).len() ==> is_other_root_line(#[trigger] chunks(head)[i]),
    ensures
        named_from(chunks(head + b), rendered, 0, true, false) == head + named_from(
            chunks(b),
            rendered,
            0,
            true,
            false,
        ),
    decreases head.len(),
{
    reveal_strlit("\n");
    if head.len() == 0 {
        assert(head + b == b);
        assert(head + named_from(chunks(b), rendered, 0, true, false) == named_from(
            chunks(b),
            rendered,
            0,
            true,
            false,
        ));
    } else {
        let n = lemma_chunks_split(head);
        assert(head[n - 1] == '\n') by {
            if n == head.len() {
                assert(head.last() == '\n');
            }
        }
        let a = head.take(n - 1);
        let rest = head.skip(n);
        let first = a + "\n"@;
        assert(first == head.take(n));
        assert(is_one_line(a));
        assert(head + b == a + "\n"@ + (rest + b));
        assert(head == first + rest);
        if rest.len() > 0 {
            assert(rest.last() == head.last());
        }
        assert(chunks(head)[0] == first);
        assert(is_other_root_line(first));
        lemma_other_line_stays(first, rendered);
        assert forall|i: int| 0 <= i < chunks(rest).len() implies is_other_root_line(
            #[trigger] chunks(rest)[i],
        ) by {
            assert(chunks(head)[i + 1] == chunks(rest)[i]);
        }
        lemma_chunks_of_two(a, rest + b);
        lemma_named_shift(first, chunks(rest + b), rendered, 0, true, false);
        lemma_named_behind(rest, b, rendered);
        let more = named_from(chunks(b), rendered, 0, true, false);
        assert(first + (rest + more) == head + more);
    }
}

proof fn lemma_no_hash(value: Seq<char>, i: int, quote: Option<char>, escaped: bool)
    requires
        0 <= i <= value.len(),
        forall|j: int| 0 <= j < value.len() ==> #[trigger] value[j] != '#',
    ensures
        comment_from(value, i, quote, escaped) == value.len(),
    decreases value.len() - i,
{
    if i < value.len() {
        lemma_no_hash(value, i + 1, quote, false);
        lemma_no_hash(value, i + 1, quote, true);
        lemma_no_hash(value, i + 1, None, escaped);
        lemma_no_hash(value, i + 1, quote, escaped);
        lemma_no_hash(value, i + 1, Some(value[i]), escaped);
    }
}

proof fn lemma_name_exchanged(
    left: Seq<char>,
    gap: Seq<char>,
    value: Seq<char>,
    trail: Seq<char>,
    rendered: Seq<char>,
)
    requires
        forall|i: int| 0 <= i < left.len() ==> #[trigger] left[i] != '=',
        trimmed(left) == "name"@,
        forall|i: int| 0 <= i < gap.len() ==> #[trigger] gap[i] == ' ',
        forall|i: int| 0 <= i < trail.len() ==> #[trigger] trail[i] == ' ',
        value.len() > 0 && !is_space(value[0]) && !is_space(value.last()),
        forall|i: int| 0 <= i < value.len() ==> #[trigger] value[i] != '#',
    ensures
        name_line(left + "="@ + gap + value + trail + "\n"@, rendered) == left + "="@ + gap
            + rendered + trail + "\n"@,
        assigns_name(left + "="@ + gap + value + trail + "\n"@),
{
    reveal_strlit("=");
    reveal_strlit("\n");
    reveal_strlit("\r\n");
    assert(is_space(' ') && is_space('\r'));
    let old = gap + value + trail;
    let body = left + "="@ + old;
    let line = left + "="@ + gap + value + trail + "\n"@;
    assert(line == body + "\n"@);
    assert(line == left + "="@ + (old + "\n"@));
    lemma_equals_at(left, old);
    lemma_equals_at(left, old + "\n"@);
    let n = line.len() as int;
    assert(line.subrange(n - 1, n) == "\n"@);
    assert(!ends(line, "\r\n"@)) by {
        if ends(line, "\r\n"@) {
            assert(line.subrange(n - 2, n)[0] == line[n - 2]);
            assert(line[n - 2] == '\r');
            if trail.len() > 0 {
                assert(line[n - 2] == trail[trail.len() - 1]);
            } else {
                assert(line[n - 2] == value.last());
            }
        }
    }
    assert(line.take(n - 1) == body);
    assert(line_parts(line) == (body, "\n"@));
    assert forall|j: int| 0 <= j < old.len() implies #[trigger] old[j] != '#' by {
        if j < gap.len() {
            assert(old[j] == gap[j]);
        } else if j < gap.len() + value.len() {
            assert(old[j] == value[j - gap.len()]);
        } else {
            assert(old[j] == trail[j - gap.len() - value.len()]);
        }
    }
    lemma_no_hash(old, 0, None, false);
    assert(old.take(old.len() as int) == old);
    assert(old.skip(old.len() as int) == Seq::<char>::empty());
    lemma_trims(gap, value, trail);
    assert(old.take(gap.len() as int) == gap);
    assert(old.skip((gap.len() + value.len()) as int) == trail);
    assert(body.take(left.len() as int + 1) == left + "="@);
    assert(left + "="@ + gap + rendered + trail + Seq::<char>::empty() + "\n"@ == left + "="@ + gap
        + rendered + trail + "\n"@);
}

proof fn lemma_trims(gap: Seq<char>, value: Seq<char>, trail: Seq<char>)
    requires
        forall|i: int| 0 <= i < gap.len() ==> #[trigger] gap[i] == ' ',
        forall|i: int| 0 <= i < trail.len() ==> #[trigger] trail[i] == ' ',
        value.len() > 0 && !is_space(value[0]) && !is_space(value.last()),
    ensures
        trimmed_start(gap + value + trail).len() == value.len() + trail.len(),
        trimmed_end(gap + value + trail).len() == gap.len() + value.len(),
    decreases gap.len() + trail.len(),
{
    let s = gap + value + trail;
    assert(is_space(' '));
    if gap.len() > 0 {
        let g = gap.skip(1);
        assert(s[0] == gap[0]);
        assert(s.skip(1) == g + value + trail);
        lemma_trims(g, value, trail);
        assert(trimmed_start(s) == trimmed_start(s.skip(1)));
    } else {
        assert(s[0] == value[0]);
    }
    if trail.len() > 0 {
        let t = trail.drop_last();
        assert(s.last() == trail[trail.len() - 1]);
        assert(s.drop_last() == gap + value + t);
        lemma_trims(gap, value, t);
        assert(trimmed_end(s) == trimmed_end(s.drop_last()));
    } else {
        assert(s.last() == value.last());
    }
}

/// The first assignment to `name` above all sections gets the new value, with all around it as it
/// was; without one, and in the sections, nothing changes.
pub proof fn law_the_project_name_is_set(
    head: Seq<char>,
    left: Seq<char>,
    gap: Seq<char>,
    value: Seq<char>,
    trail: Seq<char>,
    rest: Seq<char>,
    section: Seq<char>,
    rendered: Seq<char>,
)
    requires
        head.len() > 0 ==> head.last() == '\n',
        forall|i: int| 0 <= i < chunks(head).len() ==> is_other_root_line(#[trigger] chunks(head)[i]),
        forall|i: int|
            0 <= i < left.len() ==> (#[trigger] left[i]) != '=' && left[i] != '[' && left[i] != '\n',
        trimmed(left) == "name"@,
        forall|i: int| 0 <= i < gap.len() ==> #[trigger] gap[i] == ' ',
        forall|i: int| 0 <= i < trail.len() ==> #[trigger] trail[i] == ' ',
        value.len() > 0 && !is_space(value[0]) && !is_space(value.last()),
        forall|i: int|
            0 <= i < value.len() ==> (#[trigger] value[i]) != '#' && value[i] != '\n',
        section.len() == 0 || section[0] == '[',
    ensures
        with_project_name(
            head + (left + "="@ + gap + value + trail + "\n"@ + rest),
            rendered,
        ) == head + (left + "="@ + gap + rendered + trail + "\n"@ + rest),
        with_project_name(head + section, rendered) == head + section,
{
    reveal_strlit("=");
    reveal_strlit("\n");
    reveal_strlit("[");
    reveal_strlit("name");
    let a = left + "="@ + gap + value + trail;
    let first = a + "\n"@;
    assert(is_one_line(a)) by {
        assert forall|i: int| 0 <= i < a.len() implies #[trigger] a[i] != '\n' by {
            let x = left.len();
            let y = x + 1 + gap.len();
            let z = y + value.len();
            if i < x {
                assert(a[i] == left[i]);
            } else if i == x {
                assert(a[i] == '=');
            } else if i < y {
                assert(a[i] == gap[i - x - 1]);
            } else if i < z {
                assert(a[i] == value[i - y]);
            } else {
                assert(a[i] == trail[i - z]);
            }
        }
    }
    lemma_named_behind(head, first + rest, rendered);
    lemma_name_exchanged(left, gap, value, trail, rendered);
    let more = ("="@ + gap + value + trail + "\n"@);
    assert(first == left + more);
    assert(trimmed(left).len() > 0);
    lemma_no_header(left, more);
    lemma_chunks_of_two(a, rest);
    lemma_named_shift(first, chunks(rest), rendered, 0, true, true);
    lemma_nothing_more(rest, rendered, true, true);
    assert(chunks(first + rest)[0] == first);
    lemma_named_behind(head, section, rendered);
    if section.len() > 0 {
        let n = lemma_chunks_split(section);
        let top = section.take(n);
        let below = section.skip(n);
        let r = lemma_trimmed(top);
        assert(!is_space('['));
        assert(top[0] == '[');
        assert(r.0 == 0 && r.1 > 0);
        assert(trimmed(top)[0] == '[');
        assert(trimmed(top).subrange(0, 1) == "["@);
        lemma_named_shift(top, chunks(below), rendered, 0, false, false);
        lemma_nothing_more(below, rendered, false, false);
        assert(top + below == section);
    } else {
        assert(chunks(section) == Seq::<Seq<char>>::empty());
    }
}

} // verus!
