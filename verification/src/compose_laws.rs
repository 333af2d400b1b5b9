//! Laws of compose files: which stay as they are.

use crate::compose::{
    has_key, is_section, line_change, mapped_line, mapped_lines, mapped_ports, mapping_change,
    mapping_text, mirror_line, mirrored_from, section_name, service_after, service_before,
    wants_mirror, with_last, with_npm_mirror, without_lock_flag,
};
use crate::env_laws::{
    is_one_line, lemma_chunks_shift, lemma_first_chunk, lemma_joined_first, lemma_lines_are_lines,
    lemma_trimmed,
};
use crate::models::{EnvModel, NPM_REGISTRY_MIRROR};
use crate::rewrite::{ends_with_return, law_exchanged_lines_are_read_back, lemma_same_lines};
use crate::sources::{lemma_holds_itself, lemma_holds_within};
use crate::text::{
    all_digits, chunks_from, ends, find_from, holds, indentation, is_digit, is_space, joined,
    joined_from, lemma_bytes_skip, lemma_find_from, lemma_holds, lemma_replaced_absent,
    lemma_rfind_from, line_body, lines, matches_at, rcut, replaced_from, rfind, starts,
    strip_all_end, strip_all_start, strip_set, strip_set_end, strip_set_start, trimmed,
    trimmed_start, upper,
};
use vstd::prelude::*;
use vstd::string::*;

verus! {

// ---------------------------------------------------------------------------
// Lines
// ---------------------------------------------------------------------------

/// A line without the carriage return that ends it.
pub open spec fn without_return(a: Seq<char>) -> Seq<char> {
    if a.len() > 0 && a.last() == '\r' {
        a.drop_last()
    } else {
        a
    }
}

/// The lines of a text whose first line ends with a line feed.
pub proof fn lemma_lines_of_two(a: Seq<char>, b: Seq<char>)
    requires
        is_one_line(a),
    ensures
        lines(a + "\n"@ + b) == seq![without_return(a)] + lines(b),
{
    reveal_strlit("\n");
    let s = a + "\n"@ + b;
    let n = a.len() as int;
    assert forall|j: int| 0 <= j < n implies #[trigger] s[j] != '\n' by {
        assert(s[j] == a[j]);
    }
    lemma_first_chunk(s, n, 0);
    lemma_chunks_shift(s, n + 1, n + 1, n + 1);
    assert(s.skip(n + 1) == b);
    let first = s.subrange(0, n + 1);
    assert(first.drop_last() == a);
    assert(first.last() == '\n');
    assert(line_body(first) == without_return(a));
    assert(lines(s) == seq![without_return(a)] + lines(b));
}

proof fn lemma_only_line(s: Seq<char>, i: int)
    requires
        0 <= i <= s.len(),
        s.len() > 0,
        is_one_line(s),
    ensures
        chunks_from(s, 0, i) == seq![s],
    decreases s.len() - i,
{
    if i < s.len() {
        lemma_only_line(s, i + 1);
    } else {
        assert(s.skip(0) == s);
    }
}

pub proof fn lemma_lines_of_one(s: Seq<char>)
    requires
        is_one_line(s),
    ensures
        s.len() > 0 ==> lines(s) == seq![s],
        s.len() == 0 ==> lines(s) == Seq::<Seq<char>>::empty(),
{
    if s.len() > 0 {
        lemma_only_line(s, 0);
        assert(s.last() != '\n') by {
            assert(s[s.len() - 1] != '\n');
        }
        assert(lines(s) == seq![s]);
    } else {
        assert(lines(s) == Seq::<Seq<char>>::empty());
    }
}

// ---------------------------------------------------------------------------
// Mappings
// ---------------------------------------------------------------------------

/// A text without its ends holds what it held, if the ends hold no part of it.
proof fn lemma_variable_within(s: Seq<char>, a: int, b: int)
    requires
        0 <= a <= b <= s.len(),
        forall|i: int| 0 <= i < a ==> #[trigger] s[i] != '$' && s[i] != '{',
        forall|i: int| b <= i < s.len() ==> #[trigger] s[i] != '$' && s[i] != '{',
        holds(s, "${"@),
    ensures
        holds(s.subrange(a, b), "${"@),
{
    reveal_strlit("${");
    let t = s.subrange(a, b);
    lemma_holds(s, "${"@);
    lemma_holds(t, "${"@);
    let j = choose|j: int| matches_at(s, "${"@, j);
    assert(s.subrange(j, j + 2)[0] == s[j]);
    assert(s.subrange(j, j + 2)[1] == s[j + 1]);
    assert(t.subrange(j - a, j - a + 2) == s.subrange(j, j + 2));
    assert(matches_at(t, "${"@, j - a));
}

proof fn lemma_strip_all_start(s: Seq<char>, pat: Seq<char>) -> (k: int)
    requires
        forall|i: int| 0 <= i < pat.len() ==> #[trigger] pat[i] != '$' && pat[i] != '{',
    ensures
        0 <= k <= s.len(),
        strip_all_start(s, pat) == s.skip(k),
        pat.len() > 0 && starts(s, pat) ==> k >= pat.len(),
        forall|i: int| 0 <= i < k ==> #[trigger] s[i] != '$' && s[i] != '{',
    decreases s.len(),
{
    if pat.len() > 0 && starts(s, pat) {
        let n = pat.len() as int;
        let k = lemma_strip_all_start(s.skip(n), pat);
        assert(s.skip(n).skip(k) == s.skip(n + k));
        assert forall|i: int| 0 <= i < n + k implies #[trigger] s[i] != '$' && s[i] != '{' by {
            if i < n {
                assert(s.subrange(0, n)[i] == pat[i]);
            } else {
                assert(s.skip(n)[i - n] == s[i]);
            }
        }
        n + k
    } else {
        assert(s.skip(0) == s);
        0
    }
}

proof fn lemma_strip_quotes(s: Seq<char>) -> (r: (int, int))
    ensures
        0 <= r.0 <= r.1 <= s.len(),
        strip_set(s, "\""@) == s.subrange(r.0, r.1),
        forall|i: int| 0 <= i < r.0 ==> #[trigger] s[i] == '"',
        forall|i: int| r.1 <= i < s.len() ==> #[trigger] s[i] == '"',
{
    let a = lemma_strip_start(s);
    let t = s.skip(a);
    let b = lemma_strip_end(t);
    assert(t.take(b) == s.subrange(a, a + b));
    assert forall|i: int| a + b <= i < s.len() implies #[trigger] s[i] == '"' by {
        assert(t[i - a] == s[i]);
    }
    (a, a + b)
}

proof fn lemma_strip_start(s: Seq<char>) -> (k: int)
    ensures
        0 <= k <= s.len(),
        strip_set_start(s, "\""@) == s.skip(k),
        forall|i: int| 0 <= i < k ==> #[trigger] s[i] == '"',
    decreases s.len(),
{
    reveal_strlit("\"");
    if s.len() > 0 && "\""@.contains(s[0]) {
        let k = lemma_strip_start(s.skip(1));
        assert(s.skip(1).skip(k) == s.skip(k + 1));
        assert forall|i: int| 0 <= i < k + 1 implies #[trigger] s[i] == '"' by {
            if i > 0 {
                assert(s.skip(1)[i - 1] == s[i]);
            }
        }
        k + 1
    } else {
        assert(s.skip(0) == s);
        0
    }
}

proof fn lemma_strip_end(s: Seq<char>) -> (k: int)
    ensures
        0 <= k <= s.len(),
        strip_set_end(s, "\""@) == s.take(k),
        forall|i: int| k <= i < s.len() ==> #[trigger] s[i] == '"',
    decreases s.len(),
{
    reveal_strlit("\"");
    if s.len() > 0 && "\""@.contains(s.last()) {
        let k = lemma_strip_end(s.drop_last());
        assert(s.drop_last().take(k) == s.take(k));
        assert forall|i: int| k <= i < s.len() implies #[trigger] s[i] == '"' by {
            if i < s.len() - 1 {
                assert(s.drop_last()[i] == s[i]);
            }
        }
        k
    } else {
        assert(s.take(s.len() as int) == s);
        s.len() as int
    }
}

/// The mapping on a line is a part of the line, and a variable on the line stands in the
/// mapping. Behind it there are only white space and quotes; before it, in a list item, there is
/// the dash, with only white space before that.
pub proof fn lemma_mapping_text(line: Seq<char>) -> (r: (int, int, int))
    ensures
        0 <= r.0 <= r.1 <= line.len(),
        mapping_text(line) == line.subrange(r.0, r.1),
        holds(line, "${"@) ==> holds(mapping_text(line), "${"@),
        forall|i: int|
            r.1 <= i < line.len() ==> is_space(#[trigger] line[i]) || line[i] == '"',
        starts(trimmed(line), "- "@) ==> 0 <= r.2 < r.0 && line[r.2] == '-' && forall|i: int|
            0 <= i < r.2 ==> is_space(#[trigger] line[i]),
{
    reveal_strlit("- ");
    let t = trimmed(line);
    let x = lemma_trimmed(line);
    let k = lemma_strip_all_start(t, "- "@);
    let u = t.skip(k);
    let v = trimmed(u);
    let y = lemma_trimmed(u);
    let z = lemma_strip_quotes(v);
    assert(!is_space('$') && !is_space('{'));
    if holds(line, "${"@) {
        lemma_variable_within(line, x.0, x.1);
        lemma_variable_within(t, k, t.len() as int);
        assert(t.subrange(k, t.len() as int) == u);
        lemma_variable_within(u, y.0, y.1);
        lemma_variable_within(v, z.0, z.1);
    }
    let a = x.0 + k + y.0 + z.0;
    let b = x.0 + k + y.0 + z.1;
    assert(u.len() == x.1 - x.0 - k);
    assert(v.len() == y.1 - y.0);
    assert(mapping_text(line) == line.subrange(a, b)) by {
        assert forall|i: int| 0 <= i < b - a implies mapping_text(line)[i] == line.subrange(a, b)[i] by {
            assert(mapping_text(line)[i] == v[z.0 + i]);
            assert(v[z.0 + i] == u[y.0 + z.0 + i]);
            assert(u[y.0 + z.0 + i] == t[k + y.0 + z.0 + i]);
            assert(t[k + y.0 + z.0 + i] == line[a + i]);
        }
    }
    assert forall|i: int| b <= i < line.len() implies is_space(#[trigger] line[i]) || line[i]
        == '"' by {
        if i < x.1 {
            let j = i - x.0 - k;
            assert(u[j] == line[i]);
            if j < y.1 {
                assert(v[j - y.0] == u[j]);
            }
        }
    }
    if starts(t, "- "@) {
        assert(t.subrange(0, 2)[0] == t[0]);
        assert(t[0] == line[x.0]);
        assert(k >= 2);
    }
    (a, b, x.0)
}

/// What a mapping is cut into at its last colon makes it up.
proof fn lemma_rcut_colon(s: Seq<char>)
    ensures
        rcut(s, ":"@) matches Some(p) ==> s == p.0 + ":"@ + p.1 && s.len() > 0,
{
    reveal_strlit(":");
    lemma_rfind_from(s, ":"@, s.len() - 1);
    if let Some(k) = rfind(s, ":"@) {
        assert(s.subrange(k, k + 1) == ":"@);
        assert(s == s.take(k) + ":"@ + s.skip(k + 1));
    }
}

/// A mapping that changes ends with digits or a colon, and gets a variable.
proof fn lemma_mapping_change(mapping: Seq<char>, key: Seq<char>)
    requires
        is_one_line(mapping),
        is_one_line(key),
    ensures
        mapping_change(mapping, key) matches Some(new) ==> {
            &&& mapping.len() > 0
            &&& is_digit(mapping.last()) || mapping.last() == ':'
            &&& new.len() > 0
            &&& is_one_line(new)
            &&& holds(new, "${"@)
            &&& new.last() != '\r'
        },
{
    reveal_strlit(":");
    reveal_strlit("${");
    reveal_strlit(":${");
    reveal_strlit(":-");
    reveal_strlit("}:");
    reveal_strlit("}");
    if let Some(new) = mapping_change(mapping, key) {
        lemma_rcut_colon(mapping);
        let p = rcut(mapping, ":"@)->0;
        lemma_rcut_colon(p.0);
        lemma_ends_with_port(p.0, p.1);
        assert(is_one_line(p.0)) by {
            assert forall|i: int| 0 <= i < p.0.len() implies #[trigger] p.0[i] != '\n' by {
                assert(mapping[i] == p.0[i]);
            }
        }
        assert(is_one_line(p.1)) by {
            assert forall|i: int| 0 <= i < p.1.len() implies #[trigger] p.1[i] != '\n' by {
                assert(mapping[p.0.len() + 1 + i] == p.1[i]);
            }
        }
        lemma_holds_itself("${"@);
        match rcut(p.0, ":"@) {
            Some(q) => {
                assert(is_one_line(q.0)) by {
                    assert forall|i: int| 0 <= i < q.0.len() implies #[trigger] q.0[i] != '\n' by {
                        assert(p.0[i] == q.0[i]);
                    }
                }
                assert(is_one_line(q.1)) by {
                    assert forall|i: int| 0 <= i < q.1.len() implies #[trigger] q.1[i] != '\n' by {
                        assert(p.0[q.0.len() + 1 + i] == q.1[i]);
                    }
                }
                let head = q.0 + ":"@;
                let tail = key + ":-"@ + q.1 + "}:"@ + p.1;
                assert(new == head + "${"@ + tail);
                lemma_holds_within(head, "${"@, tail, "${"@);
                lemma_joins_to_one_line(q.0, ":${"@ + key + ":-"@ + q.1 + "}:"@, p.1);
                lemma_ends_with_port(q.0 + ":${"@ + key + ":-"@ + q.1 + "}"@, p.1);
                assert(new == (q.0 + ":${"@ + key + ":-"@ + q.1 + "}"@) + ":"@ + p.1);
            },
            None => {
                let tail = key + ":-"@ + p.0 + "}:"@ + p.1;
                assert(new == Seq::<char>::empty() + "${"@ + tail);
                lemma_holds_within(Seq::empty(), "${"@, tail, "${"@);
                lemma_joins_to_one_line("${"@ + key + ":-"@, p.0, "}:"@ + p.1);
                assert(new == ("${"@ + key + ":-"@) + p.0 + ("}:"@ + p.1));
                lemma_ends_with_port("${"@ + key + ":-"@ + p.0 + "}"@, p.1);
                assert(new == ("${"@ + key + ":-"@ + p.0 + "}"@) + ":"@ + p.1);
            },
        }
    }
}

/// Three texts of one line each make up one line.
proof fn lemma_joins_to_one_line(a: Seq<char>, b: Seq<char>, c: Seq<char>)
    requires
        is_one_line(a),
        is_one_line(b),
        is_one_line(c),
    ensures
        is_one_line(a + b + c),
{
    let s = a + b + c;
    assert forall|i: int| 0 <= i < s.len() implies #[trigger] s[i] != '\n' by {
        if i < a.len() {
            assert(s[i] == a[i]);
        } else if i < a.len() + b.len() {
            assert(s[i] == b[i - a.len()]);
        } else {
            assert(s[i] == c[i - a.len() - b.len()]);
        }
    }
}

/// What ends with a colon and digits ends with one of them.
proof fn lemma_ends_with_port(a: Seq<char>, digits: Seq<char>)
    requires
        all_digits(digits),
    ensures
        is_digit((a + ":"@ + digits).last()) || (a + ":"@ + digits).last() == ':',
        (a + ":"@ + digits).last() != '\r',
{
    reveal_strlit(":");
    let s = a + ":"@ + digits;
    if digits.len() > 0 {
        assert(s.last() == digits[digits.len() - 1]);
        assert(is_digit(digits[digits.len() - 1]));
    } else {
        assert(s.last() == ':');
    }
}

/// The name of a service stands on one line.
proof fn lemma_service_is_one_line(line: Seq<char>, open: Option<Seq<char>>)
    requires
        is_one_line(line),
        open matches Some(name) ==> is_one_line(name),
    ensures
        service_after(line, open) matches Some(name) ==> is_one_line(name),
{
    let t = trimmed(line);
    let r = lemma_trimmed(line);
    let k = lemma_strip_colons(t);
    let name = t.take(k);
    assert forall|i: int| 0 <= i < name.len() implies #[trigger] name[i] != '\n' by {
        assert(name[i] == line[r.0 + i]);
    }
}

proof fn lemma_strip_colons(s: Seq<char>) -> (k: int)
    ensures
        0 <= k <= s.len(),
        strip_all_end(s, ":"@) == s.take(k),
    decreases s.len(),
{
    reveal_strlit(":");
    if ends(s, ":"@) {
        let t = s.take(s.len() - 1);
        let k = lemma_strip_colons(t);
        assert(t.take(k) == s.take(k));
        k
    } else {
        assert(s.take(s.len() as int) == s);
        s.len() as int
    }
}

proof fn lemma_upper_is_one_line(s: Seq<char>)
    requires
        is_one_line(s),
    ensures
        is_one_line(upper(s)),
{
    let u = upper(s);
    assert forall|i: int| 0 <= i < u.len() implies #[trigger] u[i] != '\n' by {
        assert(s[i] != '\n');
    }
}

// ---------------------------------------------------------------------------
// Lines that change
// ---------------------------------------------------------------------------

/// A line whose mapping changes is a list item before and after, gets a variable, stays one
/// line, and ends as before or not with a carriage return.
proof fn lemma_mapped_line(line: Seq<char>, open: Option<Seq<char>>, env: Seq<EnvModel>)
    requires
        is_one_line(line),
        open matches Some(name) ==> is_one_line(name),
        line_change(line, open, env) is Some,
    ensures
        ({
            let out = with_last(line, mapping_text(line), line_change(line, open, env)->0);
            &&& is_one_line(out)
            &&& out.len() > 0
            &&& ends_with_return(out) ==> ends_with_return(line)
            &&& holds(out, "${"@)
            &&& !is_section(line)
            &&& !is_section(out)
        }),
{
    reveal_strlit("_PORT");
    reveal_strlit("-");
    reveal_strlit("- ");
    let name = open->0;
    let key = upper(name) + "_PORT"@;
    let mapping = mapping_text(line);
    let new = line_change(line, open, env)->0;
    let r = lemma_mapping_text(line);
    assert(is_one_line(mapping)) by {
        assert forall|j: int| 0 <= j < mapping.len() implies #[trigger] mapping[j] != '\n' by {
            assert(mapping[j] == line[r.0 + j]);
        }
    }
    lemma_upper_is_one_line(name);
    lemma_joins_to_one_line(upper(name), "_PORT"@, Seq::empty());
    assert(upper(name) + "_PORT"@ + Seq::<char>::empty() == key);
    lemma_mapping_change(mapping, key);
    lemma_rfind_from(line, mapping, line.len() - mapping.len());
    assert(matches_at(line, mapping, r.0));
    let k = rfind(line, mapping)->0;
    assert(k == r.0) by {
        if k > r.0 {
            let e = k + mapping.len() - 1;
            assert(line.subrange(k, k + mapping.len()).last() == line[e]);
            assert(e >= r.1);
            assert(is_space(line[e]) || line[e] == '"');
            assert(is_digit(line[e]) || line[e] == ':');
        }
    }
    let head = line.take(r.0);
    let tail = line.skip(r.1);
    let out = head + new + tail;
    assert(out == with_last(line, mapping, new));
    assert(is_one_line(head)) by {
        assert forall|j: int| 0 <= j < head.len() implies #[trigger] head[j] != '\n' by {
            assert(head[j] == line[j]);
        }
    }
    assert(is_one_line(tail)) by {
        assert forall|j: int| 0 <= j < tail.len() implies #[trigger] tail[j] != '\n' by {
            assert(tail[j] == line[r.1 + j]);
        }
    }
    lemma_joins_to_one_line(head, new, tail);
    lemma_holds_within(head, new, tail, "${"@);
    if tail.len() > 0 {
        assert(out.last() == tail.last());
        assert(tail.last() == line.last());
    } else {
        assert(out.last() == new.last());
    }
    assert(starts(trimmed(line), "-"@)) by {
        let t = trimmed(line);
        assert(t.subrange(0, 2)[0] == t[0]);
        assert(t.subrange(0, 1) == "-"@);
    }
    let d = r.2;
    assert forall|i: int| 0 <= i <= d implies #[trigger] out[i] == line[i] by {}
    let x = lemma_trimmed(out);
    assert(!is_space('-'));
    assert(out[d] == '-');
    assert(x.0 <= d < x.1);
    assert(x.0 == d) by {
        if x.0 < d {
            assert(out[x.0] == line[x.0]);
            assert(trimmed(out)[0] == out[x.0]);
            assert(is_space(out[x.0]));
        }
    }
    assert(starts(trimmed(out), "-"@)) by {
        let t = trimmed(out);
        assert(t[0] == out[d]);
        assert(t.subrange(0, 1) == "-"@);
    }
}

proof fn lemma_open_is_one_line(ls: Seq<Seq<char>>, k: int)
    requires
        forall|i: int| 0 <= i < ls.len() ==> is_one_line(#[trigger] ls[i]),
    ensures
        service_before(ls, k) matches Some(name) ==> is_one_line(name),
    decreases k,
{
    if 0 < k <= ls.len() {
        lemma_open_is_one_line(ls, k - 1);
        assert(is_one_line(ls[k - 1]));
        lemma_service_is_one_line(ls[k - 1], service_before(ls, k - 1));
    }
}

/// Of a compose file only the lines of mappings change, and each to what its own change gives;
/// the lines of services for which the environment has no port are as they were.
pub proof fn law_only_mappings_change(content: Seq<char>, env: Seq<EnvModel>)
    ensures
        ({
            let ls = lines(content);
            let after = lines(mapped_ports(content, env));
            &&& after == mapped_lines(ls, env)
            &&& forall|i: int|
                0 <= i < ls.len() && !(service_before(ls, i + 1) matches Some(name) && has_key(
                    env,
                    upper(name) + "_PORT"@,
                )) ==> (#[trigger] after[i]) == ls[i]
        }),
{
    let ls = lines(content);
    let out = mapped_lines(ls, env);
    lemma_lines_are_lines(content);
    assert forall|i: int| 0 <= i < out.len() implies is_one_line(#[trigger] out[i]) && (
    ls[i].len() > 0 ==> out[i].len() > 0) && (ends_with_return(out[i]) ==> ends_with_return(
        ls[i],
    )) by {
        assert(is_one_line(ls[i]));
        let open = service_before(ls, i + 1);
        lemma_open_is_one_line(ls, i + 1);
        if line_change(ls[i], open, env) is Some {
            lemma_mapped_line(ls[i], open, env);
        }
    }
    law_exchanged_lines_are_read_back(content, out);
    assert(lines(mapped_ports(content, env)) == out);
}

/// A file stays as it is where the environment has a port for none of its services.
pub proof fn law_without_ports_nothing_is_mapped(content: Seq<char>, env: Seq<EnvModel>)
    requires
        forall|i: int|
            0 <= i < lines(content).len() && is_section(#[trigger] lines(content)[i])
                && section_name(lines(content)[i]) != "services"@ ==> !has_key(
                env,
                upper(section_name(lines(content)[i])) + "_PORT"@,
            ),
    ensures
        mapped_ports(content, env) == content,
{
    let ls = lines(content);
    assert forall|i: int| 0 <= i < ls.len() implies #[trigger] mapped_line(ls, env, i) == ls[i] by {
        lemma_open_is_named(ls, i + 1);
    }
    assert(mapped_lines(ls, env) == ls);
    lemma_same_lines(content);
}

/// A service that is open was opened by a line of the file.
proof fn lemma_open_is_named(ls: Seq<Seq<char>>, k: int)
    ensures
        service_before(ls, k) matches Some(name) ==> name != "services"@ && exists|i: int|
            0 <= i < ls.len() && is_section(#[trigger] ls[i]) && section_name(ls[i]) == name,
    decreases k,
{
    if 0 < k <= ls.len() {
        lemma_open_is_named(ls, k - 1);
        assert(is_section(ls[k - 1]) || service_before(ls, k) == service_before(ls, k - 1));
    }
}

/// A file whose mappings all use variables stays as it is.
pub proof fn law_variables_are_left_alone(content: Seq<char>, env: Seq<EnvModel>)
    requires
        forall|k: int|
            0 <= k < lines(content).len() && starts(
                trimmed(#[trigger] lines(content)[k]),
                "- "@,
            ) ==> holds(mapping_text(lines(content)[k]), "${"@),
    ensures
        mapped_ports(content, env) == content,
{
    let ls = lines(content);
    assert forall|i: int| 0 <= i < ls.len() implies #[trigger] mapped_line(ls, env, i) == ls[i] by {
        assert(starts(trimmed(ls[i]), "- "@) ==> holds(mapping_text(ls[i]), "${"@));
    }
    assert(mapped_lines(ls, env) == ls);
    lemma_same_lines(content);
}

proof fn lemma_same_services(ls: Seq<Seq<char>>, env: Seq<EnvModel>, k: int)
    requires
        forall|i: int| 0 <= i < ls.len() ==> is_one_line(#[trigger] ls[i]),
    ensures
        service_before(mapped_lines(ls, env), k) == service_before(ls, k),
    decreases k,
{
    if 0 < k <= ls.len() {
        lemma_same_services(ls, env, k - 1);
        let line = ls[k - 1];
        assert(is_one_line(line));
        let open = service_before(ls, k);
        lemma_open_is_one_line(ls, k);
        assert(mapped_lines(ls, env)[k - 1] == mapped_line(ls, env, k - 1));
        if line_change(line, open, env) is Some {
            lemma_mapped_line(line, open, env);
        }
    }
}

/// Mapping ports a second time changes nothing more.
pub proof fn law_mapped_ports_are_stable(content: Seq<char>, env: Seq<EnvModel>)
    ensures
        mapped_ports(mapped_ports(content, env), env) == mapped_ports(content, env),
{
    let ls = lines(content);
    let once = mapped_ports(content, env);
    let out = mapped_lines(ls, env);
    law_only_mappings_change(content, env);
    lemma_lines_are_lines(content);
    assert forall|i: int| 0 <= i < out.len() implies #[trigger] mapped_line(out, env, i)
        == out[i] by {
        let open = service_before(ls, i + 1);
        lemma_same_services(ls, env, i + 1);
        lemma_open_is_one_line(ls, i + 1);
        assert(is_one_line(ls[i]));
        assert(out[i] == mapped_line(ls, env, i));
        if line_change(ls[i], open, env) is Some {
            lemma_mapped_line(ls[i], open, env);
            let r = lemma_mapping_text(out[i]);
        }
    }
    assert(mapped_lines(out, env) == out);
    lemma_same_lines(once);
}

// ---------------------------------------------------------------------------
// The mirror of packages
// ---------------------------------------------------------------------------

/// What is replaced leaves the last character, or ends with what was put in its place.
proof fn lemma_replaced_last(s: Seq<char>, p: Seq<char>, q: Seq<char>, i: int)
    requires
        p.len() > 0,
        q.len() > 0,
        0 <= i < s.len(),
    ensures
        replaced_from(s, p, q, i).len() > 0,
        replaced_from(s, p, q, i).last() == s.last() || replaced_from(s, p, q, i).last()
            == q.last(),
    decreases s.len() - i,
{
    let out = replaced_from(s, p, q, i);
    let (first, next) = if matches_at(s, p, i) {
        (q, i + p.len())
    } else {
        (seq![s[i]], i + 1)
    };
    let rest = replaced_from(s, p, q, next);
    assert(out == first + rest);
    if next < s.len() {
        lemma_replaced_last(s, p, q, next);
        assert(out.last() == rest.last());
    } else {
        assert(rest == Seq::<char>::empty());
        assert(out.last() == first.last());
    }
}

/// A text of one line stands on one side of a line feed or on the other.
proof fn lemma_holds_around_feed(a: Seq<char>, b: Seq<char>, p: Seq<char>)
    requires
        p.len() > 0,
        is_one_line(p),
        holds(a + "\n"@ + b, p),
    ensures
        holds(a, p) || holds(b, p),
{
    reveal_strlit("\n");
    let s = a + "\n"@ + b;
    let n = a.len() as int;
    lemma_holds(s, p);
    lemma_holds(a, p);
    lemma_holds(b, p);
    let j = choose|j: int| matches_at(s, p, j);
    let found = s.subrange(j, j + p.len());
    if j + p.len() <= n {
        assert(a.subrange(j, j + p.len()) == found);
        assert(matches_at(a, p, j));
    } else if j > n {
        assert(b.subrange(j - n - 1, j - n - 1 + p.len()) == found);
        assert(matches_at(b, p, j - n - 1));
    } else {
        assert(found[n - j] == s[n]);
        assert(s[n] == '\n');
    }
}

/// What a line holds, the text holds.
proof fn lemma_line_within(s: Seq<char>, p: Seq<char>, k: int)
    requires
        0 <= k < lines(s).len(),
        holds(lines(s)[k], p),
    ensures
        holds(s, p),
    decreases s.len(),
{
    reveal_strlit("\n");
    lemma_find_from(s, "\n"@, 0);
    if find_from(s, "\n"@, 0) is None {
        assert forall|i: int| 0 <= i < s.len() implies #[trigger] s[i] != '\n' by {
            if s[i] == '\n' {
                assert(s.subrange(i, i + 1) == "\n"@);
                assert(matches_at(s, "\n"@, i));
            }
        }
        lemma_lines_of_one(s);
    } else {
        let n = find_from(s, "\n"@, 0)->0;
        let a = s.take(n);
        let b = s.skip(n + 1);
        assert(s.subrange(n, n + 1)[0] == s[n]);
        assert(s == a + "\n"@ + b);
        assert forall|i: int| 0 <= i < a.len() implies #[trigger] a[i] != '\n' by {
            assert(a[i] == s[i]);
            if s[i] == '\n' {
                assert(s.subrange(i, i + 1) == "\n"@);
                assert(matches_at(s, "\n"@, i));
            }
        }
        lemma_lines_of_two(a, b);
        if k == 0 {
            let w = without_return(a);
            assert(holds(w, p));
            if w != a {
                lemma_holds_within(Seq::empty(), w, seq!['\r'], p);
                assert(Seq::<char>::empty() + w + seq!['\r'] == a);
            }
            lemma_holds_within(Seq::empty(), a, "\n"@ + b, p);
            assert(Seq::<char>::empty() + a + ("\n"@ + b) == s);
        } else {
            assert(lines(s)[k] == lines(b)[k - 1]);
            lemma_line_within(b, p, k - 1);
            lemma_holds_within(a + "\n"@, b, Seq::empty(), p);
            assert(a + "\n"@ + b + Seq::<char>::empty() == s);
        }
    }
}

/// The line feed, or nothing.
pub open spec fn end_of(feed: bool) -> Seq<char> {
    if feed {
        "\n"@
    } else {
        Seq::empty()
    }
}

/// Whether texts are lines that read back when they are joined.
pub open spec fn are_plain_lines(ls: Seq<Seq<char>>) -> bool {
    forall|k: int|
        0 <= k < ls.len() ==> is_one_line(#[trigger] ls[k]) && without_return(ls[k]) == ls[k]
}

proof fn lemma_one_joined_line(a: Seq<char>, feed: bool)
    requires
        is_one_line(a),
        without_return(a) == a,
        !feed ==> a.len() > 0,
    ensures
        lines(joined(seq![a], "\n"@) + end_of(feed)) == seq![a],
        ends(joined(seq![a], "\n"@) + end_of(feed), "\n"@) == feed,
        joined(seq![a], "\n"@) + end_of(feed) != Seq::<char>::empty(),
{
    reveal_strlit("\n");
    let ls = seq![a];
    let out = joined(ls, "\n"@) + end_of(feed);
    assert(joined_from(ls, "\n"@, 1) == Seq::<char>::empty());
    assert(joined(ls, "\n"@) == a);
    if feed {
        let none = Seq::<char>::empty();
        assert(out == a + "\n"@ + none);
        lemma_lines_of_two(a, none);
        lemma_lines_of_one(none);
        assert(lines(out) == ls);
        assert(out.subrange(out.len() - 1, out.len() as int) == "\n"@);
    } else {
        assert(out == a);
        lemma_lines_of_one(a);
        assert(out.subrange(out.len() - 1, out.len() as int)[0] == a[a.len() - 1]);
    }
}

/// Joined lines read back, and end with a line feed where one was put there.
pub proof fn lemma_joined_lines(ls: Seq<Seq<char>>, feed: bool)
    requires
        ls.len() > 0,
        are_plain_lines(ls),
        !feed ==> ls.last().len() > 0,
    ensures
        lines(joined(ls, "\n"@) + end_of(feed)) == ls,
        ends(joined(ls, "\n"@) + end_of(feed), "\n"@) == feed,
        joined(ls, "\n"@) + end_of(feed) != Seq::<char>::empty(),
    decreases ls.len(),
{
    let a = ls[0];
    assert(is_one_line(a) && without_return(a) == a);
    if ls.len() == 1 {
        assert(ls == seq![a]);
        lemma_one_joined_line(a, feed);
    } else {
        let ps = ls.skip(1);
        assert(ls == seq![a] + ps);
        assert forall|k: int| 0 <= k < ps.len() implies is_one_line(#[trigger] ps[k])
            && without_return(ps[k]) == ps[k] by {
            assert(ps[k] == ls[k + 1]);
        }
        lemma_joined_lines(ps, feed);
        lemma_joined_first(a, ps, "\n"@);
        let rest = joined(ps, "\n"@) + end_of(feed);
        let out = joined(ls, "\n"@) + end_of(feed);
        assert(out == a + "\n"@ + rest);
        lemma_lines_of_two(a, rest);
        assert(seq![a] + ps == ls);
        assert(ends(out, "\n"@) == ends(rest, "\n"@)) by {
            reveal_strlit("\n");
            assert(rest.len() > 0);
            assert(out.subrange(out.len() - 1, out.len() as int) == rest.subrange(
                rest.len() - 1,
                rest.len() as int,
            ));
        }
    }
}

/// Joined lines hold a text of one line only where one of them does.
proof fn lemma_joined_holds(ls: Seq<Seq<char>>, feed: bool, p: Seq<char>)
    requires
        ls.len() > 0,
        p.len() > 0,
        is_one_line(p),
        forall|k: int| 0 <= k < ls.len() ==> !holds(#[trigger] ls[k], p),
    ensures
        !holds(joined(ls, "\n"@) + end_of(feed), p),
    decreases ls.len(),
{
    reveal_strlit("\n");
    let a = ls[0];
    let out = joined(ls, "\n"@) + end_of(feed);
    if ls.len() == 1 {
        assert(joined_from(ls, "\n"@, 1) == Seq::<char>::empty());
        assert(joined(ls, "\n"@) == a);
        let none = Seq::<char>::empty();
        lemma_holds(none, p);
        if feed {
            assert(out == a + "\n"@ + none);
            if holds(out, p) {
                lemma_holds_around_feed(a, none, p);
            }
        } else {
            assert(out == a);
        }
    } else {
        let ps = ls.skip(1);
        assert(ls == seq![a] + ps);
        assert forall|k: int| 0 <= k < ps.len() implies !holds(#[trigger] ps[k], p) by {
            assert(ps[k] == ls[k + 1]);
        }
        lemma_joined_holds(ps, feed, p);
        lemma_joined_first(a, ps, "\n"@);
        let rest = joined(ps, "\n"@) + end_of(feed);
        assert(out == a + "\n"@ + rest);
        if holds(out, p) {
            lemma_holds_around_feed(a, rest, p);
        }
    }
}

/// The line that sets the mirror is one line, and does not hold the flag.
proof fn lemma_mirror_line(line: Seq<char>)
    requires
        is_one_line(line),
        trimmed(line) == "environment:"@,
    ensures
        is_one_line(mirror_line(line)),
        without_return(mirror_line(line)) == mirror_line(line),
        mirror_line(line).len() > 0,
        !holds(mirror_line(line), "npm install --no-package-lock"@),
        holds(mirror_line(line), "NPM_CONFIG_REGISTRY"@),
{
    reveal_strlit("environment:");
    reveal_strlit("npm install --no-package-lock");
    reveal_strlit("NPM_CONFIG_REGISTRY");
    reveal_strlit("  ");
    reveal_strlit(": \"");
    reveal_strlit("\"");
    reveal_strlit("https://registry.npmmirror.com");
    let flag = "npm install --no-package-lock"@;
    let depth = indentation(line);
    let n = if depth <= line.len() {
        depth
    } else {
        line.len() as int
    };
    let r = lemma_trimmed(line);
    lemma_indentation(line);
    let head = line.take(n);
    let registry = "NPM_CONFIG_REGISTRY"@;
    let tail = ": \""@ + NPM_REGISTRY_MIRROR@ + "\""@;
    let out = mirror_line(line);
    assert(out == (head + "  "@) + registry + tail);
    lemma_holds_itself(registry);
    lemma_holds_within(head + "  "@, registry, tail, registry);
    assert forall|i: int| 0 <= i < head.len() implies #[trigger] head[i] != '\n' && head[i] != 'k' by {
        assert(head[i] == line[i]);
        if r.0 <= i < r.1 {
            assert(trimmed(line)[i - r.0] == line[i]);
        } else {
            assert(is_space(line[i]));
        }
    }
    assert forall|i: int| 0 <= i < out.len() implies #[trigger] out[i] != '\n' && out[i] != 'k' by {
        if i < head.len() {
            assert(out[i] == head[i]);
        } else {
            let rest = "  "@ + registry + tail;
            assert(out[i] == rest[i - head.len()]);
        }
    }
    assert(out.last() == '"');
    lemma_holds(out, flag);
    if holds(out, flag) {
        let j = choose|j: int| matches_at(out, flag, j);
        assert(flag[28] == 'k');
        assert(out.subrange(j, j + 29)[28] == out[j + 28]);
    }
}

proof fn lemma_indentation(line: Seq<char>)
    ensures
        0 <= indentation(line),
{
    let r = lemma_trimmed_start_is_suffix(line);
    lemma_bytes_skip(line, r);
}

proof fn lemma_trimmed_start_is_suffix(s: Seq<char>) -> (k: int)
    ensures
        0 <= k <= s.len(),
        trimmed_start(s) == s.skip(k),
    decreases s.len(),
{
    if s.len() > 0 && is_space(s[0]) {
        let k = lemma_trimmed_start_is_suffix(s.skip(1));
        assert(s.skip(1).skip(k) == s.skip(k + 1));
        k + 1
    } else {
        assert(s.skip(0) == s);
        0
    }
}

/// Whether some line from `i` on wants the mirror.
spec fn some_wants(ls: Seq<Seq<char>>, i: int) -> bool
    decreases ls.len() - i,
{
    if i < 0 || i >= ls.len() {
        false
    } else {
        wants_mirror(ls, i) || some_wants(ls, i + 1)
    }
}

/// Lines with the mirror set are lines again, without the flag if there was none; where no
/// line wants the mirror, they are the lines as they were.
proof fn lemma_mirrored(ls: Seq<Seq<char>>, i: int)
    requires
        0 <= i <= ls.len(),
        are_plain_lines(ls),
        forall|k: int|
            0 <= k < ls.len() ==> !holds(#[trigger] ls[k], "npm install --no-package-lock"@),
    ensures
        ({
            let out = mirrored_from(ls, i);
            &&& are_plain_lines(out)
            &&& forall|k: int|
                0 <= k < out.len() ==> !holds(
                    #[trigger] out[k],
                    "npm install --no-package-lock"@,
                )
            &&& i < ls.len() ==> out.len() > 0 && (ls.last().len() > 0 ==> out.last().len() > 0)
            &&& !some_wants(ls, i) ==> out == ls.skip(i)
            &&& some_wants(ls, i) ==> exists|k: int|
                0 <= k < out.len() && holds(#[trigger] out[k], "NPM_CONFIG_REGISTRY"@)
        }),
    decreases ls.len() - i,
{
    let out = mirrored_from(ls, i);
    if i < ls.len() {
        lemma_mirrored(ls, i + 1);
        let rest = mirrored_from(ls, i + 1);
        let first = if wants_mirror(ls, i) {
            seq![ls[i], mirror_line(ls[i])]
        } else {
            seq![ls[i]]
        };
        assert(out == first + rest);
        assert(is_one_line(ls[i]) && without_return(ls[i]) == ls[i]);
        if wants_mirror(ls, i) {
            lemma_mirror_line(ls[i]);
            assert(out[1] == mirror_line(ls[i]));
        }
        assert forall|k: int| 0 <= k < out.len() implies is_one_line(#[trigger] out[k])
            && without_return(out[k]) == out[k] && !holds(
            out[k],
            "npm install --no-package-lock"@,
        ) by {
            if k < first.len() {
                assert(out[k] == first[k]);
            } else {
                assert(out[k] == rest[k - first.len()]);
            }
        }
        if rest.len() > 0 {
            assert(out.last() == rest.last());
        } else {
            assert(i + 1 == ls.len());
            assert(out.last() == first.last());
        }
        assert(ls.skip(i) == seq![ls[i]] + ls.skip(i + 1));
        if some_wants(ls, i) && !wants_mirror(ls, i) {
            let k = choose|k: int|
                0 <= k < rest.len() && holds(#[trigger] rest[k], "NPM_CONFIG_REGISTRY"@);
            assert(out[k + first.len()] == rest[k]);
        }
    } else {
        assert(out == ls.skip(i));
    }
}

proof fn lemma_joined_holds_part(ls: Seq<Seq<char>>, feed: bool, p: Seq<char>, k: int)
    requires
        0 <= k < ls.len(),
        are_plain_lines(ls),
        !feed ==> ls.last().len() > 0,
        holds(ls[k], p),
    ensures
        holds(joined(ls, "\n"@) + end_of(feed), p),
{
    lemma_joined_lines(ls, feed);
    lemma_line_within(joined(ls, "\n"@) + end_of(feed), p, k);
}

/// The last line of a text that does not end with a line feed is not empty.
proof fn lemma_last_line(s: Seq<char>)
    requires
        s.len() > 0,
    ensures
        lines(s).len() > 0,
        s.last() != '\n' ==> lines(s).last().len() > 0,
    decreases s.len(),
{
    reveal_strlit("\n");
    lemma_find_from(s, "\n"@, 0);
    if find_from(s, "\n"@, 0) is None {
        assert forall|i: int| 0 <= i < s.len() implies #[trigger] s[i] != '\n' by {
            if s[i] == '\n' {
                assert(s.subrange(i, i + 1) == "\n"@);
                assert(matches_at(s, "\n"@, i));
            }
        }
        lemma_lines_of_one(s);
    } else {
        let n = find_from(s, "\n"@, 0)->0;
        let a = s.take(n);
        let b = s.skip(n + 1);
        assert(s.subrange(n, n + 1)[0] == s[n]);
        assert(s == a + "\n"@ + b);
        assert forall|i: int| 0 <= i < a.len() implies #[trigger] a[i] != '\n' by {
            assert(a[i] == s[i]);
            if s[i] == '\n' {
                assert(s.subrange(i, i + 1) == "\n"@);
                assert(matches_at(s, "\n"@, i));
            }
        }
        lemma_lines_of_two(a, b);
        if b.len() > 0 {
            assert(b.last() == s.last());
            lemma_last_line(b);
            assert(lines(s).last() == lines(b).last());
        } else {
            assert(s.last() == s[n]);
        }
    }
}

/// A file whose packages come from the mirror stays as it is. Left out are files that give the
/// flag twice in a row, of which each time one is dropped, and such as hold two carriage
/// returns at the end of a line, of which each time one is dropped too.
pub proof fn law_mirrored_files_are_stable(content: Seq<char>)
    requires
        !holds(without_lock_flag(content), "npm install --no-package-lock"@),
        forall|k: int|
            0 <= k < lines(without_lock_flag(content)).len() ==> !ends(
                #[trigger] lines(without_lock_flag(content))[k],
                "\r"@,
            ),
    ensures
        with_npm_mirror(with_npm_mirror(content)) == with_npm_mirror(content),
{
    reveal_strlit("npm install");
    reveal_strlit("npm install --no-package-lock");
    reveal_strlit("\n");
    reveal_strlit("\r");
    let flag = "npm install --no-package-lock"@;
    let plain = "npm install"@;
    let stripped = without_lock_flag(content);
    if holds(content, plain) {
        lemma_without_flag_again(stripped);
        lemma_holds(content, plain);
        let j = choose|j: int| matches_at(content, plain, j);
        assert(content.len() > 0);
        lemma_replaced_last(content, flag, plain, 0);
        if !holds(stripped, "NPM_CONFIG_REGISTRY"@) {
            let ls = lines(stripped);
            let out_lines = mirrored_from(ls, 0);
            let feed = ends(content, "\n"@);
            assert(feed == (content.last() == '\n')) by {
                assert(content.subrange(content.len() - 1, content.len() as int)[0]
                    == content.last());
                if content.last() == '\n' {
                    assert(content.subrange(content.len() - 1, content.len() as int) == "\n"@);
                }
            }
            assert(plain.last() == 'l');
            if !feed {
                assert(stripped.last() != '\n');
            }
            lemma_last_line(stripped);
            lemma_lines_are_lines(stripped);
            assert forall|k: int| 0 <= k < ls.len() implies is_one_line(#[trigger] ls[k])
                && without_return(ls[k]) == ls[k] && !holds(ls[k], flag) by {
                assert(!ends(ls[k], "\r"@));
                if ls[k].len() > 0 && ls[k].last() == '\r' {
                    assert(ls[k].subrange(ls[k].len() - 1, ls[k].len() as int) == "\r"@);
                }
                if holds(ls[k], flag) {
                    lemma_line_within(stripped, flag, k);
                }
            }
            lemma_mirrored(ls, 0);
            lemma_joined_lines(out_lines, feed);
            lemma_joined_holds(out_lines, feed, flag);
            let out = with_npm_mirror(content);
            assert(out == joined(out_lines, "\n"@) + end_of(feed));
            lemma_without_flag_again(out);
            if some_wants(ls, 0) {
                let k = choose|k: int|
                    0 <= k < out_lines.len() && holds(
                        #[trigger] out_lines[k],
                        "NPM_CONFIG_REGISTRY"@,
                    );
                lemma_joined_holds_part(out_lines, feed, "NPM_CONFIG_REGISTRY"@, k);
            } else {
                assert(ls.skip(0) == ls);
                assert(lines(out) == ls);
            }
        }
    }
}

/// A file without the flag has nothing to drop.
proof fn lemma_without_flag_again(s: Seq<char>)
    requires
        !holds(s, "npm install --no-package-lock"@),
    ensures
        without_lock_flag(s) == s,
{
    reveal_strlit("npm install --no-package-lock");
    let flag = "npm install --no-package-lock"@;
    lemma_holds(s, flag);
    assert forall|j: int| 0 <= j implies !matches_at(s, flag, j) by {}
    lemma_replaced_absent(s, flag, "npm install"@, 0);
    assert(s.skip(0) == s);
}

} // verus!
