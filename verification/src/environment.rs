//! Environment files: reading, writing, and merging them with the vault and with ports.

use crate::models::{changes_view, envs, ChangeModel, EnvModel, EnvVariable, PortChange};
use crate::ports::{
    best_match, best_port, has_localhost_prefix, has_loopback_prefix, is_local_service_port_key,
    is_localhost_url, is_loopback_url, is_service_port_key, phoenix_from, phoenix_port, port_list,
    set_value, with_value,
};
use crate::text::{
    after_prefix, char_is_space, chars_of, concat2, concat3, contains, cut, decimal, decimal_of,
    ends, ends_with, find_any_from, holds, index_of_any, is_space, join, joined, lines, lines_of,
    lower, opt_str, opt_view, parse_u16, parsed, rcut, rsplit_once, same, same_ignoring_case, skip,
    split_once, starts, starts_with, strip_all_end, strip_prefix, strip_set_start, take, texts,
    to_lower, to_upper, trim, trim_end, trim_end_text, trim_start_chars, trimmed, trimmed_end,
    upper,
};
use crate::urls::{before_scheme, extract_url_port, replace_url_port, url_port, with_url_port};
use vstd::prelude::*;
use vstd::string::*;

verus! {

// ---------------------------------------------------------------------------
// Secrets
// ---------------------------------------------------------------------------

/// Whether a word stands in an underscore-separated name: alone, first, last or in between.
pub open spec fn names_word(name: Seq<char>, word: Seq<char>) -> bool {
    name == word || starts(name, word + "_"@) || ends(name, "_"@ + word) || holds(
        name,
        "_"@ + word + "_"@,
    )
}

/// Whether a variable is a secret by its name.
pub open spec fn is_secret(key: Seq<char>) -> bool {
    let name = upper(key);
    names_word(name, "KEY"@) || names_word(name, "TOKEN"@) || names_word(name, "SECRET"@)
        || names_word(name, "PASSWORD"@) || names_word(name, "CREDENTIAL"@)
}

fn name_has_word(name: &str, word: &str) -> (r: bool)
    ensures
        r == names_word(name@, word@),
{
    same(name, word) || starts_with(name, concat2(word, "_").as_str()) || ends_with(
        name,
        concat2("_", word).as_str(),
    ) || contains(name, concat3("_", word, "_").as_str())
}

pub fn is_secret_env_key(key: &str) -> (r: bool)
    ensures
        r == is_secret(key@),
{
    let name = to_upper(key);
    let name = name.as_str();
    name_has_word(name, "KEY") || name_has_word(name, "TOKEN") || name_has_word(name, "SECRET")
        || name_has_word(name, "PASSWORD") || name_has_word(name, "CREDENTIAL")
}

// ---------------------------------------------------------------------------
// Reading
// ---------------------------------------------------------------------------

/// Where an inline comment starts, from `i` on: at a hash sign outside quotes behind white
/// space. `quote` is the quote that is open at `i`; `escaped` says that the character at `i`
/// stands behind a backslash within double quotes.
pub open spec fn hash_from(raw: Seq<char>, i: int, quote: Option<char>, escaped: bool) -> Option<int>
    decreases raw.len() - i,
{
    if i < 0 || i >= raw.len() {
        None
    } else {
        let c = raw[i];
        if escaped {
            hash_from(raw, i + 1, quote, false)
        } else if c == '\\' && quote == Some('"') {
            hash_from(raw, i + 1, quote, true)
        } else if c == '\'' || c == '"' {
            hash_from(
                raw,
                i + 1,
                if quote == Some(c) {
                    None
                } else if quote is None {
                    Some(c)
                } else {
                    quote
                },
                false,
            )
        } else if c == '#' && quote is None && i > 0 && is_space(raw[i - 1]) {
            Some(i)
        } else {
            hash_from(raw, i + 1, quote, false)
        }
    }
}

/// A raw value cut into the value and its inline comment, if that is not blank.
pub open spec fn value_and_comment(raw: Seq<char>) -> (Seq<char>, Option<Seq<char>>) {
    match hash_from(raw, 0, None, false) {
        None => (raw, None),
        Some(k) => {
            let comment = trimmed(raw.skip(k + 1));
            (
                trimmed_end(raw.take(k)),
                if comment.len() > 0 {
                    Some(comment)
                } else {
                    None
                },
            )
        },
    }
}

pub fn split_env_value(raw: &str) -> (r: (String, Option<String>))
    ensures
        (r.0@, opt_view(r.1)) == value_and_comment(raw@),
{
    let v = chars_of(raw);
    let mut quote: Option<char> = None;
    let mut escaped: bool = false;
    let mut i: usize = 0;
    while i < v.len()
        invariant
            i <= v@.len(),
            hash_from(v@, 0, None, false) == hash_from(v@, i as int, quote, escaped),
        decreases v@.len() - i,
    {
        let c = v[i];
        if escaped {
            escaped = false;
        } else {
            let in_double: bool = match quote {
                Some(q) => q == '"',
                None => false,
            };
            if c == '\\' && in_double {
                escaped = true;
            } else if c == '\'' || c == '"' {
                match quote {
                    Some(q) => {
                        if q == c {
                            quote = None;
                        }
                    },
                    None => {
                        quote = Some(c);
                    },
                }
            } else if c == '#' && quote.is_none() && i > 0 && char_is_space(v[i - 1]) {
                let comment = trim(skip(raw, i + 1));
                let value = trim_end(take(raw, i)).to_owned();
                if comment.is_empty() {
                    return (value, None);
                }
                return (value, Some(comment.to_owned()));
            }
        }
        i = i + 1;
    }
    (raw.to_owned(), None)
}

/// The key and the raw value of a line `KEY=value`, with or without `export`, if the key is
/// not blank.
pub open spec fn assignment(line: Seq<char>) -> Option<(Seq<char>, Seq<char>)> {
    let body = match after_prefix(line, "export "@) {
        Some(rest) => rest,
        None => line,
    };
    match cut(body, "="@) {
        Some(p) => if trimmed(p.0).len() > 0 {
            Some((trimmed(p.0), trimmed(p.1)))
        } else {
            None
        },
        None => None,
    }
}

/// A comment line without hash signs and white space around its text.
pub open spec fn comment_text(line: Seq<char>) -> Seq<char> {
    trimmed(strip_set_start(line, "#"@))
}

/// The entry that an assignment gives, with the comment lines above it and beside it.
pub open spec fn entry_of(p: (Seq<char>, Seq<char>), above: Seq<Seq<char>>) -> EnvModel {
    let v = value_and_comment(p.1);
    let all = match v.1 {
        Some(beside) => above.push(beside),
        None => above,
    };
    EnvModel {
        key: p.0,
        value: v.0,
        comment: trimmed(joined(all, "\n"@)),
        source: "template"@,
        modified: false,
    }
}

/// The comment lines that are open behind a line that is no assignment.
pub open spec fn comments_after(line: Seq<char>, above: Seq<Seq<char>>) -> Seq<Seq<char>> {
    if starts(line, "#"@) {
        above.push(comment_text(line))
    } else if line.len() == 0 && above.len() > 0 {
        above.push(Seq::empty())
    } else {
        above
    }
}

/// The entries of an environment file, given as lines, below the comment lines `above`.
pub open spec fn entries_of(ls: Seq<Seq<char>>, above: Seq<Seq<char>>) -> Seq<EnvModel>
    decreases ls.len(),
{
    if ls.len() == 0 {
        Seq::empty()
    } else {
        let line = trimmed(ls[0]);
        if starts(line, "#"@) || line.len() == 0 || assignment(line) is None {
            entries_of(ls.drop_first(), comments_after(line, above))
        } else {
            seq![entry_of(assignment(line)->0, above)] + entries_of(ls.drop_first(), Seq::empty())
        }
    }
}

/// The entries of an environment file.
pub open spec fn env_entries(content: Seq<char>) -> Seq<EnvModel> {
    entries_of(lines(content), Seq::empty())
}

/// Reads an environment file: assignments, each with the comments above it and beside it.
pub fn parse_env(content: &str) -> (r: Vec<EnvVariable>)
    ensures
        envs(r@) == env_entries(content@),
{
    let ls = lines_of(content);
    let ghost cs = lines(content@);
    let mut entries: Vec<EnvVariable> = Vec::new();
    let mut comments: Vec<String> = Vec::new();
    let mut i: usize = 0;
    assert(cs.skip(0) == cs);
    assert(texts(comments@) == Seq::<Seq<char>>::empty());
    while i < ls.len()
        invariant
            i <= ls@.len(),
            texts(ls@) == cs,
            envs(entries@) + entries_of(cs.skip(i as int), texts(comments@)) == env_entries(
                content@,
            ),
        decreases ls@.len() - i,
    {
        let line = trim(ls[i].as_str());
        let ghost above = texts(comments@);
        let ghost before = envs(entries@);
        assert(cs.skip(i as int)[0] == ls@[i as int]@);
        assert(cs.skip(i as int).drop_first() == cs.skip(i + 1));
        if starts_with(line, "#") {
            let comment = trim(trim_start_chars(line, "#")).to_owned();
            comments.push(comment);
            assert(texts(comments@) == above.push(comment@));
        } else if line.is_empty() {
            if comments.len() > 0 {
                let blank = String::new();
                comments.push(blank);
                assert(texts(comments@) == above.push(blank@));
            }
        } else {
            let body = match strip_prefix(line, "export ") {
                Some(rest) => rest,
                None => line,
            };
            if let Some(p) = split_once(body, "=") {
                let key = trim(p.0);
                if !key.is_empty() {
                    let (value, beside) = split_env_value(trim(p.1));
                    if let Some(beside) = beside {
                        comments.push(beside);
                        assert(texts(comments@) == above.push(beside@));
                    }
                    let comment = trim(join(&comments, "\n").as_str()).to_owned();
                    let entry = EnvVariable {
                        key: key.to_owned(),
                        value,
                        comment,
                        source: "template".to_owned(),
                        modified: false,
                    };
                    let ghost model = entry@;
                    entries.push(entry);
                    assert(envs(entries@) == before.push(model));
                    comments = Vec::new();
                    assert(texts(comments@) == Seq::<Seq<char>>::empty());
                    assert(model == entry_of(assignment(line@)->0, above));
                    assert(before.push(model) + entries_of(cs.skip(i + 1), Seq::empty()) == before
                        + (seq![model] + entries_of(cs.skip(i + 1), Seq::empty())));
                }
            }
        }
        i = i + 1;
    }
    assert(envs(entries@) + Seq::<EnvModel>::empty() == envs(entries@));
    entries
}

// ---------------------------------------------------------------------------
// Writing
// ---------------------------------------------------------------------------

/// The comment lines from `i` on, each behind a hash sign.
pub open spec fn comment_lines_from(ls: Seq<Seq<char>>, i: int) -> Seq<char>
    decreases ls.len() - i,
{
    if i < 0 || i >= ls.len() {
        Seq::empty()
    } else {
        "# "@ + trimmed(ls[i]) + "\n"@ + comment_lines_from(ls, i + 1)
    }
}

/// An entry as it stands in a file.
pub open spec fn rendered_entry(e: EnvModel) -> Seq<char> {
    (if trimmed(e.comment).len() > 0 {
        comment_lines_from(lines(e.comment), 0)
    } else {
        Seq::empty()
    }) + (e.key + "="@ + e.value + "\n\n"@)
}

/// The entries from `i` on as they stand in a file.
pub open spec fn rendered_from(env: Seq<EnvModel>, i: int) -> Seq<char>
    decreases env.len() - i,
{
    if i < 0 || i >= env.len() {
        Seq::empty()
    } else {
        rendered_entry(env[i]) + rendered_from(env, i + 1)
    }
}

/// Entries as an environment file.
pub open spec fn rendered(env: Seq<EnvModel>) -> Seq<char> {
    rendered_from(env, 0)
}

fn render_comment(comment: &str) -> (r: String)
    ensures
        r@ == comment_lines_from(lines(comment@), 0),
{
    let ls = lines_of(comment);
    let ghost cs = lines(comment@);
    let mut out = String::new();
    let mut i: usize = 0;
    while i < ls.len()
        invariant
            i <= ls@.len(),
            texts(ls@) == cs,
            out@ + comment_lines_from(cs, i as int) == comment_lines_from(cs, 0),
        decreases ls@.len() - i,
    {
        assert(cs[i as int] == ls@[i as int]@);
        let ghost before = out@;
        let ghost rest = comment_lines_from(cs, i + 1);
        let t = trim(ls[i].as_str());
        out.append("# ");
        out.append(t);
        out.append("\n");
        assert(out@ + rest == before + ("# "@ + t@ + "\n"@ + rest));
        i = i + 1;
    }
    assert(out@ + Seq::<char>::empty() == out@);
    out
}

/// Writes entries as an environment file, each below its comment and above a blank line.
pub fn render_env(entries: &Vec<EnvVariable>) -> (r: String)
    ensures
        r@ == rendered(envs(entries@)),
{
    let ghost env = envs(entries@);
    let mut output = String::new();
    let mut i: usize = 0;
    while i < entries.len()
        invariant
            i <= entries@.len(),
            env == envs(entries@),
            output@ + rendered_from(env, i as int) == rendered(env),
        decreases entries@.len() - i,
    {
        assert(env[i as int] == entries@[i as int]@);
        let ghost before = output@;
        let ghost rest = rendered_from(env, i + 1);
        let entry = &entries[i];
        let ghost head = if trimmed(entry@.comment).len() > 0 {
            comment_lines_from(lines(entry@.comment), 0)
        } else {
            Seq::empty()
        };
        if !trim(entry.comment.as_str()).is_empty() {
            output.append(render_comment(entry.comment.as_str()).as_str());
        }
        assert(output@ == before + head);
        output.append(entry.key.as_str());
        output.append("=");
        output.append(entry.value.as_str());
        output.append("\n\n");
        assert(output@ + rest == before + (head + (entry@.key + "="@ + entry@.value + "\n\n"@)
            + rest));
        i = i + 1;
    }
    assert(output@ + Seq::<char>::empty() == output@);
    output
}

// ---------------------------------------------------------------------------
// Values for processes and logs
// ---------------------------------------------------------------------------

/// Whether a text is wrapped in a pair of the same quotes.
pub open spec fn is_quoted(s: Seq<char>) -> bool {
    s.len() >= 2 && s[0] == s.last() && (s[0] == '\'' || s[0] == '"')
}

/// A value as a process gets it: without white space and one pair of quotes around it.
pub open spec fn plain_value(raw: Seq<char>) -> Seq<char> {
    let value = trimmed(raw);
    if is_quoted(value) {
        value.subrange(1, value.len() - 1)
    } else {
        value
    }
}

pub fn process_env_value(raw: &str) -> (r: String)
    ensures
        r@ == plain_value(raw@),
{
    let value = trim(raw);
    let v = chars_of(value);
    let n: usize = v.len();
    if n >= 2 && v[0] == v[n - 1] && (v[0] == '\'' || v[0] == '"') {
        return value.substring_char(1, n - 1).to_owned();
    }
    value.to_owned()
}

/// Whether an entry tells where a service of the instance listens.
pub open spec fn locates_service(e: EnvModel) -> bool {
    is_service_port_key(e.key) || (holds(upper(e.key), "URL"@) && (holds(e.value, "127.0.0.1"@)
        || holds(e.value, "localhost"@) || holds(e.value, "0.0.0.0"@) || holds(
        e.value,
        "[::1]"@,
    )))
}

/// The lines `KEY=value` of the entries from `i` on that tell where services listen.
pub open spec fn location_lines(env: Seq<EnvModel>, i: int) -> Seq<Seq<char>>
    decreases env.len() - i,
{
    if i < 0 || i >= env.len() {
        Seq::empty()
    } else if locates_service(env[i]) {
        seq![env[i].key + "="@ + env[i].value] + location_lines(env, i + 1)
    } else {
        location_lines(env, i + 1)
    }
}

/// Lists the entries that tell where the services of an instance listen.
pub fn runtime_environment_summary(entries: &Vec<EnvVariable>) -> (r: String)
    ensures
        r@ == joined(location_lines(envs(entries@), 0), "\n"@),
{
    let ghost env = envs(entries@);
    let mut found: Vec<String> = Vec::new();
    let mut i: usize = 0;
    while i < entries.len()
        invariant
            i <= entries@.len(),
            env == envs(entries@),
            texts(found@) + location_lines(env, i as int) == location_lines(env, 0),
        decreases entries@.len() - i,
    {
        assert(env[i as int] == entries@[i as int]@);
        let entry = &entries[i];
        let value = entry.value.as_str();
        if is_local_service_port_key(entry.key.as_str()) || (contains(
            to_upper(entry.key.as_str()).as_str(),
            "URL",
        ) && (contains(value, "127.0.0.1") || contains(value, "localhost") || contains(
            value,
            "0.0.0.0",
        ) || contains(value, "[::1]"))) {
            let ghost before = texts(found@);
            let ghost rest = location_lines(env, i + 1);
            let line = concat3(entry.key.as_str(), "=", value);
            found.push(line);
            assert(texts(found@) == before.push(line@));
            assert(before.push(line@) + rest == before + (seq![line@] + rest));
        }
        i = i + 1;
    }
    assert(texts(found@) + Seq::<Seq<char>>::empty() == texts(found@));
    join(&found, "\n")
}

// ---------------------------------------------------------------------------
// Ports of other files
// ---------------------------------------------------------------------------

/// The service ports that entries assign from `i` on, under upper-case names without `_PORT`.
pub open spec fn upper_ports_from(env: Seq<EnvModel>, i: int) -> Seq<(Seq<char>, int)>
    decreases env.len() - i,
{
    if i < 0 || i >= env.len() {
        Seq::empty()
    } else if is_service_port_key(env[i].key) && parsed(trimmed(env[i].value), 65535) is Some {
        seq![
            (
                strip_all_end(upper(env[i].key), "_PORT"@),
                parsed(trimmed(env[i].value), 65535)->0,
            ),
        ] + upper_ports_from(env, i + 1)
    } else {
        upper_ports_from(env, i + 1)
    }
}

pub fn local_env_port_values(entries: &Vec<EnvVariable>) -> (r: Vec<(String, u16)>)
    ensures
        port_list(r@) == upper_ports_from(envs(entries@), 0),
{
    proof {
        reveal_strlit("_PORT");
    }
    let ghost env = envs(entries@);
    let mut r: Vec<(String, u16)> = Vec::new();
    let mut i: usize = 0;
    while i < entries.len()
        invariant
            i <= entries@.len(),
            env == envs(entries@),
            port_list(r@) + upper_ports_from(env, i as int) == upper_ports_from(env, 0),
        decreases entries@.len() - i,
    {
        assert(env[i as int] == entries@[i as int]@);
        if is_local_service_port_key(entries[i].key.as_str()) {
            if let Some(port) = parse_u16(trim(entries[i].value.as_str())) {
                let ghost before = port_list(r@);
                let ghost rest = upper_ports_from(env, i + 1);
                let key = to_upper(entries[i].key.as_str());
                let name = trim_end_text(key.as_str(), "_PORT").to_owned();
                r.push((name, port));
                assert(port_list(r@) == before.push((name@, port as int)));
                assert(before.push((name@, port as int)) + rest == before + (seq![
                    (name@, port as int),
                ] + rest));
            }
        }
        i = i + 1;
    }
    assert(port_list(r@) + Seq::<(Seq<char>, int)>::empty() == port_list(r@));
    r
}

/// The value of the last entry with the given upper-case key, in any case.
pub open spec fn last_value_of(env: Seq<EnvModel>, key: Seq<char>) -> Option<Seq<char>>
    decreases env.len(),
{
    if env.len() == 0 {
        None
    } else if upper(env.last().key) == key {
        Some(env.last().value)
    } else {
        last_value_of(env.drop_last(), key)
    }
}

fn find_last_value<'a>(env: &'a Vec<EnvVariable>, key: &str) -> (r: Option<&'a str>)
    ensures
        opt_str(r) == last_value_of(envs(env@), key@),
{
    let mut i: usize = env.len();
    assert(envs(env@).take(env@.len() as int) == envs(env@));
    while i > 0
        invariant
            i <= env@.len(),
            last_value_of(envs(env@), key@) == last_value_of(envs(env@).take(i as int), key@),
        decreases i,
    {
        let ghost e = envs(env@).take(i as int);
        assert(e.last() == env@[i - 1]@);
        assert(e.drop_last() == envs(env@).take(i - 1));
        if same(to_upper(env[i - 1].key.as_str()).as_str(), key) {
            return Some(env[i - 1].value.as_str());
        }
        i = i - 1;
    }
    None
}

/// An entry of another file after the root environment: it takes the value of its key, else
/// a URL on this machine takes the port that its name contains.
pub open spec fn followed(e: EnvModel, root: Seq<EnvModel>) -> EnvModel {
    let key = upper(e.key);
    match last_value_of(root, key) {
        Some(v) => EnvModel { value: v, ..e },
        None => if is_loopback_url(e.value) {
            match best_match(upper_ports_from(root, 0), key) {
                Some(p) => EnvModel { value: with_url_port(e.value, p.1 as nat), ..e },
                None => e,
            }
        } else {
            e
        },
    }
}

/// Makes the entries of another file follow the root environment.
pub fn synchronize_env_entries(target: &mut Vec<EnvVariable>, root: &Vec<EnvVariable>)
    ensures
        envs(final(target)@) == envs(old(target)@).map_values(
            |e: EnvModel| followed(e, envs(root@)),
        ),
{
    let ghost start = envs(target@);
    let ghost env = envs(root@);
    let local_ports = local_env_port_values(root);
    let mut i: usize = 0;
    while i < target.len()
        invariant
            i <= target@.len(),
            start.len() == target@.len(),
            env == envs(root@),
            forall|j: int| 0 <= j < i ==> (#[trigger] target@[j])@ == followed(start[j], env),
            forall|j: int| i <= j < start.len() ==> (#[trigger] target@[j])@ == start[j],
        decreases target@.len() - i,
    {
        let mut e = target[i].duplicate();
        let key = to_upper(e.key.as_str());
        match find_last_value(root, key.as_str()) {
            Some(value) => {
                e.value = value.to_owned();
            },
            None => {
                if has_loopback_prefix(e.value.as_str()) {
                    if let Some(port) = best_port(&local_ports, key.as_str()) {
                        e.value = replace_url_port(e.value.as_str(), port);
                    }
                }
            },
        }
        target.set(i, e);
        i = i + 1;
    }
}

// ---------------------------------------------------------------------------
// The vault
// ---------------------------------------------------------------------------

/// The host of a URL without its port; of an IPv6 address what stands before the bracket
/// that closes it.
pub open spec fn host_of(url: Seq<char>) -> Option<Seq<char>> {
    match cut(url, "://"@) {
        None => None,
        Some(p) => {
            let rest = before_scheme(p.1);
            let authority = match find_any_from(rest, "/?#"@, true, 0) {
                Some(k) => rest.take(k),
                None => rest,
            };
            if starts(authority, "["@) {
                match cut(authority, "]"@) {
                    Some(q) => Some(q.0),
                    None => None,
                }
            } else {
                match rcut(authority, ":"@) {
                    Some(q) => Some(q.0),
                    None => Some(authority),
                }
            }
        },
    }
}

pub fn url_host(url: &str) -> (r: Option<&str>)
    ensures
        opt_str(r) == host_of(url@),
{
    match split_once(url, "://") {
        None => None,
        Some(p) => {
            let rest = match split_once(p.1, "://") {
                Some(q) => q.0,
                None => p.1,
            };
            let authority = match index_of_any(rest, "/?#", true) {
                Some(k) => take(rest, k),
                None => rest,
            };
            if starts_with(authority, "[") {
                match split_once(authority, "]") {
                    Some(q) => Some(q.0),
                    None => None,
                }
            } else {
                match rsplit_once(authority, ":") {
                    Some(q) => Some(q.0),
                    None => Some(authority),
                }
            }
        },
    }
}

/// Whether a variable holds a URL or an endpoint.
pub open spec fn is_address_key(key: Seq<char>) -> bool {
    holds(upper(key), "URL"@) || holds(upper(key), "ENDPOINT"@)
}

fn key_is_address(key: &str) -> (r: bool)
    ensures
        r == is_address_key(key@),
{
    let name = to_upper(key);
    contains(name.as_str(), "URL") || contains(name.as_str(), "ENDPOINT")
}

/// Whether a value names a host without a dot that is not this machine: one that only
/// resolves inside a container network.
pub open spec fn is_container_url(value: Seq<char>) -> bool {
    !is_loopback_url(value) && host_of(value) is Some && !holds(host_of(value)->0, "."@)
}

fn names_container_host(value: &str) -> (r: bool)
    ensures
        r == is_container_url(value@),
{
    !has_loopback_prefix(value) && match url_host(value) {
        Some(host) => !contains(host, "."),
        None => false,
    }
}

/// The last entry with the given key.
pub open spec fn last_entry(env: Seq<EnvModel>, key: Seq<char>) -> Option<EnvModel>
    decreases env.len(),
{
    if env.len() == 0 {
        None
    } else if env.last().key == key {
        Some(env.last())
    } else {
        last_entry(env.drop_last(), key)
    }
}

fn find_last_entry<'a>(env: &'a Vec<EnvVariable>, key: &str) -> (r: Option<&'a EnvVariable>)
    ensures
        match r {
            Some(e) => last_entry(envs(env@), key@) == Some(e@),
            None => last_entry(envs(env@), key@) is None,
        },
{
    let mut i: usize = env.len();
    assert(envs(env@).take(env@.len() as int) == envs(env@));
    while i > 0
        invariant
            i <= env@.len(),
            last_entry(envs(env@), key@) == last_entry(envs(env@).take(i as int), key@),
        decreases i,
    {
        let ghost e = envs(env@).take(i as int);
        assert(e.last() == env@[i - 1]@);
        assert(e.drop_last() == envs(env@).take(i - 1));
        if same(env[i - 1].key.as_str(), key) {
            return Some(&env[i - 1]);
        }
        i = i - 1;
    }
    None
}

/// Whether the vault's value of an entry is taken over: not for ports of the instance, not if
/// it is blank, and not if it would put a container host where the file has this machine.
pub open spec fn takes_saved(e: EnvModel, saved: EnvModel) -> bool {
    !is_service_port_key(e.key) && trimmed(saved.value).len() > 0 && !(is_loopback_url(e.value)
        && is_address_key(e.key) && is_container_url(saved.value))
}

/// An entry of a file merged with the vault: the vault fills in a missing comment and, where
/// it may, the value.
pub open spec fn merged_entry(e: EnvModel, vault: Seq<EnvModel>) -> EnvModel {
    match last_entry(vault, e.key) {
        None => e,
        Some(saved) => {
            let comment = if e.comment.len() == 0 {
                saved.comment
            } else {
                e.comment
            };
            if takes_saved(e, saved) {
                EnvModel { comment, value: saved.value, source: "vault"@, ..e }
            } else {
                EnvModel { comment, ..e }
            }
        },
    }
}

/// The entries of a file merged with the vault.
pub open spec fn merged(source: Seq<EnvModel>, vault: Seq<EnvModel>) -> Seq<EnvModel> {
    source.map_values(|e: EnvModel| merged_entry(e, vault))
}

/// Merges the entries of a file with the vault.
pub fn merge_env_entries(source: &Vec<EnvVariable>, vault: &Vec<EnvVariable>) -> (r: Vec<
    EnvVariable,
>)
    ensures
        envs(r@) == merged(envs(source@), envs(vault@)),
{
    let ghost vs = envs(vault@);
    let ghost ss = envs(source@);
    let mut r: Vec<EnvVariable> = Vec::new();
    let mut i: usize = 0;
    while i < source.len()
        invariant
            i <= source@.len(),
            r@.len() == i,
            vs == envs(vault@),
            ss == envs(source@),
            forall|j: int| 0 <= j < i ==> (#[trigger] r@[j])@ == merged_entry(ss[j], vs),
        decreases source@.len() - i,
    {
        assert(ss[i as int] == source@[i as int]@);
        let mut e = source[i].duplicate();
        if let Some(saved) = find_last_entry(vault, e.key.as_str()) {
            let loopback: bool = has_loopback_prefix(e.value.as_str());
            let container: bool = key_is_address(e.key.as_str()) && names_container_host(
                saved.value.as_str(),
            );
            if e.comment.as_str().is_empty() {
                e.comment = saved.comment.clone();
            }
            if !is_local_service_port_key(e.key.as_str()) && !trim(
                saved.value.as_str(),
            ).is_empty() && !(loopback && container) {
                e.value = saved.value.clone();
                e.source = "vault".to_owned();
            }
        }
        r.push(e);
        i = i + 1;
    }
    r
}

/// Merges the entries of a file with what the vault holds now.
pub fn merged_env(vault: &Vec<EnvVariable>, source: &Vec<EnvVariable>) -> (r: Vec<EnvVariable>)
    ensures
        envs(r@) == merged(envs(source@), envs(vault@)),
{
    merge_env_entries(source, vault)
}

/// Whether some entry has the key.
pub open spec fn has_entry(env: Seq<EnvModel>, key: Seq<char>) -> bool {
    exists|i: int| 0 <= i < env.len() && (#[trigger] env[i]).key == key
}

fn entry_position(entries: &Vec<EnvVariable>, key: &str) -> (r: Option<usize>)
    ensures
        match r {
            Some(k) => k < entries@.len() && envs(entries@)[k as int].key == key@ && (forall|j: int|
                0 <= j < k ==> (#[trigger] envs(entries@)[j]).key != key@),
            None => !has_entry(envs(entries@), key@),
        },
{
    let ghost env = envs(entries@);
    let mut i: usize = 0;
    while i < entries.len()
        invariant
            i <= entries@.len(),
            env == envs(entries@),
            forall|j: int| 0 <= j < i ==> (#[trigger] env[j]).key != key@,
        decreases entries@.len() - i,
    {
        assert(env[i as int] == entries@[i as int]@);
        if same(entries[i].key.as_str(), key) {
            return Some(i);
        }
        i = i + 1;
    }
    None
}

/// The entries with those of the vault from `i` on appended whose key is not blank and not
/// there yet.
pub open spec fn completed_from(env: Seq<EnvModel>, vault: Seq<EnvModel>, i: int) -> Seq<EnvModel>
    decreases vault.len() - i,
{
    if i < 0 || i >= vault.len() {
        env
    } else if trimmed(vault[i].key).len() > 0 && !has_entry(env, vault[i].key) {
        completed_from(env.push(vault[i]), vault, i + 1)
    } else {
        completed_from(env, vault, i + 1)
    }
}

/// Appends the entries of the vault whose key the entries lack, so that an export drops none.
pub fn append_vault_only_entries(entries: &mut Vec<EnvVariable>, vault: &Vec<EnvVariable>)
    ensures
        envs(final(entries)@) == completed_from(envs(old(entries)@), envs(vault@), 0),
{
    let ghost start = envs(entries@);
    let ghost vs = envs(vault@);
    let mut i: usize = 0;
    while i < vault.len()
        invariant
            i <= vault@.len(),
            vs == envs(vault@),
            completed_from(start, vs, 0) == completed_from(envs(entries@), vs, i as int),
        decreases vault@.len() - i,
    {
        assert(vs[i as int] == vault@[i as int]@);
        let saved = &vault[i];
        if !trim(saved.key.as_str()).is_empty() {
            if entry_position(entries, saved.key.as_str()).is_none() {
                let ghost before = envs(entries@);
                let copy = saved.duplicate();
                let ghost model = copy@;
                entries.push(copy);
                assert(envs(entries@) == before.push(model));
            }
        }
        i = i + 1;
    }
}

/// Exporting loses nothing: every key of the vault that is not blank is among the entries
/// afterwards, and the entries that were there stand first, as they were.
pub proof fn law_export_holds_the_whole_vault(
    env: Seq<EnvModel>,
    vault: Seq<EnvModel>,
    i: int,
    k: int,
)
    requires
        0 <= i <= vault.len(),
        i <= k < vault.len(),
        trimmed(vault[k].key).len() > 0,
    ensures
        has_entry(completed_from(env, vault, i), vault[k].key),
        env.len() <= completed_from(env, vault, i).len(),
        completed_from(env, vault, i).take(env.len() as int) == env,
    decreases vault.len() - i,
{
    lemma_completed_keeps(env, vault, i);
    let next = if trimmed(vault[i].key).len() > 0 && !has_entry(env, vault[i].key) {
        env.push(vault[i])
    } else {
        env
    };
    if k == i {
        lemma_completed_keeps(next, vault, i + 1);
        let out = completed_from(next, vault, i + 1);
        assert(has_entry(next, vault[i].key)) by {
            if next != env {
                assert(next[env.len() as int].key == vault[i].key);
            }
        }
        let j = choose|j: int| 0 <= j < next.len() && (#[trigger] next[j]).key == vault[i].key;
        assert(out[j] == out.take(next.len() as int)[j]);
    } else {
        law_export_holds_the_whole_vault(next, vault, i + 1, k);
    }
}

proof fn lemma_completed_keeps(env: Seq<EnvModel>, vault: Seq<EnvModel>, i: int)
    requires
        0 <= i,
    ensures
        env.len() <= completed_from(env, vault, i).len(),
        completed_from(env, vault, i).take(env.len() as int) == env,
    decreases vault.len() - i,
{
    if i < vault.len() {
        if trimmed(vault[i].key).len() > 0 && !has_entry(env, vault[i].key) {
            let next = env.push(vault[i]);
            lemma_completed_keeps(next, vault, i + 1);
            let out = completed_from(next, vault, i + 1);
            assert(out.take(env.len() as int) == out.take(next.len() as int).take(env.len() as int));
            assert(next.take(env.len() as int) == env);
        } else {
            lemma_completed_keeps(env, vault, i + 1);
        }
    } else {
        assert(env.take(env.len() as int) == env);
    }
}

// ---------------------------------------------------------------------------
// Saving an environment
// ---------------------------------------------------------------------------

/// The entries whose key is not blank.
pub open spec fn with_keys(env: Seq<EnvModel>) -> Seq<EnvModel> {
    env.filter(|e: EnvModel| trimmed(e.key).len() > 0)
}

/// Drops the rows whose key was left blank.
pub fn retain_keyed(entries: Vec<EnvVariable>) -> (r: Vec<EnvVariable>)
    ensures
        envs(r@) == with_keys(envs(entries@)),
{
    let ghost env = envs(entries@);
    let ghost keep = |e: EnvModel| trimmed(e.key).len() > 0;
    let mut r: Vec<EnvVariable> = Vec::new();
    let mut i: usize = 0;
    assert(env.take(0).filter(keep) == Seq::<EnvModel>::empty()) by {
        reveal(Seq::filter);
    }
    while i < entries.len()
        invariant
            i <= entries@.len(),
            env == envs(entries@),
            envs(r@) == env.take(i as int).filter(keep),
        decreases entries@.len() - i,
    {
        assert(env[i as int] == entries@[i as int]@);
        assert(env.take(i + 1).drop_last() == env.take(i as int));
        assert(env.take(i + 1).last() == env[i as int]);
        let ghost before = envs(r@);
        proof {
            reveal(Seq::filter);
        }
        if !trim(entries[i].key.as_str()).is_empty() {
            let copy = entries[i].duplicate();
            let ghost model = copy@;
            r.push(copy);
            assert(envs(r@) == before.push(model));
        }
        i = i + 1;
    }
    assert(env.take(env.len() as int) == env);
    r
}

/// Whether an entry turns LangSmith tracing on or off, in any case.
pub open spec fn sets_tracing(e: EnvModel) -> bool {
    lower(e.key) == lower("LANGSMITH_TRACING"@)
}

/// The entry that turns LangSmith tracing off.
pub open spec fn tracing_off() -> EnvModel {
    EnvModel {
        key: "LANGSMITH_TRACING"@,
        value: "false"@,
        comment: "Disable LangSmith tracing to avoid metadata submission warnings"@,
        source: "instance"@,
        modified: true,
    }
}

/// The entries with LangSmith tracing turned off, unless they say something about it.
pub open spec fn with_tracing_choice(env: Seq<EnvModel>) -> Seq<EnvModel> {
    if exists|i: int| 0 <= i < env.len() && sets_tracing(#[trigger] env[i]) {
        env
    } else {
        env.push(tracing_off())
    }
}

/// Turns LangSmith tracing off where the entries leave it open.
pub fn ensure_tracing_choice(entries: &mut Vec<EnvVariable>)
    ensures
        envs(final(entries)@) == with_tracing_choice(envs(old(entries)@)),
{
    let ghost env = envs(entries@);
    let mut i: usize = 0;
    while i < entries.len()
        invariant
            i <= entries@.len(),
            env == envs(entries@),
            forall|j: int| 0 <= j < i ==> !sets_tracing(#[trigger] env[j]),
        decreases entries@.len() - i,
    {
        assert(env[i as int] == entries@[i as int]@);
        if same_ignoring_case(entries[i].key.as_str(), "LANGSMITH_TRACING") {
            return;
        }
        i = i + 1;
    }
    let entry = EnvVariable {
        key: "LANGSMITH_TRACING".to_owned(),
        value: "false".to_owned(),
        comment: "Disable LangSmith tracing to avoid metadata submission warnings".to_owned(),
        source: "instance".to_owned(),
        modified: true,
    };
    let ghost model = entry@;
    entries.push(entry);
    assert(envs(entries@) == env.push(model));
}

/// Whether an entry of an instance is carried over to the vault: it was modified and, unless
/// ports are to be shared too, is no port of the instance.
pub open spec fn is_shared(e: EnvModel, ports_too: bool) -> bool {
    e.modified && (ports_too || !is_service_port_key(e.key))
}

/// The first position from `i` on of an entry with the key, or the length.
pub open spec fn position_from(env: Seq<EnvModel>, key: Seq<char>, i: int) -> int
    decreases env.len() - i,
{
    if i < 0 || i >= env.len() || env[i].key == key {
        i
    } else {
        position_from(env, key, i + 1)
    }
}

fn position_of(entries: &Vec<EnvVariable>, key: &str) -> (r: usize)
    ensures
        r == position_from(envs(entries@), key@, 0),
        r <= entries@.len(),
        r < entries@.len() ==> entries@[r as int].key@ == key@,
{
    let ghost env = envs(entries@);
    let mut i: usize = 0;
    while i < entries.len()
        invariant
            i <= entries@.len(),
            env == envs(entries@),
            position_from(env, key@, 0) == position_from(env, key@, i as int),
        decreases entries@.len() - i,
    {
        assert(env[i as int] == entries@[i as int]@);
        if same(entries[i].key.as_str(), key) {
            return i;
        }
        i = i + 1;
    }
    i
}

/// The vault with one entry of an instance saved: value and comment of the first entry with
/// its key are exchanged, or it is appended.
pub open spec fn vault_with(vault: Seq<EnvModel>, e: EnvModel) -> Seq<EnvModel> {
    let k = position_from(vault, e.key, 0);
    if k < vault.len() {
        vault.update(
            k,
            EnvModel {
                value: e.value,
                comment: e.comment,
                source: "instance"@,
                modified: false,
                ..vault[k]
            },
        )
    } else {
        vault.push(EnvModel { source: "instance"@, modified: false, ..e })
    }
}

/// The vault and the number of saved entries after those from `i` on.
pub open spec fn shared_from(
    vault: Seq<EnvModel>,
    env: Seq<EnvModel>,
    ports_too: bool,
    i: int,
    count: int,
) -> (Seq<EnvModel>, int)
    decreases env.len() - i,
{
    if i < 0 || i >= env.len() {
        (vault, count)
    } else if is_shared(env[i], ports_too) {
        shared_from(vault_with(vault, env[i]), env, ports_too, i + 1, count + 1)
    } else {
        shared_from(vault, env, ports_too, i + 1, count)
    }
}

/// Carries the modified entries of an instance over to the vault and counts them. Ports of
/// the instance stay out unless `ports_too` is set.
pub fn share_with_vault(
    vault: &mut Vec<EnvVariable>,
    entries: &Vec<EnvVariable>,
    ports_too: bool,
) -> (count: usize)
    ensures
        (envs(final(vault)@), count as int) == shared_from(
            envs(old(vault)@),
            envs(entries@),
            ports_too,
            0,
            0,
        ),
{
    let ghost start = envs(vault@);
    let ghost env = envs(entries@);
    let mut count: usize = 0;
    let mut i: usize = 0;
    while i < entries.len()
        invariant
            i <= entries@.len(),
            count <= i,
            env == envs(entries@),
            shared_from(start, env, ports_too, 0, 0) == shared_from(
                envs(vault@),
                env,
                ports_too,
                i as int,
                count as int,
            ),
        decreases entries@.len() - i,
    {
        assert(env[i as int] == entries@[i as int]@);
        let entry = &entries[i];
        if entry.modified && (ports_too || !is_local_service_port_key(entry.key.as_str())) {
            count = count + 1;
            let ghost before = envs(vault@);
            let k: usize = position_of(vault, entry.key.as_str());
            let mut saved = entry.duplicate();
            saved.source = "instance".to_owned();
            saved.modified = false;
            let ghost model = saved@;
            if k < vault.len() {
                vault.set(k, saved);
                assert(before[k as int].key == entry.key@);
                assert(envs(vault@) == before.update(k as int, model));
            } else {
                vault.push(saved);
                assert(envs(vault@) == before.push(model));
            }
        }
        i = i + 1;
    }
    count
}

/// The vault after importing the entries from `i` on: each takes the place of the first entry
/// with its key, or is appended.
pub open spec fn imported_from(vault: Seq<EnvModel>, env: Seq<EnvModel>, i: int) -> Seq<EnvModel>
    decreases env.len() - i,
{
    if i < 0 || i >= env.len() {
        vault
    } else {
        let e = EnvModel { source: "import"@, modified: false, ..env[i] };
        let k = position_from(vault, e.key, 0);
        imported_from(
            if k < vault.len() {
                vault.update(k, e)
            } else {
                vault.push(e)
            },
            env,
            i + 1,
        )
    }
}

/// Imports the entries of a file into the vault.
pub fn import_into_vault(vault: &mut Vec<EnvVariable>, entries: &Vec<EnvVariable>)
    ensures
        envs(final(vault)@) == imported_from(envs(old(vault)@), envs(entries@), 0),
{
    let ghost start = envs(vault@);
    let ghost env = envs(entries@);
    let mut i: usize = 0;
    while i < entries.len()
        invariant
            i <= entries@.len(),
            env == envs(entries@),
            imported_from(start, env, 0) == imported_from(envs(vault@), env, i as int),
        decreases entries@.len() - i,
    {
        assert(env[i as int] == entries@[i as int]@);
        let ghost before = envs(vault@);
        let mut e = entries[i].duplicate();
        e.source = "import".to_owned();
        e.modified = false;
        let ghost model = e@;
        let k: usize = position_of(vault, e.key.as_str());
        if k < vault.len() {
            vault.set(k, e);
            assert(envs(vault@) == before.update(k as int, model));
        } else {
            vault.push(e);
            assert(envs(vault@) == before.push(model));
        }
        i = i + 1;
    }
}

/// The numbers of entries that the vault filled, and that are still blank, from `i` on.
pub open spec fn export_counts(env: Seq<EnvModel>, i: int) -> (int, int)
    decreases env.len() - i,
{
    if i < 0 || i >= env.len() {
        (0, 0)
    } else {
        let rest = export_counts(env, i + 1);
        if trimmed(env[i].value).len() == 0 {
            (rest.0, rest.1 + 1)
        } else if env[i].source == "vault"@ {
            (rest.0 + 1, rest.1)
        } else {
            rest
        }
    }
}

/// Counts the entries of an export that the vault filled and those that are still blank.
pub fn count_exported(entries: &Vec<EnvVariable>) -> (r: (usize, usize))
    ensures
        (r.0 as int, r.1 as int) == export_counts(envs(entries@), 0),
{
    let ghost env = envs(entries@);
    let mut filled: usize = 0;
    let mut missing: usize = 0;
    let mut i: usize = 0;
    while i < entries.len()
        invariant
            i <= entries@.len(),
            filled <= i,
            missing <= i,
            env == envs(entries@),
            export_counts(env, 0).0 == filled + export_counts(env, i as int).0,
            export_counts(env, 0).1 == missing + export_counts(env, i as int).1,
        decreases entries@.len() - i,
    {
        assert(env[i as int] == entries@[i as int]@);
        if trim(entries[i].value.as_str()).is_empty() {
            missing = missing + 1;
        } else if same(entries[i].source.as_str(), "vault") {
            filled = filled + 1;
        }
        i = i + 1;
    }
    (filled, missing)
}

/// Whether a file is an environment file by its name.
pub open spec fn is_env_file(name: Seq<char>) -> bool {
    starts(name, ".env"@)
}

pub fn is_env_file_name(name: &str) -> (r: bool)
    ensures
        r == is_env_file(name@),
{
    starts_with(name, ".env")
}

// ---------------------------------------------------------------------------
// Addresses that follow the lifecycle
// ---------------------------------------------------------------------------

/// An entry after the resolved port of one service: an address on this machine whose name
/// contains the service takes it.
pub open spec fn address_follows(e: EnvModel, service: (Seq<char>, int)) -> EnvModel {
    if is_address_key(e.key) && holds(upper(e.key), strip_all_end(service.0, "_PORT"@))
        && is_loopback_url(e.value) {
        with_value(e, with_url_port(e.value, service.1 as nat))
    } else {
        e
    }
}

/// An entry after the resolved ports from `i` on.
pub open spec fn address_follows_from(e: EnvModel, ports: Seq<(Seq<char>, int)>, i: int) -> EnvModel
    decreases ports.len() - i,
{
    if i < 0 || i >= ports.len() {
        e
    } else {
        address_follows_from(address_follows(e, ports[i]), ports, i + 1)
    }
}

/// Carries resolved ports into the addresses on this machine that name their service;
/// addresses inside a container network keep their ports.
pub fn sync_port_urls(entries: &mut Vec<EnvVariable>, port_map: &Vec<(String, u16)>)
    ensures
        envs(final(entries)@) == envs(old(entries)@).map_values(
            |e: EnvModel| address_follows_from(e, port_list(port_map@), 0),
        ),
{
    proof {
        reveal_strlit("_PORT");
    }
    let ghost start = envs(entries@);
    let ghost ps = port_list(port_map@);
    let mut i: usize = 0;
    while i < entries.len()
        invariant
            i <= entries@.len(),
            start.len() == entries@.len(),
            ps == port_list(port_map@),
            forall|j: int|
                0 <= j < i ==> (#[trigger] entries@[j])@ == address_follows_from(start[j], ps, 0),
            forall|j: int| i <= j < start.len() ==> (#[trigger] entries@[j])@ == start[j],
        decreases entries@.len() - i,
    {
        let mut e = entries[i].duplicate();
        let mut k: usize = 0;
        while k < port_map.len()
            invariant
                k <= port_map@.len(),
                ps == port_list(port_map@),
                address_follows_from(start[i as int], ps, 0) == address_follows_from(
                    e@,
                    ps,
                    k as int,
                ),
            decreases port_map@.len() - k,
        {
            assert(ps[k as int] == (port_map@[k as int].0@, port_map@[k as int].1 as int));
            let prefix = trim_end_text(port_map[k].0.as_str(), "_PORT");
            if key_is_address(e.key.as_str()) && contains(to_upper(e.key.as_str()).as_str(), prefix)
                && has_loopback_prefix(e.value.as_str()) {
                let url = replace_url_port(e.value.as_str(), port_map[k].1);
                e = set_value(&e, url);
            }
            k = k + 1;
        }
        entries.set(i, e);
        i = i + 1;
    }
}

/// The first change from `i` on that moves the port.
pub open spec fn change_of(changes: Seq<ChangeModel>, port: int, i: int) -> Option<ChangeModel>
    decreases changes.len() - i,
{
    if i < 0 || i >= changes.len() {
        None
    } else if changes[i].old_port == port {
        Some(changes[i])
    } else {
        change_of(changes, port, i + 1)
    }
}

/// An entry after the changes: a localhost endpoint that still names a moved port takes the
/// new one.
pub open spec fn endpoint_follows(e: EnvModel, changes: Seq<ChangeModel>) -> EnvModel {
    if holds(upper(e.key), "ENDPOINT"@) && is_localhost_url(e.value) && url_port(e.value) is Some
        && change_of(changes, url_port(e.value)->0, 0) is Some {
        with_value(
            e,
            with_url_port(
                e.value,
                change_of(changes, url_port(e.value)->0, 0)->0.new_port as nat,
            ),
        )
    } else {
        e
    }
}

fn find_change(changes: &Vec<PortChange>, port: u16) -> (r: Option<u16>)
    ensures
        match change_of(changes_view(changes@), port as int, 0) {
            Some(c) => r == Some(c.new_port),
            None => r is None,
        },
{
    let ghost cs = changes_view(changes@);
    let mut i: usize = 0;
    while i < changes.len()
        invariant
            i <= changes@.len(),
            cs == changes_view(changes@),
            change_of(cs, port as int, 0) == change_of(cs, port as int, i as int),
        decreases changes@.len() - i,
    {
        assert(cs[i as int] == changes@[i as int]@);
        if changes[i].old_port == port {
            return Some(changes[i].new_port);
        }
        i = i + 1;
    }
    None
}

/// Carries moved ports into localhost endpoints that still name the old port; endpoints that
/// name another port are left alone.
pub fn sync_endpoint_ports_by_changes(entries: &mut Vec<EnvVariable>, changes: &Vec<PortChange>)
    ensures
        envs(final(entries)@) == envs(old(entries)@).map_values(
            |e: EnvModel| endpoint_follows(e, changes_view(changes@)),
        ),
{
    let ghost start = envs(entries@);
    let ghost cs = changes_view(changes@);
    let mut i: usize = 0;
    while i < entries.len()
        invariant
            i <= entries@.len(),
            start.len() == entries@.len(),
            cs == changes_view(changes@),
            forall|j: int|
                0 <= j < i ==> (#[trigger] entries@[j])@ == endpoint_follows(start[j], cs),
            forall|j: int| i <= j < start.len() ==> (#[trigger] entries@[j])@ == start[j],
        decreases entries@.len() - i,
    {
        let mut e = entries[i].duplicate();
        if contains(to_upper(e.key.as_str()).as_str(), "ENDPOINT") && has_localhost_prefix(
            e.value.as_str(),
        ) {
            if let Some(old_port) = extract_url_port(e.value.as_str()) {
                if let Some(new_port) = find_change(changes, old_port) {
                    let url = replace_url_port(e.value.as_str(), new_port);
                    e = set_value(&e, url);
                }
            }
        }
        entries.set(i, e);
        i = i + 1;
    }
}

/// The first position from `i` on of an entry with the upper-case key, in any case, or the
/// length.
pub open spec fn upper_position_from(env: Seq<EnvModel>, key: Seq<char>, i: int) -> int
    decreases env.len() - i,
{
    if i < 0 || i >= env.len() || upper(env[i].key) == key {
        i
    } else {
        upper_position_from(env, key, i + 1)
    }
}

fn upper_position_of(entries: &Vec<EnvVariable>, key: &str) -> (r: usize)
    ensures
        r == upper_position_from(envs(entries@), key@, 0),
        r <= entries@.len(),
{
    let ghost env = envs(entries@);
    let mut i: usize = 0;
    while i < entries.len()
        invariant
            i <= entries@.len(),
            env == envs(entries@),
            upper_position_from(env, key@, 0) == upper_position_from(env, key@, i as int),
        decreases entries@.len() - i,
    {
        assert(env[i as int] == entries@[i as int]@);
        if same(to_upper(entries[i].key.as_str()).as_str(), key) {
            return i;
        }
        i = i + 1;
    }
    i
}

/// The entry that gives a resolved service port where the file had none.
pub open spec fn resolved_entry(key: Seq<char>, port: int) -> EnvModel {
    EnvModel {
        key,
        value: decimal(port as nat),
        comment: lower(strip_all_end(key, "_PORT"@)) + " service port (auto-resolved)"@,
        source: "instance"@,
        modified: true,
    }
}

/// The entries with the resolved ports from `i` on assigned to their variables.
pub open spec fn assigned_ports_from(
    env: Seq<EnvModel>,
    ports: Seq<(Seq<char>, int)>,
    i: int,
) -> Seq<EnvModel>
    decreases ports.len() - i,
{
    if i < 0 || i >= ports.len() {
        env
    } else {
        let k = upper_position_from(env, ports[i].0, 0);
        assigned_ports_from(
            if k < env.len() {
                env.update(k, with_value(env[k], decimal(ports[i].1 as nat)))
            } else {
                env.push(resolved_entry(ports[i].0, ports[i].1))
            },
            ports,
            i + 1,
        )
    }
}

/// Assigns resolved ports to their variables, adding those that are missing.
pub fn assign_resolved_ports(entries: &mut Vec<EnvVariable>, port_map: &Vec<(String, u16)>)
    ensures
        envs(final(entries)@) == assigned_ports_from(
            envs(old(entries)@),
            port_list(port_map@),
            0,
        ),
{
    proof {
        reveal_strlit("_PORT");
    }
    let ghost start = envs(entries@);
    let ghost ps = port_list(port_map@);
    let mut i: usize = 0;
    while i < port_map.len()
        invariant
            i <= port_map@.len(),
            ps == port_list(port_map@),
            assigned_ports_from(start, ps, 0) == assigned_ports_from(
                envs(entries@),
                ps,
                i as int,
            ),
        decreases port_map@.len() - i,
    {
        assert(ps[i as int] == (port_map@[i as int].0@, port_map@[i as int].1 as int));
        let ghost before = envs(entries@);
        let key = port_map[i].0.as_str();
        let value = decimal_of(port_map[i].1 as u64);
        let k: usize = upper_position_of(entries, key);
        if k < entries.len() {
            assert(before[k as int] == entries@[k as int]@);
            let e = set_value(&entries[k], value);
            let ghost model = e@;
            entries.set(k, e);
            assert(envs(entries@) == before.update(k as int, model));
        } else {
            let service = to_lower(trim_end_text(key, "_PORT"));
            let entry = EnvVariable {
                key: key.to_owned(),
                value,
                comment: concat2(service.as_str(), " service port (auto-resolved)"),
                source: "instance".to_owned(),
                modified: true,
            };
            let ghost model = entry@;
            entries.push(entry);
            assert(envs(entries@) == before.push(model));
            assert(model == resolved_entry(ps[i as int].0, ps[i as int].1));
        }
        i = i + 1;
    }
}

/// The entries after the lifecycle's ports were resolved: variables, addresses, endpoints.
pub open spec fn lifecycle_synced(
    env: Seq<EnvModel>,
    ports: Seq<(Seq<char>, int)>,
    changes: Seq<ChangeModel>,
) -> Seq<EnvModel> {
    assigned_ports_from(env, ports, 0).map_values(
        |e: EnvModel| address_follows_from(e, ports, 0),
    ).map_values(|e: EnvModel| endpoint_follows(e, changes))
}

/// Carries the resolved ports of a lifecycle into the environment: into the port variables,
/// into the addresses that name a service, and into endpoints that name a moved port.
pub fn resolve_and_sync_lifecycle_ports(
    entries: &mut Vec<EnvVariable>,
    port_map: &Vec<(String, u16)>,
    changes: &Vec<PortChange>,
)
    ensures
        envs(final(entries)@) == lifecycle_synced(
            envs(old(entries)@),
            port_list(port_map@),
            changes_view(changes@),
        ),
{
    assign_resolved_ports(entries, port_map);
    sync_port_urls(entries, port_map);
    sync_endpoint_ports_by_changes(entries, changes);
}

/// The first entry from `i` on with the key, in any case.
pub open spec fn example_of(examples: Seq<EnvModel>, key: Seq<char>, i: int) -> Option<EnvModel>
    decreases examples.len() - i,
{
    if i < 0 || i >= examples.len() {
        None
    } else if lower(examples[i].key) == lower(key) {
        Some(examples[i])
    } else {
        example_of(examples, key, i + 1)
    }
}

fn find_example<'a>(examples: &'a Vec<EnvVariable>, key: &str) -> (r: Option<&'a EnvVariable>)
    ensures
        match r {
            Some(e) => example_of(envs(examples@), key@, 0) == Some(e@),
            None => example_of(envs(examples@), key@, 0) is None,
        },
{
    let ghost env = envs(examples@);
    let mut i: usize = 0;
    while i < examples.len()
        invariant
            i <= examples@.len(),
            env == envs(examples@),
            example_of(env, key@, 0) == example_of(env, key@, i as int),
        decreases examples@.len() - i,
    {
        assert(env[i as int] == examples@[i as int]@);
        if same_ignoring_case(examples[i].key.as_str(), key) {
            return Some(&examples[i]);
        }
        i = i + 1;
    }
    None
}

/// Whether a value names a host by its domain, such as a collector that the user chose.
pub open spec fn names_domain(value: Seq<char>) -> bool {
    host_of(value) is Some && holds(host_of(value)->0, "."@)
}

fn value_names_domain(value: &str) -> (r: bool)
    ensures
        r == names_domain(value@),
{
    match url_host(value) {
        Some(host) => contains(host, "."),
        None => false,
    }
}

/// An entry held against the template's default: where the default is on this machine, an
/// address that names no domain takes it back; an address of the default's host takes back the
/// default port.
pub open spec fn restored(e: EnvModel, examples: Seq<EnvModel>) -> EnvModel {
    match example_of(examples, e.key, 0) {
        None => e,
        Some(example) => if !is_address_key(e.key) || is_loopback_url(e.value) {
            e
        } else if is_loopback_url(example.value) && !names_domain(e.value) {
            EnvModel { value: example.value, modified: true, ..e }
        } else if url_port(e.value) is Some && url_port(example.value) is Some && url_port(e.value)
            != url_port(example.value) && host_of(e.value) == host_of(example.value) {
            with_value(e, with_url_port(e.value, url_port(example.value)->0 as nat))
        } else {
            e
        },
    }
}

fn same_host(a: &str, b: &str) -> (r: bool)
    ensures
        r == (host_of(a@) == host_of(b@)),
{
    match url_host(a) {
        Some(x) => match url_host(b) {
            Some(y) => same(x, y),
            None => false,
        },
        None => url_host(b).is_none(),
    }
}

/// Restores addresses of other hosts whose port drifted from the template's default, and
/// container hosts where the default is this machine. `example_content` is the template's
/// example file; domains that differ from its hosts are left untouched.
pub fn restore_non_loopback_url_defaults(example_content: &str, entries: &mut Vec<EnvVariable>)
    ensures
        envs(final(entries)@) == envs(old(entries)@).map_values(
            |e: EnvModel| restored(e, env_entries(example_content@)),
        ),
{
    let ghost start = envs(entries@);
    let examples = parse_env(example_content);
    let ghost xs = env_entries(example_content@);
    let mut i: usize = 0;
    while i < entries.len()
        invariant
            i <= entries@.len(),
            start.len() == entries@.len(),
            xs == envs(examples@),
            forall|j: int| 0 <= j < i ==> (#[trigger] entries@[j])@ == restored(start[j], xs),
            forall|j: int| i <= j < start.len() ==> (#[trigger] entries@[j])@ == start[j],
        decreases entries@.len() - i,
    {
        let mut e = entries[i].duplicate();
        if key_is_address(e.key.as_str()) && !has_loopback_prefix(e.value.as_str()) {
            if let Some(example) = find_example(&examples, e.key.as_str()) {
                if has_loopback_prefix(example.value.as_str()) && !value_names_domain(
                    e.value.as_str(),
                ) {
                    e.value = example.value.clone();
                    e.modified = true;
                } else if let Some(current) = extract_url_port(e.value.as_str()) {
                    if let Some(default) = extract_url_port(example.value.as_str()) {
                        if current != default && same_host(
                            e.value.as_str(),
                            example.value.as_str(),
                        ) {
                            let url = replace_url_port(e.value.as_str(), default);
                            e = set_value(&e, url);
                        }
                    }
                }
            }
        }
        entries.set(i, e);
        i = i + 1;
    }
}

/// The ports of services that name one in their URL, from `i` on, under upper-case names.
pub open spec fn services_ports_from(services: Seq<(Seq<char>, Seq<char>)>, i: int) -> Seq<
    (Seq<char>, int),
>
    decreases services.len() - i,
{
    if i < 0 || i >= services.len() {
        Seq::empty()
    } else {
        match url_port(services[i].1) {
            Some(p) => seq![(upper(services[i].0), p)] + services_ports_from(services, i + 1),
            None => services_ports_from(services, i + 1),
        }
    }
}

/// An entry after the ports of the lifecycle: an address on this machine takes the port that
/// its name contains; an endpoint that contains none follows Phoenix, else the first service.
pub open spec fn lifecycle_follows(e: EnvModel, ports: Seq<(Seq<char>, int)>) -> EnvModel {
    if ports.len() == 0 || !is_address_key(e.key) || !is_loopback_url(e.value) {
        e
    } else {
        match best_match(ports, upper(e.key)) {
            Some(p) => with_value(e, with_url_port(e.value, p.1 as nat)),
            None => if holds(upper(e.key), "ENDPOINT"@) {
                with_value(
                    e,
                    with_url_port(
                        e.value,
                        match phoenix_from(ports, 0) {
                            Some(p) => p,
                            None => ports[0].1,
                        } as nat,
                    ),
                )
            } else {
                e
            },
        }
    }
}

/// What a list of services, each a name and a URL, stands for.
pub open spec fn services_view(v: Seq<(String, String)>) -> Seq<(Seq<char>, Seq<char>)> {
    v.map_values(|p: (String, String)| (p.0@, p.1@))
}

fn service_url_ports(services: &Vec<(String, String)>) -> (r: Vec<(String, u16)>)
    ensures
        port_list(r@) == services_ports_from(services_view(services@), 0),
{
    let ghost ss = services_view(services@);
    let mut r: Vec<(String, u16)> = Vec::new();
    let mut i: usize = 0;
    while i < services.len()
        invariant
            i <= services@.len(),
            ss == services_view(services@),
            port_list(r@) + services_ports_from(ss, i as int) == services_ports_from(ss, 0),
        decreases services@.len() - i,
    {
        assert(ss[i as int] == (services@[i as int].0@, services@[i as int].1@));
        if let Some(port) = extract_url_port(services[i].1.as_str()) {
            let ghost before = port_list(r@);
            let ghost rest = services_ports_from(ss, i + 1);
            let name = to_upper(services[i].0.as_str());
            r.push((name, port));
            assert(port_list(r@) == before.push((name@, port as int)));
            assert(before.push((name@, port as int)) + rest == before + (seq![(name@, port as int)]
                + rest));
        }
        i = i + 1;
    }
    assert(port_list(r@) + Seq::<(Seq<char>, int)>::empty() == port_list(r@));
    r
}

/// Carries the ports of the lifecycle's services, each a name and a URL, into the addresses
/// of the environment.
pub fn sync_env_urls_from_lifecycle(
    services: &Vec<(String, String)>,
    entries: &mut Vec<EnvVariable>,
)
    ensures
        envs(final(entries)@) == envs(old(entries)@).map_values(
            |e: EnvModel|
                lifecycle_follows(e, services_ports_from(services_view(services@), 0)),
        ),
{
    let ghost start = envs(entries@);
    let ports = service_url_ports(services);
    let ghost ps = port_list(ports@);
    let mut i: usize = 0;
    while i < entries.len()
        invariant
            i <= entries@.len(),
            start.len() == entries@.len(),
            ps == port_list(ports@),
            forall|j: int|
                0 <= j < i ==> (#[trigger] entries@[j])@ == lifecycle_follows(start[j], ps),
            forall|j: int| i <= j < start.len() ==> (#[trigger] entries@[j])@ == start[j],
        decreases entries@.len() - i,
    {
        let mut e = entries[i].duplicate();
        let key = to_upper(e.key.as_str());
        if ports.len() > 0 && key_is_address(e.key.as_str()) && has_loopback_prefix(
            e.value.as_str(),
        ) {
            match best_port(&ports, key.as_str()) {
                Some(port) => {
                    let url = replace_url_port(e.value.as_str(), port);
                    e = set_value(&e, url);
                },
                None => {
                    if contains(key.as_str(), "ENDPOINT") {
                        let port: u16 = match phoenix_port(&ports) {
                            Some(p) => p,
                            None => ports[0].1,
                        };
                        let url = replace_url_port(e.value.as_str(), port);
                        e = set_value(&e, url);
                    }
                },
            }
        }
        entries.set(i, e);
        i = i + 1;
    }
}

} // verus!
