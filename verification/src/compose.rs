//! docker-compose files as text: port mappings that follow the environment, and the npm
//! mirror for services that install packages.

use crate::compose_laws::law_only_mappings_change;
use crate::models::{envs, EnvModel, EnvVariable, NPM_REGISTRY_MIRROR};
use crate::rewrite::{exchange_lines, with_lines};
use crate::text::{
    all_digits, concat2, concat3, concat5, concat6, contains, ends, ends_with, holds, indent_of,
    indentation, join, joined, last_index_of, lines, lines_of, only_digits, opt_view, rcut, replace,
    replaced, rfind, rsplit_once, same, skip, starts, starts_with, strip_all_end, strip_all_start,
    strip_set, take, texts, to_upper, trim, trim_chars, trim_end_text, trim_start_text, trimmed,
    upper,
};
use vstd::prelude::*;
use vstd::string::*;

verus! {

// ---------------------------------------------------------------------------
// Port mappings
// ---------------------------------------------------------------------------

/// Whether the environment has a variable of the given upper-case name, in any case.
pub open spec fn has_key(env: Seq<EnvModel>, key: Seq<char>) -> bool {
    exists|i: int| 0 <= i < env.len() && upper(#[trigger] env[i].key) == key
}

fn env_has_key(entries: &Vec<EnvVariable>, key: &str) -> (r: bool)
    ensures
        r == has_key(envs(entries@), key@),
{
    let ghost env = envs(entries@);
    let mut i: usize = 0;
    while i < entries.len()
        invariant
            i <= entries@.len(),
            env == envs(entries@),
            forall|j: int| 0 <= j < i ==> upper(#[trigger] env[j].key) != key@,
        decreases entries@.len() - i,
    {
        assert(env[i as int].key == entries@[i as int].key@);
        if same(to_upper(entries[i].key.as_str()).as_str(), key) {
            return true;
        }
        i = i + 1;
    }
    false
}

/// Whether a line is a key at two columns, which opens a service.
pub open spec fn is_section(line: Seq<char>) -> bool {
    indentation(line) == 2 && ends(trimmed(line), ":"@) && !starts(trimmed(line), "-"@)
}

/// The name in a line that opens a service.
pub open spec fn section_name(line: Seq<char>) -> Seq<char> {
    strip_all_end(trimmed(line), ":"@)
}

/// The service that is open behind a line: a key at two columns opens one, but for
/// `services` itself, which closes it.
pub open spec fn service_after(line: Seq<char>, open: Option<Seq<char>>) -> Option<Seq<char>> {
    if is_section(line) {
        if section_name(line) != "services"@ {
            Some(section_name(line))
        } else {
            None
        }
    } else {
        open
    }
}

/// The service that is open before line `k`.
pub open spec fn service_before(ls: Seq<Seq<char>>, k: int) -> Option<Seq<char>>
    decreases k,
{
    if k <= 0 || k > ls.len() {
        None
    } else {
        service_after(ls[k - 1], service_before(ls, k - 1))
    }
}

/// What a list item says without its dashes, white space and double quotes.
pub open spec fn mapping_text(line: Seq<char>) -> Seq<char> {
    strip_set(trimmed(strip_all_start(trimmed(line), "- "@)), "\""@)
}

/// The mapping `host:container`, or `address:host:container`, with the host port behind a
/// variable that defaults to it. Mappings that use a variable already, and items that are no
/// port mapping, have none.
pub open spec fn mapping_change(mapping: Seq<char>, key: Seq<char>) -> Option<Seq<char>> {
    if holds(mapping, "${"@) {
        None
    } else {
        match rcut(mapping, ":"@) {
            None => None,
            Some(p) => if !all_digits(p.1) {
                None
            } else {
                match rcut(p.0, ":"@) {
                    Some(q) => if all_digits(q.1) {
                        Some(q.0 + (":${"@ + key + ":-"@ + q.1 + "}:"@) + p.1)
                    } else {
                        None
                    },
                    None => if all_digits(p.0) {
                        Some("${"@ + key + ":-"@ + p.0 + "}:"@ + p.1)
                    } else {
                        None
                    },
                }
            },
        }
    }
}

fn port_mapping_change(mapping: &str, key: &str) -> (r: Option<String>)
    ensures
        opt_view(r) == mapping_change(mapping@, key@),
{
    if contains(mapping, "${") {
        return None;
    }
    match rsplit_once(mapping, ":") {
        None => None,
        Some(p) => {
            if !only_digits(p.1) {
                return None;
            }
            match rsplit_once(p.0, ":") {
                Some(q) => {
                    if !only_digits(q.1) {
                        return None;
                    }
                    let variable = concat5(":${", key, ":-", q.1, "}:");
                    Some(concat3(q.0, variable.as_str(), p.1))
                },
                None => {
                    if only_digits(p.0) {
                        Some(concat6("${", key, ":-", p.0, "}:", p.1))
                    } else {
                        None
                    }
                },
            }
        },
    }
}

/// What the mapping on a line of an open service becomes, where it is one that changes: the
/// environment has the port of the service.
pub open spec fn line_change(line: Seq<char>, open: Option<Seq<char>>, env: Seq<EnvModel>) -> Option<
    Seq<char>,
> {
    if starts(trimmed(line), "- "@) && holds(trimmed(line), ":"@) && open is Some && has_key(
        env,
        upper(open->0) + "_PORT"@,
    ) {
        mapping_change(mapping_text(line), upper(open->0) + "_PORT"@)
    } else {
        None
    }
}

/// A line with the last occurrence of a text exchanged for another.
pub open spec fn with_last(line: Seq<char>, old: Seq<char>, new: Seq<char>) -> Seq<char> {
    match rfind(line, old) {
        Some(k) => line.take(k) + new + line.skip(k + old.len()),
        None => line,
    }
}

/// Line `i` with the host port of its mapping behind a variable, where it has one that changes.
pub open spec fn mapped_line(ls: Seq<Seq<char>>, env: Seq<EnvModel>, i: int) -> Seq<char> {
    match line_change(ls[i], service_before(ls, i + 1), env) {
        Some(new) => with_last(ls[i], mapping_text(ls[i]), new),
        None => ls[i],
    }
}

/// The lines of a compose file with host ports that follow the environment.
pub open spec fn mapped_lines(ls: Seq<Seq<char>>, env: Seq<EnvModel>) -> Seq<Seq<char>> {
    Seq::new(ls.len(), |i: int| mapped_line(ls, env, i))
}

/// A compose file whose host ports follow the environment; only the lines of the mappings
/// change.
pub open spec fn mapped_ports(content: Seq<char>, env: Seq<EnvModel>) -> Seq<char> {
    with_lines(content, mapped_lines(lines(content), env))
}

/// Rewrites hard-coded host ports to `${ENV_KEY:-ORIGINAL}` references, for services whose
/// port variable is in the environment. All other services stay as they are.
pub fn sync_docker_compose_port_mappings(content: &str, entries: &Vec<EnvVariable>) -> (r: String)
    ensures
        r@ == mapped_ports(content@, envs(entries@)),
        lines(r@) == mapped_lines(lines(content@), envs(entries@)),
{
    let ls = lines_of(content);
    let ghost cs = lines(content@);
    let ghost env = envs(entries@);
    let ghost whole = mapped_lines(cs, env);
    let mut out: Vec<String> = Vec::new();
    let mut current: Option<String> = None;
    let mut i: usize = 0;
    proof {
        reveal_strlit(":");
        reveal_strlit("- ");
    }
    while i < ls.len()
        invariant
            i <= ls@.len(),
            texts(ls@) == cs,
            env == envs(entries@),
            whole == mapped_lines(cs, env),
            opt_view(current) == service_before(cs, i as int),
            texts(out@) == whole.take(i as int),
        decreases ls@.len() - i,
    {
        let line = ls[i].as_str();
        assert(cs[i as int] == line@);
        let t = trim(line);
        if indent_of(line) == 2 && ends_with(t, ":") && !starts_with(t, "-") {
            let name = trim_end_text(t, ":");
            if !same(name, "services") {
                current = Some(name.to_owned());
            } else {
                current = None;
            }
        }
        assert(opt_view(current) == service_before(cs, i + 1));
        let mut next = line.to_owned();
        if starts_with(t, "- ") && contains(t, ":") {
            if let Some(service) = current.as_ref() {
                let key = concat2(to_upper(service.as_str()).as_str(), "_PORT");
                if env_has_key(entries, key.as_str()) {
                    let mapping = trim_chars(trim(trim_start_text(t, "- ")), "\"");
                    if let Some(new) = port_mapping_change(mapping, key.as_str()) {
                        next = exchange_last(line, mapping, new.as_str());
                    }
                }
            }
        }
        let ghost model = next@;
        assert(model == whole[i as int]);
        out.push(next);
        assert(texts(out@) == whole.take(i as int).push(model));
        i = i + 1;
    }
    assert(whole.take(whole.len() as int) == whole);
    assert(out@.len() == texts(out@).len());
    proof {
        law_only_mappings_change(content@, env);
    }
    exchange_lines(content, &out)
}

fn exchange_last(line: &str, old: &str, new: &str) -> (r: String)
    ensures
        r@ == with_last(line@, old@, new@),
{
    // The place behind the old text is no further than this.
    let n: usize = line.unicode_len();
    match last_index_of(line, old) {
        Some(k) => concat3(take(line, k), new, skip(line, k + old.unicode_len())),
        None => line.to_owned(),
    }
}

// ---------------------------------------------------------------------------
// The npm mirror
// ---------------------------------------------------------------------------

/// Whether a line that belongs to a service indented by `depth`, from line `j` on, installs
/// packages. A line indented no deeper than the service ends it; blank lines do not count.
pub open spec fn installs_from(ls: Seq<Seq<char>>, depth: int, j: int) -> bool
    decreases ls.len() - j,
{
    if j < 0 || j >= ls.len() {
        false
    } else if trimmed(ls[j]).len() == 0 {
        installs_from(ls, depth, j + 1)
    } else if indentation(ls[j]) <= depth {
        false
    } else {
        holds(ls[j], "npm install"@) || installs_from(ls, depth, j + 1)
    }
}

/// Whether a line that belongs to a service indented by `depth`, from line `j` upwards, installs
/// packages. A line indented no deeper than the service ends it; blank lines do not count.
pub open spec fn installs_above(ls: Seq<Seq<char>>, depth: int, j: int) -> bool
    decreases j + 1,
{
    if j < 0 || j >= ls.len() {
        false
    } else if trimmed(ls[j]).len() == 0 {
        installs_above(ls, depth, j - 1)
    } else if indentation(ls[j]) <= depth {
        false
    } else {
        holds(ls[j], "npm install"@) || installs_above(ls, depth, j - 1)
    }
}

/// Whether line `i` opens the environment of a service that installs packages, above it or
/// below it. The service is indented by two columns less than its environment.
pub open spec fn wants_mirror(ls: Seq<Seq<char>>, i: int) -> bool {
    let columns = indentation(ls[i]);
    let depth = if columns >= 2 {
        columns - 2
    } else {
        0
    };
    trimmed(ls[i]) == "environment:"@ && (installs_above(ls, depth, i - 1) || installs_from(
        ls,
        depth,
        i + 1,
    ))
}

fn line_wants_mirror(ls: &Vec<String>, i: usize) -> (r: bool)
    requires
        i < ls@.len(),
    ensures
        r == wants_mirror(texts(ls@), i as int),
{
    let ghost cs = texts(ls@);
    assert(cs[i as int] == ls@[i as int]@);
    if !same(trim(ls[i].as_str()), "environment:") {
        return false;
    }
    let depth: usize = indent_of(ls[i].as_str()).saturating_sub(2);
    let count: usize = ls.len();
    installs_up(ls, depth, i) || (i < count && installs_down(ls, depth, i + 1))
}

fn installs_up(ls: &Vec<String>, depth: usize, end: usize) -> (r: bool)
    requires
        end <= ls@.len(),
    ensures
        r == installs_above(texts(ls@), depth as int, end - 1),
{
    let ghost cs = texts(ls@);
    let mut j: usize = end;
    while j > 0
        invariant
            j <= end <= ls@.len(),
            cs == texts(ls@),
            installs_above(cs, depth as int, end - 1) == installs_above(cs, depth as int, j - 1),
        decreases j,
    {
        assert(cs[j - 1] == ls@[j - 1]@);
        let line = ls[j - 1].as_str();
        if !trim(line).is_empty() {
            if indent_of(line) <= depth {
                return false;
            }
            if contains(line, "npm install") {
                return true;
            }
        }
        j = j - 1;
    }
    false
}

fn installs_down(ls: &Vec<String>, depth: usize, start: usize) -> (r: bool)
    requires
        start <= ls@.len(),
    ensures
        r == installs_from(texts(ls@), depth as int, start as int),
{
    let ghost cs = texts(ls@);
    let mut j: usize = start;
    while j < ls.len()
        invariant
            start <= j <= ls@.len(),
            cs == texts(ls@),
            installs_from(cs, depth as int, start as int) == installs_from(
                cs,
                depth as int,
                j as int,
            ),
        decreases ls@.len() - j,
    {
        assert(cs[j as int] == ls@[j as int]@);
        let line = ls[j].as_str();
        if !trim(line).is_empty() {
            if indent_of(line) <= depth {
                return false;
            }
            if contains(line, "npm install") {
                return true;
            }
        }
        j = j + 1;
    }
    false
}

/// The line that sets the mirror below an `environment:` line.
pub open spec fn mirror_line(line: Seq<char>) -> Seq<char> {
    let depth = indentation(line);
    line.take(if depth <= line.len() {
        depth
    } else {
        line.len() as int
    }) + "  "@ + "NPM_CONFIG_REGISTRY"@ + ": \""@ + NPM_REGISTRY_MIRROR@ + "\""@
}

/// The lines from `i` on, each `environment:` that wants it followed by the mirror.
pub open spec fn mirrored_from(ls: Seq<Seq<char>>, i: int) -> Seq<Seq<char>>
    decreases ls.len() - i,
{
    if i < 0 || i >= ls.len() {
        Seq::empty()
    } else if wants_mirror(ls, i) {
        seq![ls[i], mirror_line(ls[i])] + mirrored_from(ls, i + 1)
    } else {
        seq![ls[i]] + mirrored_from(ls, i + 1)
    }
}

/// A compose file without the flag that keeps npm from using the lock file.
pub open spec fn without_lock_flag(content: Seq<char>) -> Seq<char> {
    replaced(content, "npm install --no-package-lock"@, "npm install"@)
}

/// A compose file whose package installs use the mirror.
pub open spec fn with_npm_mirror(content: Seq<char>) -> Seq<char> {
    let stripped = without_lock_flag(content);
    if !holds(content, "npm install"@) {
        content
    } else if holds(stripped, "NPM_CONFIG_REGISTRY"@) {
        stripped
    } else {
        joined(mirrored_from(lines(stripped), 0), "\n"@) + (if ends(content, "\n"@) {
            "\n"@
        } else {
            Seq::empty()
        })
    }
}

/// Sets `NPM_CONFIG_REGISTRY` in the environment of services that run `npm install`, above or
/// below the environment, unless the file sets it already.
pub fn sync_docker_compose_npm_mirror(content: &str) -> (r: String)
    ensures
        r@ == with_npm_mirror(content@),
{
    if !contains(content, "npm install") {
        return content.to_owned();
    }
    proof {
        reveal_strlit("npm install --no-package-lock");
    }
    let stripped = replace(content, "npm install --no-package-lock", "npm install");
    if contains(stripped.as_str(), "NPM_CONFIG_REGISTRY") {
        return stripped;
    }
    let ls = lines_of(stripped.as_str());
    let ghost cs = lines(stripped@);
    let mut out: Vec<String> = Vec::new();
    let mut i: usize = 0;
    while i < ls.len()
        invariant
            i <= ls@.len(),
            texts(ls@) == cs,
            texts(out@) + mirrored_from(cs, i as int) == mirrored_from(cs, 0),
        decreases ls@.len() - i,
    {
        assert(cs[i as int] == ls@[i as int]@);
        let ghost before = texts(out@);
        let ghost rest = mirrored_from(cs, i + 1);
        let line = ls[i].as_str();
        out.push(line.to_owned());
        assert(texts(out@) == before.push(line@));
        if line_wants_mirror(&ls, i) {
            let depth: usize = indent_of(line);
            let count: usize = if depth <= line.unicode_len() {
                depth
            } else {
                line.unicode_len()
            };
            let setting = concat6(
                take(line, count),
                "  ",
                "NPM_CONFIG_REGISTRY",
                ": \"",
                NPM_REGISTRY_MIRROR,
                "\"",
            );
            out.push(setting);
            assert(texts(out@) == before.push(line@).push(setting@));
            assert(before.push(line@).push(setting@) + rest == before + (seq![line@, setting@]
                + rest));
        } else {
            assert(before.push(line@) + rest == before + (seq![line@] + rest));
        }
        i = i + 1;
    }
    assert(texts(out@) + Seq::<Seq<char>>::empty() == texts(out@));
    let mut result = join(&out, "\n");
    if ends_with(content, "\n") {
        result.append("\n");
    } else {
        assert(result@ + Seq::<char>::empty() == result@);
    }
    result
}

} // verus!
