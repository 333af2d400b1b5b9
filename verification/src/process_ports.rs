//! The `--port` flag in the process commands of a lifecycle manifest.

use crate::models::{envs, EnvModel, EnvVariable};
use crate::process_laws::law_only_process_commands_change;
use crate::rewrite::{exchange_lines, with_lines};
use crate::text::{
    after_prefix, at, before_suffix, char_is_digit, chars_of, concat2, concat3, contains, cut,
    decimal, decimal_of, find, holds, index_of, is_digit, last_index_of, lines, lines_of, lower,
    opt_str, opt_view, parse_u16, parsed, port_num, replace, replaced, rfind, same, skip,
    split_once, split_whitespace, starts, starts_with, strip_prefix, strip_set, strip_suffix, take,
    texts, to_lower, to_upper, trim, trim_chars, trim_start, trimmed, trimmed_start, upper, words,
};
use crate::urls::{extract_url_port, url_port};
use vstd::prelude::*;
use vstd::string::*;

verus! {

// ---------------------------------------------------------------------------
// Service ports
// ---------------------------------------------------------------------------

/// The name in a header such as `[services.name]`, for the given opening.
pub open spec fn header_name(line: Seq<char>, opening: Seq<char>) -> Option<Seq<char>> {
    match after_prefix(line, opening) {
        Some(rest) => before_suffix(rest, "]"@),
        None => None,
    }
}

fn name_in_header<'a>(line: &'a str, opening: &str) -> (r: Option<&'a str>)
    ensures
        opt_str(r) == header_name(line@, opening@),
{
    match strip_prefix(line, opening) {
        Some(rest) => strip_suffix(rest, "]"),
        None => None,
    }
}

/// The port of the URL that a line `key = "url"` gives.
pub open spec fn assigned_port(line: Seq<char>) -> Option<int> {
    match cut(line, "="@) {
        Some(p) => url_port(strip_set(trimmed(p.1), "\""@)),
        None => None,
    }
}

/// The ports that the service sections give from line `i` on, under upper-case names.
pub open spec fn service_ports_from(ls: Seq<Seq<char>>, i: int, open: Option<Seq<char>>) -> Seq<
    (Seq<char>, int),
>
    decreases ls.len() - i,
{
    if i < 0 || i >= ls.len() {
        Seq::empty()
    } else {
        let line = trimmed(ls[i]);
        let still = if starts(line, "["@) {
            None
        } else {
            open
        };
        match header_name(line, "[services."@) {
            Some(name) => service_ports_from(ls, i + 1, Some(name)),
            None => match still {
                Some(name) => match assigned_port(line) {
                    Some(port) => seq![(upper(name), port)] + service_ports_from(ls, i + 1, still),
                    None => service_ports_from(ls, i + 1, still),
                },
                None => service_ports_from(ls, i + 1, still),
            },
        }
    }
}

/// The ports of the services of a manifest, under upper-case names, in the order of the file.
pub open spec fn service_ports(content: Seq<char>) -> Seq<(Seq<char>, int)> {
    service_ports_from(lines(content), 0, None)
}

/// What a list of named ports stands for.
pub open spec fn named_ports(v: Seq<(String, u16)>) -> Seq<(Seq<char>, int)> {
    v.map_values(|p: (String, u16)| (p.0@, p.1 as int))
}

pub fn extract_lifecycle_service_ports(content: &str) -> (r: Vec<(String, u16)>)
    ensures
        named_ports(r@) == service_ports(content@),
{
    let ls = lines_of(content);
    let ghost cs = lines(content@);
    let mut result: Vec<(String, u16)> = Vec::new();
    let mut current: Option<String> = None;
    let mut i: usize = 0;
    while i < ls.len()
        invariant
            i <= ls@.len(),
            texts(ls@) == cs,
            named_ports(result@) + service_ports_from(cs, i as int, opt_view(current))
                == service_ports(content@),
        decreases ls@.len() - i,
    {
        assert(cs[i as int] == ls@[i as int]@);
        let line = trim(ls[i].as_str());
        let ghost before = named_ports(result@);
        let ghost rest0 = service_ports_from(cs, i as int, opt_view(current));
        if starts_with(line, "[") {
            current = None;
        }
        if let Some(name) = name_in_header(line, "[services.") {
            current = Some(name.to_owned());
        } else if let Some(name) = current.as_ref() {
            if let Some(p) = split_once(line, "=") {
                if let Some(port) = extract_url_port(trim_chars(trim(p.1), "\"")) {
                    let entry = (to_upper(name.as_str()), port);
                    result.push(entry);
                    assert(named_ports(result@) == before.push((entry.0@, port as int)));
                }
            }
        }
        i = i + 1;
        assert(before + rest0 == named_ports(result@) + service_ports_from(
            cs,
            i as int,
            opt_view(current),
        ));
    }
    assert(named_ports(result@) + Seq::<(Seq<char>, int)>::empty() == named_ports(result@));
    result
}

// ---------------------------------------------------------------------------
// The words of a command
// ---------------------------------------------------------------------------

/// The double-quoted parts of a text from `i` on; `open` is where the quote that is open at
/// `i` started. A quote that is never closed counts for nothing.
pub open spec fn quoted_from(s: Seq<char>, i: int, open: Option<int>) -> Seq<Seq<char>>
    decreases s.len() - i,
{
    if i < 0 || i >= s.len() {
        Seq::empty()
    } else if s[i] == '"' {
        match open {
            Some(start) => seq![s.subrange(start, i)] + quoted_from(s, i + 1, None),
            None => quoted_from(s, i + 1, Some(i + 1)),
        }
    } else {
        quoted_from(s, i + 1, open)
    }
}

/// The words of a command line: the quoted elements of an array, or the words of a single
/// quoted string.
pub open spec fn tokens_of(line: Seq<char>) -> Seq<Seq<char>> {
    let after = match cut(line, "="@) {
        Some(p) => p.1,
        None => line,
    };
    let quoted = quoted_from(after, 0, None);
    if quoted.len() == 1 {
        words(quoted[0])
    } else {
        quoted
    }
}

pub fn command_tokens(line: &str) -> (r: Vec<String>)
    ensures
        texts(r@) == tokens_of(line@),
{
    let after = match split_once(line, "=") {
        Some(p) => p.1,
        None => line,
    };
    let v = chars_of(after);
    let mut quoted: Vec<String> = Vec::new();
    let mut open: Option<usize> = None;
    let mut i: usize = 0;
    while i < v.len()
        invariant
            i <= v@.len(),
            open matches Some(k) ==> k <= i,
            texts(quoted@) + quoted_from(v@, i as int, at(open)) == quoted_from(
                v@,
                0,
                None,
            ),
        decreases v@.len() - i,
    {
        if v[i] == '"' {
            match open {
                Some(start) => {
                    let ghost before = texts(quoted@);
                    let ghost rest = quoted_from(v@, i + 1, None);
                    let word = after.substring_char(start, i).to_owned();
                    quoted.push(word);
                    assert(texts(quoted@) == before.push(word@));
                    assert(before.push(word@) + rest == before + (seq![word@] + rest));
                    open = None;
                },
                None => {
                    open = Some(i + 1);
                },
            }
        }
        i = i + 1;
    }
    assert(texts(quoted@) + Seq::<Seq<char>>::empty() == texts(quoted@));
    if quoted.len() == 1 {
        assert(quoted@[0]@ == texts(quoted@)[0]);
        split_whitespace(quoted[0].as_str())
    } else {
        quoted
    }
}

pub open spec fn is_npm_run(tokens: Seq<Seq<char>>) -> bool {
    tokens.len() >= 2 && tokens[0] == "npm"@ && tokens[1] == "run"@
}

fn tokens_are_npm_run(tokens: &Vec<String>) -> (r: bool)
    ensures
        r == is_npm_run(texts(tokens@)),
{
    tokens.len() >= 2 && same(tokens[0].as_str(), "npm") && same(tokens[1].as_str(), "run")
}

/// Whether a word names a tool that knows `--port`.
pub open spec fn is_port_tool(token: Seq<char>) -> bool {
    lower(token) == "vite"@ || holds(lower(token), "langgraph"@) || holds(lower(token), "uvicorn"@)
}

/// Whether a command takes a `--port` flag.
pub open spec fn takes_port(tokens: Seq<Seq<char>>) -> bool {
    is_npm_run(tokens) || exists|i: int|
        0 <= i < tokens.len() && is_port_tool(#[trigger] tokens[i])
}

pub fn accepts_port_flag(tokens: &Vec<String>) -> (r: bool)
    ensures
        r == takes_port(texts(tokens@)),
{
    let ghost ts = texts(tokens@);
    if tokens_are_npm_run(tokens) {
        return true;
    }
    let mut i: usize = 0;
    while i < tokens.len()
        invariant
            i <= tokens@.len(),
            ts == texts(tokens@),
            forall|j: int| 0 <= j < i ==> !is_port_tool(#[trigger] ts[j]),
        decreases tokens@.len() - i,
    {
        assert(ts[i as int] == tokens@[i as int]@);
        let word = to_lower(tokens[i].as_str());
        let word = word.as_str();
        if same(word, "vite") || contains(word, "langgraph") || contains(word, "uvicorn") {
            return true;
        }
        i = i + 1;
    }
    false
}

// ---------------------------------------------------------------------------
// Inserting and removing the flag
// ---------------------------------------------------------------------------

/// The line with `extra` in front of position `k`.
pub open spec fn insert_at(line: Seq<char>, k: int, extra: Seq<char>) -> Seq<char> {
    line.take(k) + extra + line.skip(k)
}

/// The line up to position `k` with `extra` and a closing bracket behind it.
pub open spec fn close_at(line: Seq<char>, k: int, extra: Seq<char>) -> Seq<char> {
    line.take(k) + extra + "]"@
}

/// The flag as elements of an array.
pub open spec fn array_flag(port: Seq<char>) -> Seq<char> {
    ", \"--port\", \""@ + port + "\""@
}

/// The flag as elements of an array, passed through npm to the tool behind it.
pub open spec fn npm_flag(port: Seq<char>) -> Seq<char> {
    ", \"--\", \"--port\", \""@ + port + "\""@
}

/// The flag within a command string.
pub open spec fn text_flag(port: Seq<char>) -> Seq<char> {
    " --port "@ + port
}

/// A command line with the flag added, where it has a place for it: for `npm run` behind
/// `--`, for a shell within its command string, else as elements of the array or at the end
/// of the string.
pub open spec fn with_port_flag(line: Seq<char>, port: nat) -> Option<Seq<char>> {
    let tokens = tokens_of(line);
    let number = decimal(port);
    match rfind(line, "]"@) {
        Some(bracket) => if is_npm_run(tokens) {
            Some(close_at(line, bracket, npm_flag(number)))
        } else if tokens.len() >= 3 && tokens[0] == "sh"@ && rfind(
            line.take(bracket),
            "\""@,
        ) is Some {
            Some(insert_at(line, rfind(line.take(bracket), "\""@)->0, text_flag(number)))
        } else {
            Some(close_at(line, bracket, array_flag(number)))
        },
        None => match rfind(line, "\""@) {
            Some(quote) => Some(insert_at(line, quote, text_flag(number))),
            None => None,
        },
    }
}

pub fn insert_command_port(line: &str, port: u16) -> (r: Option<String>)
    ensures
        opt_view(r) == with_port_flag(line@, port as nat),
{
    let tokens = command_tokens(line);
    let number = decimal_of(port as u64);
    let number = number.as_str();
    match last_index_of(line, "]") {
        Some(bracket) => {
            let before = take(line, bracket);
            if tokens_are_npm_run(&tokens) {
                let flag = concat3(", \"--\", \"--port\", \"", number, "\"");
                return Some(concat3(before, flag.as_str(), "]"));
            }
            assert(tokens@.len() > 0 ==> texts(tokens@)[0] == tokens@[0]@);
            if tokens.len() >= 3 && same(tokens[0].as_str(), "sh") {
                if let Some(quote) = last_index_of(before, "\"") {
                    return Some(
                        concat3(
                            take(line, quote),
                            concat2(" --port ", number).as_str(),
                            skip(line, quote),
                        ),
                    );
                }
            }
            let flag = concat3(", \"--port\", \"", number, "\"");
            Some(concat3(before, flag.as_str(), "]"))
        },
        None => match last_index_of(line, "\"") {
            Some(quote) => Some(
                concat3(
                    take(line, quote),
                    concat2(" --port ", number).as_str(),
                    skip(line, quote),
                ),
            ),
            None => None,
        },
    }
}

/// The first quoted text behind the first comma.
pub open spec fn quoted_after_comma(flag: Seq<char>) -> Option<Seq<char>> {
    let rest = match find(flag, ","@) {
        Some(k) => flag.skip(k),
        None => flag.skip(flag.len() as int),
    };
    match cut(rest, "\""@) {
        Some(p) => match cut(p.1, "\""@) {
            Some(q) => Some(q.0),
            None => None,
        },
        None => None,
    }
}

fn quoted_behind_comma(flag: &str) -> (r: Option<&str>)
    ensures
        opt_str(r) == quoted_after_comma(flag@),
{
    let rest = match index_of(flag, ",") {
        Some(k) => skip(flag, k),
        None => skip(flag, flag.unicode_len()),
    };
    match split_once(rest, "\"") {
        Some(p) => match split_once(p.1, "\"") {
            Some(q) => Some(q.0),
            None => None,
        },
        None => None,
    }
}

/// The length of the run of digits that a text starts with, counted from `i` on.
pub open spec fn digit_run(s: Seq<char>, i: int) -> int
    decreases s.len() - i,
{
    if 0 <= i < s.len() && is_digit(s[i]) {
        digit_run(s, i + 1)
    } else {
        i
    }
}

/// The digits behind the flag and white space.
pub open spec fn digits_after_flag(flag: Seq<char>) -> Seq<char> {
    let rest = trimmed_start(
        match after_prefix(flag, "--port"@) {
            Some(r) => r,
            None => flag,
        },
    );
    rest.take(digit_run(rest, 0))
}

fn digits_behind_flag(flag: &str) -> (r: &str)
    ensures
        r@ == digits_after_flag(flag@),
{
    let rest = match strip_prefix(flag, "--port") {
        Some(r) => r,
        None => flag,
    };
    let rest = trim_start(rest);
    let v = chars_of(rest);
    let mut i: usize = 0;
    while i < v.len() && char_is_digit(v[i])
        invariant
            i <= v@.len(),
            digit_run(v@, 0) == digit_run(v@, i as int),
        decreases v@.len() - i,
    {
        i = i + 1;
    }
    take(rest, i)
}

/// A line with every occurrence of `flag` taken out, if that changes it.
pub open spec fn without(line: Seq<char>, flag: Seq<char>) -> Option<Seq<char>> {
    if replaced(line, flag, ""@) != line {
        Some(replaced(line, flag, ""@))
    } else {
        None
    }
}

fn line_without(line: &str, flag: &str) -> (r: Option<String>)
    requires
        flag@.len() > 0,
    ensures
        opt_view(r) == without(line@, flag@),
{
    let cleaned = replace(line, flag, "");
    if same(cleaned.as_str(), line) {
        None
    } else {
        Some(cleaned)
    }
}

/// A command line with the flag and its port taken out, in the first of the forms in which
/// it is found: behind npm's `--`, as elements of an array, within a string.
pub open spec fn without_port_flag(line: Seq<char>) -> Option<Seq<char>> {
    match find(line, "--port"@) {
        None => None,
        Some(k) => {
            let flag = line.skip(k);
            let quoted = quoted_after_comma(flag);
            let number = digits_after_flag(flag);
            if quoted is Some && parsed(quoted->0, 65535) is Some && without(
                line,
                npm_flag(quoted->0),
            ) is Some {
                without(line, npm_flag(quoted->0))
            } else if quoted is Some && parsed(quoted->0, 65535) is Some && without(
                line,
                array_flag(quoted->0),
            ) is Some {
                without(line, array_flag(quoted->0))
            } else if number.len() > 0 && parsed(number, 65535) is Some {
                without(line, text_flag(number))
            } else {
                None
            }
        },
    }
}

pub fn remove_command_port(line: &str) -> (r: Option<String>)
    ensures
        opt_view(r) == without_port_flag(line@),
{
    proof {
        reveal_strlit(", \"--\", \"--port\", \"");
        reveal_strlit(", \"--port\", \"");
        reveal_strlit(" --port ");
    }
    let k: usize = match index_of(line, "--port") {
        Some(k) => k,
        None => {
            return None;
        },
    };
    let flag = skip(line, k);
    if let Some(port) = quoted_behind_comma(flag) {
        if parse_u16(port).is_some() {
            let target = concat3(", \"--\", \"--port\", \"", port, "\"");
            if let Some(cleaned) = line_without(line, target.as_str()) {
                return Some(cleaned);
            }
            let target = concat3(", \"--port\", \"", port, "\"");
            if let Some(cleaned) = line_without(line, target.as_str()) {
                return Some(cleaned);
            }
        }
    }
    let number = digits_behind_flag(flag);
    if !number.is_empty() && parse_u16(number).is_some() {
        let target = concat2(" --port ", number);
        return line_without(line, target.as_str());
    }
    None
}

// ---------------------------------------------------------------------------
// Carrying ports into commands
// ---------------------------------------------------------------------------

/// The value of the first entry with the given upper-case name, in any case.
pub open spec fn first_value(env: Seq<EnvModel>, key: Seq<char>, i: int) -> Option<Seq<char>>
    decreases env.len() - i,
{
    if i < 0 || i >= env.len() {
        None
    } else if upper(env[i].key) == key {
        Some(env[i].value)
    } else {
        first_value(env, key, i + 1)
    }
}

pub fn find_env_value<'a>(entries: &'a Vec<EnvVariable>, key: &str) -> (r: Option<&'a str>)
    ensures
        opt_str(r) == first_value(envs(entries@), key@, 0),
{
    let ghost env = envs(entries@);
    let mut i: usize = 0;
    while i < entries.len()
        invariant
            i <= entries@.len(),
            env == envs(entries@),
            first_value(env, key@, 0) == first_value(env, key@, i as int),
        decreases entries@.len() - i,
    {
        assert(env[i as int] == entries@[i as int]@);
        if same(to_upper(entries[i].key.as_str()).as_str(), key) {
            return Some(entries[i].value.as_str());
        }
        i = i + 1;
    }
    None
}

/// The first port under the given name, from `i` on.
pub open spec fn first_named(ports: Seq<(Seq<char>, int)>, name: Seq<char>, i: int) -> Option<int>
    decreases ports.len() - i,
{
    if i < 0 || i >= ports.len() {
        None
    } else if ports[i].0 == name {
        Some(ports[i].1)
    } else {
        first_named(ports, name, i + 1)
    }
}

pub(crate) fn find_named(ports: &Vec<(String, u16)>, name: &str) -> (r: Option<u16>)
    ensures
        port_num(r) == first_named(named_ports(ports@), name@, 0),
{
    let ghost ps = named_ports(ports@);
    let mut i: usize = 0;
    while i < ports.len()
        invariant
            i <= ports@.len(),
            ps == named_ports(ports@),
            first_named(ps, name@, 0) == first_named(ps, name@, i as int),
        decreases ports@.len() - i,
    {
        assert(ps[i as int] == (ports@[i as int].0@, ports@[i as int].1 as int));
        if same(ports[i].0.as_str(), name) {
            return Some(ports[i].1);
        }
        i = i + 1;
    }
    None
}

/// The port of a process: that of its variable in the environment, else that of the service
/// of the same name.
pub open spec fn process_port(
    process: Seq<char>,
    env: Seq<EnvModel>,
    ports: Seq<(Seq<char>, int)>,
) -> Option<int> {
    let own = match first_value(env, upper(process) + "_PORT"@, 0) {
        Some(v) => parsed(trimmed(v), 65535),
        None => None,
    };
    match own {
        Some(p) => Some(p),
        None => first_named(ports, upper(process), 0),
    }
}

fn port_of_process(
    process: &str,
    entries: &Vec<EnvVariable>,
    ports: &Vec<(String, u16)>,
) -> (r: Option<u16>)
    ensures
        port_num(r) == process_port(process@, envs(entries@), named_ports(ports@)),
{
    let name = to_upper(process);
    let key = concat2(name.as_str(), "_PORT");
    if let Some(value) = find_env_value(entries, key.as_str()) {
        if let Some(port) = parse_u16(trim(value)) {
            return Some(port);
        }
    }
    find_named(ports, name.as_str())
}

/// The line with a port that stands as an array element behind the flag exchanged.
pub open spec fn array_port_changed(line: Seq<char>, flag: Seq<char>, port: int) -> Option<
    Seq<char>,
> {
    match quoted_after_comma(flag) {
        Some(q) => match parsed(q, 65535) {
            Some(current) => if current != port {
                Some(
                    replaced(
                        line,
                        "--port\", \""@ + decimal(current as nat) + "\""@,
                        "--port\", \""@ + decimal(port as nat) + "\""@,
                    ),
                )
            } else {
                None
            },
            None => None,
        },
        None => None,
    }
}

/// The line with a port that stands behind the flag within a string exchanged.
pub open spec fn text_port_changed(line: Seq<char>, flag: Seq<char>, port: int) -> Option<
    Seq<char>,
> {
    match parsed(digits_after_flag(flag), 65535) {
        Some(current) => if current != port {
            Some(
                replaced(
                    line,
                    "--port "@ + decimal(current as nat),
                    "--port "@ + decimal(port as nat),
                ),
            )
        } else {
            None
        },
        None => None,
    }
}

fn change_array_port(line: &str, flag: &str, port: u16) -> (r: Option<String>)
    ensures
        opt_view(r) == array_port_changed(line@, flag@, port as int),
{
    proof {
        reveal_strlit("--port\", \"");
    }
    if let Some(quoted) = quoted_behind_comma(flag) {
        if let Some(current) = parse_u16(quoted) {
            if current != port {
                let old = concat3("--port\", \"", decimal_of(current as u64).as_str(), "\"");
                let new = concat3("--port\", \"", decimal_of(port as u64).as_str(), "\"");
                return Some(replace(line, old.as_str(), new.as_str()));
            }
        }
    }
    None
}

fn change_text_port(line: &str, flag: &str, port: u16) -> (r: Option<String>)
    ensures
        opt_view(r) == text_port_changed(line@, flag@, port as int),
{
    proof {
        reveal_strlit("--port ");
    }
    if let Some(current) = parse_u16(digits_behind_flag(flag)) {
        if current != port {
            let old = concat2("--port ", decimal_of(current as u64).as_str());
            let new = concat2("--port ", decimal_of(port as u64).as_str());
            return Some(replace(line, old.as_str(), new.as_str()));
        }
    }
    None
}

/// A bare flag of an `npm run` command, moved behind npm's `--`.
pub open spec fn npm_migrated(line: Seq<char>, port: nat) -> Option<Seq<char>> {
    if is_npm_run(tokens_of(line)) && holds(line, "--port"@) && !holds(line, "\"--\""@) {
        match without_port_flag(line) {
            Some(cleaned) => with_port_flag(cleaned, port),
            None => None,
        }
    } else {
        None
    }
}

/// What a command line becomes, if it changes: a command that takes no port loses a flag
/// that it has; one that does gets the port of its process.
pub open spec fn command_change(line: Seq<char>, port: Option<int>) -> Option<Seq<char>> {
    if !takes_port(tokens_of(line)) {
        if holds(line, "--port"@) {
            without_port_flag(line)
        } else {
            None
        }
    } else {
        match port {
            None => None,
            Some(p) => if npm_migrated(line, p as nat) is Some {
                npm_migrated(line, p as nat)
            } else {
                match find(line, "--port"@) {
                    None => with_port_flag(line, p as nat),
                    Some(k) => if array_port_changed(line, line.skip(k), p) is Some {
                        array_port_changed(line, line.skip(k), p)
                    } else {
                        text_port_changed(line, line.skip(k), p)
                    },
                }
            },
        }
    }
}

/// Decides what a command line becomes for the port of its process.
pub fn changed_command(line: &str, port: Option<u16>) -> (r: Option<String>)
    ensures
        opt_view(r) == command_change(line@, port_num(port)),
{
    let tokens = command_tokens(line);
    let has_flag: bool = contains(line, "--port");
    if !accepts_port_flag(&tokens) {
        return if has_flag {
            remove_command_port(line)
        } else {
            None
        };
    }
    let port: u16 = match port {
        Some(p) => p,
        None => {
            return None;
        },
    };
    if tokens_are_npm_run(&tokens) && has_flag && !contains(line, "\"--\"") {
        if let Some(cleaned) = remove_command_port(line) {
            if let Some(inserted) = insert_command_port(cleaned.as_str(), port) {
                return Some(inserted);
            }
        }
    }
    match index_of(line, "--port") {
        None => insert_command_port(line, port),
        Some(k) => {
            let flag = skip(line, k);
            match change_array_port(line, flag, port) {
                Some(changed) => Some(changed),
                None => change_text_port(line, flag, port),
            }
        },
    }
}

/// The process whose section is open behind a line.
pub open spec fn process_after(line: Seq<char>, open: Option<Seq<char>>) -> Option<Seq<char>> {
    if starts(trimmed(line), "["@) {
        header_name(trimmed(line), "[processes."@)
    } else {
        open
    }
}

/// The process whose section is open before line `k`.
pub open spec fn process_before(ls: Seq<Seq<char>>, k: int) -> Option<Seq<char>>
    decreases k,
{
    if k <= 0 || k > ls.len() {
        None
    } else {
        process_after(ls[k - 1], process_before(ls, k - 1))
    }
}

/// Whether line `i` gives the command of a process.
pub open spec fn is_process_command(ls: Seq<Seq<char>>, i: int) -> bool {
    process_before(ls, i) is Some && starts(trimmed(ls[i]), "command"@)
}

/// Line `i` with the port of its process, where it gives the command of one.
pub open spec fn synced_line(
    ls: Seq<Seq<char>>,
    env: Seq<EnvModel>,
    ports: Seq<(Seq<char>, int)>,
    i: int,
) -> Seq<char> {
    if is_process_command(ls, i) {
        match command_change(ls[i], process_port(process_before(ls, i)->0, env, ports)) {
            Some(to) => to,
            None => ls[i],
        }
    } else {
        ls[i]
    }
}

/// The lines with the ports of the processes in their commands.
pub open spec fn synced_lines(
    ls: Seq<Seq<char>>,
    env: Seq<EnvModel>,
    ports: Seq<(Seq<char>, int)>,
) -> Seq<Seq<char>> {
    Seq::new(ls.len(), |i: int| synced_line(ls, env, ports, i))
}

/// A manifest whose process commands carry the ports of their processes; all other lines are
/// as they were.
pub open spec fn synced_commands(content: Seq<char>, env: Seq<EnvModel>) -> Seq<char> {
    with_lines(content, synced_lines(lines(content), env, service_ports(content)))
}

/// A header that starts with the opening of a process section starts with a bracket, and
/// gives no command.
proof fn lemma_process_header(line: Seq<char>)
    ensures
        starts(line, "[processes."@) ==> starts(line, "["@),
        !starts(line, "[processes."@) ==> header_name(line, "[processes."@) is None,
        starts(line, "["@) ==> !starts(line, "command"@),
{
    reveal_strlit("[processes.");
    reveal_strlit("[");
    reveal_strlit("command");
    if starts(line, "[processes."@) {
        assert(line.subrange(0, "[processes."@.len() as int)[0] == line[0]);
        assert(line.subrange(0, 1) == "["@);
    }
    if starts(line, "["@) && starts(line, "command"@) {
        assert(line.subrange(0, 1)[0] == line[0]);
        assert(line.subrange(0, 7)[0] == line[0]);
    }
}

/// Carries the ports of the environment, or those of the services, into the `--port` flags of
/// the process commands of a manifest. Lines that give no command of a process, those of tasks
/// among them, stay as they are.
pub fn sync_process_command_ports(content: &str, entries: &Vec<EnvVariable>) -> (r: String)
    ensures
        r@ == synced_commands(content@, envs(entries@)),
        lines(r@).len() == lines(content@).len(),
        forall|i: int|
            0 <= i < lines(content@).len() && !is_process_command(lines(content@), i) ==> (
            #[trigger] lines(r@)[i]) == lines(content@)[i],
{
    let lifecycle_ports = extract_lifecycle_service_ports(content);
    let ls = lines_of(content);
    let ghost cs = lines(content@);
    let ghost env = envs(entries@);
    let ghost ports = service_ports(content@);
    let ghost whole = synced_lines(cs, env, ports);
    let mut out: Vec<String> = Vec::new();
    let mut current: Option<String> = None;
    let mut i: usize = 0;
    while i < ls.len()
        invariant
            i <= ls@.len(),
            texts(ls@) == cs,
            env == envs(entries@),
            ports == named_ports(lifecycle_ports@),
            whole == synced_lines(cs, env, ports),
            opt_view(current) == process_before(cs, i as int),
            texts(out@) == whole.take(i as int),
        decreases ls@.len() - i,
    {
        let line = ls[i].as_str();
        assert(cs[i as int] == line@);
        let t = trim(line);
        proof {
            lemma_process_header(t@);
        }
        let mut changed: Option<String> = None;
        if starts_with(t, "[processes.") {
            current =
            match name_in_header(t, "[processes.") {
                Some(name) => Some(name.to_owned()),
                None => None,
            };
        } else if starts_with(t, "[") {
            current = None;
        } else if let Some(process) = current.as_ref() {
            if starts_with(t, "command") {
                let port = port_of_process(process.as_str(), entries, &lifecycle_ports);
                changed = changed_command(line, port);
            }
        }
        let next = match changed {
            Some(to) => to,
            None => line.to_owned(),
        };
        let ghost model = next@;
        assert(model == whole[i as int]);
        out.push(next);
        assert(texts(out@) == whole.take(i as int).push(model));
        assert(process_before(cs, i + 1) == process_after(
            cs[i as int],
            process_before(cs, i as int),
        ));
        i = i + 1;
    }
    assert(whole.take(whole.len() as int) == whole);
    assert(out@.len() == texts(out@).len());
    let r = exchange_lines(content, &out);
    proof {
        law_only_process_commands_change(content@, env);
    }
    r
}

} // verus!
