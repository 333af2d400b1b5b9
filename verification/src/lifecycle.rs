//! The lifecycle manifest as text: service names and ports, and how single lines of it are
//! rewritten without touching the rest.

use crate::models::{
    EndpointModel, EnvModel, EnvVariable, InstanceModel, InstanceRecord, ServiceEndpoint, endpoints,
    envs,
};
use crate::ports::{is_local_service_port_key, is_service_port_key};
use crate::text::{
    after_prefix, before_suffix, chars_of, chunks, concat2, concat3, concat6, contains, copy_opt,
    cut, find, find_any_from, find_from, holds, index_from, index_of, index_of_any, lower, opt_str,
    opt_view, parse_u16, parsed, port_num, same, same_opt, skip, split_inclusive, split_once,
    starts, starts_with, strip_prefix, strip_set, strip_suffix, take, texts, to_lower, to_upper,
    trim, trim_chars, trim_end, trim_start, trimmed, trimmed_end, trimmed_start, upper,
};
use crate::urls::{replace_url_port, with_url_port};
use vstd::prelude::*;
use vstd::string::*;

verus! {

// ---------------------------------------------------------------------------
// Services
// ---------------------------------------------------------------------------

/// Whether a name is one of three, in any case.
pub open spec fn named3(name: Seq<char>, a: Seq<char>, b: Seq<char>, c: Seq<char>) -> bool {
    lower(name) == a || lower(name) == b || lower(name) == c
}

/// Whether a name is one of two, in any case.
pub open spec fn named2(name: Seq<char>, a: Seq<char>, b: Seq<char>) -> bool {
    lower(name) == a || lower(name) == b
}

pub open spec fn is_frontend(name: Seq<char>) -> bool {
    named3(name, "app"@, "frontend"@, "web"@)
}

pub open spec fn is_gateway(name: Seq<char>) -> bool {
    named2(name, "gateway"@, "agent"@)
}

pub open spec fn is_studio(name: Seq<char>) -> bool {
    named2(name, "studio"@, "langsmith"@)
}

pub open spec fn is_context(name: Seq<char>) -> bool {
    named2(name, "ctx"@, "contextseek"@)
}

fn name_is_frontend(name: &str) -> (r: bool)
    ensures
        r == is_frontend(name@),
{
    let n = to_lower(name);
    same(n.as_str(), "app") || same(n.as_str(), "frontend") || same(n.as_str(), "web")
}

fn name_is(name: &str, a: &str, b: &str) -> (r: bool)
    ensures
        r == named2(name@, a@, b@),
{
    let n = to_lower(name);
    same(n.as_str(), a) || same(n.as_str(), b)
}

/// The label under which a service is shown.
pub open spec fn display_label(name: Seq<char>) -> Seq<char> {
    if is_frontend(name) {
        "Frontend"@
    } else if is_gateway(name) {
        "Agent / Gateway"@
    } else if lower(name) == "copilotkit"@ {
        "CopilotKit Runtime"@
    } else if is_context(name) {
        "ContextSeek API"@
    } else if is_studio(name) {
        "LangSmith Studio"@
    } else {
        name
    }
}

pub fn service_display_name(name: &str) -> (r: String)
    ensures
        r@ == display_label(name@),
{
    if name_is_frontend(name) {
        "Frontend".to_owned()
    } else if name_is(name, "gateway", "agent") {
        "Agent / Gateway".to_owned()
    } else if name_is(name, "copilotkit", "copilotkit") {
        "CopilotKit Runtime".to_owned()
    } else if name_is(name, "ctx", "contextseek") {
        "ContextSeek API".to_owned()
    } else if name_is(name, "studio", "langsmith") {
        "LangSmith Studio".to_owned()
    } else {
        name.to_owned()
    }
}

/// What a service offers, and whether it is the one to open first.
pub open spec fn kind_of(name: Seq<char>) -> (Seq<char>, bool) {
    if is_frontend(name) {
        ("web"@, true)
    } else if is_studio(name) || lower(name) == "phoenix"@ {
        ("web"@, false)
    } else if is_gateway(name) {
        ("protocol"@, false)
    } else if named3(name, "copilotkit"@, "backend"@, "langgraph"@) || is_context(name) {
        ("api"@, false)
    } else if named2(name, "database"@, "db"@) || named2(name, "seekdb"@, "oceanbase"@) {
        ("database"@, false)
    } else {
        ("other"@, false)
    }
}

pub fn service_kind(name: &str) -> (r: (&'static str, bool))
    ensures
        (r.0@, r.1) == kind_of(name@),
{
    if name_is_frontend(name) {
        ("web", true)
    } else if name_is(name, "studio", "langsmith") || name_is(name, "phoenix", "phoenix") {
        ("web", false)
    } else if name_is(name, "gateway", "agent") {
        ("protocol", false)
    } else if name_is(name, "copilotkit", "backend") || name_is(name, "langgraph", "ctx")
        || name_is(name, "contextseek", "contextseek") {
        ("api", false)
    } else if name_is(name, "database", "db") || name_is(name, "seekdb", "oceanbase") {
        ("database", false)
    } else {
        ("other", false)
    }
}

/// The value that an environment gives a key: that of the last entry with it.
pub open spec fn env_value(env: Seq<EnvModel>, key: Seq<char>) -> Option<Seq<char>>
    decreases env.len(),
{
    if env.len() == 0 {
        None
    } else if env.last().key == key {
        Some(env.last().value)
    } else {
        env_value(env.drop_last(), key)
    }
}

pub fn lookup_env<'a>(env: &'a Vec<EnvVariable>, key: &str) -> (r: Option<&'a str>)
    ensures
        opt_str(r) == env_value(envs(env@), key@),
{
    let mut i: usize = env.len();
    assert(envs(env@).take(env@.len() as int) == envs(env@));
    while i > 0
        invariant
            i <= env@.len(),
            env_value(envs(env@), key@) == env_value(envs(env@).take(i as int), key@),
        decreases i,
    {
        let ghost e = envs(env@).take(i as int);
        assert(e.last() == env@[i - 1]@);
        assert(e.drop_last() == envs(env@).take(i - 1));
        if same(env[i - 1].key.as_str(), key) {
            return Some(env[i - 1].value.as_str());
        }
        i = i - 1;
    }
    None
}

/// The variables that may hold the port of a service, the first choice first.
pub open spec fn port_keys(name: Seq<char>) -> Seq<Seq<char>> {
    (if is_frontend(name) {
        seq!["FRONTEND_PORT"@, "APP_PORT"@, "WEB_PORT"@]
    } else if is_gateway(name) {
        seq![
            "BUB_AG_UI_PORT"@,
            "AG_UI_PORT"@,
            "GATEWAY_PORT"@,
            "AGENT_PORT"@,
            "BACKEND_PORT"@,
        ]
    } else if named2(name, "copilotkit"@, "runtime"@) {
        seq!["COPILOTKIT_PORT"@, "RUNTIME_PORT"@]
    } else if named2(name, "backend"@, "langgraph"@) {
        seq!["BACKEND_PORT"@, "LANGGRAPH_PORT"@, "API_PORT"@]
    } else if is_context(name) {
        seq!["CTX_SERVER_PORT"@, "CONTEXTSEEK_PORT"@]
    } else if is_studio(name) {
        seq!["STUDIO_PORT"@, "LANGSMITH_PORT"@]
    } else if lower(name) == "phoenix"@ {
        seq!["PHOENIX_PORT"@]
    } else {
        Seq::empty()
    }).push(upper(name) + "_PORT"@)
}

fn service_port_keys(name: &str) -> (r: Vec<String>)
    ensures
        texts(r@) == port_keys(name@),
{
    let mut r: Vec<String> = if name_is_frontend(name) {
        vec!["FRONTEND_PORT".to_owned(), "APP_PORT".to_owned(), "WEB_PORT".to_owned()]
    } else if name_is(name, "gateway", "agent") {
        vec![
            "BUB_AG_UI_PORT".to_owned(),
            "AG_UI_PORT".to_owned(),
            "GATEWAY_PORT".to_owned(),
            "AGENT_PORT".to_owned(),
            "BACKEND_PORT".to_owned(),
        ]
    } else if name_is(name, "copilotkit", "runtime") {
        vec!["COPILOTKIT_PORT".to_owned(), "RUNTIME_PORT".to_owned()]
    } else if name_is(name, "backend", "langgraph") {
        vec!["BACKEND_PORT".to_owned(), "LANGGRAPH_PORT".to_owned(), "API_PORT".to_owned()]
    } else if name_is(name, "ctx", "contextseek") {
        vec!["CTX_SERVER_PORT".to_owned(), "CONTEXTSEEK_PORT".to_owned()]
    } else if name_is(name, "studio", "langsmith") {
        vec!["STUDIO_PORT".to_owned(), "LANGSMITH_PORT".to_owned()]
    } else if name_is(name, "phoenix", "phoenix") {
        vec!["PHOENIX_PORT".to_owned()]
    } else {
        Vec::new()
    };
    r.push(concat2(to_upper(name).as_str(), "_PORT"));
    assert(texts(r@) == port_keys(name@));
    r
}

/// The port above zero that a value is the notation of, white space around it aside.
pub open spec fn positive_port(value: Seq<char>) -> Option<int> {
    match parsed(trimmed(value), 65535) {
        Some(p) => if p > 0 {
            Some(p)
        } else {
            None
        },
        None => None,
    }
}

/// The port above zero of the first of the keys, from `i` on, that holds one.
pub open spec fn first_env_port(keys: Seq<Seq<char>>, env: Seq<EnvModel>, i: int) -> Option<int>
    decreases keys.len() - i,
{
    if i < 0 || i >= keys.len() {
        None
    } else {
        match env_value(env, keys[i]) {
            Some(v) => if positive_port(v) is Some {
                positive_port(v)
            } else {
                first_env_port(keys, env, i + 1)
            },
            None => first_env_port(keys, env, i + 1),
        }
    }
}

/// The port that the environment assigns to a service.
pub open spec fn env_port(name: Seq<char>, env: Seq<EnvModel>) -> Option<int> {
    first_env_port(port_keys(name), env, 0)
}

/// Looks up the port of a service under the names that are customary for it.
pub fn service_env_port(name: &str, env: &Vec<EnvVariable>) -> (r: Option<u16>)
    ensures
        port_num(r) == env_port(name@, envs(env@)),
{
    let keys = service_port_keys(name);
    let ghost ks = port_keys(name@);
    let mut i: usize = 0;
    while i < keys.len()
        invariant
            i <= keys@.len(),
            texts(keys@) == ks,
            env_port(name@, envs(env@)) == first_env_port(ks, envs(env@), i as int),
        decreases keys@.len() - i,
    {
        assert(ks[i as int] == keys@[i as int]@);
        if let Some(value) = lookup_env(env, keys[i].as_str()) {
            if let Some(port) = parse_u16(trim(value)) {
                if port > 0 {
                    return Some(port);
                }
            }
        }
        i = i + 1;
    }
    None
}

// ---------------------------------------------------------------------------
// Section headers
// ---------------------------------------------------------------------------

/// The group and the quoted or bare name of a header such as `[group.name]`.
pub open spec fn section_parts(header: Seq<char>) -> Option<(Seq<char>, Seq<char>)> {
    match after_prefix(header, "["@) {
        None => None,
        Some(open) => match before_suffix(open, "]"@) {
            None => None,
            Some(inner) => match cut(trimmed(inner), "."@) {
                None => None,
                Some(p) => Some((trimmed(p.0), strip_set(trimmed(p.1), "'\""@))),
            },
        },
    }
}

fn section_of(header: &str) -> (r: Option<(String, String)>)
    ensures
        match r {
            Some(p) => section_parts(header@) == Some((p.0@, p.1@)),
            None => section_parts(header@) is None,
        },
{
    match strip_prefix(header, "[") {
        None => None,
        Some(open) => match strip_suffix(open, "]") {
            None => None,
            Some(inner) => match split_once(trim(inner), ".") {
                None => None,
                Some(p) => Some(
                    (trim(p.0).to_owned(), trim_chars(trim(p.1), "'\"").to_owned()),
                ),
            },
        },
    }
}

/// The service that a header opens a section of.
pub open spec fn section_service(header: Seq<char>) -> Option<Seq<char>> {
    match section_parts(header) {
        Some(p) => if p.0 == "services"@ || p.0 == "checks"@ {
            Some(p.1)
        } else {
            None
        },
        None => None,
    }
}

/// The variable that a header opens a section of.
pub open spec fn section_env_key(header: Seq<char>) -> Option<Seq<char>> {
    match section_parts(header) {
        Some(p) => if p.0 == "env"@ {
            Some(p.1)
        } else {
            None
        },
        None => None,
    }
}

pub fn lifecycle_section_service(header: &str) -> (r: Option<String>)
    ensures
        opt_view(r) == section_service(header@),
{
    match section_of(header) {
        Some(p) => if same(p.0.as_str(), "services") || same(p.0.as_str(), "checks") {
            Some(p.1)
        } else {
            None
        },
        None => None,
    }
}

pub fn lifecycle_section_env_key(header: &str) -> (r: Option<String>)
    ensures
        opt_view(r) == section_env_key(header@),
{
    match section_of(header) {
        Some(p) => if same(p.0.as_str(), "env") {
            Some(p.1)
        } else {
            None
        },
        None => None,
    }
}

// ---------------------------------------------------------------------------
// Lines of the form key = "value"
// ---------------------------------------------------------------------------

/// Where the quoted value of a line `key = "value"` starts and ends, for one of the keys.
pub open spec fn quoted_span(line: Seq<char>, keys: Seq<Seq<char>>) -> Option<(int, int)> {
    match find(line, "="@) {
        None => None,
        Some(eq) => if !keys.contains(trimmed(line.take(eq))) {
            None
        } else {
            let value = line.skip(eq + 1);
            match find_any_from(value, "'\""@, true, 0) {
                None => None,
                Some(q) => match find_from(value, seq![value[q]], q + 1) {
                    None => None,
                    Some(e) => Some((eq + 1 + q + 1, eq + 1 + e)),
                },
            }
        },
    }
}

/// The line with the text of its span exchanged.
pub open spec fn with_span(line: Seq<char>, span: (int, int), to: Seq<char>) -> Seq<char> {
    line.take(span.0) + to + line.skip(span.1)
}

fn list_contains(keys: &Vec<&str>, key: &str) -> (r: bool)
    ensures
        r == keys@.map_values(|k: &str| k@).contains(key@),
{
    let ghost ks = keys@.map_values(|k: &str| k@);
    let mut i: usize = 0;
    while i < keys.len()
        invariant
            i <= keys@.len(),
            forall|j: int| 0 <= j < i ==> ks[j] != key@,
        decreases keys@.len() - i,
    {
        if same(keys[i], key) {
            assert(ks[i as int] == key@);
            return true;
        }
        i = i + 1;
    }
    false
}

fn find_quoted_span(line: &str, keys: &Vec<&str>) -> (r: Option<(usize, usize)>)
    ensures
        match r {
            Some(p) => quoted_span(line@, keys@.map_values(|k: &str| k@)) == Some(
                (p.0 as int, p.1 as int),
            ) && p.0 <= p.1 <= line@.len(),
            None => quoted_span(line@, keys@.map_values(|k: &str| k@)) is None,
        },
{
    proof {
        reveal_strlit("=");
    }
    let n: usize = line.unicode_len();
    let equals: usize = match index_of(line, "=") {
        Some(k) => k,
        None => {
            return None;
        },
    };
    if !list_contains(keys, trim(take(line, equals))) {
        return None;
    }
    let value = skip(line, equals + 1);
    let quote_start: usize = match index_of_any(value, "'\"", true) {
        Some(k) => k,
        None => {
            return None;
        },
    };
    let quote = value.substring_char(quote_start, quote_start + 1);
    assert(quote@ == seq![value@[quote_start as int]]);
    match index_from(value, quote, quote_start + 1) {
        Some(e) => Some((equals + 1 + quote_start + 1, equals + 1 + e)),
        None => None,
    }
}

/// Exchanges the quoted value of a line `key = "value"`, for one of the keys, by what
/// `update` makes of it. Other lines stay as they are.
pub fn replace_toml_string_line<F: Fn(&str) -> String>(
    line: &str,
    keys: &Vec<&str>,
    update: F,
) -> (r: String)
    requires
        forall|current: &str| call_requires(update, (current,)),
    ensures
        match quoted_span(line@, keys@.map_values(|k: &str| k@)) {
            None => r@ == line@,
            Some(span) => exists|current: &str, updated: String|
                #![trigger call_ensures(update, (current,), updated)]
                current@ == line@.subrange(span.0, span.1) && call_ensures(
                    update,
                    (current,),
                    updated,
                ) && r@ == with_span(line@, span, updated@),
        },
{
    match find_quoted_span(line, keys) {
        None => line.to_owned(),
        Some(span) => {
            let current = line.substring_char(span.0, span.1);
            let updated = update(current);
            if same(updated.as_str(), current) {
                assert(with_span(line@, (span.0 as int, span.1 as int), updated@) == line@);
                return line.to_owned();
            }
            concat3(take(line, span.0), updated.as_str(), skip(line, span.1))
        },
    }
}

/// The keys whose quoted value is a URL.
pub open spec fn url_keys() -> Seq<Seq<char>> {
    seq!["url"@, "target"@]
}

/// A line that gives the URL of a service, with its port set. A URL that refers to a
/// variable stays as it is.
pub open spec fn url_line(line: Seq<char>, port: nat) -> Seq<char> {
    match quoted_span(line, url_keys()) {
        None => line,
        Some(span) => {
            let current = line.subrange(span.0, span.1);
            with_span(
                line,
                span,
                if holds(current, "${"@) {
                    current
                } else {
                    with_url_port(current, port)
                },
            )
        },
    }
}

pub fn replace_lifecycle_url_line(line: &str, port: u16) -> (r: String)
    ensures
        r@ == url_line(line@, port as nat),
{
    let keys: Vec<&str> = vec!["url", "target"];
    assert(keys@.map_values(|k: &str| k@) == url_keys());
    let update = |current: &str| -> (u: String)
        ensures
            u@ == (if holds(current@, "${"@) {
                current@
            } else {
                with_url_port(current@, port as nat)
            }),
    {
        if contains(current, "${") {
            current.to_owned()
        } else {
            replace_url_port(current, port)
        }
    };
    replace_toml_string_line(line, &keys, update)
}

/// A line that gives a default, with the default exchanged.
pub open spec fn default_line(line: Seq<char>, value: Seq<char>) -> Seq<char> {
    match quoted_span(line, seq!["default"@]) {
        None => line,
        Some(span) => with_span(line, span, value),
    }
}

fn replace_default_line(line: &str, value: &str) -> (r: String)
    ensures
        r@ == default_line(line@, value@),
{
    let keys: Vec<&str> = vec!["default"];
    assert(keys@.map_values(|k: &str| k@) == seq!["default"@]);
    let update = |_current: &str| -> (u: String)
        ensures
            u@ == value@,
    { value.to_owned() };
    replace_toml_string_line(line, &keys, update)
}

// ---------------------------------------------------------------------------
// The project name
// ---------------------------------------------------------------------------

/// A text as a TOML string, quotes included: what `toml::Value::String` of it displays as.
pub uninterp spec fn toml_string(value: Seq<char>) -> Seq<char>;

/// `toml::Value::String(value).to_string()`: the text as a TOML string with its quotes, a
/// function of the text alone. Which of TOML's notations it picks is left unsaid.
#[verifier::external_body]
fn toml_basic_string(value: &str) -> (r: String)
    ensures
        r@ == toml_string(value@),
{
    toml::Value::String(value.to_string()).to_string()
}

/// Where the comment of a TOML value starts, from `i` on, or the length of the text. A hash
/// sign within quotes starts none; `quote` is the quote that is open at `i`, and `escaped`
/// says that a backslash stands before `i` within double quotes.
pub open spec fn comment_from(value: Seq<char>, i: int, quote: Option<char>, escaped: bool) -> int
    decreases value.len() - i,
{
    if i < 0 || i >= value.len() {
        value.len() as int
    } else {
        let c = value[i];
        match quote {
            Some(q) => if q == '"' && escaped {
                comment_from(value, i + 1, quote, false)
            } else if q == '"' && c == '\\' {
                comment_from(value, i + 1, quote, true)
            } else if c == q {
                comment_from(value, i + 1, None, escaped)
            } else {
                comment_from(value, i + 1, quote, escaped)
            },
            None => if c == '\'' || c == '"' {
                comment_from(value, i + 1, Some(c), escaped)
            } else if c == '#' {
                i
            } else {
                comment_from(value, i + 1, None, escaped)
            },
        }
    }
}

fn comment_start(value: &str) -> (r: usize)
    ensures
        r == comment_from(value@, 0, None, false),
        r <= value@.len(),
{
    let v = chars_of(value);
    let mut quote: Option<char> = None;
    let mut escaped: bool = false;
    let mut i: usize = 0;
    while i < v.len()
        invariant
            i <= v@.len(),
            comment_from(v@, 0, None, false) == comment_from(v@, i as int, quote, escaped),
        decreases v@.len() - i,
    {
        let c = v[i];
        match quote {
            Some(q) => {
                if q == '"' && escaped {
                    escaped = false;
                } else if q == '"' && c == '\\' {
                    escaped = true;
                } else if c == q {
                    quote = None;
                }
            },
            None => {
                if c == '\'' || c == '"' {
                    quote = Some(c);
                } else if c == '#' {
                    return i;
                }
            },
        }
        i = i + 1;
    }
    v.len()
}

/// A line cut into its text and the line end behind it.
pub open spec fn line_parts(line: Seq<char>) -> (Seq<char>, Seq<char>) {
    match before_suffix(line, "\r\n"@) {
        Some(body) => (body, "\r\n"@),
        None => match before_suffix(line, "\n"@) {
            Some(body) => (body, "\n"@),
            None => (line, ""@),
        },
    }
}

/// Whether a line assigns to the key `name`.
pub open spec fn assigns_name(line: Seq<char>) -> bool {
    match cut(line, "="@) {
        Some(p) => trimmed(p.0) == "name"@,
        None => false,
    }
}

/// A line `name = ...` with its value exchanged for `rendered`; white space around the
/// value, a comment and the line end stay. Other lines stay as they are.
pub open spec fn name_line(line: Seq<char>, rendered: Seq<char>) -> Seq<char> {
    let (body, ending) = line_parts(line);
    match find(body, "="@) {
        None => line,
        Some(eq) => if trimmed(body.take(eq)) != "name"@ {
            line
        } else {
            let value = body.skip(eq + 1);
            let end = comment_from(value, 0, None, false);
            let old_value = value.take(end);
            let leading = old_value.take(old_value.len() - trimmed_start(old_value).len());
            let trailing = old_value.skip(trimmed_end(old_value).len() as int);
            body.take(eq + 1) + leading + rendered + trailing + value.skip(end) + ending
        },
    }
}

/// Exchanges the value of a line `name = ...` for text that is already a TOML value.
pub fn replace_lifecycle_name_value(line: &str, rendered: &str) -> (r: String)
    ensures
        r@ == name_line(line@, rendered@),
{
    proof {
        reveal_strlit("=");
    }
    let (body, ending): (&str, &str) = match strip_suffix(line, "\r\n") {
        Some(body) => (body, "\r\n"),
        None => match strip_suffix(line, "\n") {
            Some(body) => (body, "\n"),
            None => (line, ""),
        },
    };
    let n: usize = body.unicode_len();
    let equals: usize = match index_of(body, "=") {
        Some(k) => k,
        None => {
            return line.to_owned();
        },
    };
    if !same(trim(take(body, equals)), "name") {
        return line.to_owned();
    }
    let value = skip(body, equals + 1);
    let end: usize = comment_start(value);
    let old_value = take(value, end);
    let leading_len: usize = old_value.unicode_len() - trim_start(old_value).unicode_len();
    let trailing_start: usize = trim_end(old_value).unicode_len();
    let mut r = concat6(
        take(body, equals + 1),
        take(old_value, leading_len),
        rendered,
        skip(old_value, trailing_start),
        skip(value, end),
        ending,
    );
    r
}

/// Exchanges the project name in a line `name = ...`.
pub fn replace_lifecycle_name_line(line: &str, project_name: &str) -> (r: String)
    ensures
        r@ == name_line(line@, toml_string(project_name@)),
{
    replace_lifecycle_name_value(line, toml_basic_string(project_name).as_str())
}

/// The lines from `i` on with the first assignment to `name` above all sections exchanged.
pub open spec fn named_from(
    ls: Seq<Seq<char>>,
    rendered: Seq<char>,
    i: int,
    in_root: bool,
    found: bool,
) -> Seq<char>
    decreases ls.len() - i,
{
    if i < 0 || i >= ls.len() {
        Seq::empty()
    } else {
        let root = in_root && !starts(trimmed(ls[i]), "["@);
        if root && !found {
            name_line(ls[i], rendered) + named_from(
                ls,
                rendered,
                i + 1,
                root,
                name_line(ls[i], rendered) != ls[i] || assigns_name(ls[i]),
            )
        } else {
            ls[i] + named_from(ls, rendered, i + 1, root, found)
        }
    }
}

/// A manifest with its project name exchanged for `rendered`.
pub open spec fn with_project_name(content: Seq<char>, rendered: Seq<char>) -> Seq<char> {
    named_from(chunks(content), rendered, 0, true, false)
}

/// Sets the project name of a manifest to text that is already a TOML value.
pub fn set_project_name_value(content: &str, rendered: &str) -> (r: String)
    ensures
        r@ == with_project_name(content@, rendered@),
{
    let ls = split_inclusive(content);
    let ghost cs = chunks(content@);
    let mut in_root: bool = true;
    let mut found: bool = false;
    let mut output = String::new();
    let mut i: usize = 0;
    while i < ls.len()
        invariant
            i <= ls@.len(),
            texts(ls@) == cs,
            output@ + named_from(cs, rendered@, i as int, in_root, found) == with_project_name(
                content@,
                rendered@,
            ),
        decreases ls@.len() - i,
    {
        let line = ls[i].as_str();
        assert(cs[i as int] == line@);
        let ghost before = output@;
        let ghost rest0 = named_from(cs, rendered@, i as int, in_root, found);
        if in_root && starts_with(trim(line), "[") {
            in_root = false;
        }
        if in_root && !found {
            let updated = replace_lifecycle_name_value(line, rendered);
            let is_name: bool = match split_once(line, "=") {
                Some(p) => same(trim(p.0), "name"),
                None => false,
            };
            found = !same(updated.as_str(), line) || is_name;
            output.append(updated.as_str());
        } else {
            output.append(line);
        }
        i = i + 1;
        assert(before + rest0 == output@ + named_from(cs, rendered@, i as int, in_root, found));
    }
    assert(output@ + Seq::<char>::empty() == output@);
    output
}

/// Sets the project name of a manifest.
pub fn synchronize_lifecycle_project_name_content(content: &str, project_name: &str) -> (r: String)
    ensures
        r@ == with_project_name(content@, toml_string(project_name@)),
{
    set_project_name_value(content, toml_basic_string(project_name).as_str())
}

// ---------------------------------------------------------------------------
// Ports in the manifest
// ---------------------------------------------------------------------------

/// The service and the variable whose section a line opens, or those open before it.
pub open spec fn section_after(
    line: Seq<char>,
    open: (Option<Seq<char>>, Option<Seq<char>>),
) -> (Option<Seq<char>>, Option<Seq<char>>) {
    if starts(trimmed(line), "["@) {
        (section_service(trimmed(line)), section_env_key(trimmed(line)))
    } else {
        open
    }
}

/// A line of a section, with the ports of the environment in it.
pub open spec fn synced_line(
    line: Seq<char>,
    open: (Option<Seq<char>>, Option<Seq<char>>),
    env: Seq<EnvModel>,
) -> Seq<char> {
    if open.0 is Some && env_port(open.0->0, env) is Some {
        url_line(line, env_port(open.0->0, env)->0 as nat)
    } else if open.1 is Some && is_service_port_key(open.1->0) && env_value(env, open.1->0) is Some {
        default_line(line, env_value(env, open.1->0)->0)
    } else {
        line
    }
}

/// The lines from `i` on with the ports of the environment in them.
pub open spec fn synced_from(
    ls: Seq<Seq<char>>,
    env: Seq<EnvModel>,
    i: int,
    open: (Option<Seq<char>>, Option<Seq<char>>),
) -> Seq<char>
    decreases ls.len() - i,
{
    if i < 0 || i >= ls.len() {
        Seq::empty()
    } else {
        let now = section_after(ls[i], open);
        synced_line(ls[i], now, env) + synced_from(ls, env, i + 1, now)
    }
}

/// A manifest whose service URLs and port defaults follow the environment.
pub open spec fn synced_manifest(content: Seq<char>, env: Seq<EnvModel>) -> Seq<char> {
    synced_from(chunks(content), env, 0, (None, None))
}

/// Carries the ports of the environment into the service URLs and port defaults of a
/// manifest.
pub fn synchronize_lifecycle_content(content: &str, root: &Vec<EnvVariable>) -> (r: String)
    ensures
        r@ == synced_manifest(content@, envs(root@)),
{
    let ls = split_inclusive(content);
    let ghost cs = chunks(content@);
    let ghost env = envs(root@);
    let mut service: Option<String> = None;
    let mut env_key: Option<String> = None;
    let mut output = String::new();
    let mut i: usize = 0;
    while i < ls.len()
        invariant
            i <= ls@.len(),
            texts(ls@) == cs,
            env == envs(root@),
            output@ + synced_from(cs, env, i as int, (opt_view(service), opt_view(env_key)))
                == synced_manifest(content@, env),
        decreases ls@.len() - i,
    {
        let line = ls[i].as_str();
        assert(cs[i as int] == line@);
        let ghost before = output@;
        let ghost rest0 = synced_from(cs, env, i as int, (opt_view(service), opt_view(env_key)));
        let trimmed_line = trim(line);
        if starts_with(trimmed_line, "[") {
            service = lifecycle_section_service(trimmed_line);
            env_key = lifecycle_section_env_key(trimmed_line);
        }
        let port: Option<u16> = match service.as_ref() {
            Some(name) => service_env_port(name.as_str(), root),
            None => None,
        };
        if let Some(port) = port {
            output.append(replace_lifecycle_url_line(line, port).as_str());
        } else {
            let value: Option<&str> = match env_key.as_ref() {
                Some(key) => if is_local_service_port_key(key.as_str()) {
                    lookup_env(root, key.as_str())
                } else {
                    None
                },
                None => None,
            };
            match value {
                Some(value) => output.append(replace_default_line(line, value).as_str()),
                None => output.append(line),
            }
        }
        i = i + 1;
        assert(before + rest0 == output@ + synced_from(
            cs,
            env,
            i as int,
            (opt_view(service), opt_view(env_key)),
        ));
    }
    assert(output@ + Seq::<char>::empty() == output@);
    output
}

// ---------------------------------------------------------------------------
// What the manifest says of an instance
// ---------------------------------------------------------------------------

/// A lifecycle manifest: its version, the project name, and the services, each a name and a
/// URL.
#[derive(Clone, Debug)]
pub struct LifecycleManifest {
    pub version: u32,
    pub name: String,
    pub services: Vec<(String, String)>,
}

/// What a list of named URLs stands for.
pub open spec fn named_urls(v: Seq<(String, String)>) -> Seq<(Seq<char>, Seq<char>)> {
    v.map_values(|p: (String, String)| (p.0@, p.1@))
}

/// Where a service stands in the list of an instance: the gateway first, then the frontend,
/// the runtime, the studio, and all others.
pub open spec fn service_rank(name: Seq<char>) -> int {
    if is_gateway(name) {
        0
    } else if is_frontend(name) {
        1
    } else if named2(name, "copilotkit"@, "runtime"@) {
        2
    } else if is_studio(name) {
        3
    } else {
        4
    }
}

fn rank_of(name: &str) -> (r: u8)
    ensures
        r == service_rank(name@),
        r <= 4,
{
    if name_is(name, "gateway", "agent") {
        0
    } else if name_is_frontend(name) {
        1
    } else if name_is(name, "copilotkit", "runtime") {
        2
    } else if name_is(name, "studio", "langsmith") {
        3
    } else {
        4
    }
}

/// The URL of a service: with the port that the environment assigns to it, if it does.
pub open spec fn current_url(service: (Seq<char>, Seq<char>), env: Seq<EnvModel>) -> Seq<char> {
    match env_port(service.0, env) {
        Some(p) => with_url_port(service.1, p as nat),
        None => service.1,
    }
}

/// The services of the given rank from `i` on that have a URL, with their current URLs.
pub open spec fn ranked_from(
    services: Seq<(Seq<char>, Seq<char>)>,
    env: Seq<EnvModel>,
    rank: int,
    i: int,
) -> Seq<(Seq<char>, Seq<char>)>
    decreases services.len() - i,
{
    if i < 0 || i >= services.len() {
        Seq::empty()
    } else if trimmed(services[i].1).len() > 0 && service_rank(services[i].0) == rank {
        seq![(services[i].0, current_url(services[i], env))] + ranked_from(
            services,
            env,
            rank,
            i + 1,
        )
    } else {
        ranked_from(services, env, rank, i + 1)
    }
}

/// The services that have a URL, by rank, those of one rank in the order of the manifest.
pub open spec fn listed_services(services: Seq<(Seq<char>, Seq<char>)>, env: Seq<EnvModel>) -> Seq<
    (Seq<char>, Seq<char>),
> {
    ranked_from(services, env, 0, 0) + ranked_from(services, env, 1, 0) + ranked_from(
        services,
        env,
        2,
        0,
    ) + ranked_from(services, env, 3, 0) + ranked_from(services, env, 4, 0)
}

fn add_ranked(
    out: &mut Vec<(String, String)>,
    services: &Vec<(String, String)>,
    env: &Vec<EnvVariable>,
    rank: u8,
)
    ensures
        named_urls(final(out)@) == named_urls(old(out)@) + ranked_from(
            named_urls(services@),
            envs(env@),
            rank as int,
            0,
        ),
{
    let ghost start = named_urls(out@);
    let ghost ss = named_urls(services@);
    let ghost whole = ranked_from(ss, envs(env@), rank as int, 0);
    let mut i: usize = 0;
    while i < services.len()
        invariant
            i <= services@.len(),
            ss == named_urls(services@),
            named_urls(out@) + ranked_from(ss, envs(env@), rank as int, i as int) == start + whole,
        decreases services@.len() - i,
    {
        assert(ss[i as int] == (services@[i as int].0@, services@[i as int].1@));
        let name = services[i].0.as_str();
        let url = services[i].1.as_str();
        if !trim(url).is_empty() && rank_of(name) == rank {
            let current = match service_env_port(name, env) {
                Some(port) => replace_url_port(url, port),
                None => url.to_owned(),
            };
            let ghost before = named_urls(out@);
            let ghost rest = ranked_from(ss, envs(env@), rank as int, i + 1);
            let pair = (name.to_owned(), current);
            let ghost model = (pair.0@, pair.1@);
            out.push(pair);
            assert(named_urls(out@) == before.push(model));
            assert(before.push(model) + rest == before + (seq![model] + rest));
        }
        i = i + 1;
    }
    assert(named_urls(out@) + Seq::<(Seq<char>, Seq<char>)>::empty() == named_urls(out@));
}

/// The endpoint under which a service is shown.
pub open spec fn endpoint_of(service: (Seq<char>, Seq<char>)) -> EndpointModel {
    EndpointModel {
        name: display_label(service.0),
        url: service.1,
        kind: kind_of(service.0).0,
        primary: kind_of(service.0).1,
    }
}

/// The URLs of agent, frontend and studio after the services from `i` on, the last of each
/// counting.
pub open spec fn urls_after(
    services: Seq<(Seq<char>, Seq<char>)>,
    i: int,
    agent: Option<Seq<char>>,
    ui: Option<Seq<char>>,
    studio: Option<Seq<char>>,
) -> (Option<Seq<char>>, Option<Seq<char>>, Option<Seq<char>>)
    decreases services.len() - i,
{
    if i < 0 || i >= services.len() {
        (agent, ui, studio)
    } else {
        let s = services[i];
        if is_gateway(s.0) {
            urls_after(services, i + 1, Some(s.1), ui, studio)
        } else if is_frontend(s.0) {
            urls_after(services, i + 1, agent, Some(s.1), studio)
        } else if is_studio(s.0) {
            urls_after(services, i + 1, agent, ui, Some(s.1))
        } else {
            urls_after(services, i + 1, agent, ui, studio)
        }
    }
}

/// An instance as the manifest and the environment describe it.
pub open spec fn described(
    instance: InstanceModel,
    version: u32,
    name: Seq<char>,
    services: Seq<(Seq<char>, Seq<char>)>,
    env: Seq<EnvModel>,
) -> InstanceModel {
    let listed = listed_services(services, env);
    let urls = urls_after(listed, 0, instance.agent_url, instance.ui_url, instance.studio_url);
    InstanceModel {
        project_name: if trimmed(name).len() > 0 {
            Some(name)
        } else {
            instance.project_name
        },
        lifecycle_version: if version > 0 {
            Some(version)
        } else {
            None
        },
        service_endpoints: listed.map_values(|s: (Seq<char>, Seq<char>)| endpoint_of(s)),
        agent_url: urls.0,
        ui_url: urls.1,
        studio_url: urls.2,
        ..instance
    }
}

fn same_endpoints(a: &Vec<ServiceEndpoint>, b: &Vec<ServiceEndpoint>) -> (r: bool)
    ensures
        r == (endpoints(a@) == endpoints(b@)),
{
    let ghost x = endpoints(a@);
    let ghost y = endpoints(b@);
    if a.len() != b.len() {
        assert(x.len() != y.len());
        return false;
    }
    let mut i: usize = 0;
    while i < a.len()
        invariant
            i <= a@.len(),
            a@.len() == b@.len(),
            x == endpoints(a@),
            y == endpoints(b@),
            forall|j: int| 0 <= j < i ==> x[j] == y[j],
        decreases a@.len() - i,
    {
        assert(x[i as int] == a@[i as int]@ && y[i as int] == b@[i as int]@);
        if !same(a[i].name.as_str(), b[i].name.as_str()) || !same(
            a[i].url.as_str(),
            b[i].url.as_str(),
        ) || !same(a[i].kind.as_str(), b[i].kind.as_str()) || a[i].primary != b[i].primary {
            return false;
        }
        i = i + 1;
    }
    assert(x == y);
    true
}

/// Describes an instance anew from its manifest and its environment. Says whether anything
/// that they describe changed, and then notes the time.
pub fn enrich_service_endpoints(
    instance: &mut InstanceRecord,
    manifest: &LifecycleManifest,
    env: &Vec<EnvVariable>,
    now: u64,
) -> (changed: bool)
    ensures
        ({
            let before = old(instance)@;
            let after = described(
                before,
                manifest.version,
                manifest.name@,
                named_urls(manifest.services@),
                envs(env@),
            );
            &&& changed == (after != before)
            &&& final(instance)@ == (if changed {
                InstanceModel { updated_at: now, ..after }
            } else {
                before
            })
        }),
{
    let ghost before = instance@;
    let ghost services = named_urls(manifest.services@);
    let ghost after = described(
        before,
        manifest.version,
        manifest.name@,
        services,
        envs(env@),
    );
    let project_name: Option<String> = if !trim(manifest.name.as_str()).is_empty() {
        Some(manifest.name.clone())
    } else {
        copy_opt(&instance.project_name)
    };
    let lifecycle_version: Option<u32> = if manifest.version > 0 {
        Some(manifest.version)
    } else {
        None
    };
    let mut listed: Vec<(String, String)> = Vec::new();
    assert(named_urls(listed@) == Seq::<(Seq<char>, Seq<char>)>::empty());
    add_ranked(&mut listed, &manifest.services, env, 0);
    add_ranked(&mut listed, &manifest.services, env, 1);
    add_ranked(&mut listed, &manifest.services, env, 2);
    add_ranked(&mut listed, &manifest.services, env, 3);
    add_ranked(&mut listed, &manifest.services, env, 4);
    let ghost ls = named_urls(listed@);
    assert(ls == listed_services(services, envs(env@)));
    let mut shown: Vec<ServiceEndpoint> = Vec::new();
    let mut agent_url = copy_opt(&instance.agent_url);
    let mut ui_url = copy_opt(&instance.ui_url);
    let mut studio_url = copy_opt(&instance.studio_url);
    let ghost urls = urls_after(ls, 0, before.agent_url, before.ui_url, before.studio_url);
    let mut i: usize = 0;
    while i < listed.len()
        invariant
            i <= listed@.len(),
            shown@.len() == i,
            ls == named_urls(listed@),
            forall|j: int| 0 <= j < i ==> (#[trigger] shown@[j])@ == endpoint_of(ls[j]),
            urls == urls_after(
                ls,
                i as int,
                opt_view(agent_url),
                opt_view(ui_url),
                opt_view(studio_url),
            ),
        decreases listed@.len() - i,
    {
        assert(ls[i as int] == (listed@[i as int].0@, listed@[i as int].1@));
        let name = listed[i].0.as_str();
        let url = listed[i].1.as_str();
        let kind = service_kind(name);
        shown.push(
            ServiceEndpoint {
                name: service_display_name(name),
                url: url.to_owned(),
                kind: kind.0.to_owned(),
                primary: kind.1,
            },
        );
        if name_is(name, "gateway", "agent") {
            agent_url = Some(url.to_owned());
        } else if name_is_frontend(name) {
            ui_url = Some(url.to_owned());
        } else if name_is(name, "studio", "langsmith") {
            studio_url = Some(url.to_owned());
        }
        i = i + 1;
    }
    assert(endpoints(shown@) == after.service_endpoints);
    let same_version: bool = match lifecycle_version {
        Some(a) => match instance.lifecycle_version {
            Some(b) => a == b,
            None => false,
        },
        None => instance.lifecycle_version.is_none(),
    };
    let unchanged: bool = same_opt(&project_name, &instance.project_name)
        && same_version && same_endpoints(&shown, &instance.service_endpoints)
        && same_opt(&agent_url, &instance.agent_url) && same_opt(
        &ui_url,
        &instance.ui_url,
    ) && same_opt(&studio_url, &instance.studio_url);
    if unchanged {
        assert(after == before);
        return false;
    }
    instance.project_name = project_name;
    instance.lifecycle_version = lifecycle_version;
    instance.service_endpoints = shown;
    instance.agent_url = agent_url;
    instance.ui_url = ui_url;
    instance.studio_url = studio_url;
    instance.updated_at = now;
    true
}

/// What the services tell of agent, frontend and studio does not depend on what was known of
/// them, or leaves what was known.
proof fn lemma_urls_after(
    services: Seq<(Seq<char>, Seq<char>)>,
    i: int,
    a: Option<Seq<char>>,
    u: Option<Seq<char>>,
    s: Option<Seq<char>>,
    a2: Option<Seq<char>>,
    u2: Option<Seq<char>>,
    s2: Option<Seq<char>>,
)
    requires
        0 <= i,
    ensures
        ({
            let r = urls_after(services, i, a, u, s);
            let q = urls_after(services, i, a2, u2, s2);
            &&& r.0 == q.0 || (r.0 == a && q.0 == a2)
            &&& r.1 == q.1 || (r.1 == u && q.1 == u2)
            &&& r.2 == q.2 || (r.2 == s && q.2 == s2)
        }),
    decreases services.len() - i,
{
    if i < services.len() {
        let x = services[i];
        if is_gateway(x.0) {
            lemma_urls_after(services, i + 1, Some(x.1), u, s, Some(x.1), u2, s2);
        } else if is_frontend(x.0) {
            lemma_urls_after(services, i + 1, a, Some(x.1), s, a2, Some(x.1), s2);
        } else if is_studio(x.0) {
            lemma_urls_after(services, i + 1, a, u, Some(x.1), a2, u2, Some(x.1));
        } else {
            lemma_urls_after(services, i + 1, a, u, s, a2, u2, s2);
        }
    }
}

/// An instance that is described anew from the same manifest and environment does not change,
/// whatever time was noted in between.
pub proof fn law_description_is_stable(
    instance: InstanceModel,
    version: u32,
    name: Seq<char>,
    services: Seq<(Seq<char>, Seq<char>)>,
    env: Seq<EnvModel>,
    now: u64,
)
    ensures
        ({
            let once = InstanceModel {
                updated_at: now,
                ..described(instance, version, name, services, env)
            };
            described(once, version, name, services, env) == once
        }),
{
    let listed = listed_services(services, env);
    let r = urls_after(listed, 0, instance.agent_url, instance.ui_url, instance.studio_url);
    lemma_urls_after(
        listed,
        0,
        instance.agent_url,
        instance.ui_url,
        instance.studio_url,
        r.0,
        r.1,
        r.2,
    );
}

} // verus!
