//! Laws of what is read from, and written to, the files and reports of tools: access rules,
//! sections of services, reported addresses, image builds and the ports of new services.

use crate::command_laws::lemma_first_named;
use crate::compose::{installs_above, installs_from, mirrored_from, wants_mirror};
use crate::env_laws::lemma_trimmed;
use crate::instance::after_info_line;
use crate::json::{
    any_list, cors_members, has_distinct_members, member, member_from, open_cors, with_inner,
    with_member, with_open_cors, without_member, JsonModel,
};
use crate::logging::lemma_bytes_add;
use crate::mapping_laws::lemma_trimmed_core;
use crate::models::{ChangeModel, InstanceModel, NPM_REGISTRY_MIRROR};
use crate::move_laws::{address, is_path, lemma_address_parts};
use crate::plan_laws::{lemma_exchanged_once, lemma_free_offer};
use crate::port_plans::free_offer;
use crate::prepare::{after_service, move_of, ServicePorts};
use crate::process_ports::{header_name, service_ports_from};
use crate::run_laws::lemma_cut_at;
use crate::sources::{cut_at, index_block, mirrors_patched};
use crate::text::{
    bytes, char_at_byte, find, holds, indentation, is_space, lemma_bytes_push, lemma_find_from,
    lemma_holds, matches_at, replaced, starts, strip_set, trimmed, trimmed_start,
    upper,
};
use crate::urls::with_url_port;
use crate::vault_laws::{is_own_host, is_web_scheme};
use vstd::prelude::*;
use vstd::string::*;

verus! {

// ---------------------------------------------------------------------------
// Access rules
// ---------------------------------------------------------------------------

/// The member of a name in a list of members.
pub open spec fn member_in(members: Seq<(Seq<char>, JsonModel)>, key: Seq<char>) -> Option<
    JsonModel,
> {
    member(JsonModel::Object(members), key)
}

proof fn lemma_member_from(members: Seq<(Seq<char>, JsonModel)>, key: Seq<char>, i: int)
    requires
        0 <= i <= members.len(),
    ensures
        i <= member_from(members, key, i) <= members.len(),
        member_from(members, key, i) < members.len() ==> members[member_from(members, key, i)].0
            == key,
        forall|j: int|
            i <= j < member_from(members, key, i) ==> (#[trigger] members[j]).0 != key,
    decreases members.len() - i,
{
    if i < members.len() && members[i].0 != key {
        lemma_member_from(members, key, i + 1);
    }
}

proof fn lemma_member_at(members: Seq<(Seq<char>, JsonModel)>, key: Seq<char>, i: int, k: int)
    requires
        0 <= i <= k <= members.len(),
        k < members.len() ==> members[k].0 == key,
        forall|j: int| i <= j < k ==> (#[trigger] members[j]).0 != key,
    ensures
        member_from(members, key, i) == k,
    decreases k - i,
{
    if i < k {
        lemma_member_at(members, key, i + 1, k);
    }
}

/// Setting a member gives it the value and leaves the others.
proof fn lemma_set_member(
    members: Seq<(Seq<char>, JsonModel)>,
    key: Seq<char>,
    value: JsonModel,
    other: Seq<char>,
)
    ensures
        member_in(with_member(members, key, value), key) == Some(value),
        other != key ==> member_in(with_member(members, key, value), other) == member_in(
            members,
            other,
        ),
        has_distinct_members(members) ==> has_distinct_members(with_member(members, key, value)),
{
    let out = with_member(members, key, value);
    lemma_member_from(members, key, 0);
    lemma_member_from(members, other, 0);
    let k = member_from(members, key, 0);
    let m = member_from(members, other, 0);
    lemma_member_at(out, key, 0, k);
    if other != key {
        if m < members.len() {
            lemma_member_at(out, other, 0, m);
        } else {
            lemma_member_at(out, other, 0, out.len() as int);
        }
    }
}

/// Taking out a member leaves the others.
proof fn lemma_take_member(
    members: Seq<(Seq<char>, JsonModel)>,
    key: Seq<char>,
    other: Seq<char>,
)
    requires
        has_distinct_members(members),
    ensures
        member_in(without_member(members, key), key) is None,
        other != key ==> member_in(without_member(members, key), other) == member_in(
            members,
            other,
        ),
        has_distinct_members(without_member(members, key)),
{
    let out = without_member(members, key);
    lemma_member_from(members, key, 0);
    lemma_member_from(members, other, 0);
    let k = member_from(members, key, 0);
    let m = member_from(members, other, 0);
    if k < members.len() {
        assert forall|j: int| 0 <= j < out.len() implies #[trigger] out[j] == members[if j < k {
            j
        } else {
            j + 1
        }] by {}
        assert forall|j: int| 0 <= j < out.len() implies (#[trigger] out[j]).0 != key by {
            let i = if j < k {
                j
            } else {
                j + 1
            };
            assert(out[j] == members[i]);
            if i < k {
                assert(members[i].0 != members[k].0);
            } else {
                assert(members[k].0 != members[i].0);
            }
        }
        lemma_member_at(out, key, 0, out.len() as int);
        if other != key {
            if m < members.len() {
                let n = if m < k {
                    m
                } else {
                    m - 1
                };
                assert(out[n] == members[m]);
                lemma_member_at(out, other, 0, n);
            } else {
                assert forall|j: int| 0 <= j < out.len() implies (#[trigger] out[j]).0 != other by {
                    let i = if j < k {
                        j
                    } else {
                        j + 1
                    };
                    assert(out[j] == members[i]);
                    assert(members[i].0 != other);
                }
                lemma_member_at(out, other, 0, out.len() as int);
            }
        }
    }
}

/// Access rules are opened: any address of the web may ask, in any way and with any header, and
/// no list of addresses is left. Every other rule, and every other part of the document, stays.
pub proof fn law_access_is_opened(
    document: Seq<(Seq<char>, JsonModel)>,
    http: Seq<(Seq<char>, JsonModel)>,
    cors: Seq<(Seq<char>, JsonModel)>,
    other: Seq<char>,
)
    requires
        member_in(document, "http"@) == Some(JsonModel::Object(http)),
        member_in(http, "cors"@) == Some(JsonModel::Object(cors)),
        has_distinct_members(cors),
    ensures
        ({
            let any = JsonModel::List(seq![JsonModel::Text("*"@)]);
            let out = with_open_cors(JsonModel::Object(document));
            &&& out is Some
            &&& other != "http"@ ==> member(out->0, other) == member_in(document, other)
            &&& member(out->0, "http"@) is Some
            &&& other != "cors"@ ==> member(member(out->0, "http"@)->0, other) == member_in(
                http,
                other,
            )
            &&& cors_members(out->0) matches Some(rules) && {
                &&& member_in(rules, "allow_origin_regex"@) == Some(
                    JsonModel::Text("^https?://.*$"@),
                )
                &&& member_in(rules, "allow_methods"@) == Some(any)
                &&& member_in(rules, "allow_headers"@) == Some(any)
                &&& member_in(rules, "allow_origins"@) is None
                &&& other != "allow_origin_regex"@ && other != "allow_methods"@ && other
                    != "allow_headers"@ && other != "allow_origins"@ ==> member_in(rules, other)
                    == member_in(cors, other)
            }
        }),
{
    reveal_strlit("allow_origin_regex");
    reveal_strlit("allow_methods");
    reveal_strlit("allow_headers");
    reveal_strlit("allow_origins");
    let regex = "allow_origin_regex"@;
    let methods = "allow_methods"@;
    let headers = "allow_headers"@;
    let origins = "allow_origins"@;
    assert(regex.len() == 18 && methods.len() == 13 && headers.len() == 13 && origins.len() == 13);
    assert(methods[6] == 'm' && headers[6] == 'h' && origins[6] == 'o');
    let one = with_member(cors, regex, JsonModel::Text("^https?://.*$"@));
    let two = without_member(one, origins);
    let three = with_member(two, methods, any_list());
    let four = with_member(three, headers, any_list());
    assert(open_cors(cors) == four);
    lemma_rule(cors, one, two, three, four, other);
    lemma_rule(cors, one, two, three, four, regex);
    lemma_rule(cors, one, two, three, four, methods);
    lemma_rule(cors, one, two, three, four, headers);
    lemma_rule(cors, one, two, three, four, origins);
    let inner = JsonModel::Object(four);
    let new_http = with_member(http, "cors"@, inner);
    lemma_set_member(http, "cors"@, inner, other);
    lemma_set_member(document, "http"@, JsonModel::Object(new_http), other);
    assert(with_inner(JsonModel::Object(http), "cors"@, inner) == JsonModel::Object(new_http));
}

/// What the four steps make of one rule.
proof fn lemma_rule(
    cors: Seq<(Seq<char>, JsonModel)>,
    one: Seq<(Seq<char>, JsonModel)>,
    two: Seq<(Seq<char>, JsonModel)>,
    three: Seq<(Seq<char>, JsonModel)>,
    four: Seq<(Seq<char>, JsonModel)>,
    rule: Seq<char>,
)
    requires
        has_distinct_members(cors),
        one == with_member(cors, "allow_origin_regex"@, JsonModel::Text("^https?://.*$"@)),
        two == without_member(one, "allow_origins"@),
        three == with_member(two, "allow_methods"@, any_list()),
        four == with_member(three, "allow_headers"@, any_list()),
    ensures
        member_in(four, rule) == (if rule == "allow_headers"@ || rule == "allow_methods"@ {
            Some(any_list())
        } else if rule == "allow_origins"@ {
            None
        } else if rule == "allow_origin_regex"@ {
            Some(JsonModel::Text("^https?://.*$"@))
        } else {
            member_in(cors, rule)
        }),
{
    lemma_set_member(cors, "allow_origin_regex"@, JsonModel::Text("^https?://.*$"@), rule);
    lemma_take_member(one, "allow_origins"@, rule);
    lemma_set_member(two, "allow_methods"@, any_list(), rule);
    lemma_set_member(three, "allow_headers"@, any_list(), rule);
}

// ---------------------------------------------------------------------------
// Sections of services
// ---------------------------------------------------------------------------

proof fn lemma_services_shift(first: Seq<char>, ls: Seq<Seq<char>>, i: int, open: Option<Seq<char>>)
    requires
        0 <= i,
    ensures
        service_ports_from(seq![first] + ls, i + 1, open) == service_ports_from(ls, i, open),
    decreases ls.len() - i,
{
    if i < ls.len() {
        assert((seq![first] + ls)[i + 1] == ls[i]);
        let line = trimmed(ls[i]);
        let still = if starts(line, "["@) {
            None
        } else {
            open
        };
        match header_name(line, "[services."@) {
            Some(name) => lemma_services_shift(first, ls, i + 1, Some(name)),
            None => lemma_services_shift(first, ls, i + 1, still),
        }
    }
}

/// A section of a service begins with a line that names it in brackets. An address in it, behind
/// `=` and between quotes, gives the service, in upper case, the port of the address. Any other
/// line in brackets ends the section, and no address after it is the service's.
pub proof fn law_service_sections_are_read(
    first: Seq<char>,
    rest: Seq<Seq<char>>,
    open: Option<Seq<char>>,
    name: Seq<char>,
    key: Seq<char>,
    scheme: Seq<char>,
    host: Seq<char>,
    port: u16,
    path: Seq<char>,
)
    requires
        is_web_scheme(scheme) && is_own_host(host) && is_path(path),
        key.len() > 0,
        key[0] != '[',
        forall|i: int| 0 <= i < key.len() ==> #[trigger] key[i] != '=',
    ensures
        ({
            let url = address(scheme, host, port as nat, path);
            let all = seq![first] + rest;
            let none = None::<Seq<char>>;
            &&& trimmed(first) == "[services."@ + name + "]"@ ==> service_ports_from(all, 0, open)
                == service_ports_from(rest, 0, Some(name))
            &&& (forall|value: Seq<char>|
                trimmed(first) == #[trigger] (key + "="@ + value) && strip_set(
                    trimmed(value),
                    "\""@,
                ) == url ==> service_ports_from(all, 0, Some(name)) == seq![
                    (upper(name), port as int),
                ] + service_ports_from(rest, 0, Some(name)) && service_ports_from(all, 0, none)
                    == service_ports_from(rest, 0, none))
            &&& starts(trimmed(first), "["@) && !starts(trimmed(first), "[services."@)
                ==> service_ports_from(all, 0, open) == service_ports_from(rest, 0, none)
        }),
{
    reveal_strlit("[services.");
    reveal_strlit("[");
    reveal_strlit("]");
    reveal_strlit("=");
    let url = address(scheme, host, port as nat, path);
    let all = seq![first] + rest;
    let line = trimmed(first);
    assert(all[0] == first);
    lemma_services_shift(first, rest, 0, open);
    lemma_services_shift(first, rest, 0, Some(name));
    lemma_services_shift(first, rest, 0, None);
    if line == "[services."@ + name + "]"@ {
        assert(line.subrange(0, 10) == "[services."@);
        let tail = line.skip(10);
        assert(tail == name + "]"@);
        assert(tail.subrange(tail.len() - 1, tail.len() as int) == "]"@);
        assert(tail.take(tail.len() - 1) == name);
    }
    lemma_address_parts(scheme, host, port as nat, path);
    assert forall|value: Seq<char>|
        line == #[trigger] (key + "="@ + value) && strip_set(trimmed(value), "\""@)
            == url implies service_ports_from(all, 0, Some(name)) == seq![
        (upper(name), port as int),
    ] + service_ports_from(rest, 0, Some(name)) && service_ports_from(all, 0, None)
        == service_ports_from(rest, 0, None) by {
        assert(line[0] == key[0]);
        assert(line.subrange(0, 1)[0] == line[0]);
        if starts(line, "[services."@) {
            assert(line.subrange(0, 10)[0] == line[0]);
        }
        assert forall|j: int| 0 <= j < key.len() implies !(#[trigger] matches_at(
            line,
            "="@,
            j,
        )) by {
            if matches_at(line, "="@, j) {
                assert(line.subrange(j, j + 1)[0] == line[j]);
                assert(line[j] == key[j]);
            }
        }
        lemma_cut_at(key, "="@, value);
    }
}

// ---------------------------------------------------------------------------
// Reports
// ---------------------------------------------------------------------------

proof fn lemma_place_at_byte(s: Seq<char>, n: int, i: int)
    requires
        0 <= i <= n <= s.len(),
    ensures
        char_at_byte(s, bytes(s.take(n)) as int, i) == Some(n),
    decreases n - i,
{
    if i < n {
        lemma_bytes_grow(s, i, n);
        lemma_place_at_byte(s, n, i + 1);
    }
}

proof fn lemma_bytes_grow(s: Seq<char>, i: int, n: int)
    requires
        0 <= i < n <= s.len(),
    ensures
        bytes(s.take(i)) < bytes(s.take(n)),
    decreases n - i,
{
    assert(s.take(n) == s.take(n - 1).push(s[n - 1]));
    lemma_bytes_push(s.take(n - 1), s[n - 1]);
    if i < n - 1 {
        lemma_bytes_grow(s, i, n - 1);
    }
}

/// An address that a line of a report tells, from `http` to its end, is taken: as that of the
/// studio where the line names the studio or its maker; else as that of the frontend where it
/// names that or the ui; else as that of the agent where it names the agent or the gateway, or
/// where no agent is known yet. All else stays, and all where the line tells no address.
pub proof fn law_reported_addresses_are_taken(
    instance: InstanceModel,
    before: Seq<char>,
    told: Seq<char>,
    low: Seq<char>,
    behind: Seq<char>,
)
    requires
        bytes(before) == bytes(low),
        forall|j: int|
            0 <= j < low.len() ==> !(#[trigger] matches_at(low + "http"@ + behind, "http"@, j)),
    ensures
        ({
            let lowered = low + "http"@ + behind;
            let url = Some(trimmed(told));
            let out = after_info_line(instance, before + told, lowered);
            let of_studio = holds(lowered, "studio"@) || holds(lowered, "langsmith"@);
            let of_frontend = holds(lowered, "frontend"@) || holds(lowered, " ui"@);
            let of_agent = holds(lowered, "agent"@) || holds(lowered, "gateway"@)
                || instance.agent_url is None;
            &&& of_studio ==> out == (InstanceModel { studio_url: url, ..instance })
            &&& !of_studio && of_frontend ==> out == (InstanceModel { ui_url: url, ..instance })
            &&& !of_studio && !of_frontend && of_agent ==> out == (InstanceModel {
                agent_url: url,
                ..instance
            })
            &&& !of_studio && !of_frontend && !of_agent ==> out == instance
            &&& !holds(behind, "http"@) ==> after_info_line(instance, before + told, behind)
                == instance
        }),
{
    let lowered = low + "http"@ + behind;
    let line = before + told;
    lemma_cut_at(low, "http"@, behind);
    lemma_find_from(lowered, "http"@, 0);
    lemma_holds(behind, "http"@);
    lemma_find_from(behind, "http"@, 0);
    let k = find(lowered, "http"@)->0;
    assert(lowered.take(k) == low);
    let n = before.len() as int;
    assert(line.take(n) == before);
    lemma_place_at_byte(line, n, 0);
    assert(line.skip(n) == told);
}

// ---------------------------------------------------------------------------
// Image builds
// ---------------------------------------------------------------------------

/// Where a build chooses a package index itself, up to the choice of a host or of a link mode,
/// that choice is exchanged; what is before it and from there on stays.
pub proof fn law_package_indexes_are_exchanged(a: Seq<char>, mid: Seq<char>, tail: Seq<char>)
    requires
        ({
            let head = "if [ -n \"${UV_DEFAULT_INDEX:-}\""@;
            let link = "UV_LINK_MODE"@;
            let host = "if [ -n \"${UV_INSECURE_HOST"@;
            let content = a + head + (mid + tail);
            &&& holds(content, "uv sync"@)
            &&& !holds(content, "mirrors.aliyun.com/pypi/simple/"@)
            &&& forall|j: int| 0 <= j < a.len() ==> !(#[trigger] matches_at(content, head, j))
            &&& forall|j: int|
                0 <= j < head.len() + mid.len() ==> !(#[trigger] matches_at(
                    head + (mid + tail),
                    link,
                    j,
                ))
            &&& forall|j: int|
                0 <= j < head.len() + mid.len() ==> !(#[trigger] matches_at(
                    head + (mid + tail),
                    host,
                    j,
                ))
            &&& starts(tail, link) || starts(tail, host) || tail.len() == 0
        }),
    ensures
        mirrors_patched(a + "if [ -n \"${UV_DEFAULT_INDEX:-}\""@ + (mid + tail)) == Some(
            a + index_block() + tail,
        ),
{
    let head = "if [ -n \"${UV_DEFAULT_INDEX:-}\""@;
    let link = "UV_LINK_MODE"@;
    let host = "if [ -n \"${UV_INSECURE_HOST"@;
    reveal_strlit("UV_LINK_MODE");
    reveal_strlit("if [ -n \"${UV_INSECURE_HOST");
    let content = a + head + (mid + tail);
    let rest = head + (mid + tail);
    let n = head.len() + mid.len() as int;
    lemma_cut_at(a, head, mid + tail);
    lemma_find_from(content, head, 0);
    let k = find(content, head)->0;
    assert(content.take(k) == a);
    assert(content.skip(k) == rest);
    lemma_find_from(rest, link, 0);
    lemma_find_from(rest, host, 0);
    if starts(tail, link) {
        assert(rest.subrange(n, n + link.len()) == tail.subrange(0, link.len() as int));
        assert(matches_at(rest, link, n));
    }
    if starts(tail, host) {
        assert(rest.subrange(n, n + host.len()) == tail.subrange(0, host.len() as int));
        assert(matches_at(rest, host, n));
    }
    let end = cut_at(rest, link, cut_at(rest, host, rest.len() as int));
    assert(end == n) by {
        if let Some(x) = find(rest, link) {
            assert(matches_at(rest, link, x));
            assert(x >= n);
        }
        if let Some(y) = find(rest, host) {
            assert(matches_at(rest, host, y));
            assert(y >= n);
        }
    }
    assert(rest.skip(n) == tail);
}

/// Whether a line is blank or stands deeper than a column.
pub open spec fn is_within(line: Seq<char>, depth: int) -> bool {
    trimmed(line).len() == 0 || indentation(line) > depth
}

proof fn lemma_installs_below(ls: Seq<Seq<char>>, depth: int, i: int, j: int)
    requires
        0 <= i <= j < ls.len(),
        holds(ls[j], "npm install"@),
        trimmed(ls[j]).len() > 0,
        forall|m: int| i <= m <= j ==> is_within(#[trigger] ls[m], depth),
    ensures
        installs_from(ls, depth, i),
    decreases j - i,
{
    assert(is_within(ls[i], depth));
    if i < j {
        lemma_installs_below(ls, depth, i + 1, j);
    }
}

proof fn lemma_installs_above(ls: Seq<Seq<char>>, depth: int, i: int, j: int)
    requires
        0 <= j <= i < ls.len(),
        holds(ls[j], "npm install"@),
        trimmed(ls[j]).len() > 0,
        forall|m: int| j <= m <= i ==> is_within(#[trigger] ls[m], depth),
    ensures
        installs_above(ls, depth, i),
    decreases i - j,
{
    assert(is_within(ls[i], depth));
    if j < i {
        lemma_installs_above(ls, depth, i - 1, j);
    }
}

/// Behind the line that opens the environment of a service which installs packages, a line sets
/// the registry, two columns deeper; the service reaches as far as lines stand deeper than it
/// does, two columns before the environment. Every line of the file stays in its place before it.
pub proof fn law_installing_services_get_the_registry(
    ls: Seq<Seq<char>>,
    i: int,
    j: int,
    pad: Seq<char>,
    end: Seq<char>,
)
    requires
        0 <= i < ls.len(),
        0 <= j < ls.len(),
        i != j,
        ls[i] == pad + "environment:"@ + end,
        pad.len() >= 2,
        forall|m: int| 0 <= m < pad.len() ==> #[trigger] pad[m] == ' ',
        forall|m: int| 0 <= m < end.len() ==> is_space(#[trigger] end[m]),
        holds(ls[j], "npm install"@),
        forall|m: int|
            (i < m <= j || j <= m < i) ==> is_within(#[trigger] ls[m], pad.len() - 2),
    ensures
        mirrored_from(ls, i) == seq![
            ls[i],
            pad + "  "@ + "NPM_CONFIG_REGISTRY"@ + ": \""@ + NPM_REGISTRY_MIRROR@ + "\""@,
        ] + mirrored_from(ls, i + 1),
        trimmed(ls[j]) != "environment:"@ ==> mirrored_from(ls, j) == seq![ls[j]] + mirrored_from(
            ls,
            j + 1,
        ),
{
    reveal_strlit("environment:");
    assert(is_space(' '));
    assert forall|m: int| 0 <= m < pad.len() implies is_space(#[trigger] pad[m]) by {
        assert(pad[m] == ' ');
    }
    lemma_trimmed_core(pad, "environment:"@, end);
    lemma_pad_is_indentation(pad, "environment:"@ + end);
    assert(pad + ("environment:"@ + end) == ls[i]);
    assert(ls[i].take(pad.len() as int) == pad);
    lemma_not_blank(ls[j]);
    if i < j {
        lemma_installs_below(ls, pad.len() - 2, i + 1, j);
    } else {
        lemma_installs_above(ls, pad.len() - 2, i - 1, j);
    }
    assert(wants_mirror(ls, i));
}

proof fn lemma_not_blank(line: Seq<char>)
    requires
        holds(line, "npm install"@),
    ensures
        trimmed(line).len() > 0,
{
    reveal_strlit("npm install");
    lemma_holds(line, "npm install"@);
    let k = choose|k: int| matches_at(line, "npm install"@, k);
    let part = line.subrange(k, k + 11);
    assert(part[0] == 'n' && part[0] == line[k]);
    assert(!is_space('n'));
    let r = lemma_trimmed(line);
    if r.0 == r.1 {
        assert(is_space(line[k]));
    }
}

proof fn lemma_pad_is_indentation(pad: Seq<char>, rest: Seq<char>)
    requires
        forall|m: int| 0 <= m < pad.len() ==> #[trigger] pad[m] == ' ',
        rest.len() > 0,
        !is_space(rest[0]),
    ensures
        trimmed_start(pad + rest) == rest,
        bytes(pad) == pad.len(),
        bytes(pad + rest) == pad.len() + bytes(rest),
    decreases pad.len(),
{
    let s = pad + rest;
    lemma_bytes_add(pad, rest);
    if pad.len() == 0 {
        assert(s == rest);
    } else {
        let shorter = pad.skip(1);
        assert forall|m: int| 0 <= m < shorter.len() implies #[trigger] shorter[m] == ' ' by {
            assert(shorter[m] == pad[m + 1]);
        }
        lemma_pad_is_indentation(shorter, rest);
        assert(s[0] == pad[0]);
        assert(is_space(' '));
        assert(s.skip(1) == shorter + rest);
        let nothing = Seq::<char>::empty();
        lemma_bytes_push(nothing, ' ');
        assert(pad == nothing.push(' ') + shorter);
        lemma_bytes_add(nothing.push(' '), shorter);
        assert(bytes(nothing) == 0);
    }
}

// ---------------------------------------------------------------------------
// Services of a new instance
// ---------------------------------------------------------------------------

proof fn lemma_move_of(changes: Seq<ChangeModel>, port: int, i: int, k: int)
    requires
        0 <= i <= k <= changes.len(),
        k < changes.len() ==> changes[k].old_port == port,
        forall|j: int| i <= j < k ==> (#[trigger] changes[j]).old_port != port,
    ensures
        move_of(changes, port, i) == (if k < changes.len() {
            Some(changes[k])
        } else {
            None
        }),
    decreases k - i,
{
    if i < k {
        lemma_move_of(changes, port, i + 1, k);
    }
}

/// A service of a new instance, whose address stands once in the manifest, is given a port. Where
/// one is settled for its variable, or its own has moved, the address takes that; where its own is
/// taken it stays; where its own is free it is settled; and where it is busy, one on offer is
/// settled, told as a move and written to the address.
pub proof fn law_new_services_are_given_ports(
    s: ServicePorts,
    name: Seq<char>,
    busy: Set<u16>,
    offers: Seq<u16>,
    k: int,
    m: int,
    before: Seq<char>,
    after: Seq<char>,
    scheme: Seq<char>,
    host: Seq<char>,
    port: u16,
    path: Seq<char>,
)
    requires
        is_web_scheme(scheme) && is_own_host(host) && is_path(path),
        port > 0,
        s.used >= 0,
        s.text == before + address(scheme, host, port as nat, path) + after,
        forall|j: int|
            j != before.len() ==> !(#[trigger] matches_at(
                s.text,
                address(scheme, host, port as nat, path),
                j,
            )),
        0 <= k <= s.resolved.len(),
        k < s.resolved.len() ==> s.resolved[k].0 == upper(name) + "_PORT"@ && s.resolved[k].1 >= 0,
        forall|j: int| 0 <= j < k ==> (#[trigger] s.resolved[j]).0 != upper(name) + "_PORT"@,
        0 <= m <= s.changes.len(),
        m < s.changes.len() ==> s.changes[m].old_port == port,
        forall|j: int| 0 <= j < m ==> (#[trigger] s.changes[j]).old_port != port,
    ensures
        ({
            let key = upper(name) + "_PORT"@;
            let out = after_service(
                s,
                (name, address(scheme, host, port as nat, path)),
                busy,
                offers,
            );
            let text = |p: nat| before + address(scheme, host, p, path) + after;
            let is_settled = k < s.resolved.len();
            let has_moved = m < s.changes.len();
            &&& is_settled ==> out == (ServicePorts {
                text: text(s.resolved[k].1 as nat),
                ..s
            })
            &&& !is_settled && has_moved ==> out == (ServicePorts {
                text: text(s.changes[m].new_port as nat),
                ..s
            })
            &&& !is_settled && !has_moved && s.taken.contains(port) ==> out == s
            &&& !is_settled && !has_moved && !s.taken.contains(port) && !busy.contains(port)
                ==> out.resolved == s.resolved.push((key, port as int)) && out.text == s.text
                && out.changes == s.changes && out.taken == s.taken.insert(port)
            &&& !is_settled && !has_moved && !s.taken.contains(port) && busy.contains(port)
                && out.complete ==> exists|q: u16| #[trigger]
                offers.contains(q) && !s.taken.contains(q) && out.resolved == s.resolved.push(
                    (key, q as int),
                ) && out.text == text(q as nat) && out.taken == s.taken.insert(q) && out.changes
                    == s.changes.push(ChangeModel { key, old_port: port, new_port: q })
        }),
{
    let key = upper(name) + "_PORT"@;
    let url = address(scheme, host, port as nat, path);
    lemma_address_parts(scheme, host, port as nat, path);
    lemma_first_named(s.resolved, key, 0, k);
    lemma_move_of(s.changes, port as int, 0, m);
    assert(url.len() > 0);
    assert forall|p: nat| #[trigger]
        replaced(s.text, url, address(scheme, host, p, path)) == before + address(
            scheme,
            host,
            p,
            path,
        ) + after by {
        lemma_exchanged_once(before, url, after, address(scheme, host, p, path));
    }
    lemma_free_offer(offers, s.used, s.taken);
    if let Some(i) = free_offer(offers, s.used, s.taken) {
        assert(offers.contains(offers[i]));
        assert(with_url_port(url, offers[i] as nat) == address(
            scheme,
            host,
            offers[i] as nat,
            path,
        ));
    }
    if k < s.resolved.len() {
        assert(with_url_port(url, s.resolved[k].1 as nat) == address(
            scheme,
            host,
            s.resolved[k].1 as nat,
            path,
        ));
    }
    if m < s.changes.len() {
        assert(with_url_port(url, s.changes[m].new_port as nat) == address(
            scheme,
            host,
            s.changes[m].new_port as nat,
            path,
        ));
    }
}

} // verus!
