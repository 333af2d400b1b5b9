//! Ports: which variables hold them, and how they move when they are taken.

use crate::models::{changes_view, envs, ChangeModel, EnvModel, EnvVariable, PortChange};
use crate::text::{
    bytes, byte_len, char_is_alnum, char_is_digit, chars_of, concat3, contains, decimal, decimal_of,
    ends, ends_with, find_from, holds, index_from, is_alnum, is_digit, lemma_find_from, parse_u16,
    parsed, port_num, same, skip, starts, starts_with, strip_all_end, to_upper, trim, trim_end_text,
    trimmed, upper,
};
use crate::urls::{replace_url_port, with_url_port};
use std::collections::HashSet;
use vstd::prelude::*;
use vstd::string::*;

verus! {

/// Whether a variable names the port of a service of the instance itself, not that of a
/// database.
pub open spec fn is_service_port_key(key: Seq<char>) -> bool {
    let name = upper(key);
    &&& name == "PORT"@ || ends(name, "_PORT"@)
    &&& !holds(name, "MYSQL"@)
    &&& !holds(name, "SEEKDB"@)
    &&& !holds(name, "OCEANBASE"@)
}

pub fn is_local_service_port_key(key: &str) -> (r: bool)
    ensures
        r == is_service_port_key(key@),
{
    let name = to_upper(key);
    let name = name.as_str();
    (same(name, "PORT") || ends_with(name, "_PORT")) && !contains(name, "MYSQL") && !contains(
        name,
        "SEEKDB",
    ) && !contains(name, "OCEANBASE")
}

// ---------------------------------------------------------------------------
// Host and port in a value
// ---------------------------------------------------------------------------

/// Whether a character before a host makes it the end of a longer host.
pub open spec fn extends_host(c: char) -> bool {
    is_alnum(c) || c == '.' || c == '-'
}

/// Whether the occurrence of `needle` at `k`, in what is left of a value from `i` on, stands
/// for itself: no longer host ends in it and its port does not go on with more digits.
pub open spec fn stands_alone(s: Seq<char>, needle: Seq<char>, i: int, k: int) -> bool {
    &&& k == i || !extends_host(s[k - 1])
    &&& k + needle.len() >= s.len() || !is_digit(s[k + needle.len()])
}

/// What a value becomes from `i` on when every occurrence of `needle` that stands for itself
/// gives way to `to`.
pub open spec fn host_port_from(s: Seq<char>, needle: Seq<char>, to: Seq<char>, i: int) -> Seq<char>
    decreases s.len() - i,
    when 0 <= i <= s.len() && needle.len() > 0
    via host_port_from_decreases
{
    match find_from(s, needle, i) {
        None => s.skip(i),
        Some(k) => s.subrange(i, k) + (if stands_alone(s, needle, i, k) {
            to
        } else {
            needle
        }) + host_port_from(s, needle, to, k + needle.len()),
    }
}

#[via_fn]
proof fn host_port_from_decreases(s: Seq<char>, needle: Seq<char>, to: Seq<char>, i: int) {
    lemma_find_from(s, needle, i);
}

/// A value with one host's port exchanged.
pub open spec fn host_port_replaced(
    value: Seq<char>,
    host: Seq<char>,
    old_port: nat,
    new_port: nat,
) -> Seq<char> {
    host_port_from(
        value,
        host + ":"@ + decimal(old_port),
        host + ":"@ + decimal(new_port),
        0,
    )
}

/// Replaces every `host:old_port` by `host:new_port`, but for occurrences whose port goes on
/// with more digits or whose host is the end of a longer host.
pub fn replace_host_port(value: &str, host: &str, old_port: u16, new_port: u16) -> (r: String)
    ensures
        r@ == host_port_replaced(value@, host@, old_port as nat, new_port as nat),
{
    proof {
        reveal_strlit(":");
    }
    let needle = concat3(host, ":", decimal_of(old_port as u64).as_str());
    let replacement = concat3(host, ":", decimal_of(new_port as u64).as_str());
    let v = chars_of(value);
    let count: usize = needle.as_str().unicode_len();
    let total: usize = v.len();
    let mut result = String::new();
    let mut i: usize = 0;
    let ghost whole = host_port_from(v@, needle@, replacement@, 0);
    assert(result@ + whole == whole);
    loop
        invariant
            i <= v@.len(),
            count == needle@.len(),
            count > 0,
            result@ + host_port_from(v@, needle@, replacement@, i as int) == whole,
        decreases v@.len() - i,
    {
        let ghost before = result@;
        match index_from(value, needle.as_str(), i) {
            None => {
                result.append(skip(value, i));
                return result;
            },
            Some(k) => {
                let after: usize = k + count;
                let before_ok: bool = k == i || !(char_is_alnum(v[k - 1]) || v[k - 1] == '.'
                    || v[k - 1] == '-');
                let after_ok: bool = after >= total || !char_is_digit(v[after]);
                result.append(value.substring_char(i, k));
                if before_ok && after_ok {
                    result.append(replacement.as_str());
                } else {
                    result.append(needle.as_str());
                }
                let ghost rest = host_port_from(v@, needle@, replacement@, after as int);
                let ghost middle = if stands_alone(v@, needle@, i as int, k as int) {
                    replacement@
                } else {
                    needle@
                };
                assert(result@ == before + v@.subrange(i as int, k as int) + middle);
                assert(before + (v@.subrange(i as int, k as int) + middle + rest) == result@ + rest);
                i = after;
            },
        }
    }
}

// ---------------------------------------------------------------------------
// URLs that follow a port
// ---------------------------------------------------------------------------

/// Whether a value is a URL on this machine: loopback by name or address, or any address.
pub open spec fn is_loopback_url(value: Seq<char>) -> bool {
    is_localhost_url(value) || starts(value, "http://0.0.0.0"@) || starts(
        value,
        "https://0.0.0.0"@,
    ) || starts(value, "http://[::1]"@) || starts(value, "https://[::1]"@)
}

/// Whether a value is a URL on 127.0.0.1 or localhost.
pub open spec fn is_localhost_url(value: Seq<char>) -> bool {
    starts(value, "http://127.0.0.1"@) || starts(value, "https://127.0.0.1"@) || starts(
        value,
        "http://localhost"@,
    ) || starts(value, "https://localhost"@)
}

pub fn has_localhost_prefix(value: &str) -> (r: bool)
    ensures
        r == is_localhost_url(value@),
{
    starts_with(value, "http://127.0.0.1") || starts_with(value, "https://127.0.0.1")
        || starts_with(value, "http://localhost") || starts_with(value, "https://localhost")
}

pub fn has_loopback_prefix(value: &str) -> (r: bool)
    ensures
        r == is_loopback_url(value@),
{
    has_localhost_prefix(value) || starts_with(value, "http://0.0.0.0") || starts_with(
        value,
        "https://0.0.0.0",
    ) || starts_with(value, "http://[::1]") || starts_with(value, "https://[::1]")
}

/// Whether a variable holds a URL.
pub open spec fn is_url_key(key: Seq<char>) -> bool {
    holds(upper(key), "URL"@)
}

/// Whether a variable holds an endpoint that is not named a URL.
pub open spec fn is_endpoint_key(key: Seq<char>) -> bool {
    holds(upper(key), "ENDPOINT"@) && !holds(upper(key), "URL"@)
}

/// An entry with a new value, marked as modified if that changes it.
pub open spec fn with_value(e: EnvModel, value: Seq<char>) -> EnvModel {
    if value == e.value {
        e
    } else {
        EnvModel { value, modified: true, ..e }
    }
}

pub(crate) fn set_value(entry: &EnvVariable, value: String) -> (r: EnvVariable)
    ensures
        r@ == with_value(entry@, value@),
{
    let mut e = entry.duplicate();
    if !same(value.as_str(), entry.value.as_str()) {
        e.value = value;
        e.modified = true;
    }
    e
}

/// A value with the port moved behind each of the two loopback names.
pub open spec fn moved_on_localhost(value: Seq<char>, from: nat, to: nat) -> Seq<char> {
    host_port_replaced(host_port_replaced(value, "127.0.0.1"@, from, to), "localhost"@, from, to)
}

/// A value with the port moved behind each of the four loopback hosts.
pub open spec fn moved_on_loopback(value: Seq<char>, from: nat, to: nat) -> Seq<char> {
    host_port_replaced(
        host_port_replaced(moved_on_localhost(value, from, to), "0.0.0.0"@, from, to),
        "[::1]"@,
        from,
        to,
    )
}

/// Whether another change moves the same port.
pub open spec fn moved_twice(changes: Seq<ChangeModel>, port: u16) -> bool {
    exists|i: int, j: int|
        0 <= i < j < changes.len() && (#[trigger] changes[i]).old_port == port && (
        #[trigger] changes[j]).old_port == port
}

/// Whether an address follows a change: where several changes move the same port, only if it
/// names the service; an endpoint then follows Phoenix too.
pub open spec fn follows_change(key: Seq<char>, service: Seq<char>, twice: bool) -> bool {
    !twice || holds(upper(key), service) || (!is_url_key(key) && service == "PHOENIX"@)
}

/// An entry after one change: a URL or an endpoint on this machine follows the port.
pub open spec fn rebased_once(e: EnvModel, change: ChangeModel, twice: bool) -> EnvModel {
    if (is_url_key(e.key) || is_endpoint_key(e.key)) && is_loopback_url(e.value) && follows_change(
        e.key,
        strip_all_end(change.key, "_PORT"@),
        twice,
    ) {
        with_value(
            e,
            moved_on_loopback(e.value, change.old_port as nat, change.new_port as nat),
        )
    } else {
        e
    }
}

/// An entry after the changes from `i` on.
pub open spec fn rebased_from(e: EnvModel, changes: Seq<ChangeModel>, i: int) -> EnvModel
    decreases changes.len() - i,
{
    if i < 0 || i >= changes.len() {
        e
    } else {
        rebased_from(
            rebased_once(e, changes[i], moved_twice(changes, changes[i].old_port)),
            changes,
            i + 1,
        )
    }
}

/// The entries after the changes: each follows them on its own.
pub open spec fn rebased(env: Seq<EnvModel>, changes: Seq<ChangeModel>) -> Seq<EnvModel> {
    env.map_values(|e: EnvModel| rebased_from(e, changes, 0))
}

fn is_moved_twice(changes: &Vec<PortChange>, port: u16) -> (r: bool)
    ensures
        r == moved_twice(changes_view(changes@), port),
{
    let ghost cs = changes_view(changes@);
    let mut first: Option<usize> = None;
    let mut i: usize = 0;
    while i < changes.len()
        invariant
            i <= changes@.len(),
            cs == changes_view(changes@),
            match first {
                None => forall|j: int| 0 <= j < i ==> (#[trigger] cs[j]).old_port != port,
                Some(k) => k < i && cs[k as int].old_port == port && (forall|j: int|
                    0 <= j < i && j != k ==> (#[trigger] cs[j]).old_port != port),
            },
        decreases changes@.len() - i,
    {
        assert(cs[i as int] == changes@[i as int]@);
        if changes[i].old_port == port {
            if let Some(k) = first {
                assert(cs[k as int].old_port == port && cs[i as int].old_port == port);
                return true;
            }
            first = Some(i);
        }
        i = i + 1;
    }
    false
}

fn rebase_entry(entry: &EnvVariable, change: &PortChange, twice: bool) -> (r: EnvVariable)
    ensures
        r@ == rebased_once(entry@, change@, twice),
{
    proof {
        reveal_strlit("_PORT");
    }
    let prefix = trim_end_text(change.key.as_str(), "_PORT");
    let key = to_upper(entry.key.as_str());
    let key = key.as_str();
    let value = entry.value.as_str();
    let old_port: u16 = change.old_port;
    let new_port: u16 = change.new_port;
    let is_url: bool = contains(key, "URL");
    let follows: bool = !twice || contains(key, prefix) || (!is_url && same(prefix, "PHOENIX"));
    if (is_url || contains(key, "ENDPOINT")) && has_loopback_prefix(value) && follows {
        let moved = replace_host_port(value, "127.0.0.1", old_port, new_port);
        let moved = replace_host_port(moved.as_str(), "localhost", old_port, new_port);
        let moved = replace_host_port(moved.as_str(), "0.0.0.0", old_port, new_port);
        let moved = replace_host_port(moved.as_str(), "[::1]", old_port, new_port);
        return set_value(entry, moved);
    }
    entry.duplicate()
}

/// Carries moved ports into the URLs and endpoints that name them. Only values on this
/// machine follow; an endpoint inside a container network keeps its port.
pub fn rebase_url_ports(entries: &mut Vec<EnvVariable>, changes: &Vec<PortChange>)
    ensures
        envs(final(entries)@) == rebased(envs(old(entries)@), changes_view(changes@)),
{
    let ghost start = envs(entries@);
    let ghost cs = changes_view(changes@);
    let mut i: usize = 0;
    while i < entries.len()
        invariant
            i <= entries@.len(),
            start.len() == entries@.len(),
            cs == changes_view(changes@),
            forall|j: int| 0 <= j < i ==> (#[trigger] entries@[j])@ == rebased_from(start[j], cs, 0),
            forall|j: int| i <= j < start.len() ==> (#[trigger] entries@[j])@ == start[j],
        decreases entries@.len() - i,
    {
        let mut e = entries[i].duplicate();
        let mut k: usize = 0;
        while k < changes.len()
            invariant
                k <= changes@.len(),
                cs == changes_view(changes@),
                rebased_from(start[i as int], cs, 0) == rebased_from(e@, cs, k as int),
            decreases changes@.len() - k,
        {
            assert(cs[k as int] == changes@[k as int]@);
            let twice: bool = is_moved_twice(changes, changes[k].old_port);
            e = rebase_entry(&e, &changes[k], twice);
            k = k + 1;
        }
        entries.set(i, e);
        i = i + 1;
    }
    assert(envs(entries@) == rebased(start, cs));
}

/// The ports that the entries from `i` on assign, each under its variable without `_PORT`.
pub open spec fn assigned_from(env: Seq<EnvModel>, i: int) -> Seq<(Seq<char>, int)>
    decreases env.len() - i,
{
    if i < 0 || i >= env.len() {
        Seq::empty()
    } else if is_service_port_key(env[i].key) && parsed(trimmed(env[i].value), 65535) is Some {
        seq![(strip_all_end(env[i].key, "_PORT"@), parsed(trimmed(env[i].value), 65535)->0)]
            + assigned_from(env, i + 1)
    } else {
        assigned_from(env, i + 1)
    }
}

/// The port whose name is the longest among those that the variable contains, the last of
/// them where several are equally long.
pub open spec fn best_match(ports: Seq<(Seq<char>, int)>, key: Seq<char>) -> Option<
    (Seq<char>, int),
>
    decreases ports.len(),
{
    if ports.len() == 0 {
        None
    } else {
        let last = ports.last();
        match best_match(ports.drop_last(), key) {
            Some(best) => if holds(key, last.0) && bytes(last.0) >= bytes(best.0) {
                Some(last)
            } else {
                Some(best)
            },
            None => if holds(key, last.0) {
                Some(last)
            } else {
                None
            },
        }
    }
}

/// The first port under the name `PHOENIX`, from `i` on.
pub open spec fn phoenix_from(ports: Seq<(Seq<char>, int)>, i: int) -> Option<int>
    decreases ports.len() - i,
{
    if i < 0 || i >= ports.len() {
        None
    } else if ports[i].0 == "PHOENIX"@ {
        Some(ports[i].1)
    } else {
        phoenix_from(ports, i + 1)
    }
}

/// An entry whose URL or endpoint on this machine has the port of the variable that its name
/// contains; an endpoint that contains none follows Phoenix.
pub open spec fn aligned(e: EnvModel, ports: Seq<(Seq<char>, int)>) -> EnvModel {
    let best = best_match(ports, upper(e.key));
    if is_url_key(e.key) && is_loopback_url(e.value) {
        match best {
            Some(p) => with_value(e, with_url_port(e.value, p.1 as nat)),
            None => e,
        }
    } else if is_endpoint_key(e.key) && is_localhost_url(e.value) {
        match best {
            Some(p) => with_value(e, with_url_port(e.value, p.1 as nat)),
            None => match phoenix_from(ports, 0) {
                Some(port) => with_value(e, with_url_port(e.value, port as nat)),
                None => e,
            },
        }
    } else {
        e
    }
}

/// The entries with every URL and endpoint on this machine aligned.
pub open spec fn aligned_all(env: Seq<EnvModel>) -> Seq<EnvModel> {
    env.map_values(|e: EnvModel| aligned(e, assigned_from(env, 0)))
}

/// What a list of names and ports stands for.
pub open spec fn port_list(v: Seq<(String, u16)>) -> Seq<(Seq<char>, int)> {
    v.map_values(|p: (String, u16)| (p.0@, p.1 as int))
}

fn assigned_ports(entries: &Vec<EnvVariable>) -> (r: Vec<(String, u16)>)
    ensures
        port_list(r@) == assigned_from(envs(entries@), 0),
{
    proof {
        reveal_strlit("_PORT");
    }
    let ghost env = envs(entries@);
    let mut r: Vec<(String, u16)> = Vec::new();
    let mut i: usize = 0;
    while i < entries.len()
        invariant
            i <= entries@.len(),
            env == envs(entries@),
            port_list(r@) + assigned_from(env, i as int) == assigned_from(env, 0),
        decreases entries@.len() - i,
    {
        assert(env[i as int] == entries@[i as int]@);
        if is_local_service_port_key(entries[i].key.as_str()) {
            if let Some(port) = parse_u16(trim(entries[i].value.as_str())) {
                let ghost before = port_list(r@);
                let ghost rest = assigned_from(env, i + 1);
                let name = trim_end_text(entries[i].key.as_str(), "_PORT").to_owned();
                r.push((name, port));
                assert(port_list(r@) == before.push((name@, port as int)));
                assert(before.push((name@, port as int)) + rest == before + (seq![
                    (name@, port as int),
                ] + rest));
            }
        }
        i = i + 1;
    }
    assert(port_list(r@) + Seq::<(Seq<char>, int)>::empty() == port_list(r@));
    r
}

pub(crate) fn best_port(ports: &Vec<(String, u16)>, key: &str) -> (r: Option<u16>)
    ensures
        match best_match(port_list(ports@), key@) {
            Some(p) => port_num(r) == Some(p.1),
            None => r is None,
        },
{
    let ghost ps = port_list(ports@);
    let mut best: Option<usize> = None;
    let mut i: usize = 0;
    while i < ports.len()
        invariant
            i <= ports@.len(),
            ps == port_list(ports@),
            match best {
                Some(k) => k < i && best_match(ps.take(i as int), key@) == Some(ps[k as int]),
                None => best_match(ps.take(i as int), key@) is None,
            },
        decreases ports@.len() - i,
    {
        assert(ps.take(i + 1).drop_last() == ps.take(i as int));
        assert(ps.take(i + 1).last() == (ports@[i as int].0@, ports@[i as int].1 as int));
        let name = ports[i].0.as_str();
        if contains(key, name) {
            let longer: bool = match best {
                Some(k) => byte_len(name) >= byte_len(ports[k].0.as_str()),
                None => true,
            };
            if longer {
                best = Some(i);
            }
        }
        i = i + 1;
    }
    assert(ps.take(ports@.len() as int) == ps);
    match best {
        Some(k) => Some(ports[k].1),
        None => None,
    }
}

pub(crate) fn phoenix_port(ports: &Vec<(String, u16)>) -> (r: Option<u16>)
    ensures
        port_num(r) == phoenix_from(port_list(ports@), 0),
{
    let ghost ps = port_list(ports@);
    let mut i: usize = 0;
    while i < ports.len()
        invariant
            i <= ports@.len(),
            ps == port_list(ports@),
            phoenix_from(ps, 0) == phoenix_from(ps, i as int),
        decreases ports@.len() - i,
    {
        assert(ps[i as int] == (ports@[i as int].0@, ports@[i as int].1 as int));
        if same(ports[i].0.as_str(), "PHOENIX") {
            return Some(ports[i].1);
        }
        i = i + 1;
    }
    None
}

fn align_entry(entry: &EnvVariable, ports: &Vec<(String, u16)>) -> (r: EnvVariable)
    ensures
        r@ == aligned(entry@, port_list(ports@)),
{
    let key = to_upper(entry.key.as_str());
    let key = key.as_str();
    let value = entry.value.as_str();
    if contains(key, "URL") {
        if has_loopback_prefix(value) {
            if let Some(port) = best_port(ports, key) {
                return set_value(entry, replace_url_port(value, port));
            }
        }
    } else if contains(key, "ENDPOINT") && has_localhost_prefix(value) {
        match best_port(ports, key) {
            Some(port) => {
                return set_value(entry, replace_url_port(value, port));
            },
            None => {
                if let Some(port) = phoenix_port(ports) {
                    return set_value(entry, replace_url_port(value, port));
                }
            },
        }
    }
    entry.duplicate()
}

/// Aligns the URLs and endpoints on this machine with the port variables they belong to.
pub fn align_loopback_url_ports(entries: &mut Vec<EnvVariable>)
    ensures
        envs(final(entries)@) == aligned_all(envs(old(entries)@)),
{
    let ghost start = envs(entries@);
    let ports = assigned_ports(entries);
    let ghost ps = port_list(ports@);
    let mut i: usize = 0;
    while i < entries.len()
        invariant
            i <= entries@.len(),
            start.len() == entries@.len(),
            ps == port_list(ports@),
            forall|j: int| 0 <= j < i ==> (#[trigger] entries@[j])@ == aligned(start[j], ps),
            forall|j: int| i <= j < start.len() ==> (#[trigger] entries@[j])@ == start[j],
        decreases entries@.len() - i,
    {
        let e = align_entry(&entries[i], &ports);
        entries.set(i, e);
        i = i + 1;
    }
    assert(envs(entries@) == aligned_all(start));
}

// ---------------------------------------------------------------------------
// Conflicts
// ---------------------------------------------------------------------------

/// Ports that the host was asked about: those in use, and free ones to move to, in the order
/// in which they were offered.
pub struct HostPorts {
    pub busy: HashSet<u16>,
    pub offers: Vec<u16>,
}

/// More free ports are needed than were offered.
#[derive(Clone, Copy, Debug, PartialEq, Eq, Structural)]
pub struct OffersExhausted {}

/// Ports that an entry may not take.
#[verifier::ext_equal]
pub struct Taken {
    /// Chosen for an earlier entry.
    pub selected: Set<u16>,
    /// Assigned to other instances.
    pub reserved: Set<u16>,
    /// Occupied by the services of the instance itself.
    pub own: Set<u16>,
    /// In use on the host.
    pub busy: Set<u16>,
}

/// Whether an entry cannot keep its port.
pub open spec fn conflicts(port: u16, taken: Taken) -> bool {
    port == 0 || taken.selected.contains(port) || taken.reserved.contains(port) || (
    !taken.own.contains(port) && taken.busy.contains(port))
}

/// The first offer from `used` on that is neither chosen nor reserved.
pub open spec fn next_offer(offers: Seq<u16>, used: int, taken: Taken) -> Option<int>
    decreases offers.len() - used,
{
    if used < 0 || used >= offers.len() {
        None
    } else if taken.selected.contains(offers[used]) || taken.reserved.contains(offers[used]) {
        next_offer(offers, used + 1, taken)
    } else {
        Some(used)
    }
}

/// The outcome of going through the entries: the entries, what moved, and whether the offers
/// were enough.
#[verifier::ext_equal]
pub struct Resolution {
    pub env: Seq<EnvModel>,
    pub changes: Seq<ChangeModel>,
    pub complete: bool,
}

/// The port that an entry assigns to a service of the instance.
pub open spec fn entry_port(e: EnvModel) -> Option<int> {
    if is_service_port_key(e.key) {
        parsed(trimmed(e.value), 65535)
    } else {
        None
    }
}

/// Goes through the entries from `i` on: an entry keeps its port unless it conflicts, and
/// then moves to the next offer. Stops where the offers run out.
pub open spec fn resolved_from(
    env: Seq<EnvModel>,
    changes: Seq<ChangeModel>,
    i: int,
    taken: Taken,
    offers: Seq<u16>,
    used: int,
) -> Resolution
    decreases env.len() - i,
{
    if i < 0 || i >= env.len() {
        Resolution { env, changes, complete: true }
    } else {
        match entry_port(env[i]) {
            None => resolved_from(env, changes, i + 1, taken, offers, used),
            Some(p) => {
                let port = p as u16;
                if !conflicts(port, taken) {
                    resolved_from(
                        env,
                        changes,
                        i + 1,
                        Taken { selected: taken.selected.insert(port), ..taken },
                        offers,
                        used,
                    )
                } else {
                    match next_offer(offers, used, taken) {
                        None => Resolution { env, changes, complete: false },
                        Some(k) => resolved_from(
                            env.update(
                                i,
                                EnvModel {
                                    value: decimal(offers[k] as nat),
                                    modified: true,
                                    ..env[i]
                                },
                            ),
                            changes.push(
                                ChangeModel {
                                    key: env[i].key,
                                    old_port: port,
                                    new_port: offers[k],
                                },
                            ),
                            i + 1,
                            Taken { selected: taken.selected.insert(offers[k]), ..taken },
                            offers,
                            k + 1,
                        ),
                    }
                }
            },
        }
    }
}

/// The resolution of all entries, URLs included; where the offers run out, URLs are left.
pub open spec fn resolution(
    env: Seq<EnvModel>,
    reserved: Set<u16>,
    own: Set<u16>,
    busy: Set<u16>,
    offers: Seq<u16>,
) -> Resolution {
    let r = resolved_from(
        env,
        Seq::empty(),
        0,
        Taken { selected: Set::empty(), reserved, own, busy },
        offers,
        0,
    );
    if r.complete {
        Resolution { env: aligned_all(rebased(r.env, r.changes)), ..r }
    } else {
        r
    }
}

/// Moves the service ports that conflict with each other, with ports of other instances or
/// with ports in use on the host, and carries the moves into URLs and endpoints.
///
/// `reserved` holds ports assigned to other instances; `self_ports` those of this instance's
/// own running services, for which being in use is no conflict.
pub fn resolve_port_conflicts_inner(
    entries: &mut Vec<EnvVariable>,
    reserved: &HashSet<u16>,
    self_ports: &HashSet<u16>,
    host: &HostPorts,
) -> (r: Result<Vec<PortChange>, OffersExhausted>)
    ensures
        ({
            let outcome = resolution(
                envs(old(entries)@),
                reserved@,
                self_ports@,
                host.busy@,
                host.offers@,
            );
            &&& envs(final(entries)@) == outcome.env
            &&& r is Ok <==> outcome.complete
            &&& r matches Ok(changes) ==> changes_view(changes@) == outcome.changes
        }),
{
    broadcast use vstd::std_specs::hash::group_hash_axioms;

    let ghost start = envs(entries@);
    let ghost taken0 = Taken {
        selected: Set::empty(),
        reserved: reserved@,
        own: self_ports@,
        busy: host.busy@,
    };
    let ghost whole = resolved_from(start, Seq::empty(), 0, taken0, host.offers@, 0);
    let mut changes: Vec<PortChange> = Vec::new();
    let mut selected: HashSet<u16> = HashSet::new();
    let mut used: usize = 0;
    let mut i: usize = 0;
    assert(changes_view(changes@) == Seq::<ChangeModel>::empty());
    while i < entries.len()
        invariant
            i <= entries@.len(),
            used <= host.offers@.len(),
            whole == resolved_from(
                envs(entries@),
                changes_view(changes@),
                i as int,
                (Taken { selected: selected@, ..taken0 }),
                host.offers@,
                used as int,
            ),
        decreases entries@.len() - i,
    {
        let ghost env = envs(entries@);
        let ghost taken = Taken { selected: selected@, ..taken0 };
        assert(env[i as int] == entries@[i as int]@);
        let port: Option<u16> = if is_local_service_port_key(entries[i].key.as_str()) {
            parse_u16(trim(entries[i].value.as_str()))
        } else {
            None
        };
        if let Some(port) = port {
            let conflict: bool = port == 0 || selected.contains(&port) || reserved.contains(&port)
                || (!self_ports.contains(&port) && host.busy.contains(&port));
            if !conflict {
                selected.insert(port);
            } else {
                let ghost first = used as int;
                while used < host.offers.len() && (selected.contains(&host.offers[used])
                    || reserved.contains(&host.offers[used]))
                    invariant
                        used <= host.offers@.len(),
                        next_offer(host.offers@, first, taken) == next_offer(
                            host.offers@,
                            used as int,
                            taken,
                        ),
                    decreases host.offers@.len() - used,
                {
                    used = used + 1;
                }
                if used == host.offers.len() {
                    return Err(OffersExhausted {  });
                }
                let replacement: u16 = host.offers[used];
                selected.insert(replacement);
                let mut e = entries[i].duplicate();
                e.value = decimal_of(replacement as u64);
                e.modified = true;
                let change = PortChange {
                    key: entries[i].key.clone(),
                    old_port: port,
                    new_port: replacement,
                };
                let ghost before = changes_view(changes@);
                changes.push(change);
                assert(changes_view(changes@) == before.push(change@));
                entries.set(i, e);
                assert(envs(entries@) == env.update(i as int, e@));
                used = used + 1;
            }
        }
        i = i + 1;
    }
    rebase_url_ports(entries, &changes);
    align_loopback_url_ports(entries);
    Ok(changes)
}

/// Moves conflicting ports before an instance is deployed, when nothing is reserved and none
/// of its services run.
pub fn resolve_port_conflicts(entries: &mut Vec<EnvVariable>, host: &HostPorts) -> (r: Result<
    Vec<PortChange>,
    OffersExhausted,
>)
    ensures
        ({
            let outcome = resolution(
                envs(old(entries)@),
                Set::empty(),
                Set::empty(),
                host.busy@,
                host.offers@,
            );
            &&& envs(final(entries)@) == outcome.env
            &&& r is Ok <==> outcome.complete
            &&& r matches Ok(changes) ==> changes_view(changes@) == outcome.changes
        }),
{
    broadcast use vstd::std_specs::hash::group_hash_axioms;

    let nothing: HashSet<u16> = HashSet::new();
    resolve_port_conflicts_inner(entries, &nothing, &nothing, host)
}

/// Moves conflicting ports when the environment of a deployed instance is edited: its own
/// services may occupy their ports.
pub fn resolve_deployed_port_conflicts(
    entries: &mut Vec<EnvVariable>,
    reserved: &HashSet<u16>,
    self_ports: &HashSet<u16>,
    host: &HostPorts,
) -> (r: Result<Vec<PortChange>, OffersExhausted>)
    ensures
        ({
            let outcome = resolution(
                envs(old(entries)@),
                reserved@,
                self_ports@,
                host.busy@,
                host.offers@,
            );
            &&& envs(final(entries)@) == outcome.env
            &&& r is Ok <==> outcome.complete
            &&& r matches Ok(changes) ==> changes_view(changes@) == outcome.changes
        }),
{
    resolve_port_conflicts_inner(entries, reserved, self_ports, host)
}

// ---------------------------------------------------------------------------
// Probing ports
// ---------------------------------------------------------------------------

/// What was found out about a port of this machine.
#[derive(Clone, Copy, Debug, PartialEq, Eq, Structural)]
pub struct PortProbe {
    /// Something answers at the port, over IPv4 or over IPv6.
    pub answers_ipv4: bool,
    pub answers_ipv6: bool,
    /// The port can be bound over IPv4.
    pub binds_ipv4: bool,
    /// This machine has an IPv6 loopback address.
    pub has_ipv6: bool,
    /// The port can be bound over IPv6.
    pub binds_ipv6: bool,
}

/// Whether a port is free: nothing answers there, and it can be bound; over IPv6 only where
/// the machine has it.
pub open spec fn is_free(probe: PortProbe) -> bool {
    !probe.answers_ipv4 && !probe.answers_ipv6 && probe.binds_ipv4 && (probe.has_ipv6
        ==> probe.binds_ipv6)
}

pub fn port_is_available(probe: PortProbe) -> (r: bool)
    ensures
        r == is_free(probe),
{
    if probe.answers_ipv4 || probe.answers_ipv6 {
        return false;
    }
    if !probe.binds_ipv4 {
        return false;
    }
    if !probe.has_ipv6 {
        return true;
    }
    probe.binds_ipv6
}

/// How many ports of the system are tried.
pub const PORT_TRIES: usize = 64;

/// The first free port from `i` on among the tries that count.
pub open spec fn first_free(tries: Seq<(u16, PortProbe)>, i: int) -> Option<u16>
    decreases tries.len() - i,
{
    if i < 0 || i >= tries.len() || i >= PORT_TRIES {
        None
    } else if is_free(tries[i].1) {
        Some(tries[i].0)
    } else {
        first_free(tries, i + 1)
    }
}

/// Picks a free port from those that the system gave, each with what was found out about it.
pub fn available_ephemeral_port(tries: &Vec<(u16, PortProbe)>) -> (r: Result<u16, String>)
    ensures
        match first_free(tries@, 0) {
            Some(port) => r == Ok::<u16, String>(port),
            None => r matches Err(message) && message@
                == "Failed to find a free port available for both IPv4 and IPv6"@,
        },
{
    let mut i: usize = 0;
    while i < tries.len() && i < PORT_TRIES
        invariant
            i <= tries@.len(),
            i <= PORT_TRIES,
            first_free(tries@, 0) == first_free(tries@, i as int),
        decreases tries@.len() - i,
    {
        if port_is_available(tries[i].1) {
            return Ok(tries[i].0);
        }
        i = i + 1;
    }
    Err("Failed to find a free port available for both IPv4 and IPv6".to_owned())
}

} // verus!
