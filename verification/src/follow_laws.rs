//! Laws of addresses that follow ports: those of a lifecycle, those that moved, those of the root
//! environment, and those of the template.

use crate::environment::{
    address_follows, address_follows_from, assigned_ports_from, change_of, endpoint_follows,
    example_of, followed, host_of, last_value_of, lifecycle_follows,
    lifecycle_synced, resolved_entry, restored, upper_position_from,
};
use crate::models::{ChangeModel, EnvModel};
use crate::move_laws::{
    address, is_path, lemma_address_is_here, lemma_address_parts, lemma_best_match_at,
    lemma_best_match_none, lemma_localhost_address, lemma_phoenix_none,
};
use crate::port_laws::lemma_loopback_starts_with_h;
use crate::ports::{is_loopback_url, phoenix_from, with_value};
use crate::text::{
    bytes, decimal, holds, is_digit, lemma_decimal_value, lower, matches_at, strip_all_end, upper,
};
use crate::urls::{url_port, with_url_port};
use crate::vault_laws::{
    is_own_host, is_plain_host, is_port_part, is_tail, is_web_scheme, law_hosts_are_read,
    lemma_dotted,
};
use vstd::prelude::*;
use vstd::string::*;

verus! {

// ---------------------------------------------------------------------------
// Ports of a lifecycle
// ---------------------------------------------------------------------------

proof fn lemma_last_port_sticks(
    e: EnvModel,
    ports: Seq<(Seq<char>, int)>,
    i: int,
    k: int,
    scheme: Seq<char>,
    host: Seq<char>,
    x: nat,
    path: Seq<char>,
)
    requires
        0 <= i,
        is_web_scheme(scheme),
        is_own_host(host),
        is_path(path),
        e.value == address(scheme, host, x, path),
        holds(upper(e.key), "URL"@) || holds(upper(e.key), "ENDPOINT"@),
        i <= k ==> k < ports.len() && holds(upper(e.key), strip_all_end(ports[k].0, "_PORT"@)),
        forall|j: int|
            i <= j < ports.len() && j > k ==> !holds(
                upper(e.key),
                strip_all_end((#[trigger] ports[j]).0, "_PORT"@),
            ),
    ensures
        address_follows_from(e, ports, i).key == e.key,
        address_follows_from(e, ports, i).value == address(
            scheme,
            host,
            if i <= k {
                ports[k].1 as nat
            } else {
                x
            },
            path,
        ),
    decreases ports.len() - i,
{
    if i < ports.len() {
        let next = address_follows(e, ports[i]);
        lemma_address_is_here(scheme, host, x, path);
        lemma_address_parts(scheme, host, x, path);
        if holds(upper(e.key), strip_all_end(ports[i].0, "_PORT"@)) {
            let y = ports[i].1 as nat;
            assert(with_url_port(e.value, y) == address(scheme, host, y, path));
            lemma_last_port_sticks(next, ports, i + 1, k, scheme, host, y, path);
        } else {
            lemma_last_port_sticks(e, ports, i + 1, k, scheme, host, x, path);
        }
    }
}

/// An address on this machine takes the resolved port of the service that its variable names, of
/// several such services the last; scheme, host and path stay. One that names none keeps its
/// port.
pub proof fn law_addresses_take_resolved_ports(
    e: EnvModel,
    ports: Seq<(Seq<char>, int)>,
    k: int,
    scheme: Seq<char>,
    host: Seq<char>,
    x: nat,
    path: Seq<char>,
)
    requires
        -1 <= k < ports.len(),
        is_web_scheme(scheme) && is_own_host(host) && is_path(path),
        e.value == address(scheme, host, x, path),
        holds(upper(e.key), "URL"@) || holds(upper(e.key), "ENDPOINT"@),
        k >= 0 ==> holds(upper(e.key), strip_all_end(ports[k].0, "_PORT"@)),
        forall|j: int|
            k < j < ports.len() ==> !holds(
                upper(e.key),
                strip_all_end((#[trigger] ports[j]).0, "_PORT"@),
            ),
    ensures
        address_follows_from(e, ports, 0).value == address(
            scheme,
            host,
            if k >= 0 {
                ports[k].1 as nat
            } else {
                x
            },
            path,
        ),
        k >= 0 && 0 <= ports[k].1 <= 65535 ==> url_port(address_follows_from(e, ports, 0).value)
            == Some(ports[k].1),
        address_follows_from(e, ports, 0).key == e.key,
{
    lemma_last_port_sticks(e, ports, 0, k, scheme, host, x, path);
    if k >= 0 {
        lemma_address_parts(scheme, host, ports[k].1 as nat, path);
    }
}

/// An address on this machine takes the port of the service that its variable names, the longest
/// name counting, and of equally long ones the last. An endpoint that names none takes that of
/// Phoenix, else that of the first service; a URL that names none stays.
pub proof fn law_addresses_take_service_ports(
    e: EnvModel,
    ports: Seq<(Seq<char>, int)>,
    k: int,
    scheme: Seq<char>,
    host: Seq<char>,
    x: nat,
    path: Seq<char>,
)
    requires
        0 <= k < ports.len(),
        is_web_scheme(scheme) && is_own_host(host) && is_path(path),
        e.value == address(scheme, host, x, path),
        holds(upper(e.key), "URL"@) || holds(upper(e.key), "ENDPOINT"@),
    ensures
        ({
            let name = upper(e.key);
            let now = lifecycle_follows(e, ports);
            let with_port_of_k = now.value == address(scheme, host, ports[k].1 as nat, path);
            &&& now.key == e.key
            &&& holds(name, ports[k].0) && (forall|t: int|
                0 <= t < ports.len() && t != k && holds(name, (#[trigger] ports[t]).0) ==> bytes(
                    ports[t].0,
                ) <= bytes(ports[k].0) && (t > k ==> bytes(ports[t].0) < bytes(ports[k].0)))
                ==> with_port_of_k
            &&& (forall|t: int|
                0 <= t < ports.len() ==> !holds(name, (#[trigger] ports[t]).0)) ==> {
                &&& !holds(name, "ENDPOINT"@) ==> now == e
                &&& holds(name, "ENDPOINT"@) && ports[k].0 == "PHOENIX"@ && (forall|t: int|
                    0 <= t < k ==> (#[trigger] ports[t]).0 != "PHOENIX"@) ==> with_port_of_k
                &&& holds(name, "ENDPOINT"@) && k == 0 && (forall|t: int|
                    0 <= t < ports.len() ==> (#[trigger] ports[t]).0 != "PHOENIX"@)
                    ==> with_port_of_k
            }
        }),
{
    let name = upper(e.key);
    lemma_address_is_here(scheme, host, x, path);
    lemma_address_parts(scheme, host, x, path);
    assert(with_url_port(e.value, ports[k].1 as nat) == address(
        scheme,
        host,
        ports[k].1 as nat,
        path,
    ));
    if holds(name, ports[k].0) && (forall|t: int|
        0 <= t < ports.len() && t != k && holds(name, (#[trigger] ports[t]).0) ==> bytes(ports[t].0)
            <= bytes(ports[k].0) && (t > k ==> bytes(ports[t].0) < bytes(ports[k].0))) {
        lemma_best_match_at(ports, name, k);
    }
    if forall|t: int| 0 <= t < ports.len() ==> !holds(name, (#[trigger] ports[t]).0) {
        lemma_best_match_none(ports, name);
        if ports[k].0 == "PHOENIX"@ && (forall|t: int|
            0 <= t < k ==> (#[trigger] ports[t]).0 != "PHOENIX"@) {
            lemma_first_phoenix(ports, 0, k);
        }
        if forall|t: int| 0 <= t < ports.len() ==> (#[trigger] ports[t]).0 != "PHOENIX"@ {
            lemma_phoenix_none(ports, 0);
        }
    }
}

proof fn lemma_first_phoenix(ports: Seq<(Seq<char>, int)>, i: int, k: int)
    requires
        0 <= i <= k < ports.len(),
        ports[k].0 == "PHOENIX"@,
        forall|t: int| i <= t < k ==> (#[trigger] ports[t]).0 != "PHOENIX"@,
    ensures
        phoenix_from(ports, i) == Some(ports[k].1),
    decreases k - i,
{
    if i < k {
        lemma_first_phoenix(ports, i + 1, k);
    }
}

// ---------------------------------------------------------------------------
// Ports that moved
// ---------------------------------------------------------------------------

proof fn lemma_first_change(changes: Seq<ChangeModel>, port: int, i: int, c: int)
    requires
        0 <= i <= c < changes.len(),
        changes[c].old_port == port,
        forall|d: int| i <= d < c ==> (#[trigger] changes[d]).old_port != port,
    ensures
        change_of(changes, port, i) == Some(changes[c]),
    decreases c - i,
{
    if i < c {
        lemma_first_change(changes, port, i + 1, c);
    }
}

/// An endpoint on 127.0.0.1 or localhost that names a moved port takes the port that the first
/// such change moved it to, and is marked as modified where that is another; scheme, host and
/// path stay.
pub proof fn law_endpoints_follow_changes(
    e: EnvModel,
    changes: Seq<ChangeModel>,
    c: int,
    scheme: Seq<char>,
    host: Seq<char>,
    path: Seq<char>,
)
    requires
        0 <= c < changes.len(),
        forall|d: int| 0 <= d < c ==> (#[trigger] changes[d]).old_port != changes[c].old_port,
        is_web_scheme(scheme) && (host == "127.0.0.1"@ || host == "localhost"@) && is_path(path),
        e.value == address(scheme, host, changes[c].old_port as nat, path),
        holds(upper(e.key), "ENDPOINT"@),
    ensures
        ({
            let now = endpoint_follows(e, changes);
            &&& now.value == address(scheme, host, changes[c].new_port as nat, path)
            &&& url_port(now.value) == Some(changes[c].new_port as int)
            &&& changes[c].new_port != changes[c].old_port ==> now.modified
            &&& now.key == e.key && now.comment == e.comment && now.source == e.source
        }),
{
    let x = changes[c].old_port as nat;
    let y = changes[c].new_port as nat;
    lemma_first_change(changes, x as int, 0, c);
    lemma_address_parts(scheme, host, x, path);
    lemma_address_parts(scheme, host, y, path);
    lemma_localhost_address(scheme, host, x, path);
    assert(with_url_port(e.value, y) == address(scheme, host, y, path));
    assert(url_port(e.value) == Some(x as int));
}

// ---------------------------------------------------------------------------
// The root environment
// ---------------------------------------------------------------------------

proof fn lemma_last_value(env: Seq<EnvModel>, key: Seq<char>, k: int)
    requires
        k < env.len(),
        k >= 0 ==> upper(env[k].key) == key,
        forall|j: int| 0 <= j < env.len() && j > k ==> upper((#[trigger] env[j]).key) != key,
    ensures
        last_value_of(env, key) == (if k >= 0 {
            Some(env[k].value)
        } else {
            None
        }),
    decreases env.len(),
{
    if env.len() > 0 && upper(env.last().key) != key {
        lemma_last_value(env.drop_last(), key, k);
    }
}

/// Another file of an instance follows its root environment: a variable that the root has, in any
/// case, takes the value of the root's last entry for it; one that it does not have, and that is
/// no address on this machine, stays.
pub proof fn law_other_files_follow_the_root(e: EnvModel, root: Seq<EnvModel>, k: int)
    requires
        -1 <= k < root.len(),
        k >= 0 ==> upper(root[k].key) == upper(e.key),
        forall|j: int| k < j < root.len() ==> upper((#[trigger] root[j]).key) != upper(e.key),
    ensures
        k >= 0 ==> followed(e, root).value == root[k].value,
        k < 0 && !is_loopback_url(e.value) ==> followed(e, root) == e,
        followed(e, root).key == e.key,
        followed(e, root).comment == e.comment,
{
    lemma_last_value(root, upper(e.key), k);
}

// ---------------------------------------------------------------------------
// The template's defaults
// ---------------------------------------------------------------------------

proof fn lemma_example(examples: Seq<EnvModel>, key: Seq<char>, i: int, k: int)
    requires
        0 <= i <= k <= examples.len(),
        k < examples.len() ==> lower(examples[k].key) == lower(key),
        forall|j: int| i <= j < k ==> lower((#[trigger] examples[j]).key) != lower(key),
    ensures
        example_of(examples, key, i) == (if k < examples.len() {
            Some(examples[k])
        } else {
            None
        }),
    decreases k - i,
{
    if i < k {
        lemma_example(examples, key, i + 1, k);
    }
}

/// Held against the template's first entry of the same name, in any case: an address on this
/// machine stays, and so does what is no address or is not in the template. The address of a
/// container, where the template has this machine, gives way to the template's address. An
/// address with the template's host and another port takes back the template's port; one with
/// another host that has a dot in it stays.
pub proof fn law_template_defaults_are_restored(
    e: EnvModel,
    examples: Seq<EnvModel>,
    k: int,
    scheme: Seq<char>,
    host: Seq<char>,
    port: Seq<char>,
    tail: Seq<char>,
)
    requires
        0 <= k <= examples.len(),
        k < examples.len() ==> lower(examples[k].key) == lower(e.key),
        forall|j: int| 0 <= j < k ==> lower((#[trigger] examples[j]).key) != lower(e.key),
        is_web_scheme(scheme) && is_plain_host(host) && is_port_part(port) && is_tail(tail),
        e.value == scheme + host + port + tail,
    ensures
        ({
            let now = restored(e, examples);
            let template = examples[k].value;
            let is_address = holds(upper(e.key), "URL"@) || holds(upper(e.key), "ENDPOINT"@);
            let dotted = !(forall|i: int| 0 <= i < host.len() ==> #[trigger] host[i] != '.');
            &&& now.key == e.key
            &&& k == examples.len() || !is_address || is_loopback_url(e.value) ==> now == e
            &&& k < examples.len() && is_address && !is_loopback_url(e.value) ==> {
                &&& is_loopback_url(template) && !dotted ==> now.value == template && now.modified
                &&& dotted && host_of(template) != Some(host) ==> now == e
                &&& dotted && host_of(template) == Some(host) && url_port(template) is Some
                    && url_port(e.value) is Some && url_port(template) != url_port(e.value)
                    ==> now.value == with_url_port(e.value, url_port(template)->0 as nat)
                &&& dotted && url_port(template) == url_port(e.value) ==> now == e
            }
        }),
{
    lemma_example(examples, e.key, 0, k);
    assert(!(exists|i: int| matches_at(Seq::<char>::empty(), "://"@, i))) by {
        reveal_strlit("://");
    }
    law_hosts_are_read(scheme, host, port, tail, Seq::empty());
    lemma_dotted(host);
}

// ---------------------------------------------------------------------------
// Variables of resolved ports
// ---------------------------------------------------------------------------

proof fn lemma_upper_position(env: Seq<EnvModel>, key: Seq<char>, i: int)
    requires
        0 <= i <= env.len(),
    ensures
        ({
            let k = upper_position_from(env, key, i);
            &&& i <= k <= env.len()
            &&& k < env.len() ==> upper(env[k].key) == key
            &&& forall|j: int| i <= j < k ==> upper((#[trigger] env[j]).key) != key
        }),
    decreases env.len() - i,
{
    if i < env.len() && upper(env[i].key) != key {
        lemma_upper_position(env, key, i + 1);
    }
}

/// Assigning ports keeps keys in their places, changes no variable that no port is for, and
/// leaves the one for a port with it.
proof fn lemma_assigned(
    env: Seq<EnvModel>,
    ports: Seq<(Seq<char>, int)>,
    i: int,
    k: int,
) -> (m: int)
    requires
        0 <= i <= k < ports.len(),
        upper(ports[k].0) == ports[k].0,
        forall|j: int| k < j < ports.len() ==> (#[trigger] ports[j]).0 != ports[k].0,
    ensures
        ({
            let out = assigned_ports_from(env, ports, i);
            &&& 0 <= m < out.len()
            &&& upper(out[m].key) == ports[k].0
            &&& out[m].value == decimal(ports[k].1 as nat)
        }),
    decreases k - i,
{
    lemma_upper_position(env, ports[i].0, 0);
    let p = upper_position_from(env, ports[i].0, 0);
    let step = if p < env.len() {
        env.update(p, with_value(env[p], decimal(ports[i].1 as nat)))
    } else {
        env.push(resolved_entry(ports[i].0, ports[i].1))
    };
    if i == k {
        lemma_assigned_frame(step, ports, i + 1, p);
        p
    } else {
        lemma_assigned(step, ports, i + 1, k)
    }
}

proof fn lemma_assigned_frame(
    env: Seq<EnvModel>,
    ports: Seq<(Seq<char>, int)>,
    i: int,
    m: int,
)
    requires
        0 <= i,
        0 <= m < env.len(),
        forall|j: int| i <= j < ports.len() ==> (#[trigger] ports[j]).0 != upper(env[m].key),
    ensures
        m < assigned_ports_from(env, ports, i).len(),
        assigned_ports_from(env, ports, i)[m] == env[m],
    decreases ports.len() - i,
{
    if i < ports.len() {
        lemma_upper_position(env, ports[i].0, 0);
        let p = upper_position_from(env, ports[i].0, 0);
        let step = if p < env.len() {
            env.update(p, with_value(env[p], decimal(ports[i].1 as nat)))
        } else {
            env.push(resolved_entry(ports[i].0, ports[i].1))
        };
        assert(ports[i].0 != upper(env[m].key));
        assert(step[m] == env[m]);
        lemma_assigned_frame(step, ports, i + 1, m);
    }
}

/// Each resolved port, of several under one name the last, is the value of a variable of its
/// name afterwards, in whatever case it is written; a variable that no port is for stays in its
/// place as it was.
pub proof fn law_resolved_ports_are_assigned(
    env: Seq<EnvModel>,
    ports: Seq<(Seq<char>, int)>,
    k: int,
    m: int,
)
    requires
        0 <= k < ports.len(),
        upper(ports[k].0) == ports[k].0,
        forall|j: int| k < j < ports.len() ==> (#[trigger] ports[j]).0 != ports[k].0,
    ensures
        ({
            let out = assigned_ports_from(env, ports, 0);
            &&& exists|i: int|
                0 <= i < out.len() && upper((#[trigger] out[i]).key) == ports[k].0 && out[i].value
                    == decimal(ports[k].1 as nat)
            &&& 0 <= m < env.len() && (forall|j: int|
                0 <= j < ports.len() ==> (#[trigger] ports[j]).0 != upper(env[m].key)) ==> m
                < out.len() && out[m] == env[m]
        }),
{
    let i = lemma_assigned(env, ports, 0, k);
    assert(upper(assigned_ports_from(env, ports, 0)[i].key) == ports[k].0);
    if 0 <= m < env.len() && (forall|j: int|
        0 <= j < ports.len() ==> (#[trigger] ports[j]).0 != upper(env[m].key)) {
        lemma_assigned_frame(env, ports, 0, m);
    }
}

/// Once the ports of a lifecycle are resolved, each is the value of its variable, and an address
/// on this machine whose own variable names a service has the port of that service, where no
/// change moves this port on. Entries keep their places.
pub proof fn law_lifecycle_ports_reach_the_environment(
    env: Seq<EnvModel>,
    ports: Seq<(Seq<char>, int)>,
    changes: Seq<ChangeModel>,
    k: int,
    m: int,
    scheme: Seq<char>,
    host: Seq<char>,
    x: nat,
    path: Seq<char>,
)
    requires
        0 <= k < ports.len(),
        0 <= ports[k].1 <= 65535,
        upper(ports[k].0) == ports[k].0,
        forall|j: int| k < j < ports.len() ==> (#[trigger] ports[j]).0 != ports[k].0,
        is_web_scheme(scheme) && is_own_host(host) && is_path(path),
    ensures
        ({
            let out = lifecycle_synced(env, ports, changes);
            let name = upper(env[m].key);
            &&& exists|i: int|
                0 <= i < out.len() && upper((#[trigger] out[i]).key) == ports[k].0 && out[i].value
                    == decimal(ports[k].1 as nat)
            &&& 0 <= m < env.len() && env[m].value == address(scheme, host, x, path) && (holds(
                name,
                "URL"@,
            ) || holds(name, "ENDPOINT"@)) && (forall|j: int|
                0 <= j < ports.len() ==> (#[trigger] ports[j]).0 != name) && holds(
                name,
                strip_all_end(ports[k].0, "_PORT"@),
            ) && (forall|j: int|
                k < j < ports.len() ==> !holds(
                    name,
                    strip_all_end((#[trigger] ports[j]).0, "_PORT"@),
                )) && (forall|d: int|
                0 <= d < changes.len() ==> (#[trigger] changes[d]).old_port != ports[k].1) ==> m
                < out.len() && out[m].key == env[m].key && out[m].value == address(
                scheme,
                host,
                ports[k].1 as nat,
                path,
            )
        }),
{
    let out = lifecycle_synced(env, ports, changes);
    let assigned = assigned_ports_from(env, ports, 0);
    let i = lemma_assigned(env, ports, 0, k);
    lemma_decimal_value(ports[k].1 as nat);
    assert(is_digit(assigned[i].value[0]));
    if is_loopback_url(assigned[i].value) {
        lemma_loopback_starts_with_h(assigned[i].value);
    }
    lemma_no_address_stays(assigned[i], ports, 0);
    assert(out[i] == endpoint_follows(address_follows_from(assigned[i], ports, 0), changes));
    assert(out[i] == assigned[i]);
    let name = upper(env[m].key);
    if 0 <= m < env.len() && env[m].value == address(scheme, host, x, path) && (holds(name, "URL"@)
        || holds(name, "ENDPOINT"@)) && (forall|j: int|
        0 <= j < ports.len() ==> (#[trigger] ports[j]).0 != name) && holds(
        name,
        strip_all_end(ports[k].0, "_PORT"@),
    ) && (forall|j: int|
        k < j < ports.len() ==> !holds(name, strip_all_end((#[trigger] ports[j]).0, "_PORT"@))) && (
    forall|d: int| 0 <= d < changes.len() ==> (#[trigger] changes[d]).old_port != ports[k].1) {
        lemma_assigned_frame(env, ports, 0, m);
        lemma_last_port_sticks(env[m], ports, 0, k, scheme, host, x, path);
        lemma_address_parts(scheme, host, ports[k].1 as nat, path);
        lemma_change_absent(changes, ports[k].1, 0);
        assert(out[m] == endpoint_follows(address_follows_from(assigned[m], ports, 0), changes));
    }
}

proof fn lemma_change_absent(changes: Seq<ChangeModel>, port: int, i: int)
    requires
        0 <= i,
        forall|d: int| 0 <= d < changes.len() ==> (#[trigger] changes[d]).old_port != port,
    ensures
        change_of(changes, port, i) is None,
    decreases changes.len() - i,
{
    if i < changes.len() {
        lemma_change_absent(changes, port, i + 1);
    }
}

proof fn lemma_no_address_stays(e: EnvModel, ports: Seq<(Seq<char>, int)>, i: int)
    requires
        !is_loopback_url(e.value),
    ensures
        address_follows_from(e, ports, i) == e,
    decreases ports.len() - i,
{
    if 0 <= i < ports.len() {
        lemma_no_address_stays(e, ports, i + 1);
    }
}

} // verus!
