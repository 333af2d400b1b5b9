//! What happens between choosing a template and configuring the instance made from it.

use crate::config_sync::changed_text;
use crate::environment::{
    ensure_tracing_choice, env_entries, merge_env_entries, merged, parse_env, services_view,
    with_tracing_choice,
};
use crate::instance::push_all;
use crate::models::{
    ChangeModel, EndpointModel, EnvModel, EnvVariable, InstanceModel, InstanceRecord, PortChange,
    ServiceEndpoint, changes_view, endpoints, envs, instances_view,
};
use crate::port_plans::{free_offer, service_key};
use crate::ports::{
    has_loopback_prefix, is_loopback_url, set_value, with_value, HostPorts, OffersExhausted,
};
use crate::process_ports::{find_named, first_named, named_ports};
use crate::save_env::ManifestText;
use crate::text::{
    all_digits, concat2, cut, decimal, decimal_of, lemma_digits_value_monotonic, lemma_find_from,
    number_digits, opt_view, rcut, replace, replaced, same, texts, to_upper, trim, trimmed, upper,
};
use crate::urls::{
    before_scheme, before_slash, extract_url_port, replace_url_port, url_port, with_url_port,
};
use std::collections::HashSet;
use vstd::prelude::*;
use vstd::string::*;

verus! {

// ---------------------------------------------------------------------------
// Input
// ---------------------------------------------------------------------------

/// What is wrong with the input for a new instance, if anything is.
pub open spec fn input_fault(
    name: Seq<char>,
    target_dir: Seq<char>,
    instances: Seq<InstanceModel>,
) -> Option<Seq<char>> {
    if trimmed(name).len() == 0 {
        Some("Instance name cannot be empty"@)
    } else if exists|i: int|
        0 <= i < instances.len() && (#[trigger] instances[i]).name == trimmed(name) {
        Some("Instance name already exists"@)
    } else if trimmed(target_dir).len() == 0 {
        Some("Instance working directory cannot be empty"@)
    } else {
        None
    }
}

/// Accepts a new name and a directory for an instance.
pub fn check_prepare_input(name: &str, target_dir: &str, instances: &Vec<InstanceRecord>) -> (r:
    Result<(), String>)
    ensures
        r is Ok <==> input_fault(name@, target_dir@, instances_view(instances@)) is None,
        r matches Err(message) ==> input_fault(name@, target_dir@, instances_view(instances@))
            == Some(message@),
{
    let name = trim(name);
    if name.is_empty() {
        return Err("Instance name cannot be empty".to_owned());
    }
    let ghost is = instances_view(instances@);
    let mut i: usize = 0;
    while i < instances.len()
        invariant
            i <= instances@.len(),
            is == instances_view(instances@),
            forall|j: int| 0 <= j < i ==> (#[trigger] is[j]).name != name@,
        decreases instances@.len() - i,
    {
        assert(is[i as int] == instances@[i as int]@);
        if same(instances[i].name.as_str(), name) {
            return Err("Instance name already exists".to_owned());
        }
        i = i + 1;
    }
    if trim(target_dir).is_empty() {
        return Err("Instance working directory cannot be empty".to_owned());
    }
    Ok(())
}

/// The arguments that describe a template, or create an instance from it.
pub fn create_arguments(describe: bool, repo_flags: &Vec<String>, template_id: &str) -> (r: Vec<
    String,
>)
    ensures
        texts(r@) == (if describe {
            seq!["create"@, "--describe"@]
        } else {
            seq!["create"@]
        }) + texts(repo_flags@) + seq![template_id@],
{
    let mut args: Vec<String> = Vec::new();
    args.push("create".to_owned());
    if describe {
        args.push("--describe".to_owned());
    }
    let ghost head = if describe {
        seq!["create"@, "--describe"@]
    } else {
        seq!["create"@]
    };
    assert(texts(args@) == head);
    push_all(&mut args, repo_flags);
    let ghost before = texts(args@);
    let id = template_id.to_owned();
    let ghost model = id@;
    args.push(id);
    assert(texts(args@) == before.push(model));
    assert(before.push(model) == before + seq![model]);
    args
}

// ---------------------------------------------------------------------------
// Ports of the services
// ---------------------------------------------------------------------------

/// The ports found so far for a new instance, and its manifest with them.
#[verifier::ext_equal]
pub struct ServicePorts {
    /// The ports under their variables.
    pub resolved: Seq<(Seq<char>, int)>,
    /// What moved.
    pub changes: Seq<ChangeModel>,
    /// Ports that are spoken for.
    pub taken: Set<u16>,
    /// How many offers were used up.
    pub used: int,
    /// The manifest.
    pub text: Seq<char>,
    /// Whether the offers were enough.
    pub complete: bool,
}

/// The manifest with the URL of a service exchanged for one with another port.
pub open spec fn with_service_port(text: Seq<char>, url: Seq<char>, default: int, port: int) -> Seq<
    char,
> {
    if port != default {
        replaced(text, url, with_url_port(url, port as nat))
    } else {
        text
    }
}

/// The first change from `i` on that moves the port.
pub open spec fn move_of(changes: Seq<ChangeModel>, port: int, i: int) -> Option<ChangeModel>
    decreases changes.len() - i,
{
    if i < 0 || i >= changes.len() {
        None
    } else if changes[i].old_port == port {
        Some(changes[i])
    } else {
        move_of(changes, port, i + 1)
    }
}

/// One service: it follows the port found under its variable, or the move of a port that it
/// shares; a shared port that stayed is left; else a port is found for it.
pub open spec fn after_service(
    s: ServicePorts,
    service: (Seq<char>, Seq<char>),
    busy: Set<u16>,
    offers: Seq<u16>,
) -> ServicePorts {
    let url = service.1;
    let key = service_key(service.0);
    match url_port(url) {
        None => s,
        Some(d) => if d == 0 {
            s
        } else if first_named(s.resolved, key, 0) is Some {
            ServicePorts {
                text: with_service_port(s.text, url, d, first_named(s.resolved, key, 0)->0),
                ..s
            }
        } else if move_of(s.changes, d, 0) is Some {
            ServicePorts {
                text: with_service_port(s.text, url, d, move_of(s.changes, d, 0)->0.new_port as int),
                ..s
            }
        } else if s.taken.contains(d as u16) {
            s
        } else if !busy.contains(d as u16) {
            ServicePorts {
                resolved: s.resolved.push((key, d)),
                taken: s.taken.insert(d as u16),
                ..s
            }
        } else {
            match free_offer(offers, s.used, s.taken) {
                None => ServicePorts { complete: false, ..s },
                Some(k) => ServicePorts {
                    resolved: s.resolved.push((key, offers[k] as int)),
                    changes: s.changes.push(
                        ChangeModel { key, old_port: d as u16, new_port: offers[k] },
                    ),
                    taken: s.taken.insert(offers[k]),
                    used: k + 1,
                    text: with_service_port(s.text, url, d, offers[k] as int),
                    complete: true,
                },
            }
        },
    }
}

/// The services from `i` on, up to where the offers run out.
pub open spec fn after_services(
    s: ServicePorts,
    services: Seq<(Seq<char>, Seq<char>)>,
    busy: Set<u16>,
    offers: Seq<u16>,
    i: int,
) -> ServicePorts
    decreases services.len() - i,
{
    if i < 0 || i >= services.len() || !s.complete {
        s
    } else {
        after_services(
            after_service(s, services[i], busy, offers),
            services,
            busy,
            offers,
            i + 1,
        )
    }
}

/// The ports of a list.
pub open spec fn ports_in(ports: Seq<(Seq<char>, int)>) -> Set<u16> {
    Set::new(
        |p: u16| exists|i: int| 0 <= i < ports.len() && (#[trigger] ports[i]).1 == p as int,
    )
}

/// Where the services of a new instance start from.
pub open spec fn services_start(
    text: Seq<char>,
    resolved: Seq<(Seq<char>, int)>,
    changes: Seq<ChangeModel>,
    reserved: Set<u16>,
) -> ServicePorts {
    ServicePorts {
        resolved,
        changes,
        taken: reserved.union(ports_in(resolved)),
        used: 0,
        text,
        complete: true,
    }
}

fn is_spoken_for(
    port: u16,
    reserved: &HashSet<u16>,
    resolved: &Vec<(String, u16)>,
) -> (r: bool)
    ensures
        r == reserved@.union(ports_in(named_ports(resolved@))).contains(port),
{
    broadcast use vstd::std_specs::hash::group_hash_axioms;

    if reserved.contains(&port) {
        return true;
    }
    let ghost ps = named_ports(resolved@);
    let mut i: usize = 0;
    while i < resolved.len()
        invariant
            i <= resolved@.len(),
            ps == named_ports(resolved@),
            forall|j: int| 0 <= j < i ==> (#[trigger] ps[j]).1 != port as int,
        decreases resolved@.len() - i,
    {
        assert(ps[i as int] == (resolved@[i as int].0@, resolved@[i as int].1 as int));
        if resolved[i].1 == port {
            return true;
        }
        i = i + 1;
    }
    false
}

fn find_move(changes: &Vec<PortChange>, port: u16) -> (r: Option<u16>)
    ensures
        match move_of(changes_view(changes@), port as int, 0) {
            Some(c) => r == Some(c.new_port),
            None => r is None,
        },
{
    let ghost cs = changes_view(changes@);
    let mut i: usize = 0;
    while i < changes.len()
        invariant
            i <= changes@.len(),
            cs == changes_view(changes@),
            move_of(cs, port as int, 0) == move_of(cs, port as int, i as int),
        decreases changes@.len() - i,
    {
        assert(cs[i as int] == changes@[i as int]@);
        if changes[i].old_port == port {
            return Some(changes[i].new_port);
        }
        i = i + 1;
    }
    None
}

fn move_service_url(text: String, url: &str, default: u16, port: u16) -> (r: String)
    requires
        url@.len() > 0,
    ensures
        r@ == with_service_port(text@, url@, default as int, port as int),
{
    if port != default {
        replace(text.as_str(), url, replace_url_port(url, port).as_str())
    } else {
        text
    }
}

proof fn lemma_ports_in_push(ports: Seq<(Seq<char>, int)>, pair: (Seq<char>, int))
    requires
        0 <= pair.1 <= 65535,
    ensures
        ports_in(ports.push(pair)) == ports_in(ports).insert(pair.1 as u16),
{
    let more = ports.push(pair);
    assert forall|p: u16|
        ports_in(more).contains(p) == ports_in(ports).insert(pair.1 as u16).contains(p) by {
        if ports_in(more).contains(p) {
            let i = choose|i: int| 0 <= i < more.len() && (#[trigger] more[i]).1 == p as int;
            if i < ports.len() {
                assert(ports[i] == more[i]);
            }
        }
        if ports_in(ports).contains(p) {
            let i = choose|i: int| 0 <= i < ports.len() && (#[trigger] ports[i]).1 == p as int;
            assert(more[i] == ports[i]);
        }
        assert(more[ports.len() as int] == pair);
    }
}

/// Finds ports for the services of a new instance that the template's variables do not
/// cover, and carries all found ports into the URLs of the manifest. Gives the manifest;
/// ports and moves are added to those of the variables.
pub fn resolve_service_ports(
    manifest: &str,
    services: &Vec<(String, String)>,
    reserved: &HashSet<u16>,
    resolved: &mut Vec<(String, u16)>,
    changes: &mut Vec<PortChange>,
    host: &HostPorts,
) -> (r: Result<String, OffersExhausted>)
    ensures
        ({
            let out = after_services(
                services_start(
                    manifest@,
                    named_ports(old(resolved)@),
                    changes_view(old(changes)@),
                    reserved@,
                ),
                services_view(services@),
                host.busy@,
                host.offers@,
                0,
            );
            &&& r is Ok <==> out.complete
            &&& named_ports(final(resolved)@) == out.resolved
            &&& changes_view(final(changes)@) == out.changes
            &&& r matches Ok(text) ==> text@ == out.text
        }),
{
    broadcast use vstd::std_specs::hash::group_hash_axioms;

    let ghost ss = services_view(services@);
    let ghost start = services_start(
        manifest@,
        named_ports(resolved@),
        changes_view(changes@),
        reserved@,
    );
    let ghost whole = after_services(start, ss, host.busy@, host.offers@, 0);
    let mut text = manifest.to_owned();
    let mut used: usize = 0;
    let mut i: usize = 0;
    while i < services.len()
        invariant
            i <= services@.len(),
            used <= host.offers@.len(),
            ss == services_view(services@),
            whole == after_services(
                (ServicePorts {
                    resolved: named_ports(resolved@),
                    changes: changes_view(changes@),
                    taken: reserved@.union(ports_in(named_ports(resolved@))),
                    used: used as int,
                    text: text@,
                    complete: true,
                }),
                ss,
                host.busy@,
                host.offers@,
                i as int,
            ),
        decreases services@.len() - i,
    {
        assert(ss[i as int] == (services@[i as int].0@, services@[i as int].1@));
        let url = services[i].1.as_str();
        let ghost state = ServicePorts {
            resolved: named_ports(resolved@),
            changes: changes_view(changes@),
            taken: reserved@.union(ports_in(named_ports(resolved@))),
            used: used as int,
            text: text@,
            complete: true,
        };
        let default: u16 = match extract_url_port(url) {
            Some(p) => p,
            None => 0,
        };
        if default != 0 {
            proof {
                reveal_strlit("://");
                lemma_find_from(url@, "://"@, 0);
            }
            let key = concat2(to_upper(services[i].0.as_str()).as_str(), "_PORT");
            if let Some(port) = find_named(resolved, key.as_str()) {
                text = move_service_url(text, url, default, port);
            } else if let Some(port) = find_move(changes, default) {
                text = move_service_url(text, url, default, port);
            } else if !is_spoken_for(default, reserved, resolved) {
                let ghost before = named_ports(resolved@);
                if !host.busy.contains(&default) {
                    let ghost pair = (key@, default as int);
                    resolved.push((key, default));
                    assert(named_ports(resolved@) == before.push(pair));
                    proof {
                        lemma_ports_in_push(before, pair);
                    }
                    assert(reserved@.union(ports_in(named_ports(resolved@)))
                        == state.taken.insert(default));
                } else {
                    let ghost first = used as int;
                    while used < host.offers.len() && is_spoken_for(
                        host.offers[used],
                        reserved,
                        resolved,
                    )
                        invariant
                            used <= host.offers@.len(),
                            free_offer(host.offers@, first, state.taken) == free_offer(
                                host.offers@,
                                used as int,
                                state.taken,
                            ),
                        decreases host.offers@.len() - used,
                    {
                        used = used + 1;
                    }
                    if used == host.offers.len() {
                        assert(after_services(
                            (ServicePorts { complete: false, ..state }),
                            ss,
                            host.busy@,
                            host.offers@,
                            i + 1,
                        ) == (ServicePorts { complete: false, ..state }));
                        return Err(OffersExhausted {  });
                    }
                    let port: u16 = host.offers[used];
                    used = used + 1;
                    let change = PortChange {
                        key: key.clone(),
                        old_port: default,
                        new_port: port,
                    };
                    let ghost moved = changes_view(changes@);
                    let ghost model = change@;
                    changes.push(change);
                    assert(changes_view(changes@) == moved.push(model));
                    let ghost pair = (key@, port as int);
                    resolved.push((key, port));
                    assert(named_ports(resolved@) == before.push(pair));
                    proof {
                        lemma_ports_in_push(before, pair);
                    }
                    assert(reserved@.union(ports_in(named_ports(resolved@)))
                        == state.taken.insert(port));
                    text = move_service_url(text, url, default, port);
                }
            }
        }
        i = i + 1;
    }
    Ok(text)
}

/// Whether the ports found behind the first `n` are neither among `taken` nor twice there, and
/// each was free or is an offer.
spec fn are_new_ports(
    ports: Seq<(Seq<char>, int)>,
    n: int,
    taken: Set<u16>,
    busy: Set<u16>,
    offers: Seq<u16>,
) -> bool {
    &&& forall|k: int|
        n <= k < ports.len() ==> 0 < (#[trigger] ports[k]).1 + 1 <= 65536 && !taken.contains(
            ports[k].1 as u16,
        ) && (!busy.contains(ports[k].1 as u16) || offers.contains(ports[k].1 as u16))
    &&& forall|j: int, k: int|
        n <= j < k < ports.len() ==> (#[trigger] ports[j]).1 != (#[trigger] ports[k]).1
}

proof fn lemma_free_offer(offers: Seq<u16>, used: int, taken: Set<u16>)
    ensures
        free_offer(offers, used, taken) matches Some(k) ==> used <= k < offers.len() && 0 <= k
            && !taken.contains(offers[k]),
    decreases offers.len() - used,
{
    if 0 <= used < offers.len() && taken.contains(offers[used]) {
        lemma_free_offer(offers, used + 1, taken);
    }
}

pub proof fn lemma_url_port_range(url: Seq<char>)
    ensures
        url_port(url) matches Some(p) ==> 0 <= p <= 65535,
{
    if let Some(p) = cut(url, "://"@) {
        let host_port = before_slash(before_scheme(p.1));
        let port = match rcut(host_port, ":"@) {
            Some(q) => q.1,
            None => host_port,
        };
        let d = number_digits(port);
        if all_digits(d) {
            lemma_digits_value_monotonic(d, d.len() as int);
            assert(d.take(d.len() as int) == d);
        }
    }
}

proof fn lemma_new_service_ports(
    s: ServicePorts,
    services: Seq<(Seq<char>, Seq<char>)>,
    busy: Set<u16>,
    offers: Seq<u16>,
    i: int,
)
    requires
        0 <= i,
    ensures
        ({
            let out = after_services(s, services, busy, offers, i);
            let n = s.resolved.len() as int;
            &&& n <= out.resolved.len()
            &&& out.resolved.take(n) == s.resolved
            &&& are_new_ports(out.resolved, n, s.taken, busy, offers)
        }),
    decreases services.len() - i,
{
    let n = s.resolved.len() as int;
    let out = after_services(s, services, busy, offers, i);
    if i >= services.len() || !s.complete {
        assert(out.resolved.take(n) == s.resolved);
    } else {
        let t = after_service(s, services[i], busy, offers);
        lemma_new_service_ports(t, services, busy, offers, i + 1);
        if t.resolved.len() == n {
            assert(t.resolved == s.resolved);
            assert(t.taken == s.taken);
        } else {
            lemma_free_offer(offers, s.used, s.taken);
            let p = t.resolved[n].1;
            assert(t.resolved == s.resolved.push(t.resolved[n]));
            lemma_url_port_range(services[i].1);
            assert(0 <= p <= 65535);
            assert(!s.taken.contains(p as u16));
            assert(t.taken == s.taken.insert(p as u16));
            assert(out.resolved.take(n) == s.resolved) by {
                assert(out.resolved.take(n + 1).take(n) == out.resolved.take(n));
                assert(t.resolved.take(n) == s.resolved);
            }
            assert(out.resolved[n] == t.resolved[n]) by {
                assert(out.resolved.take(n + 1)[n] == out.resolved[n]);
            }
            if busy.contains(p as u16) {
                let k = free_offer(offers, s.used, s.taken)->0;
                assert(offers[k] == p as u16);
            }
        }
    }
}

/// The ports that services of a new instance get differ from each other and from all that were
/// spoken for before, and each was free or is one that the host offered; the ports of the
/// template's variables stay as they were found.
pub proof fn law_new_service_ports_are_distinct(
    text: Seq<char>,
    resolved: Seq<(Seq<char>, int)>,
    changes: Seq<ChangeModel>,
    reserved: Set<u16>,
    services: Seq<(Seq<char>, Seq<char>)>,
    busy: Set<u16>,
    offers: Seq<u16>,
    k: int,
)
    requires
        ({
            let out = after_services(
                services_start(text, resolved, changes, reserved),
                services,
                busy,
                offers,
                0,
            );
            resolved.len() <= k < out.resolved.len()
        }),
    ensures
        ({
            let out = after_services(
                services_start(text, resolved, changes, reserved),
                services,
                busy,
                offers,
                0,
            ).resolved;
            &&& out.take(resolved.len() as int) == resolved
            &&& forall|j: int| resolved.len() <= j < k ==> (#[trigger] out[j]).1 != out[k].1
            &&& !reserved.contains(out[k].1 as u16)
            &&& !ports_in(resolved).contains(out[k].1 as u16)
            &&& !busy.contains(out[k].1 as u16) || offers.contains(out[k].1 as u16)
        }),
{
    lemma_new_service_ports(
        services_start(text, resolved, changes, reserved),
        services,
        busy,
        offers,
        0,
    );
}

// ---------------------------------------------------------------------------
// The environment of a new instance
// ---------------------------------------------------------------------------

/// The first change from `i` on under the given key.
pub open spec fn change_under(changes: Seq<ChangeModel>, key: Seq<char>, i: int) -> Option<
    ChangeModel,
>
    decreases changes.len() - i,
{
    if i < 0 || i >= changes.len() {
        None
    } else if changes[i].key == key {
        Some(changes[i])
    } else {
        change_under(changes, key, i + 1)
    }
}

/// Whether the example file has a variable of the given upper-case name, in any case.
pub open spec fn example_has(env: Seq<EnvModel>, key: Seq<char>) -> bool {
    exists|i: int| 0 <= i < env.len() && upper((#[trigger] env[i]).key) == key
}

/// Whether an entry under another name has the value, white space aside.
pub open spec fn has_value(env: Seq<EnvModel>, key: Seq<char>, value: Seq<char>) -> bool {
    exists|i: int|
        0 <= i < env.len() && upper((#[trigger] env[i]).key) != key && trimmed(env[i].value)
            == value
}

/// An entry after a port moved: the port itself, or a URL on this machine with it.
pub open spec fn entry_moved(e: EnvModel, from: u16, to: int) -> EnvModel {
    if trimmed(e.value) == decimal(from as nat) {
        EnvModel { value: decimal(to as nat), modified: true, ..e }
    } else if url_port(e.value) == Some(from as int) && is_loopback_url(e.value) {
        with_value(e, with_url_port(e.value, to as nat))
    } else {
        e
    }
}

/// The entry that a described port adds.
pub open spec fn described_entry(key: Seq<char>, port: int) -> EnvModel {
    EnvModel {
        key,
        value: decimal(port as nat),
        comment: Seq::empty(),
        source: "describe"@,
        modified: true,
    }
}

/// The first position from `i` on of an entry with the upper-case key, in any case, or the
/// length.
pub open spec fn place_of(env: Seq<EnvModel>, key: Seq<char>, i: int) -> int
    decreases env.len() - i,
{
    if i < 0 || i >= env.len() || upper(env[i].key) == key {
        i
    } else {
        place_of(env, key, i + 1)
    }
}

/// The entries after one resolved port: a variable of the example takes it; a port that
/// another variable has already adds nothing; a port that moved is carried into the entries
/// that had the old one; else a variable is added.
pub open spec fn after_port(
    env: Seq<EnvModel>,
    example: Seq<EnvModel>,
    changes: Seq<ChangeModel>,
    pair: (Seq<char>, int),
) -> Seq<EnvModel> {
    let value = decimal(pair.1 as nat);
    if example_has(example, pair.0) {
        let k = place_of(env, pair.0, 0);
        if k < env.len() {
            env.update(k, with_value(env[k], value))
        } else {
            env
        }
    } else if has_value(env, pair.0, value) {
        env
    } else {
        match change_under(changes, pair.0, 0) {
            Some(c) => env.map_values(|e: EnvModel| entry_moved(e, c.old_port, pair.1)),
            None => env.push(described_entry(pair.0, pair.1)),
        }
    }
}

/// The entries after the resolved ports from `i` on.
pub open spec fn after_ports(
    env: Seq<EnvModel>,
    example: Seq<EnvModel>,
    changes: Seq<ChangeModel>,
    ports: Seq<(Seq<char>, int)>,
    i: int,
) -> Seq<EnvModel>
    decreases ports.len() - i,
{
    if i < 0 || i >= ports.len() {
        env
    } else {
        after_ports(after_port(env, example, changes, ports[i]), example, changes, ports, i + 1)
    }
}

fn place_in(entries: &Vec<EnvVariable>, key: &str) -> (r: usize)
    ensures
        r == place_of(envs(entries@), key@, 0),
        r <= entries@.len(),
        r < entries@.len() <==> example_has(envs(entries@), key@),
{
    let ghost env = envs(entries@);
    let mut i: usize = 0;
    while i < entries.len()
        invariant
            i <= entries@.len(),
            env == envs(entries@),
            place_of(env, key@, 0) == place_of(env, key@, i as int),
            forall|j: int| 0 <= j < i ==> upper((#[trigger] env[j]).key) != key@,
        decreases entries@.len() - i,
    {
        assert(env[i as int] == entries@[i as int]@);
        if same(to_upper(entries[i].key.as_str()).as_str(), key) {
            return i;
        }
        i = i + 1;
    }
    i
}

fn value_is_there(entries: &Vec<EnvVariable>, key: &str, value: &str) -> (r: bool)
    ensures
        r == has_value(envs(entries@), key@, value@),
{
    let ghost env = envs(entries@);
    let mut i: usize = 0;
    while i < entries.len()
        invariant
            i <= entries@.len(),
            env == envs(entries@),
            forall|j: int|
                0 <= j < i ==> !(upper((#[trigger] env[j]).key) != key@ && trimmed(env[j].value)
                    == value@),
        decreases entries@.len() - i,
    {
        assert(env[i as int] == entries@[i as int]@);
        if !same(to_upper(entries[i].key.as_str()).as_str(), key) && same(
            trim(entries[i].value.as_str()),
            value,
        ) {
            return true;
        }
        i = i + 1;
    }
    false
}

fn find_change_under(changes: &Vec<PortChange>, key: &str) -> (r: Option<u16>)
    ensures
        match change_under(changes_view(changes@), key@, 0) {
            Some(c) => r == Some(c.old_port),
            None => r is None,
        },
{
    let ghost cs = changes_view(changes@);
    let mut i: usize = 0;
    while i < changes.len()
        invariant
            i <= changes@.len(),
            cs == changes_view(changes@),
            change_under(cs, key@, 0) == change_under(cs, key@, i as int),
        decreases changes@.len() - i,
    {
        assert(cs[i as int] == changes@[i as int]@);
        if same(changes[i].key.as_str(), key) {
            return Some(changes[i].old_port);
        }
        i = i + 1;
    }
    None
}

fn move_entries(entries: &mut Vec<EnvVariable>, from: u16, to: u16)
    ensures
        envs(final(entries)@) == envs(old(entries)@).map_values(
            |e: EnvModel| entry_moved(e, from, to as int),
        ),
{
    let ghost start = envs(entries@);
    let old_value = decimal_of(from as u64);
    let mut i: usize = 0;
    while i < entries.len()
        invariant
            i <= entries@.len(),
            start.len() == entries@.len(),
            forall|j: int|
                0 <= j < i ==> (#[trigger] entries@[j])@ == entry_moved(start[j], from, to as int),
            forall|j: int| i <= j < start.len() ==> (#[trigger] entries@[j])@ == start[j],
        decreases entries@.len() - i,
    {
        let mut e = entries[i].duplicate();
        if same(trim(e.value.as_str()), old_value.as_str()) {
            e.value = decimal_of(to as u64);
            e.modified = true;
        } else if let Some(port) = extract_url_port(e.value.as_str()) {
            if port == from && has_loopback_prefix(e.value.as_str()) {
                let url = replace_url_port(e.value.as_str(), to);
                e = set_value(&e, url);
            }
        }
        entries.set(i, e);
        i = i + 1;
    }
}

/// Carries the resolved ports of a new instance into the entries of its example file.
pub fn add_resolved_ports(
    entries: &mut Vec<EnvVariable>,
    resolved: &Vec<(String, u16)>,
    changes: &Vec<PortChange>,
)
    ensures
        envs(final(entries)@) == after_ports(
            envs(old(entries)@),
            envs(old(entries)@),
            changes_view(changes@),
            named_ports(resolved@),
            0,
        ),
{
    let ghost start = envs(entries@);
    let ghost ps = named_ports(resolved@);
    let ghost cs = changes_view(changes@);
    let mut known: Vec<EnvVariable> = Vec::new();
    let mut k: usize = 0;
    while k < entries.len()
        invariant
            k <= entries@.len(),
            known@.len() == k,
            start == envs(entries@),
            forall|j: int| 0 <= j < k ==> (#[trigger] known@[j])@ == start[j],
        decreases entries@.len() - k,
    {
        known.push(entries[k].duplicate());
        k = k + 1;
    }
    assert(envs(known@) == start);
    let mut i: usize = 0;
    while i < resolved.len()
        invariant
            i <= resolved@.len(),
            ps == named_ports(resolved@),
            cs == changes_view(changes@),
            start == envs(known@),
            after_ports(start, start, cs, ps, 0) == after_ports(
                envs(entries@),
                start,
                cs,
                ps,
                i as int,
            ),
        decreases resolved@.len() - i,
    {
        assert(ps[i as int] == (resolved@[i as int].0@, resolved@[i as int].1 as int));
        let ghost env = envs(entries@);
        let key = resolved[i].0.as_str();
        let port: u16 = resolved[i].1;
        let value = decimal_of(port as u64);
        if place_in(&known, key) < known.len() {
            let place: usize = place_in(entries, key);
            if place < entries.len() {
                assert(env[place as int] == entries@[place as int]@);
                let e = set_value(&entries[place], value);
                let ghost model = e@;
                entries.set(place, e);
                assert(envs(entries@) == env.update(place as int, model));
            }
        } else if !value_is_there(entries, key, value.as_str()) {
            match find_change_under(changes, key) {
                Some(from) => {
                    move_entries(entries, from, port);
                },
                None => {
                    let entry = EnvVariable {
                        key: key.to_owned(),
                        value,
                        comment: String::new(),
                        source: "describe".to_owned(),
                        modified: true,
                    };
                    let ghost model = entry@;
                    entries.push(entry);
                    assert(envs(entries@) == env.push(model));
                    assert(model == described_entry(ps[i as int].0, ps[i as int].1));
                },
            }
        }
        i = i + 1;
    }
}

/// The environment that a new instance starts from: that of the example file with the
/// resolved ports, a choice on tracing, and what the vault adds.
pub fn prepared_environment(
    example: Vec<EnvVariable>,
    resolved: &Vec<(String, u16)>,
    changes: &Vec<PortChange>,
    vault: &Vec<EnvVariable>,
) -> (r: Vec<EnvVariable>)
    ensures
        envs(r@) == merged(
            with_tracing_choice(
                after_ports(
                    envs(example@),
                    envs(example@),
                    changes_view(changes@),
                    named_ports(resolved@),
                    0,
                ),
            ),
            envs(vault@),
        ),
{
    let mut entries = example;
    add_resolved_ports(&mut entries, resolved, changes);
    ensure_tracing_choice(&mut entries);
    merge_env_entries(&entries, vault)
}

/// The record of a new instance.
pub open spec fn new_record(
    id: Seq<char>,
    name: Seq<char>,
    template_id: Seq<char>,
    work_dir: Seq<char>,
    env_example: Seq<char>,
    note: Seq<char>,
    now: u64,
) -> InstanceModel {
    InstanceModel {
        id,
        name: trimmed(name),
        template_id,
        status: "configuring"@,
        deployment_mode: "local"@,
        work_dir,
        env_example_path: Some(env_example),
        env_path: None,
        note,
        created_at: now,
        updated_at: now,
        needs_doctor: false,
        pid: None,
        agent_url: None,
        ui_url: None,
        studio_url: None,
        project_name: None,
        lifecycle_version: None,
        service_endpoints: Seq::empty(),
    }
}

/// What a new instance is made from.
pub struct NewInstance {
    pub id: String,
    pub name: String,
    pub template_id: String,
    pub work_dir: String,
    pub env_example_path: String,
    pub note: String,
}

/// Makes the record of a new instance, which is to be configured next.
fn record_of(new: &NewInstance, now: u64) -> (r: InstanceRecord)
    ensures
        r@ == new_record(
            new.id@,
            new.name@,
            new.template_id@,
            new.work_dir@,
            new.env_example_path@,
            new.note@,
            now,
        ),
{
    let shown: Vec<ServiceEndpoint> = Vec::new();
    assert(endpoints(shown@) == Seq::<EndpointModel>::empty());
    InstanceRecord {
        id: new.id.clone(),
        name: trim(new.name.as_str()).to_owned(),
        template_id: new.template_id.clone(),
        status: "configuring".to_owned(),
        deployment_mode: "local".to_owned(),
        work_dir: new.work_dir.clone(),
        env_example_path: Some(new.env_example_path.clone()),
        env_path: None,
        note: new.note.clone(),
        created_at: now,
        updated_at: now,
        needs_doctor: false,
        pid: None,
        agent_url: None,
        ui_url: None,
        studio_url: None,
        project_name: None,
        lifecycle_version: None,
        service_endpoints: shown,
    }
}

/// A new instance with what is shown and written next.
pub struct PreparedInstance {
    pub instance: InstanceRecord,
    /// The environment that is shown.
    pub env: Vec<EnvVariable>,
    /// The lifecycle manifest, where it has to be written.
    pub lifecycle: Option<String>,
    /// All moves of ports, which source files follow.
    pub changes: Vec<PortChange>,
}

/// The ports of a new instance, from those of the variables of its template and, where it has
/// one, its lifecycle manifest.
pub open spec fn prepared_ports(
    manifest: Option<&ManifestText>,
    resolved: Seq<(Seq<char>, int)>,
    changes: Seq<ChangeModel>,
    reserved: Set<u16>,
    busy: Set<u16>,
    offers: Seq<u16>,
) -> ServicePorts {
    match manifest {
        Some(m) => after_services(
            services_start(m.content@, resolved, changes, reserved),
            services_view(m.services@),
            busy,
            offers,
            0,
        ),
        None => services_start(Seq::empty(), resolved, changes, reserved),
    }
}

/// Prepares an instance whose files were made from its template: finds ports for its services,
/// carries them into its manifest and its environment, and makes its record.
pub fn prepare_instance(
    new: &NewInstance,
    example: &str,
    manifest: Option<&ManifestText>,
    resolved: Vec<(String, u16)>,
    changes: Vec<PortChange>,
    reserved: &HashSet<u16>,
    vault: &Vec<EnvVariable>,
    host: &HostPorts,
    now: u64,
) -> (r: Result<PreparedInstance, OffersExhausted>)
    ensures
        ({
            let out = prepared_ports(
                manifest,
                named_ports(resolved@),
                changes_view(changes@),
                reserved@,
                host.busy@,
                host.offers@,
            );
            let entries = env_entries(example@);
            &&& r is Ok <==> out.complete
            &&& r matches Ok(p) ==> {
                &&& p.instance@ == new_record(
                    new.id@,
                    new.name@,
                    new.template_id@,
                    new.work_dir@,
                    new.env_example_path@,
                    new.note@,
                    now,
                )
                &&& envs(p.env@) == merged(
                    with_tracing_choice(
                        after_ports(entries, entries, out.changes, out.resolved, 0),
                    ),
                    envs(vault@),
                )
                &&& opt_view(p.lifecycle) == (match manifest {
                    Some(m) => changed_text(m.content@, out.text),
                    None => None,
                })
                &&& changes_view(p.changes@) == out.changes
            }
        }),
{
    let mut resolved = resolved;
    let mut changes = changes;
    let mut lifecycle: Option<String> = None;
    if let Some(m) = manifest {
        match resolve_service_ports(
            m.content.as_str(),
            &m.services,
            reserved,
            &mut resolved,
            &mut changes,
            host,
        ) {
            Ok(text) => {
                if !same(text.as_str(), m.content.as_str()) {
                    lifecycle = Some(text);
                }
            },
            Err(e) => {
                return Err(e);
            },
        }
    }
    let env = prepared_environment(parse_env(example), &resolved, &changes, vault);
    Ok(PreparedInstance { instance: record_of(new, now), env, lifecycle, changes })
}

/// What a new instance comes to when Docker is needed and not ready: it counts as failed.
pub fn fail_prepared(instance: &mut InstanceRecord, now: u64) -> (r: String)
    ensures
        final(instance)@ == (InstanceModel {
            status: "failed"@,
            updated_at: now,
            ..old(instance)@
        }),
        r@ == old(instance)@.name
            + " instance startup process exited, please check lifecycle logs"@,
{
    instance.status = "failed".to_owned();
    instance.updated_at = now;
    concat2(
        instance.name.as_str(),
        " instance startup process exited, please check lifecycle logs",
    )
}

} // verus!
