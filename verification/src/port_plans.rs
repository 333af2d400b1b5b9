//! Ports that are chosen before an instance is created or started.

use crate::environment::{
    env_entries, lifecycle_follows, restore_non_loopback_url_defaults, restored,
    services_ports_from, services_view, sync_env_urls_from_lifecycle,
};
use crate::models::{changes_view, envs, ChangeModel, EnvModel, EnvVariable, PortChange};
use crate::ports::{port_list, resolution, resolve_port_conflicts_inner, HostPorts, OffersExhausted};
use crate::process_ports::{find_env_value, first_value};
use crate::text::{
    concat2, concat5, cut, decimal, decimal_of, ends, ends_with, join, joined, lemma_find_from,
    lines, lines_of, lower, opt_str, parse_u16, parsed, port_num, replace, replaced, same,
    split_once, texts, to_lower, to_upper, trim, trimmed, upper,
};
use crate::urls::{extract_url_port, replace_url_port, url_port, with_url_port};
use std::collections::HashSet;
use vstd::prelude::*;
use vstd::string::*;

verus! {

// ---------------------------------------------------------------------------
// Claiming one port
// ---------------------------------------------------------------------------

/// The first offer from `used` on that is not taken.
pub open spec fn free_offer(offers: Seq<u16>, used: int, taken: Set<u16>) -> Option<int>
    decreases offers.len() - used,
{
    if used < 0 || used >= offers.len() {
        None
    } else if taken.contains(offers[used]) {
        free_offer(offers, used + 1, taken)
    } else {
        Some(used)
    }
}

/// The port for a service that would like to have `preferred`: that port if it is neither
/// busy nor taken, else the next free offer; with the number of offers used up then.
pub open spec fn claim(
    preferred: u16,
    taken: Set<u16>,
    busy: Set<u16>,
    offers: Seq<u16>,
    used: int,
) -> Option<(u16, int)> {
    if !busy.contains(preferred) && !taken.contains(preferred) {
        Some((preferred, used))
    } else {
        match free_offer(offers, used, taken) {
            Some(k) => Some((offers[k], k + 1)),
            None => None,
        }
    }
}

fn claim_port(
    preferred: u16,
    reserved: &HashSet<u16>,
    claimed: &HashSet<u16>,
    host: &HostPorts,
    used: usize,
) -> (r: Option<(u16, usize)>)
    requires
        used <= host.offers@.len(),
    ensures
        ({
            let taken = reserved@.union(claimed@);
            match r {
                Some(p) => claim(preferred, taken, host.busy@, host.offers@, used as int) == Some(
                    (p.0, p.1 as int),
                ) && p.1 <= host.offers@.len(),
                None => claim(preferred, taken, host.busy@, host.offers@, used as int) is None,
            }
        }),
{
    broadcast use vstd::std_specs::hash::group_hash_axioms;

    let ghost taken = reserved@.union(claimed@);
    if !host.busy.contains(&preferred) && !reserved.contains(&preferred) && !claimed.contains(
        &preferred,
    ) {
        return Some((preferred, used));
    }
    let mut k: usize = used;
    while k < host.offers.len() && (reserved.contains(&host.offers[k]) || claimed.contains(
        &host.offers[k],
    ))
        invariant
            k <= host.offers@.len(),
            free_offer(host.offers@, used as int, taken) == free_offer(
                host.offers@,
                k as int,
                taken,
            ),
        decreases host.offers@.len() - k,
    {
        k = k + 1;
    }
    if k == host.offers.len() {
        return None;
    }
    Some((host.offers[k], k + 1))
}

/// A claimed port was not taken before.
proof fn lemma_claim_is_free(
    preferred: u16,
    taken: Set<u16>,
    busy: Set<u16>,
    offers: Seq<u16>,
    used: int,
)
    requires
        0 <= used,
    ensures
        claim(preferred, taken, busy, offers, used) matches Some(p) ==> !taken.contains(p.0)
            && used <= p.1,
    decreases offers.len() - used,
{
    if used < offers.len() && taken.contains(offers[used]) {
        lemma_claim_is_free(preferred, taken, busy, offers, used + 1);
    }
}

/// The ports chosen for a list of services, what moved, and whether the offers were enough.
#[verifier::ext_equal]
pub struct PortPlan {
    pub map: Seq<(Seq<char>, int)>,
    pub changes: Seq<ChangeModel>,
    pub complete: bool,
}

/// The plan with a port claimed for one more key, by moving to an offer or not.
pub open spec fn plan_with(
    plan: PortPlan,
    key: Seq<char>,
    preferred: u16,
    port: u16,
    moved: bool,
) -> PortPlan {
    PortPlan {
        map: plan.map.push((key, port as int)),
        changes: if moved {
            plan.changes.push(ChangeModel { key, old_port: preferred, new_port: port })
        } else {
            plan.changes
        },
        complete: plan.complete,
    }
}

// ---------------------------------------------------------------------------
// Ports of a lifecycle
// ---------------------------------------------------------------------------

/// The variable that holds the port of a service.
pub open spec fn service_key(name: Seq<char>) -> Seq<char> {
    upper(name) + "_PORT"@
}

/// The port that the user gave a service, if it is one above zero.
pub open spec fn user_port(env: Seq<EnvModel>, key: Seq<char>) -> Option<int> {
    match first_value(env, key, 0) {
        Some(v) => match parsed(trimmed(v), 65535) {
            Some(p) => if p > 0 {
                Some(p)
            } else {
                None
            },
            None => None,
        },
        None => None,
    }
}

/// Whether an entry under another name holds the port.
pub open spec fn is_covered(env: Seq<EnvModel>, key: Seq<char>, port: int) -> bool {
    exists|i: int|
        0 <= i < env.len() && upper((#[trigger] env[i]).key) != key && parsed(
            trimmed(env[i].value),
            65535,
        ) == Some(port)
}

/// The port that a service would like to have: the user's, else that of its URL unless
/// another variable holds it. A service without a port in its URL wants none.
pub open spec fn wanted_port(service: (Seq<char>, Seq<char>), env: Seq<EnvModel>) -> Option<int> {
    let key = service_key(service.0);
    match url_port(service.1) {
        None => None,
        Some(d) => if d == 0 {
            None
        } else if user_port(env, key) is Some {
            user_port(env, key)
        } else if is_covered(env, key, d) {
            None
        } else {
            Some(d)
        },
    }
}

fn entry_covers(env: &Vec<EnvVariable>, key: &str, port: u16) -> (r: bool)
    ensures
        r == is_covered(envs(env@), key@, port as int),
{
    let ghost es = envs(env@);
    let mut i: usize = 0;
    while i < env.len()
        invariant
            i <= env@.len(),
            es == envs(env@),
            forall|j: int|
                0 <= j < i ==> !(upper((#[trigger] es[j]).key) != key@ && parsed(
                    trimmed(es[j].value),
                    65535,
                ) == Some(port as int)),
        decreases env@.len() - i,
    {
        assert(es[i as int] == env@[i as int]@);
        if !same(to_upper(env[i].key.as_str()).as_str(), key) {
            if let Some(p) = parse_u16(trim(env[i].value.as_str())) {
                if p == port {
                    assert(upper(es[i as int].key) != key@ && parsed(
                        trimmed(es[i as int].value),
                        65535,
                    ) == Some(port as int));
                    return true;
                }
            }
        }
        i = i + 1;
    }
    false
}

fn port_wanted(name: &str, url: &str, env: &Vec<EnvVariable>) -> (r: Option<u16>)
    ensures
        port_num(r) == wanted_port((name@, url@), envs(env@)),
{
    let key = concat2(to_upper(name).as_str(), "_PORT");
    let default: u16 = match extract_url_port(url) {
        Some(p) => p,
        None => {
            return None;
        },
    };
    if default == 0 {
        return None;
    }
    if let Some(value) = find_env_value(env, key.as_str()) {
        if let Some(p) = parse_u16(trim(value)) {
            if p > 0 {
                return Some(p);
            }
        }
    }
    if entry_covers(env, key.as_str(), default) {
        return None;
    }
    Some(default)
}

/// The plan after the services from `i` on.
pub open spec fn planned_from(
    services: Seq<(Seq<char>, Seq<char>)>,
    env: Seq<EnvModel>,
    i: int,
    taken: Set<u16>,
    busy: Set<u16>,
    offers: Seq<u16>,
    used: int,
    plan: PortPlan,
) -> PortPlan
    decreases services.len() - i,
{
    if i < 0 || i >= services.len() {
        plan
    } else {
        match wanted_port(services[i], env) {
            None => planned_from(services, env, i + 1, taken, busy, offers, used, plan),
            Some(w) => match claim(w as u16, taken, busy, offers, used) {
                None => PortPlan { complete: false, ..plan },
                Some(p) => planned_from(
                    services,
                    env,
                    i + 1,
                    taken.insert(p.0),
                    busy,
                    offers,
                    p.1,
                    plan_with(plan, service_key(services[i].0), w as u16, p.0, p.1 != used),
                ),
            },
        }
    }
}

/// A plan that chose nothing yet.
pub open spec fn empty_plan() -> PortPlan {
    PortPlan { map: Seq::empty(), changes: Seq::empty(), complete: true }
}

/// The ports of the services of a lifecycle.
pub open spec fn lifecycle_plan(
    services: Seq<(Seq<char>, Seq<char>)>,
    env: Seq<EnvModel>,
    reserved: Set<u16>,
    busy: Set<u16>,
    offers: Seq<u16>,
) -> PortPlan {
    planned_from(services, env, 0, reserved, busy, offers, 0, empty_plan())
}

/// The first port under a key, from `i` on.
pub open spec fn planned_port(map: Seq<(Seq<char>, int)>, key: Seq<char>, i: int) -> Option<int>
    decreases map.len() - i,
{
    if i < 0 || i >= map.len() {
        None
    } else if map[i].0 == key {
        Some(map[i].1)
    } else {
        planned_port(map, key, i + 1)
    }
}

/// The manifest with the URLs of the services from `i` on exchanged for those with the
/// planned ports, where these differ.
pub open spec fn rewritten_from(
    content: Seq<char>,
    services: Seq<(Seq<char>, Seq<char>)>,
    map: Seq<(Seq<char>, int)>,
    i: int,
) -> Seq<char>
    decreases services.len() - i,
{
    if i < 0 || i >= services.len() {
        content
    } else {
        let url = services[i].1;
        let planned = planned_port(map, service_key(services[i].0), 0);
        rewritten_from(
            if url_port(url) is Some && url_port(url)->0 != 0 && planned is Some && planned
                != url_port(url) {
                replaced(content, url, with_url_port(url, planned->0 as nat))
            } else {
                content
            },
            services,
            map,
            i + 1,
        )
    }
}

/// What resolving the ports of a lifecycle gives: the rewritten manifest, what moved, and the
/// chosen ports under their variables.
pub struct LifecyclePortPlan {
    pub content: String,
    pub changes: Vec<PortChange>,
    pub port_map: Vec<(String, u16)>,
}

fn find_planned(map: &Vec<(String, u16)>, key: &str) -> (r: Option<u16>)
    ensures
        port_num(r) == planned_port(port_list(map@), key@, 0),
{
    let ghost ps = port_list(map@);
    let mut i: usize = 0;
    while i < map.len()
        invariant
            i <= map@.len(),
            ps == port_list(map@),
            planned_port(ps, key@, 0) == planned_port(ps, key@, i as int),
        decreases map@.len() - i,
    {
        assert(ps[i as int] == (map@[i as int].0@, map@[i as int].1 as int));
        if same(map[i].0.as_str(), key) {
            return Some(map[i].1);
        }
        i = i + 1;
    }
    None
}

fn rewrite_urls(content: &str, services: &Vec<(String, String)>, map: &Vec<(String, u16)>) -> (r:
    String)
    ensures
        r@ == rewritten_from(content@, services_view(services@), port_list(map@), 0),
{
    let ghost ss = services_view(services@);
    let ghost ps = port_list(map@);
    let mut updated = content.to_owned();
    let mut i: usize = 0;
    while i < services.len()
        invariant
            i <= services@.len(),
            ss == services_view(services@),
            ps == port_list(map@),
            rewritten_from(content@, ss, ps, 0) == rewritten_from(updated@, ss, ps, i as int),
        decreases services@.len() - i,
    {
        assert(ss[i as int] == (services@[i as int].0@, services@[i as int].1@));
        let url = services[i].1.as_str();
        if let Some(default) = extract_url_port(url) {
            if default != 0 {
                let key = concat2(to_upper(services[i].0.as_str()).as_str(), "_PORT");
                if let Some(port) = find_planned(map, key.as_str()) {
                    if port != default {
                        proof {
                            lemma_port_url_is_not_empty(url@);
                        }
                        let to = replace_url_port(url, port);
                        updated = replace(updated.as_str(), url, to.as_str());
                    }
                }
            }
        }
        i = i + 1;
    }
    updated
}

proof fn lemma_port_url_is_not_empty(url: Seq<char>)
    requires
        url_port(url) is Some,
    ensures
        url.len() > 0,
{
    reveal_strlit("://");
    lemma_find_from(url, "://"@, 0);
}

/// Chooses the ports of the services of a lifecycle: the user's or the default, unless it is
/// reserved, in use or chosen already; carries them into the manifest's URLs.
pub fn resolve_lifecycle_ports(
    content: &str,
    services: &Vec<(String, String)>,
    reserved_ports: &HashSet<u16>,
    env_entries: &Vec<EnvVariable>,
    host: &HostPorts,
) -> (r: Result<LifecyclePortPlan, OffersExhausted>)
    ensures
        ({
            let plan = lifecycle_plan(
                services_view(services@),
                envs(env_entries@),
                reserved_ports@,
                host.busy@,
                host.offers@,
            );
            &&& r is Ok <==> plan.complete
            &&& r matches Ok(p) ==> {
                &&& port_list(p.port_map@) == plan.map
                &&& changes_view(p.changes@) == plan.changes
                &&& p.content@ == rewritten_from(
                    content@,
                    services_view(services@),
                    plan.map,
                    0,
                )
            }
        }),
{
    broadcast use vstd::std_specs::hash::group_hash_axioms;

    let ghost ss = services_view(services@);
    let ghost env = envs(env_entries@);
    let ghost whole = lifecycle_plan(ss, env, reserved_ports@, host.busy@, host.offers@);
    let mut port_map: Vec<(String, u16)> = Vec::new();
    let mut changes: Vec<PortChange> = Vec::new();
    let mut claimed: HashSet<u16> = HashSet::new();
    assert(reserved_ports@.union(claimed@) == reserved_ports@);
    let mut used: usize = 0;
    let mut i: usize = 0;
    assert(port_list(port_map@) == Seq::<(Seq<char>, int)>::empty());
    assert(changes_view(changes@) == Seq::<ChangeModel>::empty());
    while i < services.len()
        invariant
            i <= services@.len(),
            used <= host.offers@.len(),
            ss == services_view(services@),
            env == envs(env_entries@),
            whole == planned_from(
                ss,
                env,
                i as int,
                reserved_ports@.union(claimed@),
                host.busy@,
                host.offers@,
                used as int,
                (PortPlan {
                    map: port_list(port_map@),
                    changes: changes_view(changes@),
                    complete: true,
                }),
            ),
        decreases services@.len() - i,
    {
        assert(ss[i as int] == (services@[i as int].0@, services@[i as int].1@));
        let name = services[i].0.as_str();
        if let Some(preferred) = port_wanted(name, services[i].1.as_str(), env_entries) {
            let (port, next): (u16, usize) = match claim_port(
                preferred,
                reserved_ports,
                &claimed,
                host,
                used,
            ) {
                Some(p) => p,
                None => {
                    return Err(OffersExhausted {  });
                },
            };
            let moved: bool = next != used;
            used = next;
            let ghost taken = reserved_ports@.union(claimed@);
            claimed.insert(port);
            assert(reserved_ports@.union(claimed@) == taken.insert(port));
            let key = concat2(to_upper(name).as_str(), "_PORT");
            let ghost before = changes_view(changes@);
            if moved {
                let change = PortChange { key: key.clone(), old_port: preferred, new_port: port };
                let ghost model = change@;
                changes.push(change);
                assert(changes_view(changes@) == before.push(model));
            }
            let ghost mapped = port_list(port_map@);
            let ghost pair = (key@, port as int);
            port_map.push((key, port));
            assert(port_list(port_map@) == mapped.push(pair));
        }
        i = i + 1;
    }
    let updated = rewrite_urls(content, services, &port_map);
    Ok(LifecyclePortPlan { content: updated, changes, port_map })
}

/// The planned ports differ from each other and from every port that was reserved.
pub proof fn law_planned_ports_are_distinct(
    services: Seq<(Seq<char>, Seq<char>)>,
    env: Seq<EnvModel>,
    reserved: Set<u16>,
    busy: Set<u16>,
    offers: Seq<u16>,
    j: int,
    k: int,
)
    requires
        0 <= j < k < lifecycle_plan(services, env, reserved, busy, offers).map.len(),
    ensures
        ({
            let map = lifecycle_plan(services, env, reserved, busy, offers).map;
            &&& map[j].1 != map[k].1
            &&& !reserved.contains(map[j].1 as u16)
            &&& !reserved.contains(map[k].1 as u16)
        }),
{
    lemma_planned_distinct(services, env, 0, reserved, reserved, busy, offers, 0, empty_plan());
}

/// Whether the ports of a plan differ from each other and were not reserved.
spec fn map_is_distinct(map: Seq<(Seq<char>, int)>, reserved: Set<u16>) -> bool {
    &&& forall|j: int|
        0 <= j < map.len() ==> 0 <= (#[trigger] map[j]).1 <= 65535 && !reserved.contains(
            map[j].1 as u16,
        )
    &&& forall|j: int, k: int|
        0 <= j < k < map.len() ==> (#[trigger] map[j]).1 != (#[trigger] map[k]).1
}

/// Whether all ports of a plan are taken.
spec fn map_is_taken(map: Seq<(Seq<char>, int)>, taken: Set<u16>) -> bool {
    forall|j: int| 0 <= j < map.len() ==> taken.contains((#[trigger] map[j]).1 as u16)
}

proof fn lemma_planned_distinct(
    services: Seq<(Seq<char>, Seq<char>)>,
    env: Seq<EnvModel>,
    i: int,
    taken: Set<u16>,
    reserved: Set<u16>,
    busy: Set<u16>,
    offers: Seq<u16>,
    used: int,
    plan: PortPlan,
)
    requires
        0 <= i,
        0 <= used,
        map_is_distinct(plan.map, reserved),
        map_is_taken(plan.map, taken),
        reserved.subset_of(taken),
    ensures
        map_is_distinct(
            planned_from(services, env, i, taken, busy, offers, used, plan).map,
            reserved,
        ),
    decreases services.len() - i,
{
    if i < services.len() {
        match wanted_port(services[i], env) {
            None => {
                lemma_planned_distinct(
                    services,
                    env,
                    i + 1,
                    taken,
                    reserved,
                    busy,
                    offers,
                    used,
                    plan,
                );
            },
            Some(w) => {
                lemma_claim_is_free(w as u16, taken, busy, offers, used);
                match claim(w as u16, taken, busy, offers, used) {
                    None => {},
                    Some(p) => {
                        let next = plan_with(plan, service_key(services[i].0), w as u16, p.0, p.1 != used);
                        assert(map_is_taken(next.map, taken.insert(p.0))) by {
                            assert forall|j: int| 0 <= j < next.map.len() implies taken.insert(
                                p.0,
                            ).contains((#[trigger] next.map[j]).1 as u16) by {
                                if j < plan.map.len() {
                                    assert(next.map[j] == plan.map[j]);
                                }
                            }
                        }
                        assert(map_is_distinct(next.map, reserved)) by {
                            assert forall|j: int, k: int|
                                0 <= j < k < next.map.len() implies (#[trigger] next.map[j]).1 != (
                            #[trigger] next.map[k]).1 by {
                                assert(next.map[j] == plan.map[j]);
                                if k < plan.map.len() {
                                    assert(next.map[k] == plan.map[k]);
                                } else {
                                    assert(taken.contains(plan.map[j].1 as u16));
                                }
                            }
                            assert forall|j: int| 0 <= j < next.map.len() implies 0 <= (
                            #[trigger] next.map[j]).1 <= 65535 && !reserved.contains(
                                next.map[j].1 as u16,
                            ) by {
                                if j < plan.map.len() {
                                    assert(next.map[j] == plan.map[j]);
                                }
                            }
                        }
                        lemma_planned_distinct(
                            services,
                            env,
                            i + 1,
                            taken.insert(p.0),
                            reserved,
                            busy,
                            offers,
                            p.1,
                            next,
                        );
                    },
                }
            },
        }
    }
}

// ---------------------------------------------------------------------------
// Ports of a template description
// ---------------------------------------------------------------------------

/// The port above zero that a line `name_port: number` describes.
pub open spec fn described_port(line: Seq<char>) -> Option<(Seq<char>, int)> {
    match cut(trimmed(line), ":"@) {
        None => None,
        Some(p) => {
            let key = trimmed(p.0);
            let port = parsed(trimmed(p.1), 65535);
            if ends(lower(key), "_port"@) && port is Some && port->0 > 0 {
                Some((key, port->0))
            } else {
                None
            }
        },
    }
}

/// The position from `i` on of the pair with the given key, or the length.
pub open spec fn key_from(ports: Seq<(Seq<char>, int)>, key: Seq<char>, i: int) -> int
    decreases ports.len() - i,
{
    if i < 0 || i >= ports.len() || ports[i].0 == key {
        i
    } else {
        key_from(ports, key, i + 1)
    }
}

/// The ports with one more: a port under the same key gives way.
pub open spec fn with_port(ports: Seq<(Seq<char>, int)>, pair: (Seq<char>, int)) -> Seq<
    (Seq<char>, int),
> {
    let k = key_from(ports, pair.0, 0);
    if k < ports.len() {
        ports.update(k, pair)
    } else {
        ports.push(pair)
    }
}

/// The ports that the lines from `i` on describe, added to those before.
pub open spec fn described_from(ls: Seq<Seq<char>>, i: int, ports: Seq<(Seq<char>, int)>) -> Seq<
    (Seq<char>, int),
>
    decreases ls.len() - i,
{
    if i < 0 || i >= ls.len() {
        ports
    } else {
        described_from(
            ls,
            i + 1,
            match described_port(ls[i]) {
                Some(p) => with_port(ports, p),
                None => ports,
            },
        )
    }
}

fn put_port(ports: &mut Vec<(String, u16)>, key: &str, port: u16)
    ensures
        port_list(final(ports)@) == with_port(port_list(old(ports)@), (key@, port as int)),
{
    let ghost ps = port_list(ports@);
    let mut i: usize = 0;
    while i < ports.len()
        invariant
            i <= ports@.len(),
            ps == port_list(ports@),
            key_from(ps, key@, 0) == key_from(ps, key@, i as int),
        decreases ports@.len() - i,
    {
        assert(ps[i as int] == (ports@[i as int].0@, ports@[i as int].1 as int));
        if same(ports[i].0.as_str(), key) {
            ports.set(i, (key.to_owned(), port));
            assert(port_list(ports@) == ps.update(i as int, (key@, port as int)));
            return;
        }
        i = i + 1;
    }
    ports.push((key.to_owned(), port));
    assert(port_list(ports@) == ps.push((key@, port as int)));
}

/// Reads the ports that a template description lists as `name_port: number`.
pub fn parse_describe_ports(output: &str) -> (r: Vec<(String, u16)>)
    ensures
        port_list(r@) == described_from(lines(output@), 0, Seq::empty()),
{
    let ls = lines_of(output);
    let ghost cs = lines(output@);
    let mut ports: Vec<(String, u16)> = Vec::new();
    let mut i: usize = 0;
    assert(port_list(ports@) == Seq::<(Seq<char>, int)>::empty());
    while i < ls.len()
        invariant
            i <= ls@.len(),
            texts(ls@) == cs,
            described_from(cs, 0, Seq::empty()) == described_from(
                cs,
                i as int,
                port_list(ports@),
            ),
        decreases ls@.len() - i,
    {
        assert(cs[i as int] == ls@[i as int]@);
        if let Some(p) = split_once(trim(ls[i].as_str()), ":") {
            let key = trim(p.0);
            if ends_with(to_lower(key).as_str(), "_port") {
                if let Some(port) = parse_u16(trim(p.1)) {
                    if port > 0 {
                        put_port(&mut ports, key, port);
                    }
                }
            }
        }
        i = i + 1;
    }
    ports
}

/// The plan for the described ports from `i` on.
pub open spec fn describe_planned_from(
    defaults: Seq<(Seq<char>, int)>,
    i: int,
    taken: Set<u16>,
    busy: Set<u16>,
    offers: Seq<u16>,
    used: int,
    plan: PortPlan,
) -> PortPlan
    decreases defaults.len() - i,
{
    if i < 0 || i >= defaults.len() {
        plan
    } else {
        let preferred = defaults[i].1 as u16;
        match claim(preferred, taken, busy, offers, used) {
            None => PortPlan { complete: false, ..plan },
            Some(p) => {
                let key = upper(defaults[i].0);
                let full = plan_with(plan, key, preferred, p.0, p.1 != used);
                describe_planned_from(
                    defaults,
                    i + 1,
                    taken.insert(p.0),
                    busy,
                    offers,
                    p.1,
                    PortPlan { map: with_port(plan.map, (key, p.0 as int)), ..full },
                )
            },
        }
    }
}

/// The plan for the ports that a description lists, each under its upper-case key.
pub open spec fn describe_plan(
    output: Seq<char>,
    reserved: Set<u16>,
    busy: Set<u16>,
    offers: Seq<u16>,
) -> PortPlan {
    describe_planned_from(
        described_from(lines(output), 0, Seq::empty()),
        0,
        reserved,
        busy,
        offers,
        0,
        empty_plan(),
    )
}

/// Chooses the ports that a template description lists: each default, unless it is reserved,
/// in use or chosen already.
pub fn resolve_describe_ports(
    describe_output: &str,
    reserved: &HashSet<u16>,
    host: &HostPorts,
) -> (r: Result<(Vec<(String, u16)>, Vec<PortChange>), OffersExhausted>)
    ensures
        ({
            let plan = describe_plan(describe_output@, reserved@, host.busy@, host.offers@);
            &&& r is Ok <==> plan.complete
            &&& r matches Ok(p) ==> port_list(p.0@) == plan.map && changes_view(p.1@)
                == plan.changes
        }),
{
    broadcast use vstd::std_specs::hash::group_hash_axioms;

    let defaults = parse_describe_ports(describe_output);
    let ghost ds = port_list(defaults@);
    let ghost whole = describe_plan(describe_output@, reserved@, host.busy@, host.offers@);
    let mut resolved: Vec<(String, u16)> = Vec::new();
    let mut changes: Vec<PortChange> = Vec::new();
    let mut claimed: HashSet<u16> = HashSet::new();
    assert(reserved@.union(claimed@) == reserved@);
    let mut used: usize = 0;
    let mut i: usize = 0;
    assert(port_list(resolved@) == Seq::<(Seq<char>, int)>::empty());
    assert(changes_view(changes@) == Seq::<ChangeModel>::empty());
    while i < defaults.len()
        invariant
            i <= defaults@.len(),
            used <= host.offers@.len(),
            ds == port_list(defaults@),
            whole == describe_planned_from(
                ds,
                i as int,
                reserved@.union(claimed@),
                host.busy@,
                host.offers@,
                used as int,
                (PortPlan {
                    map: port_list(resolved@),
                    changes: changes_view(changes@),
                    complete: true,
                }),
            ),
        decreases defaults@.len() - i,
    {
        assert(ds[i as int] == (defaults@[i as int].0@, defaults@[i as int].1 as int));
        let preferred: u16 = defaults[i].1;
        let (port, next): (u16, usize) = match claim_port(
            preferred,
            reserved,
            &claimed,
            host,
            used,
        ) {
            Some(p) => p,
            None => {
                return Err(OffersExhausted {  });
            },
        };
        let moved: bool = next != used;
        used = next;
        let ghost taken = reserved@.union(claimed@);
        claimed.insert(port);
        assert(reserved@.union(claimed@) == taken.insert(port));
        let key = to_upper(defaults[i].0.as_str());
        let ghost before = changes_view(changes@);
        if moved {
            let change = PortChange { key: key.clone(), old_port: preferred, new_port: port };
            let ghost model = change@;
            changes.push(change);
            assert(changes_view(changes@) == before.push(model));
        }
        put_port(&mut resolved, key.as_str(), port);
        i = i + 1;
    }
    Ok((resolved, changes))
}

// ---------------------------------------------------------------------------
// Checking ports again
// ---------------------------------------------------------------------------

/// The lines that tell what moved.
pub open spec fn change_lines(changes: Seq<ChangeModel>) -> Seq<Seq<char>> {
    changes.map_values(
        |c: ChangeModel|
            c.key + ": "@ + decimal(c.old_port as nat) + " -> "@ + decimal(c.new_port as nat),
    )
}

/// Lists the moved ports, one to a line.
pub fn port_change_details(changes: &Vec<PortChange>) -> (r: String)
    ensures
        r@ == joined(change_lines(changes_view(changes@)), "\n"@),
{
    let ghost cs = changes_view(changes@);
    let mut out: Vec<String> = Vec::new();
    let mut i: usize = 0;
    while i < changes.len()
        invariant
            i <= changes@.len(),
            cs == changes_view(changes@),
            texts(out@) == change_lines(cs).take(i as int),
        decreases changes@.len() - i,
    {
        assert(cs[i as int] == changes@[i as int]@);
        let ghost before = texts(out@);
        let line = concat5(
            changes[i].key.as_str(),
            ": ",
            decimal_of(changes[i].old_port as u64).as_str(),
            " -> ",
            decimal_of(changes[i].new_port as u64).as_str(),
        );
        out.push(line);
        assert(texts(out@) == before.push(line@));
        i = i + 1;
    }
    assert(change_lines(cs).take(cs.len() as int) == change_lines(cs));
    join(&out, "\n")
}

/// The entries of an instance after a check of its ports: conflicts resolved, addresses of
/// other hosts restored to the template's defaults, then aligned with the lifecycle.
pub open spec fn rechecked(
    env: Seq<EnvModel>,
    example: Option<Seq<char>>,
    services: Seq<(Seq<char>, Seq<char>)>,
) -> Seq<EnvModel> {
    let back = match example {
        Some(text) => env.map_values(|e: EnvModel| restored(e, env_entries(text))),
        None => env,
    };
    back.map_values(|e: EnvModel| lifecycle_follows(e, services_ports_from(services, 0)))
}

/// Checks the ports of an instance before it is deployed. Ports of other instances conflict
/// even when these do not run. `example` is the template's example environment and `services`
/// are those of the lifecycle, each where there are any.
pub fn recheck_instance_ports(
    entries: &mut Vec<EnvVariable>,
    reserved: &HashSet<u16>,
    host: &HostPorts,
    example: Option<&str>,
    services: &Vec<(String, String)>,
) -> (r: Result<Vec<PortChange>, OffersExhausted>)
    ensures
        ({
            let outcome = resolution(
                envs(old(entries)@),
                reserved@,
                Set::empty(),
                host.busy@,
                host.offers@,
            );
            &&& r is Ok <==> outcome.complete
            &&& r matches Ok(changes) ==> changes_view(changes@) == outcome.changes && envs(
                final(entries)@,
            ) == rechecked(
                outcome.env,
                opt_str(example),
                services_view(services@),
            )
            &&& r is Err ==> envs(final(entries)@) == outcome.env
        }),
{
    broadcast use vstd::std_specs::hash::group_hash_axioms;

    let nothing: HashSet<u16> = HashSet::new();
    let changes = match resolve_port_conflicts_inner(entries, reserved, &nothing, host) {
        Ok(changes) => changes,
        Err(e) => {
            return Err(e);
        },
    };
    if let Some(text) = example {
        restore_non_loopback_url_defaults(text, entries);
    }
    sync_env_urls_from_lifecycle(services, entries);
    Ok(changes)
}

/// Whether a checked environment has to be written back.
pub fn needs_writing(changes: &Vec<PortChange>, entries: &Vec<EnvVariable>) -> (r: bool)
    ensures
        r == (changes@.len() > 0 || exists|i: int|
            0 <= i < entries@.len() && (#[trigger] entries@[i]).modified),
{
    if changes.len() > 0 {
        return true;
    }
    let mut i: usize = 0;
    while i < entries.len()
        invariant
            i <= entries@.len(),
            forall|j: int| 0 <= j < i ==> !(#[trigger] entries@[j]).modified,
        decreases entries@.len() - i,
    {
        if entries[i].modified {
            return true;
        }
        i = i + 1;
    }
    false
}

} // verus!
