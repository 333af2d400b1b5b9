//! Laws of port plans: which port a service gets, and what is told of it.

use crate::command_laws::lemma_first_value;
use crate::models::EnvModel;
use crate::move_laws::{address, is_path, lemma_address_parts};
use crate::port_plans::{
    claim, empty_plan, free_offer, is_covered, lifecycle_plan, plan_with, planned_from,
    planned_port, rewritten_from,
    service_key, user_port, wanted_port, PortPlan,
};
use crate::text::{
    decimal, law_decimal_parses_back, lemma_replaced_absent, matches_at, parsed, replaced,
    replaced_from, trimmed, upper,
};
use crate::urls::{url_port, with_url_port};
use crate::vault_laws::{is_own_host, is_web_scheme};
use vstd::prelude::*;

verus! {

/// Whether a port is the one at a place of a plan, or at one before it.
pub open spec fn is_given_before(plan: PortPlan, j: int, port: u16) -> bool {
    exists|i: int| 0 <= i < j && (#[trigger] plan.map[i]).1 == port
}

/// Whether a plan tells that a port moved.
pub open spec fn tells_move(plan: PortPlan, key: Seq<char>, from: u16, to: int) -> bool {
    exists|m: int|
        0 <= m < plan.changes.len() && (#[trigger] plan.changes[m]).key == key
            && plan.changes[m].old_port == from && plan.changes[m].new_port == to
}

/// Whether a plan gives, at a place, a variable the port that is wanted, where that is free; and
/// one on offer, with the move told, where it is not.
pub open spec fn gives(
    plan: PortPlan,
    j: int,
    key: Seq<char>,
    wanted: u16,
    reserved: Set<u16>,
    busy: Set<u16>,
    offers: Seq<u16>,
) -> bool {
    &&& 0 <= j < plan.map.len()
    &&& plan.map[j].0 == key
    &&& if busy.contains(wanted) || reserved.contains(wanted) || is_given_before(plan, j, wanted) {
        &&& 0 <= plan.map[j].1 <= 65535
        &&& offers.contains(plan.map[j].1 as u16)
        &&& !reserved.contains(plan.map[j].1 as u16)
        &&& !is_given_before(plan, j, plan.map[j].1 as u16)
        &&& tells_move(plan, key, wanted, plan.map[j].1)
    } else {
        plan.map[j].1 == wanted
    }
}

/// Whether the taken ports are the reserved ones and those of a plan.
spec fn are_taken(taken: Set<u16>, reserved: Set<u16>, plan: PortPlan) -> bool {
    forall|p: u16| #[trigger]
        taken.contains(p) <==> reserved.contains(p) || is_given_before(
            plan,
            plan.map.len() as int,
            p,
        )
}

pub proof fn lemma_free_offer(offers: Seq<u16>, used: int, taken: Set<u16>)
    requires
        0 <= used,
    ensures
        free_offer(offers, used, taken) matches Some(k) ==> used <= k < offers.len()
            && !taken.contains(offers[k]),
    decreases offers.len() - used,
{
    if used < offers.len() && taken.contains(offers[used]) {
        lemma_free_offer(offers, used + 1, taken);
    }
}

/// What is planned once stays in the plan.
proof fn lemma_plan_grows(
    services: Seq<(Seq<char>, Seq<char>)>,
    env: Seq<EnvModel>,
    i: int,
    taken: Set<u16>,
    busy: Set<u16>,
    offers: Seq<u16>,
    used: int,
    plan: PortPlan,
)
    requires
        0 <= i,
    ensures
        ({
            let end = planned_from(services, env, i, taken, busy, offers, used, plan);
            &&& plan.map.len() <= end.map.len()
            &&& plan.map == end.map.take(plan.map.len() as int)
            &&& plan.changes.len() <= end.changes.len()
            &&& plan.changes == end.changes.take(plan.changes.len() as int)
        }),
    decreases services.len() - i,
{
    let end = planned_from(services, env, i, taken, busy, offers, used, plan);
    if i < services.len() {
        match wanted_port(services[i], env) {
            None => {
                lemma_plan_grows(services, env, i + 1, taken, busy, offers, used, plan);
            },
            Some(w) => match claim(w as u16, taken, busy, offers, used) {
                None => {
                    assert(plan.map == plan.map.take(plan.map.len() as int));
                    assert(plan.changes == plan.changes.take(plan.changes.len() as int));
                },
                Some(p) => {
                    let more = plan_with(
                        plan,
                        service_key(services[i].0),
                        w as u16,
                        p.0,
                        p.1 != used,
                    );
                    lemma_plan_grows(
                        services,
                        env,
                        i + 1,
                        taken.insert(p.0),
                        busy,
                        offers,
                        p.1,
                        more,
                    );
                    assert(more.map == end.map.take(more.map.len() as int));
                    assert(plan.map == more.map.take(plan.map.len() as int));
                    assert(plan.map == end.map.take(plan.map.len() as int));
                    assert(plan.changes == more.changes.take(plan.changes.len() as int));
                    assert(plan.changes == end.changes.take(plan.changes.len() as int));
                },
            },
        }
    } else {
        assert(plan.map == plan.map.take(plan.map.len() as int));
        assert(plan.changes == plan.changes.take(plan.changes.len() as int));
    }
}

/// A step that claims a port keeps what is known of the taken ones.
proof fn lemma_taken_grow(
    taken: Set<u16>,
    reserved: Set<u16>,
    plan: PortPlan,
    key: Seq<char>,
    wanted: u16,
    port: u16,
    moved: bool,
)
    requires
        are_taken(taken, reserved, plan),
    ensures
        are_taken(
            taken.insert(port),
            reserved,
            plan_with(plan, key, wanted, port, moved),
        ),
{
    let more = plan_with(plan, key, wanted, port, moved);
    let n = plan.map.len() as int;
    assert forall|p: u16| #[trigger]
        taken.insert(port).contains(p) <==> reserved.contains(p) || is_given_before(
            more,
            more.map.len() as int,
            p,
        ) by {
        assert(taken.contains(p) <==> reserved.contains(p) || is_given_before(plan, n, p));
        if is_given_before(plan, n, p) {
            let i = choose|i: int| 0 <= i < n && (#[trigger] plan.map[i]).1 == p;
            assert(more.map[i] == plan.map[i]);
        }
        if is_given_before(more, n + 1, p) {
            let i = choose|i: int| 0 <= i < n + 1 && (#[trigger] more.map[i]).1 == p;
            if i < n {
                assert(more.map[i] == plan.map[i]);
            }
        }
        if p == port {
            assert(more.map[n].1 == p);
        }
    }
}

proof fn lemma_service_planned(
    services: Seq<(Seq<char>, Seq<char>)>,
    env: Seq<EnvModel>,
    i: int,
    taken: Set<u16>,
    busy: Set<u16>,
    offers: Seq<u16>,
    used: int,
    plan: PortPlan,
    reserved: Set<u16>,
    k: int,
    wanted: u16,
) -> (j: int)
    requires
        0 <= i <= k < services.len(),
        0 <= used,
        are_taken(taken, reserved, plan),
        wanted_port(services[k], env) == Some(wanted as int),
        planned_from(services, env, i, taken, busy, offers, used, plan).complete,
    ensures
        gives(
            planned_from(services, env, i, taken, busy, offers, used, plan),
            j,
            service_key(services[k].0),
            wanted,
            reserved,
            busy,
            offers,
        ),
    decreases k - i,
{
    let end = planned_from(services, env, i, taken, busy, offers, used, plan);
    match wanted_port(services[i], env) {
        None => lemma_service_planned(
            services,
            env,
            i + 1,
            taken,
            busy,
            offers,
            used,
            plan,
            reserved,
            k,
            wanted,
        ),
        Some(w) => {
            let c = claim(w as u16, taken, busy, offers, used);
            if c is None {
                0
            } else {
                let p = c->0;
                let key = service_key(services[i].0);
                let more = plan_with(plan, key, w as u16, p.0, p.1 != used);
                lemma_free_offer(offers, used, taken);
                lemma_taken_grow(taken, reserved, plan, key, w as u16, p.0, p.1 != used);
                if i < k {
                    lemma_service_planned(
                        services,
                        env,
                        i + 1,
                        taken.insert(p.0),
                        busy,
                        offers,
                        p.1,
                        more,
                        reserved,
                        k,
                        wanted,
                    )
                } else {
                    let n = plan.map.len() as int;
                    lemma_plan_grows(
                        services,
                        env,
                        i + 1,
                        taken.insert(p.0),
                        busy,
                        offers,
                        p.1,
                        more,
                    );
                    assert(end.map.take(n + 1) == more.map);
                    assert(end.map[n] == more.map[n]);
                    assert forall|x: u16|
                        is_given_before(end, n, x) <==> is_given_before(plan, n, x) by {
                        assert forall|m: int| 0 <= m < n implies #[trigger] end.map[m]
                            == plan.map[m] by {
                            assert(end.map[m] == end.map.take(n + 1)[m]);
                            assert(more.map[m] == plan.map[m]);
                        }
                        if is_given_before(end, n, x) {
                            let m = choose|m: int| 0 <= m < n && (#[trigger] end.map[m]).1 == x;
                            assert(plan.map[m].1 == x);
                        }
                        if is_given_before(plan, n, x) {
                            let m = choose|m: int| 0 <= m < n && (#[trigger] plan.map[m]).1 == x;
                            assert(end.map[m].1 == x);
                        }
                    }
                    assert(taken.contains(wanted) <==> reserved.contains(wanted)
                        || is_given_before(plan, n, wanted));
                    if busy.contains(wanted) || taken.contains(wanted) {
                        let m = plan.changes.len() as int;
                        assert(end.changes.take(m + 1)[m] == more.changes[m]);
                        assert(end.changes[m] == more.changes[m]);
                        assert(tells_move(end, key, wanted, p.0 as int));
                        assert(offers[p.1 - 1] == p.0);
                        assert(!taken.contains(p.0));
                    }
                    n
                }
            }
        },
    }
}

/// The port that is wanted for a service is the one that its own variable, its name in upper case
/// and `_PORT`, has first; without such a variable it is the one of its address. In a complete
/// plan the service has that port where it is neither busy nor reserved nor given before, and
/// else one on offer that is not, with the move told.
pub proof fn law_services_are_planned(
    services: Seq<(Seq<char>, Seq<char>)>,
    env: Seq<EnvModel>,
    reserved: Set<u16>,
    busy: Set<u16>,
    offers: Seq<u16>,
    k: int,
    m: int,
    wanted: u16,
    scheme: Seq<char>,
    host: Seq<char>,
    port: u16,
    path: Seq<char>,
)
    requires
        lifecycle_plan(services, env, reserved, busy, offers).complete,
        0 <= k < services.len(),
        is_web_scheme(scheme) && is_own_host(host) && is_path(path),
        services[k].1 == address(scheme, host, port as nat, path),
        port > 0,
        wanted > 0,
        0 <= m <= env.len(),
        forall|j: int|
            0 <= j < m ==> upper((#[trigger] env[j]).key) != upper(services[k].0) + "_PORT"@,
        if m < env.len() {
            upper(env[m].key) == upper(services[k].0) + "_PORT"@ && trimmed(env[m].value)
                == decimal(wanted as nat)
        } else {
            wanted == port && forall|j: int|
                0 <= j < env.len() ==> parsed(trimmed((#[trigger] env[j]).value), 65535) != Some(
                    port as int,
                )
        },
    ensures
        exists|j: int| #[trigger]
            gives(
                lifecycle_plan(services, env, reserved, busy, offers),
                j,
                upper(services[k].0) + "_PORT"@,
                wanted,
                reserved,
                busy,
                offers,
            ),
{
    let key = upper(services[k].0) + "_PORT"@;
    lemma_address_parts(scheme, host, port as nat, path);
    lemma_first_value(env, key, 0, m);
    law_decimal_parses_back(wanted as nat, 65535);
    assert(wanted_port(services[k], env) == Some(wanted as int)) by {
        if m == env.len() {
            assert(user_port(env, key) is None);
            assert(!is_covered(env, key, port as int));
        } else {
            assert(user_port(env, key) == Some(wanted as int));
        }
    }
    let start = empty_plan();
    assert(are_taken(reserved, reserved, start));
    let j = lemma_service_planned(
        services,
        env,
        0,
        reserved,
        busy,
        offers,
        0,
        start,
        reserved,
        k,
        wanted,
    );
}

proof fn lemma_same_services(
    s: Seq<(Seq<char>, Seq<char>)>,
    i: int,
    t: Seq<(Seq<char>, Seq<char>)>,
    j: int,
    env: Seq<EnvModel>,
    taken: Set<u16>,
    busy: Set<u16>,
    offers: Seq<u16>,
    used: int,
    plan: PortPlan,
)
    requires
        0 <= i <= s.len(),
        0 <= j <= t.len(),
        s.skip(i) == t.skip(j),
    ensures
        planned_from(s, env, i, taken, busy, offers, used, plan) == planned_from(
            t,
            env,
            j,
            taken,
            busy,
            offers,
            used,
            plan,
        ),
    decreases s.len() - i,
{
    assert(s.skip(i).len() == s.len() - i);
    assert(t.skip(j).len() == t.len() - j);
    if i < s.len() {
        assert(s.skip(i)[0] == s[i]);
        assert(t.skip(j)[0] == t[j]);
        assert(s[i] == t[j]);
        assert(s.skip(i + 1) == s.skip(i).skip(1));
        assert(t.skip(j + 1) == t.skip(j).skip(1));
        match wanted_port(s[i], env) {
            None => lemma_same_services(s, i + 1, t, j + 1, env, taken, busy, offers, used, plan),
            Some(w) => match claim(w as u16, taken, busy, offers, used) {
                None => {},
                Some(p) => lemma_same_services(
                    s,
                    i + 1,
                    t,
                    j + 1,
                    env,
                    taken.insert(p.0),
                    busy,
                    offers,
                    p.1,
                    plan_with(
                        plan,
                        service_key(s[i].0),
                        w as u16,
                        p.0,
                        p.1 != used,
                    ),
                ),
            },
        }
    }
}

/// A service whose port another variable has already, and which has no variable of its own, is
/// left to that variable: the plan is that of the other services.
pub proof fn law_ports_with_a_variable_are_left_to_it(
    service: (Seq<char>, Seq<char>),
    rest: Seq<(Seq<char>, Seq<char>)>,
    env: Seq<EnvModel>,
    reserved: Set<u16>,
    busy: Set<u16>,
    offers: Seq<u16>,
    m: int,
    scheme: Seq<char>,
    host: Seq<char>,
    port: u16,
    path: Seq<char>,
)
    requires
        is_web_scheme(scheme) && is_own_host(host) && is_path(path),
        service.1 == address(scheme, host, port as nat, path),
        0 <= m < env.len(),
        trimmed(env[m].value) == decimal(port as nat),
        forall|j: int|
            0 <= j < env.len() ==> upper((#[trigger] env[j]).key) != upper(service.0) + "_PORT"@,
    ensures
        lifecycle_plan(seq![service] + rest, env, reserved, busy, offers) == lifecycle_plan(
            rest,
            env,
            reserved,
            busy,
            offers,
        ),
{
    let key = upper(service.0) + "_PORT"@;
    lemma_address_parts(scheme, host, port as nat, path);
    lemma_first_value(env, key, 0, env.len() as int);
    law_decimal_parses_back(port as nat, 65535);
    assert(wanted_port(service, env) is None) by {
        assert(user_port(env, key) is None);
        assert(upper(env[m].key) != key);
        assert(is_covered(env, key, port as int));
    }
    let all = seq![service] + rest;
    assert(all.skip(1) == rest.skip(0));
    lemma_same_services(
        all,
        1,
        rest,
        0,
        env,
        reserved,
        busy,
        offers,
        0,
        empty_plan(),
    );
}

proof fn lemma_same_rewriting(
    s: Seq<(Seq<char>, Seq<char>)>,
    i: int,
    t: Seq<(Seq<char>, Seq<char>)>,
    j: int,
    content: Seq<char>,
    map: Seq<(Seq<char>, int)>,
)
    requires
        0 <= i <= s.len(),
        0 <= j <= t.len(),
        s.skip(i) == t.skip(j),
    ensures
        rewritten_from(content, s, map, i) == rewritten_from(content, t, map, j),
    decreases s.len() - i,
{
    assert(s.skip(i).len() == s.len() - i);
    assert(t.skip(j).len() == t.len() - j);
    if i < s.len() {
        assert(s.skip(i)[0] == s[i]);
        assert(t.skip(j)[0] == t[j]);
        assert(s[i] == t[j]);
        assert(s.skip(i + 1) == s.skip(i).skip(1));
        assert(t.skip(j + 1) == t.skip(j).skip(1));
        let url = s[i].1;
        let planned = planned_port(map, service_key(s[i].0), 0);
        let next = if url_port(url) is Some && url_port(url)->0 != 0 && planned is Some && planned
            != url_port(url) {
            replaced(content, url, with_url_port(url, planned->0 as nat))
        } else {
            content
        };
        lemma_same_rewriting(s, i + 1, t, j + 1, next, map);
    }
}

proof fn lemma_planned_port(map: Seq<(Seq<char>, int)>, key: Seq<char>, i: int, k: int)
    requires
        0 <= i <= k < map.len(),
        map[k].0 == key,
        forall|j: int| i <= j < k ==> (#[trigger] map[j]).0 != key,
    ensures
        planned_port(map, key, i) == Some(map[k].1),
    decreases k - i,
{
    if i < k {
        lemma_planned_port(map, key, i + 1, k);
    }
}

proof fn lemma_kept_up_to(s: Seq<char>, old: Seq<char>, new: Seq<char>, i: int, n: int)
    requires
        0 <= i <= n < s.len(),
        old.len() > 0,
        forall|j: int| i <= j < n ==> !(#[trigger] matches_at(s, old, j)),
    ensures
        replaced_from(s, old, new, i) == s.subrange(i, n) + replaced_from(s, old, new, n),
    decreases n - i,
{
    if i < n {
        lemma_kept_up_to(s, old, new, i + 1, n);
        assert(!matches_at(s, old, i));
        assert(s.subrange(i, n) == seq![s[i]] + s.subrange(i + 1, n));
        assert(seq![s[i]] + (s.subrange(i + 1, n) + replaced_from(s, old, new, n)) == s.subrange(
            i,
            n,
        ) + replaced_from(s, old, new, n));
    } else {
        assert(s.subrange(i, n) + replaced_from(s, old, new, n) == replaced_from(s, old, new, n));
    }
}

/// A text that occurs once is exchanged there.
pub proof fn lemma_exchanged_once(a: Seq<char>, old: Seq<char>, b: Seq<char>, new: Seq<char>)
    requires
        old.len() > 0,
        forall|j: int| j != a.len() ==> !(#[trigger] matches_at(a + old + b, old, j)),
    ensures
        replaced(a + old + b, old, new) == a + new + b,
{
    let s = a + old + b;
    let n = a.len() as int;
    assert(s.subrange(n, n + old.len()) == old);
    assert(matches_at(s, old, n));
    lemma_kept_up_to(s, old, new, 0, n);
    lemma_replaced_absent(s, old, new, n + old.len());
    assert(s.skip(n + old.len()) == b);
    assert(s.subrange(0, n) == a);
    assert(a + (new + b) == a + new + b);
}

/// The address of a service, which stands once in a text, takes the port that the plan gives the
/// service; scheme, host, path and the text around it stay. Then the other services follow.
pub proof fn law_planned_ports_are_written(
    service: (Seq<char>, Seq<char>),
    rest: Seq<(Seq<char>, Seq<char>)>,
    map: Seq<(Seq<char>, int)>,
    k: int,
    before: Seq<char>,
    after: Seq<char>,
    scheme: Seq<char>,
    host: Seq<char>,
    port: u16,
    path: Seq<char>,
)
    requires
        is_web_scheme(scheme) && is_own_host(host) && is_path(path),
        service.1 == address(scheme, host, port as nat, path),
        port > 0,
        0 <= k < map.len(),
        map[k].0 == upper(service.0) + "_PORT"@,
        map[k].1 >= 0,
        forall|j: int| 0 <= j < k ==> (#[trigger] map[j]).0 != upper(service.0) + "_PORT"@,
        forall|j: int|
            j != before.len() ==> !(#[trigger] matches_at(
                before + service.1 + after,
                service.1,
                j,
            )),
    ensures
        rewritten_from(before + service.1 + after, seq![service] + rest, map, 0)
            == rewritten_from(
            before + address(scheme, host, map[k].1 as nat, path) + after,
            rest,
            map,
            0,
        ),
{
    let key = upper(service.0) + "_PORT"@;
    let url = service.1;
    lemma_address_parts(scheme, host, port as nat, path);
    lemma_planned_port(map, key, 0, k);
    let new = address(scheme, host, map[k].1 as nat, path);
    assert(with_url_port(url, map[k].1 as nat) == new);
    assert(url.len() > 0);
    lemma_exchanged_once(before, url, after, new);
    let all = seq![service] + rest;
    assert(all.skip(1) == rest.skip(0));
    lemma_same_rewriting(all, 1, rest, 0, before + new + after, map);
    if map[k].1 == port {
        assert(new == url);
    }
}

} // verus!
