//! Laws of what an instance is described as: which service gives which address, and which
//! variable gives the port of a service.

use crate::lifecycle::{
    current_url, described, endpoint_of, env_port, env_value, first_env_port, is_frontend,
    is_gateway, is_studio, listed_services, port_keys, ranked_from, service_rank, urls_after,
};
use crate::models::{EndpointModel, EnvModel, InstanceModel};
use crate::text::{lower, parsed, trimmed, upper};
use crate::urls::{
    law_port_keeps_parts, law_set_port_is_read_back, url_parts, url_port,
};
use vstd::prelude::*;
use vstd::string::*;

verus! {

/// The names of the roles differ from each other.
proof fn lemma_roles(name: Seq<char>)
    ensures
        service_rank(name) == 0 <==> lower(name) == "gateway"@ || lower(name) == "agent"@,
        service_rank(name) == 1 <==> lower(name) == "app"@ || lower(name) == "frontend"@ || lower(
            name,
        ) == "web"@,
        service_rank(name) == 2 <==> lower(name) == "copilotkit"@ || lower(name) == "runtime"@,
        service_rank(name) == 3 <==> lower(name) == "studio"@ || lower(name) == "langsmith"@,
        is_gateway(name) <==> service_rank(name) == 0,
        is_frontend(name) <==> service_rank(name) == 1,
        is_studio(name) <==> service_rank(name) == 3,
        0 <= service_rank(name) <= 4,
{
    reveal_strlit("gateway");
    reveal_strlit("agent");
    reveal_strlit("app");
    reveal_strlit("frontend");
    reveal_strlit("web");
    reveal_strlit("copilotkit");
    reveal_strlit("runtime");
    reveal_strlit("studio");
    reveal_strlit("langsmith");
    assert("gateway"@[0] != "runtime"@[0]);
    assert("gateway"@.len() == 7 && "runtime"@.len() == 7 && "agent"@.len() == 5);
    assert("app"@.len() == 3 && "frontend"@.len() == 8 && "web"@.len() == 3);
    assert("copilotkit"@.len() == 10 && "studio"@.len() == 6 && "langsmith"@.len() == 9);
}

/// The address of a role among those of agent, frontend and studio.
spec fn address_of(
    urls: (Option<Seq<char>>, Option<Seq<char>>, Option<Seq<char>>),
    role: int,
) -> Option<Seq<char>> {
    if role == 0 {
        urls.0
    } else if role == 1 {
        urls.1
    } else {
        urls.2
    }
}

proof fn lemma_last_of_role(
    listed: Seq<(Seq<char>, Seq<char>)>,
    i: int,
    known: (Option<Seq<char>>, Option<Seq<char>>, Option<Seq<char>>),
    role: int,
    m: int,
)
    requires
        0 <= i,
        role == 0 || role == 1 || role == 3,
        forall|j: int| i <= j < listed.len() && j > m ==> service_rank((#[trigger] listed[j]).0) != role,
        i <= m ==> m < listed.len() && service_rank(listed[m].0) == role,
    ensures
        address_of(urls_after(listed, i, known.0, known.1, known.2), role) == (if i <= m {
            Some(listed[m].1)
        } else {
            address_of(known, role)
        }),
    decreases listed.len() - i,
{
    if i < listed.len() {
        let s = listed[i];
        lemma_roles(s.0);
        let next = if service_rank(s.0) == 0 {
            (Some(s.1), known.1, known.2)
        } else if service_rank(s.0) == 1 {
            (known.0, Some(s.1), known.2)
        } else if service_rank(s.0) == 3 {
            (known.0, known.1, Some(s.1))
        } else {
            known
        };
        lemma_last_of_role(listed, i + 1, next, role, m);
    }
}

/// The last service of a rank is the last in the manifest that has the rank and an address.
proof fn lemma_ranked(
    services: Seq<(Seq<char>, Seq<char>)>,
    env: Seq<EnvModel>,
    rank: int,
    i: int,
    k: int,
)
    requires
        0 <= i,
        forall|j: int|
            i <= j < services.len() && j > k && service_rank((#[trigger] services[j]).0) == rank
                ==> trimmed(services[j].1).len() == 0,
        i <= k ==> k < services.len() && service_rank(services[k].0) == rank && trimmed(
            services[k].1,
        ).len() > 0,
    ensures
        i <= k ==> ranked_from(services, env, rank, i).len() > 0 && ranked_from(
            services,
            env,
            rank,
            i,
        ).last() == (services[k].0, current_url(services[k], env)),
        i > k ==> ranked_from(services, env, rank, i).len() == 0,
    decreases services.len() - i,
{
    if i < services.len() {
        lemma_ranked(services, env, rank, i + 1, k);
    }
}

proof fn lemma_ranks(services: Seq<(Seq<char>, Seq<char>)>, env: Seq<EnvModel>, rank: int, i: int)
    requires
        0 <= i,
    ensures
        forall|j: int|
            0 <= j < ranked_from(services, env, rank, i).len() ==> service_rank(
                (#[trigger] ranked_from(services, env, rank, i)[j]).0,
            ) == rank,
    decreases services.len() - i,
{
    if i < services.len() {
        lemma_ranks(services, env, rank, i + 1);
        let rest = ranked_from(services, env, rank, i + 1);
        let all = ranked_from(services, env, rank, i);
        assert forall|j: int| 0 <= j < all.len() implies service_rank((#[trigger] all[j]).0)
            == rank by {
            if all.len() == rest.len() {
                assert(all[j] == rest[j]);
            } else if j > 0 {
                assert(all[j] == rest[j - 1]);
            }
        }
    }
}

proof fn lemma_address_of_role(
    services: Seq<(Seq<char>, Seq<char>)>,
    env: Seq<EnvModel>,
    known: (Option<Seq<char>>, Option<Seq<char>>, Option<Seq<char>>),
    role: int,
    k: int,
)
    requires
        role == 0 || role == 1 || role == 3,
        forall|j: int|
            0 <= j < services.len() && j > k && service_rank((#[trigger] services[j]).0) == role
                ==> trimmed(services[j].1).len() == 0,
        0 <= k ==> k < services.len() && service_rank(services[k].0) == role && trimmed(
            services[k].1,
        ).len() > 0,
    ensures
        address_of(
            urls_after(listed_services(services, env), 0, known.0, known.1, known.2),
            role,
        ) == (if 0 <= k {
            Some(current_url(services[k], env))
        } else {
            address_of(known, role)
        }),
{
    let r0 = ranked_from(services, env, 0, 0);
    let r1 = ranked_from(services, env, 1, 0);
    let r2 = ranked_from(services, env, 2, 0);
    let r3 = ranked_from(services, env, 3, 0);
    let r4 = ranked_from(services, env, 4, 0);
    lemma_ranks(services, env, 0, 0);
    lemma_ranks(services, env, 1, 0);
    lemma_ranks(services, env, 2, 0);
    lemma_ranks(services, env, 3, 0);
    lemma_ranks(services, env, 4, 0);
    lemma_ranked(services, env, role, 0, k);
    let listed = r0 + r1 + r2 + r3 + r4;
    assert(listed == listed_services(services, env));
    let a = r0.len() as int;
    let b = a + r1.len();
    let c = b + r2.len();
    let d = c + r3.len();
    let m = if k < 0 {
        -1
    } else if role == 0 {
        a - 1
    } else if role == 1 {
        b - 1
    } else {
        d - 1
    };
    assert forall|j: int| 0 <= j < listed.len() && j > m implies service_rank(
        (#[trigger] listed[j]).0,
    ) != role by {
        if j < a {
            assert(listed[j] == r0[j]);
        } else if j < b {
            assert(listed[j] == r1[j - a]);
        } else if j < c {
            assert(listed[j] == r2[j - b]);
        } else if j < d {
            assert(listed[j] == r3[j - c]);
        } else {
            assert(listed[j] == r4[j - d]);
        }
    }
    if k >= 0 {
        let r = ranked_from(services, env, role, 0);
        assert(listed[m] == r.last());
    }
    lemma_last_of_role(listed, 0, known, role, m);
}

/// The last service in the manifest that has an address and is named gateway or agent gives the
/// address of the agent; the last one named app, frontend or web that of the frontend; and the
/// last one named studio or langsmith that of the studio. Names count in any case. Where there
/// is none, what was known of the role stays.
pub proof fn law_services_give_their_addresses(
    instance: InstanceModel,
    version: u32,
    name: Seq<char>,
    services: Seq<(Seq<char>, Seq<char>)>,
    env: Seq<EnvModel>,
    k: int,
)
    requires
        -1 <= k < services.len(),
        k >= 0 ==> trimmed(services[k].1).len() > 0,
    ensures
        ({
            let after = described(instance, version, name, services, env);
            let named = |j: int, a: Seq<char>, b: Seq<char>, c: Seq<char>|
                lower(services[j].0) == a || lower(services[j].0) == b || lower(services[j].0) == c;
            let last = |a: Seq<char>, b: Seq<char>, c: Seq<char>|
                (k >= 0 ==> named(k, a, b, c)) && forall|j: int|
                    k < j < services.len() && trimmed((#[trigger] services[j]).1).len() > 0
                        ==> !named(j, a, b, c);
            &&& last("gateway"@, "agent"@, "agent"@) ==> after.agent_url == (if k >= 0 {
                Some(current_url(services[k], env))
            } else {
                instance.agent_url
            })
            &&& last("app"@, "frontend"@, "web"@) ==> after.ui_url == (if k >= 0 {
                Some(current_url(services[k], env))
            } else {
                instance.ui_url
            })
            &&& last("studio"@, "langsmith"@, "langsmith"@) ==> after.studio_url == (if k >= 0 {
                Some(current_url(services[k], env))
            } else {
                instance.studio_url
            })
        }),
{
    let known = (instance.agent_url, instance.ui_url, instance.studio_url);
    let named = |j: int, a: Seq<char>, b: Seq<char>, c: Seq<char>|
        lower(services[j].0) == a || lower(services[j].0) == b || lower(services[j].0) == c;
    let last = |a: Seq<char>, b: Seq<char>, c: Seq<char>|
        (k >= 0 ==> named(k, a, b, c)) && forall|j: int|
            k < j < services.len() && trimmed((#[trigger] services[j]).1).len() > 0 ==> !named(
                j,
                a,
                b,
                c,
            );
    if k >= 0 {
        lemma_roles(services[k].0);
    }
    assert forall|j: int| 0 <= j < services.len() implies (service_rank(
        (#[trigger] services[j]).0,
    ) == 0 <==> named(j, "gateway"@, "agent"@, "agent"@)) && (service_rank(services[j].0) == 1
        <==> named(j, "app"@, "frontend"@, "web"@)) && (service_rank(services[j].0) == 3 <==> named(
        j,
        "studio"@,
        "langsmith"@,
        "langsmith"@,
    )) by {
        lemma_roles(services[j].0);
    }
    if last("gateway"@, "agent"@, "agent"@) {
        lemma_address_of_role(services, env, known, 0, k);
    }
    if last("app"@, "frontend"@, "web"@) {
        lemma_address_of_role(services, env, known, 1, k);
    }
    if last("studio"@, "langsmith"@, "langsmith"@) {
        lemma_address_of_role(services, env, known, 3, k);
    }
}

// ---------------------------------------------------------------------------
// Ports of services
// ---------------------------------------------------------------------------

/// The variables that are customary for the port of a service, the first choice first; last
/// comes the one that is called like the service.
pub open spec fn customary_variables(name: Seq<char>) -> Seq<Seq<char>> {
    let n = lower(name);
    let own = seq![upper(name) + "_PORT"@];
    if n == "app"@ || n == "frontend"@ || n == "web"@ {
        seq!["FRONTEND_PORT"@, "APP_PORT"@, "WEB_PORT"@] + own
    } else if n == "gateway"@ || n == "agent"@ {
        seq![
            "BUB_AG_UI_PORT"@,
            "AG_UI_PORT"@,
            "GATEWAY_PORT"@,
            "AGENT_PORT"@,
            "BACKEND_PORT"@,
        ] + own
    } else if n == "copilotkit"@ || n == "runtime"@ {
        seq!["COPILOTKIT_PORT"@, "RUNTIME_PORT"@] + own
    } else if n == "backend"@ || n == "langgraph"@ {
        seq!["BACKEND_PORT"@, "LANGGRAPH_PORT"@, "API_PORT"@] + own
    } else if n == "ctx"@ || n == "contextseek"@ {
        seq!["CTX_SERVER_PORT"@, "CONTEXTSEEK_PORT"@] + own
    } else if n == "studio"@ || n == "langsmith"@ {
        seq!["STUDIO_PORT"@, "LANGSMITH_PORT"@] + own
    } else if n == "phoenix"@ {
        seq!["PHOENIX_PORT"@] + own
    } else {
        own
    }
}

/// Whether a value is the notation of a port above zero.
pub open spec fn is_port_value(value: Seq<char>) -> bool {
    parsed(trimmed(value), 65535) matches Some(p) && p > 0
}

proof fn lemma_env_value(env: Seq<EnvModel>, key: Seq<char>, v: int)
    requires
        v < env.len(),
        v >= 0 ==> env[v].key == key,
        forall|j: int| 0 <= j < env.len() && j > v ==> (#[trigger] env[j]).key != key,
    ensures
        env_value(env, key) == (if v >= 0 {
            Some(env[v].value)
        } else {
            None
        }),
    decreases env.len(),
{
    if env.len() > 0 && env.last().key != key {
        lemma_env_value(env.drop_last(), key, v);
    }
}

proof fn lemma_no_port_value(env: Seq<EnvModel>, key: Seq<char>)
    requires
        forall|j: int|
            0 <= j < env.len() && (#[trigger] env[j]).key == key ==> !is_port_value(env[j].value),
    ensures
        env_value(env, key) matches Some(value) ==> !is_port_value(value),
    decreases env.len(),
{
    if env.len() > 0 && env.last().key != key {
        lemma_no_port_value(env.drop_last(), key);
    }
}

proof fn lemma_first_port(keys: Seq<Seq<char>>, env: Seq<EnvModel>, i: int, k: int)
    requires
        0 <= i <= k <= keys.len(),
        forall|j: int, m: int|
            i <= j < k && 0 <= m < env.len() && #[trigger] keys[j] == (#[trigger] env[m]).key
                ==> !is_port_value(env[m].value),
        k < keys.len() ==> (env_value(env, keys[k]) matches Some(value) && is_port_value(value)),
    ensures
        first_env_port(keys, env, i) == (if k < keys.len() {
            parsed(trimmed(env_value(env, keys[k])->0), 65535)
        } else {
            None
        }),
    decreases k - i,
{
    if i < k {
        lemma_no_port_value(env, keys[i]);
        lemma_first_port(keys, env, i + 1, k);
    }
}

/// The address of a service has the port of the first of its customary variables that holds one,
/// whatever port the manifest names, and is else as the manifest has it. Of several entries with
/// one key the last counts.
pub proof fn law_services_take_their_ports(
    name: Seq<char>,
    url: Seq<char>,
    env: Seq<EnvModel>,
    k: int,
    v: int,
)
    requires
        ({
            let keys = customary_variables(name);
            &&& 0 <= k <= keys.len()
            &&& forall|j: int, m: int|
                0 <= j < k && 0 <= m < env.len() && #[trigger] keys[j] == (#[trigger] env[m]).key
                    ==> !is_port_value(env[m].value)
            &&& k < keys.len() ==> 0 <= v < env.len() && env[v].key == keys[k] && is_port_value(
                env[v].value,
            ) && forall|m: int| v < m < env.len() ==> (#[trigger] env[m]).key != keys[k]
        }),
    ensures
        ({
            let now = current_url((name, url), env);
            let port = parsed(trimmed(env[v].value), 65535)->0;
            &&& k == customary_variables(name).len() ==> now == url
            &&& k < customary_variables(name).len() && url_parts(url) is Some ==> {
                &&& url_parts(now) == url_parts(url)
                &&& url_parts(url)->0.tail.len() == 0 || url_parts(url)->0.tail[0] == '/'
                    ==> url_port(now) == Some(port)
            }
            &&& k < customary_variables(name).len() ==> env_port(name, env) == Some(port)
        }),
{
    let keys = customary_variables(name);
    assert(keys == port_keys(name));
    if k < keys.len() {
        lemma_env_value(env, keys[k], v);
    }
    lemma_first_port(keys, env, 0, k);
    if k < keys.len() {
        let port = parsed(trimmed(env[v].value), 65535)->0;
        if url_parts(url) is Some {
            law_port_keeps_parts(url, port as nat);
            let tail = url_parts(url)->0.tail;
            if tail.len() == 0 || tail[0] == '/' {
                law_set_port_is_read_back(url, port as nat);
            }
        }
    }
}

// ---------------------------------------------------------------------------
// The list of services
// ---------------------------------------------------------------------------

proof fn lemma_listed_once(
    services: Seq<(Seq<char>, Seq<char>)>,
    env: Seq<EnvModel>,
    rank: int,
    i: int,
    k: int,
) -> (m: int)
    requires
        0 <= i <= k < services.len(),
        service_rank(services[k].0) == rank,
        trimmed(services[k].1).len() > 0,
    ensures
        0 <= m < ranked_from(services, env, rank, i).len(),
        ranked_from(services, env, rank, i)[m] == (services[k].0, current_url(services[k], env)),
    decreases k - i,
{
    if i == k {
        0
    } else {
        let m = lemma_listed_once(services, env, rank, i + 1, k);
        if trimmed(services[i].1).len() > 0 && service_rank(services[i].0) == rank {
            m + 1
        } else {
            m
        }
    }
}

/// How many services from `i` on have an address.
pub open spec fn addressed(services: Seq<(Seq<char>, Seq<char>)>, i: int) -> int
    decreases services.len() - i,
{
    if i < 0 || i >= services.len() {
        0
    } else {
        addressed(services, i + 1) + if trimmed(services[i].1).len() > 0 {
            1int
        } else {
            0int
        }
    }
}

proof fn lemma_listed_count(services: Seq<(Seq<char>, Seq<char>)>, env: Seq<EnvModel>, i: int)
    requires
        0 <= i,
    ensures
        ranked_from(services, env, 0, i).len() + ranked_from(services, env, 1, i).len()
            + ranked_from(services, env, 2, i).len() + ranked_from(services, env, 3, i).len()
            + ranked_from(services, env, 4, i).len() == addressed(services, i),
    decreases services.len() - i,
{
    if i < services.len() {
        lemma_listed_count(services, env, i + 1);
        lemma_roles(services[i].0);
    }
}

/// Where services of a name stand in the list: the agent first, then the frontend, the runtime,
/// the studio, and all others.
pub open spec fn place_of(name: Seq<char>) -> int {
    let n = lower(name);
    if n == "gateway"@ || n == "agent"@ {
        0
    } else if n == "app"@ || n == "frontend"@ || n == "web"@ {
        1
    } else if n == "copilotkit"@ || n == "runtime"@ {
        2
    } else if n == "studio"@ || n == "langsmith"@ {
        3
    } else {
        4
    }
}

/// Whether an endpoint shows a service: it has the address that the service has now, and names
/// frontend, agent and studio for what they are.
pub open spec fn shows(
    endpoint: EndpointModel,
    service: (Seq<char>, Seq<char>),
    env: Seq<EnvModel>,
) -> bool {
    let place = place_of(service.0);
    &&& endpoint.url == current_url(service, env)
    &&& place == 0 ==> endpoint.name == "Agent / Gateway"@ && endpoint.kind == "protocol"@
    &&& place == 1 ==> endpoint.name == "Frontend"@ && endpoint.kind == "web"@
    &&& place == 3 ==> endpoint.name == "LangSmith Studio"@ && endpoint.kind == "web"@
    &&& endpoint.primary <==> place == 1
}

proof fn lemma_shows(service: (Seq<char>, Seq<char>), env: Seq<EnvModel>)
    ensures
        shows(endpoint_of((service.0, current_url(service, env))), service, env),
        place_of(service.0) == service_rank(service.0),
{
    lemma_roles(service.0);
    reveal_strlit("gateway");
    reveal_strlit("agent");
    reveal_strlit("phoenix");
    reveal_strlit("copilotkit");
    reveal_strlit("ctx");
    reveal_strlit("contextseek");
    reveal_strlit("studio");
    reveal_strlit("langsmith");
    assert("gateway"@[0] != "phoenix"@[0]);
    assert("studio"@.len() == 6 && "langsmith"@.len() == 9 && "ctx"@.len() == 3);
    assert("contextseek"@.len() == 11 && "copilotkit"@.len() == 10 && "agent"@.len() == 5);
    assert("phoenix"@.len() == 7 && "gateway"@.len() == 7);
}

/// The position in the list of a service with an address.
proof fn lemma_listed_at(
    services: Seq<(Seq<char>, Seq<char>)>,
    env: Seq<EnvModel>,
    k: int,
) -> (m: int)
    requires
        0 <= k < services.len(),
        trimmed(services[k].1).len() > 0,
    ensures
        0 <= m < listed_services(services, env).len(),
        listed_services(services, env)[m] == (services[k].0, current_url(services[k], env)),
        ({
            let rank = service_rank(services[k].0);
            let n = |r: int| ranked_from(services, env, r, 0).len() as int;
            let before = if rank == 0 {
                0
            } else if rank == 1 {
                n(0)
            } else if rank == 2 {
                n(0) + n(1)
            } else if rank == 3 {
                n(0) + n(1) + n(2)
            } else {
                n(0) + n(1) + n(2) + n(3)
            };
            before <= m < before + n(rank)
        }),
{
    let r0 = ranked_from(services, env, 0, 0);
    let r1 = ranked_from(services, env, 1, 0);
    let r2 = ranked_from(services, env, 2, 0);
    let r3 = ranked_from(services, env, 3, 0);
    let r4 = ranked_from(services, env, 4, 0);
    lemma_roles(services[k].0);
    let rank = service_rank(services[k].0);
    let i = lemma_listed_once(services, env, rank, 0, k);
    let listed = r0 + r1 + r2 + r3 + r4;
    let m = i + if rank == 0 {
        0
    } else if rank == 1 {
        r0.len() as int
    } else if rank == 2 {
        (r0.len() + r1.len()) as int
    } else if rank == 3 {
        (r0.len() + r1.len() + r2.len()) as int
    } else {
        (r0.len() + r1.len() + r2.len() + r3.len()) as int
    };
    assert(listed[m] == ranked_from(services, env, rank, 0)[i]);
    m
}

/// Every service with an address is shown, with the address that it has now, and nothing else
/// is: there are as many endpoints as services with an address. The agent comes before the
/// frontend, which comes before the runtime, the studio and all others.
pub proof fn law_all_services_are_shown(
    instance: InstanceModel,
    version: u32,
    name: Seq<char>,
    services: Seq<(Seq<char>, Seq<char>)>,
    env: Seq<EnvModel>,
    k: int,
    l: int,
)
    requires
        0 <= k < services.len(),
        0 <= l < services.len(),
        trimmed(services[k].1).len() > 0,
        trimmed(services[l].1).len() > 0,
    ensures
        ({
            let shown = described(instance, version, name, services, env).service_endpoints;
            &&& shown.len() == addressed(services, 0)
            &&& exists|m: int, n: int|
                0 <= m < shown.len() && 0 <= n < shown.len() && shows(
                    #[trigger] shown[m],
                    services[k],
                    env,
                ) && shows(#[trigger] shown[n], services[l], env) && (place_of(services[k].0)
                    < place_of(services[l].0) ==> m < n)
        }),
{
    lemma_listed_count(services, env, 0);
    lemma_shows(services[k], env);
    lemma_shows(services[l], env);
    lemma_roles(services[k].0);
    lemma_roles(services[l].0);
    let listed = listed_services(services, env);
    let m = lemma_listed_at(services, env, k);
    let n = lemma_listed_at(services, env, l);
    let shown = described(instance, version, name, services, env).service_endpoints;
    assert(shown[m] == endpoint_of(listed[m]));
    assert(shown[n] == endpoint_of(listed[n]));
    assert(shows(shown[m], services[k], env));
    assert(shows(shown[n], services[l], env));
}

} // verus!
