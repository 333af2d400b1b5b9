//! Laws of running instances: who listens, what a process is given, what is logged and patched.

use crate::deployment::{logged_from, without_printed_from};
use crate::environment::plain_value;
use crate::instance::{
    other_listeners_from, own_listeners_from, process_ids_from, process_variables, related_from,
    unrelated_from, value_of_key,
};
use crate::mapping_laws::lemma_trimmed_core;
use crate::models::{EnvModel, LogModel, APT_MIRROR, HF_MIRROR};
use crate::port_plans::described_port;
use crate::sources::{
    agent_patched, apt_fallback, apt_patched, async_shim, convert_models_patched, ASYNC_SHIM_MARK,
    ASYNC_SHIM_PLACE,
};
use crate::state::legacy_address;
use crate::text::{
    cut, decimal, ends, find, holds, is_digit, is_space, law_decimal_parses_back,
    lemma_decimal_value, lemma_find_from, lemma_holds, lines, lower, matches_at, parsed,
    replaced_once, trimmed,
};
use vstd::prelude::*;
use vstd::string::*;

verus! {

// ---------------------------------------------------------------------------
// Listeners
// ---------------------------------------------------------------------------

proof fn lemma_listed(ls: Seq<Seq<char>>, i: int, k: int, pid: u32) -> (m: int)
    requires
        0 <= i <= k < ls.len(),
        trimmed(ls[k]) == decimal(pid as nat),
    ensures
        0 <= m < process_ids_from(ls, i).len(),
        process_ids_from(ls, i)[m] == pid,
    decreases k - i,
{
    law_decimal_parses_back(pid as nat, u32::MAX as int);
    if i == k {
        0
    } else {
        let m = lemma_listed(ls, i + 1, k, pid);
        if parsed(trimmed(ls[i]), u32::MAX as int) is Some {
            m + 1
        } else {
            m
        }
    }
}

proof fn lemma_parted(pids: Seq<u32>, related: Seq<u32>, port: u16, i: int, k: int)
    requires
        0 <= i <= k < pids.len(),
    ensures
        related.contains(pids[k]) ==> related_from(pids, related, i).contains(pids[k]),
        !related.contains(pids[k]) ==> unrelated_from(pids, related, port, i).contains(
            (pids[k], port),
        ),
    decreases k - i,
{
    let own = related_from(pids, related, i + 1);
    let others = unrelated_from(pids, related, port, i + 1);
    if i == k {
        if related.contains(pids[k]) {
            assert((seq![pids[k]] + own)[0] == pids[k]);
        } else {
            assert((seq![(pids[k], port)] + others)[0] == (pids[k], port));
        }
    } else {
        lemma_parted(pids, related, port, i + 1, k);
        if own.contains(pids[k]) {
            let m = choose|m: int| 0 <= m < own.len() && own[m] == pids[k];
            assert((seq![pids[i]] + own)[m + 1] == pids[k]);
        }
        if others.contains((pids[k], port)) {
            let m = choose|m: int| 0 <= m < others.len() && others[m] == (pids[k], port);
            assert((seq![(pids[i], port)] + others)[m + 1] == (pids[k], port));
        }
    }
}

proof fn lemma_parted_from(
    listeners: Seq<(u16, Seq<char>)>,
    related: Seq<u32>,
    i: int,
    j: int,
    k: int,
    pid: u32,
)
    requires
        0 <= i <= j < listeners.len(),
        0 <= k < lines(listeners[j].1).len(),
        trimmed(lines(listeners[j].1)[k]) == decimal(pid as nat),
    ensures
        related.contains(pid) ==> own_listeners_from(listeners, related, i).contains(pid),
        !related.contains(pid) ==> other_listeners_from(listeners, related, i).contains(
            (pid, listeners[j].0),
        ),
    decreases j - i,
{
    let port = listeners[i].0;
    let pids = process_ids_from(lines(listeners[i].1), 0);
    let own = related_from(pids, related, 0);
    let others = unrelated_from(pids, related, port, 0);
    let more_own = own_listeners_from(listeners, related, i + 1);
    let more_others = other_listeners_from(listeners, related, i + 1);
    if i == j {
        let m = lemma_listed(lines(listeners[i].1), 0, k, pid);
        lemma_parted(pids, related, port, 0, m);
        if own.contains(pid) {
            let n = choose|n: int| 0 <= n < own.len() && own[n] == pid;
            assert((own + more_own)[n] == pid);
        }
        if others.contains((pid, port)) {
            let n = choose|n: int| 0 <= n < others.len() && others[n] == (pid, port);
            assert((others + more_others)[n] == (pid, port));
        }
    } else {
        lemma_parted_from(listeners, related, i + 1, j, k, pid);
        let x = (pid, listeners[j].0);
        if more_own.contains(pid) {
            let n = choose|n: int| 0 <= n < more_own.len() && more_own[n] == pid;
            assert((own + more_own)[own.len() + n] == pid);
        }
        if more_others.contains(x) {
            let n = choose|n: int| 0 <= n < more_others.len() && more_others[n] == x;
            assert((others + more_others)[others.len() + n] == x);
        }
    }
}

/// Every process that is listed, on a line of its own, for one of the ports is stopped where it
/// belongs to the instance, and is told, with the port it listens on, where it does not.
pub proof fn law_listeners_are_parted(
    listeners: Seq<(u16, Seq<char>)>,
    related: Seq<u32>,
    j: int,
    k: int,
    pid: u32,
)
    requires
        0 <= j < listeners.len(),
        0 <= k < lines(listeners[j].1).len(),
        trimmed(lines(listeners[j].1)[k]) == decimal(pid as nat),
    ensures
        related.contains(pid) ==> own_listeners_from(listeners, related, 0).contains(pid),
        !related.contains(pid) ==> other_listeners_from(listeners, related, 0).contains(
            (pid, listeners[j].0),
        ),
{
    lemma_parted_from(listeners, related, 0, j, k, pid);
}

// ---------------------------------------------------------------------------
// Variables
// ---------------------------------------------------------------------------

proof fn lemma_value_of_key(env: Seq<EnvModel>, key: Seq<char>, i: int, k: int)
    requires
        0 <= i <= k <= env.len(),
        k < env.len() ==> lower(env[k].key) == lower(key),
        forall|j: int| i <= j < k ==> lower((#[trigger] env[j]).key) != lower(key),
    ensures
        value_of_key(env, key, i) == (if k < env.len() {
            Some(env[k].value)
        } else {
            None
        }),
    decreases k - i,
{
    if i < k {
        lemma_value_of_key(env, key, i + 1, k);
    }
}

/// Whether no variable has a name, in whatever case.
pub open spec fn is_unset(env: Seq<EnvModel>, key: Seq<char>) -> bool {
    forall|j: int| 0 <= j < env.len() ==> lower((#[trigger] env[j]).key) != lower(key)
}

/// A process is given every variable of the instance, in order and without quotes. Where
/// `VITE_LANGGRAPH_API_URL` is not set, it is the address on this machine with the port of
/// `BACKEND_PORT`, or of `LANGGRAPH_PORT` where the former is not set either.
pub proof fn law_processes_are_given_variables(
    env: Seq<EnvModel>,
    hub_reachable: bool,
    m: int,
    port: u16,
)
    requires
        0 <= m < env.len(),
        lower(env[m].key) == lower("BACKEND_PORT"@) || (is_unset(env, "BACKEND_PORT"@) && lower(
            env[m].key,
        ) == lower("LANGGRAPH_PORT"@)),
        forall|j: int|
            0 <= j < m ==> lower((#[trigger] env[j]).key) != lower(env[m].key),
        trimmed(env[m].value) == decimal(port as nat),
    ensures
        ({
            let given = process_variables(env, hub_reachable);
            let mirrored = !hub_reachable && is_unset(env, "HF_ENDPOINT"@);
            let n = env.len() as int;
            &&& forall|i: int|
                0 <= i < n ==> (#[trigger] given[i]) == (env[i].key, plain_value(env[i].value))
            &&& is_unset(env, "VITE_LANGGRAPH_API_URL"@) ==> given.len() > n && given[n] == (
                "VITE_LANGGRAPH_API_URL"@,
                "http://127.0.0.1:"@ + decimal(port as nat),
            )
            &&& mirrored ==> given.len() > n && given.last() == ("HF_ENDPOINT"@, HF_MIRROR@)
            &&& given.len() == n + (if is_unset(env, "VITE_LANGGRAPH_API_URL"@) {
                1int
            } else {
                0
            }) + (if mirrored {
                1int
            } else {
                0
            })
        }),
{
    law_decimal_parses_back(port as nat, 65535);
    if lower(env[m].key) == lower("BACKEND_PORT"@) {
        lemma_value_of_key(env, "BACKEND_PORT"@, 0, m);
    } else {
        lemma_value_of_key(env, "BACKEND_PORT"@, 0, env.len() as int);
        lemma_value_of_key(env, "LANGGRAPH_PORT"@, 0, m);
    }
    lemma_unset(env, "VITE_LANGGRAPH_API_URL"@, 0);
    lemma_unset(env, "HF_ENDPOINT"@, 0);
}

proof fn lemma_unset(env: Seq<EnvModel>, key: Seq<char>, i: int)
    requires
        0 <= i,
        forall|j: int| 0 <= j < i && j < env.len() ==> lower((#[trigger] env[j]).key) != lower(key),
    ensures
        value_of_key(env, key, i) is None <==> is_unset(env, key),
    decreases env.len() - i,
{
    if i < env.len() && lower(env[i].key) != lower(key) {
        lemma_unset(env, key, i + 1);
    }
}

// ---------------------------------------------------------------------------
// Logs
// ---------------------------------------------------------------------------

proof fn lemma_logged_shift(first: Seq<char>, ls: Seq<Seq<char>>, i: int)
    requires
        0 <= i,
    ensures
        logged_from(seq![first] + ls, i + 1) == logged_from(ls, i),
    decreases ls.len() - i,
{
    if i < ls.len() {
        lemma_logged_shift(first, ls, i + 1);
        assert((seq![first] + ls)[i + 1] == ls[i]);
    }
}

/// Every line that a command prints is logged, in order, but those that tell how much of an image
/// layer has come: a digest and an amount of another, not yet done.
pub proof fn law_lines_are_logged(first: Seq<char>, rest: Seq<Seq<char>>)
    ensures
        ({
            let tells_amount = holds(first, "sha256:"@) && holds(first, " / "@) && !holds(
                first,
                "done"@,
            );
            logged_from(seq![first] + rest, 0) == (if tells_amount {
                Seq::empty()
            } else {
                seq![first]
            }) + logged_from(rest, 0)
        }),
{
    lemma_logged_shift(first, rest, 0);
    assert((seq![first] + rest)[0] == first);
}

proof fn lemma_printed_shift(first: LogModel, logs: Seq<LogModel>, id: Seq<char>, i: int)
    requires
        0 <= i,
    ensures
        without_printed_from(seq![first] + logs, id, i + 1) == without_printed_from(logs, id, i),
    decreases logs.len() - i,
{
    if i < logs.len() {
        lemma_printed_shift(first, logs, id, i + 1);
        assert((seq![first] + logs)[i + 1] == logs[i]);
    }
}

/// What an instance printed is deleted; what else was logged of it, and all of the others, stays
/// in order.
pub proof fn law_only_printed_entries_are_deleted(
    first: LogModel,
    rest: Seq<LogModel>,
    id: Seq<char>,
)
    ensures
        without_printed_from(seq![first] + rest, id, 0) == (if first.instance_id == Some(id)
            && first.category == "runtime"@ {
            Seq::empty()
        } else {
            seq![first]
        }) + without_printed_from(rest, id, 0),
{
    lemma_printed_shift(first, rest, id, 0);
    assert((seq![first] + rest)[0] == first);
}

// ---------------------------------------------------------------------------
// Addresses of older settings
// ---------------------------------------------------------------------------

pub proof fn lemma_cut_at(a: Seq<char>, pat: Seq<char>, b: Seq<char>)
    requires
        forall|j: int| 0 <= j < a.len() ==> !(#[trigger] matches_at(a + pat + b, pat, j)),
    ensures
        cut(a + pat + b, pat) == Some((a, b)),
{
    let s = a + pat + b;
    let n = a.len() as int;
    lemma_find_from(s, pat, 0);
    assert(s.subrange(n, n + pat.len()) == pat);
    assert(matches_at(s, pat, n));
    assert(find(s, pat) == Some(n)) by {
        let k = find(s, pat)->0;
        if k < n {
            assert(matches_at(s, pat, k));
        }
    }
    assert(s.take(n) == a);
    assert(s.skip(n + pat.len()) == b);
}

/// An address with `/tree/` behind a repository names a branch, up to the next slash; one with
/// `/releases` or `/releases/latest` behind it names the repository alone, and so does one with
/// nothing behind it.
pub proof fn law_older_addresses_are_read(
    old: Seq<char>,
    repo: Seq<char>,
    branch: Seq<char>,
    rest: Seq<char>,
)
    requires
        repo.len() > 0,
        forall|j: int| 0 <= j < branch.len() ==> #[trigger] branch[j] != '/',
    ensures
        ({
            let with_branch = repo + "/tree/"@ + branch;
            let deeper = repo + "/tree/"@ + (branch + "/"@ + rest);
            let nothing = Seq::<char>::empty();
            &&& trimmed(old) == with_branch && (forall|j: int|
                0 <= j < repo.len() ==> !(#[trigger] matches_at(with_branch, "/tree/"@, j)))
                ==> legacy_address(old) == Some((repo, branch))
            &&& trimmed(old) == deeper && (forall|j: int|
                0 <= j < repo.len() ==> !(#[trigger] matches_at(deeper, "/tree/"@, j)))
                ==> legacy_address(old) == Some((repo, branch))
            &&& trimmed(old) == repo + "/releases"@ && !holds(trimmed(old), "/tree/"@)
                ==> legacy_address(old) == Some((repo, nothing))
            &&& trimmed(old) == repo + "/releases/latest"@ && !holds(trimmed(old), "/tree/"@)
                ==> legacy_address(old) == Some((repo, nothing))
            &&& trimmed(old) == repo && !holds(repo, "/tree/"@) && !ends(repo, "/releases"@)
                && !ends(repo, "/releases/latest"@) ==> legacy_address(old) == Some((repo, nothing))
        }),
{
    reveal_strlit("/tree/");
    reveal_strlit("/releases");
    reveal_strlit("/releases/latest");
    reveal_strlit("/");
    let with_branch = repo + "/tree/"@ + branch;
    let deeper = repo + "/tree/"@ + (branch + "/"@ + rest);
    let url = trimmed(old);
    if url == with_branch && (forall|j: int|
        0 <= j < repo.len() ==> !(#[trigger] matches_at(with_branch, "/tree/"@, j))) {
        lemma_cut_at(repo, "/tree/"@, branch);
        lemma_find_from(branch, "/"@, 0);
        if let Some(k) = find(branch, "/"@) {
            assert(branch.subrange(k, k + 1)[0] == branch[k]);
        }
    }
    if url == deeper && (forall|j: int|
        0 <= j < repo.len() ==> !(#[trigger] matches_at(deeper, "/tree/"@, j))) {
        lemma_cut_at(repo, "/tree/"@, branch + "/"@ + rest);
        let t = branch + "/"@ + rest;
        assert forall|j: int| 0 <= j < branch.len() implies !(#[trigger] matches_at(
            t,
            "/"@,
            j,
        )) by {
            if matches_at(t, "/"@, j) {
                assert(t.subrange(j, j + 1)[0] == t[j]);
            }
        }
        lemma_cut_at(branch, "/"@, rest);
    }
    if url == repo + "/releases"@ {
        let r = "/releases"@;
        assert(url.subrange(url.len() - r.len(), url.len() as int) == r);
        assert(url.take(url.len() - r.len()) == repo);
    }
    if url == repo + "/releases/latest"@ {
        let r = "/releases/latest"@;
        assert(url.subrange(url.len() - r.len(), url.len() as int) == r);
        assert(url.take(url.len() - r.len()) == repo);
        let s = "/releases"@;
        if ends(url, s) {
            assert(url.subrange(url.len() - s.len(), url.len() as int)[8] == url.last());
            assert(r.last() == 't');
        }
    }
}

// ---------------------------------------------------------------------------
// Patches
// ---------------------------------------------------------------------------

proof fn lemma_held(a: Seq<char>, pat: Seq<char>, b: Seq<char>)
    ensures
        holds(a + pat + b, pat),
{
    let s = a + pat + b;
    let n = a.len() as int;
    lemma_holds(s, pat);
    assert(s.subrange(n, n + pat.len()) == pat);
    assert(matches_at(s, pat, n));
}

/// A patch exchanges the first place that it is for and leaves what stands around it: how models
/// are converted, and how a package index is brought up to date.
pub proof fn law_patches_keep_the_rest(a: Seq<char>, b: Seq<char>)
    ensures
        ({
            let convert = "sys.executable, \"-m\", \"optimum.exporters.openvino\","@;
            (forall|j: int|
                0 <= j < a.len() ==> !(#[trigger] matches_at(a + convert + b, convert, j)))
                ==> convert_models_patched(a + convert + b) == Some(
                a + "\"optimum-cli\", \"export\", \"openvino\","@ + b,
            )
        }),
        ({
            let update = "apt-get update"@;
            (forall|j: int|
                0 <= j < a.len() ==> !(#[trigger] matches_at(a + update + b, update, j)))
                && !holds(a + update + b, APT_MIRROR@) ==> apt_patched(a + update + b) == Some(
                a + apt_fallback() + b,
            )
        }),
{
    let convert = "sys.executable, \"-m\", \"optimum.exporters.openvino\","@;
    lemma_held(a, convert, b);
    if forall|j: int| 0 <= j < a.len() ==> !(#[trigger] matches_at(a + convert + b, convert, j)) {
        lemma_cut_at(a, convert, b);
    }
    let update = "apt-get update"@;
    lemma_held(a, update, b);
    if forall|j: int| 0 <= j < a.len() ==> !(#[trigger] matches_at(a + update + b, update, j)) {
        lemma_cut_at(a, update, b);
    }
}

/// An agent of a project that uses the package gets the shim once: before the first place that it
/// is for, or at the top of a file without such a place. The file itself is kept.
pub proof fn law_agents_get_the_shim(a: Seq<char>, b: Seq<char>, project: Seq<char>)
    requires
        holds(project, "langchain-huggingface"@),
    ensures
        ({
            let place = ASYNC_SHIM_PLACE@;
            (forall|j: int|
                0 <= j < a.len() ==> !(#[trigger] matches_at(a + place + b, place, j))) && !holds(
                a + place + b,
                ASYNC_SHIM_MARK@,
            ) ==> agent_patched(a + place + b, Some(project)) == Some(
                a + (async_shim() + "\n"@ + place) + b,
            )
        }),
        !holds(a, ASYNC_SHIM_PLACE@) && !holds(a, ASYNC_SHIM_MARK@) ==> agent_patched(
            a,
            Some(project),
        ) == Some(async_shim() + "\n"@ + a),
{
    let place = ASYNC_SHIM_PLACE@;
    lemma_held(a, place, b);
    if forall|j: int| 0 <= j < a.len() ==> !(#[trigger] matches_at(a + place + b, place, j)) {
        lemma_cut_at(a, place, b);
        assert(replaced_once(a + place + b, place, async_shim() + "\n"@ + place) == a + (
        async_shim() + "\n"@ + place) + b);
    }
}

// ---------------------------------------------------------------------------
// Descriptions
// ---------------------------------------------------------------------------

/// A line with a name that ends in `_port`, in whatever case, a colon and a number other than
/// zero gives that port under that name, whatever blanks stand around; with another name it gives
/// none.
pub proof fn law_described_ports_are_read(
    pad: Seq<char>,
    name: Seq<char>,
    gap: Seq<char>,
    space: Seq<char>,
    port: u16,
    end: Seq<char>,
)
    requires
        forall|i: int| 0 <= i < pad.len() ==> is_space(#[trigger] pad[i]),
        forall|i: int| 0 <= i < gap.len() ==> is_space(#[trigger] gap[i]),
        forall|i: int| 0 <= i < space.len() ==> is_space(#[trigger] space[i]),
        forall|i: int| 0 <= i < end.len() ==> is_space(#[trigger] end[i]),
        name.len() > 0,
        !is_space(name[0]) && !is_space(name.last()),
        forall|i: int| 0 <= i < name.len() ==> #[trigger] name[i] != ':',
        port > 0,
    ensures
        described_port(pad + (name + gap + ":"@ + space + decimal(port as nat)) + end) == (
        if ends(lower(name), "_port"@) {
            Some((name, port as int))
        } else {
            None
        }),
{
    reveal_strlit(":");
    let d = decimal(port as nat);
    lemma_decimal_value(port as nat);
    law_decimal_parses_back(port as nat, 65535);
    assert(is_digit(d[0]) && is_digit(d.last()));
    let core = name + gap + ":"@ + space + d;
    assert(core[0] == name[0]);
    assert(core.last() == d.last());
    lemma_trimmed_core(pad, core, end);
    let left = name + gap;
    let right = space + d;
    assert(core == left + ":"@ + right);
    assert forall|j: int| 0 <= j < left.len() implies !(#[trigger] matches_at(core, ":"@, j)) by {
        if matches_at(core, ":"@, j) {
            assert(core.subrange(j, j + 1)[0] == core[j]);
            if j >= name.len() {
                assert(core[j] == gap[j - name.len()]);
                assert(is_space(':'));
            } else {
                assert(core[j] == name[j]);
            }
        }
    }
    lemma_cut_at(left, ":"@, right);
    let nothing = Seq::<char>::empty();
    lemma_trimmed_core(nothing, name, gap);
    assert(nothing + name + gap == left);
    lemma_trimmed_core(space, d, nothing);
    assert(space + d + nothing == right);
}

} // verus!
