//! Laws of decisions: what is told, kept, searched and cleared, and when.

use crate::cli::{listed_version, node_bin, CliStatus};
use crate::command_laws::lacks;
use crate::deployment::{after_phase, InstallPhase};
use crate::environment::location_lines;
use crate::instance::{after_info_from, endpoint_port_of, joined_path};
use crate::lifecycle::{described, endpoint_of};
use crate::logging::level_of;
use crate::models::{ConfigModel, EnvModel, InstanceModel, LogModel};
use crate::move_laws::{address, is_path};
use crate::port_laws::law_free_ports_are_kept;
use crate::ports::{entry_port, is_service_port_key};
use crate::record_laws::{lemma_first_cut, lemma_last_cut};
use crate::runtime_install::{only_if, wanted, wants_cli, wants_node};
use crate::save_env::{ports_settled, PortContext};
use crate::sources::{found_from, lists_file, DirEntry};
use crate::state::{log_step, refiled, startup_plan, LogStep, StartupFacts};
use crate::storage::{with_path, PathFacts};
use crate::storage_switch::{next_switch_phase, SwitchEvent, SwitchPhase};
use crate::text::{
    cut, decimal, find, holds, is_digit, is_space, law_decimal_parses_back, lemma_decimal_value,
    lemma_find_from, lemma_holds, lines, lower, matches_at, starts, strip_all_start, trimmed,
    unicode_lower, upper, words, words_from,
};
use crate::vault_laws::{is_own_host, is_web_scheme, lemma_behind_scheme};
use vstd::prelude::*;
use vstd::string::*;

verus! {

// ---------------------------------------------------------------------------
// Telling
// ---------------------------------------------------------------------------

/// A line that names a failure is an error, whatever else it says; one that does not but warns is
/// a warning; any other is information.
pub proof fn law_levels_of_lines(line: Seq<char>)
    ensures
        ({
            let fails = holds(line, "error"@) || holds(line, "failed"@) || holds(line, "fatal"@)
                || holds(line, "panic"@) || holds(line, "exception"@) || holds(line, "traceback"@)
                || holds(line, "cannot connect to the docker daemon"@) || holds(
                line,
                "is the docker daemon running"@,
            );
            &&& level_of(line) == "error"@ <==> fails
            &&& level_of(line) == "warning"@ <==> !fails && holds(line, "warn"@)
            &&& level_of(line) == "info"@ <==> !fails && !holds(line, "warn"@)
        }),
{
    reveal_strlit("error");
    reveal_strlit("warning");
    reveal_strlit("warn");
    reveal_strlit("info");
    assert("error"@.len() == 5 && "warning"@.len() == 7 && "info"@.len() == 4);
    lemma_holds(line, "warning"@);
    lemma_holds(line, "warn"@);
    if holds(line, "warning"@) {
        let i = choose|i: int| matches_at(line, "warning"@, i);
        assert(line.subrange(i, i + 7).take(4) == line.subrange(i, i + 4));
        assert("warning"@.take(4) == "warn"@);
        assert(matches_at(line, "warn"@, i));
    }
}

/// Only entries that an instance printed are filed anew, as told by the installation, and only
/// those that tell of its life; nothing else of an entry changes.
pub proof fn law_only_printed_entries_are_filed_anew(log: LogModel)
    ensures
        log.category != "runtime"@ ==> refiled(log) == log,
        refiled(log) == log || refiled(log) == (LogModel { category: "install"@, ..log }),
        log.category == "runtime"@ && (unicode_lower(log.message) == "instance stopped"@ || holds(
            unicode_lower(log.message),
            "instance restarted"@,
        )) ==> refiled(log).category == "install"@,
        log.category == "runtime"@ && !holds(unicode_lower(log.message), "instance"@) ==> refiled(
            log,
        ) == log,
{
    let t = unicode_lower(log.message);
    lemma_holds(t, "instance"@);
    reveal_strlit("instance");
    if !holds(t, "instance"@) {
        lemma_part(t, "instance stopped"@, 0);
        lemma_part(t, "stopped instance process tree"@, 8);
        lemma_part(t, "instance associated processes stopped"@, 0);
        lemma_part(t, "instance deletion completed"@, 0);
        lemma_part(t, "instance restarted"@, 0);
        lemma_part(t, "delete instance"@, 7);
        reveal_strlit("instance stopped");
        reveal_strlit("stopped instance process tree");
        reveal_strlit("instance associated processes stopped");
        reveal_strlit("instance deletion completed");
        reveal_strlit("instance restarted");
        reveal_strlit("delete instance");
        assert("instance stopped"@.subrange(0, 8) == "instance"@);
        assert("stopped instance process tree"@.subrange(8, 16) == "instance"@);
        assert("instance associated processes stopped"@.subrange(0, 8) == "instance"@);
        assert("instance deletion completed"@.subrange(0, 8) == "instance"@);
        assert("instance restarted"@.subrange(0, 8) == "instance"@);
        assert("delete instance"@.subrange(7, 15) == "instance"@);
    }
}

/// A text that holds another holds a part of it.
proof fn lemma_part(t: Seq<char>, whole: Seq<char>, k: int)
    requires
        0 <= k,
    ensures
        k + "instance"@.len() <= whole.len() && whole.subrange(k, k + "instance"@.len())
            == "instance"@ && (holds(t, whole) || starts(t, whole) || t == whole) ==> holds(
            t,
            "instance"@,
        ),
{
    let part = "instance"@;
    lemma_holds(t, whole);
    lemma_holds(t, part);
    if k + part.len() <= whole.len() && whole.subrange(k, k + part.len()) == part && (holds(
        t,
        whole,
    ) || starts(t, whole) || t == whole) {
        if t == whole {
            assert(matches_at(t, part, k));
        } else {
            let i = if starts(t, whole) {
                0
            } else {
                choose|i: int| matches_at(t, whole, i)
            };
            assert(matches_at(t, whole, i));
            let there = t.subrange(i, i + whole.len());
            assert(there.subrange(k, k + part.len()) == t.subrange(i + k, i + k + part.len()));
            assert(matches_at(t, part, i + k));
        }
    }
}

proof fn lemma_locations_shift(first: EnvModel, env: Seq<EnvModel>, i: int)
    requires
        0 <= i,
    ensures
        location_lines(seq![first] + env, i + 1) == location_lines(env, i),
    decreases env.len() - i,
{
    if i < env.len() {
        lemma_locations_shift(first, env, i + 1);
        assert((seq![first] + env)[i + 1] == env[i]);
    }
}

/// Where services are is told by the ports of services and by the addresses, under a name with
/// `URL`, of this machine, each as it stands in the environment and in order; nothing else is
/// told.
pub proof fn law_places_of_services_are_told(first: EnvModel, rest: Seq<EnvModel>)
    ensures
        ({
            let v = first.value;
            let is_here = holds(v, "127.0.0.1"@) || holds(v, "localhost"@) || holds(v, "0.0.0.0"@)
                || holds(v, "[::1]"@);
            location_lines(seq![first] + rest, 0) == (if is_service_port_key(first.key) || (holds(
                upper(first.key),
                "URL"@,
            ) && is_here) {
                seq![first.key + "="@ + v]
            } else {
                Seq::empty()
            }) + location_lines(rest, 0)
        }),
{
    lemma_locations_shift(first, rest, 0);
    assert((seq![first] + rest)[0] == first);
}

// ---------------------------------------------------------------------------
// Services
// ---------------------------------------------------------------------------

/// The endpoint of a service has its address. It is the main one exactly of a frontend, which is
/// called app, frontend or web; what a browser shows is a frontend, a studio or a tracing page;
/// and a service whose name is not known goes by that name.
pub proof fn law_endpoints_of_services(name: Seq<char>, url: Seq<char>)
    ensures
        ({
            let e = endpoint_of((name, url));
            let is_front = lower(name) == "app"@ || lower(name) == "frontend"@ || lower(name)
                == "web"@;
            let is_page = lower(name) == "studio"@ || lower(name) == "langsmith"@ || lower(name)
                == "phoenix"@;
            &&& e.url == url
            &&& e.primary <==> is_front
            &&& is_front ==> e.name == "Frontend"@
            &&& e.kind == "web"@ <==> is_front || is_page
            &&& e.kind == "protocol"@ <==> lower(name) == "gateway"@ || lower(name) == "agent"@
            &&& e.kind == "other"@ && lower(name) != "runtime"@ ==> e.name == name
        }),
{
    reveal_strlit("web");
    reveal_strlit("protocol");
    reveal_strlit("api");
    reveal_strlit("database");
    reveal_strlit("other");
    assert("web"@[0] == 'w' && "protocol"@[0] == 'p' && "api"@[0] == 'a' && "database"@[0] == 'd'
        && "other"@[0] == 'o');
    lemma_service_names();
}

/// The names of services are different ones.
proof fn lemma_service_names()
    ensures
        "app"@ != "studio"@ && "app"@ != "langsmith"@ && "app"@ != "phoenix"@ && "app"@
            != "gateway"@ && "app"@ != "agent"@,
        "frontend"@ != "studio"@ && "frontend"@ != "langsmith"@ && "frontend"@ != "phoenix"@
            && "frontend"@ != "gateway"@ && "frontend"@ != "agent"@,
        "web"@ != "studio"@ && "web"@ != "langsmith"@ && "web"@ != "phoenix"@ && "web"@
            != "gateway"@ && "web"@ != "agent"@,
        "studio"@ != "gateway"@ && "studio"@ != "agent"@,
        "langsmith"@ != "gateway"@ && "langsmith"@ != "agent"@,
        "phoenix"@ != "gateway"@ && "phoenix"@ != "agent"@,
{
    reveal_strlit("app");
    reveal_strlit("frontend");
    reveal_strlit("web");
    reveal_strlit("studio");
    reveal_strlit("langsmith");
    reveal_strlit("phoenix");
    reveal_strlit("gateway");
    reveal_strlit("agent");
    assert("app"@.len() == 3 && "web"@.len() == 3 && "agent"@.len() == 5 && "studio"@.len() == 6);
    assert("gateway"@.len() == 7 && "phoenix"@.len() == 7 && "frontend"@.len() == 8);
    assert("langsmith"@.len() == 9);
    assert("gateway"@[0] == 'g' && "phoenix"@[0] == 'p');
}

/// A description gives an instance the name of its project, as it is written, where one is
/// written, and the version of its lifecycle where that is not zero. What else is known of the
/// instance stays.
pub proof fn law_descriptions_name_the_project(
    instance: InstanceModel,
    version: u32,
    name: Seq<char>,
    services: Seq<(Seq<char>, Seq<char>)>,
    env: Seq<EnvModel>,
)
    ensures
        ({
            let out = described(instance, version, name, services, env);
            &&& trimmed(name).len() > 0 ==> out.project_name == Some(name)
            &&& trimmed(name).len() == 0 ==> out.project_name == instance.project_name
            &&& version > 0 ==> out.lifecycle_version == Some(version)
            &&& version == 0 ==> out.lifecycle_version is None
            &&& out.id == instance.id && out.name == instance.name && out.status == instance.status
            &&& out.work_dir == instance.work_dir && out.pid == instance.pid && out.env_path
                == instance.env_path
        }),
{
}

/// The port of an endpoint on this machine is the one that its address has.
pub proof fn law_endpoints_have_their_ports(
    scheme: Seq<char>,
    host: Seq<char>,
    port: u16,
    path: Seq<char>,
)
    requires
        is_web_scheme(scheme) && is_own_host(host) && is_path(path),
    ensures
        endpoint_port_of(address(scheme, host, port as nat, path)) == Some(port as int),
{
    reveal_strlit("/");
    reveal_strlit(":");
    reveal_strlit("127.0.0.1");
    reveal_strlit("localhost");
    reveal_strlit("0.0.0.0");
    reveal_strlit("[::1]");
    let d = decimal(port as nat);
    lemma_decimal_value(port as nat);
    law_decimal_parses_back(port as nat, 65535);
    let authority = host + ":"@ + d;
    let rest = authority + path;
    assert(address(scheme, host, port as nat, path) == scheme + rest);
    lemma_behind_scheme(scheme, rest);
    assert(":"@ == seq![':']);
    assert("/"@ == seq!['/']);
    assert forall|i: int| 0 <= i < d.len() implies #[trigger] d[i] != ':' && d[i] != '/' by {
        assert(is_digit(d[i]));
    }
    lemma_last_cut(host, ':', d);
    assert(lacks(authority, '/')) by {
        assert forall|i: int| 0 <= i < authority.len() implies #[trigger] authority[i] != '/' by {
            if i < host.len() {
                assert(authority[i] == host[i]);
            } else if i > host.len() {
                assert(authority[i] == d[i - host.len() - 1]);
            }
        }
    }
    if path.len() > 0 {
        assert(rest == authority + seq!['/'] + path.skip(1));
        lemma_first_cut(authority, '/', path.skip(1));
    } else {
        assert(rest == authority);
        lemma_find_from(rest, "/"@, 0);
        if let Some(p) = cut(rest, "/"@) {
            let k = find(rest, "/"@)->0;
            assert(rest.subrange(k, k + 1)[0] == rest[k]);
        }
    }
}

/// A deployed instance keeps the ports that it has itself, though they are busy, as its running
/// services hold them: those that no other instance has and that no variable before has.
pub proof fn law_deployed_instances_keep_their_ports(
    env: Seq<EnvModel>,
    context: PortContext,
    j: int,
)
    requires
        context.deployed,
        0 <= j < env.len(),
        entry_port(env[j]) is Some,
        entry_port(env[j])->0 != 0,
        context.self_ports@.contains(entry_port(env[j])->0 as u16),
        !context.reserved@.contains(entry_port(env[j])->0 as u16),
        !context.host.offers@.contains(entry_port(env[j])->0 as u16),
        forall|m: int| 0 <= m < j ==> entry_port(#[trigger] env[m]) != entry_port(env[j]),
    ensures
        ports_settled(env, context).env[j] == env[j],
        ports_settled(env, context).lifecycle is None,
{
    law_free_ports_are_kept(
        env,
        context.reserved@,
        context.self_ports@,
        context.host.busy@,
        context.host.offers@,
        j,
    );
}

// ---------------------------------------------------------------------------
// Searching
// ---------------------------------------------------------------------------

/// Whether a path leads, from directory to directory, to a file.
pub open spec fn leads_to_file(entries: Seq<DirEntry>, path: Seq<Seq<char>>) -> bool
    decreases path.len(),
{
    if path.len() == 0 {
        false
    } else if path.len() == 1 {
        lists_file(entries, path[0])
    } else {
        exists|i: int|
            0 <= i < entries.len() && (#[trigger] entries[i]) is Dir && entries[i]->Dir_0@
                == path[0] && leads_to_file(entries[i]->Dir_1@, path.skip(1))
    }
}

/// A path that is found leads to a file of the name that is searched, no deeper than allowed.
pub proof fn law_found_paths_lead_to_the_file(
    entries: Seq<DirEntry>,
    i: int,
    name: Seq<char>,
    depth: nat,
)
    requires
        0 <= i,
    ensures
        found_from(entries, i, name, depth) matches Some(path) ==> 0 < path.len() <= depth
            && path.last() == name && leads_to_file(entries, path),
    decreases depth, entries.len() - i,
{
    if depth > 0 && i < entries.len() {
        match entries[i] {
            DirEntry::File(file) => {
                if file@ == name {
                    assert(entries[i] is File && entries[i]->File_0@ == name);
                    assert(lists_file(entries, name));
                } else {
                    law_found_paths_lead_to_the_file(entries, i + 1, name, depth);
                }
            },
            DirEntry::Dir(dir, inner) => {
                law_found_paths_lead_to_the_file(inner@, 0, name, (depth - 1) as nat);
                law_found_paths_lead_to_the_file(entries, i + 1, name, depth);
                if let Some(path) = found_from(inner@, 0, name, (depth - 1) as nat) {
                    let whole = seq![dir@] + path;
                    assert(whole.skip(1) == path);
                    assert(whole.last() == path.last());
                    assert(entries[i] is Dir && entries[i]->Dir_0@ == whole[0]);
                    assert(leads_to_file(entries[i]->Dir_1@, whole.skip(1)));
                }
            },
        }
    }
}

proof fn lemma_words_skip(s: Seq<char>, start: int, i: int, e: int)
    requires
        0 <= start <= i <= e <= s.len(),
        forall|j: int| i <= j < e ==> !is_space(#[trigger] s[j]),
    ensures
        words_from(s, start, i) == words_from(s, start, e),
    decreases e - i,
{
    if i < e {
        lemma_words_skip(s, start, i + 1, e);
    }
}

/// A tool that is listed with its version behind a `v` is told with the bare version.
pub proof fn law_listed_versions_are_told(tool: Seq<char>, version: Seq<char>)
    requires
        tool.len() > 0,
        version.len() > 0,
        forall|i: int| 0 <= i < tool.len() ==> !is_space(#[trigger] tool[i]),
        forall|i: int| 0 <= i < version.len() ==> !is_space(#[trigger] version[i]),
        version[0] != 'v',
    ensures
        listed_version(tool + " v"@ + version, tool) == Some(tool + " "@ + version),
{
    reveal_strlit(" v");
    reveal_strlit("v");
    let s = tool + " v"@ + version;
    let n = tool.len() as int;
    assert(is_space(' ') && !is_space('v'));
    assert forall|j: int| 0 <= j < n implies !is_space(#[trigger] s[j]) by {
        assert(s[j] == tool[j]);
    }
    assert(s[n] == ' ' && s[n + 1] == 'v');
    assert forall|j: int| n + 1 <= j < s.len() implies !is_space(#[trigger] s[j]) by {
        if j > n + 1 {
            assert(s[j] == version[j - n - 2]);
        }
    }
    lemma_words_skip(s, 0, 0, n);
    lemma_words_skip(s, n + 1, n + 1, s.len() as int);
    let second = s.skip(n + 1);
    assert(s.subrange(0, n) == tool);
    assert(words_from(s, n + 1, s.len() as int) == seq![second]);
    assert(words(s) == seq![tool] + seq![second]);
    assert(words(s)[0] == tool && words(s)[1] == second);
    assert(second.subrange(0, 1) == "v"@);
    assert(second.skip(1) == version);
    assert(!starts(version, "v"@)) by {
        if starts(version, "v"@) {
            assert(version.subrange(0, 1)[0] == version[0]);
        }
    }
    assert(strip_all_start(version, "v"@) == version);
    assert(strip_all_start(second, "v"@) == version);
}

/// The program directory of the required version is used where that is installed, whatever else
/// is.
pub proof fn law_required_versions_are_used(
    version: Seq<char>,
    arm: bool,
    installed: Seq<Seq<char>>,
)
    ensures
        node_bin(version, false, arm, true, installed) == seq![
            "nvm"@,
            "versions"@,
            "node"@,
            "v"@ + version,
            "bin"@,
        ],
        node_bin(version, false, arm, false, Seq::empty()) == node_bin(
            version,
            false,
            arm,
            true,
            installed,
        ),
{
}

// ---------------------------------------------------------------------------
// Steps
// ---------------------------------------------------------------------------

/// An installation is wanted of exactly what is missing, too old or, of the tool itself, can be
/// brought up to date, in this order.
pub proof fn law_what_is_missing_is_wanted(status: CliStatus)
    ensures
        wanted(status).contains("uv"@) <==> !status.uv_compatible,
        wanted(status).contains("node/npm"@) <==> !(status.node_compatible
            && status.npm_compatible),
        wanted(status).contains("agentseek"@) <==> !status.cli_compatible
            || status.cli_update_available,
        wanted(status).len() == 0 <==> status.uv_compatible && status.node_compatible
            && status.npm_compatible && status.cli_compatible && !status.cli_update_available,
{
    reveal_strlit("uv");
    reveal_strlit("node/npm");
    reveal_strlit("agentseek");
    let w = wanted(status);
    let uv = "uv"@;
    let node = "node/npm"@;
    let cli = "agentseek"@;
    assert(uv.len() == 2 && node.len() == 8 && cli.len() == 9);
    let a = only_if(!status.uv_compatible, uv);
    let b = only_if(wants_node(status), node);
    let c = only_if(wants_cli(status), cli);
    assert(w == a + b + c);
    if !status.uv_compatible {
        assert(w[0] == uv);
    }
    if !(status.node_compatible && status.npm_compatible) {
        assert(w[a.len() as int] == node);
    }
    if !status.cli_compatible || status.cli_update_available {
        assert(w[(a.len() + b.len()) as int] == cli);
    }
}

/// The entries at the target are cleared only in a move to another storage whose source can be
/// read: never where the storage stays the same.
pub proof fn law_logs_are_cleared_only_for_a_move(
    phase: SwitchPhase,
    event: SwitchEvent,
    same_target: bool,
    previous_ready: bool,
    late: bool,
)
    ensures
        next_switch_phase(phase, event, same_target, previous_ready, late)
            == SwitchPhase::ClearLogs <==> phase == SwitchPhase::SaveCore && !same_target
            && previous_ready,
{
}

/// What the tool tells of an instance is taken in the step that asks for it; the status of the
/// instance is set by the steps that stand for one, and stays in the others.
pub proof fn law_steps_of_a_deployment(
    instance: InstanceModel,
    phase: InstallPhase,
    output: Seq<char>,
    now: u64,
)
    ensures
        ({
            let out = after_phase(instance, phase, output, now);
            let told = after_info_from(
                instance,
                lines(output),
                0,
            ).0;
            &&& phase == InstallPhase::Info ==> out == told
            &&& phase == InstallPhase::Ports ==> out.status == "installing"@
            &&& phase == InstallPhase::Start ==> out.status == "starting"@
            &&& phase == InstallPhase::Wait ==> out.status == "running"@ && !out.needs_doctor
            &&& phase != InstallPhase::Info ==> out.agent_url == instance.agent_url && out.ui_url
                == instance.ui_url && out.studio_url == instance.studio_url && out.pid
                == instance.pid
            &&& phase != InstallPhase::Info && phase != InstallPhase::Ports && phase
                != InstallPhase::Start && phase != InstallPhase::Wait ==> out == instance
        }),
{
}

/// An entry that is stored is not tried again, and one that is not is tried once more where the
/// storage is ready; what is tried again never leads to a clean-up, which comes with every
/// hundredth entry.
pub proof fn law_entries_are_tried_twice(ready: bool, sequence: u64)
    ensures
        log_step(ready, sequence, true, true) == LogStep::Done,
        log_step(ready, sequence, true, false) == LogStep::CleanUp <==> sequence % 100 == 0,
        log_step(ready, sequence, true, false) == LogStep::Done <==> sequence % 100 != 0,
        log_step(true, sequence, false, false) == LogStep::Retry,
        log_step(false, sequence, false, false) == LogStep::Kept,
        log_step(ready, sequence, false, true) == LogStep::Kept,
{
}

/// Data can be written only where the settings are there and read, the database answers, and the
/// credentials, where any are required, are there too. Data of an older version is taken over only
/// into an empty database.
pub proof fn law_startup_protects_data(facts: StartupFacts)
    ensures
        startup_plan(facts).storage_ready ==> facts.config_file_exists && facts.config_ready
            && facts.database_ready && (facts.credentials_required ==> facts.credentials_ready),
        facts.config_file_exists && facts.config_ready && facts.database_ready && (
        facts.credentials_required ==> facts.credentials_ready) ==> startup_plan(
            facts,
        ).storage_ready,
        startup_plan(facts).migrate_legacy <==> facts.legacy_data_exists
            && !facts.database_has_data,
        !startup_plan(facts).setup_required <==> facts.config_file_exists && facts.setup_completed,
{
}

/// Settings that name a place keep it, but for a place that cannot be theirs: the directory of the
/// other embedded database without a file of this one, or a directory of an older version that is
/// not there. Settings without a place get that of their mode below the data directory.
pub proof fn law_named_places_are_kept(
    config: ConfigModel,
    data_dir: Seq<char>,
    facts: PathFacts,
    windows: bool,
)
    ensures
        ({
            let out = with_path(config, data_dir, facts, windows);
            let is_sqlite = config.mode == "sqlite_embedded"@;
            let default = if is_sqlite {
                data_dir
            } else {
                joined_path(windows, data_dir, "seekdb"@)
            };
            let is_misplaced = if is_sqlite {
                facts.at_seekdb_dir && !facts.sqlite_in_seekdb_dir
            } else {
                facts.at_legacy_dir && !facts.legacy_dir_exists
            };
            &&& config.path.len() > 0 && !is_misplaced ==> out == config
            &&& config.path.len() == 0 || is_misplaced ==> out == (ConfigModel {
                path: default,
                ..config
            })
        }),
{
}

} // verus!
