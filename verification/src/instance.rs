//! Instances: where they may be created, what their processes get, and how the outcome of a
//! command or a check changes them.

use crate::environment::{plain_value, process_env_value};
use crate::models::{
    EnvModel, EnvVariable, HF_MIRROR, InstanceModel, InstanceRecord, envs, instances_view,
};
use crate::text::{
    char_at_byte, char_index_at_byte, byte_len, bytes, concat2, concat3, concat4, concat5, contains,
    cut, decimal, decimal_of, ends, ends_with, find, holds, index_of, join, joined, lines, lines_of,
    lower, opt_str, opt_view, parse_u16, parse_up_to, parsed, port_num, rcut, rsplit_once, same,
    same_ignoring_case, skip, split_once, split_whitespace, starts, starts_with, take, texts, trim,
    trimmed, unicode_lower, words,
};
use crate::urls::before_slash;
use vstd::prelude::*;
use vstd::string::*;

verus! {

// ---------------------------------------------------------------------------
// Target directories
// ---------------------------------------------------------------------------

/// What is found at the place where an instance is to be created.
pub enum TargetState {
    Absent,
    NotDirectory,
    Unreadable(String),
    Occupied,
    Empty,
}

/// What keeps an instance from being created at a place, if anything does.
pub open spec fn target_fault(target: TargetState) -> Option<Seq<char>> {
    match target {
        TargetState::Absent => None,
        TargetState::Empty => None,
        TargetState::NotDirectory => Some("Target path is not a directory"@),
        TargetState::Unreadable(error) => Some(error@),
        TargetState::Occupied => Some("Target directory must be empty"@),
    }
}

/// Accepts a place that does not exist or is an empty directory.
pub fn validate_target(target: &TargetState) -> (r: Result<(), String>)
    ensures
        r is Ok <==> target_fault(*target) is None,
        r matches Err(message) ==> target_fault(*target) == Some(message@),
{
    match target {
        TargetState::Absent => Ok(()),
        TargetState::Empty => Ok(()),
        TargetState::NotDirectory => Err("Target path is not a directory".to_owned()),
        TargetState::Unreadable(error) => Err(error.clone()),
        TargetState::Occupied => Err("Target directory must be empty".to_owned()),
    }
}

/// What is wrong with the name of an instance, if anything is.
pub open spec fn name_fault(name: Seq<char>) -> Option<Seq<char>> {
    let n = trimmed(name);
    if n.len() == 0 {
        Some("Instance name cannot be empty"@)
    } else if n == "."@ || n == ".."@ || holds(n, "/"@) || holds(n, "\\"@) || holds(n, "\0"@) {
        Some("Instance name cannot contain path separators"@)
    } else {
        None
    }
}

/// Whether a character parts the names in a path; Windows has two that do.
pub open spec fn is_separator(windows: bool, c: char) -> bool {
    c == '/' || (windows && c == '\\')
}

/// Whether a path is a drive of Windows alone, behind which no separator is put.
pub open spec fn is_drive(windows: bool, path: Seq<char>) -> bool {
    windows && path.len() == 2 && path[1] == ':'
}

/// A relative path below a directory, with one separator between them.
pub open spec fn joined_path(windows: bool, parent: Seq<char>, name: Seq<char>) -> Seq<char> {
    if parent.len() == 0 || is_separator(windows, parent.last()) || is_drive(windows, parent) {
        parent + name
    } else if windows {
        parent + "\\"@ + name
    } else {
        parent + "/"@ + name
    }
}

pub fn join_path(windows: bool, parent: &str, name: &str) -> (r: String)
    ensures
        r@ == joined_path(windows, parent@, name@),
{
    let n: usize = parent.unicode_len();
    if n == 0 {
        return concat2(parent, name);
    }
    let last = parent.get_char(n - 1);
    if last == '/' || (windows && (last == '\\' || (n == 2 && last == ':'))) {
        concat2(parent, name)
    } else if windows {
        concat3(parent, "\\", name)
    } else {
        concat3(parent, "/", name)
    }
}

/// The directory of an instance: its parent directory plus its name.
pub fn instance_target_path(parent: &str, name: &str, windows: bool) -> (r: Result<
    String,
    String,
>)
    ensures
        r is Ok <==> name_fault(name@) is None,
        r matches Ok(path) ==> path@ == joined_path(windows, parent@, trimmed(name@)),
        r matches Err(message) ==> name_fault(name@) == Some(message@),
{
    let name = trim(name);
    if name.is_empty() {
        return Err("Instance name cannot be empty".to_owned());
    }
    if same(name, ".") || same(name, "..") || contains(name, "/") || contains(name, "\\")
        || contains(name, "\0") {
        return Err("Instance name cannot contain path separators".to_owned());
    }
    Ok(join_path(windows, parent, name))
}

/// What is found at the working directory of an instance that is to be removed.
pub enum WorkDirState {
    Missing,
    Uncheckable(String),
    Symlink,
    NotDirectory,
    Unresolvable(String),
    /// A directory: whether it is the root of the file system, the user's home, or where the
    /// desktop itself runs.
    Directory { is_root: bool, is_home: bool, is_current: bool },
}

/// What keeps a working directory from being removed, if anything does.
pub open spec fn removal_fault(state: WorkDirState) -> Option<Seq<char>> {
    match state {
        WorkDirState::Missing => None,
        WorkDirState::Uncheckable(error) => Some(
            "Failed to check instance working directory: "@ + error@,
        ),
        WorkDirState::Symlink => Some("Refusing to delete symlink instance working directory"@),
        WorkDirState::NotDirectory => Some("Instance working directory is not a directory"@),
        WorkDirState::Unresolvable(error) => Some(
            "Failed to resolve instance working directory: "@ + error@,
        ),
        WorkDirState::Directory { is_root, is_home, is_current } => if is_root {
            Some("Refusing to delete filesystem root"@)
        } else if is_home {
            Some("Refusing to delete user home directory"@)
        } else if is_current {
            Some("Refusing to delete AgentSeek Desktop current working directory"@)
        } else {
            None
        },
    }
}

/// Decides whether a working directory is to be removed; one that is missing already is not.
pub fn remove_instance_work_dir(state: &WorkDirState) -> (r: Result<bool, String>)
    ensures
        r is Ok <==> removal_fault(*state) is None,
        r matches Ok(remove) ==> remove == (*state is Directory),
        r matches Err(message) ==> removal_fault(*state) == Some(message@),
{
    match state {
        WorkDirState::Missing => Ok(false),
        WorkDirState::Uncheckable(error) => Err(
            concat2("Failed to check instance working directory: ", error.as_str()),
        ),
        WorkDirState::Symlink => Err(
            "Refusing to delete symlink instance working directory".to_owned(),
        ),
        WorkDirState::NotDirectory => Err(
            "Instance working directory is not a directory".to_owned(),
        ),
        WorkDirState::Unresolvable(error) => Err(
            concat2("Failed to resolve instance working directory: ", error.as_str()),
        ),
        WorkDirState::Directory { is_root, is_home, is_current } => {
            if *is_root {
                Err("Refusing to delete filesystem root".to_owned())
            } else if *is_home {
                Err("Refusing to delete user home directory".to_owned())
            } else if *is_current {
                Err("Refusing to delete AgentSeek Desktop current working directory".to_owned())
            } else {
                Ok(true)
            }
        },
    }
}

// ---------------------------------------------------------------------------
// The list of instances
// ---------------------------------------------------------------------------

/// The position from `i` on of the instance with the given id, or the length.
pub open spec fn instance_from(instances: Seq<InstanceModel>, id: Seq<char>, i: int) -> int
    decreases instances.len() - i,
{
    if i < 0 || i >= instances.len() || instances[i].id == id {
        i
    } else {
        instance_from(instances, id, i + 1)
    }
}

fn instance_position(instances: &Vec<InstanceRecord>, id: &str) -> (r: usize)
    ensures
        r == instance_from(instances_view(instances@), id@, 0),
        r <= instances@.len(),
{
    let ghost is = instances_view(instances@);
    let mut i: usize = 0;
    while i < instances.len()
        invariant
            i <= instances@.len(),
            is == instances_view(instances@),
            instance_from(is, id@, 0) == instance_from(is, id@, i as int),
        decreases instances@.len() - i,
    {
        assert(is[i as int] == instances@[i as int]@);
        if same(instances[i].id.as_str(), id) {
            return i;
        }
        i = i + 1;
    }
    i
}

/// Finds an instance by its id.
pub fn instance_by_id(instances: &Vec<InstanceRecord>, instance_id: &str) -> (r: Result<
    InstanceRecord,
    String,
>)
    ensures
        ({
            let is = instances_view(instances@);
            let k = instance_from(is, instance_id@, 0);
            &&& r is Ok <==> k < is.len()
            &&& r matches Ok(found) ==> found@ == is[k]
            &&& r matches Err(message) ==> message@ == "Instance not found"@
        }),
{
    let k: usize = instance_position(instances, instance_id);
    if k < instances.len() {
        assert(instances_view(instances@)[k as int] == instances@[k as int]@);
        Ok(instances[k].duplicate())
    } else {
        Err("Instance not found".to_owned())
    }
}

/// Puts a record in the place of the instance with its id.
pub fn update_instance(instances: &mut Vec<InstanceRecord>, record: InstanceRecord) -> (r: Result<
    (),
    String,
>)
    ensures
        ({
            let before = instances_view(old(instances)@);
            let k = instance_from(before, record@.id, 0);
            &&& r is Ok <==> k < before.len()
            &&& instances_view(final(instances)@) == (if k < before.len() {
                before.update(k, record@)
            } else {
                before
            })
            &&& r matches Err(message) ==> message@ == "Instance not found"@
        }),
{
    let ghost before = instances_view(instances@);
    let ghost model = record@;
    let k: usize = instance_position(instances, record.id.as_str());
    if k < instances.len() {
        instances.set(k, record);
        assert(instances_view(instances@) == before.update(k as int, model));
        Ok(())
    } else {
        Err("Instance not found".to_owned())
    }
}

/// The place of a creation time among records from `i` on, newest first: behind those that
/// are as new or newer.
pub open spec fn newer_from(sorted: Seq<InstanceModel>, created_at: u64, i: int) -> int
    decreases sorted.len() - i,
{
    if 0 <= i < sorted.len() && sorted[i].created_at >= created_at {
        newer_from(sorted, created_at, i + 1)
    } else {
        i
    }
}

/// The records newest first; those created at the same time keep their order.
pub open spec fn newest_first_of(instances: Seq<InstanceModel>) -> Seq<InstanceModel>
    decreases instances.len(),
{
    if instances.len() == 0 {
        Seq::empty()
    } else {
        let sorted = newest_first_of(instances.drop_last());
        sorted.insert(newer_from(sorted, instances.last().created_at, 0), instances.last())
    }
}

/// Lists instances newest first.
pub fn newest_first(instances: &Vec<InstanceRecord>) -> (r: Vec<InstanceRecord>)
    ensures
        instances_view(r@) == newest_first_of(instances_view(instances@)),
{
    let ghost is = instances_view(instances@);
    let mut r: Vec<InstanceRecord> = Vec::new();
    let mut i: usize = 0;
    assert(instances_view(r@) == newest_first_of(is.take(0)));
    while i < instances.len()
        invariant
            i <= instances@.len(),
            is == instances_view(instances@),
            instances_view(r@) == newest_first_of(is.take(i as int)),
        decreases instances@.len() - i,
    {
        assert(is.take(i + 1).drop_last() == is.take(i as int));
        assert(is.take(i + 1).last() == instances@[i as int]@);
        let ghost sorted = instances_view(r@);
        let mut k: usize = 0;
        while k < r.len() && r[k].created_at >= instances[i].created_at
            invariant
                k <= r@.len(),
                sorted == instances_view(r@),
                newer_from(sorted, instances@[i as int].created_at, 0) == newer_from(
                    sorted,
                    instances@[i as int].created_at,
                    k as int,
                ),
            decreases r@.len() - k,
        {
            assert(sorted[k as int] == r@[k as int]@);
            k = k + 1;
        }
        if k < r.len() {
            assert(sorted[k as int] == r@[k as int]@);
        }
        let copy = instances[i].duplicate();
        let ghost model = copy@;
        r.insert(k, copy);
        assert(instances_view(r@) == sorted.insert(k as int, model));
        i = i + 1;
    }
    assert(is.take(is.len() as int) == is);
    r
}

proof fn lemma_newer_from(sorted: Seq<InstanceModel>, created_at: u64, i: int)
    requires
        0 <= i <= sorted.len(),
    ensures
        i <= newer_from(sorted, created_at, i) <= sorted.len(),
        forall|j: int|
            i <= j < newer_from(sorted, created_at, i) ==> (#[trigger] sorted[j]).created_at
                >= created_at,
        newer_from(sorted, created_at, i) < sorted.len() ==> sorted[newer_from(
            sorted,
            created_at,
            i,
        )].created_at < created_at,
    decreases sorted.len() - i,
{
    if i < sorted.len() && sorted[i].created_at >= created_at {
        lemma_newer_from(sorted, created_at, i + 1);
    }
}

/// The list of instances holds every record once, and none stands before a newer one.
pub proof fn law_listed_newest_first(instances: Seq<InstanceModel>)
    ensures
        newest_first_of(instances).to_multiset() =~= instances.to_multiset(),
        forall|i: int, j: int|
            0 <= i < j < newest_first_of(instances).len() ==> (#[trigger] newest_first_of(
                instances,
            )[i]).created_at >= (#[trigger] newest_first_of(instances)[j]).created_at,
    decreases instances.len(),
{
    broadcast use vstd::seq_lib::group_to_multiset_ensures;

    if instances.len() > 0 {
        let before = instances.drop_last();
        let sorted = newest_first_of(before);
        let last = instances.last();
        law_listed_newest_first(before);
        lemma_newer_from(sorted, last.created_at, 0);
        let k = newer_from(sorted, last.created_at, 0);
        let out = sorted.insert(k, last);
        vstd::seq_lib::to_multiset_insert(sorted, k, last);
        assert(before.push(last) == instances);
        assert forall|i: int, j: int| 0 <= i < j < out.len() implies (#[trigger] out[i]).created_at
            >= (#[trigger] out[j]).created_at by {
            sorted.insert_ensures(k, last);
        }
    } else {
        assert(newest_first_of(instances) == instances);
    }
}

// ---------------------------------------------------------------------------
// Statuses
// ---------------------------------------------------------------------------

/// The status of an instance whose deployment failed: one that ran before and was marked for
/// a check has to be restarted.
pub open spec fn failed_status(restartable: bool, needs_doctor: bool) -> Seq<char> {
    if restartable && needs_doctor {
        "needs-restart"@
    } else {
        "failed"@
    }
}

/// Marks an instance whose deployment failed.
pub fn finalize_failed_deployment(
    instance: &mut InstanceRecord,
    needs_restart_on_doctor: bool,
    now: u64,
)
    ensures
        final(instance)@ == (InstanceModel {
            status: failed_status(needs_restart_on_doctor, old(instance)@.needs_doctor),
            updated_at: now,
            ..old(instance)@
        }),
{
    let restart: bool = needs_restart_on_doctor && instance.needs_doctor;
    instance.status =
    if restart {
        "needs-restart".to_owned()
    } else {
        "failed".to_owned()
    };
    instance.updated_at = now;
}

/// Marks an instance whose environment was edited: one that was deployed has to be checked
/// and restarted; another can be installed once it has an environment.
pub fn mark_env_edited(instance: &mut InstanceRecord, deployment_completed: bool, now: u64)
    ensures
        final(instance)@ == (InstanceModel {
            needs_doctor: deployment_completed,
            status: if deployment_completed {
                "needs-restart"@
            } else if old(instance)@.env_path is Some {
                "ready-to-install"@
            } else {
                "configuring"@
            },
            updated_at: now,
            ..old(instance)@
        }),
{
    let configured: bool = instance.env_path.is_some();
    instance.needs_doctor = deployment_completed;
    instance.status =
    if deployment_completed {
        "needs-restart".to_owned()
    } else if configured {
        "ready-to-install".to_owned()
    } else {
        "configuring".to_owned()
    };
    instance.updated_at = now;
}

/// Marks an instance whose environment was written to `env_path`.
pub fn mark_env_saved(
    instance: &mut InstanceRecord,
    env_path: &str,
    deployment_completed: bool,
    now: u64,
)
    ensures
        final(instance)@ == (InstanceModel {
            env_path: Some(env_path@),
            needs_doctor: deployment_completed,
            status: if deployment_completed {
                "needs-restart"@
            } else {
                "ready-to-install"@
            },
            updated_at: now,
            ..old(instance)@
        }),
{
    instance.env_path = Some(env_path.to_owned());
    instance.needs_doctor = deployment_completed;
    instance.status =
    if deployment_completed {
        "needs-restart".to_owned()
    } else {
        "ready-to-install".to_owned()
    };
    instance.updated_at = now;
}

// ---------------------------------------------------------------------------
// What a process gets
// ---------------------------------------------------------------------------

/// Whether an entry cannot be handed to a process.
pub open spec fn is_unusable(e: EnvModel) -> bool {
    holds(e.key, "="@) || holds(e.key, "\0"@) || holds(e.value, "\0"@)
}

/// The key of the first entry from `i` on that cannot be handed to a process.
pub open spec fn unusable_from(env: Seq<EnvModel>, i: int) -> Option<Seq<char>>
    decreases env.len() - i,
{
    if i < 0 || i >= env.len() {
        None
    } else if is_unusable(env[i]) {
        Some(env[i].key)
    } else {
        unusable_from(env, i + 1)
    }
}

/// The value of the first entry from `i` on with the key, in any case.
pub open spec fn value_of_key(env: Seq<EnvModel>, key: Seq<char>, i: int) -> Option<Seq<char>>
    decreases env.len() - i,
{
    if i < 0 || i >= env.len() {
        None
    } else if lower(env[i].key) == lower(key) {
        Some(env[i].value)
    } else {
        value_of_key(env, key, i + 1)
    }
}

fn find_value_of_key<'a>(entries: &'a Vec<EnvVariable>, key: &str) -> (r: Option<&'a str>)
    ensures
        opt_str(r) == value_of_key(envs(entries@), key@, 0),
{
    let ghost env = envs(entries@);
    let mut i: usize = 0;
    while i < entries.len()
        invariant
            i <= entries@.len(),
            env == envs(entries@),
            value_of_key(env, key@, 0) == value_of_key(env, key@, i as int),
        decreases entries@.len() - i,
    {
        assert(env[i as int] == entries@[i as int]@);
        if same_ignoring_case(entries[i].key.as_str(), key) {
            return Some(entries[i].value.as_str());
        }
        i = i + 1;
    }
    None
}

/// The port of the LangGraph server: that of `BACKEND_PORT`, or of `LANGGRAPH_PORT` where the
/// former is not there.
pub open spec fn langgraph_port(env: Seq<EnvModel>) -> Option<int> {
    let value = match value_of_key(env, "BACKEND_PORT"@, 0) {
        Some(v) => Some(v),
        None => value_of_key(env, "LANGGRAPH_PORT"@, 0),
    };
    match value {
        Some(v) => parsed(trimmed(v), 65535),
        None => None,
    }
}

/// The variables that a process gets beside those of the file: the address of the LangGraph
/// server for the frontend, and the mirror of the model hub where that is out of reach; each
/// unless the file sets it.
pub open spec fn added_variables(env: Seq<EnvModel>, hub_reachable: bool) -> Seq<
    (Seq<char>, Seq<char>),
> {
    (if value_of_key(env, "VITE_LANGGRAPH_API_URL"@, 0) is None && langgraph_port(env) is Some {
        seq![
            (
                "VITE_LANGGRAPH_API_URL"@,
                "http://127.0.0.1:"@ + decimal(langgraph_port(env)->0 as nat),
            ),
        ]
    } else {
        Seq::empty()
    }) + (if value_of_key(env, "HF_ENDPOINT"@, 0) is None && !hub_reachable {
        seq![("HF_ENDPOINT"@, HF_MIRROR@)]
    } else {
        Seq::empty()
    })
}

/// The variables that a process of an instance gets.
pub open spec fn process_variables(env: Seq<EnvModel>, hub_reachable: bool) -> Seq<
    (Seq<char>, Seq<char>),
> {
    env.map_values(|e: EnvModel| (e.key, plain_value(e.value))) + added_variables(
        env,
        hub_reachable,
    )
}

/// What a list of variables stands for.
pub open spec fn variables_view(v: Seq<(String, String)>) -> Seq<(Seq<char>, Seq<char>)> {
    v.map_values(|p: (String, String)| (p.0@, p.1@))
}

/// Gives the variables for a process of an instance, or names the first entry that cannot be
/// handed to one.
pub fn apply_instance_environment(entries: &Vec<EnvVariable>, hub_reachable: bool) -> (r: Result<
    Vec<(String, String)>,
    String,
>)
    ensures
        r is Ok <==> unusable_from(envs(entries@), 0) is None,
        r matches Ok(variables) ==> variables_view(variables@) == process_variables(
            envs(entries@),
            hub_reachable,
        ),
        r matches Err(message) ==> message@ == "Instance .env contains invalid variable: "@
            + unusable_from(envs(entries@), 0)->0,
{
    let ghost env = envs(entries@);
    let ghost pairs = env.map_values(|e: EnvModel| (e.key, plain_value(e.value)));
    let mut out: Vec<(String, String)> = Vec::new();
    let mut i: usize = 0;
    while i < entries.len()
        invariant
            i <= entries@.len(),
            env == envs(entries@),
            unusable_from(env, 0) == unusable_from(env, i as int),
            variables_view(out@) == pairs.take(i as int),
        decreases entries@.len() - i,
    {
        assert(env[i as int] == entries@[i as int]@);
        let key = entries[i].key.as_str();
        let value = entries[i].value.as_str();
        if contains(key, "=") || contains(key, "\0") || contains(value, "\0") {
            return Err(concat2("Instance .env contains invalid variable: ", key));
        }
        let ghost before = variables_view(out@);
        let pair = (key.to_owned(), process_env_value(value));
        let ghost model = (pair.0@, pair.1@);
        out.push(pair);
        assert(variables_view(out@) == before.push(model));
        i = i + 1;
    }
    assert(pairs.take(pairs.len() as int) == pairs);
    let ghost before = variables_view(out@);
    if find_value_of_key(entries, "VITE_LANGGRAPH_API_URL").is_none() {
        let value = match find_value_of_key(entries, "BACKEND_PORT") {
            Some(v) => Some(v),
            None => find_value_of_key(entries, "LANGGRAPH_PORT"),
        };
        if let Some(value) = value {
            if let Some(port) = parse_u16(trim(value)) {
                let pair = (
                    "VITE_LANGGRAPH_API_URL".to_owned(),
                    concat2("http://127.0.0.1:", decimal_of(port as u64).as_str()),
                );
                let ghost model = (pair.0@, pair.1@);
                out.push(pair);
                assert(variables_view(out@) == before.push(model));
                assert(before.push(model) == before + seq![model]);
            }
        }
    }
    let ghost middle = variables_view(out@);
    if find_value_of_key(entries, "HF_ENDPOINT").is_none() && !hub_reachable {
        let pair = ("HF_ENDPOINT".to_owned(), HF_MIRROR.to_owned());
        let ghost model = (pair.0@, pair.1@);
        out.push(pair);
        assert(variables_view(out@) == middle.push(model));
        assert(middle.push(model) == middle + seq![model]);
    }
    assert(variables_view(out@) == process_variables(env, hub_reachable));
    Ok(out)
}

// ---------------------------------------------------------------------------
// Commands and their outcome
// ---------------------------------------------------------------------------

/// A command that ran: its exit code, what it printed, and the command line.
#[derive(Clone, Debug)]
pub struct CommandResult {
    pub code: i32,
    pub output: String,
    pub command: String,
}

/// A command line as it is shown: program, fixed arguments and arguments, blanks between them.
pub fn printable_command(program: &str, prefix: &Vec<String>, args: &Vec<String>) -> (r: String)
    ensures
        r@ == joined(seq![program@] + texts(prefix@) + texts(args@), " "@),
{
    let mut parts: Vec<String> = vec![program.to_owned()];
    assert(texts(parts@) == seq![program@]);
    push_all(&mut parts, prefix);
    push_all(&mut parts, args);
    join(&parts, " ")
}

pub(crate) fn push_all(parts: &mut Vec<String>, more: &Vec<String>)
    ensures
        texts(final(parts)@) == texts(old(parts)@) + texts(more@),
{
    let ghost start = texts(parts@);
    let mut i: usize = 0;
    assert(start + texts(more@).take(0) == start);
    while i < more.len()
        invariant
            i <= more@.len(),
            texts(parts@) == start + texts(more@).take(i as int),
        decreases more@.len() - i,
    {
        let ghost before = texts(parts@);
        let copy = more[i].clone();
        let ghost model = copy@;
        parts.push(copy);
        assert(texts(parts@) == before.push(model));
        assert(texts(more@).take(i + 1) == texts(more@).take(i as int).push(model));
        i = i + 1;
    }
    assert(texts(more@).take(more@.len() as int) == texts(more@));
}

/// Whether a line only reports how far an image layer has come.
pub open spec fn is_layer_progress(line: Seq<char>) -> bool {
    holds(line, "sha256:"@) && holds(line, " / "@) && !holds(line, "done"@)
}

pub fn skips_output_line(line: &str) -> (r: bool)
    ensures
        r == is_layer_progress(line@),
{
    contains(line, "sha256:") && contains(line, " / ") && !contains(line, "done")
}

/// The level and the message that report the end of a command.
pub fn command_report(code: i32, command: &str, seconds: u64) -> (r: (String, String))
    ensures
        r.0@ == (if code == 0 {
            "success"@
        } else {
            "error"@
        }),
        r.1@ == (if code == 0 {
            "Command completed: "@
        } else {
            "Command failed: "@
        }) + command@ + " ("@ + decimal(seconds as nat) + " seconds)"@,
{
    let number = decimal_of(seconds);
    if code == 0 {
        (
            "success".to_owned(),
            concat5("Command completed: ", command, " (", number.as_str(), " seconds)"),
        )
    } else {
        (
            "error".to_owned(),
            concat5("Command failed: ", command, " (", number.as_str(), " seconds)"),
        )
    }
}

/// What a logged command gives: its result, or, where it failed, what it printed.
pub fn command_outcome(code: i32, output: String, command: String) -> (r: Result<
    CommandResult,
    String,
>)
    ensures
        r is Ok <==> code == 0,
        r matches Ok(result) ==> result.code == 0 && result.output@ == output@
            && result.command@ == command@,
        r matches Err(message) ==> message@ == (if output@.len() == 0 {
            "Command execution failed: "@ + command@
        } else {
            output@
        }),
{
    if code != 0 {
        return Err(
            if output.as_str().is_empty() {
                concat2("Command execution failed: ", command.as_str())
            } else {
                output
            },
        );
    }
    Ok(CommandResult { code, output, command })
}

/// The result of a command from its exit code, if it has one, and what it printed on both
/// streams, white space around it aside.
pub fn run_instance_cli(code: Option<i32>, stdout: &str, stderr: &str, command: String) -> (r:
    CommandResult)
    ensures
        r.code == (match code {
            Some(c) => c,
            None => 1i32,
        }),
        r.output@ == trimmed(stdout@ + stderr@),
        r.command@ == command@,
{
    let both = concat2(stdout, stderr);
    CommandResult {
        code: match code {
            Some(c) => c,
            None => 1,
        },
        output: trim(both.as_str()).to_owned(),
        command,
    }
}

/// Whether a task runs during the installation: tasks that import data, export traces or stop
/// services do not.
pub open spec fn is_install_task(name: Seq<char>) -> bool {
    name.len() > 0 && !starts(name, "ingest"@) && name != "relay-export"@ && !ends(name, "-stop"@)
        && !ends(name, "_stop"@)
}

/// The tasks that the lines from `i` on list and that run during the installation.
pub open spec fn install_tasks_from(ls: Seq<Seq<char>>, i: int) -> Seq<Seq<char>>
    decreases ls.len() - i,
{
    if i < 0 || i >= ls.len() {
        Seq::empty()
    } else if words(ls[i]).len() > 0 && is_install_task(words(ls[i])[0]) {
        seq![words(ls[i])[0]] + install_tasks_from(ls, i + 1)
    } else {
        install_tasks_from(ls, i + 1)
    }
}

/// Picks the tasks to run from a list with one task to a line.
pub fn install_tasks(output: &str) -> (r: Vec<String>)
    ensures
        texts(r@) == install_tasks_from(lines(output@), 0),
{
    let ls = lines_of(output);
    let ghost cs = lines(output@);
    let mut r: Vec<String> = Vec::new();
    let mut i: usize = 0;
    while i < ls.len()
        invariant
            i <= ls@.len(),
            texts(ls@) == cs,
            texts(r@) + install_tasks_from(cs, i as int) == install_tasks_from(cs, 0),
        decreases ls@.len() - i,
    {
        assert(cs[i as int] == ls@[i as int]@);
        let ws = split_whitespace(ls[i].as_str());
        if ws.len() > 0 {
            assert(texts(ws@)[0] == ws@[0]@);
            let name = ws[0].as_str();
            if !name.is_empty() && !starts_with(name, "ingest") && !same(name, "relay-export")
                && !ends_with(name, "-stop") && !ends_with(name, "_stop") {
                let ghost before = texts(r@);
                let ghost rest = install_tasks_from(cs, i + 1);
                let copy = name.to_owned();
                let ghost model = copy@;
                r.push(copy);
                assert(texts(r@) == before.push(model));
                assert(before.push(model) + rest == before + (seq![model] + rest));
            }
        }
        i = i + 1;
    }
    assert(texts(r@) + Seq::<Seq<char>>::empty() == texts(r@));
    r
}

// ---------------------------------------------------------------------------
// Waiting until an instance is ready
// ---------------------------------------------------------------------------

/// How long an instance may take to become ready, in seconds.
pub const READY_TIMEOUT_SECONDS: u64 = 300;

/// What to do next while waiting.
#[derive(Clone, Copy, Debug, PartialEq, Eq, Structural)]
pub enum WaitStep {
    /// Ask for the health of the services.
    Check,
    /// The services are ready.
    Ready,
    /// The process that started them ended and they are not healthy.
    Exited,
    /// Wait a moment before the next look.
    Pause,
    /// Time is up.
    TimedOut,
}

/// What to do after `elapsed` seconds: while there is time, ask for the health; where the
/// answer is in, an exit code of zero means ready, and else a process that ended is not
/// waited for.
pub fn wait_for_instance_ready(elapsed: u64, process_ended: bool, doctor_code: Option<i32>) -> (r:
    WaitStep)
    ensures
        r == (match doctor_code {
            None => if elapsed < READY_TIMEOUT_SECONDS {
                WaitStep::Check
            } else {
                WaitStep::TimedOut
            },
            Some(code) => if code == 0 {
                WaitStep::Ready
            } else if process_ended {
                WaitStep::Exited
            } else {
                WaitStep::Pause
            },
        }),
{
    match doctor_code {
        None => {
            if elapsed < READY_TIMEOUT_SECONDS {
                WaitStep::Check
            } else {
                WaitStep::TimedOut
            }
        },
        Some(code) => {
            if code == 0 {
                WaitStep::Ready
            } else if process_ended {
                WaitStep::Exited
            } else {
                WaitStep::Pause
            }
        },
    }
}

/// What is logged about an instance that is ready.
pub fn ready_report(seconds: u64) -> (r: String)
    ensures
        r@ == "All lifecycle services ready ("@ + decimal(seconds as nat) + " seconds)"@,
{
    concat3("All lifecycle services ready (", decimal_of(seconds).as_str(), " seconds)")
}

/// What is told of an instance whose process ended.
pub fn exited_message(name: &str) -> (r: String)
    ensures
        r@ == name@ + " instance startup process exited, please check lifecycle logs"@,
{
    concat2(name, " instance startup process exited, please check lifecycle logs")
}

/// What is told of an instance that did not get ready in time, from what the last check printed.
pub fn timed_out_message(latest: &str) -> (r: String)
    ensures
        r@
            == "Timed out waiting for instance services to be ready (300s). Please check lifecycle logs. Last doctor check:\n"@
            + joined(last_lines_of(latest@, 20), "\n"@),
{
    concat2(
        "Timed out waiting for instance services to be ready (300s). Please check lifecycle logs. Last doctor check:\n",
        last_lines(latest, 20).as_str(),
    )
}

/// What is logged of the output of an instance that did not get ready, if it printed anything.
pub fn output_report(tail: &str) -> (r: Option<String>)
    ensures
        opt_view(r) == (if tail@.len() == 0 {
            None
        } else {
            Some("Process output (last 80 lines):\n"@ + tail@)
        }),
{
    if tail.is_empty() {
        None
    } else {
        Some(concat2("Process output (last 80 lines):\n", tail))
    }
}

/// The last lines of a text, at most `count`.
pub open spec fn last_lines_of(text: Seq<char>, count: int) -> Seq<Seq<char>> {
    let ls = lines(text);
    ls.skip(if ls.len() > count {
        ls.len() - count
    } else {
        0
    })
}

/// The last lines of a text, at most `count`, joined again.
pub fn last_lines(text: &str, count: usize) -> (r: String)
    ensures
        r@ == joined(last_lines_of(text@, count as int), "\n"@),
{
    let ls = lines_of(text);
    let ghost cs = lines(text@);
    let start: usize = if ls.len() > count {
        ls.len() - count
    } else {
        0
    };
    let mut tail: Vec<String> = Vec::new();
    let mut i: usize = start;
    while i < ls.len()
        invariant
            start <= i <= ls@.len(),
            texts(ls@) == cs,
            texts(tail@) == cs.subrange(start as int, i as int),
        decreases ls@.len() - i,
    {
        let ghost before = texts(tail@);
        let copy = ls[i].clone();
        let ghost model = copy@;
        assert(model == cs[i as int]);
        tail.push(copy);
        assert(texts(tail@) == before.push(model));
        i = i + 1;
    }
    assert(texts(tail@) == last_lines_of(text@, count as int));
    join(&tail, "\n")
}

// ---------------------------------------------------------------------------
// Addresses that a command reports
// ---------------------------------------------------------------------------

/// The part of a line that starts where its lower-case form has `http`, counted in bytes, if
/// a character of the line starts there.
pub open spec fn reported_url(line: Seq<char>, lowered: Seq<char>) -> Option<Seq<char>> {
    match find(lowered, "http"@) {
        None => None,
        Some(k) => match char_at_byte(line, bytes(lowered.take(k)) as int, 0) {
            Some(j) => Some(trimmed(line.skip(j))),
            None => None,
        },
    }
}

/// Whether a line names an address that can be cut out of it, or names none.
pub open spec fn is_readable(line: Seq<char>, lowered: Seq<char>) -> bool {
    find(lowered, "http"@) is Some ==> reported_url(line, lowered) is Some
}

/// An instance after one line of the report, of which the lower-case form is given: the
/// address is that of the studio, the frontend or the agent, by what the line mentions; an
/// address of nothing in particular is the agent's if that has none yet.
pub open spec fn after_info_line(
    instance: InstanceModel,
    line: Seq<char>,
    lowered: Seq<char>,
) -> InstanceModel {
    match reported_url(line, lowered) {
        None => instance,
        Some(url) => if holds(lowered, "studio"@) || holds(lowered, "langsmith"@) {
            InstanceModel { studio_url: Some(url), ..instance }
        } else if holds(lowered, "frontend"@) || holds(lowered, " ui"@) {
            InstanceModel { ui_url: Some(url), ..instance }
        } else if holds(lowered, "agent"@) || holds(lowered, "gateway"@) || instance.agent_url
            is None {
            InstanceModel { agent_url: Some(url), ..instance }
        } else {
            instance
        },
    }
}

/// Takes over the address that a line of a report names; `lowered` is the line in lower case.
/// Says whether the address, if there is one, could be cut out of the line.
pub fn apply_info_line(instance: &mut InstanceRecord, line: &str, lowered: &str) -> (readable: bool)
    ensures
        readable == is_readable(line@, lowered@),
        final(instance)@ == after_info_line(old(instance)@, line@, lowered@),
{
    let k: usize = match index_of(lowered, "http") {
        Some(k) => k,
        None => {
            return true;
        },
    };
    let j: usize = match char_index_at_byte(line, byte_len(take(lowered, k))) {
        Some(j) => j,
        None => {
            return false;
        },
    };
    let url = trim(skip(line, j)).to_owned();
    if contains(lowered, "studio") || contains(lowered, "langsmith") {
        instance.studio_url = Some(url);
    } else if contains(lowered, "frontend") || contains(lowered, " ui") {
        instance.ui_url = Some(url);
    } else if contains(lowered, "agent") || contains(lowered, "gateway")
        || instance.agent_url.is_none() {
        instance.agent_url = Some(url);
    }
    true
}

/// An instance after the lines of a report from `i` on, up to the first that is not readable.
pub open spec fn after_info_from(instance: InstanceModel, ls: Seq<Seq<char>>, i: int) -> (
    InstanceModel,
    bool,
)
    decreases ls.len() - i,
{
    if i < 0 || i >= ls.len() {
        (instance, true)
    } else if !is_readable(ls[i], unicode_lower(ls[i])) {
        (instance, false)
    } else {
        after_info_from(after_info_line(instance, ls[i], unicode_lower(ls[i])), ls, i + 1)
    }
}

/// Takes over the addresses that a report names, line by line. Stops, and says so, at a line
/// whose address cannot be cut out of it because the lower-case form is laid out otherwise.
pub fn apply_info_urls(instance: &mut InstanceRecord, output: &str) -> (complete: bool)
    ensures
        (final(instance)@, complete) == after_info_from(old(instance)@, lines(output@), 0),
{
    let ls = lines_of(output);
    let ghost cs = lines(output@);
    let ghost start = instance@;
    let mut i: usize = 0;
    while i < ls.len()
        invariant
            i <= ls@.len(),
            texts(ls@) == cs,
            after_info_from(start, cs, 0) == after_info_from(instance@, cs, i as int),
        decreases ls@.len() - i,
    {
        assert(cs[i as int] == ls@[i as int]@);
        let line = ls[i].as_str();
        let lowered = line.to_lowercase();
        if !apply_info_line(instance, line, lowered.as_str()) {
            return false;
        }
        i = i + 1;
    }
    true
}

// ---------------------------------------------------------------------------
// Docker
// ---------------------------------------------------------------------------

/// What of Docker is there.
#[derive(Clone, Copy, Debug, PartialEq, Eq, Structural)]
pub struct DockerStatus {
    pub cli_available: bool,
    pub compose_v2_available: bool,
    pub daemon_running: bool,
}

/// What of Docker is there, from whether its three commands succeeded; without the first the
/// others do not count.
pub fn check_docker(version_ok: bool, compose_ok: bool, info_ok: bool) -> (r: DockerStatus)
    ensures
        r.cli_available == version_ok,
        r.compose_v2_available == (version_ok && compose_ok),
        r.daemon_running == (version_ok && info_ok),
{
    DockerStatus {
        cli_available: version_ok,
        compose_v2_available: version_ok && compose_ok,
        daemon_running: version_ok && info_ok,
    }
}

/// The names of compose files, the first choice first.
pub open spec fn compose_names() -> Seq<Seq<char>> {
    seq!["docker-compose.yml"@, "docker-compose.yaml"@, "compose.yml"@, "compose.yaml"@]
}

/// The first of the names from `i` on that is among the files.
pub open spec fn first_present(names: Seq<Seq<char>>, files: Seq<Seq<char>>, i: int) -> Option<
    Seq<char>,
>
    decreases names.len() - i,
{
    if i < 0 || i >= names.len() {
        None
    } else if files.contains(names[i]) {
        Some(names[i])
    } else {
        first_present(names, files, i + 1)
    }
}

fn lists(files: &Vec<String>, name: &str) -> (r: bool)
    ensures
        r == texts(files@).contains(name@),
{
    let ghost fs = texts(files@);
    let mut i: usize = 0;
    while i < files.len()
        invariant
            i <= files@.len(),
            fs == texts(files@),
            forall|j: int| 0 <= j < i ==> fs[j] != name@,
        decreases files@.len() - i,
    {
        assert(fs[i as int] == files@[i as int]@);
        if same(files[i].as_str(), name) {
            return true;
        }
        i = i + 1;
    }
    false
}

/// Finds the compose file among the files of a project directory.
pub fn docker_compose_file(files: &Vec<String>) -> (r: Option<&'static str>)
    ensures
        opt_str(r) == first_present(compose_names(), texts(files@), 0),
{
    reveal_with_fuel(first_present, 5);
    if lists(files, "docker-compose.yml") {
        Some("docker-compose.yml")
    } else if lists(files, "docker-compose.yaml") {
        Some("docker-compose.yaml")
    } else if lists(files, "compose.yml") {
        Some("compose.yml")
    } else if lists(files, "compose.yaml") {
        Some("compose.yaml")
    } else {
        None
    }
}

/// What is missing of Docker.
pub open spec fn docker_missing(status: DockerStatus) -> Seq<Seq<char>> {
    (if status.cli_available {
        Seq::empty()
    } else {
        seq!["Docker CLI not installed"@]
    }) + (if status.compose_v2_available {
        Seq::empty()
    } else {
        seq!["Docker Compose V2 not installed"@]
    }) + (if status.daemon_running {
        Seq::empty()
    } else {
        seq!["Docker not started"@]
    })
}

/// What keeps a project with a compose file from starting, if anything of Docker is missing.
pub fn docker_compose_check(compose_file: Option<&str>, status: DockerStatus) -> (r: Option<String>)
    ensures
        opt_view(r) == match opt_str(compose_file) {
            Some(file) => if docker_missing(status).len() > 0 {
                Some(
                    "Project contains "@ + file + ", but"@ + joined(docker_missing(status), ", "@)
                        + ". Please install and start Docker before continuing."@,
                )
            } else {
                None
            },
            None => None,
        },
{
    let file = match compose_file {
        Some(file) => file,
        None => {
            return None;
        },
    };
    let mut missing: Vec<String> = Vec::new();
    if !status.cli_available {
        missing.push("Docker CLI not installed".to_owned());
    }
    if !status.compose_v2_available {
        missing.push("Docker Compose V2 not installed".to_owned());
    }
    if !status.daemon_running {
        missing.push("Docker not started".to_owned());
    }
    assert(texts(missing@) == docker_missing(status));
    if missing.len() == 0 {
        return None;
    }
    Some(
        concat5(
            "Project contains ",
            file,
            ", but",
            join(&missing, ", ").as_str(),
            ". Please install and start Docker before continuing.",
        ),
    )
}

/// Refuses to start an instance whose project needs Docker where Docker is missing: gives the
/// message for the log and the one for the user.
pub fn ensure_docker_compose_ready(problem: Option<String>, name: &str) -> (r: Result<
    (),
    (String, String),
>)
    ensures
        r is Ok <==> problem is None,
        r matches Err(messages) ==> messages.0@ == problem->0@ && messages.1@ == name@
            + " instance startup process exited, please check lifecycle logs"@,
{
    match problem {
        Some(message) => Err(
            (
                message,
                concat2(name, " instance startup process exited, please check lifecycle logs"),
            ),
        ),
        None => Ok(()),
    }
}

/// How `docker compose down` ended.
pub enum ComposeDown {
    Done(String),
    Failed(Option<i32>, String),
    NotStarted(String),
}

/// A whole number in decimal notation.
pub open spec fn signed_decimal(n: int) -> Seq<char> {
    if n < 0 {
        "-"@ + decimal((-n) as nat)
    } else {
        decimal(n as nat)
    }
}

pub fn signed_decimal_of(n: i32) -> (r: String)
    ensures
        r@ == signed_decimal(n as int),
{
    if n < 0 {
        concat2("-", decimal_of((-(n as i64)) as u64).as_str())
    } else {
        decimal_of(n as u64)
    }
}

/// Whether some line from `i` on reports a container as removed or stopped.
pub open spec fn reports_removal_from(ls: Seq<Seq<char>>, i: int) -> bool
    decreases ls.len() - i,
{
    if i < 0 || i >= ls.len() {
        false
    } else {
        holds(ls[i], "Removed"@) || holds(ls[i], "Stopped"@) || reports_removal_from(ls, i + 1)
    }
}

/// Whether containers were cleaned up. A project without a compose file, or without
/// containers, has none.
pub fn cleanup_docker_containers(has_compose_file: bool, outcome: &ComposeDown) -> (r: Result<
    bool,
    String,
>)
    ensures
        !has_compose_file ==> r == Ok::<bool, String>(false),
        has_compose_file ==> match *outcome {
            ComposeDown::Done(stdout) => r == Ok::<bool, String>(
                reports_removal_from(lines(stdout@), 0) || holds(stdout@, "Going to remove"@),
            ),
            ComposeDown::Failed(code, stderr) => if holds(
                stderr@,
                "no configuration file provided"@,
            ) || holds(stderr@, "no containers to start"@) {
                r == Ok::<bool, String>(false)
            } else {
                r matches Err(message) && message@ == "docker compose down failed (exit "@
                    + signed_decimal(
                    match code {
                        Some(c) => c as int,
                        None => -1,
                    },
                ) + "): "@ + trimmed(stderr@)
            },
            ComposeDown::NotStarted(error) => r matches Err(message) && message@
                == "Failed to execute docker compose down: "@ + error@,
        },
{
    if !has_compose_file {
        return Ok(false);
    }
    match outcome {
        ComposeDown::Done(stdout) => {
            let ls = lines_of(stdout.as_str());
            let ghost cs = lines(stdout@);
            let mut removed: bool = false;
            let mut i: usize = 0;
            while i < ls.len()
                invariant
                    i <= ls@.len(),
                    texts(ls@) == cs,
                    reports_removal_from(cs, 0) == (removed || reports_removal_from(
                        cs,
                        i as int,
                    )),
                decreases ls@.len() - i,
            {
                assert(cs[i as int] == ls@[i as int]@);
                if contains(ls[i].as_str(), "Removed") || contains(ls[i].as_str(), "Stopped") {
                    removed = true;
                }
                i = i + 1;
            }
            Ok(removed || contains(stdout.as_str(), "Going to remove"))
        },
        ComposeDown::Failed(code, stderr) => {
            if contains(stderr.as_str(), "no configuration file provided") || contains(
                stderr.as_str(),
                "no containers to start",
            ) {
                return Ok(false);
            }
            let number: i32 = match code {
                Some(c) => *c,
                None => -1,
            };
            Err(
                concat4(
                    "docker compose down failed (exit ",
                    signed_decimal_of(number).as_str(),
                    "): ",
                    trim(stderr.as_str()),
                ),
            )
        },
        ComposeDown::NotStarted(error) => Err(
            concat2("Failed to execute docker compose down: ", error.as_str()),
        ),
    }
}

// ---------------------------------------------------------------------------
// Processes
// ---------------------------------------------------------------------------

/// The process ids that the lines from `i` on give, one to a line.
pub open spec fn process_ids_from(ls: Seq<Seq<char>>, i: int) -> Seq<u32>
    decreases ls.len() - i,
{
    if i < 0 || i >= ls.len() {
        Seq::empty()
    } else {
        match parsed(trimmed(ls[i]), u32::MAX as int) {
            Some(p) => seq![p as u32] + process_ids_from(ls, i + 1),
            None => process_ids_from(ls, i + 1),
        }
    }
}

/// Reads process ids, one to a line; other lines are passed over.
pub fn child_process_ids(output: &str) -> (r: Vec<u32>)
    ensures
        r@ == process_ids_from(lines(output@), 0),
{
    let ls = lines_of(output);
    let ghost cs = lines(output@);
    let mut r: Vec<u32> = Vec::new();
    let mut i: usize = 0;
    while i < ls.len()
        invariant
            i <= ls@.len(),
            texts(ls@) == cs,
            r@ + process_ids_from(cs, i as int) == process_ids_from(cs, 0),
        decreases ls@.len() - i,
    {
        assert(cs[i as int] == ls@[i as int]@);
        if let Some(p) = parse_up_to(trim(ls[i].as_str()), u32::MAX as u64) {
            let ghost before = r@;
            let ghost rest = process_ids_from(cs, i + 1);
            r.push(p as u32);
            assert(before.push(p as u32) + rest == before + (seq![p as u32] + rest));
        }
        i = i + 1;
    }
    assert(r@ + Seq::<u32>::empty() == r@);
    r
}

/// The port of a service endpoint: the number behind the last colon before the path.
pub open spec fn endpoint_port_of(url: Seq<char>) -> Option<int> {
    match cut(url, "://"@) {
        None => None,
        Some(p) => {
            let authority = before_slash(p.1);
            match rcut(authority, ":"@) {
                Some(q) => parsed(q.1, 65535),
                None => None,
            }
        },
    }
}

pub fn endpoint_port(url: &str) -> (r: Option<u16>)
    ensures
        port_num(r) == endpoint_port_of(url@),
{
    match split_once(url, "://") {
        None => None,
        Some(p) => {
            let authority = match split_once(p.1, "/") {
                Some(q) => q.0,
                None => p.1,
            };
            match rsplit_once(authority, ":") {
                Some(q) => parse_u16(q.1),
                None => None,
            }
        },
    }
}

/// The listeners that belong to the instance, from `i` on.
pub open spec fn related_from(pids: Seq<u32>, related: Seq<u32>, i: int) -> Seq<u32>
    decreases pids.len() - i,
{
    if i < 0 || i >= pids.len() {
        Seq::empty()
    } else if related.contains(pids[i]) {
        seq![pids[i]] + related_from(pids, related, i + 1)
    } else {
        related_from(pids, related, i + 1)
    }
}

/// The listeners on a port that do not belong to the instance, from `i` on.
pub open spec fn unrelated_from(pids: Seq<u32>, related: Seq<u32>, port: u16, i: int) -> Seq<
    (u32, u16),
>
    decreases pids.len() - i,
{
    if i < 0 || i >= pids.len() {
        Seq::empty()
    } else if !related.contains(pids[i]) {
        seq![(pids[i], port)] + unrelated_from(pids, related, port, i + 1)
    } else {
        unrelated_from(pids, related, port, i + 1)
    }
}

/// The listeners on the ports from `i` on that belong to the instance.
pub open spec fn own_listeners_from(
    listeners: Seq<(u16, Seq<char>)>,
    related: Seq<u32>,
    i: int,
) -> Seq<u32>
    decreases listeners.len() - i,
{
    if i < 0 || i >= listeners.len() {
        Seq::empty()
    } else {
        related_from(process_ids_from(lines(listeners[i].1), 0), related, 0) + own_listeners_from(
            listeners,
            related,
            i + 1,
        )
    }
}

/// The listeners on the ports from `i` on that do not belong to the instance.
pub open spec fn other_listeners_from(
    listeners: Seq<(u16, Seq<char>)>,
    related: Seq<u32>,
    i: int,
) -> Seq<(u32, u16)>
    decreases listeners.len() - i,
{
    if i < 0 || i >= listeners.len() {
        Seq::empty()
    } else {
        unrelated_from(
            process_ids_from(lines(listeners[i].1), 0),
            related,
            listeners[i].0,
            0,
        ) + other_listeners_from(listeners, related, i + 1)
    }
}

/// What a list of ports, each with the listing of its listeners, stands for.
pub open spec fn listings_view(v: Seq<(u16, String)>) -> Seq<(u16, Seq<char>)> {
    v.map_values(|p: (u16, String)| (p.0, p.1@))
}

fn is_related(related: &Vec<u32>, pid: u32) -> (r: bool)
    ensures
        r == related@.contains(pid),
{
    let mut i: usize = 0;
    while i < related.len()
        invariant
            i <= related@.len(),
            forall|j: int| 0 <= j < i ==> related@[j] != pid,
        decreases related@.len() - i,
    {
        if related[i] == pid {
            return true;
        }
        i = i + 1;
    }
    false
}

/// Parts the processes that listen on the ports of an instance into those of its own process
/// tree, `related`, which may be stopped, and others, which may not.
pub fn listener_process_ids(related: &Vec<u32>, listeners: &Vec<(u16, String)>) -> (r: (
    Vec<u32>,
    Vec<(u32, u16)>,
))
    ensures
        r.0@ == own_listeners_from(listings_view(listeners@), related@, 0),
        r.1@ == other_listeners_from(listings_view(listeners@), related@, 0),
{
    let ghost ls = listings_view(listeners@);
    let mut own: Vec<u32> = Vec::new();
    let mut others: Vec<(u32, u16)> = Vec::new();
    let mut i: usize = 0;
    while i < listeners.len()
        invariant
            i <= listeners@.len(),
            ls == listings_view(listeners@),
            own@ + own_listeners_from(ls, related@, i as int) == own_listeners_from(
                ls,
                related@,
                0,
            ),
            others@ + other_listeners_from(ls, related@, i as int) == other_listeners_from(
                ls,
                related@,
                0,
            ),
        decreases listeners@.len() - i,
    {
        assert(ls[i as int] == (listeners@[i as int].0, listeners@[i as int].1@));
        let port: u16 = listeners[i].0;
        let pids = child_process_ids(listeners[i].1.as_str());
        let ghost own0 = own@;
        let ghost others0 = others@;
        let ghost own_here = related_from(pids@, related@, 0);
        let ghost others_here = unrelated_from(pids@, related@, port, 0);
        let mut k: usize = 0;
        assert(own0 + own_here == own0 + own_here);
        while k < pids.len()
            invariant
                k <= pids@.len(),
                own@ + related_from(pids@, related@, k as int) == own0 + own_here,
                others@ + unrelated_from(pids@, related@, port, k as int) == others0 + others_here,
            decreases pids@.len() - k,
        {
            let ghost before = own@;
            let ghost before_others = others@;
            let ghost rest = related_from(pids@, related@, k + 1);
            let ghost rest_others = unrelated_from(pids@, related@, port, k + 1);
            if is_related(related, pids[k]) {
                own.push(pids[k]);
                assert(before.push(pids@[k as int]) + rest == before + (seq![pids@[k as int]]
                    + rest));
            } else {
                others.push((pids[k], port));
                assert(before_others.push((pids@[k as int], port)) + rest_others == before_others
                    + (seq![(pids@[k as int], port)] + rest_others));
            }
            k = k + 1;
        }
        assert(own@ + Seq::<u32>::empty() == own@);
        assert(others@ + Seq::<(u32, u16)>::empty() == others@);
        assert(own0 + own_here + own_listeners_from(ls, related@, i + 1) == own0 + (own_here
            + own_listeners_from(ls, related@, i + 1)));
        assert(others0 + others_here + other_listeners_from(ls, related@, i + 1) == others0 + (
        others_here + other_listeners_from(ls, related@, i + 1)));
        i = i + 1;
    }
    assert(own@ + Seq::<u32>::empty() == own@);
    assert(others@ + Seq::<(u32, u16)>::empty() == others@);
    (own, others)
}

/// No process outside the process tree of an instance is among those to be stopped.
pub proof fn law_only_related_listeners_are_stopped(
    listeners: Seq<(u16, Seq<char>)>,
    related: Seq<u32>,
    i: int,
)
    requires
        0 <= i,
    ensures
        forall|k: int|
            0 <= k < own_listeners_from(listeners, related, i).len() ==> related.contains(
                #[trigger] own_listeners_from(listeners, related, i)[k],
            ),
    decreases listeners.len() - i,
{
    if i < listeners.len() {
        let pids = process_ids_from(lines(listeners[i].1), 0);
        lemma_related_from(pids, related, 0);
        law_only_related_listeners_are_stopped(listeners, related, i + 1);
        let here = related_from(pids, related, 0);
        let rest = own_listeners_from(listeners, related, i + 1);
        let all = own_listeners_from(listeners, related, i);
        assert forall|k: int| 0 <= k < all.len() implies related.contains(#[trigger] all[k]) by {
            if k < here.len() {
                assert(all[k] == here[k]);
            } else {
                assert(all[k] == rest[k - here.len()]);
            }
        }
    }
}

proof fn lemma_related_from(pids: Seq<u32>, related: Seq<u32>, i: int)
    requires
        0 <= i,
    ensures
        forall|k: int|
            0 <= k < related_from(pids, related, i).len() ==> related.contains(
                #[trigger] related_from(pids, related, i)[k],
            ),
    decreases pids.len() - i,
{
    if i < pids.len() {
        lemma_related_from(pids, related, i + 1);
        let rest = related_from(pids, related, i + 1);
        let all = related_from(pids, related, i);
        assert forall|k: int| 0 <= k < all.len() implies related.contains(#[trigger] all[k]) by {
            if related.contains(pids[i]) {
                if k > 0 {
                    assert(all[k] == rest[k - 1]);
                }
            } else {
                assert(all[k] == rest[k]);
            }
        }
    }
}

/// The name of the program of a process, from whether it could be asked for and the answer.
pub fn process_executable(success: bool, stdout: &str) -> (r: String)
    ensures
        r@ == (if success && trimmed(stdout@).len() > 0 {
            trimmed(stdout@)
        } else {
            "unknown process"@
        }),
{
    let name = trim(stdout);
    if success && !name.is_empty() {
        name.to_owned()
    } else {
        "unknown process".to_owned()
    }
}

/// Whether ids stand in strictly ascending order.
pub open spec fn ascending(ids: Seq<u32>) -> bool {
    forall|i: int, j: int| 0 <= i < j < ids.len() ==> ids[i] < ids[j]
}

/// Orders process ids for stopping: each once, ascending.
pub fn stop_order(pids: &Vec<u32>) -> (r: Vec<u32>)
    ensures
        ascending(r@),
        forall|p: u32| r@.contains(p) <==> pids@.contains(p),
{
    let mut r: Vec<u32> = Vec::new();
    let mut i: usize = 0;
    while i < pids.len()
        invariant
            i <= pids@.len(),
            ascending(r@),
            forall|p: u32| r@.contains(p) <==> pids@.take(i as int).contains(p),
        decreases pids@.len() - i,
    {
        let pid: u32 = pids[i];
        let mut k: usize = 0;
        while k < r.len() && r[k] < pid
            invariant
                k <= r@.len(),
                forall|j: int| 0 <= j < k ==> r@[j] < pid,
            decreases r@.len() - k,
        {
            k = k + 1;
        }
        let ghost before = r@;
        let ghost seen = pids@.take(i as int);
        let ghost now = pids@.take(i + 1);
        assert(now == seen.push(pid));
        if k < r.len() && r[k] == pid {
            assert(before[k as int] == pid);
            assert forall|p: u32| r@.contains(p) <==> now.contains(p) by {
                if now.contains(p) && p != pid {
                    let j = choose|j: int| 0 <= j < now.len() && now[j] == p;
                    assert(seen[j] == p);
                }
                if seen.contains(p) {
                    let j = choose|j: int| 0 <= j < seen.len() && seen[j] == p;
                    assert(now[j] == p);
                }
                assert(now[i as int] == pid);
            }
        } else {
            r.insert(k, pid);
            assert(ascending(r@)) by {
                assert forall|a: int, b: int| 0 <= a < b < r@.len() implies r@[a] < r@[b] by {
                    if b < k {
                        assert(r@[a] == before[a] && r@[b] == before[b]);
                    } else if b == k {
                        assert(r@[a] == before[a]);
                    } else if a < k {
                        assert(r@[a] == before[a] && r@[b] == before[b - 1]);
                    } else if a == k {
                        assert(r@[b] == before[b - 1]);
                        assert(before[k as int] <= before[b - 1]);
                    } else {
                        assert(r@[a] == before[a - 1] && r@[b] == before[b - 1]);
                    }
                }
            }
            assert forall|p: u32| r@.contains(p) <==> now.contains(p) by {
                if r@.contains(p) {
                    let j = choose|j: int| 0 <= j < r@.len() && r@[j] == p;
                    if j < k {
                        assert(before[j] == p);
                        assert(before.contains(p));
                    } else if j > k {
                        assert(before[j - 1] == p);
                        assert(before.contains(p));
                    }
                    if before.contains(p) {
                        let m = choose|m: int| 0 <= m < seen.len() && seen[m] == p;
                        assert(now[m] == p);
                    }
                    assert(now[i as int] == pid);
                }
                if now.contains(p) {
                    let m = choose|m: int| 0 <= m < now.len() && now[m] == p;
                    if m < i {
                        assert(seen[m] == p);
                        assert(seen.contains(p));
                        assert(before.contains(p));
                        let j = choose|j: int| 0 <= j < before.len() && before[j] == p;
                        if j < k {
                            assert(r@[j] == p);
                        } else {
                            assert(r@[j + 1] == p);
                        }
                    } else {
                        assert(r@[k as int] == p);
                    }
                }
            }
        }
        i = i + 1;
    }
    assert(pids@.take(pids@.len() as int) == pids@);
    r
}

/// A process that was stopped.
#[derive(Clone, Debug)]
pub struct StoppedProcess {
    pub pid: u32,
    pub executable: String,
}

/// The lines that name the stopped processes.
pub open spec fn stopped_lines(stopped: Seq<StoppedProcess>) -> Seq<Seq<char>> {
    stopped.map_values(
        |p: StoppedProcess| "  PID "@ + decimal(p.pid as nat) + "  "@ + p.executable@,
    )
}

/// The lines that name the processes left alone.
pub open spec fn skipped_lines(skipped: Seq<(u32, u16)>) -> Seq<Seq<char>> {
    skipped.map_values(
        |p: (u32, u16)| "  PID "@ + decimal(p.0 as nat) + " on port "@ + decimal(p.1 as nat),
    )
}

/// The report on the processes of an instance that were stopped.
pub open spec fn stop_report(
    work_dir: Seq<char>,
    stopped: Seq<StoppedProcess>,
    skipped: Seq<(u32, u16)>,
) -> Seq<char> {
    "Instance associated processes stopped\nWorking directory: "@ + work_dir
        + "\nProcess count: "@ + decimal(stopped.len()) + "\nDetails:\n"@ + (if stopped.len() == 0 {
        "  No running associated processes found"@
    } else {
        joined(stopped_lines(stopped), "\n"@)
    }) + (if skipped.len() == 0 {
        Seq::empty()
    } else {
        "\nSkipped unrelated processes listening on instance ports (not part of instance process tree):\n"@
            + joined(skipped_lines(skipped), "\n"@)
    })
}

fn stopped_details(stopped: &Vec<StoppedProcess>) -> (r: String)
    ensures
        r@ == joined(stopped_lines(stopped@), "\n"@),
{
    let ghost ls = stopped_lines(stopped@);
    let mut out: Vec<String> = Vec::new();
    let mut i: usize = 0;
    while i < stopped.len()
        invariant
            i <= stopped@.len(),
            ls == stopped_lines(stopped@),
            texts(out@) == ls.take(i as int),
        decreases stopped@.len() - i,
    {
        let ghost before = texts(out@);
        let line = concat4(
            "  PID ",
            decimal_of(stopped[i].pid as u64).as_str(),
            "  ",
            stopped[i].executable.as_str(),
        );
        let ghost model = line@;
        out.push(line);
        assert(texts(out@) == before.push(model));
        i = i + 1;
    }
    assert(ls.take(ls.len() as int) == ls);
    join(&out, "\n")
}

fn skipped_details(skipped: &Vec<(u32, u16)>) -> (r: String)
    ensures
        r@ == joined(skipped_lines(skipped@), "\n"@),
{
    let ghost ls = skipped_lines(skipped@);
    let mut out: Vec<String> = Vec::new();
    let mut i: usize = 0;
    while i < skipped.len()
        invariant
            i <= skipped@.len(),
            ls == skipped_lines(skipped@),
            texts(out@) == ls.take(i as int),
        decreases skipped@.len() - i,
    {
        let ghost before = texts(out@);
        let line = concat4(
            "  PID ",
            decimal_of(skipped[i].0 as u64).as_str(),
            " on port ",
            decimal_of(skipped[i].1 as u64).as_str(),
        );
        let ghost model = line@;
        out.push(line);
        assert(texts(out@) == before.push(model));
        i = i + 1;
    }
    assert(ls.take(ls.len() as int) == ls);
    join(&out, "\n")
}

/// Reports the processes of an instance that were stopped, and those left alone.
pub fn stop_instance_process(
    work_dir: &str,
    stopped: &Vec<StoppedProcess>,
    skipped: &Vec<(u32, u16)>,
) -> (r: String)
    ensures
        r@ == stop_report(work_dir@, stopped@, skipped@),
{
    let mut r = concat5(
        "Instance associated processes stopped\nWorking directory: ",
        work_dir,
        "\nProcess count: ",
        decimal_of(stopped.len() as u64).as_str(),
        "\nDetails:\n",
    );
    if stopped.len() == 0 {
        r.append("  No running associated processes found");
    } else {
        r.append(stopped_details(stopped).as_str());
    }
    if skipped.len() > 0 {
        let more = concat2(
            "\nSkipped unrelated processes listening on instance ports (not part of instance process tree):\n",
            skipped_details(skipped).as_str(),
        );
        r.append(more.as_str());
    } else {
        assert(r@ + Seq::<char>::empty() == r@);
    }
    r
}

} // verus!
