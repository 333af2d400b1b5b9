//! The state of the desktop: repairs of what older versions left behind, the vault, and the
//! log with its secrets hidden.

use crate::environment::{is_secret, is_secret_env_key};
use crate::instance::{join_path, joined_path};
use crate::logging::{fitting_from, log_text, prune_logs, pruned, truncate_log_text};
use crate::models::{
    AppStore, ConfigModel, EnvModel, EnvVariable, InstanceModel, InstanceRecord, LogEntry, LogModel,
    MAX_LOG_TEXT_BYTES, MAX_PENDING_LOG_ENTRIES, StorageConfig, StoreModel, envs, instances_view,
    logs_view,
};
use crate::storage::{sqlite_database_path, sqlite_directory};
use crate::text::{
    before_suffix, byte_len, bytes, comes_before, concat2, concat4, contains, cut, decimal,
    decimal_of, holds, is_digit, join, joined, lemma_decimal_value, lemma_holds,
    lemma_text_order_total, lemma_text_order_transitive, matches_at, opt_str, opt_view, replace,
    replaced, replaced_from, same, split_once, starts, starts_with, strip_suffix, text_before,
    texts, trim, trimmed, unicode_lower,
};
use vstd::prelude::*;
use vstd::string::*;

verus! {

// ---------------------------------------------------------------------------
// Repairs
// ---------------------------------------------------------------------------

/// Whether an entry tells that an instance was deployed.
pub open spec fn tells_deployment(log: LogModel) -> bool {
    log.category == "install"@ && log.level == "success"@ && log.message
        == "Instance deployment completed"@
}

pub fn is_deployment_completed_log(log: &LogEntry) -> (r: bool)
    ensures
        r == tells_deployment(log@),
{
    same(log.category.as_str(), "install") && same(log.level.as_str(), "success") && same(
        log.message.as_str(),
        "Instance deployment completed",
    )
}

/// Whether an instance waits for a restart though it was never deployed.
pub open spec fn waits_in_vain(instance: InstanceModel, deployed: bool) -> bool {
    instance.status == "needs-restart"@ && !deployed
}

/// An instance that waited in vain, put back to where it stands.
pub open spec fn repaired(instance: InstanceModel, deployed: bool, now: u64) -> InstanceModel {
    if waits_in_vain(instance, deployed) {
        InstanceModel {
            status: if instance.env_path is Some {
                "ready-to-install"@
            } else {
                "configuring"@
            },
            needs_doctor: false,
            updated_at: now,
            ..instance
        }
    } else {
        instance
    }
}

/// Puts back an instance that waits for a restart though it was never deployed; says whether
/// it did.
pub fn repair_instance_restart_status(instance: &mut InstanceRecord, deployed: bool, now: u64) -> (changed:
    bool)
    ensures
        changed == waits_in_vain(old(instance)@, deployed),
        final(instance)@ == repaired(old(instance)@, deployed, now),
{
    if same(instance.status.as_str(), "needs-restart") && !deployed {
        let configured: bool = instance.env_path.is_some();
        instance.status =
        if configured {
            "ready-to-install".to_owned()
        } else {
            "configuring".to_owned()
        };
        instance.needs_doctor = false;
        instance.updated_at = now;
        return true;
    }
    false
}

/// Whether an entry from `i` on tells that the instance with the given id was deployed.
pub open spec fn deployed_from(logs: Seq<LogModel>, id: Seq<char>, i: int) -> bool
    decreases logs.len() - i,
{
    if i < 0 || i >= logs.len() {
        false
    } else {
        (tells_deployment(logs[i]) && logs[i].instance_id == Some(id)) || deployed_from(
            logs,
            id,
            i + 1,
        )
    }
}

/// Whether an instance was deployed, by its process or by the log.
pub open spec fn was_deployed(instance: InstanceModel, logs: Seq<LogModel>) -> bool {
    instance.pid is Some || deployed_from(logs, instance.id, 0)
}

fn log_tells_deployment(logs: &Vec<LogEntry>, id: &str) -> (r: bool)
    ensures
        r == deployed_from(logs_view(logs@), id@, 0),
{
    let ghost ls = logs_view(logs@);
    let mut i: usize = 0;
    while i < logs.len()
        invariant
            i <= logs@.len(),
            ls == logs_view(logs@),
            deployed_from(ls, id@, 0) == deployed_from(ls, id@, i as int),
        decreases logs@.len() - i,
    {
        assert(ls[i as int] == logs@[i as int]@);
        if is_deployment_completed_log(&logs[i]) {
            if let Some(instance_id) = logs[i].instance_id.as_ref() {
                if same(instance_id.as_str(), id) {
                    return true;
                }
            }
        }
        i = i + 1;
    }
    false
}

/// Whether some instance from `i` on waits in vain.
pub open spec fn any_waits_from(instances: Seq<InstanceModel>, logs: Seq<LogModel>, i: int) -> bool
    decreases instances.len() - i,
{
    if i < 0 || i >= instances.len() {
        false
    } else {
        waits_in_vain(instances[i], was_deployed(instances[i], logs)) || any_waits_from(
            instances,
            logs,
            i + 1,
        )
    }
}

/// Puts back all instances that wait for a restart though the log tells of no deployment;
/// says whether there were any.
pub fn repair_predeployment_restart_statuses(data: &mut AppStore, now: u64) -> (changed: bool)
    ensures
        ({
            let before = old(data)@;
            &&& changed == any_waits_from(before.instances, before.logs, 0)
            &&& final(data)@ == (StoreModel {
                instances: before.instances.map_values(
                    |x: InstanceModel| repaired(x, was_deployed(x, before.logs), now),
                ),
                ..before
            })
        }),
{
    let ghost start = instances_view(data.instances@);
    let ghost logs = logs_view(data.logs@);
    let mut changed: bool = false;
    let mut i: usize = 0;
    while i < data.instances.len()
        invariant
            i <= data.instances@.len(),
            start.len() == data.instances@.len(),
            logs == logs_view(data.logs@),
            envs(data.vault@) == envs(old(data).vault@),
            any_waits_from(start, logs, 0) == (changed || any_waits_from(start, logs, i as int)),
            forall|j: int|
                0 <= j < i ==> (#[trigger] data.instances@[j])@ == repaired(
                    start[j],
                    was_deployed(start[j], logs),
                    now,
                ),
            forall|j: int|
                i <= j < start.len() ==> (#[trigger] data.instances@[j])@ == start[j],
        decreases data.instances@.len() - i,
    {
        let mut record = data.instances[i].duplicate();
        let deployed: bool = record.pid.is_some() || log_tells_deployment(
            &data.logs,
            record.id.as_str(),
        );
        if repair_instance_restart_status(&mut record, deployed, now) {
            changed = true;
        }
        data.instances.set(i, record);
        i = i + 1;
    }
    assert(instances_view(data.instances@) == start.map_values(
        |x: InstanceModel| repaired(x, was_deployed(x, logs), now),
    ));
    changed
}

/// Whether a message, given in lower case, is one that the desktop logs about an instance.
pub open spec fn is_lifecycle_message(lowered: Seq<char>) -> bool {
    lowered == "instance stopped"@ || starts(lowered, "stopped instance process tree"@) || starts(
        lowered,
        "instance associated processes stopped"@,
    ) || starts(lowered, "instance deletion completed"@) || holds(lowered, "instance restarted"@)
        || holds(lowered, "delete instance"@) || (holds(lowered, "instance"@) && holds(
        lowered,
        "deleted"@,
    ))
}

/// Tells messages of the desktop about an instance, given in lower case, from others.
pub fn lifecycle_message(lowered: &str) -> (r: bool)
    ensures
        r == is_lifecycle_message(lowered@),
{
    same(lowered, "instance stopped") || starts_with(lowered, "stopped instance process tree")
        || starts_with(lowered, "instance associated processes stopped") || starts_with(
        lowered,
        "instance deletion completed",
    ) || contains(lowered, "instance restarted") || contains(lowered, "delete instance") || (
    contains(lowered, "instance") && contains(lowered, "deleted"))
}

pub fn is_desktop_lifecycle_message(message: &str) -> (r: bool)
    ensures
        r == is_lifecycle_message(unicode_lower(message@)),
{
    let lowered = message.to_lowercase();
    lifecycle_message(lowered.as_str())
}

/// Whether an entry stands among what instances print though the desktop logged it.
pub open spec fn is_misfiled(log: LogModel) -> bool {
    log.category == "runtime"@ && is_lifecycle_message(unicode_lower(log.message))
}

/// An entry filed where it belongs.
pub open spec fn refiled(log: LogModel) -> LogModel {
    if is_misfiled(log) {
        LogModel { category: "install"@, ..log }
    } else {
        log
    }
}

/// Files entries of the desktop that stand among what instances print where they belong; says
/// whether there were any.
pub fn repair_lifecycle_log_categories(data: &mut AppStore) -> (changed: bool)
    ensures
        ({
            let before = old(data)@;
            &&& changed == exists|i: int|
                0 <= i < before.logs.len() && is_misfiled(#[trigger] before.logs[i])
            &&& final(data)@ == (StoreModel {
                logs: before.logs.map_values(|x: LogModel| refiled(x)),
                ..before
            })
        }),
{
    let ghost start = logs_view(data.logs@);
    let mut changed: bool = false;
    let mut i: usize = 0;
    while i < data.logs.len()
        invariant
            i <= data.logs@.len(),
            start.len() == data.logs@.len(),
            instances_view(data.instances@) == instances_view(old(data).instances@),
            envs(data.vault@) == envs(old(data).vault@),
            changed == exists|j: int| 0 <= j < i && is_misfiled(#[trigger] start[j]),
            forall|j: int| 0 <= j < i ==> (#[trigger] data.logs@[j])@ == refiled(start[j]),
            forall|j: int| i <= j < start.len() ==> (#[trigger] data.logs@[j])@ == start[j],
        decreases data.logs@.len() - i,
    {
        let mut log = data.logs[i].duplicate();
        assert(log@ == start[i as int]);
        if same(log.category.as_str(), "runtime") && is_desktop_lifecycle_message(
            log.message.as_str(),
        ) {
            assert(is_misfiled(start[i as int]));
            log.category = "install".to_owned();
            changed = true;
        }
        data.logs.set(i, log);
        i = i + 1;
    }
    assert(logs_view(data.logs@) == start.map_values(|x: LogModel| refiled(x)));
    assert(start == old(data)@.logs);
    changed
}

/// Entries numbered from zero in their order.
pub open spec fn numbered(logs: Seq<LogModel>) -> Seq<LogModel> {
    logs.map(|i: int, x: LogModel| LogModel { sequence: i as u64, ..x })
}

/// Numbers the entries in their order; says whether any number changed.
pub fn repair_log_sequences(data: &mut AppStore) -> (changed: bool)
    ensures
        ({
            let before = old(data)@;
            &&& changed == exists|i: int|
                0 <= i < before.logs.len() && (#[trigger] before.logs[i]).sequence != i
            &&& final(data)@ == (StoreModel { logs: numbered(before.logs), ..before })
        }),
{
    let ghost start = logs_view(data.logs@);
    let mut changed: bool = false;
    let mut i: usize = 0;
    while i < data.logs.len()
        invariant
            i <= data.logs@.len(),
            start.len() == data.logs@.len(),
            instances_view(data.instances@) == instances_view(old(data).instances@),
            envs(data.vault@) == envs(old(data).vault@),
            changed == exists|j: int| 0 <= j < i && (#[trigger] start[j]).sequence != j,
            forall|j: int| 0 <= j < i ==> (#[trigger] data.logs@[j])@ == numbered(start)[j],
            forall|j: int| i <= j < start.len() ==> (#[trigger] data.logs@[j])@ == start[j],
        decreases data.logs@.len() - i,
    {
        let mut log = data.logs[i].duplicate();
        assert(log@ == start[i as int]);
        if log.sequence != i as u64 {
            assert(start[i as int].sequence != i);
            log.sequence = i as u64;
            changed = true;
        }
        data.logs.set(i, log);
        i = i + 1;
    }
    assert(logs_view(data.logs@) == numbered(start));
    changed
}

/// Whether an entry comes before another: by time, then by number, then by id.
pub open spec fn log_before(a: LogModel, b: LogModel) -> bool {
    if a.created_at != b.created_at {
        a.created_at < b.created_at
    } else if a.sequence != b.sequence {
        a.sequence < b.sequence
    } else {
        text_before(a.id, b.id, 0)
    }
}

fn log_comes_before(a: &LogEntry, b: &LogEntry) -> (r: bool)
    ensures
        r == log_before(a@, b@),
{
    if a.created_at != b.created_at {
        a.created_at < b.created_at
    } else if a.sequence != b.sequence {
        a.sequence < b.sequence
    } else {
        comes_before(a.id.as_str(), b.id.as_str())
    }
}

/// The place of an entry among others in order, looking back from `i`: behind the last that it
/// does not come before.
pub open spec fn log_place(sorted: Seq<LogModel>, x: LogModel, i: int) -> int
    decreases i,
{
    if 0 < i <= sorted.len() && log_before(x, sorted[i - 1]) {
        log_place(sorted, x, i - 1)
    } else {
        i
    }
}

/// Entries in order.
pub open spec fn in_order(logs: Seq<LogModel>) -> Seq<LogModel>
    decreases logs.len(),
{
    if logs.len() == 0 {
        Seq::empty()
    } else {
        let sorted = in_order(logs.drop_last());
        sorted.insert(log_place(sorted, logs.last(), sorted.len() as int), logs.last())
    }
}

/// Sorts entries by time, then by number, then by id.
pub fn sort_logs(data: &mut AppStore)
    ensures
        final(data)@ == (StoreModel { logs: in_order(old(data)@.logs), ..old(data)@ }),
{
    let ghost ls = logs_view(data.logs@);
    let mut r: Vec<LogEntry> = Vec::new();
    let mut i: usize = 0;
    assert(logs_view(r@) == in_order(ls.take(0)));
    while i < data.logs.len()
        invariant
            i <= data.logs@.len(),
            ls == logs_view(data.logs@),
            logs_view(r@) == in_order(ls.take(i as int)),
        decreases data.logs@.len() - i,
    {
        assert(ls.take(i + 1).drop_last() == ls.take(i as int));
        assert(ls.take(i + 1).last() == data.logs@[i as int]@);
        let ghost sorted = logs_view(r@);
        let ghost x = data.logs@[i as int]@;
        let mut k: usize = r.len();
        while k > 0 && log_comes_before(&data.logs[i], &r[k - 1])
            invariant
                k <= r@.len(),
                sorted == logs_view(r@),
                x == data.logs@[i as int]@,
                i < data.logs@.len(),
                log_place(sorted, x, sorted.len() as int) == log_place(sorted, x, k as int),
            decreases k,
        {
            assert(sorted[k - 1] == r@[k - 1]@);
            k = k - 1;
        }
        if k > 0 {
            assert(sorted[k - 1] == r@[k - 1]@);
        }
        let copy = data.logs[i].duplicate();
        let ghost model = copy@;
        r.insert(k, copy);
        assert(logs_view(r@) == sorted.insert(k as int, model));
        i = i + 1;
    }
    assert(ls.take(ls.len() as int) == ls);
    data.logs = r;
}

/// Whether an instance was deployed: it has a process, or the storage knows of it.
pub fn instance_has_completed_deployment(
    instance: &InstanceRecord,
    stored: Result<bool, String>,
) -> (r: Result<bool, String>)
    ensures
        instance@.pid is Some ==> r == Ok::<bool, String>(true),
        instance@.pid is None ==> r == stored,
{
    if instance.pid.is_some() {
        Ok(true)
    } else {
        stored
    }
}

// ---------------------------------------------------------------------------
// The state
// ---------------------------------------------------------------------------

/// The state of the desktop.
pub struct DesktopState {
    pub storage_ready: bool,
    pub storage_error: Option<String>,
    pub storage_setup_required: bool,
    pub data: AppStore,
    pub next_log_sequence: u64,
    pub deployment_stages: Vec<(String, String)>,
}

/// What a list of stages by instance stands for.
pub open spec fn stages_view(v: Seq<(String, String)>) -> Seq<(Seq<char>, Seq<char>)> {
    v.map_values(|p: (String, String)| (p.0@, p.1@))
}

/// The position from `i` on of the stage of an instance, or the length.
pub open spec fn stage_from(stages: Seq<(Seq<char>, Seq<char>)>, id: Seq<char>, i: int) -> int
    decreases stages.len() - i,
{
    if i < 0 || i >= stages.len() || stages[i].0 == id {
        i
    } else {
        stage_from(stages, id, i + 1)
    }
}

/// The stages with that of one instance set.
pub open spec fn with_stage(
    stages: Seq<(Seq<char>, Seq<char>)>,
    id: Seq<char>,
    stage: Seq<char>,
) -> Seq<(Seq<char>, Seq<char>)> {
    let k = stage_from(stages, id, 0);
    if k < stages.len() {
        stages.update(k, (id, stage))
    } else {
        stages.push((id, stage))
    }
}

/// The stage of an instance; one that has none yet is pending.
pub open spec fn stage_of(stages: Seq<(Seq<char>, Seq<char>)>, id: Seq<char>) -> Seq<char> {
    let k = stage_from(stages, id, 0);
    if k < stages.len() {
        stages[k].1
    } else {
        "pending"@
    }
}

/// What is wrong with the entries of a vault from `i` on, if anything is: a blank name, or one
/// that came before.
pub open spec fn vault_fault_from(env: Seq<EnvModel>, i: int) -> Option<Seq<char>>
    decreases env.len() - i,
{
    if i < 0 || i >= env.len() {
        None
    } else if trimmed(env[i].key).len() == 0 {
        Some("Environment variable name cannot be empty"@)
    } else if exists|j: int| 0 <= j < i && trimmed((#[trigger] env[j]).key) == trimmed(env[i].key) {
        Some("Duplicate environment variable name: "@ + trimmed(env[i].key))
    } else {
        vault_fault_from(env, i + 1)
    }
}

/// The entries of a vault as they are kept: without white space around names, and unmodified.
pub open spec fn vault_kept(env: Seq<EnvModel>) -> Seq<EnvModel> {
    env.map_values(|e: EnvModel| EnvModel { key: trimmed(e.key), modified: false, ..e })
}

/// Why nothing can be written, where nothing can.
pub open spec fn readiness_fault(ready: bool, error: Option<Seq<char>>) -> Option<Seq<char>> {
    if ready {
        None
    } else {
        match error {
            Some(e) => Some(e),
            None => Some("Desktop storage not writable, please fix storage connection first"@),
        }
    }
}

/// Whether an entry of the vault has to be hidden in logs: it is a secret and not too short.
pub open spec fn is_hidden(e: EnvModel) -> bool {
    is_secret(e.key) && bytes(e.value) >= 4
}

/// A text with the secrets of the vault from `i` on hidden.
pub open spec fn redacted_from(value: Seq<char>, vault: Seq<EnvModel>, i: int) -> Seq<char>
    decreases vault.len() - i,
{
    if i < 0 || i >= vault.len() {
        value
    } else if is_hidden(vault[i]) {
        redacted_from(replaced(value, vault[i].value, "******"@), vault, i + 1)
    } else {
        redacted_from(value, vault, i + 1)
    }
}

/// A text for the log: secrets hidden, and cut if it is too long.
pub open spec fn redacted(value: Seq<char>, vault: Seq<EnvModel>) -> Seq<char> {
    log_text(redacted_from(value, vault, 0))
}

proof fn lemma_bytes_not_empty(s: Seq<char>)
    requires
        bytes(s) >= 1,
    ensures
        s.len() > 0,
{
}

impl DesktopState {
    /// The repository and what to check out, from the address that older versions stored;
    /// nothing where it is blank.
    pub fn migrate_legacy_template_url(old_url: &str) -> (r: Option<(String, String)>)
        ensures
            match legacy_address(old_url@) {
                Some(p) => r matches Some(q) && (q.0@, q.1@) == p,
                None => r is None,
            },
    {
        let url = trim(old_url);
        if url.is_empty() {
            return None;
        }
        if let Some(p) = split_once(url, "/tree/") {
            let branch = match split_once(p.1, "/") {
                Some(q) => q.0,
                None => p.1,
            };
            return Some((p.0.to_owned(), branch.to_owned()));
        }
        let repo = match strip_suffix(url, "/releases") {
            Some(repo) => repo,
            None => match strip_suffix(url, "/releases/latest") {
                Some(repo) => repo,
                None => url,
            },
        };
        Some((repo.to_owned(), String::new()))
    }

    /// Notes how far the deployment of an instance has come.
    pub fn set_deployment_stage(&mut self, instance_id: &str, stage: &str)
        ensures
            stages_view(final(self).deployment_stages@) == with_stage(
                stages_view(old(self).deployment_stages@),
                instance_id@,
                stage@,
            ),
            final(self).data == old(self).data,
            final(self).storage_ready == old(self).storage_ready,
            final(self).storage_error == old(self).storage_error,
            final(self).storage_setup_required == old(self).storage_setup_required,
            final(self).next_log_sequence == old(self).next_log_sequence,
    {
        let ghost ss = stages_view(self.deployment_stages@);
        let mut i: usize = 0;
        while i < self.deployment_stages.len()
            invariant
                i <= self.deployment_stages@.len(),
                *self == *old(self),
                ss == stages_view(self.deployment_stages@),
                stage_from(ss, instance_id@, 0) == stage_from(ss, instance_id@, i as int),
            decreases self.deployment_stages@.len() - i,
        {
            assert(ss[i as int] == (
                self.deployment_stages@[i as int].0@,
                self.deployment_stages@[i as int].1@,
            ));
            if same(self.deployment_stages[i].0.as_str(), instance_id) {
                self.deployment_stages.set(i, (instance_id.to_owned(), stage.to_owned()));
                assert(stages_view(self.deployment_stages@) == ss.update(
                    i as int,
                    (instance_id@, stage@),
                ));
                return;
            }
            i = i + 1;
        }
        self.deployment_stages.push((instance_id.to_owned(), stage.to_owned()));
        assert(stages_view(self.deployment_stages@) == ss.push((instance_id@, stage@)));
    }

    /// How far the deployment of an instance has come.
    pub fn deployment_progress(&self, instance_id: &str) -> (r: String)
        ensures
            r@ == stage_of(stages_view(self.deployment_stages@), instance_id@),
    {
        let ghost ss = stages_view(self.deployment_stages@);
        let mut i: usize = 0;
        while i < self.deployment_stages.len()
            invariant
                i <= self.deployment_stages@.len(),
                ss == stages_view(self.deployment_stages@),
                stage_from(ss, instance_id@, 0) == stage_from(ss, instance_id@, i as int),
            decreases self.deployment_stages@.len() - i,
        {
            assert(ss[i as int] == (
                self.deployment_stages@[i as int].0@,
                self.deployment_stages@[i as int].1@,
            ));
            if same(self.deployment_stages[i].0.as_str(), instance_id) {
                return self.deployment_stages[i].1.clone();
            }
            i = i + 1;
        }
        "pending".to_owned()
    }

    /// Accepts a request to write only while the storage is ready.
    pub fn ensure_storage_ready(&self) -> (r: Result<(), String>)
        ensures
            r is Ok <==> self.storage_ready,
            r matches Err(message) ==> readiness_fault(
                self.storage_ready,
                opt_view(self.storage_error),
            ) == Some(message@),
    {
        if self.storage_ready {
            return Ok(());
        }
        match self.storage_error.as_ref() {
            Some(error) => Err(error.clone()),
            None => Err(
                "Desktop storage not writable, please fix storage connection first".to_owned(),
            ),
        }
    }

    /// Accepts new settings for the storage while none were chosen or while it is ready.
    pub fn ensure_storage_configurable(&self) -> (r: Result<(), String>)
        ensures
            r is Ok <==> self.storage_setup_required || self.storage_ready,
            r matches Err(message) ==> readiness_fault(
                self.storage_ready,
                opt_view(self.storage_error),
            ) == Some(message@),
    {
        if self.storage_setup_required {
            Ok(())
        } else {
            self.ensure_storage_ready()
        }
    }

    /// Accepts a request to store an instance: gives what the storage answered, or why it was
    /// not asked.
    pub fn persist_instance(&self, stored: Result<(), String>) -> (r: Result<(), String>)
        ensures
            self.storage_ready ==> r == stored,
            !self.storage_ready ==> (r matches Err(message) && readiness_fault(
                false,
                opt_view(self.storage_error),
            ) == Some(message@)),
    {
        match self.ensure_storage_ready() {
            Ok(_) => stored,
            Err(e) => Err(e),
        }
    }

    /// Checks the entries of a new vault and settles them as they are kept.
    pub fn replace_vault_entries(&self, entries: Vec<EnvVariable>) -> (r: Result<
        Vec<EnvVariable>,
        String,
    >)
        ensures
            ({
                let fault = if self.storage_ready {
                    vault_fault_from(envs(entries@), 0)
                } else {
                    readiness_fault(false, opt_view(self.storage_error))
                };
                &&& r is Ok <==> fault is None
                &&& r matches Ok(kept) ==> envs(kept@) == vault_kept(envs(entries@))
                &&& r matches Err(message) ==> fault == Some(message@)
            }),
    {
        if let Err(e) = self.ensure_storage_ready() {
            return Err(e);
        }
        let ghost env = envs(entries@);
        let mut kept: Vec<EnvVariable> = Vec::new();
        let mut i: usize = 0;
        while i < entries.len()
            invariant
                i <= entries@.len(),
                kept@.len() == i,
                env == envs(entries@),
                self.storage_ready,
                vault_fault_from(env, 0) == vault_fault_from(env, i as int),
                forall|j: int| 0 <= j < i ==> (#[trigger] kept@[j])@ == vault_kept(env)[j],
            decreases entries@.len() - i,
        {
            assert(env[i as int] == entries@[i as int]@);
            let key = trim(entries[i].key.as_str());
            if key.is_empty() {
                return Err("Environment variable name cannot be empty".to_owned());
            }
            let mut k: usize = 0;
            while k < kept.len()
                invariant
                    k <= kept@.len(),
                    kept@.len() == i,
                    i < entries@.len(),
                    env == envs(entries@),
                    key@ == trimmed(env[i as int].key),
                    key@.len() > 0,
                    self.storage_ready,
                    vault_fault_from(env, 0) == vault_fault_from(env, i as int),
                    forall|j: int| 0 <= j < i ==> (#[trigger] kept@[j])@ == vault_kept(env)[j],
                    forall|j: int| 0 <= j < k ==> trimmed((#[trigger] env[j]).key) != key@,
                decreases kept@.len() - k,
            {
                assert(kept@[k as int]@ == vault_kept(env)[k as int]);
                if same(kept[k].key.as_str(), key) {
                    assert(trimmed(env[k as int].key) == key@);
                    return Err(
                        concat2("Duplicate environment variable name: ", key),
                    );
                }
                k = k + 1;
            }
            let mut e = entries[i].duplicate();
            e.key = key.to_owned();
            e.modified = false;
            kept.push(e);
            i = i + 1;
        }
        assert(envs(kept@) == vault_kept(env));
        Ok(kept)
    }

    /// Whether the storage is to be compacted after entries were removed.
    pub fn cleanup_logs(removed: usize) -> (aggressive: bool)
        ensures
            aggressive == (removed >= 10_000),
    {
        removed >= 10_000
    }

    /// Hides the secrets of the vault in a text for the log and cuts it if it is too long.
    pub fn redact_log_text(&self, value: String) -> (r: String)
        ensures
            r@ == redacted(value@, envs(self.data.vault@)),
    {
        let ghost vault = envs(self.data.vault@);
        let ghost start = value@;
        let mut text = value;
        let mut i: usize = 0;
        while i < self.data.vault.len()
            invariant
                i <= self.data.vault@.len(),
                vault == envs(self.data.vault@),
                redacted_from(start, vault, 0) == redacted_from(text@, vault, i as int),
            decreases self.data.vault@.len() - i,
        {
            assert(vault[i as int] == self.data.vault@[i as int]@);
            let entry = &self.data.vault[i];
            if is_secret_env_key(entry.key.as_str()) && byte_len(entry.value.as_str()) >= 4 {
                proof {
                    lemma_bytes_not_empty(entry.value@);
                }
                text = replace(text.as_str(), entry.value.as_str(), "******");
            }
            i = i + 1;
        }
        truncate_log_text(text)
    }

    /// Makes the next entry of the log, with secrets hidden.
    pub fn log(
        &mut self,
        instance_id: Option<&str>,
        instance_name: &str,
        category: &str,
        level: &str,
        message: String,
        command: Option<String>,
        now: u64,
    ) -> (r: LogEntry)
        ensures
            ({
                let vault = envs(old(self).data.vault@);
                let sequence = if old(self).next_log_sequence < u64::MAX {
                    (old(self).next_log_sequence + 1) as u64
                } else {
                    u64::MAX
                };
                &&& *final(self) == (DesktopState { next_log_sequence: sequence, ..*old(self) })
                &&& r@ == (LogModel {
                    id: log_id(now, sequence),
                    instance_id: opt_str(instance_id),
                    instance_name: instance_name@,
                    category: category@,
                    level: level@,
                    message: redacted(message@, vault),
                    command: match opt_view(command) {
                        Some(c) => Some(redacted(c, vault)),
                        None => None,
                    },
                    created_at: now,
                    sequence,
                })
            }),
    {
        let message = self.redact_log_text(message);
        let command: Option<String> = match command {
            Some(c) => Some(self.redact_log_text(c)),
            None => None,
        };
        self.next_log_sequence = self.next_log_sequence.saturating_add(1);
        let sequence: u64 = self.next_log_sequence;
        LogEntry {
            id: concat4(
                "log-",
                decimal_of(now).as_str(),
                "-",
                decimal_of(sequence).as_str(),
            ),
            instance_id: match instance_id {
                Some(id) => Some(id.to_owned()),
                None => None,
            },
            instance_name: instance_name.to_owned(),
            category: category.to_owned(),
            level: level.to_owned(),
            message,
            command,
            created_at: now,
            sequence,
        }
    }

    /// Goes on after an attempt to store an entry: one that could not be stored is tried once
    /// more while the storage is ready, and is kept in memory after that. Only so many of the
    /// latest are kept there.
    pub fn settle_log(&mut self, log: &LogEntry, stored: bool, retried: bool) -> (r: LogStep)
        ensures
            r == log_step(old(self).storage_ready, log@.sequence, stored, retried),
            final(self).data@ == (if r == LogStep::Kept {
                StoreModel { logs: latest(old(self).data@.logs.push(log@)), ..old(self).data@ }
            } else {
                old(self).data@
            }),
            final(self).next_log_sequence == old(self).next_log_sequence,
            final(self).storage_ready == old(self).storage_ready,
            final(self).storage_error == old(self).storage_error,
            final(self).storage_setup_required == old(self).storage_setup_required,
            final(self).deployment_stages == old(self).deployment_stages,
    {
        if stored {
            if !retried && log.sequence % 100 == 0 {
                return LogStep::CleanUp;
            }
            return LogStep::Done;
        }
        if !retried && self.storage_ready {
            return LogStep::Retry;
        }
        let ghost before = logs_view(self.data.logs@);
        self.data.logs.push(log.duplicate());
        assert(logs_view(self.data.logs@) == before.push(log@));
        self.data.logs = latest_logs(&self.data.logs);
        LogStep::Kept
    }

    /// The entries of the vault as they are to be stored again.
    pub fn persist_current_vault(&self) -> (r: Result<Vec<EnvVariable>, String>)
        ensures
            ({
                let fault = if self.storage_ready {
                    vault_fault_from(envs(self.data.vault@), 0)
                } else {
                    readiness_fault(false, opt_view(self.storage_error))
                };
                &&& r is Ok <==> fault is None
                &&& r matches Ok(kept) ==> envs(kept@) == vault_kept(envs(self.data.vault@))
                &&& r matches Err(message) ==> fault == Some(message@)
            }),
    {
        self.replace_vault_entries(copy_entries(&self.data.vault))
    }

    /// The state after the start, from what was found, the data, how storing it went, and the
    /// last number in the storage.
    ///
    /// Where the data could not be stored, the log stays in memory and the numbering goes on
    /// from it.
    pub fn load(
        facts: StartupFacts,
        data: AppStore,
        persisted: Result<(), String>,
        last_sequence: Result<u64, String>,
        errors: Vec<String>,
    ) -> (r: DesktopState)
        ensures
            ({
                let plan = startup_plan(facts);
                let stored = plan.storage_ready && persisted is Ok;
                let told = if plan.storage_ready && persisted is Err {
                    texts(errors@).push(
                        "Failed to initialize desktop storage, entered read-only protection mode: "@
                            + persisted->Err_0@,
                    )
                } else if stored && last_sequence is Err {
                    texts(errors@).push(
                        "Failed to read log sequence, entered read-only protection mode: "@
                            + last_sequence->Err_0@,
                    )
                } else {
                    texts(errors@)
                };
                &&& r.storage_ready == (stored && last_sequence is Ok)
                &&& r.storage_setup_required == plan.setup_required
                &&& opt_view(r.storage_error) == told_errors(told)
                &&& r.next_log_sequence == (if stored {
                    match last_sequence {
                        Ok(n) => n,
                        Err(_) => 0,
                    }
                } else {
                    greatest_sequence(data@.logs)
                })
                &&& r.data@ == (StoreModel {
                    logs: if r.storage_ready {
                        Seq::empty()
                    } else {
                        latest(data@.logs)
                    },
                    ..data@
                })
                &&& r.deployment_stages@.len() == 0
            }),
    {
        let plan = startup(facts);
        let mut data = data;
        let mut errors = errors;
        let ghost before = texts(errors@);
        let mut ready: bool = plan.storage_ready;
        if ready {
            if let Err(error) = persisted {
                ready = false;
                errors.push(
                    concat2(
                        "Failed to initialize desktop storage, entered read-only protection mode: ",
                        error.as_str(),
                    ),
                );
                assert(texts(errors@) == before.push(errors@.last()@));
            }
        }
        let next_log_sequence: u64;
        if ready {
            match last_sequence {
                Ok(n) => {
                    next_log_sequence = n;
                },
                Err(error) => {
                    ready = false;
                    errors.push(
                        concat2(
                            "Failed to read log sequence, entered read-only protection mode: ",
                            error.as_str(),
                        ),
                    );
                    assert(texts(errors@) == before.push(errors@.last()@));
                    next_log_sequence = 0;
                },
            }
        } else {
            next_log_sequence = last_log_sequence(&data.logs);
        }
        if ready {
            data.logs = Vec::new();
            assert(logs_view(data.logs@) == Seq::<LogModel>::empty());
        } else {
            data.logs = latest_logs(&data.logs);
        }
        DesktopState {
            storage_ready: ready,
            storage_error: startup_error(&errors),
            storage_setup_required: plan.setup_required,
            data,
            next_log_sequence,
            deployment_stages: Vec::new(),
        }
    }
}

/// What is done after an attempt to store an entry.
#[derive(Clone, Copy, Debug, PartialEq, Eq, Structural)]
pub enum LogStep {
    /// The entry is stored.
    Done,
    /// The entry is stored, and it is time to clean up.
    CleanUp,
    /// The storage is asked once more.
    Retry,
    /// The entry is kept in memory.
    Kept,
}

pub open spec fn log_step(ready: bool, sequence: u64, stored: bool, retried: bool) -> LogStep {
    if stored {
        if !retried && sequence % 100 == 0 {
            LogStep::CleanUp
        } else {
            LogStep::Done
        }
    } else if !retried && ready {
        LogStep::Retry
    } else {
        LogStep::Kept
    }
}

fn copy_entries(entries: &Vec<EnvVariable>) -> (r: Vec<EnvVariable>)
    ensures
        envs(r@) == envs(entries@),
{
    let mut r: Vec<EnvVariable> = Vec::new();
    let mut i: usize = 0;
    while i < entries.len()
        invariant
            i <= entries@.len(),
            r@.len() == i,
            forall|j: int| 0 <= j < i ==> (#[trigger] r@[j])@ == entries@[j]@,
        decreases entries@.len() - i,
    {
        r.push(entries[i].duplicate());
        i = i + 1;
    }
    assert(envs(r@) == envs(entries@));
    r
}

/// The repository and what to check out in an address of the older form.
pub open spec fn legacy_address(old_url: Seq<char>) -> Option<(Seq<char>, Seq<char>)> {
    let url = trimmed(old_url);
    if url.len() == 0 {
        None
    } else {
        match cut(url, "/tree/"@) {
            Some(p) => Some(
                (
                    p.0,
                    match cut(p.1, "/"@) {
                        Some(q) => q.0,
                        None => p.1,
                    },
                ),
            ),
            None => match before_suffix(url, "/releases"@) {
                Some(repo) => Some((repo, Seq::empty())),
                None => match before_suffix(url, "/releases/latest"@) {
                    Some(repo) => Some((repo, Seq::empty())),
                    None => Some((url, Seq::empty())),
                },
            },
        }
    }
}

/// The latest of the entries, as many as may be pending.
pub open spec fn latest(logs: Seq<LogModel>) -> Seq<LogModel> {
    logs.skip(if logs.len() > MAX_PENDING_LOG_ENTRIES {
        logs.len() - MAX_PENDING_LOG_ENTRIES
    } else {
        0
    })
}

/// Keeps the latest of the entries, as many as may be pending.
pub fn latest_logs(logs: &Vec<LogEntry>) -> (r: Vec<LogEntry>)
    ensures
        logs_view(r@) == latest(logs_view(logs@)),
{
    let ghost ls = logs_view(logs@);
    let start: usize = logs.len().saturating_sub(MAX_PENDING_LOG_ENTRIES);
    let mut r: Vec<LogEntry> = Vec::new();
    let mut i: usize = start;
    while i < logs.len()
        invariant
            start <= i <= logs@.len(),
            ls == logs_view(logs@),
            logs_view(r@) == ls.subrange(start as int, i as int),
        decreases logs@.len() - i,
    {
        let ghost before = logs_view(r@);
        let copy = logs[i].duplicate();
        let ghost model = copy@;
        assert(model == ls[i as int]);
        r.push(copy);
        assert(logs_view(r@) == before.push(model));
        i = i + 1;
    }
    assert(logs_view(r@) == latest(ls));
    r
}

// ---------------------------------------------------------------------------
// Starting up
// ---------------------------------------------------------------------------

/// What was found when the desktop started.
#[derive(Clone, Copy, Debug, PartialEq, Eq, Structural)]
pub struct StartupFacts {
    pub config_file_exists: bool,
    pub config_ready: bool,
    pub setup_completed: bool,
    pub database_ready: bool,
    pub credentials_required: bool,
    pub credentials_ready: bool,
    pub database_has_data: bool,
    pub legacy_data_exists: bool,
}

/// What follows from what was found: whether the choice of storage is still to be made,
/// whether data can be written, and whether that of an older version is taken over.
#[derive(Clone, Copy, Debug, PartialEq, Eq, Structural)]
pub struct StartupPlan {
    pub setup_required: bool,
    pub storage_ready: bool,
    pub migrate_legacy: bool,
}

pub open spec fn startup_plan(facts: StartupFacts) -> StartupPlan {
    StartupPlan {
        setup_required: !facts.config_file_exists || !facts.setup_completed,
        storage_ready: facts.config_file_exists && facts.database_ready && facts.config_ready && (
        !facts.credentials_required || facts.credentials_ready),
        migrate_legacy: !facts.database_has_data && facts.legacy_data_exists,
    }
}

pub fn startup(facts: StartupFacts) -> (r: StartupPlan)
    ensures
        r == startup_plan(facts),
{
    StartupPlan {
        setup_required: !facts.config_file_exists || !facts.setup_completed,
        storage_ready: facts.config_file_exists && facts.database_ready && facts.config_ready && (
        !facts.credentials_required || facts.credentials_ready),
        migrate_legacy: !facts.database_has_data && facts.legacy_data_exists,
    }
}

/// What is opened for the data.
pub enum EngineChoice {
    /// Nothing, until a choice was made.
    Pending,
    /// The SQLite database in the given file.
    Sqlite(String),
    /// The service that the settings tell of.
    SeekDb,
}

/// The SQLite file for the given settings: in the data directory unless they tell a place.
pub open spec fn sqlite_file(windows: bool, data_dir: Seq<char>, config: ConfigModel) -> Seq<char> {
    if config.mode == "sqlite_embedded"@ {
        joined_path(windows, sqlite_directory(data_dir, config), "agentseek-desktop.sqlite3"@)
    } else {
        joined_path(windows, data_dir, "agentseek-desktop.sqlite3"@)
    }
}

fn sqlite_file_for(windows: bool, data_dir: &str, config: &StorageConfig) -> (r: String)
    ensures
        r@ == sqlite_file(windows, data_dir@, config@),
{
    if same(config.mode.as_str(), "sqlite_embedded") {
        sqlite_database_path(data_dir, config, windows)
    } else {
        join_path(windows, data_dir, "agentseek-desktop.sqlite3")
    }
}

/// Chooses what is opened for the data; a first start opens nothing.
pub fn open_storage_engine(
    data_dir: &str,
    config: &StorageConfig,
    config_file_exists: bool,
    windows: bool,
) -> (r: EngineChoice)
    ensures
        !config_file_exists <==> r is Pending,
        config_file_exists && config@.mode != "sqlite_embedded"@ <==> r is SeekDb,
        r matches EngineChoice::Sqlite(path) ==> path@ == sqlite_file(windows, data_dir@, config@),
{
    if !config_file_exists {
        EngineChoice::Pending
    } else if same(config.mode.as_str(), "sqlite_embedded") {
        EngineChoice::Sqlite(sqlite_file_for(windows, data_dir, config))
    } else {
        EngineChoice::SeekDb
    }
}

/// What takes the place of a service that cannot be opened: the SQLite file, and what is told
/// of it.
pub fn degraded_engine(data_dir: &str, config: &StorageConfig, error: &str, windows: bool) -> (r: (
    String,
    String,
))
    ensures
        r.0@ == sqlite_file(windows, data_dir@, config@),
        r.1@ == "Configured "@ + config@.mode
            + " storage unavailable, degraded to embedded SQLite: "@ + error@,
{
    (
        sqlite_file_for(windows, data_dir, config),
        concat4(
            "Configured ",
            config.mode.as_str(),
            " storage unavailable, degraded to embedded SQLite: ",
            error,
        ),
    )
}

/// The data of an older version as it is taken over: repaired, numbered, in order, and without
/// what expired.
pub open spec fn migrated(data: StoreModel, days: u32, now: u64) -> StoreModel {
    let instances = data.instances.map_values(
        |x: InstanceModel| repaired(x, was_deployed(x, data.logs), now),
    );
    let logs = in_order(numbered(data.logs.map_values(|x: LogModel| refiled(x))));
    StoreModel { instances, logs: pruned(logs, instances, days, now).0, ..data }
}

/// Takes over the data of an older version.
pub fn migrate_legacy_store(data: &mut AppStore, days: u32, now: u64)
    ensures
        final(data)@ == migrated(old(data)@, days, now),
{
    repair_predeployment_restart_statuses(data, now);
    repair_lifecycle_log_categories(data);
    repair_log_sequences(data);
    sort_logs(data);
    prune_logs(data, days, now);
}

/// Instances repaired by whether the storage knows of a deployment of each.
pub open spec fn all_repaired(
    instances: Seq<InstanceModel>,
    stored: Seq<bool>,
    now: u64,
) -> Seq<InstanceModel> {
    instances.map(
        |i: int, x: InstanceModel| repaired(x, x.pid is Some || (i < stored.len() && stored[i]), now),
    )
}

/// Puts back all instances that wait for a restart though the storage knows of no deployment;
/// says whether there were any.
pub fn repair_stored_instances(instances: &mut Vec<InstanceRecord>, stored: &Vec<bool>, now: u64) -> (
    changed: bool)
    ensures
        instances_view(final(instances)@) == all_repaired(
            instances_view(old(instances)@),
            stored@,
            now,
        ),
        changed == exists|i: int|
            0 <= i < old(instances)@.len() && (#[trigger] old(instances)@[i])@.status
                == "needs-restart"@ && old(instances)@[i]@.pid is None && !(i < stored@.len()
                && stored@[i]),
{
    let ghost start = instances@;
    let mut changed: bool = false;
    let mut i: usize = 0;
    while i < instances.len()
        invariant
            i <= instances@.len(),
            start.len() == instances@.len(),
            changed == exists|j: int|
                0 <= j < i && (#[trigger] start[j])@.status == "needs-restart"@ && start[j]@.pid is None
                    && !(j < stored@.len() && stored@[j]),
            forall|j: int|
                0 <= j < i ==> (#[trigger] instances@[j])@ == repaired(
                    start[j]@,
                    start[j]@.pid is Some || (j < stored@.len() && stored@[j]),
                    now,
                ),
            forall|j: int| i <= j < start.len() ==> (#[trigger] instances@[j])@ == start[j]@,
        decreases instances@.len() - i,
    {
        let mut record = instances[i].duplicate();
        assert(record@ == start[i as int]@);
        let deployed: bool = record.pid.is_some() || (i < stored.len() && stored[i]);
        if repair_instance_restart_status(&mut record, deployed, now) {
            changed = true;
        }
        instances.set(i, record);
        i = i + 1;
    }
    assert(instances_view(instances@) == all_repaired(instances_view(start), stored@, now));
    changed
}

/// The largest number among entries, or zero.
pub open spec fn greatest_sequence(logs: Seq<LogModel>) -> u64
    decreases logs.len(),
{
    if logs.len() == 0 {
        0
    } else {
        let before = greatest_sequence(logs.drop_last());
        if before >= logs.last().sequence {
            before
        } else {
            logs.last().sequence
        }
    }
}

/// Where numbering goes on while nothing can be stored.
pub fn last_log_sequence(logs: &Vec<LogEntry>) -> (r: u64)
    ensures
        r == greatest_sequence(logs_view(logs@)),
{
    let ghost ls = logs_view(logs@);
    let mut greatest: u64 = 0;
    let mut i: usize = 0;
    assert(ls.take(0).len() == 0);
    while i < logs.len()
        invariant
            i <= logs@.len(),
            ls == logs_view(logs@),
            greatest == greatest_sequence(ls.take(i as int)),
        decreases logs@.len() - i,
    {
        assert(ls.take(i + 1).drop_last() == ls.take(i as int));
        assert(ls.take(i + 1).last() == logs@[i as int]@);
        if greatest < logs[i].sequence {
            greatest = logs[i].sequence;
        }
        i = i + 1;
    }
    assert(ls.take(ls.len() as int) == ls);
    greatest
}

/// The errors of the start as one text, if there were any.
pub open spec fn told_errors(errors: Seq<Seq<char>>) -> Option<Seq<char>> {
    if errors.len() == 0 {
        None
    } else {
        Some(joined(errors, "\n"@))
    }
}

pub fn startup_error(errors: &Vec<String>) -> (r: Option<String>)
    ensures
        opt_view(r) == told_errors(texts(errors@)),
{
    if errors.len() == 0 {
        None
    } else {
        Some(join(errors, "\n"))
    }
}

// ---------------------------------------------------------------------------
// Laws
// ---------------------------------------------------------------------------

/// Whether a text has no star in it.
pub open spec fn has_no_star(s: Seq<char>) -> bool {
    forall|i: int| 0 <= i < s.len() ==> #[trigger] s[i] != '*'
}

/// Where a text in which occurrences were starred out starts with a text without stars, the
/// text itself has it there.
proof fn lemma_starred_prefix(s: Seq<char>, p: Seq<char>, i: int, t: Seq<char>)
    requires
        0 <= i,
        p.len() > 0,
        has_no_star(t),
        t.len() <= replaced_from(s, p, "******"@, i).len(),
        replaced_from(s, p, "******"@, i).take(t.len() as int) == t,
    ensures
        t.len() > 0 ==> matches_at(s, t, i) && !matches_at(s, p, i),
        i <= s.len() ==> matches_at(s, t, i),
    decreases s.len() - i,
{
    reveal_strlit("******");
    let out = replaced_from(s, p, "******"@, i);
    if t.len() == 0 {
        if i <= s.len() {
            assert(s.subrange(i, i) == t);
        }
    } else if i < s.len() {
        assert(out.take(t.len() as int)[0] == out[0]);
        assert(t[0] == out[0]);
        if matches_at(s, p, i) {
            assert(out[0] == '*');
            assert(false);
        } else {
            let rest = replaced_from(s, p, "******"@, i + 1);
            let u = t.skip(1);
            assert(out[0] == s[i]);
            assert(rest.take(u.len() as int) == u) by {
                assert forall|k: int| 0 <= k < u.len() implies rest.take(u.len() as int)[k] == u[k] by {
                    assert(out.take(t.len() as int)[k + 1] == t[k + 1]);
                    assert(out[k + 1] == rest[k]);
                }
            }
            assert forall|k: int| 0 <= k < u.len() implies #[trigger] u[k] != '*' by {
                assert(u[k] == t[k + 1]);
            }
            lemma_starred_prefix(s, p, i + 1, u);
            assert(matches_at(s, u, i + 1));
            assert(s.subrange(i, i + t.len()) == t) by {
                assert forall|k: int| 0 <= k < t.len() implies s.subrange(i, i + t.len())[k] == t[k] by {
                    if k > 0 {
                        assert(s.subrange(i + 1, i + 1 + u.len())[k - 1] == u[k - 1]);
                    }
                }
            }
        }
    }
}

/// Where a text in which occurrences were starred out contains a text without stars, the text
/// itself contains it, at a place where nothing was starred out.
proof fn lemma_starred_holds(s: Seq<char>, p: Seq<char>, i: int, q: Seq<char>, j: int)
    requires
        0 <= i,
        p.len() > 0,
        q.len() > 0,
        has_no_star(q),
        matches_at(replaced_from(s, p, "******"@, i), q, j),
    ensures
        exists|k: int| #[trigger] matches_at(s, q, k) && !matches_at(s, p, k),
    decreases s.len() - i,
{
    reveal_strlit("******");
    let out = replaced_from(s, p, "******"@, i);
    if i < s.len() {
        if j == 0 {
            assert(out.take(q.len() as int) == out.subrange(0, q.len() as int));
            lemma_starred_prefix(s, p, i, q);
        } else if matches_at(s, p, i) {
            let rest = replaced_from(s, p, "******"@, i + p.len());
            if j < 6 {
                assert(out.subrange(j, j + q.len())[0] == out[j]);
                assert(out[j] == '*');
                assert(false);
            } else {
                assert(rest.subrange(j - 6, j - 6 + q.len()) == out.subrange(j, j + q.len()));
                lemma_starred_holds(s, p, i + p.len(), q, j - 6);
            }
        } else {
            let rest = replaced_from(s, p, "******"@, i + 1);
            assert(rest.subrange(j - 1, j - 1 + q.len()) == out.subrange(j, j + q.len()));
            lemma_starred_holds(s, p, i + 1, q, j - 1);
        }
    }
}

/// Starring out a text takes out all its occurrences and brings in none of another.
proof fn lemma_starred(s: Seq<char>, p: Seq<char>, q: Seq<char>)
    requires
        p.len() > 0,
        q.len() > 0,
        has_no_star(q),
    ensures
        holds(replaced(s, p, "******"@), q) ==> holds(s, q) && q != p,
{
    let out = replaced(s, p, "******"@);
    if holds(out, q) {
        lemma_holds(out, q);
        let j = choose|j: int| matches_at(out, q, j);
        lemma_starred_holds(s, p, 0, q, j);
        let k = choose|k: int| #[trigger] matches_at(s, q, k) && !matches_at(s, p, k);
        lemma_holds(s, q);
    }
}

proof fn lemma_redacted_brings_in_nothing(
    value: Seq<char>,
    vault: Seq<EnvModel>,
    i: int,
    q: Seq<char>,
)
    requires
        0 <= i,
        q.len() > 0,
        has_no_star(q),
        !holds(value, q),
    ensures
        !holds(redacted_from(value, vault, i), q),
    decreases vault.len() - i,
{
    if i < vault.len() {
        if is_hidden(vault[i]) {
            lemma_bytes_not_empty(vault[i].value);
            lemma_starred(value, vault[i].value, q);
            lemma_redacted_brings_in_nothing(
                replaced(value, vault[i].value, "******"@),
                vault,
                i + 1,
                q,
            );
        } else {
            lemma_redacted_brings_in_nothing(value, vault, i + 1, q);
        }
    }
}

/// No secret is left in a text, whichever secrets come before or after it.
proof fn lemma_secret_is_hidden(value: Seq<char>, vault: Seq<EnvModel>, i: int, k: int)
    requires
        0 <= i <= k < vault.len(),
        is_hidden(vault[k]),
        has_no_star(vault[k].value),
    ensures
        !holds(redacted_from(value, vault, i), vault[k].value),
    decreases vault.len() - i,
{
    if i < k {
        if is_hidden(vault[i]) {
            lemma_secret_is_hidden(replaced(value, vault[i].value, "******"@), vault, i + 1, k);
        } else {
            lemma_secret_is_hidden(value, vault, i + 1, k);
        }
    } else {
        lemma_bytes_not_empty(vault[k].value);
        let next = replaced(value, vault[k].value, "******"@);
        lemma_starred(value, vault[k].value, vault[k].value);
        lemma_redacted_brings_in_nothing(next, vault, k + 1, vault[k].value);
    }
}

/// Whether a text stands in the mark of a cut, or starts before the mark and ends in it.
pub open spec fn touches_mark(q: Seq<char>) -> bool {
    holds("\n...[log content truncated]"@, q) || exists|j: int|
        0 < j < q.len() && starts("\n...[log content truncated]"@, #[trigger] q.skip(j))
}

/// Cutting a text brings in nothing that does not touch the mark of the cut.
proof fn lemma_cut_brings_in_nothing(s: Seq<char>, q: Seq<char>)
    requires
        q.len() > 0,
        !holds(s, q),
        log_text(s) == s || !touches_mark(q),
    ensures
        !holds(log_text(s), q),
{
    reveal_strlit("\n...[log content truncated]");
    let mark = "\n...[log content truncated]"@;
    let u = log_text(s);
    if u != s && holds(u, q) {
        let n = fitting_from(s, MAX_LOG_TEXT_BYTES as int, 0);
        lemma_fitting_within(s, MAX_LOG_TEXT_BYTES as int, 0);
        let t = s.take(n);
        assert(u == t + mark);
        lemma_holds(u, q);
        lemma_holds(s, q);
        lemma_holds(mark, q);
        let j = choose|j: int| matches_at(u, q, j);
        let found = u.subrange(j, j + q.len());
        assert(found == q);
        if j + q.len() <= n {
            assert(s.subrange(j, j + q.len()) == found);
            assert(matches_at(s, q, j));
        } else if j >= n {
            assert(mark.subrange(j - n, j - n + q.len()) == found);
            assert(matches_at(mark, q, j - n));
        } else {
            let rest = q.skip(n - j);
            assert(mark.subrange(0, rest.len() as int) == rest) by {
                assert(found.skip(n - j) == u.subrange(n, j + q.len()));
                assert(u.subrange(n, j + q.len()) == mark.subrange(0, rest.len() as int));
            }
            assert(starts(mark, rest));
        }
    }
}

proof fn lemma_fitting_within(s: Seq<char>, max: int, i: int)
    requires
        0 <= i <= s.len(),
    ensures
        i <= fitting_from(s, max, i) <= s.len(),
    decreases s.len() - i,
{
    if i < s.len() && bytes(s.take(i + 1)) <= max {
        lemma_fitting_within(s, max, i + 1);
    }
}

/// No secret of the vault is left in a text for the log. Left out are secrets that hold a star,
/// which what is put in place of other secrets may spell, and in a text that is cut those that
/// the mark of the cut, with what stands before it, may spell.
pub proof fn law_secrets_are_hidden(value: Seq<char>, vault: Seq<EnvModel>, k: int)
    requires
        0 <= k < vault.len(),
        is_hidden(vault[k]),
        has_no_star(vault[k].value),
        bytes(redacted_from(value, vault, 0)) <= MAX_LOG_TEXT_BYTES || !touches_mark(
            vault[k].value,
        ),
    ensures
        !holds(redacted(value, vault), vault[k].value),
{
    lemma_secret_is_hidden(value, vault, 0, k);
    lemma_bytes_not_empty(vault[k].value);
    lemma_cut_brings_in_nothing(redacted_from(value, vault, 0), vault[k].value);
}

/// The id of an entry, from its time and its number.
pub open spec fn log_id(now: u64, sequence: u64) -> Seq<char> {
    "log-"@ + decimal(now as nat) + "-"@ + decimal(sequence as nat)
}

/// Entries with the same id have the same time and number: none of two entries, which are
/// numbered one after the other, takes the place of the other.
pub proof fn law_log_ids_are_distinct(now: u64, sequence: u64, later: u64, other: u64)
    requires
        log_id(now, sequence) == log_id(later, other),
    ensures
        now == later,
        sequence == other,
{
    reveal_strlit("log-");
    reveal_strlit("-");
    let (a, b) = (decimal(now as nat), decimal(sequence as nat));
    let (c, d) = (decimal(later as nat), decimal(other as nat));
    lemma_decimal_value(now as nat);
    lemma_decimal_value(sequence as nat);
    lemma_decimal_value(later as nat);
    lemma_decimal_value(other as nat);
    let s = log_id(now, sequence);
    let t = log_id(later, other);
    assert(s[4 + a.len() as int] == '-');
    assert(t[4 + c.len() as int] == '-');
    if a.len() < c.len() {
        assert(t[4 + a.len() as int] == c[a.len() as int]);
        assert(is_digit(c[a.len() as int]));
    }
    if c.len() < a.len() {
        assert(s[4 + c.len() as int] == a[c.len() as int]);
        assert(is_digit(a[c.len() as int]));
    }
    assert(s.subrange(4, 4 + a.len() as int) == a);
    assert(t.subrange(4, 4 + c.len() as int) == c);
    assert(s.skip(5 + a.len() as int) == b);
    assert(t.skip(5 + c.len() as int) == d);
}

/// Repairing twice repairs nothing more.
pub proof fn law_repair_is_idempotent(instance: InstanceModel, deployed: bool, now: u64, later: u64)
    ensures
        repaired(repaired(instance, deployed, now), deployed, later) == repaired(
            instance,
            deployed,
            now,
        ),
        !waits_in_vain(repaired(instance, deployed, now), deployed),
{
    reveal_strlit("needs-restart");
    reveal_strlit("ready-to-install");
    reveal_strlit("configuring");
    assert("needs-restart"@.len() == 13);
    assert("ready-to-install"@.len() == 16);
    assert("configuring"@.len() == 11);
}

/// A stage that was set is the one that is read.
pub proof fn law_stage_is_read_back(
    stages: Seq<(Seq<char>, Seq<char>)>,
    id: Seq<char>,
    stage: Seq<char>,
    other: Seq<char>,
)
    ensures
        stage_of(with_stage(stages, id, stage), id) == stage,
        other != id ==> stage_of(with_stage(stages, id, stage), other) == stage_of(stages, other),
{
    lemma_stage_from(stages, id, 0);
    lemma_stage_from(stages, other, 0);
    let after = with_stage(stages, id, stage);
    lemma_stage_from(after, id, 0);
    lemma_stage_from(after, other, 0);
    let k = stage_from(stages, id, 0);
    let a = stage_from(after, id, 0);
    assert(after[k] == (id, stage));
    assert(a == k) by {
        if a < k {
            assert(after[a] == stages[a]);
        }
    }
    if other != id {
        let m = stage_from(stages, other, 0);
        let n = stage_from(after, other, 0);
        if m < stages.len() {
            assert(after[m] == stages[m]);
            if n < m {
                assert(after[n] == stages[n]);
            }
        } else if n < after.len() {
            if n < stages.len() && n != k {
                assert(after[n] == stages[n]);
            }
        }
    }
}

proof fn lemma_stage_from(stages: Seq<(Seq<char>, Seq<char>)>, id: Seq<char>, i: int)
    requires
        0 <= i <= stages.len(),
    ensures
        i <= stage_from(stages, id, i) <= stages.len(),
        stage_from(stages, id, i) < stages.len() ==> stages[stage_from(stages, id, i)].0 == id,
        forall|j: int| i <= j < stage_from(stages, id, i) ==> (#[trigger] stages[j]).0 != id,
    decreases stages.len() - i,
{
    if i < stages.len() && stages[i].0 != id {
        lemma_stage_from(stages, id, i + 1);
    }
}

/// Whether entries are in order: none comes before the one in front of it.
pub open spec fn are_in_order(logs: Seq<LogModel>) -> bool {
    forall|i: int, j: int|
        0 <= i < j < logs.len() ==> !log_before(#[trigger] logs[j], #[trigger] logs[i])
}

proof fn lemma_log_place(sorted: Seq<LogModel>, x: LogModel, i: int)
    requires
        0 <= i <= sorted.len(),
    ensures
        0 <= log_place(sorted, x, i) <= i,
        forall|j: int| log_place(sorted, x, i) <= j < i ==> log_before(x, #[trigger] sorted[j]),
        log_place(sorted, x, i) > 0 ==> !log_before(x, sorted[log_place(sorted, x, i) - 1]),
    decreases i,
{
    if 0 < i && log_before(x, sorted[i - 1]) {
        lemma_log_place(sorted, x, i - 1);
    }
}

/// The order of entries has no circle.
proof fn lemma_log_order(a: LogModel, b: LogModel, c: LogModel)
    ensures
        !(log_before(a, b) && log_before(b, a)),
        !log_before(b, a) && !log_before(c, b) ==> !log_before(c, a),
{
    lemma_text_order_total(a.id, b.id, 0);
    if !text_before(c.id, b.id, 0) && text_before(c.id, a.id, 0) {
        lemma_text_order_transitive(b.id, c.id, a.id, 0);
    }
}

/// Sorted entries are in order, and are the same as before.
pub proof fn law_sorted_logs(logs: Seq<LogModel>)
    ensures
        are_in_order(in_order(logs)),
        in_order(logs).to_multiset() == logs.to_multiset(),
        in_order(logs).len() == logs.len(),
    decreases logs.len(),
{
    if logs.len() > 0 {
        let rest = logs.drop_last();
        let x = logs.last();
        law_sorted_logs(rest);
        let sorted = in_order(rest);
        let k = log_place(sorted, x, sorted.len() as int);
        lemma_log_place(sorted, x, sorted.len() as int);
        let out = sorted.insert(k, x);
        assert forall|i: int, j: int| 0 <= i < j < out.len() implies !log_before(
            #[trigger] out[j],
            #[trigger] out[i],
        ) by {
            if j < k {
                assert(out[i] == sorted[i] && out[j] == sorted[j]);
            } else if j == k {
                assert(out[i] == sorted[i]);
                assert(out[j] == x);
                if i < k - 1 {
                    assert(!log_before(sorted[k - 1], sorted[i]));
                    lemma_log_order(sorted[i], sorted[k - 1], x);
                }
            } else {
                assert(out[j] == sorted[j - 1]);
                if i < k {
                    assert(out[i] == sorted[i]);
                } else if i == k {
                    assert(out[i] == x);
                    lemma_log_order(x, sorted[j - 1], x);
                } else {
                    assert(out[i] == sorted[i - 1]);
                }
            }
        }
        assert(logs == rest.push(x));
        broadcast use vstd::seq_lib::group_to_multiset_ensures;
    } else {
        assert(in_order(logs) == logs);
    }
}

} // verus!
