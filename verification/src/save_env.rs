//! Saving, importing and exporting the environment of an instance.

use crate::config_sync::{
    ConfigFiles, ConfigWrites, compose_write, frontend_write, lifecycle_write,
    synchronize_instance_configs, written, written_paths,
};
use crate::environment::{
    append_vault_only_entries, completed_from, count_exported, ensure_tracing_choice, env_entries,
    export_counts, import_into_vault, imported_from, is_env_file, is_env_file_name,
    lifecycle_synced, merge_env_entries, merged, parse_env, render_env, rendered,
    resolve_and_sync_lifecycle_ports, retain_keyed, services_view, share_with_vault, shared_from,
    with_keys, with_tracing_choice,
};
use crate::instance::{join_path, joined_path, mark_env_saved};
use crate::lifecycle::toml_string;
use crate::models::{
    ChangeModel, EnvModel, EnvVariable, InstanceModel, InstanceRecord, PortChange, changes_view,
    envs,
};
use crate::port_plans::{
    change_lines, lifecycle_plan, port_change_details, resolve_lifecycle_ports, rewritten_from,
};
use crate::ports::{
    resolution, resolve_deployed_port_conflicts, resolve_port_conflicts, HostPorts, OffersExhausted,
};
use crate::text::{
    concat2, concat4, concat5, concat6, copy_opt, decimal, decimal_of, join, joined, opt_view,
    texts, trim, trimmed,
};
use std::collections::HashSet;
use vstd::prelude::*;
use vstd::string::*;

verus! {

/// Refuses to write over a file unless that was asked for.
pub fn check_overwrite(path: &str, taken: bool, overwrite: bool) -> (r: Result<(), String>)
    ensures
        r is Ok <==> !taken || overwrite,
        r matches Err(message) ==> message@ == "ENV_FILE_EXISTS:"@ + path@,
{
    if taken && !overwrite {
        Err(concat2("ENV_FILE_EXISTS:", path))
    } else {
        Ok(())
    }
}

/// The file that the environment of an instance is read from: its own, else its example.
pub fn load_instance_env(instance: &InstanceRecord) -> (r: Result<String, String>)
    ensures
        match instance@.env_path {
            Some(path) => r matches Ok(p) && p@ == path,
            None => match instance@.env_example_path {
                Some(path) => r matches Ok(p) && p@ == path,
                None => r matches Err(message) && message@
                    == "Instance has no readable environment variable file"@,
            },
        },
{
    match instance.env_path.as_ref() {
        Some(path) => Ok(path.clone()),
        None => match instance.env_example_path.as_ref() {
            Some(path) => Ok(path.clone()),
            None => Err("Instance has no readable environment variable file".to_owned()),
        },
    }
}

// ---------------------------------------------------------------------------
// Saving
// ---------------------------------------------------------------------------

/// A lifecycle manifest: its text and its services.
pub struct ManifestText {
    pub content: String,
    pub services: Vec<(String, String)>,
}

/// What is known about ports when an environment is saved.
pub struct PortContext {
    /// The instance was deployed before.
    pub deployed: bool,
    /// The lifecycle manifest of the instance, where it has one.
    pub lifecycle: Option<ManifestText>,
    /// The ports of other instances.
    pub reserved: HashSet<u16>,
    /// The ports of the instance itself.
    pub self_ports: HashSet<u16>,
    pub host: HostPorts,
    /// Paths are written as on Windows.
    pub windows: bool,
}

/// An environment with its ports settled.
#[verifier::ext_equal]
pub struct SettledModel {
    /// There were enough free ports.
    pub complete: bool,
    pub env: Seq<EnvModel>,
    pub changes: Seq<ChangeModel>,
    /// The manifest with the new ports, where they were settled by it.
    pub lifecycle: Option<Seq<char>>,
}

/// The environment with its ports settled. An instance that was deployed keeps its own ports;
/// before that, the manifest decides where there is one.
pub open spec fn ports_settled(env: Seq<EnvModel>, context: PortContext) -> SettledModel {
    let busy = context.host.busy@;
    let offers = context.host.offers@;
    if context.deployed {
        let o = resolution(env, context.reserved@, context.self_ports@, busy, offers);
        SettledModel { complete: o.complete, env: o.env, changes: o.changes, lifecycle: None }
    } else {
        match context.lifecycle {
            Some(m) => {
                let services = services_view(m.services@);
                let plan = lifecycle_plan(services, env, context.reserved@, busy, offers);
                SettledModel {
                    complete: plan.complete,
                    env: lifecycle_synced(env, plan.map, plan.changes),
                    changes: plan.changes,
                    lifecycle: Some(rewritten_from(m.content@, services, plan.map, 0)),
                }
            },
            None => {
                let o = resolution(env, Set::empty(), Set::empty(), busy, offers);
                SettledModel { complete: o.complete, env: o.env, changes: o.changes, lifecycle: None }
            },
        }
    }
}

/// The environment as it is saved: without blank names, with its ports settled, and with a
/// choice about tracing.
pub open spec fn settled(env: Seq<EnvModel>, context: PortContext) -> SettledModel {
    let s = ports_settled(with_keys(env), context);
    SettledModel { env: with_tracing_choice(s.env), ..s }
}

/// An environment that is ready to be written.
pub struct SettledEnv {
    pub entries: Vec<EnvVariable>,
    pub changes: Vec<PortChange>,
    pub lifecycle: Option<String>,
}

/// Settles an environment before it is saved.
pub fn settle_env(entries: Vec<EnvVariable>, context: &PortContext) -> (r: Result<
    SettledEnv,
    OffersExhausted,
>)
    ensures
        ({
            let s = settled(envs(entries@), *context);
            &&& r is Ok <==> s.complete
            &&& r matches Ok(out) ==> {
                &&& envs(out.entries@) == s.env
                &&& changes_view(out.changes@) == s.changes
                &&& opt_view(out.lifecycle) == s.lifecycle
            }
        }),
{
    let mut kept = retain_keyed(entries);
    let mut lifecycle: Option<String> = None;
    let changes: Vec<PortChange>;
    if context.deployed {
        match resolve_deployed_port_conflicts(
            &mut kept,
            &context.reserved,
            &context.self_ports,
            &context.host,
        ) {
            Ok(c) => {
                changes = c;
            },
            Err(e) => {
                return Err(e);
            },
        }
    } else {
        match context.lifecycle.as_ref() {
            Some(m) => {
                match resolve_lifecycle_ports(
                    m.content.as_str(),
                    &m.services,
                    &context.reserved,
                    &kept,
                    &context.host,
                ) {
                    Ok(plan) => {
                        resolve_and_sync_lifecycle_ports(&mut kept, &plan.port_map, &plan.changes);
                        lifecycle = Some(plan.content);
                        changes = plan.changes;
                    },
                    Err(e) => {
                        return Err(e);
                    },
                }
            },
            None => {
                match resolve_port_conflicts(&mut kept, &context.host) {
                    Ok(c) => {
                        changes = c;
                    },
                    Err(e) => {
                        return Err(e);
                    },
                }
            },
        }
    }
    ensure_tracing_choice(&mut kept);
    Ok(SettledEnv { entries: kept, changes, lifecycle })
}

/// What saving an environment comes to.
pub struct SaveEnvOutcome {
    /// The environment file.
    pub path: String,
    pub content: String,
    /// The manifest that is written before the others are synchronized, where there is one.
    pub lifecycle: Option<String>,
    /// What is written to configuration files after that.
    pub writes: ConfigWrites,
    pub synced_count: usize,
    pub port_changes: Vec<PortChange>,
    /// The entries as they are shown again.
    pub entries: Vec<EnvVariable>,
    /// What is logged about ports that moved.
    pub warning: Option<String>,
    /// What is logged about the file.
    pub report: String,
}

/// Entries that count as unmodified again.
pub open spec fn unmodified(env: Seq<EnvModel>) -> Seq<EnvModel> {
    env.map_values(|e: EnvModel| EnvModel { modified: false, ..e })
}

fn as_unmodified(entries: &Vec<EnvVariable>) -> (r: Vec<EnvVariable>)
    ensures
        envs(r@) == unmodified(envs(entries@)),
{
    let ghost env = envs(entries@);
    let mut r: Vec<EnvVariable> = Vec::new();
    let mut i: usize = 0;
    while i < entries.len()
        invariant
            i <= entries@.len(),
            r@.len() == i,
            env == envs(entries@),
            forall|j: int| 0 <= j < i ==> (#[trigger] r@[j])@ == unmodified(env)[j],
        decreases entries@.len() - i,
    {
        assert(env[i as int] == entries@[i as int]@);
        let mut e = entries[i].duplicate();
        e.modified = false;
        r.push(e);
        i = i + 1;
    }
    assert(envs(r@) == unmodified(env));
    r
}

/// Paths behind two spaces.
pub open spec fn indented(paths: Seq<Seq<char>>) -> Seq<Seq<char>> {
    paths.map_values(|p: Seq<char>| "  "@ + p)
}

pub(crate) fn indent_paths(paths: &Vec<String>) -> (r: Vec<String>)
    ensures
        texts(r@) == indented(texts(paths@)),
{
    let ghost ps = texts(paths@);
    let mut r: Vec<String> = Vec::new();
    let mut i: usize = 0;
    while i < paths.len()
        invariant
            i <= paths@.len(),
            r@.len() == i,
            ps == texts(paths@),
            forall|j: int| 0 <= j < i ==> (#[trigger] r@[j])@ == indented(ps)[j],
        decreases paths@.len() - i,
    {
        assert(ps[i as int] == paths@[i as int]@);
        r.push(concat2("  ", paths[i].as_str()));
        i = i + 1;
    }
    assert(texts(r@) == indented(ps));
    r
}

/// What is logged about ports that moved while an environment was saved.
pub open spec fn moved_ports_warning(
    changes: Seq<ChangeModel>,
    env_path: Seq<char>,
    paths: Seq<Seq<char>>,
) -> Seq<char> {
    "Local port conflicts detected; free ports auto-assigned and synced to instance runtime configs and env vault\nPort changes:\n"@
        + joined(change_lines(changes), "\n"@) + "\nSynced files:\n  "@ + env_path + "\n"@ + joined(
        indented(paths),
        "\n"@,
    )
}

/// Saves an environment: settles it, carries it into the configuration files and the vault,
/// and marks the instance.
///
/// Where free ports run out, nothing is changed.
pub fn save_instance_env(
    entries: Vec<EnvVariable>,
    context: &PortContext,
    files: &ConfigFiles,
    instance: &mut InstanceRecord,
    vault: &mut Vec<EnvVariable>,
    now: u64,
) -> (r: Result<SaveEnvOutcome, OffersExhausted>)
    ensures
        ({
            let before = old(instance)@;
            let s = settled(envs(entries@), *context);
            let path = joined_path(context.windows, before.work_dir, ".env"@);
            let shared = shared_from(envs(old(vault)@), s.env, false, 0, 0);
            let manifest = match s.lifecycle {
                Some(content) => Some(content),
                None => opt_view(files.lifecycle),
            };
            &&& r is Ok <==> s.complete
            &&& r is Err ==> final(instance)@ == before && envs(final(vault)@) == envs(old(vault)@)
            &&& r matches Ok(out) ==> {
                &&& final(instance)@ == (InstanceModel {
                    env_path: Some(path),
                    needs_doctor: context.deployed,
                    status: if context.deployed {
                        "needs-restart"@
                    } else {
                        "ready-to-install"@
                    },
                    updated_at: now,
                    ..before
                })
                &&& (envs(final(vault)@), out.synced_count as int) == shared
                &&& out.path@ == path
                &&& out.content@ == rendered(s.env)
                &&& opt_view(out.lifecycle) == s.lifecycle
                &&& opt_view(out.writes.lifecycle) == lifecycle_write(
                    manifest,
                    toml_string(before.name),
                    s.env,
                )
                &&& opt_view(out.writes.frontend) == frontend_write(
                    opt_view(files.frontend_example),
                    opt_view(files.frontend),
                    s.env,
                )
                &&& opt_view(out.writes.compose) == compose_write(opt_view(files.compose), s.env)
                &&& changes_view(out.port_changes@) == s.changes
                &&& envs(out.entries@) == unmodified(s.env)
                &&& opt_view(out.warning) == (if s.changes.len() > 0 {
                    Some(
                        moved_ports_warning(
                            s.changes,
                            path,
                            written(
                                before.work_dir,
                                out.writes.lifecycle is Some,
                                out.writes.frontend is Some,
                                out.writes.compose is Some,
                                context.windows,
                            ),
                        ),
                    )
                } else {
                    None
                })
                &&& out.report@ == "Generated "@ + path + " ("@ + decimal(s.env.len()) + " keys, synced "@
                    + (decimal(shared.1 as nat) + " to vault)"@)
            }
        }),
{
    let out = match settle_env(entries, context) {
        Ok(out) => out,
        Err(e) => {
            return Err(e);
        },
    };
    let path = join_path(context.windows, instance.work_dir.as_str(), ".env");
    let content = render_env(&out.entries);
    let current = ConfigFiles {
        lifecycle: match out.lifecycle.as_ref() {
            Some(content) => Some(content.clone()),
            None => copy_opt(&files.lifecycle),
        },
        frontend_example: copy_opt(&files.frontend_example),
        frontend: copy_opt(&files.frontend),
        compose: copy_opt(&files.compose),
    };
    let writes = synchronize_instance_configs(&current, instance.name.as_str(), &out.entries);
    let synced_count: usize = share_with_vault(vault, &out.entries, false);
    assert(changes_view(out.changes@).len() == out.changes@.len());
    assert(envs(out.entries@).len() == out.entries@.len());
    let warning = if out.changes.len() > 0 {
        let paths = indent_paths(
            &written_paths(instance.work_dir.as_str(), &writes, context.windows),
        );
        Some(
            concat6(
                "Local port conflicts detected; free ports auto-assigned and synced to instance runtime configs and env vault\nPort changes:\n",
                port_change_details(&out.changes).as_str(),
                "\nSynced files:\n  ",
                path.as_str(),
                "\n",
                join(&paths, "\n").as_str(),
            ),
        )
    } else {
        None
    };
    let synced = concat2(decimal_of(synced_count as u64).as_str(), " to vault)");
    let report = concat6(
        "Generated ",
        path.as_str(),
        " (",
        decimal_of(out.entries.len() as u64).as_str(),
        " keys, synced ",
        synced.as_str(),
    );
    mark_env_saved(instance, path.as_str(), context.deployed, now);
    Ok(
        SaveEnvOutcome {
            path,
            content,
            lifecycle: out.lifecycle,
            writes,
            synced_count,
            port_changes: out.changes,
            entries: as_unmodified(&out.entries),
            warning,
            report,
        },
    )
}

// ---------------------------------------------------------------------------
// Importing and exporting
// ---------------------------------------------------------------------------

/// Takes the entries of an environment file into the vault and counts them.
pub fn import_env(vault: &mut Vec<EnvVariable>, content: &str) -> (count: usize)
    ensures
        envs(final(vault)@) == imported_from(envs(old(vault)@), env_entries(content@), 0),
        count == env_entries(content@).len(),
{
    let entries = parse_env(content);
    assert(envs(entries@).len() == entries@.len());
    import_into_vault(vault, &entries);
    entries.len()
}

/// What is logged about an import.
pub fn import_report(count: usize, path: &str) -> (r: String)
    ensures
        r@ == "Imported "@ + decimal(count as nat) + " variables from "@ + path@,
{
    concat4(
        "Imported ",
        decimal_of(count as u64).as_str(),
        " variables from ",
        path,
    )
}

/// What exporting comes to.
pub struct ExportOutcome {
    pub content: String,
    pub key_count: usize,
    pub filled_count: usize,
    pub missing_count: usize,
}

/// The entries of an export: those of the source with the values of the vault, and then the
/// rest of the vault.
pub open spec fn exported(source: Seq<EnvModel>, vault: Seq<EnvModel>) -> Seq<EnvModel> {
    completed_from(merged(source, vault), vault, 0)
}

/// Fills a source file from the vault and adds what else the vault holds.
pub fn export_env(source: &str, vault: &Vec<EnvVariable>) -> (r: ExportOutcome)
    ensures
        ({
            let env = exported(env_entries(source@), envs(vault@));
            &&& r.content@ == rendered(env)
            &&& r.key_count == env.len()
            &&& (r.filled_count as int, r.missing_count as int) == export_counts(env, 0)
        }),
{
    let source_entries = parse_env(source);
    let mut entries = merge_env_entries(&source_entries, vault);
    append_vault_only_entries(&mut entries, vault);
    assert(envs(entries@).len() == entries@.len());
    let content = render_env(&entries);
    let counts = count_exported(&entries);
    ExportOutcome {
        content,
        key_count: entries.len(),
        filled_count: counts.0,
        missing_count: counts.1,
    }
}

/// A file that the user chose, as it is found on disk.
#[derive(Clone, Debug)]
pub struct ChosenFile {
    pub is_file: bool,
    /// The last part of its path, if there is one that is text.
    pub name: Option<String>,
}

/// Whether a chosen file is an environment file.
pub open spec fn is_chosen_env_file(file: ChosenFile) -> bool {
    file.is_file && (file.name matches Some(name) && is_env_file(name@))
}

fn chosen_env_file(file: &ChosenFile) -> (r: bool)
    ensures
        r == is_chosen_env_file(*file),
{
    file.is_file && match file.name.as_ref() {
        Some(name) => is_env_file_name(name.as_str()),
        None => false,
    }
}

/// Accepts an environment file to import.
pub fn check_import(file: &ChosenFile) -> (r: Result<(), String>)
    ensures
        r is Ok <==> is_chosen_env_file(*file),
        r matches Err(message) ==> message@ == "Please select a valid .env file path"@,
{
    if chosen_env_file(file) {
        Ok(())
    } else {
        Err("Please select a valid .env file path".to_owned())
    }
}

/// Where an export is to be written, as it is found on disk.
#[derive(Clone, Debug)]
pub struct ExportTarget {
    pub is_absolute: bool,
    /// The last part of its path, if there is one that is text.
    pub name: Option<String>,
    pub directory_exists: bool,
}

/// What is wrong with the files of an export, if anything is.
pub open spec fn export_fault(source: ChosenFile, target: ExportTarget) -> Option<Seq<char>> {
    if !is_chosen_env_file(source) {
        Some("Please select a valid source .env file"@)
    } else if !target.is_absolute || !(target.name matches Some(name) && trimmed(name@).len() > 0) {
        Some("Target file must be an absolute path with filename"@)
    } else if !target.directory_exists {
        Some("Target file directory does not exist"@)
    } else {
        None
    }
}

/// Accepts an environment file to fill and a place to write the result to.
pub fn check_export(source: &ChosenFile, target: &ExportTarget) -> (r: Result<(), String>)
    ensures
        r is Ok <==> export_fault(*source, *target) is None,
        r matches Err(message) ==> export_fault(*source, *target) == Some(message@),
{
    if !chosen_env_file(source) {
        return Err("Please select a valid source .env file".to_owned());
    }
    let named: bool = match target.name.as_ref() {
        Some(name) => !trim(name.as_str()).is_empty(),
        None => false,
    };
    if !target.is_absolute || !named {
        return Err("Target file must be an absolute path with filename".to_owned());
    }
    if !target.directory_exists {
        return Err("Target file directory does not exist".to_owned());
    }
    Ok(())
}

/// What is logged about an export.
pub fn export_report(outcome: &ExportOutcome, output: &str, source: &str) -> (r: String)
    ensures
        r@ == "Exported "@ + output@ + "\nTotal variables: "@ + decimal(outcome.key_count as nat)
            + "\nBackfilled from vault: "@ + (decimal(outcome.filled_count as nat)
            + "\nStill missing: "@ + decimal(outcome.missing_count as nat) + "\nSource: "@
            + source@),
{
    let rest = concat5(
        decimal_of(outcome.filled_count as u64).as_str(),
        "\nStill missing: ",
        decimal_of(outcome.missing_count as u64).as_str(),
        "\nSource: ",
        source,
    );
    concat6(
        "Exported ",
        output,
        "\nTotal variables: ",
        decimal_of(outcome.key_count as u64).as_str(),
        "\nBackfilled from vault: ",
        rest.as_str(),
    )
}

/// What is logged about ports that moved before a deployment.
pub fn recheck_report(changes: &Vec<PortChange>, env_path: &str, paths: &Vec<String>) -> (r: String)
    ensures
        r@
            == "Pre-deployment port recheck found local port conflicts; ports reassigned and synced to instance runtime configs and env vault\nPort changes:\n"@
            + joined(change_lines(changes_view(changes@)), "\n"@) + "\nSynced files:\n  "@
            + env_path@ + "\n"@ + joined(indented(texts(paths@)), "\n"@),
{
    concat6(
        "Pre-deployment port recheck found local port conflicts; ports reassigned and synced to instance runtime configs and env vault\nPort changes:\n",
        port_change_details(changes).as_str(),
        "\nSynced files:\n  ",
        env_path,
        "\n",
        join(&indent_paths(paths), "\n").as_str(),
    )
}

} // verus!
