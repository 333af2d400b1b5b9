//! The data that the desktop works on, and what each value stands for.

use crate::text::{
    char_is_digit, chars_of, concat2, concat3, contains, copy_opt, decimal, decimal_of, holds,
    is_digit, opt_view, parse_up_to, parsed, starts, starts_with, take,
};
use vstd::prelude::*;
use vstd::string::*;

verus! {

// ---------------------------------------------------------------------------
// Limits and mirrors
// ---------------------------------------------------------------------------

pub const MAX_LOG_ENTRIES: usize = 100_000;

pub const DEFAULT_RUNTIME_LOG_RETENTION_DAYS: u32 = 7;

pub const DELETED_INSTANCE_LOG_RETENTION_DAYS: u32 = 7;

pub const SECONDS_PER_DAY: u64 = 86_400;

pub const LOG_CLEANUP_BATCH_SIZE: usize = 1_000;

pub const MAX_PENDING_LOG_ENTRIES: usize = 1_000;

pub const MAX_LOG_TEXT_BYTES: usize = 65_536;

pub const RUNTIME_LOG_SPOOL_DIRECTORY: &'static str = "runtime-logs";

/// npm registry mirror (npmmirror).
pub const NPM_REGISTRY_MIRROR: &'static str = "https://registry.npmmirror.com";

/// Node.js binary mirror (for NVM).
pub const NVM_NODEJS_MIRROR: &'static str = "https://cdn.npmmirror.com/binaries/node";

/// NVM install script mirror (Gitee).
pub const NVM_INSTALL_MIRROR: &'static str = "https://gitee.com/mirrors/nvm";

/// apt (Debian) mirror.
pub const APT_MIRROR: &'static str = "mirrors.aliyun.com";

/// PyPI mirror.
pub const PYPI_MIRROR: &'static str = "https://mirrors.aliyun.com/pypi/simple/";

/// HuggingFace mirror.
pub const HF_MIRROR: &'static str = "https://hf-mirror.com";

// ---------------------------------------------------------------------------
// Environment variables
// ---------------------------------------------------------------------------

/// One entry of an environment file or of the vault.
#[derive(Clone, Debug, Default)]
pub struct EnvVariable {
    pub key: String,
    pub value: String,
    pub comment: String,
    pub source: String,
    pub modified: bool,
}

/// What an [`EnvVariable`] stands for.
#[verifier::ext_equal]
pub struct EnvModel {
    pub key: Seq<char>,
    pub value: Seq<char>,
    pub comment: Seq<char>,
    pub source: Seq<char>,
    pub modified: bool,
}

impl View for EnvVariable {
    type V = EnvModel;

    open spec fn view(&self) -> EnvModel {
        EnvModel {
            key: self.key@,
            value: self.value@,
            comment: self.comment@,
            source: self.source@,
            modified: self.modified,
        }
    }
}

impl EnvVariable {
    /// An entry with the same contents.
    pub fn duplicate(&self) -> (r: EnvVariable)
        ensures
            r@ == self@,
    {
        EnvVariable {
            key: self.key.clone(),
            value: self.value.clone(),
            comment: self.comment.clone(),
            source: self.source.clone(),
            modified: self.modified,
        }
    }
}

/// What a list of entries stands for.
pub open spec fn envs(v: Seq<EnvVariable>) -> Seq<EnvModel> {
    v.map_values(|e: EnvVariable| e@)
}

/// A port that moved, under the variable that names it.
#[derive(Clone, Debug)]
pub struct PortChange {
    pub key: String,
    pub old_port: u16,
    pub new_port: u16,
}

/// What a [`PortChange`] stands for.
#[verifier::ext_equal]
pub struct ChangeModel {
    pub key: Seq<char>,
    pub old_port: u16,
    pub new_port: u16,
}

impl View for PortChange {
    type V = ChangeModel;

    open spec fn view(&self) -> ChangeModel {
        ChangeModel { key: self.key@, old_port: self.old_port, new_port: self.new_port }
    }
}

/// What a list of port changes stands for.
pub open spec fn changes_view(v: Seq<PortChange>) -> Seq<ChangeModel> {
    v.map_values(|e: PortChange| e@)
}

// ---------------------------------------------------------------------------
// Instances
// ---------------------------------------------------------------------------

#[derive(Clone, Debug)]
pub struct ServiceEndpoint {
    pub name: String,
    pub url: String,
    pub kind: String,
    pub primary: bool,
}

/// What a [`ServiceEndpoint`] stands for.
#[verifier::ext_equal]
pub struct EndpointModel {
    pub name: Seq<char>,
    pub url: Seq<char>,
    pub kind: Seq<char>,
    pub primary: bool,
}

impl View for ServiceEndpoint {
    type V = EndpointModel;

    open spec fn view(&self) -> EndpointModel {
        EndpointModel {
            name: self.name@,
            url: self.url@,
            kind: self.kind@,
            primary: self.primary,
        }
    }
}

impl ServiceEndpoint {
    /// An endpoint with the same contents.
    pub fn duplicate(&self) -> (r: ServiceEndpoint)
        ensures
            r@ == self@,
    {
        ServiceEndpoint {
            name: self.name.clone(),
            url: self.url.clone(),
            kind: self.kind.clone(),
            primary: self.primary,
        }
    }
}

/// What a list of endpoints stands for.
pub open spec fn endpoints(v: Seq<ServiceEndpoint>) -> Seq<EndpointModel> {
    v.map_values(|e: ServiceEndpoint| e@)
}

/// A deployed template.
#[derive(Clone, Debug)]
pub struct InstanceRecord {
    pub id: String,
    pub name: String,
    pub template_id: String,
    pub status: String,
    pub deployment_mode: String,
    pub work_dir: String,
    pub env_example_path: Option<String>,
    pub env_path: Option<String>,
    pub note: String,
    pub created_at: u64,
    pub updated_at: u64,
    pub needs_doctor: bool,
    pub pid: Option<u32>,
    pub agent_url: Option<String>,
    pub ui_url: Option<String>,
    pub studio_url: Option<String>,
    pub project_name: Option<String>,
    pub lifecycle_version: Option<u32>,
    pub service_endpoints: Vec<ServiceEndpoint>,
}

/// What an [`InstanceRecord`] stands for.
#[verifier::ext_equal]
pub struct InstanceModel {
    pub id: Seq<char>,
    pub name: Seq<char>,
    pub template_id: Seq<char>,
    pub status: Seq<char>,
    pub deployment_mode: Seq<char>,
    pub work_dir: Seq<char>,
    pub env_example_path: Option<Seq<char>>,
    pub env_path: Option<Seq<char>>,
    pub note: Seq<char>,
    pub created_at: u64,
    pub updated_at: u64,
    pub needs_doctor: bool,
    pub pid: Option<u32>,
    pub agent_url: Option<Seq<char>>,
    pub ui_url: Option<Seq<char>>,
    pub studio_url: Option<Seq<char>>,
    pub project_name: Option<Seq<char>>,
    pub lifecycle_version: Option<u32>,
    pub service_endpoints: Seq<EndpointModel>,
}

impl View for InstanceRecord {
    type V = InstanceModel;

    open spec fn view(&self) -> InstanceModel {
        InstanceModel {
            id: self.id@,
            name: self.name@,
            template_id: self.template_id@,
            status: self.status@,
            deployment_mode: self.deployment_mode@,
            work_dir: self.work_dir@,
            env_example_path: opt_view(self.env_example_path),
            env_path: opt_view(self.env_path),
            note: self.note@,
            created_at: self.created_at,
            updated_at: self.updated_at,
            needs_doctor: self.needs_doctor,
            pid: self.pid,
            agent_url: opt_view(self.agent_url),
            ui_url: opt_view(self.ui_url),
            studio_url: opt_view(self.studio_url),
            project_name: opt_view(self.project_name),
            lifecycle_version: self.lifecycle_version,
            service_endpoints: endpoints(self.service_endpoints@),
        }
    }
}

fn copy_endpoints(v: &Vec<ServiceEndpoint>) -> (r: Vec<ServiceEndpoint>)
    ensures
        endpoints(r@) == endpoints(v@),
{
    let mut r: Vec<ServiceEndpoint> = Vec::new();
    let mut i: usize = 0;
    while i < v.len()
        invariant
            i <= v@.len(),
            r@.len() == i,
            forall|j: int| 0 <= j < i ==> (#[trigger] r@[j])@ == v@[j]@,
        decreases v@.len() - i,
    {
        r.push(v[i].duplicate());
        i = i + 1;
    }
    r
}

impl InstanceRecord {
    /// A record with the same contents.
    pub fn duplicate(&self) -> (r: InstanceRecord)
        ensures
            r@ == self@,
    {
        InstanceRecord {
            id: self.id.clone(),
            name: self.name.clone(),
            template_id: self.template_id.clone(),
            status: self.status.clone(),
            deployment_mode: self.deployment_mode.clone(),
            work_dir: self.work_dir.clone(),
            env_example_path: copy_opt(&self.env_example_path),
            env_path: copy_opt(&self.env_path),
            note: self.note.clone(),
            created_at: self.created_at,
            updated_at: self.updated_at,
            needs_doctor: self.needs_doctor,
            pid: self.pid,
            agent_url: copy_opt(&self.agent_url),
            ui_url: copy_opt(&self.ui_url),
            studio_url: copy_opt(&self.studio_url),
            project_name: copy_opt(&self.project_name),
            lifecycle_version: self.lifecycle_version,
            service_endpoints: copy_endpoints(&self.service_endpoints),
        }
    }
}

/// What a list of instances stands for.
pub open spec fn instances_view(v: Seq<InstanceRecord>) -> Seq<InstanceModel> {
    v.map_values(|e: InstanceRecord| e@)
}

// ---------------------------------------------------------------------------
// Logs
// ---------------------------------------------------------------------------

#[derive(Clone, Debug)]
pub struct LogEntry {
    pub id: String,
    pub instance_id: Option<String>,
    pub instance_name: String,
    pub category: String,
    pub level: String,
    pub message: String,
    pub command: Option<String>,
    pub created_at: u64,
    pub sequence: u64,
}

/// What a [`LogEntry`] stands for.
#[verifier::ext_equal]
pub struct LogModel {
    pub id: Seq<char>,
    pub instance_id: Option<Seq<char>>,
    pub instance_name: Seq<char>,
    pub category: Seq<char>,
    pub level: Seq<char>,
    pub message: Seq<char>,
    pub command: Option<Seq<char>>,
    pub created_at: u64,
    pub sequence: u64,
}

impl View for LogEntry {
    type V = LogModel;

    open spec fn view(&self) -> LogModel {
        LogModel {
            id: self.id@,
            instance_id: opt_view(self.instance_id),
            instance_name: self.instance_name@,
            category: self.category@,
            level: self.level@,
            message: self.message@,
            command: opt_view(self.command),
            created_at: self.created_at,
            sequence: self.sequence,
        }
    }
}

impl LogEntry {
    /// An entry with the same contents.
    pub fn duplicate(&self) -> (r: LogEntry)
        ensures
            r@ == self@,
    {
        LogEntry {
            id: self.id.clone(),
            instance_id: copy_opt(&self.instance_id),
            instance_name: self.instance_name.clone(),
            category: self.category.clone(),
            level: self.level.clone(),
            message: self.message.clone(),
            command: copy_opt(&self.command),
            created_at: self.created_at,
            sequence: self.sequence,
        }
    }
}

/// What a list of log entries stands for.
pub open spec fn logs_view(v: Seq<LogEntry>) -> Seq<LogModel> {
    v.map_values(|e: LogEntry| e@)
}

/// What the desktop keeps: instances, the vault and logs.
#[derive(Clone, Debug)]
pub struct AppStore {
    pub instances: Vec<InstanceRecord>,
    pub vault: Vec<EnvVariable>,
    pub logs: Vec<LogEntry>,
}

/// What an [`AppStore`] stands for.
#[verifier::ext_equal]
pub struct StoreModel {
    pub instances: Seq<InstanceModel>,
    pub vault: Seq<EnvModel>,
    pub logs: Seq<LogModel>,
}

impl View for AppStore {
    type V = StoreModel;

    open spec fn view(&self) -> StoreModel {
        StoreModel {
            instances: instances_view(self.instances@),
            vault: envs(self.vault@),
            logs: logs_view(self.logs@),
        }
    }
}

// ---------------------------------------------------------------------------
// Storage configuration
// ---------------------------------------------------------------------------

/// Where the desktop keeps its data.
#[derive(Clone, Debug)]
pub struct StorageConfig {
    pub mode: String,
    pub path: String,
    pub host: String,
    pub port: u16,
    pub tenant: String,
    pub database: String,
    pub user: String,
    pub password: String,
    pub runtime_log_retention_days: u32,
    pub setup_completed: bool,
}

/// What a [`StorageConfig`] stands for.
#[verifier::ext_equal]
pub struct ConfigModel {
    pub mode: Seq<char>,
    pub path: Seq<char>,
    pub host: Seq<char>,
    pub port: u16,
    pub tenant: Seq<char>,
    pub database: Seq<char>,
    pub user: Seq<char>,
    pub password: Seq<char>,
    pub runtime_log_retention_days: u32,
    pub setup_completed: bool,
}

impl View for StorageConfig {
    type V = ConfigModel;

    open spec fn view(&self) -> ConfigModel {
        ConfigModel {
            mode: self.mode@,
            path: self.path@,
            host: self.host@,
            port: self.port,
            tenant: self.tenant@,
            database: self.database@,
            user: self.user@,
            password: self.password@,
            runtime_log_retention_days: self.runtime_log_retention_days,
            setup_completed: self.setup_completed,
        }
    }
}

impl StorageConfig {
    /// A configuration with the same contents.
    pub fn duplicate(&self) -> (r: StorageConfig)
        ensures
            r@ == self@,
    {
        StorageConfig {
            mode: self.mode.clone(),
            path: self.path.clone(),
            host: self.host.clone(),
            port: self.port,
            tenant: self.tenant.clone(),
            database: self.database.clone(),
            user: self.user.clone(),
            password: self.password.clone(),
            runtime_log_retention_days: self.runtime_log_retention_days,
            setup_completed: self.setup_completed,
        }
    }
}

// ---------------------------------------------------------------------------
// Defaults
// ---------------------------------------------------------------------------

/// The port a database listens on when none is configured.
pub fn default_database_port() -> (port: u16)
    ensures
        port == 2881,
{
    2881
}

pub fn default_storage_database() -> (name: String)
    ensures
        name@ == "agentseek_desktop"@,
{
    "agentseek_desktop".to_owned()
}

pub fn default_storage_user() -> (name: String)
    ensures
        name@ == "root"@,
{
    "root".to_owned()
}

pub fn default_runtime_log_retention_days() -> (days: u32)
    ensures
        days == DEFAULT_RUNTIME_LOG_RETENTION_DAYS,
{
    DEFAULT_RUNTIME_LOG_RETENTION_DAYS
}

pub fn default_log_page_size() -> (size: usize)
    ensures
        size == 500,
{
    500
}

// ---------------------------------------------------------------------------
// Shortening
// ---------------------------------------------------------------------------

/// A text of at most `max` characters, or its beginning with `...` behind it, both together of
/// `max` characters; where there is no room for three dots, as many as there is room for.
pub open spec fn shortened(s: Seq<char>, max: int) -> Seq<char> {
    if s.len() <= max {
        s
    } else if max >= 3 {
        s.take(max - 3) + "..."@
    } else {
        "..."@.take(max)
    }
}

/// A shortened text has at most `max` characters.
pub proof fn law_shortened_texts_fit(s: Seq<char>, max: int)
    requires
        0 <= max,
    ensures
        shortened(s, max).len() <= max,
{
    reveal_strlit("...");
}

/// Cuts a text down to at most `max` characters and marks the cut with `...`, as far as there is
/// room for that.
pub fn truncate_chars(value: &str, max: usize) -> (r: String)
    ensures
        r@ == shortened(value@, max as int),
        r@.len() <= max,
{
    proof {
        reveal_strlit("...");
    }
    if value.unicode_len() <= max {
        value.to_owned()
    } else if max >= 3 {
        concat2(take(value, max - 3), "...")
    } else {
        take("...", max).to_owned()
    }
}

// ---------------------------------------------------------------------------
// Versions
// ---------------------------------------------------------------------------

/// The position of the first digit from `i` on, or the length of the text.
pub open spec fn first_digit_from(s: Seq<char>, i: int) -> int
    decreases s.len() - i,
{
    if i < 0 || i >= s.len() || is_digit(s[i]) {
        i
    } else {
        first_digit_from(s, i + 1)
    }
}

/// The end of the run of digits that starts at `i`.
pub open spec fn digits_end(s: Seq<char>, i: int) -> int
    decreases s.len() - i,
{
    if 0 <= i < s.len() && is_digit(s[i]) {
        digits_end(s, i + 1)
    } else {
        i
    }
}

/// The numbers of the dotted version that starts at `i`: runs of digits, each one character
/// behind the one before it; a run too large for 64 bits is passed over.
pub open spec fn version_from(s: Seq<char>, i: int) -> Seq<u64>
    decreases s.len() + 1 - i,
    via version_from_decreases
{
    if 0 <= i < s.len() && is_digit(s[i]) {
        let end = digits_end(s, i);
        let rest = version_from(s, end + 1);
        match parsed(s.subrange(i, end), u64::MAX as int) {
            Some(n) => seq![n as u64] + rest,
            None => rest,
        }
    } else {
        Seq::empty()
    }
}

#[via_fn]
proof fn version_from_decreases(s: Seq<char>, i: int) {
    if 0 <= i < s.len() {
        lemma_digits_end(s, i);
    }
}

/// A run of digits ends behind its start, within the text, and holds digits only.
pub proof fn lemma_digits_end(s: Seq<char>, i: int)
    requires
        0 <= i <= s.len(),
    ensures
        i <= digits_end(s, i) <= s.len(),
        i < s.len() && is_digit(s[i]) ==> i < digits_end(s, i),
        forall|j: int| i <= j < digits_end(s, i) ==> is_digit(#[trigger] s[j]),
        digits_end(s, i) < s.len() ==> !is_digit(s[digits_end(s, i)]),
    decreases s.len() - i,
{
    if i < s.len() && is_digit(s[i]) {
        lemma_digits_end(s, i + 1);
    }
}

/// The numeric components of a version: what follows the first digit, read as numbers with
/// one character between them.
pub open spec fn version_numbers(s: Seq<char>) -> Seq<u64> {
    version_from(s, first_digit_from(s, 0))
}

/// Extracts the numeric components of a version, so that `v1.2.3` gives 1, 2 and 3.
pub fn numeric_version(value: &str) -> (r: Vec<u64>)
    ensures
        r@ == version_numbers(value@),
{
    let v = chars_of(value);
    let mut i: usize = 0;
    while i < v.len() && !char_is_digit(v[i])
        invariant
            i <= v@.len(),
            first_digit_from(v@, 0) == first_digit_from(v@, i as int),
        decreases v@.len() - i,
    {
        i = i + 1;
    }
    let mut r: Vec<u64> = Vec::new();
    while i < v.len() && char_is_digit(v[i])
        invariant
            i <= v@.len() + 1,
            r@ + version_from(v@, i as int) == version_numbers(v@),
        decreases v@.len() + 1 - i,
    {
        let start: usize = i;
        proof {
            lemma_digits_end(v@, start as int);
        }
        while i < v.len() && char_is_digit(v[i])
            invariant
                start <= i <= v@.len(),
                digits_end(v@, start as int) == digits_end(v@, i as int),
            decreases v@.len() - i,
        {
            i = i + 1;
        }
        let part = value.substring_char(start, i);
        let ghost before = r@;
        let ghost rest = version_from(v@, i + 1);
        match parse_up_to(part, u64::MAX) {
            Some(n) => {
                r.push(n);
                assert(before.push(n) + rest == before + (seq![n] + rest));
            },
            None => {},
        }
        if i == v.len() {
            assert(rest == Seq::<u64>::empty());
            assert(r@ + rest == r@);
            return r;
        }
        i = i + 1;
    }
    assert(r@ + Seq::<u64>::empty() == r@);
    r
}

#[derive(Clone, Debug)]
pub struct DependencyVersion {
    pub minimum: String,
    pub managed: String,
    pub pinned: String,
}

#[derive(Clone, Debug)]
pub struct RuntimeVersions {
    pub uv: DependencyVersion,
    pub node: DependencyVersion,
    pub npm: DependencyVersion,
    pub git: DependencyVersion,
    pub agentseek: DependencyVersion,
    pub nvm: DependencyVersion,
    pub pyseekdb: DependencyVersion,
}

#[derive(Clone, Debug)]
pub struct RuntimeSources {
    pub uv_installer: String,
    pub uv_installer_windows: Option<String>,
    pub nvm_installer_template: String,
    pub node_distribution: String,
    pub agentseek_package_metadata: String,
}

/// The manifest of tools that the desktop needs and where they come from.
#[derive(Clone, Debug)]
pub struct RuntimeRequirements {
    pub schema_version: u32,
    pub versions: RuntimeVersions,
    pub sources: RuntimeSources,
}

pub open spec fn is_version(s: Seq<char>) -> bool {
    version_numbers(s).len() > 0
}

pub open spec fn is_https(s: Seq<char>) -> bool {
    starts(s, "https://"@)
}

/// The versions that the manifest must give, with the names of their fields.
pub open spec fn required_versions(r: RuntimeRequirements) -> Seq<(Seq<char>, Seq<char>)> {
    seq![
        ("versions.uv.minimum"@, r.versions.uv.minimum@),
        ("versions.node.minimum"@, r.versions.node.minimum@),
        ("versions.node.managed"@, r.versions.node.managed@),
        ("versions.npm.minimum"@, r.versions.npm.minimum@),
        ("versions.npm.managed"@, r.versions.npm.managed@),
        ("versions.git.minimum"@, r.versions.git.minimum@),
        ("versions.agentseek.minimum"@, r.versions.agentseek.minimum@),
        ("versions.nvm.managed"@, r.versions.nvm.managed@),
    ]
}

/// The sources that must be HTTPS addresses, with the names of their fields.
pub open spec fn required_sources(r: RuntimeRequirements) -> Seq<(Seq<char>, Seq<char>)> {
    seq![
        ("sources.uvInstaller"@, r.sources.uv_installer@),
        ("sources.nodeDistribution"@, r.sources.node_distribution@),
        ("sources.agentseekPackageMetadata"@, r.sources.agentseek_package_metadata@),
    ]
}

/// The name of the first field from `i` on whose value does not pass.
pub open spec fn first_failing(
    fields: Seq<(Seq<char>, Seq<char>)>,
    passes: spec_fn(Seq<char>) -> bool,
    i: int,
) -> Option<Seq<char>>
    decreases fields.len() - i,
{
    if i < 0 || i >= fields.len() {
        None
    } else if !passes(fields[i].1) {
        Some(fields[i].0)
    } else {
        first_failing(fields, passes, i + 1)
    }
}

/// What is wrong with a manifest, if anything is: the first of the rules that it breaks.
pub open spec fn requirements_fault(r: RuntimeRequirements) -> Option<Seq<char>> {
    let version = first_failing(required_versions(r), |s: Seq<char>| is_version(s), 0);
    let source = first_failing(required_sources(r), |s: Seq<char>| is_https(s), 0);
    if version is Some {
        Some(
            "Runtime requirements manifest field "@ + version->0
                + " is not a valid version number"@,
        )
    } else if r.versions.pyseekdb.pinned@.len() > 0 && !is_version(r.versions.pyseekdb.pinned@) {
        Some(
            "Runtime requirements manifest field versions.pyseekdb.pinned is not a valid version number"@,
        )
    } else if !holds(r.sources.nvm_installer_template@, "{version}"@) {
        Some("Runtime requirements manifest sources.nvmInstallerTemplate must contain {version}"@)
    } else if source is Some {
        Some("Runtime requirements manifest field "@ + source->0 + " must use HTTPS URL"@)
    } else if r.sources.uv_installer_windows is Some && !is_https(
        r.sources.uv_installer_windows->0@,
    ) {
        Some("Runtime requirements manifest field sources.uvInstallerWindows must use HTTPS URL"@)
    } else {
        None
    }
}

fn version_fault(fields: &Vec<(&str, &String)>) -> (r: Option<String>)
    ensures
        opt_view(r) == first_failing(
            fields@.map_values(|f: (&str, &String)| (f.0@, f.1@)),
            |s: Seq<char>| is_version(s),
            0,
        ),
{
    let ghost fs = fields@.map_values(|f: (&str, &String)| (f.0@, f.1@));
    let ghost pass = |s: Seq<char>| is_version(s);
    let mut i: usize = 0;
    while i < fields.len()
        invariant
            i <= fields@.len(),
            first_failing(fs, pass, 0) == first_failing(fs, pass, i as int),
        decreases fields@.len() - i,
    {
        assert(fs[i as int] == (fields@[i as int].0@, fields@[i as int].1@));
        if numeric_version(fields[i].1.as_str()).len() == 0 {
            return Some(fields[i].0.to_owned());
        }
        i = i + 1;
    }
    None
}

fn source_fault(fields: &Vec<(&str, &String)>) -> (r: Option<String>)
    ensures
        opt_view(r) == first_failing(
            fields@.map_values(|f: (&str, &String)| (f.0@, f.1@)),
            |s: Seq<char>| is_https(s),
            0,
        ),
{
    let ghost fs = fields@.map_values(|f: (&str, &String)| (f.0@, f.1@));
    let ghost pass = |s: Seq<char>| is_https(s);
    let mut i: usize = 0;
    while i < fields.len()
        invariant
            i <= fields@.len(),
            first_failing(fs, pass, 0) == first_failing(fs, pass, i as int),
        decreases fields@.len() - i,
    {
        assert(fs[i as int] == (fields@[i as int].0@, fields@[i as int].1@));
        if !starts_with(fields[i].1.as_str(), "https://") {
            return Some(fields[i].0.to_owned());
        }
        i = i + 1;
    }
    None
}

/// Accepts a manifest exactly when it breaks none of the rules, and else names the first
/// rule that it breaks.
pub fn validate_runtime_requirements(requirements: &RuntimeRequirements) -> (r: Result<(), String>)
    ensures
        r is Ok <==> requirements_fault(*requirements) is None,
        r matches Err(message) ==> requirements_fault(*requirements) == Some(message@),
{
    let versions: Vec<(&str, &String)> = vec![
        ("versions.uv.minimum", &requirements.versions.uv.minimum),
        ("versions.node.minimum", &requirements.versions.node.minimum),
        ("versions.node.managed", &requirements.versions.node.managed),
        ("versions.npm.minimum", &requirements.versions.npm.minimum),
        ("versions.npm.managed", &requirements.versions.npm.managed),
        ("versions.git.minimum", &requirements.versions.git.minimum),
        ("versions.agentseek.minimum", &requirements.versions.agentseek.minimum),
        ("versions.nvm.managed", &requirements.versions.nvm.managed),
    ];
    assert(versions@.map_values(|f: (&str, &String)| (f.0@, f.1@)) == required_versions(
        *requirements,
    ));
    if let Some(field) = version_fault(&versions) {
        return Err(
            concat3(
                "Runtime requirements manifest field ",
                field.as_str(),
                " is not a valid version number",
            ),
        );
    }
    if !requirements.versions.pyseekdb.pinned.as_str().is_empty() && numeric_version(
        requirements.versions.pyseekdb.pinned.as_str(),
    ).len() == 0 {
        return Err(
            "Runtime requirements manifest field versions.pyseekdb.pinned is not a valid version number".to_owned(),
        );
    }
    if !contains(requirements.sources.nvm_installer_template.as_str(), "{version}") {
        return Err(
            "Runtime requirements manifest sources.nvmInstallerTemplate must contain {version}".to_owned(),
        );
    }
    let sources: Vec<(&str, &String)> = vec![
        ("sources.uvInstaller", &requirements.sources.uv_installer),
        ("sources.nodeDistribution", &requirements.sources.node_distribution),
        ("sources.agentseekPackageMetadata", &requirements.sources.agentseek_package_metadata),
    ];
    assert(sources@.map_values(|f: (&str, &String)| (f.0@, f.1@)) == required_sources(
        *requirements,
    ));
    if let Some(field) = source_fault(&sources) {
        return Err(
            concat3(
                "Runtime requirements manifest field ",
                field.as_str(),
                " must use HTTPS URL",
            ),
        );
    }
    if let Some(windows) = requirements.sources.uv_installer_windows.as_ref() {
        if !starts_with(windows.as_str(), "https://") {
            return Err(
                "Runtime requirements manifest field sources.uvInstallerWindows must use HTTPS URL".to_owned(),
            );
        }
    }
    Ok(())
}

/// Accepts a manifest of the known version that breaks none of the rules.
pub fn load_runtime_requirements(requirements: RuntimeRequirements) -> (r: Result<
    RuntimeRequirements,
    String,
>)
    ensures
        ({
            let fault = if requirements.schema_version != 1 {
                Some(
                    "Unsupported runtime requirements manifest version: "@ + decimal(
                        requirements.schema_version as nat,
                    ),
                )
            } else {
                requirements_fault(requirements)
            };
            match fault {
                Some(message) => r matches Err(e) && e@ == message,
                None => r == Ok::<RuntimeRequirements, String>(requirements),
            }
        }),
{
    if requirements.schema_version != 1 {
        return Err(
            concat2(
                "Unsupported runtime requirements manifest version: ",
                decimal_of(requirements.schema_version as u64).as_str(),
            ),
        );
    }
    match validate_runtime_requirements(&requirements) {
        Ok(_) => Ok(requirements),
        Err(e) => Err(e),
    }
}

} // verus!
