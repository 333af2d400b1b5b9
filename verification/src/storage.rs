//! Where the desktop keeps its data: settings, what is written of them, and what the storage
//! answers.

use crate::instance::{join_path, joined_path};
use crate::json::{
    get_member, get_text, json_pretty, json_read, member, member_text, read_json, read_view,
    write_json_pretty, Json, JsonModel,
};
use crate::models::{
    default_database_port, default_runtime_log_retention_days, default_storage_database,
    default_storage_user, envs, instances_view, logs_view, AppStore, ConfigModel, EnvModel,
    EnvVariable, InstanceRecord, LogEntry, LogModel, StorageConfig, StoreModel,
    DEFAULT_RUNTIME_LOG_RETENTION_DAYS,
};
use crate::text::{
    ascending, concat2, concat5, concat6, copy_opt, decimal, decimal_of, ends, ends_with, opt_view,
    same, sort_texts, starts, starts_with, texts, trim, trimmed,
};
use vstd::prelude::*;
use vstd::string::*;

verus! {

// ---------------------------------------------------------------------------
// Settings
// ---------------------------------------------------------------------------

/// The settings of a fresh installation: a database of its own, embedded; SQLite on Windows.
pub open spec fn default_config(windows: bool) -> ConfigModel {
    ConfigModel {
        mode: if windows {
            "sqlite_embedded"@
        } else {
            "seekdb_embedded"@
        },
        path: Seq::empty(),
        host: Seq::empty(),
        port: 2881,
        tenant: Seq::empty(),
        database: "agentseek_desktop"@,
        user: "root"@,
        password: Seq::empty(),
        runtime_log_retention_days: DEFAULT_RUNTIME_LOG_RETENTION_DAYS,
        setup_completed: false,
    }
}

pub fn default_storage_config(windows: bool) -> (r: StorageConfig)
    ensures
        r@ == default_config(windows),
{
    StorageConfig {
        mode: if windows {
            "sqlite_embedded".to_owned()
        } else {
            "seekdb_embedded".to_owned()
        },
        path: String::new(),
        host: String::new(),
        port: default_database_port(),
        tenant: String::new(),
        database: default_storage_database(),
        user: default_storage_user(),
        password: String::new(),
        runtime_log_retention_days: default_runtime_log_retention_days(),
        setup_completed: false,
    }
}

/// Whether the data is kept on this machine by the desktop itself.
pub open spec fn is_embedded(mode: Seq<char>) -> bool {
    mode == "sqlite_embedded"@ || mode == "seekdb_embedded"@
}

/// Whether the data is kept by a server.
pub open spec fn is_server(mode: Seq<char>) -> bool {
    mode == "seekdb_server"@ || mode == "oceanbase_server"@
}

fn mode_is_embedded(mode: &str) -> (r: bool)
    ensures
        r == is_embedded(mode@),
{
    same(mode, "sqlite_embedded") || same(mode, "seekdb_embedded")
}

pub fn mode_is_server(mode: &str) -> (r: bool)
    ensures
        r == is_server(mode@),
{
    same(mode, "seekdb_server") || same(mode, "oceanbase_server")
}

/// Settings with the name of the database settled: that of an embedded one is fixed, and a
/// blank one is replaced.
pub open spec fn with_database(config: ConfigModel) -> ConfigModel {
    if is_embedded(config.mode) || trimmed(config.database).len() == 0 {
        ConfigModel { database: "agentseek_desktop"@, ..config }
    } else {
        config
    }
}

pub fn normalize_storage_database(config: &mut StorageConfig)
    ensures
        final(config)@ == with_database(old(config)@),
{
    if mode_is_embedded(config.mode.as_str()) || trim(config.database.as_str()).is_empty() {
        config.database = default_storage_database();
    }
}

/// The directory of the SQLite database: the configured one, or that of the desktop's data.
pub open spec fn sqlite_directory(data_dir: Seq<char>, config: ConfigModel) -> Seq<char> {
    if trimmed(config.path).len() == 0 {
        data_dir
    } else {
        trimmed(config.path)
    }
}

pub fn sqlite_storage_directory(data_dir: &str, config: &StorageConfig) -> (r: String)
    ensures
        r@ == sqlite_directory(data_dir@, config@),
{
    let path = trim(config.path.as_str());
    if path.is_empty() {
        data_dir.to_owned()
    } else {
        path.to_owned()
    }
}

/// The file of the SQLite database.
pub fn sqlite_database_path(data_dir: &str, config: &StorageConfig, windows: bool) -> (r: String)
    ensures
        r@ == joined_path(
            windows,
            sqlite_directory(data_dir@, config@),
            "agentseek-desktop.sqlite3"@,
        ),
{
    let directory = sqlite_storage_directory(data_dir, config);
    join_path(windows, directory.as_str(), "agentseek-desktop.sqlite3")
}

/// Settings as they are written to disk: without the password.
pub fn persisted_config(config: &StorageConfig) -> (r: StorageConfig)
    ensures
        r@ == (ConfigModel { password: Seq::empty(), ..config@ }),
{
    let mut r = config.duplicate();
    r.password = String::new();
    r
}

/// What is found on disk about the places where data may be.
#[derive(Clone, Copy, Debug, PartialEq, Eq, Structural)]
pub struct PathFacts {
    /// The settings name the default directory of the embedded database.
    pub at_seekdb_dir: bool,
    /// The default directory of the embedded database holds a SQLite file.
    pub sqlite_in_seekdb_dir: bool,
    /// The settings name the directory that earlier versions used.
    pub at_legacy_dir: bool,
    /// The directory that earlier versions used exists.
    pub legacy_dir_exists: bool,
}

/// Settings with the place of the data settled: a missing one, or one that an earlier version
/// set by mistake, is replaced by the default of the mode.
pub open spec fn with_path(
    config: ConfigModel,
    data_dir: Seq<char>,
    facts: PathFacts,
    windows: bool,
) -> ConfigModel {
    if config.mode == "sqlite_embedded"@ {
        if config.path.len() == 0 || (facts.at_seekdb_dir && !facts.sqlite_in_seekdb_dir) {
            ConfigModel { path: data_dir, ..config }
        } else {
            config
        }
    } else if config.path.len() == 0 || (facts.at_legacy_dir && !facts.legacy_dir_exists) {
        ConfigModel { path: joined_path(windows, data_dir, "seekdb"@), ..config }
    } else {
        config
    }
}

pub fn settle_storage_path(
    config: &mut StorageConfig,
    data_dir: &str,
    facts: PathFacts,
    windows: bool,
)
    ensures
        final(config)@ == with_path(old(config)@, data_dir@, facts, windows),
{
    if same(config.mode.as_str(), "sqlite_embedded") {
        if config.path.as_str().is_empty() || (facts.at_seekdb_dir && !facts.sqlite_in_seekdb_dir) {
            config.path = data_dir.to_owned();
        }
    } else if config.path.as_str().is_empty() || (facts.at_legacy_dir && !facts.legacy_dir_exists) {
        config.path = join_path(windows, data_dir, "seekdb");
    }
}

/// What became of the file of settings.
pub enum ConfigFile {
    /// There is none.
    Missing,
    /// It cannot be read; says why.
    Unreadable(String),
    /// It does not hold settings; says why.
    Malformed(String),
    Read(StorageConfig),
}

/// The settings of a file; those of a fresh installation where it gives none.
pub open spec fn config_of_file(file: ConfigFile, windows: bool) -> ConfigModel {
    match file {
        ConfigFile::Read(config) => config@,
        _ => default_config(windows),
    }
}

/// What is told of a file of settings, if anything is wrong with it.
pub open spec fn config_file_fault(file: ConfigFile) -> Option<Seq<char>> {
    match file {
        ConfigFile::Unreadable(error) => Some(
            "Failed to read storage config file, entered read-only protection mode: "@ + error@,
        ),
        ConfigFile::Malformed(error) => Some(
            "Storage config file format error, entered read-only protection mode: "@ + error@,
        ),
        _ => None,
    }
}

/// Settles the settings that a file gave, and tells what is wrong with it, if anything is.
pub fn load_storage_config(file: ConfigFile, windows: bool, data_dir: &str, facts: PathFacts) -> (r:
    (StorageConfig, Option<String>))
    ensures
        r.0@ == with_path(with_database(config_of_file(file, windows)), data_dir@, facts, windows),
        opt_view(r.1) == config_file_fault(file),
{
    let fault = match &file {
        ConfigFile::Unreadable(error) => Some(
            concat2(
                "Failed to read storage config file, entered read-only protection mode: ",
                error.as_str(),
            ),
        ),
        ConfigFile::Malformed(error) => Some(
            concat2(
                "Storage config file format error, entered read-only protection mode: ",
                error.as_str(),
            ),
        ),
        _ => None,
    };
    let mut config = match file {
        ConfigFile::Read(config) => config,
        _ => default_storage_config(windows),
    };
    normalize_storage_database(&mut config);
    settle_storage_path(&mut config, data_dir, facts, windows);
    (config, fault)
}

/// Settings and the stored password, one taken from the other: that of the settings counts
/// where they have one, and then has to be stored.
pub fn reconcile_password(config: &mut StorageConfig, stored: String) -> (store: Option<String>)
    ensures
        final(config)@ == (if old(config)@.password.len() == 0 {
            ConfigModel { password: stored@, ..old(config)@ }
        } else {
            old(config)@
        }),
        opt_view(store) == (if old(config)@.password.len() == 0 {
            None
        } else {
            Some(old(config)@.password)
        }),
{
    if config.password.as_str().is_empty() {
        config.password = stored;
        None
    } else {
        Some(config.password.clone())
    }
}

/// What an answer to the question of where data is to be kept is wrong about, if anything.
pub open spec fn mode_fault(mode: Seq<char>, windows: bool) -> Option<Seq<char>> {
    if !is_embedded(mode) && !is_server(mode) {
        Some("Unsupported desktop storage type"@)
    } else if windows && mode == "seekdb_embedded"@ {
        Some("Embedded SeekDB is not supported on Windows. Use SQLite or a remote server."@)
    } else {
        None
    }
}

/// The settings that the user asked for, completed: the password is kept where host and user
/// stay, an impossible retention and a blank directory are replaced by defaults.
pub open spec fn completed_config(
    asked: ConfigModel,
    current: ConfigModel,
    data_dir: Seq<char>,
    windows: bool,
) -> ConfigModel {
    let known = if asked.password.len() == 0 && current.mode == asked.mode && current.host
        == asked.host && current.user == asked.user {
        ConfigModel { password: current.password, ..asked }
    } else {
        asked
    };
    let named = with_database(ConfigModel { setup_completed: true, ..known });
    let timed = if 1 <= named.runtime_log_retention_days <= 3650 {
        named
    } else {
        ConfigModel { runtime_log_retention_days: DEFAULT_RUNTIME_LOG_RETENTION_DAYS, ..named }
    };
    if is_embedded(timed.mode) && trimmed(timed.path).len() == 0 {
        ConfigModel {
            path: if timed.mode == "sqlite_embedded"@ {
                data_dir
            } else {
                joined_path(windows, data_dir, "seekdb"@)
            },
            ..timed
        }
    } else {
        timed
    }
}

/// Completes the settings that the user asked for, or refuses the kind of storage.
pub fn configure_storage(
    asked: StorageConfig,
    current: &StorageConfig,
    windows: bool,
    data_dir: &str,
) -> (r: Result<StorageConfig, String>)
    ensures
        r is Ok <==> mode_fault(asked@.mode, windows) is None,
        r matches Ok(config) ==> config@ == completed_config(asked@, current@, data_dir@, windows),
        r matches Err(message) ==> mode_fault(asked@.mode, windows) == Some(message@),
{
    let mut config = asked;
    if config.password.as_str().is_empty() && same(current.mode.as_str(), config.mode.as_str())
        && same(current.host.as_str(), config.host.as_str()) && same(
        current.user.as_str(),
        config.user.as_str(),
    ) {
        config.password = current.password.clone();
    }
    if !mode_is_embedded(config.mode.as_str()) && !mode_is_server(config.mode.as_str()) {
        return Err("Unsupported desktop storage type".to_owned());
    }
    if windows && same(config.mode.as_str(), "seekdb_embedded") {
        return Err(
            "Embedded SeekDB is not supported on Windows. Use SQLite or a remote server.".to_owned(),
        );
    }
    config.setup_completed = true;
    normalize_storage_database(&mut config);
    if config.runtime_log_retention_days < 1 || config.runtime_log_retention_days > 3650 {
        config.runtime_log_retention_days = default_runtime_log_retention_days();
    }
    if mode_is_embedded(config.mode.as_str()) && trim(config.path.as_str()).is_empty() {
        config.path =
        if same(config.mode.as_str(), "sqlite_embedded") {
            data_dir.to_owned()
        } else {
            join_path(windows, data_dir, "seekdb")
        };
    }
    Ok(config)
}

/// What is wrong with the place that completed settings name, if anything is.
pub open spec fn place_fault(config: ConfigModel, path_is_absolute: bool) -> Option<Seq<char>> {
    if is_embedded(config.mode) && !path_is_absolute {
        Some("Embedded storage data directory must use an absolute path"@)
    } else if is_server(config.mode) && trimmed(config.host).len() == 0 {
        Some("Server mode requires a host address"@)
    } else {
        None
    }
}

/// Accepts an absolute directory for embedded storage and a host for a server.
pub fn check_storage_place(config: &StorageConfig, path_is_absolute: bool) -> (r: Result<(), String>)
    ensures
        r is Ok <==> place_fault(config@, path_is_absolute) is None,
        r matches Err(message) ==> place_fault(config@, path_is_absolute) == Some(message@),
{
    if mode_is_embedded(config.mode.as_str()) && !path_is_absolute {
        return Err("Embedded storage data directory must use an absolute path".to_owned());
    }
    if mode_is_server(config.mode.as_str()) && trim(config.host.as_str()).is_empty() {
        return Err("Server mode requires a host address".to_owned());
    }
    Ok(())
}

/// Whether settings name the place where the data is already.
pub open spec fn is_same_target(
    effective_mode: Seq<char>,
    current: ConfigModel,
    config: ConfigModel,
) -> bool {
    effective_mode == config.mode && (if config.mode == "sqlite_embedded"@ {
        current.path == config.path
    } else if config.mode == "seekdb_embedded"@ {
        current.path == config.path && current.database == config.database
    } else {
        current.host == config.host && current.port == config.port && current.tenant
            == config.tenant && current.database == config.database && current.user == config.user
    })
}

pub fn same_storage_target(
    effective_mode: &str,
    current: &StorageConfig,
    config: &StorageConfig,
) -> (r: bool)
    ensures
        r == is_same_target(effective_mode@, current@, config@),
{
    same(effective_mode, config.mode.as_str()) && if same(
        config.mode.as_str(),
        "sqlite_embedded",
    ) {
        same(current.path.as_str(), config.path.as_str())
    } else if same(config.mode.as_str(), "seekdb_embedded") {
        same(current.path.as_str(), config.path.as_str()) && same(
            current.database.as_str(),
            config.database.as_str(),
        )
    } else {
        same(current.host.as_str(), config.host.as_str()) && current.port == config.port && same(
            current.tenant.as_str(),
            config.tenant.as_str(),
        ) && same(current.database.as_str(), config.database.as_str()) && same(
            current.user.as_str(),
            config.user.as_str(),
        )
    }
}

/// The name of an embedded database does not depend on what is asked for, and completed
/// settings always say that the choice was made.
pub proof fn law_completed_settings(
    asked: ConfigModel,
    current: ConfigModel,
    data_dir: Seq<char>,
    windows: bool,
)
    ensures
        completed_config(asked, current, data_dir, windows).setup_completed,
        1 <= completed_config(asked, current, data_dir, windows).runtime_log_retention_days <= 3650,
        completed_config(asked, current, data_dir, windows).mode == asked.mode,
        is_embedded(asked.mode) ==> completed_config(asked, current, data_dir, windows).database
            == "agentseek_desktop"@,
{
}

// ---------------------------------------------------------------------------
// Backups
// ---------------------------------------------------------------------------

/// Entries without their values.
pub open spec fn without_values(env: Seq<EnvModel>) -> Seq<EnvModel> {
    env.map_values(|e: EnvModel| EnvModel { value: Seq::empty(), modified: false, ..e })
}

/// The data of the desktop as it may be written to a backup: the vault without its values.
pub fn sanitized_store(data: &AppStore) -> (r: AppStore)
    ensures
        r@ == (StoreModel { vault: without_values(data@.vault), ..data@ }),
{
    let mut instances: Vec<InstanceRecord> = Vec::new();
    let mut i: usize = 0;
    while i < data.instances.len()
        invariant
            i <= data.instances@.len(),
            instances@.len() == i,
            forall|j: int| 0 <= j < i ==> (#[trigger] instances@[j])@ == data.instances@[j]@,
        decreases data.instances@.len() - i,
    {
        instances.push(data.instances[i].duplicate());
        i = i + 1;
    }
    let mut vault: Vec<EnvVariable> = Vec::new();
    let mut k: usize = 0;
    while k < data.vault.len()
        invariant
            k <= data.vault@.len(),
            vault@.len() == k,
            forall|j: int|
                0 <= j < k ==> (#[trigger] vault@[j])@ == without_values(envs(data.vault@))[j],
        decreases data.vault@.len() - k,
    {
        let mut e = data.vault[k].duplicate();
        e.value = String::new();
        e.modified = false;
        vault.push(e);
        k = k + 1;
    }
    let mut logs: Vec<LogEntry> = Vec::new();
    let mut m: usize = 0;
    while m < data.logs.len()
        invariant
            m <= data.logs@.len(),
            logs@.len() == m,
            forall|j: int| 0 <= j < m ==> (#[trigger] logs@[j])@ == data.logs@[j]@,
        decreases data.logs@.len() - m,
    {
        logs.push(data.logs[m].duplicate());
        m = m + 1;
    }
    assert(instances_view(instances@) == instances_view(data.instances@));
    assert(envs(vault@) == without_values(envs(data.vault@)));
    assert(logs_view(logs@) == logs_view(data.logs@));
    AppStore { instances, vault, logs }
}

/// Whether a file is a backup by its name.
pub open spec fn is_backup(name: Seq<char>) -> bool {
    starts(name, "before-switch-"@) && ends(name, ".json"@)
}

/// The names from `i` on that are those of backups.
pub open spec fn backups_from(names: Seq<Seq<char>>, i: int) -> Seq<Seq<char>>
    decreases names.len() - i,
{
    if i < 0 || i >= names.len() {
        Seq::empty()
    } else if is_backup(names[i]) {
        seq![names[i]] + backups_from(names, i + 1)
    } else {
        backups_from(names, i + 1)
    }
}

/// The backups to remove: all but the last five by name.
pub open spec fn stale_of(names: Seq<Seq<char>>) -> Seq<Seq<char>> {
    let sorted = ascending(backups_from(names, 0));
    sorted.take(if sorted.len() > 5 {
        sorted.len() - 5
    } else {
        0
    })
}

/// Picks the backups to remove from the files of their directory.
pub fn stale_backups(names: &Vec<String>) -> (r: Vec<String>)
    ensures
        texts(r@) == stale_of(texts(names@)),
{
    let ghost ns = texts(names@);
    let mut found: Vec<String> = Vec::new();
    let mut i: usize = 0;
    while i < names.len()
        invariant
            i <= names@.len(),
            ns == texts(names@),
            texts(found@) + backups_from(ns, i as int) == backups_from(ns, 0),
        decreases names@.len() - i,
    {
        assert(ns[i as int] == names@[i as int]@);
        if starts_with(names[i].as_str(), "before-switch-") && ends_with(
            names[i].as_str(),
            ".json",
        ) {
            let ghost before = texts(found@);
            let ghost rest = backups_from(ns, i + 1);
            let copy = names[i].clone();
            let ghost model = copy@;
            found.push(copy);
            assert(texts(found@) == before.push(model));
            assert(before.push(model) + rest == before + (seq![model] + rest));
        }
        i = i + 1;
    }
    assert(texts(found@) + Seq::<Seq<char>>::empty() == texts(found@));
    let sorted = sort_texts(&found);
    let ghost ss = texts(sorted@);
    assert(ss == ascending(backups_from(ns, 0)));
    let count: usize = sorted.len().saturating_sub(5);
    let mut r: Vec<String> = Vec::new();
    let mut k: usize = 0;
    while k < count
        invariant
            k <= count,
            count <= sorted@.len(),
            ss == texts(sorted@),
            texts(r@) == ss.take(k as int),
        decreases count - k,
    {
        let ghost before = texts(r@);
        let copy = sorted[k].clone();
        let ghost model = copy@;
        assert(model == ss[k as int]);
        r.push(copy);
        assert(texts(r@) == before.push(model));
        k = k + 1;
    }
    r
}

// ---------------------------------------------------------------------------
// Answers of the storage process
// ---------------------------------------------------------------------------

/// What every request is answered while there is no storage.
pub fn storage_not_initialized() -> (r: String)
    ensures
        r@ == "Desktop storage has not been initialized"@,
{
    "Desktop storage has not been initialized".to_owned()
}

/// Whether an answer says that a request succeeded.
pub open spec fn is_granted(reply: JsonModel) -> bool {
    member(reply, "ok"@) == Some(JsonModel::Bool(true))
}

/// What an answer says is wrong, or another text where it does not say.
pub open spec fn reply_error(reply: JsonModel, otherwise: Seq<char>) -> Seq<char> {
    match member_text(reply, "error"@) {
        Some(e) => e,
        None => otherwise,
    }
}

/// Accepts an answer that says that the request succeeded, and else gives its error.
pub fn check_storage_reply(reply: Json, otherwise: &str) -> (r: Result<Json, String>)
    ensures
        r is Ok <==> is_granted(reply@),
        r matches Ok(accepted) ==> accepted@ == reply@,
        r matches Err(message) ==> message@ == reply_error(reply@, otherwise@),
{
    let granted: bool = match get_member(&reply, "ok") {
        Some(Json::Bool(b)) => *b,
        _ => false,
    };
    assert(granted == is_granted(reply@)) by {
        match member(reply@, "ok"@) {
            Some(JsonModel::Bool(b)) => {},
            _ => {},
        }
    }
    if granted {
        return Ok(reply);
    }
    match get_text(&reply, "error") {
        Some(e) => Err(e.to_owned()),
        None => Err(otherwise.to_owned()),
    }
}

/// Reads a line of the storage process as an answer.
pub fn read_storage_reply(line: &str) -> (r: Result<Json, String>)
    ensures
        read_view(r) == (if trimmed(line@).len() == 0 {
            Err("SeekDB storage runtime exited unexpectedly"@)
        } else {
            match json_read(line@) {
                Ok(reply) => Ok(reply),
                Err(e) => Err("SeekDB response format error: "@ + e),
            }
        }),
{
    if trim(line).is_empty() {
        return Err("SeekDB storage runtime exited unexpectedly".to_owned());
    }
    match read_json(line) {
        Ok(reply) => Ok(reply),
        Err(e) => Err(concat2("SeekDB response format error: ", e.as_str())),
    }
}

/// What an answer that has to hold something gives, or the error where it does not.
pub open spec fn or_otherwise<T>(found: Option<T>, otherwise: Seq<char>) -> Result<T, Seq<char>> {
    match found {
        Some(t) => Ok(t),
        None => Err(otherwise),
    }
}

/// The whole number of a member of an answer.
pub open spec fn member_number(reply: JsonModel, field: Seq<char>) -> Option<u64> {
    match member(reply, field) {
        Some(JsonModel::Natural(n)) => Some(n),
        _ => None,
    }
}

/// The flag of a member of an answer.
pub open spec fn member_flag(reply: JsonModel, field: Seq<char>) -> Option<bool> {
    match member(reply, field) {
        Some(JsonModel::Bool(b)) => Some(b),
        _ => None,
    }
}

/// The JSON notation of a member of an answer.
pub open spec fn member_notation(reply: JsonModel, field: Seq<char>) -> Option<Seq<char>> {
    match member(reply, field) {
        Some(value) => Some(json_pretty(value)),
        None => None,
    }
}

/// Reads a whole number from an answer, or gives the error where there is none of 64 bits.
pub fn reply_number(reply: &Json, field: &str, otherwise: &str) -> (r: Result<u64, String>)
    ensures
        (match r {
            Ok(n) => Ok(n),
            Err(e) => Err(e@),
        }) == or_otherwise(member_number(reply@, field@), otherwise@),
{
    match get_member(reply, field) {
        Some(Json::Natural(n)) => Ok(*n),
        _ => Err(otherwise.to_owned()),
    }
}

/// Reads a flag from an answer, or gives the error where there is none.
pub fn reply_flag(reply: &Json, field: &str, otherwise: &str) -> (r: Result<bool, String>)
    ensures
        (match r {
            Ok(b) => Ok(b),
            Err(e) => Err(e@),
        }) == or_otherwise(member_flag(reply@, field@), otherwise@),
{
    match get_member(reply, field) {
        Some(Json::Bool(b)) => Ok(*b),
        _ => Err(otherwise.to_owned()),
    }
}

/// Reads a text from an answer, where there is one.
pub fn reply_text(reply: &Json, field: &str) -> (r: Option<String>)
    ensures
        opt_view(r) == member_text(reply@, field@),
{
    match get_text(reply, field) {
        Some(t) => Some(t.to_owned()),
        None => None,
    }
}

/// Takes a document out of an answer, in its JSON notation, or gives the error where there is
/// none.
pub fn reply_document(reply: &Json, field: &str, otherwise: &str) -> (r: Result<String, String>)
    ensures
        (match r {
            Ok(t) => Ok(t@),
            Err(e) => Err(e@),
        }) == or_otherwise(member_notation(reply@, field@), otherwise@),
{
    match get_member(reply, field) {
        Some(value) => Ok(write_json_pretty(value)),
        None => Err(otherwise.to_owned()),
    }
}

// ---------------------------------------------------------------------------
// Pages of logs
// ---------------------------------------------------------------------------

/// How many entries a page may have: at least one and at most a thousand.
pub fn page_limit(asked: usize) -> (r: usize)
    ensures
        r == (if asked < 1 {
            1
        } else if asked > 1000 {
            1000
        } else {
            asked as int
        }),
{
    if asked < 1 {
        1
    } else if asked > 1000 {
        1000
    } else {
        asked
    }
}

/// A page of logs, whether there are more behind it, and how many instances logged.
#[derive(Clone, Debug)]
pub struct LogPage {
    pub entries: Vec<LogEntry>,
    pub has_more: bool,
    pub group_count: usize,
}

/// Makes a page out of the entries found, of which one more than the limit may have been asked
/// for.
pub fn page_of_logs(found: Vec<LogEntry>, limit: usize, group_count: usize) -> (r: LogPage)
    ensures
        r.has_more == (found@.len() > limit),
        logs_view(r.entries@) == logs_view(found@).take(if found@.len() > limit {
            limit as int
        } else {
            found@.len() as int
        }),
        r.group_count == group_count,
{
    let ghost all = logs_view(found@);
    let has_more: bool = found.len() > limit;
    let mut entries = found;
    if has_more {
        entries.truncate(limit);
    }
    assert(logs_view(entries@) == all.take(if all.len() > limit {
        limit as int
    } else {
        all.len() as int
    }));
    LogPage { entries, has_more, group_count }
}

/// The smallest sequence number among entries, if there are any.
pub open spec fn least_sequence(logs: Seq<LogModel>) -> Option<u64>
    decreases logs.len(),
{
    if logs.len() == 0 {
        None
    } else {
        match least_sequence(logs.drop_last()) {
            Some(n) => if n <= logs.last().sequence {
                Some(n)
            } else {
                Some(logs.last().sequence)
            },
            None => Some(logs.last().sequence),
        }
    }
}

/// Where the next page of older entries starts.
pub fn next_page_before(entries: &Vec<LogEntry>) -> (r: Option<u64>)
    ensures
        r == least_sequence(logs_view(entries@)),
{
    let ghost ls = logs_view(entries@);
    let mut least: Option<u64> = None;
    let mut i: usize = 0;
    while i < entries.len()
        invariant
            i <= entries@.len(),
            ls == logs_view(entries@),
            least == least_sequence(ls.take(i as int)),
        decreases entries@.len() - i,
    {
        assert(ls.take(i + 1).drop_last() == ls.take(i as int));
        assert(ls.take(i + 1).last() == entries@[i as int]@);
        least =
        match least {
            Some(n) => if n <= entries[i].sequence {
                Some(n)
            } else {
                Some(entries[i].sequence)
            },
            None => Some(entries[i].sequence),
        };
        i = i + 1;
    }
    assert(ls.take(ls.len() as int) == ls);
    least
}

/// The page before the smallest sequence number of another holds none of its entries.
pub proof fn law_pages_do_not_overlap(logs: Seq<LogModel>, k: int)
    requires
        0 <= k < logs.len(),
    ensures
        least_sequence(logs) matches Some(n) && n <= logs[k].sequence,
    decreases logs.len(),
{
    if k < logs.len() - 1 {
        law_pages_do_not_overlap(logs.drop_last(), k);
    }
}

/// Where the highest number comes first and none occurs twice, the entries below the lowest
/// number of a page are those behind it: pages read one after the other leave none out and
/// bring none twice.
pub proof fn law_pages_cover_the_log(logs: Seq<LogModel>, n: int, k: int)
    requires
        0 < n <= logs.len(),
        0 <= k < logs.len(),
        forall|i: int, j: int|
            0 <= i < j < logs.len() ==> (#[trigger] logs[i]).sequence > (
            #[trigger] logs[j]).sequence,
    ensures
        least_sequence(logs.take(n)) == Some(logs[n - 1].sequence),
        logs[k].sequence < logs[n - 1].sequence <==> n <= k,
    decreases n,
{
    assert(logs.take(n).drop_last() == logs.take(n - 1));
    if n > 1 {
        law_pages_cover_the_log(logs, n - 1, k);
        assert(logs[n - 2].sequence > logs[n - 1].sequence);
    }
}

// ---------------------------------------------------------------------------
// Checking what was written
// ---------------------------------------------------------------------------

/// How many instances, entries of the vault and entries of the log a storage holds.
#[derive(Clone, Copy, Debug, PartialEq, Eq, Structural)]
pub struct SnapshotCounts {
    pub instances: usize,
    pub vault: usize,
    pub logs: usize,
}

/// What differs between what was written and what is read back, by numbers, if anything.
pub open spec fn counts_fault(expected: SnapshotCounts, actual: SnapshotCounts) -> Option<Seq<char>> {
    if expected == actual {
        None
    } else {
        Some(
            ("Instances "@ + decimal(expected.instances as nat) + " -> "@ + decimal(
                actual.instances as nat,
            ) + ", Vault "@ + decimal(expected.vault as nat)) + (" -> "@ + decimal(
                actual.vault as nat,
            ) + ", Logs "@ + decimal(expected.logs as nat) + " -> "@ + decimal(
                actual.logs as nat,
            )),
        )
    }
}

pub fn snapshot_mismatch(expected: SnapshotCounts, actual: SnapshotCounts) -> (r: Option<String>)
    ensures
        opt_view(r) == counts_fault(expected, actual),
{
    if expected.instances == actual.instances && expected.vault == actual.vault && expected.logs
        == actual.logs {
        return None;
    }
    let head = concat6(
        "Instances ",
        decimal_of(expected.instances as u64).as_str(),
        " -> ",
        decimal_of(actual.instances as u64).as_str(),
        ", Vault ",
        decimal_of(expected.vault as u64).as_str(),
    );
    let tail = concat6(
        " -> ",
        decimal_of(actual.vault as u64).as_str(),
        ", Logs ",
        decimal_of(expected.logs as u64).as_str(),
        " -> ",
        decimal_of(actual.logs as u64).as_str(),
    );
    Some(concat2(head.as_str(), tail.as_str()))
}

/// How often what was written is read back at most.
pub const SNAPSHOT_ATTEMPTS: u32 = 5;

/// How long to wait after a failed attempt, in milliseconds, if another follows: a quarter of a
/// second, doubled each time.
pub open spec fn retry_delay(attempt: int) -> Option<u64> {
    if attempt >= SNAPSHOT_ATTEMPTS {
        None
    } else if attempt <= 1 {
        Some(250)
    } else if attempt == 2 {
        Some(500)
    } else if attempt == 3 {
        Some(1000)
    } else {
        Some(2000)
    }
}

pub fn snapshot_retry_delay(attempt: u32) -> (r: Option<u64>)
    requires
        1 <= attempt,
    ensures
        r == retry_delay(attempt as int),
{
    if attempt >= SNAPSHOT_ATTEMPTS {
        return None;
    }
    let mut delay: u64 = 250;
    if attempt >= 2 {
        delay = delay * 2;
    }
    if attempt >= 3 {
        delay = delay * 2;
    }
    if attempt >= 4 {
        delay = delay * 2;
    }
    Some(delay)
}

/// What follows from reading back what was written.
#[derive(Clone, Debug)]
pub enum SnapshotStep {
    /// All of it is there.
    Complete,
    /// It is read again after so many milliseconds.
    Retry(u64),
    /// It is given up; says why.
    Failed(String),
}

/// What is wrong with what is read back, if anything is.
pub open spec fn snapshot_fault(
    expected: SnapshotCounts,
    seen: Result<SnapshotCounts, String>,
) -> Option<Seq<char>> {
    match seen {
        Ok(actual) => counts_fault(expected, actual),
        Err(error) => Some(error@),
    }
}

/// Judges what is read back in one attempt: a storage may show what was written to it only
/// after a while.
pub fn verify_storage_snapshot(
    attempt: u32,
    expected: SnapshotCounts,
    seen: Result<SnapshotCounts, String>,
) -> (r: SnapshotStep)
    requires
        1 <= attempt,
    ensures
        r is Complete <==> seen == Ok::<SnapshotCounts, String>(expected),
        r is Retry <==> seen != Ok::<SnapshotCounts, String>(expected) && attempt
            < SNAPSHOT_ATTEMPTS,
        r matches SnapshotStep::Retry(delay) ==> retry_delay(attempt as int) == Some(delay),
        r matches SnapshotStep::Failed(message) ==> snapshot_fault(expected, seen) is Some
            && message@ == "Target storage validation failed: "@ + snapshot_fault(expected, seen)->0,
{
    let fault = match seen {
        Ok(actual) => snapshot_mismatch(expected, actual),
        Err(error) => Some(error),
    };
    match fault {
        None => SnapshotStep::Complete,
        Some(error) => match snapshot_retry_delay(attempt) {
            Some(delay) => SnapshotStep::Retry(delay),
            None => SnapshotStep::Failed(
                concat2("Target storage validation failed: ", error.as_str()),
            ),
        },
    }
}

/// The data that was read, unless the storage holds none at all.
pub fn stored_data(instances: Vec<InstanceRecord>, vault: Vec<EnvVariable>, log_count: usize) -> (r:
    Option<AppStore>)
    ensures
        r is None <==> instances@.len() == 0 && vault@.len() == 0 && log_count == 0,
        r matches Some(data) ==> data@ == (StoreModel {
            instances: instances_view(instances@),
            vault: envs(vault@),
            logs: Seq::empty(),
        }),
{
    if instances.len() == 0 && vault.len() == 0 && log_count == 0 {
        return None;
    }
    let logs: Vec<LogEntry> = Vec::new();
    assert(logs_view(logs@) == Seq::<LogModel>::empty());
    Some(AppStore { instances, vault, logs })
}

// ---------------------------------------------------------------------------
// The runtime of the embedded database
// ---------------------------------------------------------------------------

/// The parts of the runtime, in the order in which they are installed.
#[derive(Clone, Copy, Debug, PartialEq, Eq, Structural)]
pub enum RuntimePart {
    /// A Python environment of its own.
    Environment,
    /// The package in it.
    Package,
}

/// A command that installs a part of the runtime, and what is told while it runs.
#[derive(Clone, Debug)]
pub struct RuntimeCommand {
    pub program: String,
    pub arguments: Vec<String>,
    pub action: String,
}

/// The directory of the Python environment.
pub open spec fn seekdb_runtime(data_dir: Seq<char>, windows: bool) -> Seq<char> {
    joined_path(windows, data_dir, "runtime/seekdb-python"@)
}

/// The interpreter of the Python environment.
pub open spec fn seekdb_python(data_dir: Seq<char>, windows: bool) -> Seq<char> {
    joined_path(
        windows,
        seekdb_runtime(data_dir, windows),
        if windows {
            "Scripts/python.exe"@
        } else {
            "bin/python"@
        },
    )
}

/// Where a part of the runtime is found once it is installed.
pub fn seekdb_runtime_file(part: RuntimePart, data_dir: &str, windows: bool) -> (r: String)
    ensures
        r@ == (match part {
            RuntimePart::Environment => seekdb_python(data_dir@, windows),
            RuntimePart::Package => joined_path(
                windows,
                seekdb_runtime(data_dir@, windows),
                ".pyseekdb-installed"@,
            ),
        }),
{
    let runtime = join_path(windows, data_dir, "runtime/seekdb-python");
    match part {
        RuntimePart::Environment => if windows {
            join_path(windows, runtime.as_str(), "Scripts/python.exe")
        } else {
            join_path(windows, runtime.as_str(), "bin/python")
        },
        RuntimePart::Package => join_path(windows, runtime.as_str(), ".pyseekdb-installed"),
    }
}

/// The package as it is installed: with the version that the requirements pin, if they do.
pub open spec fn seekdb_package(pinned: Seq<char>) -> Seq<char> {
    if trimmed(pinned).len() > 0 {
        "pyseekdb=="@ + trimmed(pinned)
    } else {
        "pyseekdb"@
    }
}

/// The arguments of the command that installs a part.
pub open spec fn runtime_arguments(
    part: RuntimePart,
    data_dir: Seq<char>,
    windows: bool,
    pinned: Seq<char>,
) -> Seq<Seq<char>> {
    match part {
        RuntimePart::Environment => seq![
            "venv"@,
            seekdb_runtime(data_dir, windows),
            "--python"@,
            "3.12"@,
        ],
        RuntimePart::Package => seq![
            "pip"@,
            "install"@,
            "--python"@,
            seekdb_python(data_dir, windows),
            "--upgrade"@,
            seekdb_package(pinned),
        ],
    }
}

/// The command that installs a part of the runtime, unless the part is there already; without
/// uv a missing part cannot be installed.
pub fn ensure_seekdb_runtime(
    part: RuntimePart,
    present: bool,
    uv: Option<String>,
    data_dir: &str,
    windows: bool,
    pinned: &str,
) -> (r: Result<Option<RuntimeCommand>, String>)
    ensures
        present ==> r matches Ok(None),
        !present && uv is None ==> (r matches Err(message) && message@
            == "Please install uv before configuring SeekDB"@),
        !present && uv is Some ==> (r matches Ok(Some(command)) && command.program@ == uv->0@
            && texts(command.arguments@) == runtime_arguments(part, data_dir@, windows, pinned@)
            && command.action@ == (match part {
            RuntimePart::Environment =>
                "Creating AgentSeek Desktop SeekDB private Python environment"@,
            RuntimePart::Package => "Installing AgentSeek Desktop private pyseekdb"@,
        })),
{
    if present {
        return Ok(None);
    }
    let program = match uv {
        Some(program) => program,
        None => return Err("Please install uv before configuring SeekDB".to_owned()),
    };
    let (arguments, action): (Vec<String>, String) = match part {
        RuntimePart::Environment => (
            vec![
                "venv".to_owned(),
                join_path(windows, data_dir, "runtime/seekdb-python"),
                "--python".to_owned(),
                "3.12".to_owned(),
            ],
            "Creating AgentSeek Desktop SeekDB private Python environment".to_owned(),
        ),
        RuntimePart::Package => {
            let version = trim(pinned);
            let package = if version.is_empty() {
                "pyseekdb".to_owned()
            } else {
                concat2("pyseekdb==", version)
            };
            (
                vec![
                    "pip".to_owned(),
                    "install".to_owned(),
                    "--python".to_owned(),
                    seekdb_runtime_file(RuntimePart::Environment, data_dir, windows),
                    "--upgrade".to_owned(),
                    package,
                ],
                "Installing AgentSeek Desktop private pyseekdb".to_owned(),
            )
        },
    };
    assert(texts(arguments@) == runtime_arguments(part, data_dir@, windows, pinned@));
    Ok(Some(RuntimeCommand { program, arguments, action }))
}

// ---------------------------------------------------------------------------
// Status
// ---------------------------------------------------------------------------

/// The settings and the state of the storage as they are shown.
#[derive(Clone, Debug)]
pub struct StorageStatus {
    pub mode: String,
    pub effective_mode: String,
    pub path: String,
    pub default_sqlite_path: String,
    pub default_seekdb_path: String,
    pub host: String,
    pub port: u16,
    pub tenant: String,
    pub database: String,
    pub default_database: String,
    pub user: String,
    pub password_configured: bool,
    pub runtime_log_retention_days: u32,
    pub setup_required: bool,
    pub writable: bool,
    pub error: Option<String>,
}

/// Shows the settings and the state of the storage; of the password only whether there is one.
pub fn storage_status_value(
    config: &StorageConfig,
    effective_mode: &str,
    data_dir: &str,
    setup_required: bool,
    writable: bool,
    error: &Option<String>,
    windows: bool,
) -> (r: StorageStatus)
    ensures
        r.mode@ == config@.mode,
        r.effective_mode@ == effective_mode@,
        r.path@ == config@.path,
        r.default_sqlite_path@ == data_dir@,
        r.default_seekdb_path@ == joined_path(windows, data_dir@, "seekdb"@),
        r.host@ == config@.host,
        r.port == config@.port,
        r.tenant@ == config@.tenant,
        r.database@ == config@.database,
        r.default_database@ == "agentseek_desktop"@,
        r.user@ == config@.user,
        r.password_configured == (config@.password.len() > 0),
        r.runtime_log_retention_days == config@.runtime_log_retention_days,
        r.setup_required == setup_required,
        r.writable == writable,
        opt_view(r.error) == opt_view(*error),
{
    StorageStatus {
        mode: config.mode.clone(),
        effective_mode: effective_mode.to_owned(),
        path: config.path.clone(),
        default_sqlite_path: data_dir.to_owned(),
        default_seekdb_path: join_path(windows, data_dir, "seekdb"),
        host: config.host.clone(),
        port: config.port,
        tenant: config.tenant.clone(),
        database: config.database.clone(),
        default_database: default_storage_database(),
        user: config.user.clone(),
        password_configured: !config.password.as_str().is_empty(),
        runtime_log_retention_days: config.runtime_log_retention_days,
        setup_required,
        writable,
        error: copy_opt(error),
    }
}

/// Where the data is and what keeps it, as it is shown for the kind of storage in effect.
pub fn storage_summary(
    effective_mode: &str,
    data_dir: &str,
    config: &StorageConfig,
    windows: bool,
) -> (r: (String, String))
    ensures
        r.0@ == (if effective_mode@ == "seekdb_embedded"@ {
            config@.path
        } else if is_server(effective_mode@) {
            config@.host + ":"@ + decimal(config@.port as nat) + " / "@ + config@.database
        } else {
            joined_path(windows, sqlite_directory(data_dir@, config@), "agentseek-desktop.sqlite3"@)
        }),
        r.1@ == (if effective_mode@ == "seekdb_embedded"@ {
            "Embedded SeekDB"@
        } else if is_server(effective_mode@) {
            "SeekDB / OceanBase Server"@
        } else {
            "Embedded SQLite"@
        }) + " (desktop state only; isolated from template instances)"@,
{
    let note = " (desktop state only; isolated from template instances)";
    if same(effective_mode, "seekdb_embedded") {
        (config.path.clone(), concat2("Embedded SeekDB", note))
    } else if mode_is_server(effective_mode) {
        (
            concat5(
                config.host.as_str(),
                ":",
                decimal_of(config.port as u64).as_str(),
                " / ",
                config.database.as_str(),
            ),
            concat2("SeekDB / OceanBase Server", note),
        )
    } else {
        (sqlite_database_path(data_dir, config, windows), concat2("Embedded SQLite", note))
    }
}

} // verus!
