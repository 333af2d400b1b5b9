use agentseek_desktop::models::{AppStore, EnvVariable, InstanceRecord, LogEntry, MAX_PENDING_LOG_ENTRIES};
use agentseek_desktop::state::{
    degraded_engine, instance_has_completed_deployment, is_deployment_completed_log,
    is_desktop_lifecycle_message, migrate_legacy_store, open_storage_engine,
    repair_instance_restart_status, repair_log_sequences, repair_stored_instances, sort_logs, startup,
    DesktopState, EngineChoice, LogStep, StartupFacts,
};
use agentseek_desktop::storage::{
    check_storage_place, check_storage_reply, configure_storage, default_storage_config,
    ensure_seekdb_runtime, load_storage_config, next_page_before, page_limit, page_of_logs,
    read_storage_reply, reconcile_password, reply_document, reply_flag, reply_number, reply_text,
    same_storage_target, seekdb_runtime_file, settle_storage_path, snapshot_mismatch,
    snapshot_retry_delay, stale_backups, storage_status_value, storage_summary, stored_data,
    verify_storage_snapshot, ConfigFile, PathFacts, RuntimePart, SnapshotCounts, SnapshotStep,
};
use agentseek_desktop::storage_switch::{StorageSwitch, SwitchEvent, SwitchPhase};

fn record(id: &str, status: &str) -> InstanceRecord {
    InstanceRecord {
        id: id.to_string(),
        name: id.to_string(),
        template_id: "bub/default".to_string(),
        status: status.to_string(),
        deployment_mode: "local".to_string(),
        work_dir: format!("/work/{id}"),
        env_example_path: None,
        env_path: None,
        note: String::new(),
        created_at: 1,
        updated_at: 1,
        needs_doctor: true,
        pid: None,
        agent_url: None,
        ui_url: None,
        studio_url: None,
        project_name: None,
        lifecycle_version: None,
        service_endpoints: Vec::new(),
    }
}

fn log(id: &str, category: &str, message: &str, created_at: u64) -> LogEntry {
    LogEntry {
        id: id.to_string(),
        instance_id: Some("one".to_string()),
        instance_name: "one".to_string(),
        category: category.to_string(),
        level: "success".to_string(),
        message: message.to_string(),
        command: None,
        created_at,
        sequence: 0,
    }
}

fn secret(key: &str, value: &str) -> EnvVariable {
    EnvVariable {
        key: key.to_string(),
        value: value.to_string(),
        comment: String::new(),
        source: "vault".to_string(),
        modified: true,
    }
}

fn store() -> AppStore {
    AppStore { instances: Vec::new(), vault: Vec::new(), logs: Vec::new() }
}

fn state(ready: bool) -> DesktopState {
    DesktopState {
        storage_ready: ready,
        storage_error: None,
        storage_setup_required: false,
        data: store(),
        next_log_sequence: 0,
        deployment_stages: Vec::new(),
    }
}

fn facts() -> StartupFacts {
    StartupFacts {
        config_file_exists: true,
        config_ready: true,
        setup_completed: true,
        database_ready: true,
        credentials_required: false,
        credentials_ready: false,
        database_has_data: true,
        legacy_data_exists: true,
    }
}

#[test]
fn instances_that_wait_in_vain_are_put_back() {
    let mut waiting = record("one", "needs-restart");
    assert!(repair_instance_restart_status(&mut waiting, false, 5));
    assert_eq!(waiting.status, "configuring");
    assert_eq!(waiting.updated_at, 5);
    assert!(!repair_instance_restart_status(&mut waiting, false, 6));
    assert_eq!(waiting.updated_at, 5);
    let mut deployed = record("two", "needs-restart");
    assert!(!repair_instance_restart_status(&mut deployed, true, 5));
    assert_eq!(deployed.status, "needs-restart");
    let mut all = vec![record("one", "needs-restart"), record("two", "needs-restart")];
    assert!(repair_stored_instances(&mut all, &vec![false, true], 5));
    assert_eq!(all[0].status, "configuring");
    assert_eq!(all[1].status, "needs-restart");
}

#[test]
fn a_deployment_is_known_by_its_process_or_the_storage() {
    let mut one = record("one", "running");
    assert_eq!(instance_has_completed_deployment(&one, Ok(false)), Ok(false));
    one.pid = Some(7);
    assert_eq!(instance_has_completed_deployment(&one, Err("down".to_string())), Ok(true));
    assert!(is_deployment_completed_log(&log("a", "install", "Instance deployment completed", 1)));
    assert!(!is_deployment_completed_log(&log("a", "runtime", "Instance deployment completed", 1)));
}

#[test]
fn lifecycle_messages_are_told_in_any_case() {
    for message in [
        "INSTANCE STOPPED",
        "Stopped instance process tree of 7",
        "x Delete Instance y",
        "the instance was DELETED",
    ] {
        assert!(is_desktop_lifecycle_message(message), "{message}");
    }
    for message in ["instance stopped.", "deleted", "my instance"] {
        assert!(!is_desktop_lifecycle_message(message), "{message}");
    }
}

#[test]
fn older_data_is_repaired_numbered_and_put_in_order() {
    let mut data = store();
    data.instances = vec![record("one", "needs-restart")];
    data.logs = vec![
        log("b", "install", "late", 9),
        log("a", "runtime", "Instance stopped", 9),
        log("c", "install", "early", 8),
    ];
    migrate_legacy_store(&mut data, 7, 10);
    assert_eq!(data.instances[0].status, "configuring");
    let order: Vec<&str> = data.logs.iter().map(|log| log.id.as_str()).collect();
    assert_eq!(order, ["c", "b", "a"]);
    assert_eq!(data.logs[2].category, "install");
    assert_eq!(data.logs[0].sequence, 2);
    assert!(repair_log_sequences(&mut data));
    assert!(!repair_log_sequences(&mut data));
    assert_eq!(data.logs[2].sequence, 2);
}

#[test]
fn entries_are_sorted_by_time_number_and_id() {
    let mut data = store();
    data.logs =
        vec![log("z", "x", "1", 2), log("b", "x", "2", 1), log("a", "x", "3", 1), log("z", "x", "4", 1)];
    data.logs[3].sequence = 7;
    sort_logs(&mut data);
    let order: Vec<&str> = data.logs.iter().map(|log| log.message.as_str()).collect();
    assert_eq!(order, ["3", "2", "4", "1"]);
}

#[test]
fn stored_addresses_of_older_versions_are_read() {
    let migrate = |url: &str| DesktopState::migrate_legacy_template_url(url);
    let pair = |a: &str, b: &str| Some((a.to_string(), b.to_string()));
    assert_eq!(migrate("  "), None);
    assert_eq!(migrate("https://h/o/r/tree/main/sub"), pair("https://h/o/r", "main"));
    assert_eq!(migrate("https://h/o/r/tree/dev"), pair("https://h/o/r", "dev"));
    assert_eq!(migrate("https://h/o/r/releases"), pair("https://h/o/r", ""));
    assert_eq!(migrate("https://h/o/r/releases/latest"), pair("https://h/o/r", ""));
    assert_eq!(migrate(" https://h/o/r "), pair("https://h/o/r", ""));
}

#[test]
fn a_stage_that_was_set_is_read_back() {
    let mut state = state(true);
    assert_eq!(state.deployment_progress("one"), "pending");
    state.set_deployment_stage("one", "tasks");
    state.set_deployment_stage("two", "doctor");
    state.set_deployment_stage("one", "complete");
    assert_eq!(state.deployment_progress("one"), "complete");
    assert_eq!(state.deployment_progress("two"), "doctor");
}

#[test]
fn nothing_is_written_while_the_storage_is_not_ready() {
    let mut closed = state(false);
    assert_eq!(
        closed.ensure_storage_ready(),
        Err("Desktop storage not writable, please fix storage connection first".to_string())
    );
    closed.storage_error = Some("broken".to_string());
    assert_eq!(closed.ensure_storage_configurable(), Err("broken".to_string()));
    assert_eq!(closed.persist_instance(Ok(())), Err("broken".to_string()));
    assert!(closed.replace_vault_entries(Vec::new()).is_err());
    closed.storage_setup_required = true;
    assert_eq!(closed.ensure_storage_configurable(), Ok(()));
    assert_eq!(state(true).persist_instance(Err("full".to_string())), Err("full".to_string()));
}

#[test]
fn a_vault_holds_each_name_once() {
    let state = state(true);
    let kept = state
        .replace_vault_entries(vec![secret(" A ", "1"), secret("B", "2")])
        .expect("distinct names");
    assert_eq!(kept[0].key, "A");
    assert!(!kept[0].modified);
    assert_eq!(
        state.replace_vault_entries(vec![secret("A", "1"), secret(" A", "2")]).err(),
        Some("Duplicate environment variable name: A".to_string())
    );
    assert_eq!(
        state.replace_vault_entries(vec![secret("  ", "1")]).err(),
        Some("Environment variable name cannot be empty".to_string())
    );
}

#[test]
fn secrets_are_hidden_in_the_log() {
    let mut state = state(true);
    state.data.vault = vec![
        secret("API_KEY", "abcd"),
        secret("TOKEN", "xyz"),
        secret("DB_PASSWORD", "cd-12"),
        secret("MODEL", "gpt-4"),
    ];
    let text = "abcd-12 xyz abcd gpt-4 cd-12".to_string();
    assert_eq!(state.redact_log_text(text), "******-12 xyz ****** gpt-4 ******");
    let entry = state.log(
        Some("one"),
        "One",
        "install",
        "info",
        "key abcd".to_string(),
        Some("run --key=abcd".to_string()),
        100,
    );
    assert_eq!(entry.id, "log-100-1");
    assert_eq!(entry.message, "key ******");
    assert_eq!(entry.command.as_deref(), Some("run --key=******"));
    assert_eq!(entry.sequence, 1);
    assert_eq!(state.next_log_sequence, 1);
}

#[test]
fn entries_that_cannot_be_stored_are_tried_again_and_kept() {
    let mut ready = state(true);
    let mut entry = log("a", "install", "x", 1);
    entry.sequence = 99;
    assert_eq!(ready.settle_log(&entry, true, false), LogStep::Done);
    assert_eq!(ready.settle_log(&entry, false, false), LogStep::Retry);
    assert!(ready.data.logs.is_empty());
    assert_eq!(ready.settle_log(&entry, false, true), LogStep::Kept);
    assert_eq!(ready.data.logs.len(), 1);
    entry.sequence = 200;
    assert_eq!(ready.settle_log(&entry, true, false), LogStep::CleanUp);
    assert_eq!(ready.settle_log(&entry, true, true), LogStep::Done);
    let mut closed = state(false);
    for i in 0..MAX_PENDING_LOG_ENTRIES as u64 + 5 {
        entry.sequence = i;
        assert_eq!(closed.settle_log(&entry, false, false), LogStep::Kept);
    }
    assert_eq!(closed.data.logs.len(), MAX_PENDING_LOG_ENTRIES);
    assert_eq!(closed.data.logs[0].sequence, 5);
    assert!(DesktopState::cleanup_logs(10_000));
    assert!(!DesktopState::cleanup_logs(9_999));
}

#[test]
fn the_start_goes_by_what_was_found() {
    assert!(startup(facts()).storage_ready);
    assert!(!startup(facts()).setup_required);
    assert!(!startup(facts()).migrate_legacy);
    assert!(!startup(StartupFacts { credentials_required: true, ..facts() }).storage_ready);
    assert!(startup(StartupFacts { setup_completed: false, ..facts() }).setup_required);
    assert!(startup(StartupFacts { database_has_data: false, ..facts() }).migrate_legacy);

    let mut data = store();
    data.logs = vec![log("a", "install", "x", 1)];
    data.logs[0].sequence = 41;
    let stored = DesktopState::load(facts(), data.clone(), Ok(()), Ok(7), Vec::new());
    assert!(stored.storage_ready && stored.data.logs.is_empty());
    assert_eq!(stored.next_log_sequence, 7);
    assert_eq!(stored.storage_error, None);
    let failed =
        DesktopState::load(facts(), data.clone(), Err("full".to_string()), Ok(7), Vec::new());
    assert!(!failed.storage_ready);
    assert_eq!(failed.next_log_sequence, 41);
    assert_eq!(failed.data.logs.len(), 1);
    assert_eq!(
        failed.storage_error.as_deref(),
        Some("Failed to initialize desktop storage, entered read-only protection mode: full")
    );
    let unread =
        DesktopState::load(facts(), data, Ok(()), Err("gone".to_string()), vec!["a".to_string()]);
    assert_eq!(unread.next_log_sequence, 0);
    assert_eq!(
        unread.storage_error.as_deref(),
        Some("a\nFailed to read log sequence, entered read-only protection mode: gone")
    );
}

#[test]
fn the_storage_is_opened_by_the_settings() {
    let mut config = default_storage_config(false);
    assert!(matches!(open_storage_engine("/d", &config, true, false), EngineChoice::SeekDb));
    let (path, told) = degraded_engine("/d", &config, "no runtime", false);
    assert_eq!(path, "/d/agentseek-desktop.sqlite3");
    assert_eq!(
        told,
        "Configured seekdb_embedded storage unavailable, degraded to embedded SQLite: no runtime"
    );
    config.mode = "sqlite_embedded".to_string();
    config.path = "/e/".to_string();
    match open_storage_engine("/d", &config, true, false) {
        EngineChoice::Sqlite(path) => assert_eq!(path, "/e/agentseek-desktop.sqlite3"),
        _ => panic!("SQLite was chosen"),
    }
    assert!(matches!(open_storage_engine("/d", &config, false, false), EngineChoice::Pending));
    assert_eq!(default_storage_config(true).mode, "sqlite_embedded");
}

#[test]
fn settings_are_completed_and_checked() {
    let current = {
        let mut config = default_storage_config(false);
        config.mode = "seekdb_server".to_string();
        config.host = "db".to_string();
        config.password = "kept".to_string();
        config
    };
    let mut asked = current.clone();
    asked.password = String::new();
    asked.database = " ".to_string();
    asked.runtime_log_retention_days = 0;
    let config = configure_storage(asked, &current, false, "/d").expect("a known mode");
    assert_eq!(config.password, "kept");
    assert_eq!(config.database, "agentseek_desktop");
    assert_eq!(config.runtime_log_retention_days, 7);
    assert!(config.setup_completed);
    assert!(same_storage_target("seekdb_server", &current, &current));
    assert!(!same_storage_target("sqlite_embedded", &current, &current));

    let mut unknown = current.clone();
    unknown.mode = "mysql".to_string();
    assert_eq!(
        configure_storage(unknown, &current, false, "/d").err().as_deref(),
        Some("Unsupported desktop storage type")
    );
    let embedded = default_storage_config(false);
    assert_eq!(
        configure_storage(embedded.clone(), &current, true, "/d").err().as_deref(),
        Some("Embedded SeekDB is not supported on Windows. Use SQLite or a remote server.")
    );
    let placed = configure_storage(embedded, &current, false, "/d").expect("a known mode");
    assert_eq!(placed.path, "/d/seekdb");
    assert_eq!(check_storage_place(&placed, true), Ok(()));
    assert_eq!(
        check_storage_place(&placed, false),
        Err("Embedded storage data directory must use an absolute path".to_string())
    );
    let mut nowhere = config;
    nowhere.host = " ".to_string();
    assert_eq!(
        check_storage_place(&nowhere, true),
        Err("Server mode requires a host address".to_string())
    );
}

#[test]
fn places_and_passwords_are_settled() {
    let none = PathFacts {
        at_seekdb_dir: false,
        sqlite_in_seekdb_dir: false,
        at_legacy_dir: false,
        legacy_dir_exists: false,
    };
    let legacy = PathFacts { at_legacy_dir: true, ..none };
    let seekdb = PathFacts { at_seekdb_dir: true, ..none };
    let mut config = default_storage_config(false);
    settle_storage_path(&mut config, "/d", none, false);
    assert_eq!(config.path, "/d/seekdb");
    config.path = "/d/seekdb/desktop".to_string();
    settle_storage_path(&mut config, "/d", PathFacts { legacy_dir_exists: true, ..legacy }, false);
    assert_eq!(config.path, "/d/seekdb/desktop");
    settle_storage_path(&mut config, "/d", none, false);
    assert_eq!(config.path, "/d/seekdb/desktop");
    settle_storage_path(&mut config, "/d", legacy, false);
    assert_eq!(config.path, "/d/seekdb");
    config.mode = "sqlite_embedded".to_string();
    settle_storage_path(&mut config, "/d", PathFacts { sqlite_in_seekdb_dir: true, ..seekdb }, false);
    assert_eq!(config.path, "/d/seekdb");
    settle_storage_path(&mut config, "/d", seekdb, false);
    assert_eq!(config.path, "/d");
    assert_eq!(reconcile_password(&mut config, "stored".to_string()), None);
    assert_eq!(config.password, "stored");
    assert_eq!(reconcile_password(&mut config, "x".to_string()), Some("stored".to_string()));
    let status = storage_status_value(&config, "sqlite_embedded", "/d", false, true, &None, false);
    assert!(status.password_configured);
    assert_eq!(status.default_seekdb_path, "/d/seekdb");
    let (place, kind) = storage_summary("seekdb_server", "/d", &config, false);
    assert_eq!(place, ":2881 / agentseek_desktop");
    assert!(kind.starts_with("SeekDB / OceanBase Server (desktop state only"));
}

#[test]
fn a_file_of_settings_is_settled_or_told_of() {
    let none = PathFacts {
        at_seekdb_dir: false,
        sqlite_in_seekdb_dir: false,
        at_legacy_dir: false,
        legacy_dir_exists: false,
    };
    let (config, fault) = load_storage_config(ConfigFile::Missing, false, "/d", none);
    assert_eq!((config.mode.as_str(), config.path.as_str()), ("seekdb_embedded", "/d/seekdb"));
    assert_eq!(fault, None);
    let (config, fault) =
        load_storage_config(ConfigFile::Malformed("bad".to_string()), true, "/d", none);
    assert_eq!((config.mode.as_str(), config.path.as_str()), ("sqlite_embedded", "/d"));
    assert_eq!(
        fault.as_deref(),
        Some("Storage config file format error, entered read-only protection mode: bad")
    );
    let (_, fault) =
        load_storage_config(ConfigFile::Unreadable("denied".to_string()), false, "/d", none);
    assert_eq!(
        fault.as_deref(),
        Some("Failed to read storage config file, entered read-only protection mode: denied")
    );
    let mut server = default_storage_config(false);
    server.mode = "seekdb_server".to_string();
    server.path = "/kept".to_string();
    server.database = " ".to_string();
    let (config, fault) = load_storage_config(ConfigFile::Read(server), false, "/d", none);
    assert_eq!((config.path.as_str(), config.database.as_str()), ("/kept", "agentseek_desktop"));
    assert_eq!(fault, None);
}

#[test]
fn the_runtime_of_the_embedded_database_is_installed_in_two_parts() {
    let uv = || Some("/bin/uv".to_string());
    let first = ensure_seekdb_runtime(RuntimePart::Environment, false, uv(), "/d", false, "1.2")
        .expect("uv")
        .expect("command");
    assert_eq!(first.program, "/bin/uv");
    assert_eq!(first.arguments, ["venv", "/d/runtime/seekdb-python", "--python", "3.12"]);
    assert_eq!(
        first.action,
        "Creating AgentSeek Desktop SeekDB private Python environment"
    );
    let second = ensure_seekdb_runtime(RuntimePart::Package, false, uv(), "/d", true, " 1.2 ")
        .expect("uv")
        .expect("command");
    assert_eq!(
        second.arguments,
        [
            "pip",
            "install",
            "--python",
            "/d\\runtime/seekdb-python\\Scripts/python.exe",
            "--upgrade",
            "pyseekdb==1.2"
        ]
    );
    let latest = ensure_seekdb_runtime(RuntimePart::Package, false, uv(), "/d", false, " ")
        .expect("uv")
        .expect("command");
    assert_eq!(latest.arguments[3], "/d/runtime/seekdb-python/bin/python");
    assert_eq!(latest.arguments[5], "pyseekdb");
    assert_eq!(
        ensure_seekdb_runtime(RuntimePart::Package, false, None, "/d", false, "").err(),
        Some("Please install uv before configuring SeekDB".to_string())
    );
    assert!(matches!(
        ensure_seekdb_runtime(RuntimePart::Package, true, None, "/d", false, ""),
        Ok(None)
    ));
    assert_eq!(
        seekdb_runtime_file(RuntimePart::Package, "/d", false),
        "/d/runtime/seekdb-python/.pyseekdb-installed"
    );
}

#[test]
fn the_five_latest_backups_stay() {
    let names: Vec<String> = (0..7)
        .rev()
        .map(|n| format!("before-switch-{n}.json"))
        .chain(["other.json".to_string(), "before-switch-9.txt".to_string()])
        .collect();
    assert_eq!(stale_backups(&names), vec!["before-switch-0.json", "before-switch-1.json"]);
    assert!(stale_backups(&names[..5].to_vec()).is_empty());
}

#[test]
fn answers_of_the_storage_process_are_judged() {
    assert_eq!(
        read_storage_reply("  \n").err().as_deref(),
        Some("SeekDB storage runtime exited unexpectedly")
    );
    let wrong = read_storage_reply("{").err().expect("no JSON");
    assert!(wrong.starts_with("SeekDB response format error: "));
    let granted = read_storage_reply("{\"ok\": true, \"n\": 1}").expect("JSON");
    assert!(check_storage_reply(granted, "failed").is_ok());
    let refused = read_storage_reply("{\"ok\": false, \"error\": \"locked\"}").expect("JSON");
    assert_eq!(check_storage_reply(refused, "failed").err().as_deref(), Some("locked"));
    let odd = read_storage_reply("{\"ok\": 1}").expect("JSON");
    assert_eq!(check_storage_reply(odd, "failed").err().as_deref(), Some("failed"));
}

#[test]
fn answers_of_the_storage_process_are_taken_apart() {
    let reply = read_storage_reply(
        "{\"count\": 12, \"low\": -1, \"part\": 1.5, \"top\": 18446744073709551615,\
         \"completed\": false, \"value\": \"on\", \"page\": {\"entries\": [1]}, \"none\": null}",
    )
    .expect("JSON");
    assert_eq!(reply_number(&reply, "count", "invalid"), Ok(12));
    assert_eq!(reply_number(&reply, "top", "invalid"), Ok(u64::MAX));
    for field in ["low", "part", "completed", "value", "absent"] {
        assert_eq!(reply_number(&reply, field, "invalid"), Err("invalid".to_string()));
    }
    assert_eq!(reply_flag(&reply, "completed", "invalid"), Ok(false));
    for field in ["count", "value", "none", "absent"] {
        assert_eq!(reply_flag(&reply, field, "invalid"), Err("invalid".to_string()));
    }
    assert_eq!(reply_text(&reply, "value").as_deref(), Some("on"));
    assert_eq!(reply_text(&reply, "count"), None);
    assert_eq!(reply_text(&reply, "absent"), None);
    assert_eq!(
        reply_document(&reply, "page", "missing"),
        Ok("{\n  \"entries\": [\n    1\n  ]\n}".to_string())
    );
    assert_eq!(reply_document(&reply, "none", "missing"), Ok("null".to_string()));
    assert_eq!(reply_document(&reply, "absent", "missing"), Err("missing".to_string()));
    let list = read_storage_reply("[1]").expect("JSON");
    assert_eq!(reply_number(&list, "count", "invalid"), Err("invalid".to_string()));
}

#[test]
fn pages_follow_each_other_without_overlap() {
    assert_eq!((page_limit(0), page_limit(500), page_limit(5000)), (1, 500, 1000));
    let logs: Vec<LogEntry> = (0..5u64)
        .map(|n| {
            let mut entry = log(&n.to_string(), "install", "x", 1);
            entry.sequence = 9 - n;
            entry
        })
        .collect();
    let page = page_of_logs(logs.clone(), 4, 2);
    assert!(page.has_more);
    assert_eq!(page.entries.len(), 4);
    assert_eq!(page.group_count, 2);
    let before = next_page_before(&page.entries).expect("entries");
    assert_eq!(before, 6);
    assert!(page.entries.iter().all(|entry| entry.sequence >= before));
    assert_eq!(next_page_before(&Vec::new()), None);
    assert!(!page_of_logs(logs, 5, 2).has_more);
}

#[test]
fn copies_are_compared_by_their_sizes() {
    let expected = SnapshotCounts { instances: 1, vault: 2, logs: 3 };
    let other = SnapshotCounts { instances: 0, vault: 2, logs: 4 };
    assert_eq!(snapshot_mismatch(expected, expected), None);
    assert_eq!(
        snapshot_mismatch(expected, other).as_deref(),
        Some("Instances 1 -> 0, Vault 2 -> 2, Logs 3 -> 4")
    );
    assert!(matches!(
        verify_storage_snapshot(1, expected, Ok(expected)),
        SnapshotStep::Complete
    ));
    assert!(matches!(
        verify_storage_snapshot(4, expected, Err("gone".to_string())),
        SnapshotStep::Retry(2000)
    ));
    match verify_storage_snapshot(5, expected, Err("gone".to_string())) {
        SnapshotStep::Failed(message) => {
            assert_eq!(message, "Target storage validation failed: gone")
        }
        _ => panic!("the last attempt"),
    }
    match verify_storage_snapshot(5, expected, Ok(other)) {
        SnapshotStep::Failed(message) => assert_eq!(
            message,
            "Target storage validation failed: Instances 1 -> 0, Vault 2 -> 2, Logs 3 -> 4"
        ),
        _ => panic!("the last attempt"),
    }
    assert!(stored_data(Vec::new(), Vec::new(), 0).is_none());
    assert!(stored_data(Vec::new(), Vec::new(), 1).is_some());
    let delays: Vec<Option<u64>> = (1..=5).map(snapshot_retry_delay).collect();
    assert_eq!(delays, vec![Some(250), Some(500), Some(1000), Some(2000), None]);
}

fn run_switch(state: &mut DesktopState, fail_at: Option<SwitchPhase>) -> Result<Vec<SwitchPhase>, String> {
    let mut switch = StorageSwitch::begin(state, false);
    let mut seen = Vec::new();
    while switch.phase != SwitchPhase::Done {
        seen.push(switch.phase);
        assert!(!state.storage_ready);
        if fail_at == Some(switch.phase) {
            return Err(switch.give_up(state, "no space"));
        }
        let event = match switch.phase {
            SwitchPhase::Count => SwitchEvent::Counted(3),
            SwitchPhase::ReadPage(None) => SwitchEvent::Page(Some(5), true),
            SwitchPhase::ReadPage(Some(_)) => SwitchEvent::Page(None, false),
            _ => SwitchEvent::Succeeded,
        };
        switch.configure(state, event);
        if switch.phase == SwitchPhase::VerifyAll {
            assert_eq!(switch.expected_log_count(), 4);
        }
    }
    Ok(seen)
}

#[test]
fn a_move_goes_through_all_its_steps() {
    let mut state = state(true);
    state.storage_setup_required = true;
    state.storage_error = Some("old".to_string());
    state.data.logs = vec![log("a", "install", "x", 1)];
    let seen = run_switch(&mut state, None).expect("all steps succeed");
    assert_eq!(
        seen,
        vec![
            SwitchPhase::Backup,
            SwitchPhase::Open,
            SwitchPhase::Count,
            SwitchPhase::SaveCore,
            SwitchPhase::ClearLogs,
            SwitchPhase::ReadPage(None),
            SwitchPhase::AppendPage(5, true),
            SwitchPhase::ReadPage(Some(5)),
            SwitchPhase::VerifyCopied,
            SwitchPhase::AppendPending,
            SwitchPhase::VerifyAll,
            SwitchPhase::Credentials,
            SwitchPhase::Config,
        ]
    );
    assert!(state.storage_ready);
    assert!(!state.storage_setup_required);
    assert_eq!(state.storage_error, None);
    assert!(state.data.logs.is_empty());
}

#[test]
fn a_move_that_fails_leaves_everything_as_it_was() {
    for (phase, told) in [
        (SwitchPhase::Backup, "no space"),
        (SwitchPhase::SaveCore, "Failed to write target storage instances and vault: no space"),
        (SwitchPhase::ClearLogs, "Failed to clean target storage old logs: no space"),
        (SwitchPhase::AppendPage(5, true), "Failed to migrate log pagination: no space"),
        (SwitchPhase::AppendPending, "no space"),
        (SwitchPhase::VerifyAll, "Target storage validation failed during switch: no space"),
        (SwitchPhase::Config, "no space"),
    ] {
        let mut state = state(true);
        state.data.logs = vec![log("a", "install", "x", 1)];
        assert_eq!(run_switch(&mut state, Some(phase)), Err(told.to_string()));
        assert!(state.storage_ready);
        assert_eq!(state.data.logs.len(), 1);
    }
}

#[test]
fn a_log_is_copied_page_by_page() {
    let source: Vec<LogEntry> = (1..=2_505)
        .rev()
        .map(|sequence| LogEntry {
            sequence,
            ..log(&format!("log-{sequence}"), "runtime", "x", 1)
        })
        .collect();
    let mut state = state(true);
    let mut switch = StorageSwitch::begin(&mut state, false);
    let mut target: Vec<LogEntry> = Vec::new();
    let mut page = Vec::new();
    let mut pages = 0;
    while switch.phase != SwitchPhase::Done {
        let event = match switch.phase {
            SwitchPhase::Count => SwitchEvent::Counted(source.len()),
            SwitchPhase::ReadPage(before) => {
                let limit = page_limit(1_000);
                let found: Vec<LogEntry> = source
                    .iter()
                    .filter(|entry| before.is_none_or(|number| entry.sequence < number))
                    .take(limit + 1)
                    .cloned()
                    .collect();
                let read = page_of_logs(found, limit, 1);
                let lowest = next_page_before(&read.entries);
                page = read.entries;
                SwitchEvent::Page(lowest, read.has_more)
            }
            SwitchPhase::AppendPage(_, _) => {
                target.append(&mut page);
                pages += 1;
                SwitchEvent::Succeeded
            }
            SwitchPhase::VerifyCopied => {
                assert_eq!(target.len(), switch.expected_log_count());
                SwitchEvent::Succeeded
            }
            _ => SwitchEvent::Succeeded,
        };
        switch.configure(&mut state, event);
    }
    assert_eq!(pages, 3);
    assert_eq!(target.len(), 2_505);
    let copied: Vec<u64> = target.iter().map(|entry| entry.sequence).collect();
    let expected: Vec<u64> = (1..=2_505).rev().collect();
    assert_eq!(copied, expected);
    assert!(state.data.logs.is_empty());
}

#[test]
fn entries_are_numbered_one_after_the_other() {
    let mut state = state(true);
    let first = state.log(None, "n", "c", "info", "m".to_string(), None, 1);
    let second = state.log(None, "n", "c", "info", "m".to_string(), None, 1);
    assert_eq!(second.sequence, first.sequence + 1);
    assert_ne!(first.id, second.id);
}

#[test]
fn entries_that_come_in_during_a_move_are_kept() {
    let mut state = state(true);
    state.data.logs = vec![log("a", "install", "x", 1)];
    let mut switch = StorageSwitch::begin(&mut state, true);
    let mut late = Vec::new();
    while switch.phase != SwitchPhase::Done {
        if switch.phase == SwitchPhase::Credentials {
            state.data.logs.push(log("b", "install", "y", 2));
        }
        if switch.phase == SwitchPhase::AppendLate {
            assert!(state.storage_ready);
            late = switch.pending.clone().expect("entries");
        }
        switch.configure(&mut state, SwitchEvent::Succeeded);
    }
    assert_eq!(late.len(), 1);
    assert_eq!(late[0].id, "b");
    assert!(state.data.logs.is_empty());

    state.storage_ready = true;
    state.data.logs = vec![log("a", "install", "x", 1)];
    let mut switch = StorageSwitch::begin(&mut state, true);
    while switch.phase != SwitchPhase::Credentials {
        switch.configure(&mut state, SwitchEvent::Succeeded);
    }
    state.data.logs.push(log("b", "install", "y", 2));
    switch.give_up(&mut state, "no space");
    let ids: Vec<&str> = state.data.logs.iter().map(|entry| entry.id.as_str()).collect();
    assert_eq!(ids, ["a", "b"]);
}

#[test]
fn secrets_of_several_lines_are_hidden() {
    let mut state = state(true);
    state.data.vault = vec![secret("API_KEY", "first\nsecond"), secret("B_TOKEN", "content")];
    assert_eq!(
        state.redact_log_text("a first\nsecond b content".to_string()),
        "a ****** b ******"
    );
}
