use agentseek_desktop::config_sync::{
    collect_assigned_ports, instance_self_ports, list_env_files, synchronize_instance_configs_from_env,
    synchronize_instance_project_name, written_paths, ConfigFiles,
};
use agentseek_desktop::environment::{
    assign_resolved_ports, ensure_tracing_choice, is_env_file_name, is_secret_env_key,
    merge_env_entries, parse_env, process_env_value, render_env, restore_non_loopback_url_defaults,
    retain_keyed, runtime_environment_summary, share_with_vault, sync_endpoint_ports_by_changes,
    sync_port_urls, synchronize_env_entries,
};
use agentseek_desktop::models::{EnvVariable, InstanceRecord, PortChange};
use agentseek_desktop::ports::{align_loopback_url_ports, HostPorts};
use agentseek_desktop::save_env::{
    check_export, check_import, check_overwrite, export_env, export_report, import_env,
    import_report, load_instance_env, save_instance_env, ChosenFile, ExportTarget, ManifestText,
    PortContext,
};
use std::collections::HashSet;

fn entry(key: &str, value: &str) -> EnvVariable {
    EnvVariable {
        key: key.to_string(),
        value: value.to_string(),
        comment: String::new(),
        source: "template".to_string(),
        modified: false,
    }
}

fn shown(entries: &[EnvVariable]) -> Vec<(String, String, String)> {
    entries
        .iter()
        .map(|entry| (entry.key.clone(), entry.value.clone(), entry.comment.clone()))
        .collect()
}

fn instance() -> InstanceRecord {
    InstanceRecord {
        id: "one".to_string(),
        name: "One".to_string(),
        template_id: "langchain/default".to_string(),
        status: "configuring".to_string(),
        deployment_mode: "local".to_string(),
        work_dir: "/work/one".to_string(),
        env_example_path: Some("/work/one/.env.example".to_string()),
        env_path: None,
        note: String::new(),
        created_at: 1,
        updated_at: 1,
        needs_doctor: true,
        pid: None,
        agent_url: None,
        ui_url: None,
        studio_url: None,
        project_name: None,
        lifecycle_version: None,
        service_endpoints: Vec::new(),
    }
}

#[test]
fn what_is_written_is_read_back() {
    let mut entries = vec![entry("A", "1"), entry("B", "x#y"), entry("C", "")];
    entries[0].comment = "first\n\n  second  ".to_string();
    entries[1].comment = "# marked".to_string();
    let read = parse_env(&render_env(&entries));
    assert_eq!(
        shown(&read),
        vec![
            ("A".to_string(), "1".to_string(), "first\n\nsecond".to_string()),
            ("B".to_string(), "x#y".to_string(), "# marked".to_string()),
            ("C".to_string(), String::new(), String::new()),
        ]
    );
}

#[test]
fn a_file_that_is_rewritten_reads_the_same() {
    let content = "# one\n#\n#   two\n\nexport A = 'x # y' # beside\nnot an entry\n=blank\n# last\nB=2\n";
    let once = parse_env(content);
    let twice = parse_env(&render_env(&once));
    assert_eq!(shown(&once), shown(&twice));
    assert_eq!(once[0].comment, "one\n\ntwo\n\nbeside");
    assert_eq!(once[0].value, "'x # y'");
    assert_eq!(once[1].comment, "last");
}

#[test]
fn names_that_only_exported_lines_can_have_do_not_read_back() {
    let read = parse_env("export export A=1\nexport #B=2\n");
    assert_eq!(read[0].key, "export A");
    assert_eq!(read[1].key, "#B");
    let again = parse_env(&render_env(&read));
    assert_eq!(again.len(), 1);
    assert_eq!(again[0].key, "A");
}

#[test]
fn comments_start_behind_white_space_and_outside_quotes() {
    let read = parse_env("A=\"a \\\" # b\" # c\nB=x # \nC=# d\n");
    assert_eq!(read[0].value, "\"a \\\" # b\"");
    assert_eq!(read[0].comment, "c");
    assert_eq!(read[1].value, "x");
    assert_eq!(read[1].comment, "");
    assert_eq!(read[2].value, "# d");
}

#[test]
fn secrets_are_told_by_whole_words() {
    for key in ["key", "API_KEY", "KEY_ID", "A_TOKEN_B", "secret", "DB_PASSWORD", "CREDENTIAL"] {
        assert!(is_secret_env_key(key), "{key}");
    }
    for key in ["MONKEY", "KEYBOARD", "TOKENS", "PASSWORDS_FILE", "KEYS"] {
        assert!(!is_secret_env_key(key), "{key}");
    }
}

#[test]
fn values_for_processes_lose_their_quotes() {
    assert_eq!(process_env_value("\"a b\""), "a b");
    assert_eq!(process_env_value("'a'"), "a");
    assert_eq!(process_env_value("\"a'"), "\"a'");
    assert_eq!(process_env_value("\""), "\"");
}

#[test]
fn blank_names_are_dropped_and_tracing_is_chosen_once() {
    let mut kept = retain_keyed(vec![entry(" ", "x"), entry("A", "1")]);
    assert_eq!(kept.len(), 1);
    ensure_tracing_choice(&mut kept);
    ensure_tracing_choice(&mut kept);
    assert_eq!(kept.len(), 2);
    assert_eq!(kept[1].key, "LANGSMITH_TRACING");
    assert_eq!(kept[1].value, "false");
    let mut chosen = vec![entry("langsmith_tracing", "true")];
    ensure_tracing_choice(&mut chosen);
    assert_eq!(chosen.len(), 1);
}

#[test]
fn ports_of_an_instance_stay_out_of_the_vault() {
    let mut vault = vec![entry("MODEL", "old")];
    let mut entries = vec![entry("MODEL", "new"), entry("FRONTEND_PORT", "5173"), entry("X", "1")];
    for entry in &mut entries {
        entry.modified = true;
    }
    entries.push(entry("UNTOUCHED", "2"));
    assert_eq!(share_with_vault(&mut vault, &entries, false), 2);
    assert_eq!(vault.len(), 2);
    assert_eq!(vault[0].value, "new");
    assert_eq!(vault[0].source, "instance");
    assert_eq!(vault[1].key, "X");
    assert_eq!(share_with_vault(&mut vault, &entries, true), 3);
    assert_eq!(vault.len(), 3);
}

#[test]
fn imports_replace_and_exports_hold_the_whole_vault() {
    let mut vault = vec![entry("A", "1")];
    assert_eq!(import_env(&mut vault, "A=2\nB=3\n"), 2);
    assert_eq!(vault.len(), 2);
    assert_eq!(vault[0].value, "2");
    assert_eq!(vault[1].source, "import");
    let exported = export_env("B=\nC=\n", &vault);
    assert_eq!(exported.content, "B=3\n\nC=\n\nA=2\n\n");
    assert_eq!(exported.key_count, 3);
    assert_eq!(exported.filled_count, 1);
    assert_eq!(exported.missing_count, 1);
    assert_eq!(import_report(2, "/x/.env"), "Imported 2 variables from /x/.env");
    assert_eq!(
        export_report(&exported, "/out", "/in"),
        "Exported /out\nTotal variables: 3\nBackfilled from vault: 1\nStill missing: 1\nSource: /in"
    );
}

#[test]
fn files_are_written_over_only_when_asked() {
    assert!(check_overwrite("/a/.env", false, false).is_ok());
    assert!(check_overwrite("/a/.env", true, true).is_ok());
    assert_eq!(check_overwrite("/a/.env", true, false), Err("ENV_FILE_EXISTS:/a/.env".to_string()));
}

#[test]
fn the_environment_is_read_from_the_file_or_the_example() {
    let mut record = instance();
    assert_eq!(load_instance_env(&record), Ok("/work/one/.env.example".to_string()));
    record.env_path = Some("/work/one/.env".to_string());
    assert_eq!(load_instance_env(&record), Ok("/work/one/.env".to_string()));
    record.env_path = None;
    record.env_example_path = None;
    assert_eq!(
        load_instance_env(&record),
        Err("Instance has no readable environment variable file".to_string())
    );
}

fn context(deployed: bool, lifecycle: Option<&str>, busy: &[u16], offers: &[u16]) -> PortContext {
    PortContext {
        deployed,
        lifecycle: lifecycle.map(|content| ManifestText {
            content: content.to_string(),
            services: vec![("langgraph".to_string(), "http://127.0.0.1:2024".to_string())],
        }),
        reserved: HashSet::new(),
        self_ports: [2024].into_iter().collect(),
        host: HostPorts { busy: busy.iter().copied().collect(), offers: offers.to_vec() },
        windows: false,
    }
}

fn no_files() -> ConfigFiles {
    ConfigFiles { lifecycle: None, frontend_example: None, frontend: None, compose: None }
}

#[test]
fn saving_settles_ports_and_marks_the_instance() {
    let mut record = instance();
    let mut vault = Vec::new();
    let entries = vec![entry("FRONTEND_PORT", "5173"), entry("", "dropped"), entry("A", "1")];
    let context = context(false, None, &[5173], &[6000]);
    let saved = save_instance_env(entries, &context, &no_files(), &mut record, &mut vault, 9)
        .expect("enough ports");
    assert_eq!(saved.path, "/work/one/.env");
    assert_eq!(
        saved.content,
        "FRONTEND_PORT=6000\n\nA=1\n\n# Disable LangSmith tracing to avoid metadata submission warnings\nLANGSMITH_TRACING=false\n\n"
    );
    assert_eq!(saved.port_changes.len(), 1);
    assert_eq!(saved.port_changes[0].old_port, 5173);
    assert_eq!(saved.port_changes[0].new_port, 6000);
    assert_eq!(saved.synced_count, 1);
    assert_eq!(vault[0].key, "LANGSMITH_TRACING");
    assert!(saved.entries.iter().all(|entry| !entry.modified));
    assert_eq!(saved.report, "Generated /work/one/.env (3 keys, synced 1 to vault)");
    assert!(saved.warning.expect("ports moved").contains("\nSynced files:\n  /work/one/.env\n"));
    assert_eq!(record.status, "ready-to-install");
    assert!(!record.needs_doctor);
    assert_eq!(record.env_path.as_deref(), Some("/work/one/.env"));
    assert_eq!(record.updated_at, 9);
}

#[test]
fn saving_changes_nothing_when_ports_run_out() {
    let mut record = instance();
    let mut vault = Vec::new();
    let entries = vec![entry("FRONTEND_PORT", "5173")];
    let context = context(false, None, &[5173], &[]);
    assert!(save_instance_env(entries, &context, &no_files(), &mut record, &mut vault, 9).is_err());
    assert_eq!(record.status, "configuring");
    assert!(vault.is_empty());
}

#[test]
fn a_deployed_instance_keeps_its_ports() {
    let mut record = instance();
    let mut vault = Vec::new();
    let entries = vec![entry("LANGGRAPH_PORT", "2024")];
    let context = context(true, None, &[2024], &[]);
    let saved = save_instance_env(entries, &context, &no_files(), &mut record, &mut vault, 9)
        .expect("own port");
    assert!(saved.port_changes.is_empty());
    assert!(saved.warning.is_none());
    assert_eq!(record.status, "needs-restart");
    assert!(record.needs_doctor);
}

#[test]
fn the_manifest_decides_before_the_deployment() {
    let mut record = instance();
    let mut vault = Vec::new();
    let manifest = "[services.langgraph]\nurl = \"http://127.0.0.1:2024\"\n";
    let context = context(false, Some(manifest), &[2024], &[6000]);
    let saved =
        save_instance_env(Vec::new(), &context, &no_files(), &mut record, &mut vault, 9)
            .expect("enough ports");
    assert_eq!(
        saved.lifecycle.as_deref(),
        Some("[services.langgraph]\nurl = \"http://127.0.0.1:6000\"\n")
    );
    assert!(saved.content.starts_with(
        "# langgraph service port (auto-resolved)\nLANGGRAPH_PORT=6000\n"
    ));
}

#[test]
fn other_files_follow_the_environment() {
    let root = parse_env("FRONTEND_PORT=6000\nAPI_URL=http://127.0.0.1:7000\n");
    let mut target = parse_env("api_url=http://x\nVITE_FRONTEND_URL=http://localhost:1/a\nB=1\n");
    synchronize_env_entries(&mut target, &root);
    assert_eq!(target[0].value, "http://127.0.0.1:7000");
    assert_eq!(target[1].value, "http://localhost:6000/a");
    assert_eq!(target[2].value, "1");
    let mut assigned = parse_env("gateway_port=1\n");
    assign_resolved_ports(
        &mut assigned,
        &vec![("GATEWAY_PORT".to_string(), 2), ("APP_PORT".to_string(), 3)],
    );
    assert_eq!(assigned[0].value, "2");
    assert_eq!(assigned[1].comment, "app service port (auto-resolved)");
    assert!(runtime_environment_summary(&root).contains("FRONTEND_PORT"));
    let mut aligned = parse_env("BACKEND_PORT=8000\nBACKEND_URL=http://127.0.0.1:1\n");
    align_loopback_url_ports(&mut aligned);
    assert_eq!(aligned[1].value, "http://127.0.0.1:8000");
}

#[test]
fn configuration_files_are_written_only_when_they_change() {
    let lifecycle = "name = \"One\"\n[services.app]\nurl = \"http://127.0.0.1:5173\"\n";
    let files = ConfigFiles {
        lifecycle: Some(lifecycle.to_string()),
        frontend_example: Some("FRONTEND_PORT=5173\nB=1\n".to_string()),
        frontend: Some("# mine\nb=2\nEXTRA=3\n".to_string()),
        compose: Some("services:\n".to_string()),
    };
    let writes = synchronize_instance_configs_from_env(Some("FRONTEND_PORT=6000\n"), &files, "Two");
    assert_eq!(
        writes.lifecycle.as_deref(),
        Some("name = \"Two\"\n[services.app]\nurl = \"http://127.0.0.1:6000\"\n")
    );
    assert_eq!(
        writes.frontend.as_deref(),
        Some("FRONTEND_PORT=6000\n\n# mine\nB=2\n\nEXTRA=3\n\n")
    );
    assert!(writes.compose.is_none());
    assert_eq!(
        written_paths("/w", &writes, false),
        vec!["/w/.agentseek/lifecycle.toml", "/w/frontend/.env"]
    );
    let none = synchronize_instance_configs_from_env(None, &files, "Two");
    assert!(none.lifecycle.is_none() && none.frontend.is_none() && none.compose.is_none());
    assert_eq!(synchronize_instance_project_name(Some(lifecycle), "One"), None);
    assert_eq!(synchronize_instance_project_name(None, "One"), None);
}

#[test]
fn names_with_quotes_are_written_as_toml_strings() {
    let updated = synchronize_instance_project_name(Some("name = \"a\"\n"), "say \"hi\"")
        .expect("the name changes");
    let table: toml::Table = updated.parse().expect("parse manifest");
    assert_eq!(table["name"].as_str(), Some("say \"hi\""));
}

#[test]
fn ports_of_services_are_collected() {
    let manifests = vec![
        vec![("a".to_string(), "http://h:1/x".to_string())],
        vec![("b".to_string(), "no url".to_string()), ("c".to_string(), "http://h:0".to_string())],
        vec![("d".to_string(), "http://h:2".to_string())],
    ];
    let ports = collect_assigned_ports(&manifests);
    assert_eq!(ports, [1, 2].into_iter().collect::<HashSet<u16>>());
    let own = instance_self_ports(Some("[services.a]\nurl = \"http://127.0.0.1:7\"\n"));
    assert_eq!(own, [7].into_iter().collect::<HashSet<u16>>());
    assert!(instance_self_ports(None).is_empty());
}

#[test]
fn environment_files_are_listed_example_first() {
    let names: Vec<String> = [".envrc", ".env.z", ".env", ".env.example", "x.env"]
        .iter()
        .map(|name| name.to_string())
        .collect();
    let listed = list_env_files(&names);
    assert_eq!(listed[0], ".env.example");
    assert!(listed.iter().all(|name| is_env_file_name(name)));
    let mut rest = listed[1..].to_vec();
    rest.sort();
    assert_eq!(rest, listed[1..].to_vec());
    assert!(!listed.contains(&"x.env".to_string()));
}

#[test]
fn only_environment_files_are_imported_and_exported() {
    let file = |is_file: bool, name: &str| ChosenFile { is_file, name: Some(name.to_string()) };
    assert!(check_import(&file(true, ".env.local")).is_ok());
    let refused = Err("Please select a valid .env file path".to_string());
    assert_eq!(check_import(&file(false, ".env")), refused);
    assert_eq!(check_import(&file(true, "env")), refused);
    assert_eq!(check_import(&ChosenFile { is_file: true, name: None }), refused);

    let target = ExportTarget {
        is_absolute: true,
        name: Some("out".to_string()),
        directory_exists: true,
    };
    let source = file(true, ".env");
    assert!(check_export(&source, &target).is_ok());
    assert_eq!(
        check_export(&file(true, "x"), &target),
        Err("Please select a valid source .env file".to_string())
    );
    let unnamed = Err("Target file must be an absolute path with filename".to_string());
    assert_eq!(
        check_export(&source, &ExportTarget { is_absolute: false, ..target.clone() }),
        unnamed
    );
    assert_eq!(
        check_export(&source, &ExportTarget { name: Some(" ".to_string()), ..target.clone() }),
        unnamed
    );
    assert_eq!(
        check_export(&source, &ExportTarget { directory_exists: false, ..target }),
        Err("Target file directory does not exist".to_string())
    );
}

#[test]
fn merging_again_changes_nothing() {
    let source = vec![
        entry("A", ""),
        entry("WEB_PORT", "3000"),
        entry("TRACE_URL", "http://127.0.0.1:6006"),
        entry("SITE_URL", "http://localhost:1"),
    ];
    let vault = vec![
        EnvVariable { comment: "c".to_string(), ..entry("A", "x") },
        entry("WEB_PORT", "4000"),
        entry("TRACE_URL", "http://phoenix:6006"),
        entry("SITE_URL", "https://example.com"),
    ];
    let once = merge_env_entries(&source, &vault);
    let values: Vec<&str> = once.iter().map(|entry| entry.value.as_str()).collect();
    assert_eq!(values, ["x", "3000", "http://127.0.0.1:6006", "https://example.com"]);
    assert_eq!(once[0].comment, "c");
    assert_eq!(shown(&merge_env_entries(&once, &vault)), shown(&once));
}

#[test]
fn chosen_hosts_are_not_restored() {
    let example = "TRACE_ENDPOINT=http://127.0.0.1:6006/v1/traces\n";
    let mut chosen = vec![entry("TRACE_ENDPOINT", "https://collector.example.com:4318/v1/traces")];
    restore_non_loopback_url_defaults(example, &mut chosen);
    assert_eq!(chosen[0].value, "https://collector.example.com:4318/v1/traces");
    assert!(!chosen[0].modified);
    let mut blank = vec![entry("TRACE_ENDPOINT", "")];
    restore_non_loopback_url_defaults(example, &mut blank);
    assert_eq!(blank[0].value, "http://127.0.0.1:6006/v1/traces");
    assert!(blank[0].modified);
}

#[test]
fn moves_are_followed_once() {
    let changes =
        vec![PortChange { key: "PHOENIX_PORT".to_string(), old_port: 6006, new_port: 64977 }];
    let mut entries = vec![
        entry("A_ENDPOINT", "http://localhost:6006/v1"),
        entry("B_ENDPOINT", "http://localhost:6007/v1"),
        entry("C_ENDPOINT", "http://phoenix:6006/v1"),
        entry("D_ENDPOINT", "http://localhost?x:6006"),
    ];
    sync_endpoint_ports_by_changes(&mut entries, &changes);
    let once = shown(&entries);
    assert_eq!(entries[0].value, "http://localhost:64977/v1");
    assert_eq!(entries[1].value, "http://localhost:6007/v1");
    assert_eq!(entries[2].value, "http://phoenix:6006/v1");
    assert_eq!(entries[3].value, "http://localhost:64977?x:6006");
    sync_endpoint_ports_by_changes(&mut entries, &changes);
    assert_eq!(shown(&entries), once);
    let mut container = vec![entry("PHOENIX_URL", "http://phoenix:6006")];
    sync_port_urls(&mut container, &vec![("PHOENIX_PORT".to_string(), 1)]);
    assert_eq!(container[0].value, "http://phoenix:6006");
}
