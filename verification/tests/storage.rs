use agentseek_desktop::models::{AppStore, EnvVariable, StorageConfig};
use agentseek_desktop::sources::{find_file_recursive, DirEntry};
use agentseek_desktop::state::{open_storage_engine, DesktopState, EngineChoice, StartupFacts};
use agentseek_desktop::storage::{
    default_storage_config, normalize_storage_database, persisted_config, sanitized_store,
    sqlite_database_path,
};

fn file(name: &str) -> DirEntry {
    DirEntry::File(name.to_string())
}

fn dir(name: &str, entries: Vec<DirEntry>) -> DirEntry {
    DirEntry::Dir(name.to_string(), entries)
}

fn path(names: &[&str]) -> Vec<String> {
    names.iter().map(|name| name.to_string()).collect()
}

#[test]
fn default_storage_is_embedded_seekdb() {
    let config = default_storage_config(false);
    assert_eq!(config.mode, "seekdb_embedded");
    assert_eq!(config.database, "agentseek_desktop");
    assert!(!config.setup_completed);
}

#[test]
fn fresh_start_does_not_create_a_sqlite_database() {
    let config = default_storage_config(false);
    assert!(matches!(
        open_storage_engine("/tmp/agentseek-desktop-first-run", &config, false, false),
        EngineChoice::Pending
    ));

    let facts = StartupFacts {
        config_file_exists: false,
        config_ready: true,
        setup_completed: config.setup_completed,
        database_ready: true,
        credentials_required: false,
        credentials_ready: true,
        database_has_data: false,
        legacy_data_exists: false,
    };
    let data = AppStore { instances: Vec::new(), vault: Vec::new(), logs: Vec::new() };
    let state = DesktopState::load(facts, data, Ok(()), Ok(0), Vec::new());

    assert!(state.storage_setup_required);
    assert!(!state.storage_ready);
    assert!(state.ensure_storage_ready().is_err());
    assert!(state.ensure_storage_configurable().is_ok());
}

#[test]
fn embedded_storage_database_name_is_fixed() {
    for mode in ["sqlite_embedded", "seekdb_embedded"] {
        let mut config = StorageConfig {
            mode: mode.to_string(),
            database: "custom_database".to_string(),
            ..default_storage_config(false)
        };
        normalize_storage_database(&mut config);
        assert_eq!(config.database, "agentseek_desktop");
    }

    let mut server = StorageConfig {
        mode: "seekdb_server".to_string(),
        database: "custom_database".to_string(),
        ..default_storage_config(false)
    };
    normalize_storage_database(&mut server);
    assert_eq!(server.database, "custom_database");

    server.database.clear();
    normalize_storage_database(&mut server);
    assert_eq!(server.database, "agentseek_desktop");
}

#[test]
fn sqlite_database_path_uses_the_selected_directory() {
    let app_data = "/tmp/agentseek-desktop";
    let default_config = default_storage_config(false);
    assert_eq!(
        sqlite_database_path(app_data, &default_config, false),
        format!("{app_data}/agentseek-desktop.sqlite3")
    );

    let custom_config = StorageConfig {
        path: "/tmp/custom-agentseek-data".to_string(),
        ..default_storage_config(false)
    };
    assert_eq!(
        sqlite_database_path(app_data, &custom_config, false),
        "/tmp/custom-agentseek-data/agentseek-desktop.sqlite3"
    );
}

#[test]
fn storage_config_and_backups_exclude_secrets() {
    let config = StorageConfig {
        password: "database-secret".to_string(),
        ..default_storage_config(false)
    };
    let config_text = format!("{:?}", persisted_config(&config));
    assert!(!config_text.contains("database-secret"));

    let store = AppStore {
        instances: Vec::new(),
        vault: vec![EnvVariable {
            key: "API_KEY".to_string(),
            value: "vault-secret".to_string(),
            comment: String::new(),
            source: "vault".to_string(),
            modified: true,
        }],
        logs: Vec::new(),
    };
    let persisted = format!("{:?}", sanitized_store(&store));
    assert!(!persisted.contains("vault-secret"));
    assert!(persisted.contains("API_KEY"));
}

#[test]
fn write_storage_config_excludes_password() {
    let config = StorageConfig {
        mode: "sqlite_embedded".to_string(),
        path: String::new(),
        host: String::new(),
        port: 0,
        tenant: String::new(),
        database: "agentseek.db".to_string(),
        user: String::new(),
        password: "should_not_be_persisted".to_string(),
        runtime_log_retention_days: 7,
        setup_completed: false,
    };
    let content = format!("{:?}", persisted_config(&config));
    assert!(content.contains("sqlite_embedded"));
    assert!(!content.contains("should_not_be_persisted"));
}

#[test]
fn find_file_recursive_finds_top_level() {
    let root = vec![file("Dockerfile")];
    let found = find_file_recursive(&root, "Dockerfile", 5);
    assert_eq!(found, Some(path(&["Dockerfile"])));
}

#[test]
fn find_file_recursive_finds_nested() {
    let root = vec![dir("a", vec![dir("b", vec![dir("c", vec![file("langgraph.json")])])])];
    let found = find_file_recursive(&root, "langgraph.json", 5);
    assert_eq!(found, Some(path(&["a", "b", "c", "langgraph.json"])));
}

#[test]
fn find_file_recursive_respects_depth_limit() {
    let root =
        vec![dir("a", vec![dir("b", vec![dir("c", vec![dir("d", vec![file("Dockerfile")])])])])];
    // File is 4 levels deep; max_depth=3 should not find it.
    assert_eq!(find_file_recursive(&root, "Dockerfile", 3), None);
    // max_depth=5 should find it.
    assert!(find_file_recursive(&root, "Dockerfile", 5).is_some());
}

#[test]
fn find_file_recursive_returns_none_when_missing() {
    let root: Vec<DirEntry> = Vec::new();
    assert_eq!(find_file_recursive(&root, "nonexistent.txt", 5), None);
}
