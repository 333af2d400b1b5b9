use agentseek_desktop::environment::{
    append_vault_only_entries, merge_env_entries, parse_env, render_env, restore_non_loopback_url_defaults,
    split_env_value, sync_endpoint_ports_by_changes, sync_env_urls_from_lifecycle, sync_port_urls,
};
use agentseek_desktop::models::{EnvVariable, PortChange};

/// The services of a lifecycle manifest with their URLs, in the order of their names.
fn services(manifest: &str) -> Vec<(String, String)> {
    let table: toml::Table = manifest.parse().expect("parse lifecycle");
    let mut found: Vec<(String, String)> = Vec::new();
    if let Some(services) = table.get("services").and_then(|value| value.as_table()) {
        for (name, service) in services {
            let url = service.get("url").and_then(|value| value.as_str()).unwrap_or("");
            found.push((name.clone(), url.to_string()));
        }
    }
    found
}

#[test]
fn sync_port_urls_rewrites_only_loopback_urls() {
    let mut entries = vec![
        EnvVariable {
            key: "RELAY_PHOENIX_ENDPOINT".to_string(),
            value: "http://phoenix:6006/v1/traces".to_string(),
            ..EnvVariable::default()
        },
        EnvVariable {
            key: "AGENTSEEK_OTEL_EXPORTER_OTLP_TRACES_ENDPOINT".to_string(),
            value: "http://phoenix:6006/v1/traces".to_string(),
            ..EnvVariable::default()
        },
        EnvVariable {
            key: "PHOENIX_URL".to_string(),
            value: "http://127.0.0.1:6006".to_string(),
            ..EnvVariable::default()
        },
        EnvVariable {
            key: "PHOENIX_PORT".to_string(),
            value: "53750".to_string(),
            ..EnvVariable::default()
        },
    ];
    sync_port_urls(&mut entries, &vec![("PHOENIX_PORT".to_string(), 53750)]);
    // Container-internal endpoints keep their in-network port 6006.
    assert_eq!(entries[0].value, "http://phoenix:6006/v1/traces");
    assert_eq!(entries[1].value, "http://phoenix:6006/v1/traces");
    // Host-reachable loopback URLs follow the resolved port.
    assert_eq!(entries[2].value, "http://127.0.0.1:53750");
    // *_PORT entries are left to the dedicated port-map loop.
    assert_eq!(entries[3].value, "53750");
}

#[test]
fn env_round_trip_preserves_comments_and_values() {
    let input = "# API endpoint\nOPENAI_BASE_URL=https://example.com/v1\n\n# Secret\nOPENAI_API_KEY=test-key\n";
    let entries = parse_env(input);

    assert_eq!(entries.len(), 2);
    assert_eq!(entries[0].comment, "API endpoint");
    assert_eq!(entries[1].value, "test-key");

    let rendered = render_env(&entries);
    assert!(rendered.contains("# API endpoint\nOPENAI_BASE_URL=https://example.com/v1"));
    assert!(rendered.contains("# Secret\nOPENAI_API_KEY=test-key"));
}

#[test]
fn empty_vault_values_do_not_hide_template_defaults() {
    let source = parse_env("MODEL=openai:gpt-4o-mini\nPORT=5173\nAPI_KEY=\n");
    let vault = vec![
        EnvVariable {
            key: "MODEL".to_string(),
            value: String::new(),
            comment: "Model name".to_string(),
            source: "instance".to_string(),
            modified: false,
        },
        EnvVariable {
            key: "PORT".to_string(),
            value: "6000".to_string(),
            comment: String::new(),
            source: "instance".to_string(),
            modified: false,
        },
    ];

    let merged = merge_env_entries(&source, &vault);
    assert_eq!(merged[0].value, "openai:gpt-4o-mini");
    assert_eq!(merged[0].source, "template");
    assert_eq!(merged[0].comment, "Model name");
    // Local service ports are instance-specific: vault values must not
    // override the instance's resolved port.
    assert_eq!(merged[1].value, "5173");
    assert_eq!(merged[1].source, "template");
    assert!(merged[2].value.is_empty());
}

#[test]
fn non_port_variables_are_still_overridden_by_vault() {
    let source = parse_env("MODEL=openai:gpt-4o-mini\nAPI_KEY=\n");
    let vault = vec![EnvVariable {
        key: "MODEL".to_string(),
        value: "openai:gpt-4o".to_string(),
        comment: "Model name".to_string(),
        source: "instance".to_string(),
        modified: false,
    }];

    let merged = merge_env_entries(&source, &vault);
    assert_eq!(merged[0].value, "openai:gpt-4o");
    assert_eq!(merged[0].source, "vault");
    assert_eq!(merged[0].comment, "Model name");
}

#[test]
fn vault_only_entries_are_appended_when_exporting() {
    let source = parse_env("EXISTING=source-value\n");
    let vault = vec![
        EnvVariable {
            key: "EXISTING".to_string(),
            value: "vault-value".to_string(),
            comment: String::new(),
            source: "instance".to_string(),
            modified: false,
        },
        EnvVariable {
            key: "VAULT_ONLY".to_string(),
            value: "secret".to_string(),
            comment: "From vault".to_string(),
            source: "instance".to_string(),
            modified: false,
        },
    ];

    let mut entries = merge_env_entries(&source, &vault);
    append_vault_only_entries(&mut entries, &vault);
    // Existing key backfilled from vault, vault-only key appended exactly once.
    assert_eq!(entries.len(), 2);
    assert_eq!(entries[0].value, "vault-value");
    assert_eq!(entries[1].key, "VAULT_ONLY");
    assert_eq!(entries[1].value, "secret");
    assert_eq!(entries[1].comment, "From vault");
}

#[test]
fn exporting_an_empty_source_yields_the_whole_vault() {
    // Regression: a sparse/empty source file used to produce a zero-key
    // export because vault-only entries were never appended.
    let source = parse_env("");
    let vault = vec![
        EnvVariable {
            key: "API_KEY".to_string(),
            value: "k1".to_string(),
            comment: String::new(),
            source: "instance".to_string(),
            modified: false,
        },
        EnvVariable {
            key: "MODEL".to_string(),
            value: "gpt-4o".to_string(),
            comment: String::new(),
            source: "instance".to_string(),
            modified: false,
        },
        EnvVariable {
            key: "".to_string(),
            value: "orphan".to_string(),
            comment: String::new(),
            source: "instance".to_string(),
            modified: false,
        },
    ];

    let mut entries = merge_env_entries(&source, &vault);
    append_vault_only_entries(&mut entries, &vault);
    assert_eq!(entries.len(), 2);
    assert_eq!(entries[0].key, "API_KEY");
    assert_eq!(entries[1].key, "MODEL");
}

#[test]
fn inline_env_comments_are_parsed_without_breaking_hash_values() {
    let entries = parse_env("MODEL=openai:gpt-4o # Default model\nTOKEN=abc#123\n");
    assert_eq!(entries[0].value, "openai:gpt-4o");
    assert_eq!(entries[0].comment, "Default model");
    assert_eq!(entries[1].value, "abc#123");
    assert_eq!(
        split_env_value("\"value # text\" # note").1.as_deref(),
        Some("note")
    );
}

#[test]
fn parse_env_empty_input_returns_empty_vec() {
    let entries = parse_env("");
    assert!(entries.is_empty());
}

#[test]
fn parse_env_whitespace_only_lines_returns_empty_vec() {
    let entries = parse_env("   \n\t\n\n  \t  \n");
    assert!(entries.is_empty());
}

#[test]
fn parse_env_value_with_hash_is_preserved() {
    let entries = parse_env("KEY=value#with#hash");
    assert_eq!(entries.len(), 1);
    assert_eq!(entries[0].key, "KEY");
    // Hash inside a value should be preserved (not treated as comment)
    assert_eq!(entries[0].value, "value#with#hash");
}

#[test]
fn parse_env_duplicate_keys_keep_last() {
    let entries = parse_env("KEY=val1\nKEY=val2\nKEY=val3");
    // parse_env does not deduplicate; all entries are returned
    assert_eq!(entries.len(), 3);
    assert_eq!(entries[2].value, "val3");
}

#[test]
fn parse_env_very_long_value_is_preserved() {
    let long_value = "x".repeat(10_000);
    let input = format!("KEY={long_value}");
    let entries = parse_env(&input);
    assert_eq!(entries.len(), 1);
    assert_eq!(entries[0].value, long_value);
}

#[test]
fn render_env_round_trips_basic_entries() {
    let original = "KEY1=value1\nKEY2=value2\n";
    let entries = parse_env(original);
    let rendered = render_env(&entries);
    assert!(rendered.contains("KEY1=value1"));
    assert!(rendered.contains("KEY2=value2"));
}

#[test]
fn endpoint_ports_follow_resolved_port_changes_only() {
    // An OTLP endpoint referencing the re-assigned default phoenix port
    // must follow the resolved port.
    let changes = vec![
        PortChange {
            key: "PHOENIX_PORT".to_string(),
            old_port: 6006,
            new_port: 64977,
        },
        PortChange {
            key: "FRONTEND_PORT".to_string(),
            old_port: 5173,
            new_port: 5175,
        },
    ];
    let mut entries = parse_env(
        "AGENTSEEK_OTEL_EXPORTER_OTLP_TRACES_ENDPOINT=http://127.0.0.1:6006/v1/traces\n\
         PHOENIX_URL=http://127.0.0.1:64977\n\
         VITE_API_URL=http://127.0.0.1:5175\n",
    );
    sync_endpoint_ports_by_changes(&mut entries, &changes);
    let endpoint = entries
        .iter()
        .find(|e| e.key == "AGENTSEEK_OTEL_EXPORTER_OTLP_TRACES_ENDPOINT")
        .expect("endpoint entry should exist");
    assert_eq!(
        endpoint.value, "http://127.0.0.1:64977/v1/traces",
        "endpoint referencing the re-assigned default port should follow it"
    );
    assert!(endpoint.modified, "endpoint should be marked as modified");

    // Endpoints/URLs already pointing at resolved ports are left alone,
    // even when the port also appears as another service's new port.
    let phoenix_url = entries
        .iter()
        .find(|e| e.key == "PHOENIX_URL")
        .expect("url entry should exist");
    let vite_url = entries
        .iter()
        .find(|e| e.key == "VITE_API_URL")
        .expect("url entry should exist");
    assert_eq!(phoenix_url.value, "http://127.0.0.1:64977");
    assert!(!phoenix_url.modified, "already-resolved URL must not be rewritten");
    assert_eq!(vite_url.value, "http://127.0.0.1:5175");
    assert!(!vite_url.modified, "already-resolved URL must not be rewritten");

    // Re-running with the same changes is idempotent: no port in the
    // values matches any old_port anymore.
    sync_endpoint_ports_by_changes(&mut entries, &changes);
    let endpoint = entries
        .iter()
        .find(|e| e.key == "AGENTSEEK_OTEL_EXPORTER_OTLP_TRACES_ENDPOINT")
        .expect("endpoint entry should exist");
    assert_eq!(endpoint.value, "http://127.0.0.1:64977/v1/traces");
}

#[test]
fn merge_env_entries_ignores_stale_container_host_vault_values() {
    // Template default is loopback; the shared vault holds a stale
    // container-internal value (http://phoenix:6006/v1/traces) saved by an
    // older instance. The vault value must not override the template
    // default for the freshly scaffolded instance.
    let source = parse_env(
        "AGENTSEEK_OTEL_EXPORTER_OTLP_TRACES_ENDPOINT=http://127.0.0.1:6006/v1/traces\n\
         PHOENIX_PORT=56438\n\
         AGENTSEEK_MODEL=openai:glm-4.5\n",
    );
    let vault = parse_env(
        "AGENTSEEK_OTEL_EXPORTER_OTLP_TRACES_ENDPOINT=http://phoenix:6006/v1/traces\n\
         AGENTSEEK_MODEL=openai:glm-5.2\n",
    );
    let merged = merge_env_entries(&source, &vault);
    let endpoint = merged
        .iter()
        .find(|e| e.key == "AGENTSEEK_OTEL_EXPORTER_OTLP_TRACES_ENDPOINT")
        .expect("endpoint entry should exist");
    assert_eq!(
        endpoint.value, "http://127.0.0.1:6006/v1/traces",
        "stale container-host vault value must not override the loopback template default"
    );
    assert_ne!(endpoint.source, "vault");
    // Non-URL vault values still merge normally.
    let model = merged
        .iter()
        .find(|e| e.key == "AGENTSEEK_MODEL")
        .expect("model entry should exist");
    assert_eq!(model.value, "openai:glm-5.2");
    assert_eq!(model.source, "vault");
}

#[test]
fn merge_env_entries_keeps_user_customized_remote_endpoints() {
    // A remote collector host with a domain name is user-customized and
    // must still merge over the loopback template default.
    let source = parse_env("OTEL_EXPORTER_ENDPOINT=http://127.0.0.1:6006/v1/traces\n");
    let vault = parse_env(
        "OTEL_EXPORTER_ENDPOINT=https://collector.example.com:4318/v1/traces\n",
    );
    let merged = merge_env_entries(&source, &vault);
    let endpoint = merged
        .iter()
        .find(|e| e.key == "OTEL_EXPORTER_ENDPOINT")
        .expect("endpoint entry should exist");
    assert_eq!(
        endpoint.value, "https://collector.example.com:4318/v1/traces",
        "user-customized remote endpoint must be kept"
    );
    assert_eq!(endpoint.source, "vault");
}

#[test]
fn sync_env_urls_syncs_localhost_endpoint_without_service_prefix() {
    // AGENTSEEK_OTEL_EXPORTER_OTLP_TRACES_ENDPOINT should auto-follow
    // the Phoenix port from lifecycle.toml even though the variable
    // name doesn't contain "PHOENIX" or "URL".
    let lifecycle = "version = 1\n[services.phoenix]\nurl = \"http://127.0.0.1:64977\"\n";
    let mut entries = parse_env(
        "PHOENIX_PORT=64977\n\
         AGENTSEEK_OTEL_EXPORTER_OTLP_TRACES_ENDPOINT=http://127.0.0.1:6006/v1/traces\n",
    );
    sync_env_urls_from_lifecycle(&services(lifecycle), &mut entries);
    let endpoint = entries
        .iter()
        .find(|e| e.key == "AGENTSEEK_OTEL_EXPORTER_OTLP_TRACES_ENDPOINT")
        .expect("endpoint entry should exist");
    assert_eq!(
        endpoint.value, "http://127.0.0.1:64977/v1/traces",
        "OTLP endpoint should follow Phoenix lifecycle port"
    );
    assert!(endpoint.modified, "endpoint should be marked as modified");
}

#[test]
fn sync_env_urls_otlp_endpoint_follows_phoenix_not_first_service() {
    // When lifecycle.toml lists multiple services with backend first,
    // the OTLP endpoint must still follow the PHOENIX service port
    // rather than the first (backend) port.
    let lifecycle = "version = 1\n\
         [services.backend]\n\
         url = \"http://127.0.0.1:59302\"\n\
         [services.frontend]\n\
         url = \"http://127.0.0.1:5175\"\n\
         [services.phoenix]\n\
         url = \"http://127.0.0.1:59297\"\n";
    let mut entries = parse_env(
        "AGENTSEEK_OTEL_EXPORTER_OTLP_TRACES_ENDPOINT=http://127.0.0.1:6006/v1/traces\n",
    );
    sync_env_urls_from_lifecycle(&services(lifecycle), &mut entries);
    let endpoint = entries
        .iter()
        .find(|e| e.key == "AGENTSEEK_OTEL_EXPORTER_OTLP_TRACES_ENDPOINT")
        .expect("endpoint entry should exist");
    assert_eq!(
        endpoint.value, "http://127.0.0.1:59297/v1/traces",
        "OTLP endpoint should follow the PHOENIX service port"
    );
    assert!(endpoint.modified, "endpoint should be marked as modified");
}

#[test]
fn sync_env_urls_preserves_non_localhost_endpoints() {
    // Remote URLs in ENDPOINT variables should not be modified.
    let lifecycle = "version = 1\n[services.phoenix]\nurl = \"http://127.0.0.1:64977\"\n";
    let mut entries = parse_env(
        "OTEL_EXPORTER_ENDPOINT=https://remote-phoenix.example.com:6006/v1/traces\n",
    );
    sync_env_urls_from_lifecycle(&services(lifecycle), &mut entries);
    let endpoint = entries
        .iter()
        .find(|e| e.key == "OTEL_EXPORTER_ENDPOINT")
        .expect("endpoint entry should exist");
    assert_eq!(
        endpoint.value,
        "https://remote-phoenix.example.com:6006/v1/traces",
        "remote endpoints should not be modified"
    );
    assert!(!endpoint.modified, "remote endpoint should not be modified");
}

#[test]
fn restore_non_loopback_url_defaults_fixes_polluted_container_endpoints() {
    // A container-internal endpoint corrupted by an older rewrite (e.g.
    // phoenix:60663) must be restored to the .env.example default (6006),
    // while already-correct non-loopback endpoints stay untouched.
    let example = "RELAY_PHOENIX_ENDPOINT=http://phoenix:6006/v1/traces\n\
         OTEL_EXPORTER_ENDPOINT=https://collector.example.com:4318/v1/traces\n";
    let mut entries = parse_env(
        "RELAY_PHOENIX_ENDPOINT=http://phoenix:60663/v1/traces\n\
         OTEL_EXPORTER_ENDPOINT=https://collector.example.com:4318/v1/traces\n",
    );
    restore_non_loopback_url_defaults(example, &mut entries);
    let endpoint = entries
        .iter()
        .find(|e| e.key == "RELAY_PHOENIX_ENDPOINT")
        .expect("endpoint entry should exist");
    assert_eq!(
        endpoint.value, "http://phoenix:6006/v1/traces",
        "polluted container-internal endpoint should be restored to the template default"
    );
    assert!(endpoint.modified, "restored endpoint should be marked as modified");
    let remote = entries
        .iter()
        .find(|e| e.key == "OTEL_EXPORTER_ENDPOINT")
        .expect("remote endpoint should exist");
    assert_eq!(remote.value, "https://collector.example.com:4318/v1/traces");
    assert!(!remote.modified, "matching remote endpoint must not be touched");
}

#[test]
fn restore_non_loopback_url_defaults_keeps_customized_remote_hosts() {
    // A user-pointed remote host (different from the example) must never
    // be restored, even when the port happens to match the example.
    let example = "OTEL_EXPORTER_ENDPOINT=https://collector.example.com:4318/v1/traces\n";
    let mut entries = parse_env(
        "OTEL_EXPORTER_ENDPOINT=https://custom-collector.example.com:4318/v1/traces\n",
    );
    restore_non_loopback_url_defaults(example, &mut entries);
    let remote = entries
        .iter()
        .find(|e| e.key == "OTEL_EXPORTER_ENDPOINT")
        .expect("remote endpoint should exist");
    assert_eq!(
        remote.value, "https://custom-collector.example.com:4318/v1/traces",
        "user-customized remote host must not be restored"
    );
    assert!(!remote.modified);
}

#[test]
fn restore_non_loopback_url_defaults_leaves_loopback_entries_alone() {
    // Loopback entries are owned by port conflict resolution; the restore
    // pass must not revert resolved ports back to template defaults.
    let example = "PHOENIX_URL=http://127.0.0.1:6006\n";
    let mut entries = parse_env("PHOENIX_URL=http://127.0.0.1:63320\n");
    restore_non_loopback_url_defaults(example, &mut entries);
    let url = entries
        .iter()
        .find(|e| e.key == "PHOENIX_URL")
        .expect("url entry should exist");
    assert_eq!(url.value, "http://127.0.0.1:63320");
    assert!(!url.modified, "loopback entries are handled by conflict resolution");
}

#[test]
fn restore_non_loopback_url_defaults_restores_container_host_to_loopback_default() {
    // A local-process instance whose OTLP endpoint was rewritten to the
    // container host (http://phoenix:6006/v1/traces) while the template
    // default is loopback must be restored to the template value; the
    // later lifecycle sync aligns the port.
    let example = "AGENTSEEK_OTEL_EXPORTER_OTLP_TRACES_ENDPOINT=http://127.0.0.1:6006/v1/traces\n";
    let mut entries = parse_env(
        "AGENTSEEK_OTEL_EXPORTER_OTLP_TRACES_ENDPOINT=http://phoenix:6006/v1/traces\n",
    );
    restore_non_loopback_url_defaults(example, &mut entries);
    let endpoint = entries
        .iter()
        .find(|e| e.key == "AGENTSEEK_OTEL_EXPORTER_OTLP_TRACES_ENDPOINT")
        .expect("endpoint entry should exist");
    assert_eq!(
        endpoint.value, "http://127.0.0.1:6006/v1/traces",
        "container-host endpoint must be restored to the loopback template default"
    );
    assert!(endpoint.modified);
}
