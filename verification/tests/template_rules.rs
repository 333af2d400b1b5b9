use agentseek_desktop::compose::{sync_docker_compose_npm_mirror, sync_docker_compose_port_mappings};
use agentseek_desktop::environment::parse_env;
use agentseek_desktop::json::patch_langgraph_cors_if_needed;
use agentseek_desktop::lifecycle::synchronize_lifecycle_content;
use agentseek_desktop::models::{EnvVariable, PortChange};
use agentseek_desktop::port_plans::{parse_describe_ports, port_change_details, resolve_describe_ports};
use agentseek_desktop::ports::{
    available_ephemeral_port, replace_host_port, resolve_port_conflicts, HostPorts, PortProbe,
};
use agentseek_desktop::sources::{
    find_env_example, patch_source_ports_for_conflicts, patches_extension, skips_source_dir, DirEntry,
};
use agentseek_desktop::templates::{
    build_create_answers, cache_marker, current_template_version, display_name, effective_checkout, ensure_template_cache,
    has_template_update, latest_template_release_tag, parse_describe_variables,
    parse_template_repo_url,
    patch_cookiecutter_json_for_underscore_ports, read_template_config, read_template_index,
    shown_template_config, slugify, template_cache_commit_sha_in, template_repo_flags,
};
use std::collections::HashSet;

#[test]
fn template_indexes_are_read() {
    let templates = read_template_index("{\"bub/default\": \"B\", \"langchain/agentic-rag\": \"R\"}")
        .expect("an index");
    assert_eq!(templates.len(), 2);
    assert_eq!(templates[0].id, "bub/default");
    assert_eq!(templates[0].framework, "bub");
    assert_eq!(templates[1].description, "R");
    assert!(read_template_index("[]").err().expect("no object").starts_with("Invalid templates/index.json: "));
    assert_eq!(display_name("bub/default"), templates[0].name);
    assert!(display_name("x/éa").chars().any(|c| c == 'É'));
}

#[test]
fn template_settings_have_defaults() {
    let config = read_template_config(Some(String::new()), None, None);
    assert_eq!(config.repo_url, "https://github.com/agentseek-ai/agentseek-templates.git");
    let shown = shown_template_config(
        Some("raw".to_string()),
        Some("parsed".to_string()),
        Some("catalog".to_string()),
    );
    assert_eq!((shown.repo_url.as_str(), shown.catalog_url.as_str()), ("raw", "catalog"));
    assert!(shown.checkout.is_empty());
    assert_eq!(effective_checkout("", None), "main");
    assert_eq!(effective_checkout("", Some("v1".to_string())), "v1");
    assert_eq!(effective_checkout("dev", Some("v1".to_string())), "dev");
    assert_eq!(cache_marker("r", Some("c".to_string())), "r|c");
    assert!(ensure_template_cache(None, "r"));
    assert!(!ensure_template_cache(Some(" r|c\n"), "r"));
    assert!(has_template_update("v1", "v2"));
    assert!(!has_template_update("", "v2"));
    assert!(!has_template_update("v2", "v2"));
    let sha = "a".repeat(40);
    assert_eq!(template_cache_commit_sha_in(true, &format!("{sha}\n")), Some(sha));
    assert_eq!(template_cache_commit_sha_in(true, "abc"), None);
    assert_eq!(current_template_version(true, " v1 \n").as_deref(), Some("v1"));
    assert_eq!(latest_template_release_tag(true, b"{\"tag_name\":\" v3 \"}").as_deref(), Some("v3"));
    assert_eq!(latest_template_release_tag(true, b"{}"), None);
    assert_eq!(latest_template_release_tag(false, b"{\"tag_name\":\"v3\"}"), None);
    assert!(template_repo_flags("https://h/o/r", Some("c".to_string())).len() >= 2);
    assert_eq!(slugify("my test-agent"), "my_test_agent");
}

#[test]
fn accepted_addresses_name_a_repository() {
    assert!(parse_template_repo_url("https://github.com/org").is_err());
    let (url, _) = parse_template_repo_url(" https://github.com/org/repo ").expect("a repository");
    assert_eq!(url, "https://github.com/org/repo");
}

#[test]
fn hidden_ports_are_set_in_place() {
    let ports = vec![("_GATEWAY_PORT".to_string(), 9)];
    let patched = patch_cookiecutter_json_for_underscore_ports("{\"a\": 1, \"_gateway_port\": 2}", &ports)
        .expect("JSON")
        .expect("a port to set");
    let value: serde_json::Value = serde_json::from_str(&patched).expect("JSON");
    assert_eq!(value["_gateway_port"], 9);
    assert_eq!(value["a"], 1);
    assert!(patch_cookiecutter_json_for_underscore_ports("{", &ports)
        .err()
        .expect("no JSON")
        .starts_with("Failed to parse cookiecutter.json: "));
}

#[test]
fn described_ports_are_moved_when_taken() {
    let output = "  Cookiecutter variables (3):\n    project_name: x\n    gateway_port: 8089\n    frontend_port: 5174\n";
    let ports = parse_describe_ports(output);
    assert!(ports.contains(&("gateway_port".to_string(), 8089)));
    let reserved: HashSet<u16> = [5174].into_iter().collect();
    let host = HostPorts { busy: HashSet::new(), offers: vec![6000] };
    let (resolved, changes) =
        resolve_describe_ports(output, &reserved, &host).expect("enough ports");
    assert!(resolved.contains(&("GATEWAY_PORT".to_string(), 8089)));
    assert!(resolved.contains(&("FRONTEND_PORT".to_string(), 6000)));
    assert_eq!(changes.len(), 1);
    assert_eq!(port_change_details(&changes), "FRONTEND_PORT: 5174 -> 6000");
    let none = HostPorts { busy: HashSet::new(), offers: Vec::new() };
    assert!(resolve_describe_ports(output, &reserved, &none).is_err());
}

#[test]
fn resolved_ports_are_free_and_distinct() {
    let mut entries: Vec<EnvVariable> = parse_env("A_PORT=80\nB_PORT=80\nC_PORT=81\nMYSQL_PORT=80\nX=80\n");
    let host = HostPorts { busy: [80].into_iter().collect(), offers: vec![81, 82, 83] };
    let changes = resolve_port_conflicts(&mut entries, &host).expect("enough ports");
    assert_eq!(changes.len(), 3);
    let values: Vec<&str> = entries.iter().map(|entry| entry.value.as_str()).collect();
    assert_eq!(values[3..], ["80", "80"]);
    let ports: HashSet<&str> = values[..3].iter().copied().collect();
    assert_eq!(ports.len(), 3);
    assert!(!ports.contains("80"));
    assert_eq!(replace_host_port("localhost:80 localhost:8080", "localhost", 80, 1), "localhost:1 localhost:8080");
}

#[test]
fn a_free_port_is_picked_from_those_of_the_system() {
    let free = PortProbe {
        answers_ipv4: false,
        answers_ipv6: false,
        binds_ipv4: true,
        has_ipv6: false,
        binds_ipv6: false,
    };
    let taken = PortProbe { answers_ipv4: true, ..free };
    assert_eq!(available_ephemeral_port(&vec![(1, taken), (2, free), (3, free)]), Ok(2));
    assert_eq!(
        available_ephemeral_port(&vec![(1, taken)]),
        Err("Failed to find a free port available for both IPv4 and IPv6".to_string())
    );
    let mut late: Vec<(u16, PortProbe)> = (0..64).map(|port| (port, taken)).collect();
    late.push((99, free));
    assert!(available_ephemeral_port(&late).is_err());
}

#[test]
fn source_files_follow_moved_ports() {
    let changes = vec![PortChange { key: "A".to_string(), old_port: 80, new_port: 81 }];
    assert_eq!(
        patch_source_ports_for_conflicts("port=80 x", &changes),
        patch_source_ports_for_conflicts("port=80 x", &changes)
    );
    assert_eq!(
        patch_source_ports_for_conflicts("url http://h:80/", &changes).as_deref(),
        Some("url http://h:81/")
    );
    assert_eq!(patch_source_ports_for_conflicts("nothing 8080", &changes), None);
    assert!(skips_source_dir(".git") && skips_source_dir("node_modules") && !skips_source_dir("src"));
    assert!(patches_extension("py") && !patches_extension("md"));
    let root = vec![
        DirEntry::Dir("a".to_string(), vec![DirEntry::File(".env.example".to_string())]),
        DirEntry::File("b".to_string()),
    ];
    assert_eq!(find_env_example(&root), Some(vec!["a".to_string(), ".env.example".to_string()]));
}

#[test]
fn manifests_that_follow_the_environment_stay() {
    let entries = parse_env("FRONTEND_PORT=6000\nCTX_PORT=7000\n");
    let content = "[services.app]\nurl = 'http://h:1/x' # c\ntarget = \"${URL}\"\n[env.CTX_PORT]\ndefault = \"1\"\n[other]\nurl = \"http://h:1\"";
    let once = synchronize_lifecycle_content(content, &entries);
    assert_eq!(
        once,
        "[services.app]\nurl = 'http://h:6000/x' # c\ntarget = \"${URL}\"\n[env.CTX_PORT]\ndefault = \"7000\"\n[other]\nurl = \"http://h:1\""
    );
    assert_eq!(synchronize_lifecycle_content(&once, &entries), once);
}

#[test]
fn patches_of_containers_are_made_once() {
    let entries = parse_env("WEB_PORT=1\n");
    let compose = "services:\n  web:\n    environment:\n      A: b\n    command: npm install --no-package-lock\n    ports:\n      - \"80:8080\"\n";
    let mapped = sync_docker_compose_port_mappings(compose, &entries);
    assert!(mapped.contains("- \"${WEB_PORT:-80}:8080\""));
    assert_eq!(sync_docker_compose_port_mappings(&mapped, &entries), mapped);
    let mirrored = sync_docker_compose_npm_mirror(&mapped);
    assert!(mirrored.contains("    environment:\n      NPM_CONFIG_REGISTRY: \"https://registry.npmmirror.com\"\n"));
    assert_eq!(sync_docker_compose_npm_mirror(&mirrored), mirrored);
}

#[test]
fn open_settings_stay_open() {
    let file = "{\"http\": {\"cors\": {\"allow_origins\": [\"x\"], \"max_age\": 1.5e3}}}";
    let once = patch_langgraph_cors_if_needed(Some(file)).expect("has settings");
    let twice = patch_langgraph_cors_if_needed(Some(&once)).expect("has settings");
    assert_eq!(once, twice);
    let value: serde_json::Value = serde_json::from_str(&once).expect("JSON");
    assert_eq!(value["http"]["cors"]["max_age"], 1500.0);
}

#[test]
fn each_variable_gets_one_line() {
    let listed = "Cookiecutter variables:\n  project_name: x\n  _hidden: y\n  web_port: 1\n  other:\n\n";
    let variables = parse_describe_variables(listed);
    assert_eq!(variables, ["project_name", "web_port", "other"]);
    let answers =
        build_create_answers(&variables, "My App", &vec![("WEB_PORT".to_string(), 3001)]);
    assert_eq!(answers, "My App\n3001\n\n");
    assert_eq!(answers.lines().count(), variables.len());
}

#[test]
fn a_mirrored_file_stays_as_it_is() {
    let content = "services:\n  web:\n    environment:\n      A: b\n    command: npm install --no-package-lock && npm run dev\n";
    let once = sync_docker_compose_npm_mirror(content);
    assert!(once.contains("NPM_CONFIG_REGISTRY"));
    assert!(!once.contains("--no-package-lock"));
    assert_eq!(sync_docker_compose_npm_mirror(&once), once);
}

#[test]
fn a_service_is_looked_at_above_and_below_its_environment() {
    let above = "services:\n  web:\n    command: npm install\n    environment:\n      A: b\n";
    assert_eq!(
        sync_docker_compose_npm_mirror(above),
        "services:\n  web:\n    command: npm install\n    environment:\n      NPM_CONFIG_REGISTRY: \"https://registry.npmmirror.com\"\n      A: b\n"
    );
    let another = "services:\n  web:\n    command: npm install\n  api:\n    environment:\n      A: b\n";
    assert_eq!(sync_docker_compose_npm_mirror(another), another);
}

#[test]
fn only_the_line_of_a_mapping_changes() {
    let compose = "services:\n  a:\n    ports:\n      - \"80:80\"\n      - 8080:80 \r\n  b:\n    ports:\n      - \"80:80\"\n    # 80:80";
    let entries = parse_env("A_PORT=1\n");
    let once = sync_docker_compose_port_mappings(compose, &entries);
    assert_eq!(
        once,
        "services:\n  a:\n    ports:\n      - \"${A_PORT:-80}:80\"\n      - ${A_PORT:-8080}:80 \r\n  b:\n    ports:\n      - \"80:80\"\n    # 80:80"
    );
    assert_eq!(sync_docker_compose_port_mappings(&once, &entries), once);
    assert_eq!(sync_docker_compose_port_mappings(compose, &parse_env("C_PORT=1\n")), compose);
}

#[test]
fn numbers_behind_a_port_key_are_ports() {
    let change =
        vec![PortChange { key: "BACKEND_PORT".to_string(), old_port: 6006, new_port: 64977 }];
    let patched = |content: &str| patch_source_ports_for_conflicts(content, &change);
    assert_eq!(
        patched("uvicorn.run(app, port=6006)\n").as_deref(),
        Some("uvicorn.run(app, port=64977)\n")
    );
    assert_eq!(patched("PORT=6006").as_deref(), Some("PORT=64977"));
    assert_eq!(patched("run(port=6006)").as_deref(), Some("run(port=64977)"));
    for stays in ["foo=6006", "SOME_KEY=6006", "support=6006", "EXPORT=6006", "port=60066"] {
        assert_eq!(patched(stays), None);
    }
}
