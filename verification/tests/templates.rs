use agentseek_desktop::templates::{
    build_create_answers, described_template_path, github_releases_api, has_hidden_ports,
    parse_describe_variables, parse_template_repo_url, patch_cookiecutter_json_for_underscore_ports,
    TemplateConfig,
};

#[test]
fn template_config_defaults() {
    let cfg = TemplateConfig::default();
    assert_eq!(cfg.repo_url, "https://github.com/agentseek-ai/agentseek-templates.git");
    assert!(cfg.checkout.is_empty());
    assert!(cfg.catalog_url.is_empty());
}

#[test]
fn github_releases_api_from_https() {
    let api = github_releases_api("https://github.com/org/repo");
    assert_eq!(api.unwrap(), "https://api.github.com/repos/org/repo/releases/latest");
}

#[test]
fn github_releases_api_from_https_with_git_suffix() {
    let api = github_releases_api("https://github.com/org/repo.git");
    assert_eq!(api.unwrap(), "https://api.github.com/repos/org/repo/releases/latest");
}

#[test]
fn github_releases_api_from_ssh() {
    let api = github_releases_api("git@github.com:org/repo.git");
    assert_eq!(api.unwrap(), "https://api.github.com/repos/org/repo/releases/latest");
}

#[test]
fn github_releases_api_from_non_github() {
    assert!(github_releases_api("https://gitlab.com/org/repo").is_none());
}

#[test]
fn parse_plain_repo_url() {
    let (git_url, checkout) = parse_template_repo_url("https://github.com/agentseek-ai/agentseek-templates.git").unwrap();
    assert_eq!(git_url, "https://github.com/agentseek-ai/agentseek-templates.git");
    assert!(checkout.is_empty());
}

#[test]
fn parse_tree_url() {
    let (git_url, checkout) = parse_template_repo_url("https://github.com/agentseek-ai/agentseek-templates/tree/main").unwrap();
    assert_eq!(git_url, "https://github.com/agentseek-ai/agentseek-templates");
    assert_eq!(checkout, "main");
}

#[test]
fn parse_tree_url_deep_branch() {
    let (git_url, checkout) = parse_template_repo_url("https://github.com/kic635/agentseek-templates/tree/feat/langchain-relay-observability").unwrap();
    assert_eq!(git_url, "https://github.com/kic635/agentseek-templates");
    assert_eq!(checkout, "feat/langchain-relay-observability");
}

#[test]
fn parse_releases_tag_url() {
    let (git_url, checkout) = parse_template_repo_url("https://github.com/agentseek-ai/agentseek-templates/releases/tag/v0.1.0").unwrap();
    assert_eq!(git_url, "https://github.com/agentseek-ai/agentseek-templates");
    assert_eq!(checkout, "v0.1.0");
}

#[test]
fn parse_releases_url_auto() {
    let (git_url, checkout) = parse_template_repo_url("https://github.com/agentseek-ai/agentseek-templates/releases").unwrap();
    assert_eq!(git_url, "https://github.com/agentseek-ai/agentseek-templates");
    assert!(checkout.is_empty());
}

#[test]
fn parse_releases_latest_url_auto() {
    let (git_url, checkout) = parse_template_repo_url("https://github.com/agentseek-ai/agentseek-templates/releases/latest").unwrap();
    assert_eq!(git_url, "https://github.com/agentseek-ai/agentseek-templates");
    assert!(checkout.is_empty());
}

#[test]
fn reject_empty_url() {
    assert!(parse_template_repo_url("").is_err());
    assert!(parse_template_repo_url("   ").is_err());
}

#[test]
fn reject_non_https() {
    assert!(parse_template_repo_url("http://github.com/org/repo").is_err());
    assert!(parse_template_repo_url("git@github.com:org/repo.git").is_err());
}

#[test]
fn reject_empty_branch() {
    assert!(parse_template_repo_url("https://github.com/org/repo/tree/").is_err());
}

#[test]
fn reject_empty_tag() {
    assert!(parse_template_repo_url("https://github.com/org/repo/releases/tag/").is_err());
}

#[test]
fn parse_describe_variables_filters_underscore_prefix() {
    let describe_output = r#"  Template: langchain/default
  ────────────────────────────────────────────────────────────
  Description: LangChain create_agent plus CopilotKit middleware with AgentSeek lifecycle spec.
  Path: /Users/sunchong/.cookiecutters/.l/QuJgJg6gwIqMioIj5hdUBJ4ujSTeN0c_6dU6oxCydto/template/templates/langchain/default
  Cookiecutter variables (13):
    project_name: My LangChain Agent
    project_slug: {{ cookiecutter.project_name.lower().replace(' ', '_').replace('-', '_') }}
    author: Your Name
    system_prompt: You are a helpful UI assistant. Build visual responses using the available co...
    default_model: openai:Pro/zai-org/GLM-5.1
    gateway_port: 8089
    frontend_port: 5174
    copilotkit_port: 4001
    _agentseek_source_path:
    _agentseek_source_path_posix:
    _agentseek_source_path_shell:
    _agentseek_source_url: https://github.com/ob-labs/agentseek.git
    _agentseek_source_ref: 883addad1e2993c4be6fc8ba053f87f25fb5057a
"#;
    let vars = parse_describe_variables(describe_output);
    assert_eq!(
        vars,
        vec![
            "project_name",
            "project_slug",
            "author",
            "system_prompt",
            "default_model",
            "gateway_port",
            "frontend_port",
            "copilotkit_port",
        ]
    );
}

#[test]
fn parse_describe_variables_handles_underscore_port() {
    let describe_output = r#"  Template: deepagents/default
  Cookiecutter variables (10):
    project_name: My DeepAgent
    project_slug: {{ cookiecutter.project_name.lower().replace(' ', '_').replace('-', '_') }}
    author: Your Name
    system_prompt: You are a pragmatic engineering assistant.
    default_model: openai:gpt-4o-mini
    _gateway_port: 18088
    _agentseek_source_path:
    _agentseek_source_path_posix:
    _agentseek_source_url: https://github.com/ob-labs/agentseek.git
    _agentseek_source_ref: 883addad1e2993c4be6fc8ba053f87f25fb5057a
"#;
    let vars = parse_describe_variables(describe_output);
    assert_eq!(
        vars,
        vec!["project_name", "project_slug", "author", "system_prompt", "default_model"]
    );
    // _gateway_port is filtered out (underscore prefix).
}

#[test]
fn build_create_answers_generates_correct_values() {
    let variables = vec![
        "project_name".to_string(),
        "project_slug".to_string(),
        "author".to_string(),
        "system_prompt".to_string(),
        "default_model".to_string(),
        "gateway_port".to_string(),
        "frontend_port".to_string(),
        "copilotkit_port".to_string(),
    ];
    let mut resolved_ports: Vec<(String, u16)> = Vec::new();
    resolved_ports.push(("GATEWAY_PORT".to_string(), 8089));
    resolved_ports.push(("FRONTEND_PORT".to_string(), 5174));
    resolved_ports.push(("COPILOTKIT_PORT".to_string(), 4001));

    let answers = build_create_answers(&variables, "my_test_agent", &resolved_ports);
    let lines: Vec<&str> = answers.lines().collect();

    assert_eq!(lines.len(), 8);
    assert_eq!(lines[0], "my_test_agent"); // project_name
    assert_eq!(lines[1], "my_test_agent"); // project_slug (slugified)
    assert_eq!(lines[2], "AgentSeek Desktop"); // author
    assert_eq!(lines[3], ""); // system_prompt (default)
    assert_eq!(lines[4], ""); // default_model (default)
    assert_eq!(lines[5], "8089"); // gateway_port
    assert_eq!(lines[6], "5174"); // frontend_port
    assert_eq!(lines[7], "4001"); // copilotkit_port
}

#[test]
fn build_create_answers_slugifies_instance_name() {
    let variables = vec!["project_name".to_string(), "project_slug".to_string()];
    let resolved_ports: Vec<(String, u16)> = Vec::new();

    let answers = build_create_answers(&variables, "My Test-Agent", &resolved_ports);
    let lines: Vec<&str> = answers.lines().collect();

    assert_eq!(lines[0], "My Test-Agent"); // project_name (original)
    assert_eq!(lines[1], "my_test_agent"); // project_slug (slugified)
}

#[test]
fn parse_describe_variables_empty_output_returns_empty() {
    assert!(parse_describe_variables("").is_empty());
    assert!(parse_describe_variables("Template: langchain/default\n").is_empty());
}

#[test]
fn patch_underscore_ports_uses_path_from_describe_and_restores() {
    let cookiecutter_json = r#"{
  "project_name": "My Agent",
  "_gateway_port": "18088",
  "_agentseek_source_url": "https://github.com/example/repo.git"
}
"#;
    let describe_output = "  Template: deepagents/default\n  Path: /tmp/template\n  Cookiecutter variables (1):\n    project_name: My Agent\n";
    let mut resolved_ports: Vec<(String, u16)> = Vec::new();
    resolved_ports.push(("_GATEWAY_PORT".to_string(), 18089));

    assert!(has_hidden_ports(&resolved_ports));
    assert_eq!(described_template_path(describe_output).expect("template path"), "/tmp/template");
    let patched =
        patch_cookiecutter_json_for_underscore_ports(cookiecutter_json, &resolved_ports)
            .expect("patch should succeed")
            .expect("patched text should be given");

    assert!(patched.contains("\"_gateway_port\": 18089"), "got: {patched}");
    assert!(patched.contains("\"_agentseek_source_url\""), "must keep other keys: {patched}");
    // The text that is put back afterwards is the one that was read.
    assert!(cookiecutter_json.contains("\"_gateway_port\": \"18088\""));
}

#[test]
fn patch_underscore_ports_keeps_other_numbers() {
    let ports = vec![("_GATEWAY_PORT".to_string(), 18089)];
    let text = "{\"_gateway_port\": 1, \"depth\": -2, \"share\": 0.25, \"size\": 7}";
    let patched = patch_cookiecutter_json_for_underscore_ports(text, &ports)
        .expect("readable")
        .expect("patched");
    assert!(patched.starts_with(
        "{\n  \"_gateway_port\": 18089,\n  \"depth\": -2,\n  \"share\": 0.25,\n  \"size\": 7\n}"
    ));
}

#[test]
fn patch_underscore_ports_skips_without_underscore_ports() {
    let mut resolved_ports: Vec<(String, u16)> = Vec::new();
    resolved_ports.push(("GATEWAY_PORT".to_string(), 8089));

    assert!(!has_hidden_ports(&resolved_ports));
}
