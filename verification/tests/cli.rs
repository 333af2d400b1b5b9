use agentseek_desktop::cli::{
    meets_requirement, parse_agentseek_package_version, parse_agentseek_version, parse_uv_tool_version,
    version_at_least,
};
use agentseek_desktop::environment::is_secret_env_key;
use agentseek_desktop::models::numeric_version;

#[test]
fn dependency_versions_are_compared_across_command_formats() {
    assert!(version_at_least("uv 0.7.11", &[0, 7, 0]));
    assert!(version_at_least("v20.19.0", &[20, 19, 0]));
    assert!(version_at_least("git version 2.30.0", &[2, 30, 0]));
    assert!(!version_at_least("9.9.0", &[10, 0, 0]));
    assert!(!version_at_least("not installed", &[1, 0, 0]));
}

#[test]
fn only_secret_environment_keys_are_redacted() {
    assert!(is_secret_env_key("OPENAI_API_KEY"));
    assert!(is_secret_env_key("DATABASE_PASSWORD"));
    assert!(!is_secret_env_key("FRONTEND_PORT"));
    assert!(!is_secret_env_key("COPILOTKIT_PORT"));
}

#[test]
fn agentseek_version_is_read_from_uv_tool_list() {
    let output = "agentseek v0.0.4\n- agentseek\n";
    assert_eq!(
        parse_uv_tool_version(output, "agentseek").as_deref(),
        Some("agentseek 0.0.4")
    );
}

#[test]
fn agentseek_version_is_read_after_banner() {
    let output = "    _                    _\n   / \\   __ _  ___ _ __\nAGENTSEEK v0.0.4\n";
    assert_eq!(
        parse_agentseek_version(output).as_deref(),
        Some("AGENTSEEK v0.0.4")
    );
}

#[test]
fn agentseek_latest_version_is_read_from_package_metadata() {
    assert_eq!(
        parse_agentseek_package_version(br#"{"info":{"version":"0.0.5"}}"#)
            .expect("parse package version"),
        "0.0.5"
    );
}

#[test]
fn numeric_version_empty_string_returns_empty_vec() {
    assert!(numeric_version("").is_empty());
}

#[test]
fn numeric_version_non_numeric_returns_empty_vec() {
    assert!(numeric_version("abc").is_empty());
    assert!(numeric_version("no version here").is_empty());
}

#[test]
fn numeric_version_pre_release_suffix_stops_at_suffix() {
    let v = numeric_version("1.2.3-alpha");
    assert_eq!(v, vec![1, 2, 3]);
}

#[test]
fn version_at_least_empty_version_returns_false() {
    assert!(!version_at_least("", &[1, 0]));
}

#[test]
fn meets_requirement_empty_version_returns_false() {
    assert!(!meets_requirement("", "1.0.0"));
}

#[test]
fn meets_requirement_non_numeric_returns_false() {
    assert!(!meets_requirement("abc", "1.0.0"));
}

#[test]
fn meets_requirement_pre_release_version() {
    // "1.2.3-alpha" should parse to [1, 2, 3] and meet "1.2.0"
    assert!(meets_requirement("1.2.3-alpha", "1.2.0"));
    // But should NOT meet "1.3.0"
    assert!(!meets_requirement("1.2.3-alpha", "1.3.0"));
}
