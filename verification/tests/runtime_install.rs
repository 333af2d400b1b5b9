use agentseek_desktop::cli::{
    agentseek_update_available, dependency_commands, version_at_least, CliStatus,
};
use agentseek_desktop::models::{
    load_runtime_requirements, DependencyVersion, RuntimeRequirements, RuntimeSources, RuntimeVersions,
};
use agentseek_desktop::runtime_install::{
    posix_runtime_install_script, required_runtime_dependencies, windows_runtime_install_script,
};

fn version(minimum: &str, managed: &str, pinned: &str) -> DependencyVersion {
    DependencyVersion {
        minimum: minimum.to_string(),
        managed: managed.to_string(),
        pinned: pinned.to_string(),
    }
}

fn requirements() -> RuntimeRequirements {
    RuntimeRequirements {
        schema_version: 1,
        versions: RuntimeVersions {
            uv: version("0.7.0", "", ""),
            node: version("20.19.0", "24.18.0", ""),
            npm: version("10.0.0", "11.0.0", ""),
            git: version("2.30.0", "", ""),
            agentseek: version("0.0.4", "", ""),
            nvm: version("", "0.40.3", ""),
            pyseekdb: version("", "", "1.0.0"),
        },
        sources: RuntimeSources {
            uv_installer: "https://astral.sh/uv/install.sh".to_string(),
            uv_installer_windows: None,
            nvm_installer_template: "https://raw.githubusercontent.com/nvm-sh/nvm/v{version}/install.sh"
                .to_string(),
            node_distribution: "https://nodejs.org/dist".to_string(),
            agentseek_package_metadata: "https://pypi.org/pypi/agentseek/json".to_string(),
        },
    }
}

#[test]
fn bundled_runtime_requirements_are_valid() {
    load_runtime_requirements(requirements()).expect("validate requirements");
}

#[test]
fn agentseek_updates_do_not_change_minimum_version_compatibility() {
    assert!(version_at_least("AGENTSEEK v0.0.4", &[0, 0, 4]));
    assert!(agentseek_update_available(
        "AGENTSEEK v0.0.4",
        Some("0.0.5"),
        true
    ));
    assert!(!agentseek_update_available(
        "AGENTSEEK v0.0.5",
        Some("0.0.5"),
        true
    ));
    assert!(!agentseek_update_available(
        "AGENTSEEK v0.0.6",
        Some("0.0.5"),
        true
    ));
    assert!(!agentseek_update_available("AGENTSEEK v0.0.4", None, true));
    assert!(!agentseek_update_available(
        "AGENTSEEK v0.0.4",
        Some("0.0.5"),
        false
    ));
}

#[test]
fn available_agentseek_update_is_included_in_the_install_plan() {
    let status = CliStatus {
        uv_compatible: true,
        node_compatible: true,
        npm_compatible: true,
        cli_compatible: true,
        cli_update_available: true,
        ..CliStatus::default()
    };

    assert_eq!(required_runtime_dependencies(&status), ["agentseek"]);
}

#[test]
fn runtime_install_scripts_use_platform_installers_without_mutating_system_uv() {
    let requirements = requirements();
    let status = CliStatus {
        uv_available: true,
        uv_path: "/usr/local/bin/uv".to_string(),
        node_compatible: true,
        npm_compatible: true,
        cli_compatible: true,
        ..CliStatus::default()
    };
    let task_dir = "/tmp/agentseek-install-task";
    let runtime_root = "/tmp/agentseek-runtime";

    let posix = posix_runtime_install_script(&requirements, &status, task_dir, runtime_root);
    assert!(posix.contains("https://astral.sh/uv/install.sh"));
    assert!(posix.contains("$HOME/.local/bin/uv"));
    assert!(posix.contains("--output \"$installer_file.tmp\""));
    assert!(posix.contains("bash -n \"$installer_file.tmp\""));
    assert!(!posix.contains("| sh"));
    assert!(!posix.contains("uv self update"));
    assert!(!posix.contains("export METHOD=script"));
    assert!(!posix.contains(
        "Installation completed. AgentSeek Desktop will recheck automatically. Press Enter"
    ));
    assert!(!posix
        .chars()
        .any(|character| ('\u{4e00}'..='\u{9fff}').contains(&character)));

    let windows =
        windows_runtime_install_script(&requirements, &status, task_dir, runtime_root, false);
    assert!(windows.contains("https://astral.sh/uv/install.ps1"));
    assert!(windows.contains("Invoke-DownloadWithRetry"));
    assert!(!windows.contains("https://astral.sh/uv/install.sh"));
    assert!(!windows.contains("Read-Host"));
    assert!(!windows.contains("-NoExit"));
    assert!(!windows
        .chars()
        .any(|character| ('\u{4e00}'..='\u{9fff}').contains(&character)));
}

#[test]
fn managed_node_install_uses_private_nvm_and_bundled_npm() {
    let requirements = requirements();
    let commands = dependency_commands(
        &requirements,
        "macos",
        Some("/tmp/agentseek-runtime"),
        true,
        false,
    );
    let command = commands
        .iter()
        .find(|(name, _)| name == "node")
        .map(|(_, command)| command)
        .expect("node install command");

    assert!(command.contains("NVM_DIR=\"/tmp/agentseek-runtime/nvm\""));
    assert!(command.contains("nvm install 24"));
    assert!(command.contains("node --version && npm --version"));
    assert!(!command.contains("install -g npm"));
}
