use agentseek_desktop::cli::{
    agentseek_command_version, agentseek_program, cli_parts, command_version, curl_program,
    current_cli_status, distribution_family, highest_versions_first, is_plain_program_name,
    latest_agentseek_version, located_lines, managed_node_bin, meets_requirement, platform_id,
    resolved_program, runtime_path, timeout_message, uv_program, uv_tool_version, version_at_least,
    CliStatus, Download, System, ToolFacts,
};
use agentseek_desktop::models::{
    load_runtime_requirements, truncate_chars, validate_runtime_requirements, DependencyVersion,
    RuntimeRequirements, RuntimeSources, RuntimeVersions,
};
use agentseek_desktop::runtime_install::{
    execute_runtime_install, failed_install, finished_install, install_log_tail, install_script_name,
    launch_runtime_install_terminal, posix_runtime_install_script, powershell_quote,
    prepare_runtime_install_plan, required_runtime_dependencies, run_dependency_command,
    runtime_install_progress, runtime_install_task_dir, shell_quote, windows_runtime_install_script,
    windows_uv_installer, InstallStep, LOG_TAIL_BYTES,
};

fn version(minimum: &str, managed: &str) -> DependencyVersion {
    DependencyVersion {
        minimum: minimum.to_string(),
        managed: managed.to_string(),
        pinned: String::new(),
    }
}

fn requirements() -> RuntimeRequirements {
    RuntimeRequirements {
        schema_version: 1,
        versions: RuntimeVersions {
            uv: version("0.7.0", ""),
            node: version("20.19.0", "24.18.0"),
            npm: version("10.0.0", "11.0.0"),
            git: version("2.30.0", ""),
            agentseek: version("0.0.4", ""),
            nvm: version("", "0.40.3"),
            pyseekdb: version("", ""),
        },
        sources: RuntimeSources {
            uv_installer: "https://uv.example/install.sh".to_string(),
            uv_installer_windows: None,
            nvm_installer_template: "https://nvm.example/v{version}/install.sh".to_string(),
            node_distribution: "https://node.example/dist//".to_string(),
            agentseek_package_metadata: "https://pypi.example/json".to_string(),
        },
    }
}

fn facts() -> ToolFacts {
    ToolFacts {
        platform: "macos".to_string(),
        runtime_root: Some("/r".to_string()),
        node_managed: true,
        uv_path: "/bin/uv".to_string(),
        uv_version: "uv 0.7.1".to_string(),
        cli_version: "AGENTSEEK v0.0.4".to_string(),
        cli_available: true,
        latest_version: Some("0.0.5".to_string()),
        node_version: "v22.0.0".to_string(),
        npm_version: "9.0.0".to_string(),
        git_version: String::new(),
    }
}

fn texts(values: &[&str]) -> Vec<String> {
    values.iter().map(|value| value.to_string()).collect()
}

#[test]
fn quoted_values_are_one_word() {
    assert_eq!(shell_quote("a b"), "'a b'");
    assert_eq!(shell_quote("it's"), "'it'\"'\"'s'");
    assert_eq!(shell_quote(""), "''");
    assert_eq!(powershell_quote("it's"), "'it''s'");
}

#[test]
fn versions_are_compared_number_by_number() {
    assert!(version_at_least("1.10", &[1, 9]));
    assert!(!version_at_least("1.9", &[1, 10]));
    assert!(version_at_least("1", &[1, 0, 0]));
    assert!(meets_requirement("v2.0", "v1.9.9"));
    assert_eq!(
        highest_versions_first(&texts(&["v1.2", "v1.10", "x", "v1.3"])),
        texts(&["v1.10", "v1.3", "v1.2", "x"])
    );
}

#[test]
fn tools_are_judged_by_the_requirements() {
    let status = current_cli_status(&requirements(), &facts());
    assert!(status.uv_compatible && status.node_compatible && status.cli_compatible);
    assert!(!status.npm_compatible && !status.git_compatible && !status.git_available);
    assert!(!status.prerequisites_ready);
    assert!(status.cli_update_available);
    assert_eq!(status.cli_latest_version, "0.0.5");
    assert_eq!(status.minimum_versions[1], ("node".to_string(), "20.19.0".to_string()));
    assert_eq!(required_runtime_dependencies(&status), texts(&["node/npm", "agentseek"]));
    assert_eq!(status.install_command, "uv tool install agentseek");
}

#[test]
fn manifests_are_refused_with_the_first_reason() {
    assert!(load_runtime_requirements(requirements()).is_ok());
    let told = |requirements: RuntimeRequirements| load_runtime_requirements(requirements).err();
    let mut wrong = requirements();
    wrong.schema_version = 2;
    assert_eq!(
        told(wrong).as_deref(),
        Some("Unsupported runtime requirements manifest version: 2")
    );
    let mut wrong = requirements();
    wrong.versions.node.managed = "latest".to_string();
    assert_eq!(
        validate_runtime_requirements(&wrong).err().as_deref(),
        Some("Runtime requirements manifest field versions.node.managed is not a valid version number")
    );
    let mut wrong = requirements();
    wrong.versions.pyseekdb.pinned = "x".to_string();
    assert_eq!(
        told(wrong).as_deref(),
        Some("Runtime requirements manifest field versions.pyseekdb.pinned is not a valid version number")
    );
    let mut wrong = requirements();
    wrong.sources.nvm_installer_template = "https://nvm.example".to_string();
    assert_eq!(
        told(wrong).as_deref(),
        Some("Runtime requirements manifest sources.nvmInstallerTemplate must contain {version}")
    );
    let mut wrong = requirements();
    wrong.sources.node_distribution = "http://node.example".to_string();
    assert_eq!(
        told(wrong).as_deref(),
        Some("Runtime requirements manifest field sources.nodeDistribution must use HTTPS URL")
    );
    let mut wrong = requirements();
    wrong.sources.uv_installer_windows = Some("ftp://x".to_string());
    assert_eq!(
        told(wrong).as_deref(),
        Some("Runtime requirements manifest field sources.uvInstallerWindows must use HTTPS URL")
    );
}

#[test]
fn scripts_hold_the_stages_that_are_needed() {
    let status = current_cli_status(&requirements(), &facts());
    let posix = posix_runtime_install_script(&requirements(), &status, "/t/it's", "/r");
    assert!(posix.starts_with(
        "#!/usr/bin/env bash\nset -eo pipefail\nSTATUS_FILE='/t/it'\"'\"'s/status.json'\n"
    ));
    assert!(posix.contains("\nUV_BIN='/bin/uv'\n"));
    assert!(posix.contains("\nexport NVM_DIR='/r/nvm'\n"));
    assert!(posix.contains("run_shell_installer 'https://nvm.example/v0.40.3/install.sh' nvm || run_shell_installer 'https://gitee.com/mirrors/nvm/raw/v0.40.3/install.sh' nvm; fi\n"));
    assert!(posix.contains("\nexport NVM_SOURCE='https://gitee.com/mirrors/nvm'.git\n"));
    assert!(posix.contains("\nnvm install 24\nnode --version\nnpm --version\nSTAGE=agentseek\n"));
    assert!(posix.ends_with("\ntrap - EXIT\nkill 0\n"));
    assert!(posix.contains("  code=$?\n  if [ \"$code\" -ne 0 ]; then\n"));

    let windows = windows_runtime_install_script(&requirements(), &status, "/t", "/r", true);
    assert!(windows.starts_with("$ErrorActionPreference = 'Stop'\r\n$StatusFile = '/t\\status.json'\r\n"));
    assert!(windows.contains("  $UvBin = '/bin/uv'\r\n"));
    assert!(windows.contains("-Uri 'https://node.example/dist/v24.18.0/node-v24.18.0-win-arm64.zip' "));
    assert!(windows.contains("  $NodeRoot = '/r\\node-v24.18.0-win-arm64'\r\n"));
    assert!(windows.contains("install -g npm@11.0.0\r\n"));
    assert!(windows.ends_with("} finally {\r\n  Stop-Transcript\r\n}\r\n"));
    assert!(!windows.replace("\r\n", "").contains('\n'));

    let bare = CliStatus { uv_path: String::new(), ..status };
    let bare = CliStatus { uv_compatible: false, ..bare };
    let windows = windows_runtime_install_script(&requirements(), &bare, "/t", "/r", false);
    assert!(windows.contains("uv was not found; starting installation."));
    assert!(windows.contains("-Uri 'https://uv.example/install.ps1' "));
    let posix = posix_runtime_install_script(&requirements(), &bare, "/t", "/r");
    assert!(posix.contains("\nrun_shell_installer 'https://uv.example/install.sh' uv\n"));
    let mut named = requirements();
    named.sources.uv_installer_windows = Some("https://uv.example/w.ps1".to_string());
    assert_eq!(windows_uv_installer(&named), "https://uv.example/w.ps1");
}

#[test]
fn a_plan_is_made_only_where_something_is_missing() {
    let status = current_cli_status(&requirements(), &facts());
    let plan = |status: &CliStatus, force: bool, root: Option<&str>| {
        prepare_runtime_install_plan(&requirements(), status, force, root, "/d", "12", false, false)
    };
    let (made, target) = plan(&status, true, Some("/r")).expect("something is missing");
    assert_eq!(made.task_id, "12");
    assert_eq!(made.script_path, "/d/runtime-install/12/install.command");
    assert_eq!(made.install_dir, "/r");
    assert_eq!(made.dependencies, texts(&["node/npm", "agentseek"]));
    assert!(made.script.contains("TASK_DIR='/d/runtime-install/12'\n"));
    assert_eq!(target.as_deref(), Some("0.0.5"));
    assert_eq!(
        plan(&status, false, None).err().as_deref(),
        Some("AgentSeek Desktop private runtime directory not yet initialized")
    );
    let complete = CliStatus {
        npm_compatible: true,
        cli_update_available: false,
        ..status
    };
    assert_eq!(
        plan(&complete, false, Some("/r")).err().as_deref(),
        Some("Current runtime environment already meets requirements")
    );
    assert_eq!(
        plan(&complete, true, Some("/r")).err().as_deref(),
        Some("AgentSeek CLI is already up to date")
    );
    assert_eq!(install_script_name(true), "install.ps1");
}

#[test]
fn terminals_are_tried_in_order() {
    let linux = launch_runtime_install_terminal("/s", false, false);
    let programs: Vec<&str> = linux.iter().map(|terminal| terminal.program.as_str()).collect();
    assert_eq!(programs, ["x-terminal-emulator", "gnome-terminal", "konsole"]);
    assert_eq!(linux[1].arguments, texts(&["--", "bash", "/s"]));
    let macos = launch_runtime_install_terminal("/s", true, false);
    assert_eq!(macos[0].arguments, texts(&["-a", "Terminal", "/s"]));
    let windows = launch_runtime_install_terminal("/s", false, true);
    assert_eq!(windows[0].arguments.last().map(String::as_str), Some("/s"));
    assert_eq!(windows.len(), 1);
}

#[test]
fn progress_is_what_the_script_reported() {
    let shown = runtime_install_progress(Some(" {\"status\":\"running\",\"stage\":\"uv\"}\n"), b" log \n");
    assert_eq!((shown.status.as_str(), shown.stage.as_str()), ("running", "uv"));
    assert_eq!(shown.log, "log");
    let none = runtime_install_progress(None, b"");
    assert_eq!((none.status.as_str(), none.stage.as_str()), ("pending", "pending"));
    let odd = runtime_install_progress(Some("{\"status\": 1}"), b"");
    assert_eq!(odd.status, "pending");
    assert_eq!(execute_runtime_install(Some("{\"status\":\"success\"}")), InstallStep::Check);
    assert_eq!(execute_runtime_install(Some("{\"status\":\"failed\"}")), InstallStep::Failed);
    assert_eq!(execute_runtime_install(Some("{\"status\":\"running\"}")), InstallStep::Wait);
    assert_eq!(execute_runtime_install(Some("not yet")), InstallStep::Wait);
    assert_eq!(execute_runtime_install(None), InstallStep::Wait);
}

#[test]
fn the_end_of_a_log_is_shown() {
    let mut content = vec![b'x'; 10];
    content.extend(vec![b'y'; LOG_TAIL_BYTES]);
    assert_eq!(install_log_tail(&content), "y".repeat(LOG_TAIL_BYTES));
    assert_eq!(install_log_tail(b"a\xff"), "a\u{fffd}");
    assert_eq!(install_log_tail(b""), "");
}

#[test]
fn an_installation_is_judged_by_the_tools() {
    let ready = CliStatus {
        prerequisites_ready: true,
        cli_version: "AGENTSEEK v0.0.5".to_string(),
        ..CliStatus::default()
    };
    assert_eq!(
        finished_install(&ready, Some(" 0.0.5\n"), "/t", false),
        Ok("Runtime environment installation completed\nLog: /t/install.log".to_string())
    );
    assert_eq!(
        finished_install(&ready, Some("0.0.6"), "/t", false),
        Err("AgentSeek CLI upgrade did not reach target version 0.0.6; currently detected AGENTSEEK v0.0.5".to_string())
    );
    assert!(finished_install(&CliStatus::default(), None, "/t", false).is_err());
    assert_eq!(failed_install("boom"), "boom");
    assert!(failed_install("").contains("please check terminal output"));
    assert_eq!(runtime_install_task_dir("/d", "12", false), Ok("/d/runtime-install/12".to_string()));
    for id in ["", "1/2", "..", "١"] {
        assert_eq!(runtime_install_task_dir("/d", id, false), Err("Invalid install task ID".to_string()));
    }
    assert_eq!(run_dependency_command(true, Some(0), " a", "b ", "x"), Ok("ab".to_string()));
    assert_eq!(
        run_dependency_command(false, Some(-9), "", " ", "x"),
        Err("Command execution failed: x (exit status: -9)".to_string())
    );
    assert_eq!(
        run_dependency_command(false, None, "", "", "x"),
        Err("Command execution failed: x (exit status: terminated by system)".to_string())
    );
    assert_eq!(run_dependency_command(false, None, "why", "", "x"), Err("why".to_string()));
}

#[test]
fn programs_are_looked_for_in_order() {
    let paths = runtime_path(
        Some("/r"),
        &texts(&["v20.1.0", "v22.0.0"]),
        Some("/n"),
        Some("/h"),
        &texts(&["/e"]),
        false,
    );
    assert_eq!(paths[0], "/r/nvm/versions/node/v22.0.0/bin");
    assert_eq!(paths[1], "/r/nvm/versions/node/v20.1.0/bin");
    assert_eq!(paths[2..5], ["/n", "/h/.local/bin", "/h/.cargo/bin"]);
    assert_eq!(paths.last().map(String::as_str), Some("/e"));
    assert_eq!(runtime_path(None, &texts(&["v1"]), None, None, &Vec::new(), false).len(), 5);
    assert_eq!(uv_program(None, false).len(), 3);
    assert_eq!(uv_program(Some("/h"), false)[0], "/h/.local/bin/uv");
    assert!(is_plain_program_name("node-20.x_y"));
    for name in ["", "a b", "a;b", "$x"] {
        assert!(!is_plain_program_name(name));
    }
    assert_eq!(located_lines("a\n\n /b \n"), texts(&["/b", "a"]));
    assert_eq!(resolved_program("uv", true, None, false).as_deref(), Some("uv"));
    assert_eq!(
        resolved_program("uv", false, Some("/x".to_string()), true).as_deref(),
        Some("/x")
    );
    assert_eq!(resolved_program("uv", false, Some("/x".to_string()), false), None);
    assert_eq!(agentseek_program(None, None, None), "agentseek");
    assert_eq!(agentseek_program(None, Some("b".to_string()), Some("c".to_string())), "b");
    assert_eq!(cli_parts("a".to_string()), ("a".to_string(), Vec::new()));
    assert_eq!(
        managed_node_bin("24.18.0", false, false, false, &texts(&["v24.1.0", "v24.2.0", "v25.0.0"])),
        texts(&["nvm", "versions", "node", "v24.2.0", "bin"])
    );
    assert_eq!(
        managed_node_bin("24.18.0", true, true, false, &Vec::new()),
        texts(&["node-v24.18.0-win-arm64"])
    );
    assert_eq!(timeout_message("x"), "Command timed out after 600 seconds: x");
    assert_eq!(curl_program(true), "/usr/bin/curl");
}

#[test]
fn platforms_are_told_by_their_distribution() {
    assert_eq!(platform_id(System::MacOs, None), "macos");
    assert_eq!(platform_id(System::Windows, None), "windows");
    assert_eq!(platform_id(System::Linux, None), "linux");
    assert_eq!(platform_id(System::Linux, Some("NAME=x\nID=\"Ubuntu\"\n")), "debian");
    assert_eq!(platform_id(System::Other, Some("ID=debian")), "unknown");
    assert_eq!(distribution_family("rocky"), "rhel");
    assert_eq!(distribution_family("arch"), "linux");
}

#[test]
fn versions_are_read_from_what_tools_print() {
    assert_eq!(command_version(true, "\n  uv 1 \nx", "y").as_deref(), Some("uv 1"));
    assert_eq!(command_version(true, " ", "err 2").as_deref(), Some("err 2"));
    assert_eq!(command_version(false, "uv 1", ""), None);
    assert_eq!(
        agentseek_command_version(true, "banner\nAgentSeek v1.2 \n", "").as_deref(),
        Some("AgentSeek v1.2")
    );
    assert_eq!(
        uv_tool_version(true, "x v1\nagentseek v0.1\n", "", "agentseek").as_deref(),
        Some("agentseek 0.1")
    );
    let finished = |success: bool, body: &str, stderr: &str| Download::Finished {
        success,
        code: Some(22),
        body: body.as_bytes().to_vec(),
        stderr: stderr.to_string(),
    };
    let good = finished(true, "{\"info\":{\"version\":\" 1.2 \"}}", "");
    assert_eq!(latest_agentseek_version(None, &good), Ok("1.2".to_string()));
    assert_eq!(latest_agentseek_version(Some("9".to_string()), &good), Ok("9".to_string()));
    assert_eq!(latest_agentseek_version(Some("x".to_string()), &good), Ok("1.2".to_string()));
    assert_eq!(
        latest_agentseek_version(None, &finished(true, "{}", "")),
        Err("AgentSeek package metadata has no valid latest version".to_string())
    );
    assert_eq!(
        latest_agentseek_version(None, &finished(false, "", " no route ")),
        Err("Failed to query AgentSeek latest version (curl exit status: 22): no route".to_string())
    );
    assert_eq!(
        latest_agentseek_version(None, &Download::NotStarted("x".to_string())),
        Err("Failed to query AgentSeek latest version: x".to_string())
    );
    assert_eq!(truncate_chars("→→→→→", 4), "→...");
    assert_eq!(truncate_chars("→→", 2), "→→");
    assert_eq!(truncate_chars("→→→", 2), "..");
    assert_eq!(truncate_chars("→", 0), "");
    assert_eq!(truncate_chars("→→→→", 3), "...");
}
