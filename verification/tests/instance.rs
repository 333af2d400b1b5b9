use agentseek_desktop::config_sync::list_env_files;
use agentseek_desktop::instance::{instance_target_path, remove_instance_work_dir, WorkDirState};
use agentseek_desktop::json::patch_langgraph_cors_if_needed;
use agentseek_desktop::lifecycle::service_display_name;
use agentseek_desktop::models::{AppStore, LogEntry};
use agentseek_desktop::sources::{
    patch_agent_async_if_needed, patch_convert_models_if_needed, patch_dockerfile_apt_mirror_if_needed,
    patch_dockerfile_mirrors_if_needed, replace_port_in_context,
};
use agentseek_desktop::state::repair_lifecycle_log_categories;

/// Writes a file anew where a patch gives it a new text.
fn write_back(file: &mut String, patched: Option<String>) {
    if let Some(text) = patched {
        *file = text;
    }
}

fn sample_dockerfile_with_uv() -> String {
    [
        "FROM python:3.12-slim AS base",
        "WORKDIR /app",
        "RUN apt-get update && apt-get install -y git",
        "COPY pyproject.toml .",
        "RUN set -e; \\",
        "    if [ -n \"${UV_DEFAULT_INDEX:-}\" ]; then export UV_DEFAULT_INDEX; fi; \\",
        "    if [ -n \"${UV_INDEX_URL:-}\" ]; then export UV_INDEX_URL; fi; \\",
        "    if [ -n \"${UV_INSECURE_HOST:-}\" ]; then export UV_INSECURE_HOST; fi; \\",
        "    UV_LINK_MODE=copy uv sync --no-dev --no-cache",
        "",
    ]
    .join("\n")
}

#[test]
fn replace_port_in_context_only_touches_port_like_contexts() {
    // URL contexts (`:port`) are replaced.
    assert_eq!(
        replace_port_in_context("http://127.0.0.1:6006/api", 6006, 64977),
        "http://127.0.0.1:64977/api"
    );
    // `*_PORT=` assignments are replaced; plain `foo=6006` is untouched.
    assert_eq!(
        replace_port_in_context("PHOENIX_PORT=6006\nSOME_KEY=6006", 6006, 64977),
        "PHOENIX_PORT=64977\nSOME_KEY=6006"
    );
    // Standalone `port` keyword (JSON, quotes, whitespace) is replaced.
    assert_eq!(
        replace_port_in_context("\"port\": 6006", 6006, 64977),
        "\"port\": 64977"
    );
    assert_eq!(
        replace_port_in_context("port 6006", 6006, 64977),
        "port 64977"
    );
    // Words ending in "port" (import/export/support) are NOT matched.
    assert_eq!(
        replace_port_in_context("import 6006", 6006, 64977),
        "import 6006"
    );
    assert_eq!(
        replace_port_in_context("# support 6006 items", 6006, 64977),
        "# support 6006 items"
    );
    // Numbers inside larger digit sequences and IP segments stay untouched.
    assert_eq!(
        replace_port_in_context("port 60067 and 192.168.6006.1", 6006, 64977),
        "port 60067 and 192.168.6006.1"
    );
    // JSON string values that merely look like the port are untouched.
    assert_eq!(
        replace_port_in_context("{\"other\": \"6006\"}", 6006, 64977),
        "{\"other\": \"6006\"}"
    );
}

#[test]
fn lifecycle_services_expose_all_declared_urls() {
    let manifest: toml::Table = toml::from_str(
        "[services.app]\nurl = \"http://127.0.0.1:5173\"\n[services.gateway]\nurl = \"http://127.0.0.1:8088/agent\"\n[services.copilotkit]\nurl = \"http://127.0.0.1:4000/api/copilotkit\"\n",
    )
    .expect("parse lifecycle services");

    assert_eq!(manifest["services"].as_table().expect("services").len(), 3);
    assert_eq!(service_display_name("app"), "Frontend");
    assert_eq!(service_display_name("gateway"), "Agent / Gateway");
    assert_eq!(service_display_name("copilotkit"), "CopilotKit Runtime");
}

#[test]
fn deleting_an_instance_removes_its_working_directory() {
    let root = WorkDirState::Directory { is_root: false, is_home: false, is_current: false };

    let remove = remove_instance_work_dir(&root).expect("remove instance directory");

    assert!(remove);
}

#[test]
fn instance_working_directory_is_parent_plus_instance_name() {
    let parent = "/tmp/agentseek-instances";

    assert_eq!(
        instance_target_path(parent, "rag-development", false).expect("build target file"),
        format!("{parent}/rag-development")
    );
    assert!(instance_target_path(parent, "nested/name", false).is_err());
    assert!(instance_target_path(parent, "..", false).is_err());
}

#[test]
fn env_file_scan_prefers_example_and_ignores_nested_files() {
    // Only the names of the files in the directory itself are handed over.
    let names = [
        ".env",
        ".env.example",
        ".env.development",
        ".env1",
        "README.md",
    ];
    let names: Vec<String> = names.iter().map(|name| name.to_string()).collect();

    let files: Vec<String> = list_env_files(&names)
        .iter()
        .map(|name| format!("/root/{name}"))
        .collect();

    assert_eq!(files.len(), 4);
    assert!(files[0].ends_with("/.env.example"));
    assert!(files.iter().any(|file| file.ends_with("/.env")));
    assert!(files.iter().any(|file| file.ends_with("/.env.development")));
    assert!(files.iter().any(|file| file.ends_with("/.env1")));
    assert!(files.iter().all(|file| !file.contains("frontend")));
}

#[test]
fn historical_desktop_operations_move_to_lifecycle_category() {
    let mut store = AppStore {
        instances: Vec::new(),
        vault: Vec::new(),
        logs: [
            "Instance stopped",
            "Instance associated processes stopped\nWorking directory: /tmp/demo",
            "Doctor passed; instance restarted",
            "Instance processes, working directory, and record deleted",
        ]
        .into_iter()
        .enumerate()
        .map(|(index, message)| LogEntry {
            id: format!("lifecycle-log-{index}"),
            instance_id: Some("instance".to_string()),
            instance_name: "Instance".to_string(),
            category: "runtime".to_string(),
            level: "success".to_string(),
            message: message.to_string(),
            command: None,
            created_at: index as u64,
            sequence: index as u64,
        })
        .collect(),
    };

    assert!(repair_lifecycle_log_categories(&mut store));
    assert!(store.logs.iter().all(|log| log.category == "install"));
}

#[test]
fn apt_mirror_patch_adds_timeout_and_fallback() {
    let mut dockerfile = String::from("RUN apt-get update && apt-get install -y git\n");
    let patched_file = patch_dockerfile_apt_mirror_if_needed(Some(&dockerfile));
    write_back(&mut dockerfile, patched_file);
    let patched = dockerfile.clone();
    assert!(patched.contains("timeout 60"));
    assert!(patched.contains("mirrors.aliyun.com"));
    assert!(!patched.contains("RUN apt-get update &&")); // original replaced
}

#[test]
fn apt_mirror_patch_is_idempotent() {
    let mut dockerfile = String::from("RUN apt-get update && apt-get install -y git\n");
    let patched_file = patch_dockerfile_apt_mirror_if_needed(Some(&dockerfile));
    write_back(&mut dockerfile, patched_file);
    let after_first = dockerfile.clone();
    let patched_file = patch_dockerfile_apt_mirror_if_needed(Some(&dockerfile));
    write_back(&mut dockerfile, patched_file);
    let after_second = dockerfile.clone();
    assert_eq!(after_first, after_second);
}

#[test]
fn apt_mirror_patch_skips_when_no_apt_get_update() {
    let original = "FROM python:3.12\nCMD [\"bash\"]\n";
    let mut dockerfile = String::from(original);
    let patched_file = patch_dockerfile_apt_mirror_if_needed(Some(&dockerfile));
    write_back(&mut dockerfile, patched_file);
    assert_eq!(dockerfile, original);
}

#[test]
fn apt_mirror_patch_skips_when_no_dockerfile() {
    assert!(patch_dockerfile_apt_mirror_if_needed(None).is_none());
}

#[test]
fn mirrors_patch_adds_pypi_fallback() {
    let mut dockerfile = sample_dockerfile_with_uv();
    let patched_file = patch_dockerfile_mirrors_if_needed(Some(&dockerfile));
    write_back(&mut dockerfile, patched_file);
    let patched = dockerfile.clone();
    assert!(patched.contains("mirrors.aliyun.com/pypi/simple/"));
    // Original fi; lines should be replaced with elif chain.
    assert!(patched.contains("elif [ -n \"${UV_INDEX_URL"));
}

#[test]
fn mirrors_patch_is_idempotent() {
    let mut dockerfile = sample_dockerfile_with_uv();
    let patched_file = patch_dockerfile_mirrors_if_needed(Some(&dockerfile));
    write_back(&mut dockerfile, patched_file);
    let after_first = dockerfile.clone();
    let patched_file = patch_dockerfile_mirrors_if_needed(Some(&dockerfile));
    write_back(&mut dockerfile, patched_file);
    let after_second = dockerfile.clone();
    assert_eq!(after_first, after_second);
}

#[test]
fn mirrors_patch_skips_when_no_uv_sync() {
    let original = "FROM python:3.12\nRUN pip install -r requirements.txt\n";
    let mut dockerfile = String::from(original);
    let patched_file = patch_dockerfile_mirrors_if_needed(Some(&dockerfile));
    write_back(&mut dockerfile, patched_file);
    assert_eq!(dockerfile, original);
}

#[test]
fn mirrors_patch_skips_when_no_default_index_marker() {
    // Has uv sync but no UV_DEFAULT_INDEX block.
    let original = "FROM python:3.12\nRUN uv sync --no-dev\n";
    let mut dockerfile = String::from(original);
    let patched_file = patch_dockerfile_mirrors_if_needed(Some(&dockerfile));
    write_back(&mut dockerfile, patched_file);
    assert_eq!(dockerfile, original);
}

#[test]
fn cors_patch_replaces_port_specific_origins() {
    let original: serde_json::Value = serde_json::from_str(
        r#"{
            "graphs": { "agent": "./src/agent.py:graph" },
            "http": {
                "port": 8089,
                "cors": {
                    "allow_origins": ["http://127.0.0.1:5175"],
                    "allow_origin_regex": "^https?://.*:5175$"
                }
            }
        }"#,
    )
    .expect("parse original");
    let mut file = String::from(original.to_string());
    let patched_file = patch_langgraph_cors_if_needed(Some(&file));
    write_back(&mut file, patched_file);
    let patched: serde_json::Value =
        serde_json::from_str(&file).expect("parse");
    let cors = patched["http"]["cors"].as_object().expect("cors object");
    assert_eq!(cors["allow_origin_regex"].as_str(), Some("^https?://.*$"));
    assert!(cors.get("allow_origins").is_none());
    assert_eq!(cors["allow_methods"], serde_json::Value::from(vec!["*"]));
    assert_eq!(cors["allow_headers"], serde_json::Value::from(vec!["*"]));
    // Non-CORS fields should be preserved.
    assert_eq!(patched["http"]["port"], 8089);
    assert_eq!(patched["graphs"]["agent"], "./src/agent.py:graph");
}

#[test]
fn cors_patch_adds_trailing_newline() {
    let mut file = String::from(r#"{"http":{"cors":{"allow_origins":["http://localhost:5175"]}}}"#);
    let patched_file = patch_langgraph_cors_if_needed(Some(&file));
    write_back(&mut file, patched_file);
    let content = file.clone();
    assert!(content.ends_with('\n'), "patched file must end with a newline");
}

#[test]
fn cors_patch_writes_numbers_as_they_were_read() {
    let mut numbers: Vec<String> =
        ["0.1", "-3", "-0.0", "1e300", "18446744073709551615", "18446744073709551616"]
            .iter()
            .map(|number| number.to_string())
            .collect();
    for i in 1..3000u64 {
        let digits = i.wrapping_mul(6364136223846793005) % 100_000_000_000_000_000;
        numbers.push(format!("{}.{:017}", i % 7, digits));
        numbers.push(format!("{digits}e-{}", i % 40));
    }
    for number in numbers {
        let file = format!(
            "{{\"http\":{{\"cors\":{{\"allow_origins\":[]}}}},\"weight\":{number}}}"
        );
        let read: serde_json::Value = serde_json::from_str(&number).expect("number");
        let patched = patch_langgraph_cors_if_needed(Some(&file)).expect("patched");
        let expected = format!("  \"weight\": {read}\n}}\n");
        assert!(patched.ends_with(&expected), "{number} in {patched}");
    }
}

#[test]
fn cors_patch_skips_when_no_cors_section() {
    let original = r#"{"graphs":{"agent":"./src/agent.py:graph"},"http":{"port":8089}}"#;
    let mut file = String::from(original);
    let patched_file = patch_langgraph_cors_if_needed(Some(&file));
    write_back(&mut file, patched_file);
    assert_eq!(file, original);
}

#[test]
fn cors_patch_skips_when_no_langgraph_json() {
    assert!(patch_langgraph_cors_if_needed(None).is_none());
}

#[test]
fn cors_patch_skips_invalid_json() {
    let original = "{not valid json}";
    let mut file = String::from(original);
    let patched_file = patch_langgraph_cors_if_needed(Some(&file));
    write_back(&mut file, patched_file);
    assert_eq!(file, original);
}

#[test]
fn convert_models_patch_replaces_optimum_command() {
    let mut file = String::from("cmd = [sys.executable, \"-m\", \"optimum.exporters.openvino\", \"--model\", model_name]\n");
    let patched_file = patch_convert_models_if_needed(Some(&file));
    write_back(&mut file, patched_file);
    let patched = file.clone();
    assert!(patched.contains("\"optimum-cli\", \"export\", \"openvino\""));
    assert!(!patched.contains("\"-m\", \"optimum.exporters.openvino\""));
}

#[test]
fn convert_models_patch_skips_when_already_patched() {
    let original = "cmd = [\"optimum-cli\", \"export\", \"openvino\", \"--model\", model_name]\n";
    let mut file = String::from(original);
    let patched_file = patch_convert_models_if_needed(Some(&file));
    write_back(&mut file, patched_file);
    assert_eq!(file, original);
}

#[test]
fn convert_models_patch_skips_when_no_marker() {
    let original = "print('hello')\n";
    let mut file = String::from(original);
    let patched_file = patch_convert_models_if_needed(Some(&file));
    write_back(&mut file, patched_file);
    assert_eq!(file, original);
}

#[test]
fn agent_async_patch_adds_shim() {
    let mut file = String::from("from langchain_oceanbase.vectorstores import OceanbaseVectorStore\nprint('hi')\n");
    // pyproject.toml must list langchain-huggingface for the shim to be added.
    let project = "\"langchain-huggingface>=1.0\",\n";
    let patched_file = patch_agent_async_if_needed(Some(&file), Some(project));
    write_back(&mut file, patched_file);
    let patched = file.clone();
    assert!(patched.contains("_patched_agenerate"));
    assert!(patched.contains("_patched_astream"));
    assert!(patched.contains("asyncio.to_thread"));
    // Original marker should still be present.
    assert!(patched.contains("from langchain_oceanbase.vectorstores import OceanbaseVectorStore"));
}

#[test]
fn agent_async_patch_is_idempotent() {
    let mut file = String::from("from langchain_oceanbase.vectorstores import OceanbaseVectorStore\nprint('hi')\n");
    let project = "\"langchain-huggingface>=1.0\",\n";
    let patched_file = patch_agent_async_if_needed(Some(&file), Some(project));
    write_back(&mut file, patched_file);
    let after_first = file.clone();
    let patched_file = patch_agent_async_if_needed(Some(&file), Some(project));
    write_back(&mut file, patched_file);
    let after_second = file.clone();
    assert_eq!(after_first, after_second);
}

#[test]
fn agent_async_patch_skips_when_no_hf_dep() {
    let original = "from langchain_core.prompts import ChatPromptTemplate\nprint('hi')\n";
    let mut file = String::from(original);
    // No langchain-huggingface in pyproject.toml — patch should skip.
    let project = "[project]\n";
    let patched_file = patch_agent_async_if_needed(Some(&file), Some(project));
    write_back(&mut file, patched_file);
    assert_eq!(file, original);
}

#[test]
fn agent_async_patch_skips_with_marker_but_no_hf_dep() {
    let original = "from langchain_oceanbase.vectorstores import OceanbaseVectorStore\nprint('hi')\n";
    let mut file = String::from(original);
    // Has OceanbaseVectorStore marker but no langchain-huggingface dep — should skip.
    let project = "[project]\n";
    let patched_file = patch_agent_async_if_needed(Some(&file), Some(project));
    write_back(&mut file, patched_file);
    assert_eq!(file, original);
}

#[test]
fn agent_async_patch_skips_when_no_agent_py() {
    assert!(patch_agent_async_if_needed(None, None).is_none());
}
