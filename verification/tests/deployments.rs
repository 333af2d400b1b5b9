use agentseek_desktop::deployment::{
    adopt_instances, begin_stop, command_variables, delete_instance, delete_runtime_logs, deletion_report, install_stage,
    logged_lines, remove_instance, restart_instance, run_and_log, spawn_instance, stop_instance,
    stops_after_failed_start, storing_failures, synchronized_report, terminate_processes, DeletePhase,
    Deployment, InstallPhase, RestartPhase, Started,
};
use agentseek_desktop::instance::{
    apply_info_urls, apply_instance_environment, check_docker, child_process_ids,
    cleanup_docker_containers, docker_compose_check, docker_compose_file, ensure_docker_compose_ready,
    exited_message, output_report, ready_report, timed_out_message,
    finalize_failed_deployment, instance_by_id, instance_target_path, last_lines, listener_process_ids,
    mark_env_edited, newest_first, printable_command, process_executable, remove_instance_work_dir,
    run_instance_cli, stop_instance_process, stop_order, update_instance, validate_target,
    wait_for_instance_ready, ComposeDown, StoppedProcess, TargetState, WaitStep, WorkDirState,
};
use agentseek_desktop::models::{EnvVariable, InstanceRecord, LogEntry, PortChange};
use agentseek_desktop::ports::HostPorts;
use agentseek_desktop::prepare::{
    check_prepare_input, create_arguments, fail_prepared, prepare_instance, NewInstance,
};
use agentseek_desktop::save_env::ManifestText;
use std::collections::HashSet;

fn record(id: &str) -> InstanceRecord {
    InstanceRecord {
        id: id.to_string(),
        name: format!("name of {id}"),
        template_id: "bub/default".to_string(),
        status: "ready-to-install".to_string(),
        deployment_mode: "local".to_string(),
        work_dir: format!("/work/{id}"),
        env_example_path: None,
        env_path: Some(format!("/work/{id}/.env")),
        note: String::new(),
        created_at: 1,
        updated_at: 1,
        needs_doctor: true,
        pid: Some(7),
        agent_url: None,
        ui_url: None,
        studio_url: None,
        project_name: None,
        lifecycle_version: None,
        service_endpoints: Vec::new(),
    }
}

fn texts(values: &[&str]) -> Vec<String> {
    values.iter().map(|value| value.to_string()).collect()
}

fn entry(key: &str, value: &str) -> EnvVariable {
    EnvVariable { key: key.to_string(), value: value.to_string(), ..EnvVariable::default() }
}

#[test]
fn a_deployment_goes_through_its_steps() {
    let mut deployment = Deployment::begin(record("one")).expect("has an environment");
    let mut stages = Vec::new();
    let mut commands = Vec::new();
    let mut now = 10;
    while deployment.phase != InstallPhase::Done {
        stages.push(install_stage(deployment.phase));
        let arguments = deployment.arguments();
        let output = match deployment.phase {
            InstallPhase::List => "  setup   x\n  ingest-docs y\n  db-stop z\n\n build w\n",
            InstallPhase::Info => "Agent: http://127.0.0.1:8088/agent\n",
            _ => "",
        };
        commands.extend(arguments.map(|arguments| arguments.join(" ")));
        if deployment.phase == InstallPhase::Wait {
            assert_eq!(deployment.instance.status, "starting");
        }
        deployment.continue_install(output, now);
        now += 1;
    }
    assert_eq!(
        commands,
        vec!["task --list", "task setup", "task build", "info", "doctor", "dev --dry-run"]
    );
    assert_eq!(stages[0], "tasks");
    assert_eq!(stages.last(), Some(&"starting"));
    assert_eq!(install_stage(deployment.phase), "complete");
    assert_eq!(deployment.instance.status, "running");
    assert!(!deployment.instance.needs_doctor);
    // Compose, ports, list, two tasks, info, doctor, compose again, dry run, start, wait.
    assert_eq!(stages.len(), 11);
    let mut blank = record("two");
    blank.env_path = None;
    assert_eq!(
        Deployment::begin(blank).err().as_deref(),
        Some("Please generate instance .env first")
    );
}

#[test]
fn a_deployment_that_fails_does_not_run() {
    let mut deployment = Deployment::begin(record("one")).expect("has an environment");
    deployment.continue_install("", 2);
    deployment.continue_install("", 3);
    assert_eq!(deployment.instance.status, "installing");
    deployment.give_up();
    assert_eq!(install_stage(deployment.phase), "failed");
    deployment.continue_install("", 4);
    assert_eq!(deployment.phase, InstallPhase::Failed);
    let mut instance = deployment.instance;
    finalize_failed_deployment(&mut instance, false, 5);
    assert_eq!(instance.status, "failed");
    finalize_failed_deployment(&mut instance, true, 6);
    assert_eq!(instance.status, "needs-restart");
}

#[test]
fn a_restart_goes_through_its_steps() {
    let mut instance = record("one");
    let mut phase = RestartPhase::Compose;
    let mut statuses = Vec::new();
    while phase != RestartPhase::Done {
        phase = restart_instance(&mut instance, phase, 9);
        statuses.push(instance.status.clone());
        if phase == RestartPhase::Start {
            assert_eq!(instance.pid, None);
        }
    }
    assert_eq!(
        statuses,
        vec![
            "ready-to-install",
            "restarting",
            "restarting",
            "restarting",
            "restarting",
            "starting",
            "running"
        ]
    );
    assert_eq!(synchronized_report(true, &Vec::new()), None);
    assert_eq!(
        synchronized_report(false, &texts(&["/a", "/b"])).as_deref(),
        Some("Runtime configs updated based on instance .env\n  /a\n  /b")
    );
}

#[test]
fn a_stop_that_fails_restores_the_status() {
    let mut instance = record("one");
    let previous = begin_stop(&mut instance, 2);
    assert_eq!(instance.status, "stopping");
    let (level, message) =
        stop_instance(&mut instance, previous, &Err("stuck".to_string()), 3);
    assert_eq!((level, message.as_str()), ("error", "Failed to stop instance: stuck"));
    assert_eq!(instance.status, "ready-to-install");
    assert_eq!(instance.pid, Some(7));
    let previous = begin_stop(&mut instance, 4);
    let (level, message) = stop_instance(&mut instance, previous, &Ok(()), 5);
    assert_eq!((level, message.as_str()), ("success", "Instance stopped"));
    assert_eq!(instance.status, "stopped");
    assert_eq!(instance.pid, None);
}

#[test]
fn an_instance_is_deleted() {
    let mut instance = record("one");
    delete_instance(&mut instance, DeletePhase::Asked, 2);
    assert_eq!(instance.status, "deleting");
    delete_instance(&mut instance, DeletePhase::Failed, 3);
    assert_eq!(instance.status, "delete-failed");
    delete_instance(&mut instance, DeletePhase::Stopped, 4);
    assert_eq!(instance.pid, None);
    assert_eq!(
        deletion_report(&instance, 2, true),
        "Instance deletion completed\nInstance name: name of one\nInstance ID: one\nWorking directory: /work/one\nProcesses stopped: 2\nDocker containers cleaned: true\nInstance record: deleted"
    );
    let mut all = vec![record("one"), record("two")];
    remove_instance(&mut all, "one");
    assert_eq!(all.len(), 1);
    assert_eq!(all[0].id, "two");
    for (state, expected) in [
        (WorkDirState::Missing, Ok(false)),
        (WorkDirState::Symlink, Err("Refusing to delete symlink instance working directory")),
        (WorkDirState::NotDirectory, Err("Instance working directory is not a directory")),
        (
            WorkDirState::Uncheckable("x".to_string()),
            Err("Failed to check instance working directory: x"),
        ),
        (
            WorkDirState::Unresolvable("x".to_string()),
            Err("Failed to resolve instance working directory: x"),
        ),
        (
            WorkDirState::Directory { is_root: true, is_home: true, is_current: true },
            Err("Refusing to delete filesystem root"),
        ),
        (
            WorkDirState::Directory { is_root: false, is_home: true, is_current: true },
            Err("Refusing to delete user home directory"),
        ),
        (
            WorkDirState::Directory { is_root: false, is_home: false, is_current: true },
            Err("Refusing to delete AgentSeek Desktop current working directory"),
        ),
    ] {
        assert_eq!(
            remove_instance_work_dir(&state),
            expected.map_err(|message| message.to_string())
        );
    }
}

#[test]
fn starting_notes_the_process_or_the_reason() {
    let mut instance = record("one");
    assert_eq!(spawn_instance(&mut instance, Started::Process(42), "agentseek"), Ok(()));
    assert_eq!(instance.pid, Some(42));
    assert_eq!(
        spawn_instance(&mut instance, Started::Containers(false), "docker"),
        Err("Docker Compose failed to start".to_string())
    );
    assert_eq!(instance.pid, Some(42));
    assert_eq!(spawn_instance(&mut instance, Started::Containers(true), "docker"), Ok(()));
    assert_eq!(instance.pid, None);
    assert_eq!(
        spawn_instance(&mut instance, Started::Nothing("not found".to_string()), "agentseek"),
        Err("Failed to start instance: cannot execute agentseek (working directory: /work/one): not found".to_string())
    );
    assert!(stops_after_failed_start(None, false));
    assert!(!stops_after_failed_start(Some(1), false));
    assert!(stops_after_failed_start(Some(1), true));
}

#[test]
fn commands_are_judged_by_their_exit_code() {
    let noise = "sha256:1 5MB / 9MB";
    let stdout = texts(&["one", noise, "sha256:1 9MB / 9MB done"]);
    assert_eq!(logged_lines(&stdout), texts(&["one", "sha256:1 9MB / 9MB done"]));
    let run = run_and_log(Some(0), &stdout, &texts(&["two"]), "tool x", 3);
    assert_eq!(run.level, "success");
    assert_eq!(run.message, "Command completed: tool x (3 seconds)");
    let result = run.result.expect("exit code zero");
    assert_eq!(result.output, "one\nsha256:1 9MB / 9MB done\ntwo");
    let run = run_and_log(None, &texts(&[noise]), &Vec::new(), "tool x", 3);
    assert_eq!(run.level, "error");
    assert_eq!(run.result.err().as_deref(), Some("Command execution failed: tool x"));
    let run = run_and_log(Some(2), &texts(&["bad"]), &Vec::new(), "tool x", 3);
    assert_eq!(run.result.err().as_deref(), Some("bad"));
    assert_eq!(printable_command("a", &texts(&["b"]), &texts(&["c", "d"])), "a b c d");
    let result = run_instance_cli(None, " out", "err \n", "a b".to_string());
    assert_eq!((result.code, result.output.as_str()), (1, "outerr"));
}

#[test]
fn output_of_earlier_runs_is_dropped() {
    let log = |id: &str, instance: &str, category: &str| LogEntry {
        id: id.to_string(),
        instance_id: Some(instance.to_string()),
        instance_name: String::new(),
        category: category.to_string(),
        level: String::new(),
        message: String::new(),
        command: None,
        created_at: 0,
        sequence: 0,
    };
    let mut logs =
        vec![log("a", "one", "runtime"), log("b", "one", "install"), log("c", "two", "runtime")];
    delete_runtime_logs(&mut logs, "one");
    let left: Vec<&str> = logs.iter().map(|log| log.id.as_str()).collect();
    assert_eq!(left, ["b", "c"]);
}

#[test]
fn waiting_ends_when_ready_exited_or_out_of_time() {
    assert_eq!(wait_for_instance_ready(0, false, None), WaitStep::Check);
    assert_eq!(wait_for_instance_ready(299, true, None), WaitStep::Check);
    assert_eq!(wait_for_instance_ready(300, false, None), WaitStep::TimedOut);
    assert_eq!(wait_for_instance_ready(5, true, Some(0)), WaitStep::Ready);
    assert_eq!(wait_for_instance_ready(5, true, Some(1)), WaitStep::Exited);
    assert_eq!(wait_for_instance_ready(5, false, Some(1)), WaitStep::Pause);
    assert_eq!(last_lines("a\nb\nc", 2), "b\nc");
}

#[test]
fn only_processes_of_the_instance_are_stopped() {
    let (own, foreign) =
        listener_process_ids(&vec![1, 2], &vec![(80, "2\n9\nx\n".to_string())]);
    assert_eq!(own, vec![2]);
    assert_eq!(foreign, vec![(9, 80)]);
    assert_eq!(child_process_ids(" 3\n\nx\n4 \n"), vec![3, 4]);
    assert_eq!(stop_order(&vec![5, 1, 5, 3]), vec![1, 3, 5]);
    assert_eq!(process_executable(true, " bash\n"), "bash");
    assert_eq!(process_executable(false, "bash"), "unknown process");
    let stopped = vec![StoppedProcess { pid: 1, executable: "bash".to_string() }];
    assert_eq!(
        stop_instance_process("/w", &stopped, &foreign),
        "Instance associated processes stopped\nWorking directory: /w\nProcess count: 1\nDetails:\n  PID 1  bash\nSkipped unrelated processes listening on instance ports (not part of instance process tree):\n  PID 9 on port 80"
    );
    assert!(terminate_processes(stopped, &Vec::new()).is_ok());
    assert_eq!(
        terminate_processes(Vec::new(), &vec![3, 4]).err().as_deref(),
        Some("Failed to stop the following processes: [3, 4]")
    );
}

#[test]
fn docker_is_asked_for_where_a_project_needs_it() {
    assert_eq!(docker_compose_file(&texts(&["a", "compose.yaml", "compose.yml"])), Some("compose.yml"));
    assert_eq!(docker_compose_file(&texts(&["a"])), None);
    let none = check_docker(false, true, true);
    assert!(!none.compose_v2_available && !none.daemon_running);
    assert_eq!(docker_compose_check(None, none), None);
    assert_eq!(docker_compose_check(Some("compose.yml"), check_docker(true, true, true)), None);
    let message = docker_compose_check(Some("compose.yml"), check_docker(true, false, false))
        .expect("Docker is not ready");
    assert_eq!(
        message,
        "Project contains compose.yml, butDocker Compose V2 not installed, Docker not started. Please install and start Docker before continuing."
    );
    let (logged, told) = ensure_docker_compose_ready(Some(message.clone()), "One").unwrap_err();
    assert_eq!(logged, message);
    assert_eq!(told, "One instance startup process exited, please check lifecycle logs");
    let done = |text: &str| ComposeDown::Done(text.to_string());
    assert_eq!(cleanup_docker_containers(false, &done("Removed")), Ok(false));
    assert_eq!(cleanup_docker_containers(true, &done("x Stopped")), Ok(true));
    assert_eq!(cleanup_docker_containers(true, &done("nothing")), Ok(false));
    assert_eq!(
        cleanup_docker_containers(true, &ComposeDown::Failed(None, " bad \n".to_string())),
        Err("docker compose down failed (exit -1): bad".to_string())
    );
    assert_eq!(
        cleanup_docker_containers(
            true,
            &ComposeDown::Failed(Some(1), "no configuration file provided".to_string())
        ),
        Ok(false)
    );
    assert_eq!(
        cleanup_docker_containers(true, &ComposeDown::NotStarted("x".to_string())),
        Err("Failed to execute docker compose down: x".to_string())
    );
}

#[test]
fn processes_get_the_environment_and_what_is_missing_in_it() {
    let variables =
        apply_instance_environment(&vec![entry("A", "'x'"), entry("BACKEND_PORT", "2024")], false)
            .expect("usable entries");
    let pair = |a: &str, b: &str| (a.to_string(), b.to_string());
    assert_eq!(
        variables,
        vec![
            pair("A", "x"),
            pair("BACKEND_PORT", "2024"),
            pair("VITE_LANGGRAPH_API_URL", "http://127.0.0.1:2024"),
            pair("HF_ENDPOINT", "https://hf-mirror.com"),
        ]
    );
    assert_eq!(
        apply_instance_environment(&vec![entry("A=B", "x")], true).err().as_deref(),
        Some("Instance .env contains invalid variable: A=B")
    );
}

#[test]
fn instances_are_found_updated_and_listed() {
    let mut old = record("one");
    let mut new = record("two");
    old.created_at = 1;
    new.created_at = 2;
    let mut all = vec![old.clone(), new];
    assert_eq!(newest_first(&all)[0].id, "two");
    old.note = "changed".to_string();
    assert_eq!(update_instance(&mut all, old.clone()), Ok(()));
    assert_eq!(instance_by_id(&all, "one").expect("known").note, "changed");
    assert_eq!(instance_by_id(&all, "x").err().as_deref(), Some("Instance not found"));
    assert_eq!(update_instance(&mut all, record("x")), Err("Instance not found".to_string()));
    old.note = "adopted".to_string();
    adopt_instances(&mut all, &vec![old, record("x")]);
    assert_eq!(all.len(), 2);
    assert_eq!(all[0].note, "adopted");
    assert_eq!(
        storing_failures(&texts(&["a: x", "b: y"])),
        "Failed to persist enriched instance(s): a: x; b: y"
    );
    let mut edited = record("one");
    mark_env_edited(&mut edited, true, 9);
    assert_eq!(edited.status, "needs-restart");
    mark_env_edited(&mut edited, false, 9);
    assert_eq!(edited.status, "ready-to-install");
    let mut told = record("one");
    assert!(apply_info_urls(&mut told, "nothing to see\n"));
    assert_eq!(told.agent_url, None);
}

#[test]
fn new_instances_need_a_name_and_a_place() {
    let all = vec![record("one")];
    let fault = |name: &str, dir: &str| check_prepare_input(name, dir, &all).err();
    assert_eq!(fault(" ", "/w").as_deref(), Some("Instance name cannot be empty"));
    assert_eq!(fault(" name of one ", "/w").as_deref(), Some("Instance name already exists"));
    assert_eq!(fault("x", " ").as_deref(), Some("Instance working directory cannot be empty"));
    assert_eq!(fault("x", "/w"), None);
    assert_eq!(validate_target(&TargetState::Absent), Ok(()));
    assert_eq!(validate_target(&TargetState::Empty), Ok(()));
    assert_eq!(
        validate_target(&TargetState::Occupied),
        Err("Target directory must be empty".to_string())
    );
    assert_eq!(
        validate_target(&TargetState::NotDirectory),
        Err("Target path is not a directory".to_string())
    );
    assert_eq!(validate_target(&TargetState::Unreadable("x".to_string())), Err("x".to_string()));
    assert_eq!(
        instance_target_path("/w/", "a\\b", false),
        Err("Instance name cannot contain path separators".to_string())
    );
    assert_eq!(instance_target_path("/w/", " a ", false), Ok("/w/a".to_string()));
    assert_eq!(instance_target_path("C:\\w", "a", true), Ok("C:\\w\\a".to_string()));
    assert_eq!(instance_target_path("C:\\", "a", true), Ok("C:\\a".to_string()));
    assert_eq!(instance_target_path("C:", "a", true), Ok("C:a".to_string()));
    assert_eq!(instance_target_path("C:\\w", "a", false), Ok("C:\\w/a".to_string()));
    assert_eq!(
        create_arguments(true, &texts(&["--flag"]), "bub/default"),
        texts(&["create", "--describe", "--flag", "bub/default"])
    );
    assert_eq!(
        create_arguments(false, &Vec::new(), "bub/default"),
        texts(&["create", "bub/default"])
    );
}

#[test]
fn new_instances_get_ports_for_all_services() {
    let new = NewInstance {
        id: "instance-1".to_string(),
        name: " One ".to_string(),
        template_id: "bub/default".to_string(),
        work_dir: "/w/One".to_string(),
        env_example_path: "/w/One/.env.example".to_string(),
        note: "n".to_string(),
    };
    let manifest = ManifestText {
        content: "a http://h:10 b http://h:20 c http://h:30 d http://h:40".to_string(),
        services: vec![
            ("app".to_string(), "http://h:10".to_string()),
            ("shared".to_string(), "http://h:20".to_string()),
            ("same".to_string(), "http://h:30".to_string()),
            ("own".to_string(), "http://h:40".to_string()),
        ],
    };
    let resolved = vec![("APP_PORT".to_string(), 11), ("OTHER_PORT".to_string(), 30)];
    let changes = vec![PortChange { key: "X_PORT".to_string(), old_port: 20, new_port: 21 }];
    let host = HostPorts { busy: [40].into_iter().collect(), offers: vec![30, 41] };
    let reserved: HashSet<u16> = HashSet::new();
    let vault = vec![entry("MODEL", "m")];
    let prepared = prepare_instance(
        &new,
        "APP_PORT=10\nMODEL=\n",
        Some(&manifest),
        resolved,
        changes,
        &reserved,
        &vault,
        &host,
        5,
    )
    .expect("enough ports");
    assert_eq!(
        prepared.lifecycle.as_deref(),
        Some("a http://h:11 b http://h:21 c http://h:30 d http://h:41")
    );
    assert_eq!(prepared.changes.len(), 2);
    assert_eq!(prepared.changes[1].key, "OWN_PORT");
    assert_eq!(prepared.changes[1].new_port, 41);
    assert_eq!(prepared.env[0].value, "11");
    assert_eq!(prepared.env[1].value, "m");
    assert!(prepared.env.iter().any(|entry| entry.key == "OTHER_PORT" && entry.value == "30"));
    assert_eq!(prepared.instance.name, "One");
    assert_eq!(prepared.instance.status, "configuring");
    let mut instance = prepared.instance;
    assert_eq!(
        fail_prepared(&mut instance, 6),
        "One instance startup process exited, please check lifecycle logs"
    );
    assert_eq!(instance.status, "failed");
}

#[test]
fn waiting_ends_with_a_report() {
    assert_eq!(ready_report(12), "All lifecycle services ready (12 seconds)");
    assert_eq!(
        exited_message("demo"),
        "demo instance startup process exited, please check lifecycle logs"
    );
    let printed: Vec<String> = (0..30).map(|line| format!("line {line}")).collect();
    let told = timed_out_message(&printed.join("\n"));
    assert!(told.starts_with(
        "Timed out waiting for instance services to be ready (300s). Please check lifecycle logs. Last doctor check:\nline 10\n"
    ));
    assert!(told.ends_with("\nline 29"));
    assert_eq!(output_report(""), None);
    assert_eq!(output_report("x").as_deref(), Some("Process output (last 80 lines):\nx"));
    let variables = command_variables();
    assert_eq!(variables[0], ("NPM_CONFIG_PREFER_OFFLINE", "true"));
    assert_eq!(variables[4], ("TQDM_DISABLE", "1"));
}

#[test]
fn a_restart_takes_seven_steps() {
    let mut instance = record("a");
    instance.pid = Some(7);
    instance.needs_doctor = true;
    let mut phase = RestartPhase::Compose;
    for _ in 0..7 {
        assert_ne!(phase, RestartPhase::Done);
        if phase == RestartPhase::Start {
            assert_eq!(instance.pid, None);
            spawn_instance(&mut instance, Started::Process(9), "agentseek").expect("a process");
        }
        phase = restart_instance(&mut instance, phase, 5);
    }
    assert_eq!(phase, RestartPhase::Done);
    assert_eq!(instance.status, "running");
    assert_eq!((instance.pid, instance.needs_doctor, instance.updated_at), (Some(9), false, 5));
}

#[test]
fn a_removed_instance_is_gone() {
    let mut instances = vec![record("a"), record("b"), record("a"), record("c")];
    remove_instance(&mut instances, "a");
    let ids: Vec<&str> = instances.iter().map(|instance| instance.id.as_str()).collect();
    assert_eq!(ids, ["b", "c"]);
}
