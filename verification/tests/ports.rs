use agentseek_desktop::config_sync::{synchronize_instance_port_configs, written_paths, ConfigFiles};
use agentseek_desktop::environment::parse_env;
use agentseek_desktop::models::EnvVariable;
use agentseek_desktop::ports::{
    is_local_service_port_key, port_is_available, replace_host_port, resolve_deployed_port_conflicts,
    resolve_port_conflicts, HostPorts, PortProbe,
};
use std::collections::HashSet;

/// A machine on which one port is in use and others are offered.
fn host(busy: u16, offers: &[u16]) -> HostPorts {
    HostPorts { busy: [busy].into_iter().collect(), offers: offers.to_vec() }
}

/// A port at which nothing listens.
fn quiet() -> PortProbe {
    PortProbe {
        answers_ipv4: false,
        answers_ipv6: false,
        binds_ipv4: true,
        has_ipv6: true,
        binds_ipv6: true,
    }
}

#[test]
fn local_service_ports_are_reassigned_without_touching_database_ports() {
    let occupied_port: u16 = 5173;
    let free_gateway_port: u16 = 57975;
    let mut entries = vec![
        EnvVariable {
            key: "FRONTEND_PORT".to_string(),
            value: occupied_port.to_string(),
            comment: String::new(),
            source: "template".to_string(),
            modified: false,
        },
        EnvVariable {
            key: "COPILOTKIT_PORT".to_string(),
            value: occupied_port.to_string(),
            comment: String::new(),
            source: "template".to_string(),
            modified: false,
        },
        EnvVariable {
            key: "MYSQL_PORT".to_string(),
            value: occupied_port.to_string(),
            comment: String::new(),
            source: "template".to_string(),
            modified: false,
        },
        EnvVariable {
            key: "COPILOTKIT_RUNTIME_URL".to_string(),
            value: format!("http://127.0.0.1:{occupied_port}/api/copilotkit"),
            comment: String::new(),
            source: "template".to_string(),
            modified: false,
        },
        EnvVariable {
            key: "BUB_AG_UI_PORT".to_string(),
            value: free_gateway_port.to_string(),
            comment: String::new(),
            source: "template".to_string(),
            modified: false,
        },
        EnvVariable {
            key: "BUB_AG_UI_AGENT_URL".to_string(),
            value: "http://127.0.0.1:8088/agent".to_string(),
            comment: String::new(),
            source: "template".to_string(),
            modified: false,
        },
    ];

    let changes = resolve_port_conflicts(&mut entries, &host(occupied_port, &[57980, 57985]))
        .expect("resolve port conflict");

    assert!(is_local_service_port_key("FRONTEND_PORT"));
    assert!(is_local_service_port_key("COPILOTKIT_PORT"));
    assert!(!is_local_service_port_key("MYSQL_PORT"));
    assert_eq!(changes.len(), 2);
    assert_ne!(entries[0].value, occupied_port.to_string());
    assert!(entries[0].modified);
    assert_ne!(entries[1].value, occupied_port.to_string());
    assert!(entries[1].modified);
    assert_eq!(entries[2].value, occupied_port.to_string());
    assert_eq!(
        entries[3].value,
        format!("http://127.0.0.1:{}/api/copilotkit", entries[1].value)
    );
    assert!(entries[3].modified);
    assert_eq!(
        entries[5].value,
        format!("http://127.0.0.1:{free_gateway_port}/agent")
    );
    assert!(entries[5].modified);
}

#[test]
fn deployed_instance_env_keeps_own_ports_but_reassigns_foreign_conflicts() {
    // Port bound by another process but claimed by this instance's own
    // lifecycle.toml → must not be treated as a conflict.
    let self_port: u16 = 5173;
    // Port reserved by another instance (and duplicated within this .env).
    let reserved_port: u16 = 57975;
    let mut entries = vec![
        EnvVariable {
            key: "FRONTEND_PORT".to_string(),
            value: self_port.to_string(),
            comment: String::new(),
            source: "instance".to_string(),
            modified: false,
        },
        EnvVariable {
            key: "GATEWAY_PORT".to_string(),
            value: reserved_port.to_string(),
            comment: String::new(),
            source: "instance".to_string(),
            modified: false,
        },
        EnvVariable {
            key: "BACKEND_PORT".to_string(),
            value: reserved_port.to_string(),
            comment: String::new(),
            source: "instance".to_string(),
            modified: false,
        },
        EnvVariable {
            key: "GATEWAY_URL".to_string(),
            value: format!("http://127.0.0.1:{reserved_port}/agent"),
            comment: String::new(),
            source: "instance".to_string(),
            modified: false,
        },
    ];
    let reserved: HashSet<u16> = [reserved_port].into_iter().collect();
    let self_ports: HashSet<u16> = [self_port].into_iter().collect();

    let changes = resolve_deployed_port_conflicts(
        &mut entries,
        &reserved,
        &self_ports,
        &host(self_port, &[57980, 57985]),
    )
    .expect("resolve deployed port conflicts");

    // Own port stays untouched despite being bound on the host.
    assert_eq!(entries[0].value, self_port.to_string());
    assert!(!entries[0].modified);
    // Reserved port and its in-env duplicate are both reassigned.
    assert_eq!(changes.len(), 2);
    assert_ne!(entries[1].value, reserved_port.to_string());
    assert_ne!(entries[2].value, reserved_port.to_string());
    assert_ne!(entries[1].value, entries[2].value);
    assert!(entries[1].modified);
    assert!(entries[2].modified);
    // URL follows the reassigned gateway port.
    assert_eq!(
        entries[3].value,
        format!("http://127.0.0.1:{}/agent", entries[1].value)
    );
    assert!(entries[3].modified);
}

#[test]
fn reassigned_ports_are_synchronized_to_instance_runtime_configs() {
    let lifecycle = "version = 1\n\
[env.CTX_SERVER_PORT]\ndefault = \"8089\"\n\
[services.app]\nurl = \"http://127.0.0.1:5173\"\n\
[services.gateway]\nurl = \"http://127.0.0.1:8088/agent\"\n\
[services.copilotkit]\nurl = \"http://127.0.0.1:4000/api/copilotkit\"\n\
[services.ctx]\nurl = \"http://127.0.0.1:8089/ctx\"\n\
[checks.frontend]\ntype = \"http\"\ntarget = \"http://127.0.0.1:5173\"\n\
[checks.gateway]\ntype = \"http\"\ntarget = \"http://127.0.0.1:8088/agent/health\"\n\
[checks.copilotkit]\ntype = \"http\"\ntarget = \"http://127.0.0.1:4000/health\"\n\
[checks.ctx]\ntype = \"http\"\ntarget = \"http://127.0.0.1:8089/ctx/health\"\n";
    let frontend_example = "COPILOTKIT_PORT=4000\n\
BUB_AG_UI_AGENT_URL=http://127.0.0.1:8088/agent\n\
VITE_COPILOTKIT_RUNTIME_PROXY=http://127.0.0.1:4000\n\
VITE_BUB_AG_UI_URL=http://127.0.0.1:8088\n\
FRONTEND_PORT=5173\n";
    let files = ConfigFiles {
        lifecycle: Some(lifecycle.to_string()),
        frontend_example: Some(frontend_example.to_string()),
        frontend: None,
        compose: None,
    };
    let entries = parse_env(
        "BUB_AG_UI_PORT=57975\n\
FRONTEND_PORT=57980\n\
COPILOTKIT_PORT=57985\n\
CTX_SERVER_PORT=57990\n\
BUB_AG_UI_AGENT_URL=http://127.0.0.1:57975/agent\n",
    );

    let writes = synchronize_instance_port_configs(&files, &entries);
    let written = written_paths("/tmp/agentseek-desktop-ports", &writes, false);

    assert_eq!(written.len(), 2);
    let updated_lifecycle = writes.lifecycle.expect("write lifecycle");
    assert!(updated_lifecycle.contains("http://127.0.0.1:57980"));
    assert!(updated_lifecycle.contains("http://127.0.0.1:57975/agent"));
    assert!(updated_lifecycle.contains("http://127.0.0.1:57985/api/copilotkit"));
    assert!(updated_lifecycle.contains("default = \"57990\""));
    assert!(updated_lifecycle.contains("http://127.0.0.1:57990/ctx"));
    assert!(updated_lifecycle.contains("http://127.0.0.1:57975/agent/health"));
    assert!(updated_lifecycle.contains("http://127.0.0.1:57985/health"));
    assert!(updated_lifecycle.contains("http://127.0.0.1:57990/ctx/health"));
    assert!(!updated_lifecycle.contains("127.0.0.1:5173"));
    assert!(!updated_lifecycle.contains("127.0.0.1:8088"));
    assert!(!updated_lifecycle.contains("127.0.0.1:4000"));
    assert!(!updated_lifecycle.contains("127.0.0.1:8089"));

    let frontend = writes.frontend.expect("write frontend env");
    assert!(frontend.contains("FRONTEND_PORT=57980"));
    assert!(frontend.contains("COPILOTKIT_PORT=57985"));
    assert!(frontend.contains("BUB_AG_UI_AGENT_URL=http://127.0.0.1:57975/agent"));
    assert!(frontend.contains("VITE_COPILOTKIT_RUNTIME_PROXY=http://127.0.0.1:57985"));
    assert!(frontend.contains("VITE_BUB_AG_UI_URL=http://127.0.0.1:57975"));
    assert!(!written.iter().any(|path| path.ends_with(".env.example")));
}

#[test]
fn ipv6_listener_marks_port_as_occupied() {
    let listening = PortProbe { answers_ipv6: true, binds_ipv6: false, ..quiet() };

    assert!(!port_is_available(listening));
    // Something may hold the port without answering.
    assert!(!port_is_available(PortProbe { binds_ipv6: false, ..quiet() }));
}

#[test]
fn port_is_available_for_port_zero() {
    // Port 0 is the wildcard; binding to it always succeeds.
    assert!(port_is_available(quiet()));
}

#[test]
fn port_is_available_for_high_port() {
    // On a machine without an IPv6 loopback address only IPv4 counts.
    assert!(port_is_available(PortProbe { has_ipv6: false, binds_ipv6: false, ..quiet() }));
}

#[test]
fn port_is_unavailable_when_already_bound() {
    assert!(!port_is_available(PortProbe { answers_ipv4: true, binds_ipv4: false, ..quiet() }));
    assert!(!port_is_available(PortProbe { binds_ipv4: false, ..quiet() }));
}

#[test]
fn replace_host_port_respects_numeric_boundaries() {
    // 6006 must never corrupt 60060/60061 or hosts ending in the needle.
    assert_eq!(
        replace_host_port("http://127.0.0.1:60060/api", "127.0.0.1", 6006, 60663),
        "http://127.0.0.1:60060/api"
    );
    assert_eq!(
        replace_host_port("http://127.0.0.1:6006/api", "127.0.0.1", 6006, 60663),
        "http://127.0.0.1:60663/api"
    );
    assert_eq!(
        replace_host_port("http://localhost:60061/ctx", "localhost", 6006, 60663),
        "http://localhost:60061/ctx"
    );
    assert_eq!(
        replace_host_port("http://localhost:6006", "localhost", 6006, 60663),
        "http://localhost:60663"
    );
    // Multiple occurrences are all rebased.
    assert_eq!(
        replace_host_port(
            "http://127.0.0.1:6006/api http://127.0.0.1:6006/health",
            "127.0.0.1",
            6006,
            60663
        ),
        "http://127.0.0.1:60663/api http://127.0.0.1:60663/health"
    );
}

#[test]
fn rebase_url_ports_keeps_container_internal_endpoints_untouched() {
    // Relay-style instance: PHOENIX_PORT conflicts, but the container-
    // internal OTLP endpoint (http://phoenix:...) must keep its port while
    // the host-reachable loopback URL follows the resolved port.
    let occupied_port: u16 = 6006;
    let mut entries = vec![
        EnvVariable {
            key: "PHOENIX_PORT".to_string(),
            value: occupied_port.to_string(),
            ..EnvVariable::default()
        },
        EnvVariable {
            key: "RELAY_PHOENIX_ENDPOINT".to_string(),
            value: format!("http://phoenix:{occupied_port}/v1/traces"),
            ..EnvVariable::default()
        },
        EnvVariable {
            key: "PHOENIX_URL".to_string(),
            value: format!("http://127.0.0.1:{occupied_port}"),
            ..EnvVariable::default()
        },
    ];
    let changes = resolve_port_conflicts(&mut entries, &host(occupied_port, &[60663]))
        .expect("resolve port conflict");
    assert_eq!(changes.len(), 1);
    let endpoint = entries
        .iter()
        .find(|e| e.key == "RELAY_PHOENIX_ENDPOINT")
        .expect("endpoint entry");
    assert_eq!(
        endpoint.value,
        format!("http://phoenix:{occupied_port}/v1/traces"),
        "container-internal endpoint must keep its in-network port"
    );
    assert!(!endpoint.modified);
    let url = entries
        .iter()
        .find(|e| e.key == "PHOENIX_URL")
        .expect("url entry");
    assert_eq!(url.value, format!("http://127.0.0.1:{}", changes[0].new_port));
    assert!(url.modified, "loopback URL must follow the resolved port");
}

#[test]
fn a_free_port_is_kept() {
    let own: HashSet<u16> = [3000].into_iter().collect();
    let mut entries = parse_env("WEB_PORT=3000\nAPI_PORT=3000\nSITE_URL=http://localhost:3000\n");
    let changes =
        resolve_deployed_port_conflicts(&mut entries, &HashSet::new(), &own, &host(3000, &[4000]))
            .expect("offers");
    assert_eq!(entries[0].value, "3000");
    assert_eq!(entries[1].value, "4000");
    assert_eq!(changes.len(), 1);
}

#[test]
fn endpoints_follow_any_port_that_moved() {
    let mut entries = parse_env(
        "API_PORT=3000\nCOLLECTOR_ENDPOINT=http://0.0.0.0:3000/v1\nINNER_ENDPOINT=http://api:3000\n",
    );
    resolve_port_conflicts(&mut entries, &host(3000, &[4000])).expect("offers");
    assert_eq!(entries[0].value, "4000");
    assert_eq!(entries[1].value, "http://0.0.0.0:4000/v1");
    assert_eq!(entries[2].value, "http://api:3000");
}
