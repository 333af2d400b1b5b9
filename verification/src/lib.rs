//! The logic of the AgentSeek desktop: how environment files, lifecycle manifests, ports,
//! logs, templates and storage settings are read, decided on and rewritten.

#![verifier::loop_isolation(false)]
pub mod cli;
pub mod command_laws;
pub mod compose;
pub mod compose_laws;
pub mod config_sync;
pub mod decision_laws;
pub mod deployment;
pub mod description_laws;
pub mod env_laws;
pub mod environment;
pub mod file_laws;
pub mod follow_laws;
pub mod instance;
pub mod instance_laws;
pub mod json;
pub mod lifecycle;
pub mod lifecycle_laws;
pub mod log_laws;
pub mod logging;
pub mod manifest_laws;
pub mod mapping_laws;
pub mod models;
pub mod move_laws;
pub mod plan_laws;
pub mod port_laws;
pub mod port_plans;
pub mod ports;
pub mod prepare;
pub mod process_laws;
pub mod process_ports;
pub mod record_laws;
pub mod rewrite;
pub mod run_laws;
pub mod runtime_install;
pub mod save_env;
pub mod setting_laws;
pub mod share_laws;
pub mod source_laws;
pub mod sources;
pub mod state;
pub mod storage;
pub mod storage_switch;
pub mod template_laws;
pub mod templates;
pub mod text;
pub mod urls;
pub mod vault_laws;
pub mod version_laws;
