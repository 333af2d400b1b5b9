//! Deploying, restarting, stopping and deleting an instance: which step follows which, and what
//! each leaves behind in its record.

use crate::instance::{
    CommandResult, StoppedProcess, after_info_from, after_info_line, apply_info_urls,
    command_outcome, command_report, install_tasks, install_tasks_from, is_layer_progress,
    skips_output_line,
};
use crate::models::{instances_view, logs_view, InstanceModel, InstanceRecord, LogEntry, LogModel};
use crate::text::{
    concat2, concat3, concat5, concat6, decimal, decimal_of, join, joined, lines, opt_view, same,
    texts, unicode_lower,
};
use crate::save_env::{indent_paths, indented};
use vstd::prelude::*;
use vstd::string::*;

verus! {

// ---------------------------------------------------------------------------
// Commands of an instance
// ---------------------------------------------------------------------------

/// The lines from `i` on that are logged: all but the progress of image layers.
pub open spec fn logged_from(ls: Seq<Seq<char>>, i: int) -> Seq<Seq<char>>
    decreases ls.len() - i,
{
    if i < 0 || i >= ls.len() {
        Seq::empty()
    } else if is_layer_progress(ls[i]) {
        logged_from(ls, i + 1)
    } else {
        seq![ls[i]] + logged_from(ls, i + 1)
    }
}

/// Keeps the lines of an output that are logged.
pub fn logged_lines(output: &Vec<String>) -> (r: Vec<String>)
    ensures
        texts(r@) == logged_from(texts(output@), 0),
{
    let mut r: Vec<String> = Vec::new();
    assert(texts(r@) == Seq::<Seq<char>>::empty());
    add_logged_lines(&mut r, output);
    assert(Seq::<Seq<char>>::empty() + logged_from(texts(output@), 0) == logged_from(
        texts(output@),
        0,
    ));
    r
}

fn add_logged_lines(r: &mut Vec<String>, output: &Vec<String>)
    ensures
        texts(final(r)@) == texts(old(r)@) + logged_from(texts(output@), 0),
{
    let ghost ls = texts(output@);
    let ghost start = texts(r@);
    let mut i: usize = 0;
    while i < output.len()
        invariant
            i <= output@.len(),
            ls == texts(output@),
            texts(r@) + logged_from(ls, i as int) == start + logged_from(ls, 0),
        decreases output@.len() - i,
    {
        assert(ls[i as int] == output@[i as int]@);
        if !skips_output_line(output[i].as_str()) {
            let ghost before = texts(r@);
            let ghost rest = logged_from(ls, i + 1);
            r.push(output[i].clone());
            assert(texts(r@) == before.push(ls[i as int]));
            assert(before.push(ls[i as int]) + rest == before + (seq![ls[i as int]] + rest));
        }
        i = i + 1;
    }
    assert(texts(r@) + Seq::<Seq<char>>::empty() == texts(r@));
}

/// The variables that commands of an instance get besides those of its own: packages come from
/// the cache where they can, and nothing is printed that is not asked for.
pub fn command_variables() -> (r: Vec<(&'static str, &'static str)>)
    ensures
        r@.map_values(|p: (&'static str, &'static str)| (p.0@, p.1@)) == seq![
            ("NPM_CONFIG_PREFER_OFFLINE"@, "true"@),
            ("NPM_CONFIG_AUDIT"@, "false"@),
            ("NPM_CONFIG_FUND"@, "false"@),
            ("NPM_CONFIG_UPDATE_NOTIFIER"@, "false"@),
            ("TQDM_DISABLE"@, "1"@),
        ],
{
    let r: Vec<(&'static str, &'static str)> = vec![
        ("NPM_CONFIG_PREFER_OFFLINE", "true"),
        ("NPM_CONFIG_AUDIT", "false"),
        ("NPM_CONFIG_FUND", "false"),
        ("NPM_CONFIG_UPDATE_NOTIFIER", "false"),
        ("TQDM_DISABLE", "1"),
    ];
    assert(r@.map_values(|p: (&'static str, &'static str)| (p.0@, p.1@)) == seq![
        ("NPM_CONFIG_PREFER_OFFLINE"@, "true"@),
        ("NPM_CONFIG_AUDIT"@, "false"@),
        ("NPM_CONFIG_FUND"@, "false"@),
        ("NPM_CONFIG_UPDATE_NOTIFIER"@, "false"@),
        ("TQDM_DISABLE"@, "1"@),
    ]);
    r
}

/// How a command ended: what is logged about it, and what it gives.
pub struct CommandRun {
    pub level: String,
    pub message: String,
    pub result: Result<CommandResult, String>,
}

/// Judges a command of an instance by its exit code and its output. A command without an exit
/// code counts as failed.
pub fn run_and_log(
    code: Option<i32>,
    stdout: &Vec<String>,
    stderr: &Vec<String>,
    command: &str,
    seconds: u64,
) -> (r: CommandRun)
    ensures
        ({
            let success = code == Some(0i32);
            let output = joined(
                logged_from(texts(stdout@), 0) + logged_from(texts(stderr@), 0),
                "\n"@,
            );
            &&& r.level@ == (if success {
                "success"@
            } else {
                "error"@
            })
            &&& r.message@ == (if success {
                "Command completed: "@
            } else {
                "Command failed: "@
            }) + command@ + " ("@ + decimal(seconds as nat) + " seconds)"@
            &&& r.result is Ok <==> success
            &&& r.result matches Ok(result) ==> result.code == 0 && result.output@ == output
                && result.command@ == command@
            &&& r.result matches Err(message) ==> message@ == (if output.len() == 0 {
                "Command execution failed: "@ + command@
            } else {
                output
            })
        }),
{
    let mut shown = logged_lines(stdout);
    add_logged_lines(&mut shown, stderr);
    let output = join(&shown, "\n");
    let exit: i32 = match code {
        Some(c) => c,
        None => 1,
    };
    let report = command_report(exit, command, seconds);
    CommandRun {
        level: report.0,
        message: report.1,
        result: command_outcome(exit, output, command.to_owned()),
    }
}

// ---------------------------------------------------------------------------
// Logs of an instance
// ---------------------------------------------------------------------------

/// Whether an entry is part of what an instance printed.
pub open spec fn is_printed_by(log: LogModel, id: Seq<char>) -> bool {
    log.instance_id == Some(id) && log.category == "runtime"@
}

/// The entries from `i` on that an instance did not print.
pub open spec fn without_printed_from(logs: Seq<LogModel>, id: Seq<char>, i: int) -> Seq<LogModel>
    decreases logs.len() - i,
{
    if i < 0 || i >= logs.len() {
        Seq::empty()
    } else if is_printed_by(logs[i], id) {
        without_printed_from(logs, id, i + 1)
    } else {
        seq![logs[i]] + without_printed_from(logs, id, i + 1)
    }
}

/// Drops what an instance printed before.
pub fn delete_runtime_logs(logs: &mut Vec<LogEntry>, instance_id: &str)
    ensures
        logs_view(final(logs)@) == without_printed_from(logs_view(old(logs)@), instance_id@, 0),
{
    let ghost ls = logs_view(logs@);
    let mut kept: Vec<LogEntry> = Vec::new();
    let mut i: usize = 0;
    assert(logs_view(kept@) == Seq::<LogModel>::empty());
    assert(logs_view(kept@) + without_printed_from(ls, instance_id@, 0) == without_printed_from(
        ls,
        instance_id@,
        0,
    ));
    while i < logs.len()
        invariant
            i <= logs@.len(),
            ls == logs_view(logs@),
            logs_view(kept@) + without_printed_from(ls, instance_id@, i as int)
                == without_printed_from(ls, instance_id@, 0),
        decreases logs@.len() - i,
    {
        assert(ls[i as int] == logs@[i as int]@);
        let own: bool = match logs[i].instance_id.as_ref() {
            Some(id) => same(id.as_str(), instance_id),
            None => false,
        };
        if !(own && same(logs[i].category.as_str(), "runtime")) {
            let ghost before = logs_view(kept@);
            let ghost rest = without_printed_from(ls, instance_id@, i + 1);
            kept.push(logs[i].duplicate());
            assert(logs_view(kept@) == before.push(ls[i as int]));
            assert(before.push(ls[i as int]) + rest == before + (seq![ls[i as int]] + rest));
        }
        i = i + 1;
    }
    assert(logs_view(kept@) + Seq::<LogModel>::empty() == logs_view(kept@));
    *logs = kept;
}

// ---------------------------------------------------------------------------
// Starting
// ---------------------------------------------------------------------------

/// What came of starting an instance.
pub enum Started {
    /// Containers were brought up; says whether that succeeded.
    Containers(bool),
    /// A process runs.
    Process(u32),
    /// No process could be started, and why.
    Nothing(String),
}

/// Notes what came of starting an instance, or says why it did not start.
pub fn spawn_instance(instance: &mut InstanceRecord, started: Started, program: &str) -> (r: Result<
    (),
    String,
>)
    ensures
        match started {
            Started::Containers(success) => {
                &&& r is Ok <==> success
                &&& r matches Err(message) ==> message@ == "Docker Compose failed to start"@
                &&& final(instance)@ == (if success {
                    InstanceModel { pid: None, ..old(instance)@ }
                } else {
                    old(instance)@
                })
            },
            Started::Process(pid) => r is Ok && final(instance)@ == (InstanceModel {
                pid: Some(pid),
                ..old(instance)@
            }),
            Started::Nothing(error) => {
                &&& final(instance)@ == old(instance)@
                &&& r matches Err(message) && message@ == "Failed to start instance: cannot execute "@
                    + program@ + " (working directory: "@ + old(instance)@.work_dir + "): "@ + error@
            },
        },
{
    match started {
        Started::Containers(success) => {
            if success {
                instance.pid = None;
                Ok(())
            } else {
                Err("Docker Compose failed to start".to_owned())
            }
        },
        Started::Process(pid) => {
            instance.pid = Some(pid);
            Ok(())
        },
        Started::Nothing(error) => Err(
            concat6(
                "Failed to start instance: cannot execute ",
                program,
                " (working directory: ",
                instance.work_dir.as_str(),
                "): ",
                error.as_str(),
            ),
        ),
    }
}

/// Whether the processes of an instance that did not get ready are to be stopped: unless its
/// process has ended already.
pub fn stops_after_failed_start(pid: Option<u32>, process_runs: bool) -> (r: bool)
    ensures
        r == (pid is None || process_runs),
{
    pid.is_none() || process_runs
}

// ---------------------------------------------------------------------------
// Deployment
// ---------------------------------------------------------------------------

/// The steps of a deployment.
#[derive(Clone, Copy, Debug, PartialEq, Eq, Structural)]
pub enum InstallPhase {
    /// Docker is checked.
    Compose,
    /// Ports are checked again.
    Ports,
    /// The tasks are listed.
    List,
    /// The task at a position is run.
    Task(usize),
    /// The tool is asked about the instance.
    Info,
    /// The configuration is checked.
    Doctor,
    /// Docker is checked again.
    ComposeAgain,
    /// The start is tried out.
    DryRun,
    /// The instance is started.
    Start,
    /// The instance is waited for.
    Wait,
    /// The instance runs.
    Done,
    /// A step failed.
    Failed,
}

/// The step behind one that succeeded.
pub open spec fn next_phase(phase: InstallPhase, tasks: nat) -> InstallPhase {
    match phase {
        InstallPhase::Compose => InstallPhase::Ports,
        InstallPhase::Ports => InstallPhase::List,
        InstallPhase::List => if tasks > 0 {
            InstallPhase::Task(0)
        } else {
            InstallPhase::Info
        },
        InstallPhase::Task(i) => if i + 1 < tasks {
            InstallPhase::Task((i + 1) as usize)
        } else {
            InstallPhase::Info
        },
        InstallPhase::Info => InstallPhase::Doctor,
        InstallPhase::Doctor => InstallPhase::ComposeAgain,
        InstallPhase::ComposeAgain => InstallPhase::DryRun,
        InstallPhase::DryRun => InstallPhase::Start,
        InstallPhase::Start => InstallPhase::Wait,
        InstallPhase::Wait => InstallPhase::Done,
        InstallPhase::Done => InstallPhase::Done,
        InstallPhase::Failed => InstallPhase::Failed,
    }
}

/// The stage of the deployment that is shown during a step.
pub open spec fn stage_name(phase: InstallPhase) -> Seq<char> {
    match phase {
        InstallPhase::Compose => "tasks"@,
        InstallPhase::Ports => "tasks"@,
        InstallPhase::List => "tasks"@,
        InstallPhase::Task(_) => "tasks"@,
        InstallPhase::Info => "tasks"@,
        InstallPhase::Doctor => "doctor"@,
        InstallPhase::ComposeAgain => "doctor"@,
        InstallPhase::DryRun => "dry-run"@,
        InstallPhase::Start => "starting"@,
        InstallPhase::Wait => "starting"@,
        InstallPhase::Done => "complete"@,
        InstallPhase::Failed => "failed"@,
    }
}

pub fn install_stage(phase: InstallPhase) -> (r: &'static str)
    ensures
        r@ == stage_name(phase),
{
    match phase {
        InstallPhase::Compose => "tasks",
        InstallPhase::Ports => "tasks",
        InstallPhase::List => "tasks",
        InstallPhase::Task(_) => "tasks",
        InstallPhase::Info => "tasks",
        InstallPhase::Doctor => "doctor",
        InstallPhase::ComposeAgain => "doctor",
        InstallPhase::DryRun => "dry-run",
        InstallPhase::Start => "starting",
        InstallPhase::Wait => "starting",
        InstallPhase::Done => "complete",
        InstallPhase::Failed => "failed",
    }
}

/// The arguments with which the tool is run in a step, where it is.
pub open spec fn phase_arguments(phase: InstallPhase, tasks: Seq<Seq<char>>) -> Option<
    Seq<Seq<char>>,
> {
    match phase {
        InstallPhase::List => Some(seq!["task"@, "--list"@]),
        InstallPhase::Task(i) => if i < tasks.len() {
            Some(seq!["task"@, tasks[i as int]])
        } else {
            None
        },
        InstallPhase::Info => Some(seq!["info"@]),
        InstallPhase::Doctor => Some(seq!["doctor"@]),
        InstallPhase::DryRun => Some(seq!["dev"@, "--dry-run"@]),
        _ => None,
    }
}

fn pair(a: &str, b: &str) -> (r: Vec<String>)
    ensures
        texts(r@) == seq![a@, b@],
{
    let r: Vec<String> = vec![a.to_owned(), b.to_owned()];
    assert(texts(r@) == seq![a@, b@]);
    r
}

fn single(a: &str) -> (r: Vec<String>)
    ensures
        texts(r@) == seq![a@],
{
    let r: Vec<String> = vec![a.to_owned()];
    assert(texts(r@) == seq![a@]);
    r
}

/// A deployment on its way.
pub struct Deployment {
    pub phase: InstallPhase,
    pub tasks: Vec<String>,
    pub instance: InstanceRecord,
}

/// What a step leaves behind in the record of the instance.
pub open spec fn after_phase(
    instance: InstanceModel,
    phase: InstallPhase,
    output: Seq<char>,
    now: u64,
) -> InstanceModel {
    match phase {
        InstallPhase::Ports => InstanceModel {
            status: "installing"@,
            updated_at: now,
            ..instance
        },
        InstallPhase::Info => after_info_from(instance, lines(output), 0).0,
        InstallPhase::Start => InstanceModel { status: "starting"@, updated_at: now, ..instance },
        InstallPhase::Wait => InstanceModel {
            status: "running"@,
            needs_doctor: false,
            updated_at: now,
            ..instance
        },
        _ => instance,
    }
}

impl Deployment {
    /// Starts a deployment; an instance without an environment file cannot be deployed.
    pub fn begin(instance: InstanceRecord) -> (r: Result<Deployment, String>)
        ensures
            r is Ok <==> instance@.env_path is Some,
            r matches Ok(d) ==> d.phase == InstallPhase::Compose && d.tasks@.len() == 0
                && d.instance@ == instance@,
            r matches Err(message) ==> message@ == "Please generate instance .env first"@,
    {
        if instance.env_path.is_none() {
            return Err("Please generate instance .env first".to_owned());
        }
        Ok(Deployment { phase: InstallPhase::Compose, tasks: Vec::new(), instance })
    }

    /// The arguments with which the tool is to be run now, if it is to be run.
    pub fn arguments(&self) -> (r: Option<Vec<String>>)
        ensures
            match phase_arguments(self.phase, texts(self.tasks@)) {
                Some(args) => r matches Some(v) && texts(v@) == args,
                None => r is None,
            },
    {
        match self.phase {
            InstallPhase::List => Some(pair("task", "--list")),
            InstallPhase::Task(i) => if i < self.tasks.len() {
                Some(pair("task", self.tasks[i].as_str()))
            } else {
                None
            },
            InstallPhase::Info => Some(single("info")),
            InstallPhase::Doctor => Some(single("doctor")),
            InstallPhase::DryRun => Some(pair("dev", "--dry-run")),
            _ => None,
        }
    }

    /// Goes on after a step that succeeded and printed `output`.
    pub fn continue_install(&mut self, output: &str, now: u64)
        ensures
            ({
                let tasks = if old(self).phase == InstallPhase::List {
                    install_tasks_from(lines(output@), 0)
                } else {
                    texts(old(self).tasks@)
                };
                &&& texts(final(self).tasks@) == tasks
                &&& final(self).phase == next_phase(old(self).phase, tasks.len())
                &&& final(self).instance@ == after_phase(
                    old(self).instance@,
                    old(self).phase,
                    output@,
                    now,
                )
            }),
    {
        match self.phase {
            InstallPhase::Compose => {
                self.phase = InstallPhase::Ports;
            },
            InstallPhase::Ports => {
                self.instance.status = "installing".to_owned();
                self.instance.updated_at = now;
                self.phase = InstallPhase::List;
            },
            InstallPhase::List => {
                self.tasks = install_tasks(output);
                assert(texts(self.tasks@).len() == self.tasks@.len());
                self.phase =
                if self.tasks.len() > 0 {
                    InstallPhase::Task(0)
                } else {
                    InstallPhase::Info
                };
            },
            InstallPhase::Task(i) => {
                let count: usize = self.tasks.len();
                assert(texts(self.tasks@).len() == self.tasks@.len());
                self.phase =
                if i < count && i + 1 < count {
                    InstallPhase::Task(i + 1)
                } else {
                    InstallPhase::Info
                };
            },
            InstallPhase::Info => {
                apply_info_urls(&mut self.instance, output);
                self.phase = InstallPhase::Doctor;
            },
            InstallPhase::Doctor => {
                self.phase = InstallPhase::ComposeAgain;
            },
            InstallPhase::ComposeAgain => {
                self.phase = InstallPhase::DryRun;
            },
            InstallPhase::DryRun => {
                self.phase = InstallPhase::Start;
            },
            InstallPhase::Start => {
                self.instance.status = "starting".to_owned();
                self.instance.updated_at = now;
                self.phase = InstallPhase::Wait;
            },
            InstallPhase::Wait => {
                self.instance.status = "running".to_owned();
                self.instance.needs_doctor = false;
                self.instance.updated_at = now;
                self.phase = InstallPhase::Done;
            },
            InstallPhase::Done => {},
            InstallPhase::Failed => {},
        }
    }

    /// Ends a deployment of which a step failed.
    pub fn give_up(&mut self)
        ensures
            final(self).phase == InstallPhase::Failed,
            final(self).instance@ == old(self).instance@,
            texts(final(self).tasks@) == texts(old(self).tasks@),
    {
        self.phase = InstallPhase::Failed;
    }
}

/// How many steps are left before an instance runs, with the given number of tasks.
pub open spec fn steps_left(phase: InstallPhase, tasks: nat) -> int {
    match phase {
        InstallPhase::Compose => tasks as int + 9,
        InstallPhase::Ports => tasks as int + 8,
        InstallPhase::List => tasks as int + 7,
        InstallPhase::Task(i) => if i < tasks {
            tasks - i + 6
        } else {
            7
        },
        InstallPhase::Info => 6,
        InstallPhase::Doctor => 5,
        InstallPhase::ComposeAgain => 4,
        InstallPhase::DryRun => 3,
        InstallPhase::Start => 2,
        InstallPhase::Wait => 1,
        InstallPhase::Done => 0,
        InstallPhase::Failed => 0,
    }
}

/// Each step that succeeds leaves one step less, until the instance runs.
pub proof fn law_each_step_leads_on(phase: InstallPhase, tasks: nat)
    requires
        tasks <= usize::MAX,
        phase != InstallPhase::Done,
        phase != InstallPhase::Failed,
    ensures
        steps_left(next_phase(phase, tasks), tasks) == steps_left(phase, tasks) - 1,
        steps_left(phase, tasks) > 0,
        next_phase(phase, tasks) != InstallPhase::Failed,
{
}

/// The step reached after a number of steps that succeeded.
pub open spec fn phase_after(phase: InstallPhase, tasks: nat, steps: nat) -> InstallPhase
    decreases steps,
{
    if steps == 0 {
        phase
    } else {
        phase_after(next_phase(phase, tasks), tasks, (steps - 1) as nat)
    }
}

/// A deployment whose steps all succeed ends with a running instance, and no sooner than
/// after all of them.
pub proof fn law_deployment_completes(phase: InstallPhase, tasks: nat, steps: nat)
    requires
        tasks <= usize::MAX,
        phase != InstallPhase::Failed,
        steps <= steps_left(phase, tasks),
    ensures
        phase_after(phase, tasks, steps) == InstallPhase::Done <==> steps == steps_left(
            phase,
            tasks,
        ),
        steps_left(phase_after(phase, tasks, steps), tasks) == steps_left(phase, tasks) - steps,
    decreases steps,
{
    if steps > 0 {
        law_each_step_leads_on(phase, tasks);
        law_deployment_completes(next_phase(phase, tasks), tasks, (steps - 1) as nat);
    }
}

/// Only the last step makes an instance count as running.
pub proof fn law_only_ready_instances_run(
    instance: InstanceModel,
    phase: InstallPhase,
    output: Seq<char>,
    now: u64,
)
    requires
        instance.status != "running"@,
    ensures
        after_phase(instance, phase, output, now).status == "running"@ <==> phase
            == InstallPhase::Wait,
{
    reveal_strlit("running");
    reveal_strlit("starting");
    reveal_strlit("installing");
    assert("running"@.len() == 7);
    assert("starting"@.len() == 8);
    assert("installing"@.len() == 10);
    lemma_info_keeps_status(instance, lines(output), 0);
}

proof fn lemma_info_keeps_status(instance: InstanceModel, ls: Seq<Seq<char>>, i: int)
    requires
        0 <= i,
    ensures
        after_info_from(instance, ls, i).0.status == instance.status,
    decreases ls.len() - i,
{
    if i < ls.len() {
        let next = after_info_line(
            instance,
            ls[i],
            unicode_lower(ls[i]),
        );
        lemma_info_keeps_status(next, ls, i + 1);
    }
}

// ---------------------------------------------------------------------------
// Restart
// ---------------------------------------------------------------------------

/// The steps of a restart.
#[derive(Clone, Copy, Debug, PartialEq, Eq, Structural)]
pub enum RestartPhase {
    /// Docker is checked.
    Compose,
    /// Configuration files are made to follow the environment.
    Configs,
    /// The configuration is checked.
    Doctor,
    /// Docker is checked again.
    ComposeAgain,
    /// The processes are stopped.
    Stop,
    /// The instance is started.
    Start,
    /// The instance is waited for.
    Wait,
    /// The instance runs.
    Done,
}

/// The step behind one that succeeded.
pub open spec fn next_restart_phase(phase: RestartPhase) -> RestartPhase {
    match phase {
        RestartPhase::Compose => RestartPhase::Configs,
        RestartPhase::Configs => RestartPhase::Doctor,
        RestartPhase::Doctor => RestartPhase::ComposeAgain,
        RestartPhase::ComposeAgain => RestartPhase::Stop,
        RestartPhase::Stop => RestartPhase::Start,
        RestartPhase::Start => RestartPhase::Wait,
        RestartPhase::Wait => RestartPhase::Done,
        RestartPhase::Done => RestartPhase::Done,
    }
}

/// What a step of a restart leaves behind in the record of the instance.
pub open spec fn after_restart_phase(instance: InstanceModel, phase: RestartPhase, now: u64) -> InstanceModel {
    match phase {
        RestartPhase::Configs => InstanceModel {
            status: "restarting"@,
            updated_at: now,
            ..instance
        },
        RestartPhase::Stop => InstanceModel { pid: None, ..instance },
        RestartPhase::Start => InstanceModel { status: "starting"@, updated_at: now, ..instance },
        RestartPhase::Wait => InstanceModel {
            status: "running"@,
            needs_doctor: false,
            updated_at: now,
            ..instance
        },
        _ => instance,
    }
}

/// Goes on after a step of a restart that succeeded.
pub fn restart_instance(instance: &mut InstanceRecord, phase: RestartPhase, now: u64) -> (r:
    RestartPhase)
    ensures
        r == next_restart_phase(phase),
        final(instance)@ == after_restart_phase(old(instance)@, phase, now),
{
    match phase {
        RestartPhase::Compose => RestartPhase::Configs,
        RestartPhase::Configs => {
            instance.status = "restarting".to_owned();
            instance.updated_at = now;
            RestartPhase::Doctor
        },
        RestartPhase::Doctor => RestartPhase::ComposeAgain,
        RestartPhase::ComposeAgain => RestartPhase::Stop,
        RestartPhase::Stop => {
            instance.pid = None;
            RestartPhase::Start
        },
        RestartPhase::Start => {
            instance.status = "starting".to_owned();
            instance.updated_at = now;
            RestartPhase::Wait
        },
        RestartPhase::Wait => {
            instance.status = "running".to_owned();
            instance.needs_doctor = false;
            instance.updated_at = now;
            RestartPhase::Done
        },
        RestartPhase::Done => RestartPhase::Done,
    }
}

/// The record after a step of a restart was done and gone on from: starting the instance notes
/// its process, or that it has none of its own.
pub open spec fn after_restart_step(
    instance: InstanceModel,
    phase: RestartPhase,
    process: Option<u32>,
    now: u64,
) -> InstanceModel {
    after_restart_phase(
        if phase == RestartPhase::Start {
            InstanceModel { pid: process, ..instance }
        } else {
            instance
        },
        phase,
        now,
    )
}

/// The record and the step of a restart reached after a number of steps that succeeded.
pub open spec fn restarted_after(
    instance: InstanceModel,
    phase: RestartPhase,
    process: Option<u32>,
    now: u64,
    steps: nat,
) -> (InstanceModel, RestartPhase)
    decreases steps,
{
    if steps == 0 {
        (instance, phase)
    } else {
        restarted_after(
            after_restart_step(instance, phase, process, now),
            next_restart_phase(phase),
            process,
            now,
            (steps - 1) as nat,
        )
    }
}

/// A restart whose seven steps all succeed ends with an instance that runs, needs no check of
/// its configuration, and has the process that was started. Between stopping and starting it
/// has none.
pub proof fn law_restart_completes(instance: InstanceModel, process: Option<u32>, now: u64)
    ensures
        restarted_after(instance, RestartPhase::Compose, process, now, 7) == (
            InstanceModel {
                status: "running"@,
                needs_doctor: false,
                pid: process,
                updated_at: now,
                ..instance
            },
            RestartPhase::Done,
        ),
        restarted_after(instance, RestartPhase::Compose, process, now, 5).0.pid is None,
        restarted_after(instance, RestartPhase::Compose, process, now, 5).1 == RestartPhase::Start,
{
    reveal_with_fuel(restarted_after, 8);
}

/// What is logged about configuration files that changed before a restart.
pub open spec fn paths_report(head: Seq<char>, paths: Seq<Seq<char>>) -> Seq<char> {
    head + joined(indented(paths), "\n"@)
}

/// Reports the configuration files that were made to follow the environment, if any.
pub fn synchronized_report(before_restart: bool, paths: &Vec<String>) -> (r: Option<String>)
    ensures
        opt_view(r) == (if paths@.len() == 0 {
            None
        } else {
            Some(
                paths_report(
                    if before_restart {
                        "Runtime configs updated based on instance .env before restart\n"@
                    } else {
                        "Runtime configs updated based on instance .env\n"@
                    },
                    texts(paths@),
                ),
            )
        }),
{
    if paths.len() == 0 {
        return None;
    }
    let list = join(&indent_paths(paths), "\n");
    let head = if before_restart {
        "Runtime configs updated based on instance .env before restart\n"
    } else {
        "Runtime configs updated based on instance .env\n"
    };
    Some(concat2(head, list.as_str()))
}

// ---------------------------------------------------------------------------
// Stopping and deleting
// ---------------------------------------------------------------------------

/// The record of an instance that is being stopped.
pub open spec fn stopping(instance: InstanceModel, now: u64) -> InstanceModel {
    InstanceModel { status: "stopping"@, updated_at: now, ..instance }
}

/// The record of an instance after it was stopped, or could not be.
pub open spec fn stop_ended(
    instance: InstanceModel,
    previous: Seq<char>,
    stopped: bool,
    now: u64,
) -> InstanceModel {
    if stopped {
        InstanceModel { pid: None, status: "stopped"@, updated_at: now, ..instance }
    } else {
        InstanceModel { status: previous, updated_at: now, ..instance }
    }
}

/// Marks an instance that is being stopped and gives the status that it had.
pub fn begin_stop(instance: &mut InstanceRecord, now: u64) -> (previous: String)
    ensures
        previous@ == old(instance)@.status,
        final(instance)@ == stopping(old(instance)@, now),
{
    let previous = instance.status.clone();
    instance.status = "stopping".to_owned();
    instance.updated_at = now;
    previous
}

/// Ends stopping an instance: it is stopped, or has the status back that it had. Gives what is
/// logged: the level and the message.
pub fn stop_instance(
    instance: &mut InstanceRecord,
    previous: String,
    outcome: &Result<(), String>,
    now: u64,
) -> (r: (&'static str, String))
    ensures
        final(instance)@ == stop_ended(old(instance)@, previous@, *outcome is Ok, now),
        match *outcome {
            Ok(_) => r.0@ == "success"@ && r.1@ == "Instance stopped"@,
            Err(error) => r.0@ == "error"@ && r.1@ == "Failed to stop instance: "@ + error@,
        },
{
    match outcome {
        Ok(_) => {
            instance.pid = None;
            instance.status = "stopped".to_owned();
            instance.updated_at = now;
            ("success", "Instance stopped".to_owned())
        },
        Err(error) => {
            instance.status = previous;
            instance.updated_at = now;
            ("error", concat2("Failed to stop instance: ", error.as_str()))
        },
    }
}

/// A stop that fails leaves all but the time as it was.
pub proof fn law_failed_stop_restores_the_status(instance: InstanceModel, now: u64, later: u64)
    ensures
        stop_ended(stopping(instance, now), instance.status, false, later) == (InstanceModel {
            updated_at: later,
            ..instance
        }),
{
}

/// How far the deletion of an instance has come.
#[derive(Clone, Copy, Debug, PartialEq, Eq, Structural)]
pub enum DeletePhase {
    /// It was asked for.
    Asked,
    /// The processes are stopped.
    Stopped,
    /// A step failed.
    Failed,
}

/// What is left behind in the record of an instance during its deletion.
pub open spec fn after_delete_phase(instance: InstanceModel, phase: DeletePhase, now: u64) -> InstanceModel {
    match phase {
        DeletePhase::Asked => InstanceModel { status: "deleting"@, updated_at: now, ..instance },
        DeletePhase::Stopped => InstanceModel { pid: None, updated_at: now, ..instance },
        DeletePhase::Failed => InstanceModel {
            status: "delete-failed"@,
            updated_at: now,
            ..instance
        },
    }
}

/// Notes how far the deletion of an instance has come.
pub fn delete_instance(instance: &mut InstanceRecord, phase: DeletePhase, now: u64)
    ensures
        final(instance)@ == after_delete_phase(old(instance)@, phase, now),
{
    match phase {
        DeletePhase::Asked => {
            instance.status = "deleting".to_owned();
        },
        DeletePhase::Stopped => {
            instance.pid = None;
        },
        DeletePhase::Failed => {
            instance.status = "delete-failed".to_owned();
        },
    }
    instance.updated_at = now;
}

/// The instances from `i` on but those with an id.
pub open spec fn others_from(instances: Seq<InstanceModel>, id: Seq<char>, i: int) -> Seq<
    InstanceModel,
>
    decreases instances.len() - i,
{
    if i < 0 || i >= instances.len() {
        Seq::empty()
    } else if instances[i].id == id {
        others_from(instances, id, i + 1)
    } else {
        seq![instances[i]] + others_from(instances, id, i + 1)
    }
}

/// Takes an instance out of the list.
pub fn remove_instance(instances: &mut Vec<InstanceRecord>, instance_id: &str)
    ensures
        instances_view(final(instances)@) == others_from(
            instances_view(old(instances)@),
            instance_id@,
            0,
        ),
{
    let ghost is = instances_view(instances@);
    let mut kept: Vec<InstanceRecord> = Vec::new();
    let mut i: usize = 0;
    assert(instances_view(kept@) + others_from(is, instance_id@, 0) == others_from(
        is,
        instance_id@,
        0,
    ));
    while i < instances.len()
        invariant
            i <= instances@.len(),
            is == instances_view(instances@),
            instances_view(kept@) + others_from(is, instance_id@, i as int) == others_from(
                is,
                instance_id@,
                0,
            ),
        decreases instances@.len() - i,
    {
        assert(is[i as int] == instances@[i as int]@);
        if !same(instances[i].id.as_str(), instance_id) {
            let ghost before = instances_view(kept@);
            let ghost rest = others_from(is, instance_id@, i + 1);
            kept.push(instances[i].duplicate());
            assert(instances_view(kept@) == before.push(is[i as int]));
            assert(before.push(is[i as int]) + rest == before + (seq![is[i as int]] + rest));
        }
        i = i + 1;
    }
    assert(instances_view(kept@) + Seq::<InstanceModel>::empty() == instances_view(kept@));
    *instances = kept;
}

/// An instance that was taken out of the list is not in it any more, and all others are.
pub proof fn law_removed_instances_are_gone(instances: Seq<InstanceModel>, id: Seq<char>, k: int)
    requires
        0 <= k < instances.len(),
    ensures
        forall|j: int|
            0 <= j < others_from(instances, id, 0).len() ==> (#[trigger] others_from(
                instances,
                id,
                0,
            )[j]).id != id,
        instances[k].id != id ==> others_from(instances, id, 0).contains(instances[k]),
{
    lemma_others(instances, id, 0, k);
}

proof fn lemma_others(instances: Seq<InstanceModel>, id: Seq<char>, i: int, k: int)
    requires
        0 <= i <= instances.len(),
        k < instances.len(),
    ensures
        forall|j: int|
            0 <= j < others_from(instances, id, i).len() ==> (#[trigger] others_from(
                instances,
                id,
                i,
            )[j]).id != id,
        i <= k && instances[k].id != id ==> others_from(instances, id, i).contains(instances[k]),
    decreases instances.len() - i,
{
    if i < instances.len() {
        lemma_others(instances, id, i + 1, k);
        let rest = others_from(instances, id, i + 1);
        let all = others_from(instances, id, i);
        if instances[i].id != id {
            assert(all == seq![instances[i]] + rest);
            assert(all[0] == instances[i]);
            if i < k && instances[k].id != id {
                let j = choose|j: int| 0 <= j < rest.len() && rest[j] == instances[k];
                assert(all[j + 1] == instances[k]);
            }
        }
    }
}

/// What is logged about an instance that was deleted.
pub fn deletion_report(instance: &InstanceRecord, stopped: usize, docker_cleaned: bool) -> (r: String)
    ensures
        r@ == "Instance deletion completed\nInstance name: "@ + instance@.name + "\nInstance ID: "@
            + instance@.id + "\nWorking directory: "@ + (instance@.work_dir
            + "\nProcesses stopped: "@ + decimal(stopped as nat) + "\nDocker containers cleaned: "@
            + (if docker_cleaned {
            "true\nInstance record: deleted"@
        } else {
            "false\nInstance record: deleted"@
        })),
{
    let rest = concat5(
        instance.work_dir.as_str(),
        "\nProcesses stopped: ",
        decimal_of(stopped as u64).as_str(),
        "\nDocker containers cleaned: ",
        if docker_cleaned {
            "true\nInstance record: deleted"
        } else {
            "false\nInstance record: deleted"
        },
    );
    concat6(
        "Instance deletion completed\nInstance name: ",
        instance.name.as_str(),
        "\nInstance ID: ",
        instance.id.as_str(),
        "\nWorking directory: ",
        rest.as_str(),
    )
}

/// Process ids in decimal notation.
pub open spec fn id_texts(pids: Seq<u32>) -> Seq<Seq<char>> {
    pids.map_values(|p: u32| decimal(p as nat))
}

/// Judges stopping processes by those that still run.
pub fn terminate_processes(stopped: Vec<StoppedProcess>, still_running: &Vec<u32>) -> (r: Result<
    Vec<StoppedProcess>,
    String,
>)
    ensures
        still_running@.len() == 0 ==> r == Ok::<Vec<StoppedProcess>, String>(stopped),
        still_running@.len() > 0 ==> (r matches Err(message) && message@
            == "Failed to stop the following processes: ["@ + joined(
            id_texts(still_running@),
            ", "@,
        ) + "]"@),
{
    if still_running.len() == 0 {
        return Ok(stopped);
    }
    let ghost ts = id_texts(still_running@);
    let mut ids: Vec<String> = Vec::new();
    let mut i: usize = 0;
    while i < still_running.len()
        invariant
            i <= still_running@.len(),
            ids@.len() == i,
            ts == id_texts(still_running@),
            forall|j: int| 0 <= j < i ==> (#[trigger] ids@[j])@ == ts[j],
        decreases still_running@.len() - i,
    {
        ids.push(decimal_of(still_running[i] as u64));
        i = i + 1;
    }
    assert(texts(ids@) == ts);
    Err(
        concat3(
            "Failed to stop the following processes: [",
            join(&ids, ", ").as_str(),
            "]",
        ),
    )
}

// ---------------------------------------------------------------------------
// Listing
// ---------------------------------------------------------------------------

/// The first instance from `i` on with an id, or the length.
pub open spec fn slot_from(instances: Seq<InstanceModel>, id: Seq<char>, i: int) -> int
    decreases instances.len() - i,
{
    if i < 0 || i >= instances.len() || instances[i].id == id {
        i
    } else {
        slot_from(instances, id, i + 1)
    }
}

/// The instances with one exchanged, if it is among them.
pub open spec fn with_instance(instances: Seq<InstanceModel>, x: InstanceModel) -> Seq<InstanceModel> {
    let k = slot_from(instances, x.id, 0);
    if k < instances.len() {
        instances.update(k, x)
    } else {
        instances
    }
}

/// The instances with those from `i` on exchanged.
pub open spec fn with_instances_from(
    instances: Seq<InstanceModel>,
    seen: Seq<InstanceModel>,
    i: int,
) -> Seq<InstanceModel>
    decreases seen.len() - i,
{
    if i < 0 || i >= seen.len() {
        instances
    } else {
        with_instances_from(with_instance(instances, seen[i]), seen, i + 1)
    }
}

/// Takes over instances that were described anew and stored.
pub fn adopt_instances(instances: &mut Vec<InstanceRecord>, stored: &Vec<InstanceRecord>)
    ensures
        instances_view(final(instances)@) == with_instances_from(
            instances_view(old(instances)@),
            instances_view(stored@),
            0,
        ),
{
    let ghost start = instances_view(instances@);
    let ghost ss = instances_view(stored@);
    let mut i: usize = 0;
    while i < stored.len()
        invariant
            i <= stored@.len(),
            ss == instances_view(stored@),
            with_instances_from(instances_view(instances@), ss, i as int) == with_instances_from(
                start,
                ss,
                0,
            ),
        decreases stored@.len() - i,
    {
        assert(ss[i as int] == stored@[i as int]@);
        let ghost is = instances_view(instances@);
        let ghost x = stored@[i as int]@;
        let mut k: usize = 0;
        while k < instances.len() && !same(instances[k].id.as_str(), stored[i].id.as_str())
            invariant
                k <= instances@.len(),
                i < stored@.len(),
                is == instances_view(instances@),
                x == stored@[i as int]@,
                slot_from(is, x.id, 0) == slot_from(is, x.id, k as int),
            decreases instances@.len() - k,
        {
            assert(is[k as int] == instances@[k as int]@);
            k = k + 1;
        }
        if k < instances.len() {
            assert(is[k as int] == instances@[k as int]@);
            instances.set(k, stored[i].duplicate());
            assert(instances_view(instances@) == is.update(k as int, x));
        }
        assert(instances_view(instances@) == with_instance(is, x));
        i = i + 1;
    }
}

/// What is logged about instances that were described anew and could not be stored.
pub fn storing_failures(failures: &Vec<String>) -> (r: String)
    ensures
        r@ == "Failed to persist enriched instance(s): "@ + joined(texts(failures@), "; "@),
{
    concat2("Failed to persist enriched instance(s): ", join(failures, "; ").as_str())
}

} // verus!
