//! Moving the data of the desktop to another storage: the steps, and what is put back when one
//! of them fails.

use crate::models::{logs_view, LogEntry, LogModel, StoreModel};
use crate::state::DesktopState;
use crate::text::{concat2, opt_view};
use vstd::prelude::*;
use vstd::string::*;

verus! {

/// The steps of a move to another storage.
#[derive(Clone, Copy, Debug, PartialEq, Eq, Structural)]
pub enum SwitchPhase {
    /// A backup is written.
    Backup,
    /// The target is opened.
    Open,
    /// The entries of the log in the source are counted.
    Count,
    /// Instances and vault are written.
    SaveCore,
    /// The log of the target is cleared.
    ClearLogs,
    /// A page of the log is read, below the given number where there is one.
    ReadPage(Option<u64>),
    /// The page is written; says what the next one is to be below, and whether there is one.
    AppendPage(u64, bool),
    /// The target is checked against what was copied.
    VerifyCopied,
    /// The entries that wait in memory are written.
    AppendPending,
    /// The target is checked against all of it.
    VerifyAll,
    /// The password is stored.
    Credentials,
    /// The settings are stored.
    Config,
    /// The target is in use, and entries that came in since those in memory were taken are
    /// written.
    AppendLate,
    /// The move is over.
    Done,
}

/// What a step came to, where it succeeded.
#[derive(Clone, Copy, Debug, PartialEq, Eq, Structural)]
pub enum SwitchEvent {
    Succeeded,
    /// The number of entries in the source.
    Counted(usize),
    /// A page was read: the lowest number on it, if it is not empty, and whether more follow.
    Page(Option<u64>, bool),
}

/// A move to another storage.
pub struct StorageSwitch {
    pub phase: SwitchPhase,
    pub same_target: bool,
    pub previous_ready: bool,
    pub source_log_count: usize,
    /// Entries taken from memory to be written.
    pub pending: Option<Vec<LogEntry>>,
}

/// The step behind one that succeeded; `late` says that there are entries in memory.
pub open spec fn next_switch_phase(
    phase: SwitchPhase,
    event: SwitchEvent,
    same_target: bool,
    previous_ready: bool,
    late: bool,
) -> SwitchPhase {
    match phase {
        SwitchPhase::Backup => SwitchPhase::Open,
        SwitchPhase::Open => if previous_ready {
            SwitchPhase::Count
        } else {
            SwitchPhase::SaveCore
        },
        SwitchPhase::Count => SwitchPhase::SaveCore,
        SwitchPhase::SaveCore => if !same_target && previous_ready {
            SwitchPhase::ClearLogs
        } else {
            SwitchPhase::VerifyCopied
        },
        SwitchPhase::ClearLogs => SwitchPhase::ReadPage(None),
        SwitchPhase::ReadPage(_) => match event {
            SwitchEvent::Page(Some(lowest), more) => SwitchPhase::AppendPage(lowest, more),
            _ => SwitchPhase::VerifyCopied,
        },
        SwitchPhase::AppendPage(lowest, more) => if more {
            SwitchPhase::ReadPage(Some(lowest))
        } else {
            SwitchPhase::VerifyCopied
        },
        SwitchPhase::VerifyCopied => SwitchPhase::AppendPending,
        SwitchPhase::AppendPending => SwitchPhase::VerifyAll,
        SwitchPhase::VerifyAll => SwitchPhase::Credentials,
        SwitchPhase::Credentials => SwitchPhase::Config,
        SwitchPhase::Config => if late {
            SwitchPhase::AppendLate
        } else {
            SwitchPhase::Done
        },
        SwitchPhase::AppendLate => SwitchPhase::Done,
        SwitchPhase::Done => SwitchPhase::Done,
    }
}

/// What is told of a step that failed.
pub open spec fn switch_error(phase: SwitchPhase, error: Seq<char>) -> Seq<char> {
    match phase {
        SwitchPhase::SaveCore => "Failed to write target storage instances and vault: "@ + error,
        SwitchPhase::ClearLogs => "Failed to clean target storage old logs: "@ + error,
        SwitchPhase::AppendPage(_, _) => "Failed to migrate log pagination: "@ + error,
        SwitchPhase::VerifyAll => "Target storage validation failed during switch: "@ + error,
        _ => error,
    }
}

/// All the data, from what was taken from memory and what is there: what was taken comes first.
pub open spec fn all_data(switch: StorageSwitch, data: StoreModel) -> StoreModel {
    match switch.pending {
        Some(pending) => StoreModel { logs: logs_view(pending@) + data.logs, ..data },
        None => data,
    }
}

/// Whether the step takes the entries from memory: before they are written the first time, and
/// when the target comes into use.
pub open spec fn takes_entries(switch: StorageSwitch) -> bool {
    (switch.phase == SwitchPhase::VerifyCopied && switch.pending is None) || switch.phase
        == SwitchPhase::Config
}

impl StorageSwitch {
    /// How many entries of the log are waiting to be written.
    pub open spec fn pending_count(&self) -> nat {
        match self.pending {
            Some(pending) => pending@.len(),
            None => 0,
        }
    }

    /// Starts a move; until it is over nothing else is written.
    pub fn begin(state: &mut DesktopState, same_target: bool) -> (r: StorageSwitch)
        ensures
            r.phase == SwitchPhase::Backup,
            r.same_target == same_target,
            r.previous_ready == old(state).storage_ready,
            r.source_log_count == 0,
            r.pending is None,
            !final(state).storage_ready,
            final(state).data@ == old(state).data@,
            opt_view(final(state).storage_error) == opt_view(old(state).storage_error),
            final(state).storage_setup_required == old(state).storage_setup_required,
            final(state).next_log_sequence == old(state).next_log_sequence,
            final(state).deployment_stages == old(state).deployment_stages,
    {
        let previous_ready: bool = state.storage_ready;
        state.storage_ready = false;
        StorageSwitch {
            phase: SwitchPhase::Backup,
            same_target,
            previous_ready,
            source_log_count: 0,
            pending: None,
        }
    }

    /// Goes on after a step that succeeded. The entries in memory are taken from there when
    /// they are to be written. Once the settings are stored the target is in use; entries that
    /// came in meanwhile are taken then, to be written to it.
    pub fn configure(&mut self, state: &mut DesktopState, event: SwitchEvent)
        ensures
            final(self).phase == next_switch_phase(
                old(self).phase,
                event,
                old(self).same_target,
                old(self).previous_ready,
                old(state).data@.logs.len() > 0,
            ),
            final(self).same_target == old(self).same_target,
            final(self).previous_ready == old(self).previous_ready,
            final(self).source_log_count == (match event {
                SwitchEvent::Counted(n) => if old(self).phase == SwitchPhase::Count {
                    n
                } else {
                    old(self).source_log_count
                },
                _ => old(self).source_log_count,
            }),
            takes_entries(*old(self)) ==> {
                &&& final(self).pending matches Some(p) && logs_view(p@) == old(state).data@.logs
                &&& final(state).data@ == (StoreModel {
                    logs: Seq::empty(),
                    ..old(state).data@
                })
            },
            old(self).phase == SwitchPhase::AppendLate ==> {
                &&& final(self).pending is None
                &&& final(state).data@ == old(state).data@
            },
            !takes_entries(*old(self)) && old(self).phase != SwitchPhase::AppendLate ==> {
                &&& final(self).pending == old(self).pending
                &&& final(state).data@ == old(state).data@
            },
            old(self).phase != SwitchPhase::Config && old(self).phase != SwitchPhase::AppendLate
                ==> all_data(*final(self), final(state).data@) == all_data(
                *old(self),
                old(state).data@,
            ),
            old(self).phase == SwitchPhase::Config ==> all_data(*final(self), final(state).data@)
                == old(state).data@,
            old(self).phase == SwitchPhase::Config ==> {
                &&& final(state).storage_ready
                &&& final(state).storage_error is None
                &&& !final(state).storage_setup_required
            },
            old(self).phase != SwitchPhase::Config ==> {
                &&& final(state).storage_ready == old(state).storage_ready
                &&& opt_view(final(state).storage_error) == opt_view(old(state).storage_error)
                &&& final(state).storage_setup_required == old(state).storage_setup_required
            },
            final(state).next_log_sequence == old(state).next_log_sequence,
            final(state).deployment_stages == old(state).deployment_stages,
    {
        match self.phase {
            SwitchPhase::Backup => {
                self.phase = SwitchPhase::Open;
            },
            SwitchPhase::Open => {
                self.phase =
                if self.previous_ready {
                    SwitchPhase::Count
                } else {
                    SwitchPhase::SaveCore
                };
            },
            SwitchPhase::Count => {
                if let SwitchEvent::Counted(n) = event {
                    self.source_log_count = n;
                }
                self.phase = SwitchPhase::SaveCore;
            },
            SwitchPhase::SaveCore => {
                self.phase =
                if !self.same_target && self.previous_ready {
                    SwitchPhase::ClearLogs
                } else {
                    SwitchPhase::VerifyCopied
                };
            },
            SwitchPhase::ClearLogs => {
                self.phase = SwitchPhase::ReadPage(None);
            },
            SwitchPhase::ReadPage(_) => {
                self.phase =
                match event {
                    SwitchEvent::Page(Some(lowest), more) => SwitchPhase::AppendPage(lowest, more),
                    _ => SwitchPhase::VerifyCopied,
                };
            },
            SwitchPhase::AppendPage(lowest, more) => {
                self.phase =
                if more {
                    SwitchPhase::ReadPage(Some(lowest))
                } else {
                    SwitchPhase::VerifyCopied
                };
            },
            SwitchPhase::VerifyCopied => {
                if self.pending.is_none() {
                    self.pending = Some(take_entries(state));
                }
                self.phase = SwitchPhase::AppendPending;
            },
            SwitchPhase::AppendPending => {
                self.phase = SwitchPhase::VerifyAll;
            },
            SwitchPhase::VerifyAll => {
                self.phase = SwitchPhase::Credentials;
            },
            SwitchPhase::Credentials => {
                self.phase = SwitchPhase::Config;
            },
            SwitchPhase::Config => {
                state.storage_error = None;
                state.storage_ready = true;
                state.storage_setup_required = false;
                let late: bool = state.data.logs.len() > 0;
                assert(logs_view(state.data.logs@).len() == state.data.logs@.len());
                self.pending = Some(take_entries(state));
                self.phase =
                if late {
                    SwitchPhase::AppendLate
                } else {
                    SwitchPhase::Done
                };
            },
            SwitchPhase::AppendLate => {
                self.pending = None;
                self.phase = SwitchPhase::Done;
            },
            SwitchPhase::Done => {},
        }
    }

    /// How many entries the log of the target has to have.
    pub fn expected_log_count(&self) -> (r: usize)
        requires
            self.source_log_count + self.pending_count() <= usize::MAX,
        ensures
            r == self.source_log_count + self.pending_count(),
    {
        match self.pending.as_ref() {
            Some(pending) => self.source_log_count + pending.len(),
            None => self.source_log_count,
        }
    }

    /// Gives up after a step that failed: all that was in memory is there again, before what came
    /// in meanwhile, and what could be written before can be written again. Once the target is in
    /// use it stays so. Gives what is told.
    pub fn give_up(self, state: &mut DesktopState, error: &str) -> (r: String)
        ensures
            r@ == switch_error(self.phase, error@),
            final(state).storage_ready == (if self.phase == SwitchPhase::AppendLate {
                old(state).storage_ready
            } else {
                self.previous_ready
            }),
            final(state).data@ == all_data(self, old(state).data@),
            opt_view(final(state).storage_error) == opt_view(old(state).storage_error),
            final(state).storage_setup_required == old(state).storage_setup_required,
            final(state).next_log_sequence == old(state).next_log_sequence,
            final(state).deployment_stages == old(state).deployment_stages,
    {
        let phase = self.phase;
        if phase != SwitchPhase::AppendLate {
            state.storage_ready = self.previous_ready;
        }
        if let Some(pending) = self.pending {
            let mut entries = pending;
            entries.append(&mut state.data.logs);
            assert(logs_view(entries@) == logs_view(pending@) + logs_view(old(state).data.logs@));
            state.data.logs = entries;
        }
        match phase {
            SwitchPhase::SaveCore => concat2(
                "Failed to write target storage instances and vault: ",
                error,
            ),
            SwitchPhase::ClearLogs => concat2("Failed to clean target storage old logs: ", error),
            SwitchPhase::AppendPage(_, _) => concat2("Failed to migrate log pagination: ", error),
            SwitchPhase::VerifyAll => concat2(
                "Target storage validation failed during switch: ",
                error,
            ),
            _ => error.to_owned(),
        }
    }
}

/// Takes the entries from memory.
fn take_entries(state: &mut DesktopState) -> (r: Vec<LogEntry>)
    ensures
        logs_view(r@) == old(state).data@.logs,
        final(state).data@ == (StoreModel { logs: Seq::empty(), ..old(state).data@ }),
        final(state).storage_ready == old(state).storage_ready,
        final(state).storage_error == old(state).storage_error,
        final(state).storage_setup_required == old(state).storage_setup_required,
        final(state).next_log_sequence == old(state).next_log_sequence,
        final(state).deployment_stages == old(state).deployment_stages,
{
    let mut taken: Vec<LogEntry> = Vec::new();
    taken.append(&mut state.data.logs);
    assert(logs_view(taken@) == old(state).data@.logs);
    assert(logs_view(state.data.logs@) == Seq::<LogModel>::empty());
    taken
}

/// A place in the order of the steps.
pub open spec fn switch_rank(phase: SwitchPhase) -> int {
    match phase {
        SwitchPhase::Backup => 0,
        SwitchPhase::Open => 1,
        SwitchPhase::Count => 2,
        SwitchPhase::SaveCore => 3,
        SwitchPhase::ClearLogs => 4,
        SwitchPhase::ReadPage(_) => 5,
        SwitchPhase::AppendPage(_, _) => 5,
        SwitchPhase::VerifyCopied => 6,
        SwitchPhase::AppendPending => 7,
        SwitchPhase::VerifyAll => 8,
        SwitchPhase::Credentials => 9,
        SwitchPhase::Config => 10,
        SwitchPhase::AppendLate => 11,
        SwitchPhase::Done => 12,
    }
}

/// The target is put into use only behind both checks, and behind the password and the
/// settings: no step but copying pages is taken twice, and these are not passed over.
pub proof fn law_target_is_used_only_when_complete(
    phase: SwitchPhase,
    event: SwitchEvent,
    same_target: bool,
    previous_ready: bool,
    late: bool,
)
    requires
        phase != SwitchPhase::Done,
    ensures
        ({
            let next = next_switch_phase(phase, event, same_target, previous_ready, late);
            &&& switch_rank(next) > switch_rank(phase) || (switch_rank(phase) == 5 && switch_rank(
                next,
            ) == 5)
            &&& switch_rank(phase) < 6 ==> switch_rank(next) <= 6
            &&& 6 <= switch_rank(phase) < 10 ==> switch_rank(next) == switch_rank(phase) + 1
        }),
{
}

} // verus!
