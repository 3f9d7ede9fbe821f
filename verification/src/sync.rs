//! The per-repository synchronization job, as a state machine.  Each job
//! runs on its own thread of the surrounding program: the program does
//! the waiting and the version-control work, feeds every outcome back in
//! here, and sends the events this machine hands out.  All decisions —
//! which step follows which outcome, and which status each step reports —
//! are made and specified here.
use crate::app::Event;
use crate::repo::{decoded_record, local_path_ok, Log, Repo, RepoStatus};
use vstd::prelude::*;

verus! {

/// How many history records one fetch retrieves at most.
pub const MAX_LOG_COUNT: usize = 400;

/// Where a job stands between two outside steps.
#[derive(Clone, Copy, Debug, PartialEq, Eq, Structural)]
pub enum JobPhase {
    /// Waiting to learn whether the local mirror exists.
    Checking,
    /// Waiting for the clone or the update to finish.
    Syncing,
    /// Waiting for the history fetch.
    Fetching,
    /// The job is over; nothing further happens.
    Terminal,
}

/// What the job asks its runner to do next.
#[derive(Clone, Debug, PartialEq, Eq)]
pub enum JobAction {
    /// Test whether the job's local path is a directory.
    CheckDir,
    /// Fetch and fast-forward the existing mirror on the job's branch.
    Pull,
    /// Clone the job's origin into its local path.
    Clone,
    /// Retrieve up to `MAX_LOG_COUNT` raw history lines, most recent
    /// first, from the job's branch or the default head.
    FetchHistory,
    /// Stop; the job has reported its terminal event.
    Stop,
}

/// One repository's synchronization job.
#[derive(Debug)]
pub struct SyncJob {
    pub id: String,
    pub origin: String,
    pub branch: Option<String>,
    pub path: String,
    pub phase: JobPhase,
}

/// How far along its state machine a status is.  A status only ever
/// advances; `Failed` and `Finished` are terminal.
pub open spec fn status_rank(s: RepoStatus) -> int {
    match s {
        RepoStatus::Checking => 0,
        RepoStatus::Cloning => 1,
        RepoStatus::Pulling => 1,
        RepoStatus::Log => 2,
        RepoStatus::Failed => 3,
        RepoStatus::Finished => 3,
    }
}

/// The rank below which a phase's next report cannot fall.
pub open spec fn phase_rank(p: JobPhase) -> int {
    match p {
        JobPhase::Checking => 0,
        JobPhase::Syncing => 1,
        JobPhase::Fetching => 2,
        JobPhase::Terminal => 3,
    }
}

impl SyncJob {
    /// Starts the job for one repository: derives the local mirror path
    /// from the origin.  An origin without a usable path segment fails
    /// this one repository immediately — the returned event reports it —
    /// and no other step is taken.
    pub fn start(repo: &Repo, id: String, root: &str) -> (r: Result<(SyncJob, JobAction), Event>)
        ensures
            match r {
                Ok(ja) => {
                    &&& local_path_ok(repo.origin@)
                    &&& ja.0.phase == JobPhase::Checking
                    &&& ja.0.id@ == id@
                    &&& ja.0.origin@ == repo.origin@
                    &&& ja.0.branch == repo.branch
                    &&& ja.1 == JobAction::CheckDir
                },
                Err(e) => {
                    &&& !local_path_ok(repo.origin@)
                    &&& e matches Event::RepoStatusChange(eid, st) && eid@ == id@ && st
                        == RepoStatus::Failed
                },
            },
    {
        match repo.path(root) {
            Ok(path) => Ok(
                (
                    SyncJob {
                        id,
                        origin: repo.origin.clone(),
                        branch: match &repo.branch {
                            Some(b) => Some(b.clone()),
                            None => None,
                        },
                        path,
                        phase: JobPhase::Checking,
                    },
                    JobAction::CheckDir,
                ),
            ),
            Err(_) => Err(Event::RepoStatusChange(id, RepoStatus::Failed)),
        }
    }

    /// Applies what the directory check found: an existing mirror is
    /// updated, a missing one is cloned, and either way the step is
    /// reported before it runs.
    pub fn on_dir_checked(&mut self, exists: bool) -> (r: (Event, JobAction))
        requires
            old(self).phase == JobPhase::Checking,
        ensures
            final(self).phase == JobPhase::Syncing,
            *final(self) == (SyncJob { phase: JobPhase::Syncing, ..*old(self) }),
            ({
                let st = if exists {
                    RepoStatus::Pulling
                } else {
                    RepoStatus::Cloning
                };
                &&& r.0 matches Event::RepoStatusChange(eid, s) && eid@ == old(self).id@ && s == st
                &&& r.1 == if exists {
                    JobAction::Pull
                } else {
                    JobAction::Clone
                }
                &&& status_rank(st) > phase_rank(old(self).phase)
            }),
    {
        self.phase = JobPhase::Syncing;
        if exists {
            (Event::RepoStatusChange(self.id.clone(), RepoStatus::Pulling), JobAction::Pull)
        } else {
            (Event::RepoStatusChange(self.id.clone(), RepoStatus::Cloning), JobAction::Clone)
        }
    }

    /// Applies the clone or update outcome.  Success moves on to the
    /// history fetch; any failure reports `Failed` and ends the job —
    /// no history fetch is attempted, and no other repository is
    /// disturbed.
    pub fn on_vcs_done(&mut self, ok: bool) -> (r: (Event, JobAction))
        requires
            old(self).phase == JobPhase::Syncing,
        ensures
            ({
                if ok {
                    &&& final(self).phase == JobPhase::Fetching
                    &&& *final(self) == (SyncJob { phase: JobPhase::Fetching, ..*old(self) })
                    &&& r.0 matches Event::RepoStatusChange(eid, s) && eid@ == old(self).id@ && s
                        == RepoStatus::Log
                    &&& r.1 == JobAction::FetchHistory
                    &&& status_rank(RepoStatus::Log) > phase_rank(old(self).phase)
                } else {
                    &&& final(self).phase == JobPhase::Terminal
                    &&& *final(self) == (SyncJob { phase: JobPhase::Terminal, ..*old(self) })
                    &&& r.0 matches Event::RepoStatusChange(eid, s) && eid@ == old(self).id@ && s
                        == RepoStatus::Failed
                    &&& r.1 == JobAction::Stop
                }
            }),
    {
        if ok {
            self.phase = JobPhase::Fetching;
            (Event::RepoStatusChange(self.id.clone(), RepoStatus::Log), JobAction::FetchHistory)
        } else {
            self.phase = JobPhase::Terminal;
            (Event::RepoStatusChange(self.id.clone(), RepoStatus::Failed), JobAction::Stop)
        }
    }

    /// Applies the history fetch outcome.  The fetched lines are decoded
    /// one by one — decoding is total, so one malformed line never stops
    /// the batch — and the job completes with the records; a failed
    /// fetch reports `Failed`.  Either way the job is over.
    pub fn on_history(&mut self, lines: Option<Vec<String>>) -> (r: (Event, JobAction))
        requires
            old(self).phase == JobPhase::Fetching,
        ensures
            final(self).phase == JobPhase::Terminal,
            *final(self) == (SyncJob { phase: JobPhase::Terminal, ..*old(self) }),
            r.1 == JobAction::Stop,
            match lines {
                Some(ls) => r.0 matches Event::RepoStatusComplete(eid, logs) && eid@ == old(
                    self,
                ).id@ && logs@.len() == ls@.len() && forall|i: int|
                    0 <= i < ls@.len() ==> decoded_record(ls@[i]@, #[trigger] logs@[i]),
                None => r.0 matches Event::RepoStatusChange(eid, s) && eid@ == old(self).id@ && s
                    == RepoStatus::Failed,
            },
    {
        self.phase = JobPhase::Terminal;
        match lines {
            Some(ls) => {
                let mut logs: Vec<Log> = Vec::new();
                let mut i: usize = 0;
                let n = ls.len();
                while i < n
                    invariant
                        0 <= i <= n == ls@.len(),
                        logs@.len() == i,
                        forall|j: int| 0 <= j < i ==> decoded_record(ls@[j]@, #[trigger] logs@[j]),
                    decreases n - i,
                {
                    logs.push(Log::from_line(ls[i].as_str()));
                    i = i + 1;
                }
                (Event::RepoStatusComplete(self.id.clone(), logs), JobAction::Stop)
            },
            None => (
                Event::RepoStatusChange(self.id.clone(), RepoStatus::Failed),
                JobAction::Stop,
            ),
        }
    }
}

} // verus!
