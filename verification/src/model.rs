//! The contracts of proof tasks: theorem identities and the lifecycles of
//! prover jobs and attempt runs.
use vstd::prelude::*;

verus! {

/// A theorem's identity: repository, commit, file, full name and position.
#[derive(Debug, Clone, PartialEq, Eq)]
pub struct TheoremIdentity {
    pub repo: Option<String>,
    pub commit: Option<String>,
    pub file: Option<String>,
    pub full_name: String,
    /// 1-based line of the declaration in `file`, when known.
    pub line: Option<u32>,
}

/// The lifecycle of an external or asynchronous prover job.
#[derive(Debug, Clone, Copy, PartialEq, Eq, Structural)]
pub enum ProverJobStatus {
    Submitted,
    Queued,
    InProgress,
    Proved,
    Partial,
    Failed,
    Counterexample,
    Cancelled,
    Error,
}

/// Whether a status is final: every status but submitted, queued and in
/// progress.
pub open spec fn status_terminal(s: ProverJobStatus) -> bool {
    !(s == ProverJobStatus::Submitted || s == ProverJobStatus::Queued || s == ProverJobStatus::InProgress)
}

impl ProverJobStatus {
    /// Whether the job has finished (see [`status_terminal`]).
    pub fn is_terminal(self) -> (r: bool)
        ensures
            r == status_terminal(self),
    {
        match self {
            ProverJobStatus::Submitted | ProverJobStatus::Queued | ProverJobStatus::InProgress => false,
            _ => true,
        }
    }
}

/// What a poll or a cancel reads and writes of a prover job: its status, how
/// often it has been polled, and its progress in whole percent.
#[derive(Debug, Clone, Copy, PartialEq, Eq, Structural)]
pub struct JobState {
    pub status: ProverJobStatus,
    pub poll_count: u32,
    pub percent: u32,
}

/// The outcome of one poll or cancel: the job's next state, and whether this
/// step finished it (its completion time is stamped then).
#[derive(Debug, Clone, Copy, PartialEq, Eq, Structural)]
pub struct PollStep {
    pub next: JobState,
    pub completed: bool,
}

/// A step that leaves the job as it is.
pub open spec fn unchanged(s: JobState) -> PollStep {
    PollStep { next: s, completed: false }
}

/// Cancelling a job: a finished job stays as it is; any other becomes
/// cancelled and is finished by this step.
pub open spec fn cancel_spec(s: JobState) -> PollStep {
    if status_terminal(s.status) {
        unchanged(s)
    } else {
        PollStep {
            next: JobState { status: ProverJobStatus::Cancelled, poll_count: s.poll_count, percent: s.percent },
            completed: true,
        }
    }
}

/// Cancel a job (see [`cancel_spec`]).
pub fn cancel_step(s: JobState) -> (r: PollStep)
    ensures
        r == cancel_spec(s),
{
    if s.status.is_terminal() {
        PollStep { next: s, completed: false }
    } else {
        PollStep {
            next: JobState { status: ProverJobStatus::Cancelled, poll_count: s.poll_count, percent: s.percent },
            completed: true,
        }
    }
}

/// A cancelled job is finished, and cancelling it again changes nothing:
/// after one cancel the job's status is final, a second cancel leaves it as it
/// is, and a job that was already finished keeps its status.
pub proof fn lemma_cancel_settles(s: JobState)
    ensures
        status_terminal(cancel_spec(s).next.status),
        cancel_spec(cancel_spec(s).next) == unchanged(cancel_spec(s).next),
        status_terminal(s.status) ==> cancel_spec(s).next == s,
        cancel_spec(s).next.poll_count == s.poll_count,
{
}

/// The lifecycle of one attempt run.
#[derive(Debug, Clone, Copy, PartialEq, Eq, Structural)]
pub enum AttemptRunStatus {
    Running,
    Completed,
    Cancelled,
    Failed,
}

} // verus!
