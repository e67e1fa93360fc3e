//! The decisions of the LeanDojo tactic-session backend.
//!
//! A poll of a running job opens a session with the worker; the first
//! successful poll only marks the job in progress, a later one runs one tactic
//! and takes its reported status. The worker calls themselves are made by the
//! caller, which hands their outcome to the functions here.
use vstd::prelude::*;
use crate::model::{status_terminal, unchanged, JobState, PollStep, ProverJobStatus};
use crate::text::str_eq;

verus! {

/// The job status that a tactic run reports: `proved` and `in_progress` are
/// taken as they are, anything else (and no status at all) is a failure.
pub open spec fn tactic_status_spec(reported: Option<Seq<char>>) -> ProverJobStatus {
    match reported {
        Some(t) => if t == "proved"@ {
            ProverJobStatus::Proved
        } else if t == "in_progress"@ {
            ProverJobStatus::InProgress
        } else {
            ProverJobStatus::Failed
        },
        None => ProverJobStatus::Failed,
    }
}

/// The job status for a tactic run's reported status (see
/// [`tactic_status_spec`]).
pub fn tactic_status(reported: Option<&str>) -> (r: ProverJobStatus)
    ensures
        r == tactic_status_spec(match reported { Some(t) => Some(t@), None => None }),
{
    match reported {
        Some(t) => if str_eq(t, "proved") {
            ProverJobStatus::Proved
        } else if str_eq(t, "in_progress") {
            ProverJobStatus::InProgress
        } else {
            ProverJobStatus::Failed
        },
        None => ProverJobStatus::Failed,
    }
}

/// What a poll decides once the session was opened (or refused): a finished
/// job stays as it is; a refused session ends the job in error; the first
/// poll marks it in progress at half way; any later poll goes on to run a
/// tactic (`None`).
pub open spec fn after_session_spec(s: JobState, session_ok: bool) -> Option<PollStep> {
    if status_terminal(s.status) {
        Some(unchanged(s))
    } else if !session_ok {
        Some(PollStep {
            next: JobState { status: ProverJobStatus::Error, poll_count: s.poll_count, percent: s.percent },
            completed: true,
        })
    } else if s.poll_count == 0 {
        Some(PollStep { next: JobState { status: ProverJobStatus::InProgress, poll_count: 1, percent: 50 }, completed: false })
    } else {
        None
    }
}

/// Decide a poll after the session answered (see [`after_session_spec`]).
pub fn after_session(s: JobState, session_ok: bool) -> (r: Option<PollStep>)
    ensures
        r == after_session_spec(s, session_ok),
{
    if s.status.is_terminal() {
        Some(PollStep { next: s, completed: false })
    } else if !session_ok {
        Some(PollStep {
            next: JobState { status: ProverJobStatus::Error, poll_count: s.poll_count, percent: s.percent },
            completed: true,
        })
    } else if s.poll_count == 0 {
        Some(PollStep { next: JobState { status: ProverJobStatus::InProgress, poll_count: 1, percent: 50 }, completed: false })
    } else {
        None
    }
}

/// The job after one tactic run: the reported status, one more poll, full
/// progress when proved and three quarters otherwise; the job is finished when
/// that status is final.
pub open spec fn after_tactic_spec(s: JobState, reported: Option<Seq<char>>) -> PollStep {
    let st = tactic_status_spec(reported);
    PollStep {
        next: JobState {
            status: st,
            poll_count: (s.poll_count + 1) as u32,
            percent: if st == ProverJobStatus::Proved { 100 } else { 75 },
        },
        completed: status_terminal(st),
    }
}

/// Record a tactic run on the job (see [`after_tactic_spec`]).
pub fn after_tactic(s: JobState, reported: Option<&str>) -> (r: PollStep)
    requires
        s.poll_count < u32::MAX,
    ensures
        r == after_tactic_spec(s, match reported { Some(t) => Some(t@), None => None }),
{
    let st = tactic_status(reported);
    let percent: u32 = if st == ProverJobStatus::Proved { 100 } else { 75 };
    PollStep {
        next: JobState { status: st, poll_count: s.poll_count + 1, percent },
        completed: st.is_terminal(),
    }
}

/// A LeanDojo poll never changes a finished job, counts at most one poll, and
/// reports the job proved only when a tactic run said so.
pub proof fn lemma_poll_respects_lifecycle(s: JobState, session_ok: bool, reported: Option<Seq<char>>)
    requires
        s.poll_count < u32::MAX,
    ensures
        status_terminal(s.status) ==> after_session_spec(s, session_ok) == Some(unchanged(s)),
        after_session_spec(s, session_ok) is None ==> !status_terminal(s.status) && session_ok && s.poll_count > 0,
        match after_session_spec(s, session_ok) {
            Some(step) => step.next.poll_count <= s.poll_count + 1 && step.next.status != ProverJobStatus::Proved
                || step == unchanged(s),
            None => after_tactic_spec(s, reported).next.poll_count == s.poll_count + 1,
        },
        after_tactic_spec(s, reported).next.status == ProverJobStatus::Proved <==> reported == Some("proved"@),
{
    reveal_strlit("proved");
    reveal_strlit("in_progress");
}

} // verus!
