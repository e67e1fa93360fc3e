//! The sparse-poll / resume state machine of long-running prover jobs.
//!
//! A job is polled with exponential backoff rather than blocked on. Its
//! [`ResumeState`] says where it is in the poll lifecycle, so an interrupted
//! poll loop resumes from the last poll index instead of restarting. All of
//! it is deterministic: the next delay is data ([`PollDecision::Poll`]), and
//! the only effect is the injected poller.
use vstd::prelude::*;
use crate::model::{status_terminal, ProverJobStatus};
use crate::text::owned;

verus! {

#[verifier::external_type_specification]
#[verifier::external_body]
pub struct ExJsonValue(serde_json::Value);

/// `Clone` of `serde_json::Value` (a derived clone): the copy equals the
/// original.
pub assume_specification[ <serde_json::Value as Clone>::clone ](v: &serde_json::Value) -> (r: serde_json::Value)
    ensures
        r == *v,
;

/// Calls `serde_json::Value::Null`: the JSON `null` that an unpolled job's
/// checkpoint starts as. Nothing is claimed of the value.
#[verifier::external_body]
fn json_null() -> (r: serde_json::Value) {
    serde_json::Value::Null
}

/// Tuning for the sparse-poll / resume loop. Holds no clock.
#[derive(Debug, Clone, Copy, PartialEq, Eq)]
pub struct ResumeConfig {
    /// Give up once this many polls were made without a terminal status.
    pub max_polls: u32,
    /// Backoff before the first poll, in abstract ticks.
    pub base_backoff: u64,
    /// Ceiling of the exponential backoff.
    pub max_backoff: u64,
}

impl Default for ResumeConfig {
    fn default() -> (r: Self)
        ensures
            r == (ResumeConfig { max_polls: 16, base_backoff: 1, max_backoff: 64 }),
    {
        ResumeConfig { max_polls: 16, base_backoff: 1, max_backoff: 64 }
    }
}

/// Where a job is in its poll lifecycle; persisted between poll ticks so a
/// job resumes rather than restarts.
#[derive(Debug, Clone, PartialEq)]
pub struct ResumeState {
    /// The proof job this state tracks.
    pub job_id: String,
    /// Polls already made, which is also the index of the next poll.
    pub last_poll_index: u32,
    /// Ticks to wait before the next poll.
    pub next_backoff: u64,
    /// Whether the job reached a terminal status.
    pub terminal: bool,
    /// The last observed status (none before the first poll).
    pub last_status: Option<ProverJobStatus>,
    /// An opaque backend progress marker carried across resumes.
    pub checkpoint: serde_json::Value,
}

impl ResumeState {
    /// The state of a never-polled job, primed with the base backoff (at
    /// least one tick).
    pub fn new(job_id: &str, cfg: &ResumeConfig) -> (r: Self)
        ensures
            r.job_id@ == job_id@,
            r.last_poll_index == 0,
            r.next_backoff == if cfg.base_backoff >= 1 { cfg.base_backoff } else { 1 },
            !r.terminal,
            r.last_status is None,
    {
        ResumeState {
            job_id: owned(job_id),
            last_poll_index: 0,
            next_backoff: if cfg.base_backoff >= 1 { cfg.base_backoff } else { 1 },
            terminal: false,
            last_status: None,
            checkpoint: json_null(),
        }
    }
}

/// One poll observation, returned by the injected poller.
#[derive(Debug, Clone, PartialEq)]
pub struct PollResult {
    pub status: ProverJobStatus,
    /// A new checkpoint to carry to the next resume, if any.
    pub checkpoint: Option<serde_json::Value>,
}

impl PollResult {
    /// An observation of `status` with no new checkpoint.
    pub fn new(status: ProverJobStatus) -> (r: Self)
        ensures
            r.status == status,
            r.checkpoint is None,
    {
        PollResult { status, checkpoint: None }
    }
}

/// What the scheduler does next.
#[derive(Debug, Clone, Copy, PartialEq, Eq, Structural)]
pub enum PollDecision {
    /// A fresh start: poll after `after` ticks.
    Poll { after: u64 },
    /// Continue an in-flight job from poll index `from`.
    Resume { from: u32 },
    /// The poll budget is spent without a terminal status.
    GiveUp,
    /// The job reached a terminal status.
    Done,
}

/// How driving a job ended.
#[derive(Debug, Clone, Copy, PartialEq, Eq, Structural)]
pub enum ResumeOutcomeKind {
    Done,
    GaveUp,
}

/// The final state and how driving the job ended.
#[derive(Debug, Clone, PartialEq)]
pub struct ResumeOutcome {
    pub kind: ResumeOutcomeKind,
    pub state: ResumeState,
}

/// The plan for a state: done once terminal; give up once the budget is
/// spent; a fresh poll after the current backoff at index 0; else resume
/// from the last poll index.
pub open spec fn plan_spec(state: ResumeState, cfg: ResumeConfig) -> PollDecision {
    if state.terminal {
        PollDecision::Done
    } else if state.last_poll_index >= cfg.max_polls {
        PollDecision::GiveUp
    } else if state.last_poll_index == 0 {
        PollDecision::Poll { after: state.next_backoff }
    } else {
        PollDecision::Resume { from: state.last_poll_index }
    }
}

/// Decide what to do next from the state and the tuning (see
/// [`plan_spec`]).
pub fn sparse_poll_plan(state: &ResumeState, cfg: &ResumeConfig) -> (r: PollDecision)
    ensures
        r == plan_spec(*state, *cfg),
{
    if state.terminal {
        return PollDecision::Done;
    }
    if state.last_poll_index >= cfg.max_polls {
        return PollDecision::GiveUp;
    }
    if state.last_poll_index == 0 {
        PollDecision::Poll { after: state.next_backoff }
    } else {
        PollDecision::Resume { from: state.last_poll_index }
    }
}

/// The backoff after one more poll: doubled (saturating), clamped to the
/// larger of the ceiling and the base.
pub open spec fn advance_spec(current: u64, cfg: ResumeConfig) -> u64 {
    let doubled: int = if current * 2 <= u64::MAX { current * 2 } else { u64::MAX as int };
    let ceiling: int = if cfg.max_backoff >= cfg.base_backoff { cfg.max_backoff as int } else { cfg.base_backoff as int };
    (if doubled <= ceiling { doubled } else { ceiling }) as u64
}

/// The backoff after `n` more polls.
pub open spec fn backoff_after(b: u64, cfg: ResumeConfig, n: nat) -> u64
    decreases n,
{
    if n == 0 { b } else { advance_spec(backoff_after(b, cfg, (n - 1) as nat), cfg) }
}

/// Grow the backoff exponentially, clamped (see [`advance_spec`]).
pub fn advance_backoff(current: u64, cfg: &ResumeConfig) -> (r: u64)
    ensures
        r == advance_spec(current, *cfg),
{
    let doubled = match current.checked_mul(2) {
        Some(d) => d,
        None => u64::MAX,
    };
    let ceiling = if cfg.max_backoff >= cfg.base_backoff { cfg.max_backoff } else { cfg.base_backoff };
    if doubled <= ceiling { doubled } else { ceiling }
}

/// The state after one poll that observed `o` from state `p`: the index
/// advances, the status and terminal flag follow the observation, a new
/// checkpoint replaces the old one, and the backoff advances.
pub open spec fn after_poll(p: ResumeState, o: PollResult, cfg: ResumeConfig) -> ResumeState {
    ResumeState {
        job_id: p.job_id,
        last_poll_index: (p.last_poll_index + 1) as u32,
        next_backoff: advance_spec(p.next_backoff, cfg),
        terminal: status_terminal(o.status),
        last_status: Some(o.status),
        checkpoint: match o.checkpoint {
            Some(c) => c,
            None => p.checkpoint,
        },
    }
}

/// Whether `states` and `obs` trace polls of `poller`: each observation is
/// one the poller may return for the state it was handed, that state was
/// still running within the budget, and the next state is the one after
/// that poll (see [`after_poll`]).
pub open spec fn poll_trace<F: Fn(&ResumeState) -> PollResult>(
    poller: &F,
    cfg: ResumeConfig,
    states: Seq<ResumeState>,
    obs: Seq<PollResult>,
) -> bool {
    &&& states.len() == obs.len() + 1
    &&& forall|i: int|
        0 <= i < obs.len() ==> {
            &&& poller.ensures((&states[i],), #[trigger] obs[i])
            &&& !states[i].terminal
            &&& states[i].last_poll_index < cfg.max_polls
            &&& states[i + 1] == after_poll(states[i], obs[i], cfg)
        }
}

/// Drive a job until it is terminal or the poll budget is spent, calling
/// `poller` once per poll. It resumes from the state's poll index, never
/// restarts, and never reports `Done` for a job that is not terminal.
pub fn resume_job<F: Fn(&ResumeState) -> PollResult>(state: ResumeState, poller: &F, cfg: &ResumeConfig) -> (r: ResumeOutcome)
    requires
        forall|s: &ResumeState| #[trigger] poller.requires((s,)),
    ensures
        (r.kind == ResumeOutcomeKind::Done) == r.state.terminal,
        r.kind == ResumeOutcomeKind::GaveUp ==> r.state.last_poll_index >= cfg.max_polls,
        r.state.job_id == state.job_id,
        state.terminal ==> r.state == state,
        !state.terminal && state.last_poll_index >= cfg.max_polls ==> r.state == state,
        state.last_poll_index <= r.state.last_poll_index,
        r.state.last_poll_index > state.last_poll_index ==> r.state.last_poll_index <= cfg.max_polls,
        r.state.next_backoff == backoff_after(state.next_backoff, *cfg, (r.state.last_poll_index - state.last_poll_index) as nat),
        r.state.last_poll_index > state.last_poll_index ==> exists|p: ResumeState, o: PollResult|
            #![trigger after_poll(p, o, *cfg)]
            poller.ensures((&p,), o) && !p.terminal && p.last_poll_index < cfg.max_polls
                && r.state == after_poll(p, o, *cfg),
        exists|states: Seq<ResumeState>, obs: Seq<PollResult>|
            #[trigger] poll_trace(poller, *cfg, states, obs) && states[0] == state && states.last() == r.state
                && obs.len() == r.state.last_poll_index - state.last_poll_index,
{
    let ghost s0 = state;
    let ghost mut ts: Seq<ResumeState> = seq![state];
    let ghost mut os: Seq<PollResult> = Seq::empty();
    let mut cur = state;
    loop
        invariant
            forall|s: &ResumeState| #[trigger] poller.requires((s,)),
            s0 == state,
            cur.job_id == s0.job_id,
            s0.last_poll_index <= cur.last_poll_index,
            s0.terminal ==> cur == s0,
            !s0.terminal && s0.last_poll_index >= cfg.max_polls ==> cur == s0,
            cur.last_poll_index > s0.last_poll_index ==> cur.last_poll_index <= cfg.max_polls,
            cur.next_backoff == backoff_after(s0.next_backoff, *cfg, (cur.last_poll_index - s0.last_poll_index) as nat),
            cur.last_poll_index > s0.last_poll_index ==> exists|p: ResumeState, o: PollResult|
                #![trigger after_poll(p, o, *cfg)]
                poller.ensures((&p,), o) && !p.terminal && p.last_poll_index < cfg.max_polls
                    && cur == after_poll(p, o, *cfg),
            poll_trace(poller, *cfg, ts, os),
            ts[0] == s0,
            ts.last() == cur,
            os.len() == cur.last_poll_index - s0.last_poll_index,
        decreases (if cur.terminal { 0int } else { 1int }) + cfg.max_polls - cur.last_poll_index,
    {
        match sparse_poll_plan(&cur, cfg) {
            PollDecision::Done => {
                return ResumeOutcome { kind: ResumeOutcomeKind::Done, state: cur };
            },
            PollDecision::GiveUp => {
                return ResumeOutcome { kind: ResumeOutcomeKind::GaveUp, state: cur };
            },
            _ => {
                let ghost p = cur;
                let observation = poller(&cur);
                let ghost o = observation;
                let terminal = observation.status.is_terminal();
                let next = advance_backoff(cur.next_backoff, cfg);
                cur.last_poll_index = cur.last_poll_index + 1;
                cur.last_status = Some(observation.status);
                cur.terminal = terminal;
                match observation.checkpoint {
                    Some(cp) => {
                        cur.checkpoint = cp;
                    },
                    None => {},
                }
                cur.next_backoff = next;
                proof {
                    assert(cur == after_poll(p, o, *cfg));
                    let ts0 = ts;
                    let os0 = os;
                    ts = ts.push(cur);
                    os = os.push(o);
                    assert forall|i: int| 0 <= i < os.len() implies {
                        &&& poller.ensures((&ts[i],), #[trigger] os[i])
                        &&& !ts[i].terminal
                        &&& ts[i].last_poll_index < cfg.max_polls
                        &&& ts[i + 1] == after_poll(ts[i], os[i], *cfg)
                    } by {
                        if i < os0.len() {
                            assert(ts[i] == ts0[i] && ts[i + 1] == ts0[i + 1] && os[i] == os0[i]);
                        } else {
                            assert(ts[i] == p && os[i] == o && ts[i + 1] == cur);
                        }
                    }
                    assert((cur.last_poll_index - s0.last_poll_index) as nat == ((p.last_poll_index - s0.last_poll_index) as nat + 1) as nat);
                }
            },
        }
    }
}

/// The backoff never exceeds its ceiling (the larger of the configured
/// ceiling and the base) once it has advanced, and each advance at least
/// doubles it until the ceiling is reached.
pub proof fn lemma_backoff_capped(b: u64, cfg: ResumeConfig, n: nat)
    ensures
        n >= 1 ==> backoff_after(b, cfg, n) <= (if cfg.max_backoff >= cfg.base_backoff { cfg.max_backoff } else { cfg.base_backoff }),
        n >= 1 ==> (backoff_after(b, cfg, (n - 1) as nat) * 2 <= (if cfg.max_backoff >= cfg.base_backoff { cfg.max_backoff } else { cfg.base_backoff })
            ==> backoff_after(b, cfg, n) == backoff_after(b, cfg, (n - 1) as nat) * 2),
    decreases n,
{
    if n >= 1 {
        lemma_backoff_capped(b, cfg, (n - 1) as nat);
    }
}

} // verus!
