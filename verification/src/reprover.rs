//! The decisions of the retrieval-augmented ReProver backend.
//!
//! The first poll of a job only marks it in progress. A later poll retrieves
//! the premises accessible to the theorem, asks a model for a whole proof that
//! uses them, and verifies the answer: the job is proved only when the answer
//! compiles with clean axioms. Retrieval, the model and the verifier are
//! called by the caller, which hands their results to the functions here.
use vstd::prelude::*;
use crate::model::{status_terminal, unchanged, JobState, PollStep, ProverJobStatus};
use crate::text::owned;

verus! {

/// How many accessible premises are named to the model.
pub const PREMISE_LIMIT: usize = 12;

/// Whether the backend can run: it needs a ready model provider and the
/// worker that retrieves premises.
pub fn available(provider_ready: bool, worker_ready: bool) -> (r: bool)
    ensures
        r == (provider_ready && worker_ready),
{
    provider_ready && worker_ready
}

/// A poll without a model: a finished job stays as it is, a job polled before
/// fails, and a job never polled is left as it is.
pub open spec fn mock_poll_spec(s: JobState) -> PollStep {
    if status_terminal(s.status) || s.poll_count == 0 {
        unchanged(s)
    } else {
        PollStep {
            next: JobState { status: ProverJobStatus::Failed, poll_count: s.poll_count, percent: s.percent },
            completed: true,
        }
    }
}

/// Poll a job without a model (see [`mock_poll_spec`]).
pub fn mock_poll(s: JobState) -> (r: PollStep)
    ensures
        r == mock_poll_spec(s),
{
    if s.status.is_terminal() || s.poll_count == 0 {
        PollStep { next: s, completed: false }
    } else {
        PollStep {
            next: JobState { status: ProverJobStatus::Failed, poll_count: s.poll_count, percent: s.percent },
            completed: true,
        }
    }
}

/// What a poll decides before asking the model: a finished job stays as it
/// is, the first poll marks the job in progress at a fifth of the way, and any
/// later poll goes on to ask the model (`None`).
pub open spec fn first_poll_spec(s: JobState) -> Option<PollStep> {
    if status_terminal(s.status) {
        Some(unchanged(s))
    } else if s.poll_count == 0 {
        Some(PollStep { next: JobState { status: ProverJobStatus::InProgress, poll_count: 1, percent: 20 }, completed: false })
    } else {
        None
    }
}

/// Decide a poll before the model is asked (see [`first_poll_spec`]).
pub fn first_poll(s: JobState) -> (r: Option<PollStep>)
    ensures
        r == first_poll_spec(s),
{
    if s.status.is_terminal() {
        Some(PollStep { next: s, completed: false })
    } else if s.poll_count == 0 {
        Some(PollStep { next: JobState { status: ProverJobStatus::InProgress, poll_count: 1, percent: 20 }, completed: false })
    } else {
        None
    }
}

/// The names among retrieved premises, in order, skipping premises without
/// one.
pub open spec fn present_names(c: Seq<Option<String>>) -> Seq<String>
    decreases c.len(),
{
    if c.len() == 0 {
        Seq::empty()
    } else {
        let rest = present_names(c.drop_last());
        match c.last() {
            Some(n) => rest.push(n),
            None => rest,
        }
    }
}

/// The premise names handed to the model: the first [`PREMISE_LIMIT`] names
/// among the retrieved premises.
pub open spec fn premise_names_spec(c: Seq<Option<String>>) -> Seq<String> {
    let all = present_names(c);
    if all.len() <= PREMISE_LIMIT { all } else { all.take(PREMISE_LIMIT as int) }
}

proof fn lemma_present_names_len(c: Seq<Option<String>>)
    ensures
        present_names(c).len() <= c.len(),
    decreases c.len(),
{
    if c.len() > 0 {
        lemma_present_names_len(c.drop_last());
    }
}

/// Name the premises for the model (see [`premise_names_spec`]).
pub fn premise_names(candidates: &[Option<String>]) -> (r: Vec<String>)
    ensures
        r@ == premise_names_spec(candidates@),
{
    let mut out: Vec<String> = Vec::new();
    let mut i: usize = 0;
    while i < candidates.len() && out.len() < PREMISE_LIMIT
        invariant
            0 <= i <= candidates@.len(),
            out@.len() <= PREMISE_LIMIT,
            out@ == present_names(candidates@.take(i as int)),
        decreases candidates@.len() - i,
    {
        proof {
            assert(candidates@.take(i as int + 1).drop_last() == candidates@.take(i as int));
            assert(candidates@.take(i as int + 1).last() == candidates@[i as int]);
        }
        match &candidates[i] {
            Some(n) => {
                out.push(n.clone());
            },
            None => {},
        }
        i = i + 1;
    }
    proof {
        lemma_present_prefix(candidates@, i as int);
    }
    out
}

/// Once the names of a prefix reach the limit, the names of the whole
/// sequence begin with them; and a whole sequence is its own prefix.
proof fn lemma_present_prefix(c: Seq<Option<String>>, i: int)
    requires
        0 <= i <= c.len(),
    ensures
        i == c.len() ==> c.take(i) == c,
        present_names(c).take(present_names(c.take(i)).len() as int) == present_names(c.take(i)),
        present_names(c.take(i)).len() <= present_names(c).len(),
    decreases c.len() - i,
{
    if i == c.len() {
        assert(c.take(i) == c);
    } else {
        lemma_present_prefix(c, i + 1);
        assert(c.take(i + 1).drop_last() == c.take(i));
        let a = present_names(c.take(i));
        let b = present_names(c.take(i + 1));
        let w = present_names(c);
        assert(b.take(a.len() as int) == a);
        assert(w.take(a.len() as int) == w.take(b.len() as int).take(a.len() as int));
    }
}

/// What a poll records once the model answered with `answer` (a whole proof,
/// empty when it gave none) and, for a non-empty answer, the verifier reported
/// `verdict` (whether it compiled, whether its axioms are clean; `None` when
/// the verifier failed): proved exactly when a non-empty answer compiled with
/// clean axioms, failed otherwise; either way the job is finished at full
/// progress with one more poll.
pub open spec fn finish_spec(s: JobState, answer: Seq<char>, verdict: Option<(bool, bool)>) -> (PollStep, Option<Seq<char>>, Seq<char>) {
    let proved = answer.len() > 0 && verdict == Some((true, true));
    (
        PollStep {
            next: JobState {
                status: if proved { ProverJobStatus::Proved } else { ProverJobStatus::Failed },
                poll_count: (s.poll_count + 1) as u32,
                percent: 100,
            },
            completed: true,
        },
        if answer.len() == 0 { None } else { Some(answer) },
        if proved { "reprover: proved"@ } else { "reprover: verification failed"@ },
    )
}

/// Record the model's answer and its verification on the job (see
/// [`finish_spec`]): the step, the proof kept with the result, and the
/// result's message.
pub fn finish(s: JobState, answer: &str, verdict: Option<(bool, bool)>) -> (r: (PollStep, Option<String>, String))
    requires
        s.poll_count < u32::MAX,
    ensures
        (r.0, match r.1 { Some(c) => Some(c@), None => None }, r.2@) == finish_spec(s, answer@, verdict),
{
    let empty = answer.is_empty();
    proof {
        assert(empty == (answer@.len() == 0));
    }
    let proved = !empty && match verdict {
        Some((compiles, clean)) => compiles && clean,
        None => false,
    };
    let step = PollStep {
        next: JobState {
            status: if proved { ProverJobStatus::Proved } else { ProverJobStatus::Failed },
            poll_count: s.poll_count + 1,
            percent: 100,
        },
        completed: true,
    };
    let kept = if empty { None } else { Some(owned(answer)) };
    let message = if proved { owned("reprover: proved") } else { owned("reprover: verification failed") };
    (step, kept, message)
}

/// A ReProver poll never changes a finished job and never proves a job whose
/// answer did not compile with clean axioms; the first poll of a running job
/// only marks it in progress.
pub proof fn lemma_poll_proves_only_verified(s: JobState, answer: Seq<char>, verdict: Option<(bool, bool)>)
    requires
        s.poll_count < u32::MAX,
    ensures
        status_terminal(s.status) ==> first_poll_spec(s) == Some(unchanged(s)) && mock_poll_spec(s) == unchanged(s),
        finish_spec(s, answer, verdict).0.next.status == ProverJobStatus::Proved ==> answer.len() > 0 && verdict
            == Some((true, true)),
        status_terminal(finish_spec(s, answer, verdict).0.next.status),
        !status_terminal(s.status) && s.poll_count == 0 ==> first_poll_spec(s) == Some(
            PollStep { next: JobState { status: ProverJobStatus::InProgress, poll_count: 1, percent: 20 }, completed: false },
        ),
{
}

} // verus!
