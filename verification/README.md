# theoremata_prover

The verified core of a prover interaction layer: it decides whether a proof
submitted to a formal system (Lean, Rocq, Isabelle, Candle, Agda, Metamath)
can be trusted, and it turns checker output into feedback a model can act on.

`src/` is the library, written in Verus; every function in it carries a
contract that Verus proves, except the few wrappers around std and outside
crate calls (hashing, UTF-8 decoding, durations, Unicode character classes
and case mapping) and the declared `serde_json::Value`, whose contracts are
trusted and say only what those calls document.

- `statement_preservation`, `statement_signature`, `statement_context`,
  `statement_splice`: is the submitted declaration the canonical statement?
  Escape-hatch scanning, signature comparison up to renaming of bound
  variables, integrity of the surrounding context, and splicing the canonical
  header onto the submitted proof.
- `statement_guard`: header and definition snapshots across a round trip,
  with restoration of drifted statements.
- `hypothesis_audit`: hypotheses carried in a theorem's own signature that
  nothing discharges.
- `formal`, `gate`, `backend`: the formal systems, the verdict over the
  verification layers, the backend trait with the Rocq backend, the toolchain
  precheck and the outcome of a live run.
- `error_feedback`, `goal_state`, `goal_roundtrip`, `infotree`: checker
  diagnostics, goal states (with the proof that rendering and parsing round
  trip), and the goal state at an error position read from Lean's infotree.
- `leandojo`, `reprover`, `model`: the poll and cancel decisions of the
  job-based backends, over a job's status, poll count and progress.
- `declaration_lookup`, `proof_log`, `replay`, `proof_job`, `verify`,
  `exec`, `model`, `text`: declaration lookup, proof logs, tactic replay for
  minimization, the sparse-poll state machine, the external-output screen,
  the runner model, job contracts and text utilities.

`tests/` exercises the library through its public interface. `app/` holds
what Verus does not see: environment settings, process execution under the
resource caps, JSON at the edges and replays driven by a real backend.
