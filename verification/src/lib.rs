//! Verified core of the prover interaction layer.
use vstd::prelude::*;

pub mod backend;
pub mod declaration_lookup;
pub mod error_feedback;
pub mod exec;
pub mod formal;
pub mod gate;
pub mod goal_roundtrip;
pub mod goal_state;
pub mod hypothesis_audit;
pub mod model;
pub mod infotree;
pub mod leandojo;
pub mod proof_job;
pub mod proof_log;
pub mod replay;
pub mod reprover;
pub mod statement_guard;
pub mod statement_preservation;
pub mod statement_signature;
pub mod statement_context;
pub mod statement_splice;
pub mod text;
pub mod verify;

verus! {
} // verus!
