//! A small reasoning-chain validator.
//!
//! Given a binary relation described by the formal properties it claims
//! (reflexivity, symmetry, transitivity) and an ordered list of claimed
//! pairwise facts over a bounded set of variables, the library decides
//! whether every fact is either already established or derivable from the
//! previously accepted facts using the relation's properties, falling back
//! on a graph-reachability search when transitivity must be invoked.

mod facts;
mod laws;
mod path;
mod relation;
mod validator;

pub use facts::FactSet;
pub use laws::{flags_track, lemma_equivalence_accepts_all, lemma_facts_grow,
    lemma_flags_track_init,
    lemma_flags_track_run, lemma_flags_track_step, lemma_known_fact_skipped,
    lemma_resubmission_idempotent, lemma_resubmit_later_noop, lemma_symmetric_run_closed,
    lemma_symmetric_step_reversible, mentioned, run_facts, run_flags, sym_closed};
pub use path::{find_path, is_path, lemma_closed_set_blocks, lemma_reachable_extend,
    lemma_reachable_self, path_exists, reachable};
pub use relation::{And, Greater, Relation};
pub use validator::{facts_after, flags_after, justified, spec_valid, step_ok, steps_in_range,
    valid_from, validate};
