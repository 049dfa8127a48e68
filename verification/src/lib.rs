//! Dependency-ordered test orchestration.
//!
//! A run discovers a set of programs, each with a manifest that declares
//! dependencies on other programs by name. The library models the programs,
//! extracts dependency names from manifest text, orders the candidate set
//! with one pinned-first name, performs a visit-once depth-first traversal
//! that executes every program after its resolvable dependencies, and
//! aggregates one test outcome per executed program.

use vstd::prelude::*;

mod laws;
mod manifest;
mod ordering;
mod program;
mod session;
mod strings;
mod traversal;

pub use laws::acyclic;
pub use laws::dep_edge;
pub use laws::deps_in;
pub use laws::diag_at;
pub use laws::diag_is_unresolved_edge;
pub use laws::is_dep_path;
pub use laws::lemma_reaches_extend;
pub use laws::lemma_reaches_refl;
pub use laws::lemma_run_deterministic;
pub use laws::lemma_run_diagnostics_exact;
pub use laws::lemma_run_executes_each_once;
pub use laws::lemma_run_no_cycles_recorded;
pub use laws::lemma_finished_session_results;
pub use laws::lemma_run_respects_dependencies;
pub use laws::ordered_inv;
pub use laws::reaches;
pub use laws::resolved_dep;
pub use laws::wf_order;
pub use manifest::ManifestError;
pub use manifest::build_program;
pub use manifest::entry_name;
pub use manifest::extract_program_names;
pub use manifest::json_parses;
pub use manifest::manifest_dep_entries;
pub use manifest::raw_names;
pub use ordering::dedup_sorted_names;
pub use ordering::name_le;
pub use ordering::name_views;
pub use ordering::order_candidates;
pub use ordering::sorted_by_name_le;
pub use session::ActionStep;
pub use session::RunSession;
pub use session::TestResult;
pub use session::TestResultView;
pub use session::action_steps;
pub use program::Program;
pub use program::ProgramView;
pub use program::valid_programs;
pub use program::views;
pub use strings::lex_le;
pub use traversal::Diagnostic;
pub use traversal::DiagView;
pub use traversal::RunPlan;
pub use traversal::Trace;
pub use traversal::all_false;
pub use traversal::empty_trace;
pub use traversal::find_index;
pub use traversal::plan_run;
pub use traversal::spec_run;
pub use traversal::spec_visit;
pub use traversal::trace_of;

verus! {

} // verus!
