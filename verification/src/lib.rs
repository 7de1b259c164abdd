//! Evaluation core of a small lazy, untyped functional language: terms and
//! runtime values, a persistent lexical environment, call-by-need thunks with
//! write-once memoization, a structural pattern matcher, a trampolined
//! evaluator that reduces a term to weak head normal form, and a linker that
//! merges multi-clause declarations into single global bindings.
//!
//! Recursion is expressed through global declarations: a global's body is
//! resolved against the global table when it is demanded, so it may refer to
//! any global, itself included. A `let` binding has no implicit fixpoint —
//! its bound term is captured in the scope outside the binding — and a
//! binding that demands its own value while being forced is reported as
//! re-entrant forcing rather than looped over.
mod env;
mod exec;
mod heap;
mod id;
mod linker;
mod location;
mod matcher;
mod token;
mod value;

pub use location::Location;
pub use token::Token;
pub use linker::{DefBuilder, DefBuilderVariant, SpecDefBuilder, SpecDefVariant, merge_decl, build_symbol, build_env, boot, run, spec_merge, spec_merge_all, spec_build_value, spec_build_env, spec_boot, synthesized_function, gensym_ids};
pub use exec::{RuntimeError, Step, ContinuationChoice, Machine, SpecStep, SpecChoice, SpecMachine, apply_builtin, step, eval_loop, ArmsOutcome, try_arms, is_weak_head_normal_form, machine_wf, SpecError, SpecOutcome, SpecRun, SpecArms, error_matches, spec_apply, spec_step, spec_step_walk, spec_step_resume, spec_step_arms, spec_run_fuel, spec_try_arms, lemma_first_match_wins, lemma_reduction_deterministic, message_spec};
pub use matcher::{Obligation, SpecObligation, MatchOutcome, SpecMatch, match_obligations, spec_match_pending, spec_match_one, arm_fails, resolve, lemma_arity_mismatch_is_type_failure};
pub use heap::{Heap, Thunk, SpecThunk, heap_le, heap_wf, thunk_le, thunk_wf, lemma_forced_is_stable};
pub use env::{Env, Binding, Frame, SpecEnv, SpecBinding, SpecFrame, lookup_spec, chain, env_wf, env_le, frames_of_bindings, scope_after_bindings};
pub use value::{Value, LiteralValue, Predicate, PatternExpr, Decl, Scope, BuiltinOp, SpecValue, SpecLiteral, SpecPredicate, SpecPatternExpr, SpecDecl};
pub use id::{Id, SpecId, value_from_id, lemma_decimal_injective, lemma_gensym_distinct, IdError, IdErrorTrait, IdImpl, CtorIdImpl, parse_id, internal_id, internal_ctor_id, internal_id_impl, gensym};
