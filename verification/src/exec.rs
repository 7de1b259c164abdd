//! The trampolined evaluator. The machine state is a register — either a
//! term to reduce in a scope, a value in weak head normal form being handed
//! back, or the final result — plus an explicit stack of continuation
//! frames. One `step` performs one transition; no transition uses native
//! recursion, so reduction depth never consumes native call stack.
use vstd::prelude::*;

use crate::env::{
    Env, SpecBinding, SpecEnv, SpecFrame, chain, env_le, env_wf, frames_of_bindings,
    lookup_bindings, lookup_globals, lookup_spec, scope_after_bindings,
};
use crate::heap::{Heap, SpecThunk, heap_le, heap_wf, lemma_heap_le_trans, thunk_wf};
use crate::id::Id;
use crate::matcher::{
    MatchOutcome, Obligation, SpecMatch, SpecObligation, arm_fails, lemma_obligations_view,
    obligations_view, resolve, spec_match_one, spec_match_pending,
};
use crate::value::{
    BuiltinOp, LiteralValue, PatternExpr, Predicate, Scope, SpecLiteral, SpecPatternExpr,
    SpecPredicate, SpecValue, Value, builtin_arity, is_whnf, lemma_value_valid_mono,
    pattern_exprs_view, scope_valid, value_valid,
};

verus! {

/// A fatal evaluation error. Every error aborts the in-flight evaluation;
/// there is no retry and no partial result.
#[derive(Debug, Clone, PartialEq, Eq)]
pub enum RuntimeError {
    /// An identifier resolved in neither the local chain nor the globals.
    UnresolvedSymbol(Id),
    /// Clauses of one name disagree on arity; reported before any reduction.
    InvalidDecl(String),
    /// A value that is not a function stood in function position, or a
    /// builtin was applied to values of the wrong shape.
    InvalidCallsite(String),
    /// Every arm of a match failed against the forced subject.
    NoMatch(String),
    /// Every arm failed and at least one failed because a pattern's shape
    /// disagreed with the forced value's shape.
    MatchTypeError(String),
    /// A thunk demanded its own value while being forced: a self-referential
    /// binding with no fixpoint. Detected, never looped over.
    ReentrantForcing(String),
}

/// The machine register: a term under reduction, a value being handed to
/// the continuation stack, or the final result.
#[derive(Debug)]
pub enum Step {
    /// Reduce `expr` in `scope` to weak head normal form.
    Walk { scope: Scope, expr: Value },
    /// Hand the weak-head-normal `value` to the top continuation frame.
    Resume { value: Value },
    /// The stack is empty: `value` is the program's result.
    Done(Value),
}

/// The mathematical mirror of `Step`.
#[verifier::ext_equal]
pub enum SpecStep {
    Walk { scope: Scope, expr: SpecValue },
    Resume { value: SpecValue },
    Done(SpecValue),
}

impl View for Step {
    type V = SpecStep;

    open spec fn view(&self) -> SpecStep {
        match self {
            Step::Walk { scope, expr } => SpecStep::Walk { scope: *scope, expr: expr@ },
            Step::Resume { value } => SpecStep::Resume { value: value@ },
            Step::Done(value) => SpecStep::Done(value@),
        }
    }
}

/// One continuation frame: a reified "rest of the computation".
#[derive(Debug)]
pub enum ContinuationChoice {
    /// Awaiting the forced subject of a match; holds the defining scope and
    /// the ordered arms.
    Match { scope: Scope, pattern_exprs: Vec<PatternExpr> },
    /// A match suspended inside one arm, awaiting one forced field. Holds
    /// everything needed to resume the arm or to fall back to the arms after
    /// it: the defining scope, the forced subject, the full arm list and the
    /// index of the next arm to try, the blocked pattern, the obligations
    /// after it, the partially bound scope, the arm's body, and whether an
    /// earlier arm failed on a shape mismatch.
    MatchArm {
        scope: Scope,
        subject: Value,
        arms: Vec<PatternExpr>,
        next_arm: usize,
        predicate: Predicate,
        pending: Vec<Obligation>,
        partial: Scope,
        body: Value,
        saw_mismatch: bool,
    },
    /// Awaiting the forced function of a call site; holds the caller's scope
    /// and the unevaluated argument term.
    Application { scope: Scope, argument: Value },
    /// Awaiting one forced builtin argument; holds the operation and the
    /// arguments already collected.
    CollectBuiltin { op: BuiltinOp, args: Vec<Value> },
    /// Awaiting the forced value of the thunk cell being forced; fills the
    /// memo cell exactly once.
    Thunk { cell: usize },
}

/// The mathematical mirror of `ContinuationChoice`.
#[verifier::ext_equal]
pub enum SpecChoice {
    Match { scope: Scope, pattern_exprs: Seq<SpecPatternExpr> },
    MatchArm {
        scope: Scope,
        subject: SpecValue,
        arms: Seq<SpecPatternExpr>,
        next_arm: usize,
        predicate: SpecPredicate,
        pending: Seq<SpecObligation>,
        partial: Scope,
        body: SpecValue,
        saw_mismatch: bool,
    },
    Application { scope: Scope, argument: SpecValue },
    CollectBuiltin { op: BuiltinOp, args: Seq<SpecValue> },
    Thunk { cell: usize },
}

impl View for ContinuationChoice {
    type V = SpecChoice;

    open spec fn view(&self) -> SpecChoice {
        match self {
            ContinuationChoice::Match { scope, pattern_exprs } => SpecChoice::Match {
                scope: *scope,
                pattern_exprs: pattern_exprs_view(pattern_exprs@),
            },
            ContinuationChoice::MatchArm {
                scope,
                subject,
                arms,
                next_arm,
                predicate,
                pending,
                partial,
                body,
                saw_mismatch,
            } => SpecChoice::MatchArm {
                scope: *scope,
                subject: subject@,
                arms: pattern_exprs_view(arms@),
                next_arm: *next_arm,
                predicate: predicate@,
                pending: obligations_view(pending@),
                partial: *partial,
                body: body@,
                saw_mismatch: *saw_mismatch,
            },
            ContinuationChoice::Application { scope, argument } => SpecChoice::Application {
                scope: *scope,
                argument: argument@,
            },
            ContinuationChoice::CollectBuiltin { op, args } => SpecChoice::CollectBuiltin {
                op: *op,
                args: crate::value::values_view(args@),
            },
            ContinuationChoice::Thunk { cell } => SpecChoice::Thunk { cell: *cell },
        }
    }
}

/// The views of a continuation stack.
pub open spec fn stack_view(s: Seq<ContinuationChoice>) -> Seq<SpecChoice>
    decreases s,
{
    if s.len() == 0 {
        Seq::empty()
    } else {
        seq![s[0]@] + stack_view(s.drop_first())
    }
}

/// The view of a continuation stack is the list of the frame views.
pub broadcast proof fn lemma_stack_view(s: Seq<ContinuationChoice>)
    ensures
        (#[trigger] stack_view(s)).len() == s.len(),
        forall|i: int| 0 <= i < s.len() ==> stack_view(s)[i] == s[i]@,
    decreases s,
{
    if s.len() > 0 {
        lemma_stack_view(s.drop_first());
    }
}

/// Every value and scope stored in a frame points into the environment and
/// the heap, and a builtin frame still awaits at least one argument.
pub open spec fn choice_wf(c: SpecChoice, nf: int, nt: int) -> bool {
    match c {
        SpecChoice::Match { scope, pattern_exprs } => scope_valid(scope, nf) && (forall|i: int|
            0 <= i < pattern_exprs.len() ==> value_valid(#[trigger] pattern_exprs[i].expr, nf, nt)),
        SpecChoice::MatchArm {
            scope,
            subject,
            arms,
            next_arm,
            predicate,
            pending,
            partial,
            body,
            saw_mismatch,
        } => {
            &&& scope_valid(scope, nf)
            &&& scope_valid(partial, nf)
            &&& next_arm <= arms.len()
            &&& value_valid(subject, nf, nt)
            &&& value_valid(body, nf, nt)
            &&& forall|i: int| 0 <= i < arms.len() ==> value_valid(#[trigger] arms[i].expr, nf, nt)
            &&& forall|i: int|
                0 <= i < pending.len() ==> value_valid(#[trigger] pending[i].value, nf, nt)
        },
        SpecChoice::Application { scope, argument } => scope_valid(scope, nf) && value_valid(
            argument,
            nf,
            nt,
        ),
        SpecChoice::CollectBuiltin { op, args } => args.len() < builtin_arity(op) && (forall|i: int|
            0 <= i < args.len() ==> value_valid(#[trigger] args[i], nf, nt)),
        SpecChoice::Thunk { cell } => cell < nt,
    }
}

/// The stack is well formed: every frame is, every thunk-update frame
/// points at a cell in the forcing state, and no two thunk-update frames
/// point at the same cell — this is what makes each memo cell writable
/// exactly once.
pub open spec fn stack_wf(stack: Seq<SpecChoice>, heap: Seq<SpecThunk>, nf: int) -> bool {
    &&& forall|i: int| 0 <= i < stack.len() ==> choice_wf(#[trigger] stack[i], nf, heap.len() as int)
    &&& forall|i: int|
        0 <= i < stack.len() ==> (#[trigger] stack[i] matches SpecChoice::Thunk { cell }
            ==> heap[cell as int] is Forcing)
    &&& forall|i: int, j: int|
        0 <= i < j < stack.len() ==> ((#[trigger] stack[i]) matches SpecChoice::Thunk {
            cell: c1,
        } ==> ((#[trigger] stack[j]) matches SpecChoice::Thunk { cell: c2 } ==> c1 != c2))
}

/// The register is well formed: scopes and values point into the arenas and
/// a value being handed back is in weak head normal form.
pub open spec fn state_wf(s: SpecStep, nf: int, nt: int) -> bool {
    match s {
        SpecStep::Walk { scope, expr } => scope_valid(scope, nf) && value_valid(expr, nf, nt),
        SpecStep::Resume { value } => is_whnf(value) && value_valid(value, nf, nt),
        SpecStep::Done(value) => is_whnf(value) && value_valid(value, nf, nt),
    }
}

/// The whole machine: environment, heap, continuation stack and register.
#[derive(Debug)]
pub struct Machine {
    pub env: Env,
    pub heap: Heap,
    pub stack: Vec<ContinuationChoice>,
    pub state: Step,
}

/// The mathematical mirror of `Machine`.
#[verifier::ext_equal]
pub struct SpecMachine {
    pub env: SpecEnv,
    pub heap: Seq<SpecThunk>,
    pub stack: Seq<SpecChoice>,
    pub state: SpecStep,
}

impl View for Machine {
    type V = SpecMachine;

    open spec fn view(&self) -> SpecMachine {
        SpecMachine {
            env: self.env@,
            heap: self.heap@,
            stack: stack_view(self.stack@),
            state: self.state@,
        }
    }
}

/// The machine invariant, preserved by every step.
pub open spec fn machine_wf(m: SpecMachine) -> bool {
    &&& env_wf(m.env, m.heap.len() as int)
    &&& heap_wf(m.heap, m.env.frames.len() as int)
    &&& stack_wf(m.stack, m.heap, m.env.frames.len() as int)
    &&& state_wf(m.state, m.env.frames.len() as int, m.heap.len() as int)
}

/// A frame stays well formed as the environment and heap grow.
pub proof fn lemma_choice_wf_mono(c: SpecChoice, nf1: int, nt1: int, nf2: int, nt2: int)
    requires
        choice_wf(c, nf1, nt1),
        nf1 <= nf2,
        nt1 <= nt2,
    ensures
        choice_wf(c, nf2, nt2),
{
    match c {
        SpecChoice::Match { scope, pattern_exprs } => {
            assert forall|i: int| 0 <= i < pattern_exprs.len() implies value_valid(
                #[trigger] pattern_exprs[i].expr,
                nf2,
                nt2,
            ) by {
                lemma_value_valid_mono(pattern_exprs[i].expr, nf1, nt1, nf2, nt2);
            }
        },
        SpecChoice::MatchArm {
            scope,
            subject,
            arms,
            next_arm,
            predicate,
            pending,
            partial,
            body,
            saw_mismatch,
        } => {
            lemma_value_valid_mono(subject, nf1, nt1, nf2, nt2);
            lemma_value_valid_mono(body, nf1, nt1, nf2, nt2);
            assert forall|i: int| 0 <= i < arms.len() implies value_valid(
                #[trigger] arms[i].expr,
                nf2,
                nt2,
            ) by {
                lemma_value_valid_mono(arms[i].expr, nf1, nt1, nf2, nt2);
            }
            assert forall|i: int| 0 <= i < pending.len() implies value_valid(
                #[trigger] pending[i].value,
                nf2,
                nt2,
            ) by {
                lemma_value_valid_mono(pending[i].value, nf1, nt1, nf2, nt2);
            }
        },
        SpecChoice::Application { scope, argument } => {
            lemma_value_valid_mono(argument, nf1, nt1, nf2, nt2);
        },
        SpecChoice::CollectBuiltin { op, args } => {
            assert forall|i: int| 0 <= i < args.len() implies value_valid(
                #[trigger] args[i],
                nf2,
                nt2,
            ) by {
                lemma_value_valid_mono(args[i], nf1, nt1, nf2, nt2);
            }
        },
        SpecChoice::Thunk { cell } => {},
    }
}

/// A value found by lookup is as valid as the environment it came from.
pub proof fn lemma_chain_values_valid(e: SpecEnv, head: Option<usize>, nt: int)
    requires
        env_wf(e, nt),
        head matches Some(h) ==> h < e.frames.len(),
    ensures
        forall|i: int|
            0 <= i < chain(e.frames, head).len() ==> value_valid(
                (#[trigger] chain(e.frames, head)[i]).value,
                e.frames.len() as int,
                nt,
            ),
    decreases
            (match head {
                Some(h) => h + 1,
                None => 0,
            }),
{
    match head {
        None => {},
        Some(h) => {
            lemma_chain_values_valid(e, e.frames[h as int].parent, nt);
            lemma_value_valid_mono(e.frames[h as int].value, h as int, nt, e.frames.len() as int, nt);
            assert forall|i: int| 0 <= i < chain(e.frames, head).len() implies value_valid(
                (#[trigger] chain(e.frames, head)[i]).value,
                e.frames.len() as int,
                nt,
            ) by {
                if i > 0 {
                    assert(chain(e.frames, head)[i] == chain(
                        e.frames,
                        e.frames[h as int].parent,
                    )[i - 1]);
                }
            }
        },
    }
}

pub proof fn lemma_lookup_bindings_valid(
    bs: Seq<SpecBinding>,
    name: Seq<char>,
    nf: int,
    nt: int,
)
    requires
        forall|i: int| 0 <= i < bs.len() ==> value_valid((#[trigger] bs[i]).value, nf, nt),
    ensures
        lookup_bindings(bs, name) matches Some(v) ==> value_valid(v, nf, nt),
    decreases bs,
{
    if bs.len() > 0 && bs[0].name != name {
        lemma_lookup_bindings_valid(bs.drop_first(), name, nf, nt);
    }
}

pub proof fn lemma_lookup_globals_valid(
    globals: Seq<SpecBinding>,
    name: Seq<char>,
    nf: int,
    nt: int,
)
    requires
        forall|i: int| 0 <= i < globals.len() ==> value_valid((#[trigger] globals[i]).value, 0, nt),
        nf >= 0,
    ensures
        lookup_globals(globals, name) matches Some(v) ==> value_valid(v, nf, nt),
    decreases globals,
{
    if globals.len() > 0 {
        if globals.last().name == name {
            lemma_value_valid_mono(globals.last().value, 0, nt, nf, nt);
        } else {
            lemma_lookup_globals_valid(globals.drop_last(), name, nf, nt);
        }
    }
}

/// Whatever a well-formed environment resolves a name to is valid in it.
pub proof fn lemma_lookup_valid(e: SpecEnv, scope: Scope, name: Seq<char>, nt: int)
    requires
        env_wf(e, nt),
        scope_valid(scope, e.frames.len() as int),
    ensures
        lookup_spec(e, scope, name) matches Some(v) ==> value_valid(
            v,
            e.frames.len() as int,
            nt,
        ),
{
    lemma_chain_values_valid(e, scope.head, nt);
    lemma_lookup_bindings_valid(chain(e.frames, scope.head), name, e.frames.len() as int, nt);
    lemma_lookup_globals_valid(e.globals, name, e.frames.len() as int, nt);
}

/// Applies a saturated builtin to its forced arguments. Strict integer
/// addition wraps on overflow; anything but two integer literals is an
/// invalid call site.
pub fn apply_builtin(op: BuiltinOp, args: Vec<Value>) -> (r: Result<Value, RuntimeError>)
    requires
        args@.len() == builtin_arity(op),
    ensures
        (match op {
            BuiltinOp::Add => match (args@[0]@, args@[1]@) {
                (
                    SpecValue::Literal(SpecLiteral::Int(a)),
                    SpecValue::Literal(SpecLiteral::Int(b)),
                ) => r matches Ok(v) && v@ == SpecValue::Literal(
                    SpecLiteral::Int(a.wrapping_add(b)),
                ),
                _ => r matches Err(e) && e is InvalidCallsite,
            },
        }),
        r matches Ok(v) ==> is_whnf(v@) && value_valid(v@, 0, 0),
{
    match op {
        BuiltinOp::Add => {
            let a = match &args[0] {
                Value::Literal(l) => match l {
                    LiteralValue::Int(a) => *a,
                    _ => {
                        return Err(
                            RuntimeError::InvalidCallsite(
                                String::from_str("+ requires two integers"),
                            ),
                        );
                    },
                },
                _ => {
                    return Err(
                        RuntimeError::InvalidCallsite(String::from_str("+ requires two integers")),
                    );
                },
            };
            let b = match &args[1] {
                Value::Literal(l) => match l {
                    LiteralValue::Int(b) => *b,
                    _ => {
                        return Err(
                            RuntimeError::InvalidCallsite(
                                String::from_str("+ requires two integers"),
                            ),
                        );
                    },
                },
                _ => {
                    return Err(
                        RuntimeError::InvalidCallsite(String::from_str("+ requires two integers")),
                    );
                },
            };
            Ok(Value::Literal(LiteralValue::Int(a.wrapping_add(b))))
        },
    }
}


/// A cell stays well formed as the environment and heap grow.
pub proof fn lemma_thunk_wf_mono(t: SpecThunk, nf1: int, nt1: int, nf2: int, nt2: int)
    requires
        thunk_wf(t, nf1, nt1),
        nf1 <= nf2,
        nt1 <= nt2,
    ensures
        thunk_wf(t, nf2, nt2),
{
    match t {
        SpecThunk::Unforced { scope, expr } => lemma_value_valid_mono(expr, nf1, nt1, nf2, nt2),
        SpecThunk::Forcing => {},
        SpecThunk::Forced(v) => lemma_value_valid_mono(v, nf1, nt1, nf2, nt2),
    }
}

/// Suspending one more computation keeps the heap well formed.
pub proof fn lemma_heap_wf_push(h: Seq<SpecThunk>, nf: int, scope: Scope, expr: SpecValue)
    requires
        heap_wf(h, nf),
        scope_valid(scope, nf),
        value_valid(expr, nf, h.len() as int),
    ensures
        heap_wf(h.push(SpecThunk::Unforced { scope, expr }), nf),
{
    let h2 = h.push(SpecThunk::Unforced { scope, expr });
    assert forall|i: int| 0 <= i < h2.len() implies thunk_wf(
        #[trigger] h2[i],
        nf,
        h2.len() as int,
    ) by {
        if i < h.len() {
            lemma_thunk_wf_mono(h[i], nf, h.len() as int, nf, h2.len() as int);
        } else {
            lemma_value_valid_mono(expr, nf, h.len() as int, nf, h2.len() as int);
        }
    }
}

/// The heap stays well formed as the environment grows.
pub proof fn lemma_heap_wf_env_grow(h: Seq<SpecThunk>, nf1: int, nf2: int)
    requires
        heap_wf(h, nf1),
        nf1 <= nf2,
    ensures
        heap_wf(h, nf2),
{
    assert forall|i: int| 0 <= i < h.len() implies thunk_wf(
        #[trigger] h[i],
        nf2,
        h.len() as int,
    ) by {
        lemma_thunk_wf_mono(h[i], nf1, h.len() as int, nf2, h.len() as int);
    }
}

/// The outcome of trying the arms of a match, in order, against a forced
/// subject, at the level of the mathematical model.
pub enum SpecArms {
    /// The first arm whose pattern matches, with the bindings it makes.
    Taken { index: int, binds: Seq<SpecBinding> },
    /// The first undecided arm: its pattern reached a value that is not yet
    /// in weak head normal form, with the whole state of the half-done
    /// match; every arm before it fails.
    Blocked {
        index: int,
        predicate: SpecPredicate,
        value: SpecValue,
        rest: Seq<SpecObligation>,
        bound: Seq<SpecBinding>,
        saw: bool,
    },
    /// Every arm from the starting one on fails; `saw` reports whether any
    /// failure was a shape mismatch.
    Exhausted { saw: bool },
}

/// Which arm a match takes: the arms are tried in order from `i` and the
/// first whose pattern matches the subject wins; `saw` accumulates whether
/// a tried arm failed on a shape mismatch.
pub open spec fn spec_try_arms(
    heap: Seq<SpecThunk>,
    arms: Seq<SpecPatternExpr>,
    subject: SpecValue,
    i: int,
    saw: bool,
) -> SpecArms
    decreases arms.len() - i,
{
    if i >= arms.len() {
        SpecArms::Exhausted { saw }
    } else {
        match spec_match_one(heap, arms[i].predicate, subject) {
            SpecMatch::Bound(bs) => SpecArms::Taken { index: i, binds: bs },
            SpecMatch::Fail => spec_try_arms(heap, arms, subject, i + 1, saw),
            SpecMatch::TypeFail => spec_try_arms(heap, arms, subject, i + 1, true),
            SpecMatch::Stuck { predicate, value, rest, bound } => SpecArms::Blocked {
                index: i,
                predicate,
                value,
                rest,
                bound,
                saw,
            },
        }
    }
}

/// Arm ordering: the arm a match takes is the first whose pattern matches
/// the subject — every arm before it provably fails — and when the arms are
/// exhausted, every arm from the start on fails, with a shape mismatch
/// reported exactly when one occurred.
pub proof fn lemma_first_match_wins(
    heap: Seq<SpecThunk>,
    arms: Seq<SpecPatternExpr>,
    subject: SpecValue,
    i: int,
    saw: bool,
)
    requires
        0 <= i <= arms.len(),
    ensures
        (match spec_try_arms(heap, arms, subject, i, saw) {
            SpecArms::Taken { index, binds } => {
                &&& i <= index < arms.len()
                &&& spec_match_one(heap, arms[index].predicate, subject) == SpecMatch::Bound(binds)
                &&& forall|j: int| i <= j < index ==> arm_fails(heap, arms[j].predicate, subject)
            },
            SpecArms::Blocked { index, predicate, value, rest, bound, saw: sw } => {
                &&& i <= index < arms.len()
                &&& spec_match_one(heap, arms[index].predicate, subject) == (SpecMatch::Stuck {
                    predicate,
                    value,
                    rest,
                    bound,
                })
                &&& forall|j: int| i <= j < index ==> arm_fails(heap, arms[j].predicate, subject)
                &&& sw == (saw || exists|j: int|
                    i <= j < index && spec_match_one(heap, arms[j].predicate, subject) is TypeFail)
            },
            SpecArms::Exhausted { saw: sw } => {
                &&& forall|j: int| i <= j < arms.len() ==> arm_fails(heap, arms[j].predicate, subject)
                &&& sw == (saw || exists|j: int|
                    i <= j < arms.len() && spec_match_one(heap, arms[j].predicate, subject)
                        is TypeFail)
            },
        }),
    decreases arms.len() - i,
{
    if i < arms.len() {
        match spec_match_one(heap, arms[i].predicate, subject) {
            SpecMatch::Fail => {
                lemma_first_match_wins(heap, arms, subject, i + 1, saw);
            },
            SpecMatch::TypeFail => {
                lemma_first_match_wins(heap, arms, subject, i + 1, true);
                match spec_try_arms(heap, arms, subject, i + 1, true) {
                    SpecArms::Blocked { index, saw: sw, .. } => {
                        assert(spec_match_one(heap, arms[i].predicate, subject) is TypeFail);
                    },
                    _ => {},
                }
            },
            _ => {},
        }
    }
}

/// The outcome of trying the arms of a match, in order, against a forced
/// subject.
pub enum ArmsOutcome {
    /// The first arm whose pattern matched: reduce `body` in `scope`.
    Taken { scope: Scope, body: Value, index: Ghost<int> },
    /// Some arm's pattern reached an unforced value: `frame` remembers the
    /// whole state of the match and `value` must be reduced first.
    Suspended { frame: ContinuationChoice, value: Value },
    /// No arm matched; `shape_mismatch` reports whether any arm failed on a
    /// shape disagreement.
    Exhausted { shape_mismatch: bool },
}

/// Tries the arms from `start` on, in declaration order, against the forced
/// `subject`: exactly the behaviour of `spec_try_arms`. A failed arm leaves
/// the environment untouched; only the taken or blocked arm commits its
/// bindings.
#[verifier::loop_isolation(false)]
pub fn try_arms(
    env: &mut Env,
    heap: &Heap,
    scope: Scope,
    subject: Value,
    arms: Vec<PatternExpr>,
    start: usize,
    saw: bool,
) -> (r: ArmsOutcome)
    requires
        env_wf(old(env)@, heap@.len() as int),
        heap_wf(heap@, old(env)@.frames.len() as int),
        scope_valid(scope, old(env)@.frames.len() as int),
        value_valid(subject@, old(env)@.frames.len() as int, heap@.len() as int),
        forall|i: int|
            0 <= i < arms@.len() ==> value_valid(
                pattern_exprs_view(arms@)[i].expr,
                old(env)@.frames.len() as int,
                heap@.len() as int,
            ),
        start <= arms@.len(),
    ensures
        env_le(old(env)@, final(env)@),
        env_wf(final(env)@, heap@.len() as int),
        (match spec_try_arms(heap@, pattern_exprs_view(arms@), subject@, start as int, saw) {
            SpecArms::Taken { index, binds } => {
                &&& r matches ArmsOutcome::Taken { scope: s2, body, index: gi }
                &&& gi@ == index
                &&& final(env)@.globals == old(env)@.globals
                &&& final(env)@.frames == old(env)@.frames + frames_of_bindings(
                    old(env)@.frames.len() as int,
                    scope.head,
                    binds,
                )
                &&& s2 == scope_after_bindings(
                    old(env)@.frames.len() as int,
                    scope.head,
                    binds,
                )
                &&& body@ == pattern_exprs_view(arms@)[index].expr
                &&& chain(final(env)@.frames, s2.head) == binds.reverse() + chain(
                    old(env)@.frames,
                    scope.head,
                )
                &&& value_valid(body@, final(env)@.frames.len() as int, heap@.len() as int)
            },
            SpecArms::Blocked { index, predicate, value, rest, bound, saw: sw } => {
                &&& r matches ArmsOutcome::Suspended { frame, value: v2 }
                &&& v2@ == value
                &&& frame@ == (SpecChoice::MatchArm {
                    scope,
                    subject: subject@,
                    arms: pattern_exprs_view(arms@),
                    next_arm: (index + 1) as usize,
                    predicate,
                    pending: rest,
                    partial: scope_after_bindings(
                        old(env)@.frames.len() as int,
                        scope.head,
                        bound,
                    ),
                    body: pattern_exprs_view(arms@)[index].expr,
                    saw_mismatch: sw,
                })
                &&& final(env)@.globals == old(env)@.globals
                &&& final(env)@.frames == old(env)@.frames + frames_of_bindings(
                    old(env)@.frames.len() as int,
                    scope.head,
                    bound,
                )
                &&& choice_wf(frame@, final(env)@.frames.len() as int, heap@.len() as int)
                &&& value_valid(value, final(env)@.frames.len() as int, heap@.len() as int)
            },
            SpecArms::Exhausted { saw: sw } => r == (ArmsOutcome::Exhausted {
                shape_mismatch: sw,
            }) && final(env)@ == old(env)@,
        }),
{
    proof {
        broadcast use crate::value::lemma_pattern_exprs_view, lemma_obligations_view;

    }
    let ghost av = pattern_exprs_view(arms@);
    let ghost nf = old(env)@.frames.len() as int;
    let ghost nt = heap@.len() as int;
    let ghost a0 = spec_try_arms(heap@, av, subject@, start as int, saw);
    let mut i = start;
    let mut sawm = saw;
    loop
        invariant
            start <= i <= arms@.len(),
            env@ == old(env)@,
            spec_try_arms(heap@, av, subject@, i as int, sawm) == a0,
        decreases arms@.len() - i,
    {
        proof {
            broadcast use crate::value::lemma_pattern_exprs_view, lemma_obligations_view;

        }
        if i >= arms.len() {
            proof {
                assert(a0 == (SpecArms::Exhausted { saw: sawm }));
            }
            return ArmsOutcome::Exhausted { shape_mismatch: sawm };
        }
        let pred = arms[i].predicate.clone();
        let sub = subject.clone();
        let mut pending: Vec<Obligation> = Vec::new();
        pending.push(Obligation { predicate: pred, value: sub });
        proof {
            assert(obligations_view(pending@) =~= seq![
                SpecObligation { predicate: av[i as int].predicate, value: subject@ },
            ]);
        }
        let outcome = crate::matcher::match_obligations(env, heap, scope, &mut pending);
        match outcome {
            MatchOutcome::Matched { scope: s2 } => {
                let body = arms[i].expr.clone();
                proof {
                    assert(spec_match_one(heap@, av[i as int].predicate, subject@) matches
                        SpecMatch::Bound(bs) && a0 == (SpecArms::Taken {
                        index: i as int,
                        binds: bs,
                    }));
                    lemma_value_valid_mono(
                        body@,
                        nf,
                        nt,
                        env@.frames.len() as int,
                        nt,
                    );
                }
                return ArmsOutcome::Taken { scope: s2, body, index: Ghost(i as int) };
            },
            MatchOutcome::Failed { shape_mismatch } => {
                sawm = sawm || shape_mismatch;
                i = i + 1;
            },
            MatchOutcome::Suspend { predicate, value, scope: partial } => {
                let body = arms[i].expr.clone();
                let next_arm = i + 1;
                proof {
                    assert(spec_match_one(heap@, av[i as int].predicate, subject@) matches
                        SpecMatch::Stuck { predicate: sp, value: sv, rest: sr, bound: sb }
                        && a0 == (SpecArms::Blocked {
                        index: i as int,
                        predicate: sp,
                        value: sv,
                        rest: sr,
                        bound: sb,
                        saw: sawm,
                    }));
                    lemma_value_valid_mono(subject@, nf, nt, env@.frames.len() as int, nt);
                    lemma_value_valid_mono(body@, nf, nt, env@.frames.len() as int, nt);
                    assert forall|k: int| 0 <= k < av.len() implies value_valid(
                        #[trigger] av[k].expr,
                        env@.frames.len() as int,
                        nt,
                    ) by {
                        lemma_value_valid_mono(av[k].expr, nf, nt, env@.frames.len() as int, nt);
                    }
                }
                let frame = ContinuationChoice::MatchArm {
                    scope,
                    subject,
                    arms,
                    next_arm,
                    predicate,
                    pending,
                    partial,
                    body,
                    saw_mismatch: sawm,
                };
                proof {
                    assert(frame@ matches SpecChoice::MatchArm { .. });
                }
                return ArmsOutcome::Suspended { frame, value };
            },
        }
    }
}

/// The environment stays well formed as the heap grows.
pub proof fn lemma_env_wf_grow(e: SpecEnv, nt1: int, nt2: int)
    requires
        env_wf(e, nt1),
        nt1 <= nt2,
    ensures
        env_wf(e, nt2),
{
    assert forall|i: int| 0 <= i < e.frames.len() implies value_valid(
        #[trigger] e.frames[i].value,
        i,
        nt2,
    ) by {
        lemma_value_valid_mono(e.frames[i].value, i, nt1, i, nt2);
    }
    assert forall|i: int| 0 <= i < e.globals.len() implies value_valid(
        #[trigger] e.globals[i].value,
        0,
        nt2,
    ) by {
        lemma_value_valid_mono(e.globals[i].value, 0, nt1, 0, nt2);
    }
}

/// The stack stays well formed as the arenas grow, as long as every old
/// heap cell is untouched.
pub proof fn lemma_stack_wf_grow(
    stack: Seq<SpecChoice>,
    h1: Seq<SpecThunk>,
    h2: Seq<SpecThunk>,
    nf1: int,
    nf2: int,
)
    requires
        stack_wf(stack, h1, nf1),
        nf1 <= nf2,
        h1.len() <= h2.len(),
        forall|i: int| 0 <= i < h1.len() ==> h2[i] == h1[i],
    ensures
        stack_wf(stack, h2, nf2),
{
    assert forall|i: int| 0 <= i < stack.len() implies choice_wf(
        #[trigger] stack[i],
        nf2,
        h2.len() as int,
    ) by {
        lemma_choice_wf_mono(stack[i], nf1, h1.len() as int, nf2, h2.len() as int);
    }
}

/// Pushing a frame that is not a thunk-update frame keeps the stack well
/// formed.
pub proof fn lemma_stack_wf_push(
    stack: Seq<SpecChoice>,
    h: Seq<SpecThunk>,
    nf: int,
    c: SpecChoice,
)
    requires
        stack_wf(stack, h, nf),
        choice_wf(c, nf, h.len() as int),
        !(c is Thunk),
    ensures
        stack_wf(stack.push(c), h, nf),
{
}

/// The error kinds of the mathematical model. A spec-level error names the
/// variant (and for an unresolved symbol the name); the executable error
/// adds only diagnostic text.
pub enum SpecError {
    UnresolvedSymbol(Seq<char>),
    InvalidDecl,
    InvalidCallsite,
    NoMatch,
    MatchTypeError,
    ReentrantForcing,
}

/// Whether an executable error is the given spec-level error.
pub open spec fn error_matches(e: RuntimeError, k: SpecError) -> bool {
    match k {
        SpecError::UnresolvedSymbol(n) => e matches RuntimeError::UnresolvedSymbol(id) && id@.name
            == n,
        SpecError::InvalidDecl => e is InvalidDecl,
        SpecError::InvalidCallsite => e is InvalidCallsite,
        SpecError::NoMatch => e is NoMatch,
        SpecError::MatchTypeError => e is MatchTypeError,
        SpecError::ReentrantForcing => e is ReentrantForcing,
    }
}

/// What a saturated builtin computes: strict integer addition, wrapping on
/// overflow; anything else is no result.
pub open spec fn spec_apply(op: BuiltinOp, args: Seq<SpecValue>) -> Option<SpecValue> {
    match op {
        BuiltinOp::Add => match (args[0], args[1]) {
            (
                SpecValue::Literal(SpecLiteral::Int(a)),
                SpecValue::Literal(SpecLiteral::Int(b)),
            ) => Some(SpecValue::Literal(SpecLiteral::Int(a.wrapping_add(b)))),
            _ => None,
        },
    }
}

/// The result of one transition: the next machine, or the fatal error that
/// aborts the evaluation.
pub enum SpecOutcome {
    Next(SpecMachine),
    Stop(SpecError),
}

/// The machine after a match takes, suspends in, or exhausts its arms from
/// `start` on: the model of handing a forced subject to a match frame.
pub open spec fn spec_step_arms(
    env: SpecEnv,
    heap: Seq<SpecThunk>,
    stack: Seq<SpecChoice>,
    scope: Scope,
    arms: Seq<SpecPatternExpr>,
    subject: SpecValue,
    start: int,
    saw: bool,
) -> SpecOutcome {
    match spec_try_arms(heap, arms, subject, start, saw) {
        SpecArms::Taken { index, binds } => SpecOutcome::Next(
            SpecMachine {
                env: SpecEnv {
                    globals: env.globals,
                    frames: env.frames + frames_of_bindings(
                        env.frames.len() as int,
                        scope.head,
                        binds,
                    ),
                },
                heap,
                stack,
                state: SpecStep::Walk {
                    scope: scope_after_bindings(env.frames.len() as int, scope.head, binds),
                    expr: arms[index].expr,
                },
            },
        ),
        SpecArms::Blocked { index, predicate, value, rest, bound, saw: sw } => SpecOutcome::Next(
            SpecMachine {
                env: SpecEnv {
                    globals: env.globals,
                    frames: env.frames + frames_of_bindings(
                        env.frames.len() as int,
                        scope.head,
                        bound,
                    ),
                },
                heap,
                stack: stack.push(
                    SpecChoice::MatchArm {
                        scope,
                        subject,
                        arms,
                        next_arm: (index + 1) as usize,
                        predicate,
                        pending: rest,
                        partial: scope_after_bindings(
                            env.frames.len() as int,
                            scope.head,
                            bound,
                        ),
                        body: arms[index].expr,
                        saw_mismatch: sw,
                    },
                ),
                state: SpecStep::Walk { scope, expr: value },
            },
        ),
        SpecArms::Exhausted { saw: sw } => SpecOutcome::Stop(
            if sw {
                SpecError::MatchTypeError
            } else {
                SpecError::NoMatch
            },
        ),
    }
}

/// One reduction of a term toward weak head normal form: the Reduce phase.
/// A value already exposing its shape is handed back; an identifier is
/// looked up, local chain before globals; a lambda captures the scope in
/// force; match and call sites push their frames and descend; a tuple
/// construction suspends every field; a let suspends its bound term and
/// extends the scope; a thunk reference reads its memo cell, or begins
/// forcing, or reports a re-entrant demand.
pub open spec fn spec_step_walk(
    env: SpecEnv,
    heap: Seq<SpecThunk>,
    stack: Seq<SpecChoice>,
    scope: Scope,
    expr: SpecValue,
) -> SpecOutcome {
    if is_whnf(expr) {
        SpecOutcome::Next(
            SpecMachine { env, heap, stack, state: SpecStep::Resume { value: expr } },
        )
    } else {
        match expr {
            SpecValue::Id(id) => match lookup_spec(env, scope, id.name) {
                None => SpecOutcome::Stop(SpecError::UnresolvedSymbol(id.name)),
                Some(v) => SpecOutcome::Next(
                    SpecMachine { env, heap, stack, state: SpecStep::Walk { scope, expr: v } },
                ),
            },
            SpecValue::Lambda { param, body } => SpecOutcome::Next(
                SpecMachine {
                    env,
                    heap,
                    stack,
                    state: SpecStep::Resume {
                        value: SpecValue::Closure { param, body, scope },
                    },
                },
            ),
            SpecValue::Match { subject, pattern_exprs } => SpecOutcome::Next(
                SpecMachine {
                    env,
                    heap,
                    stack: stack.push(SpecChoice::Match { scope, pattern_exprs }),
                    state: SpecStep::Walk { scope, expr: *subject },
                },
            ),
            SpecValue::Callsite { function, argument } => SpecOutcome::Next(
                SpecMachine {
                    env,
                    heap,
                    stack: stack.push(SpecChoice::Application { scope, argument: *argument }),
                    state: SpecStep::Walk { scope, expr: *function },
                },
            ),
            SpecValue::TupleCtor { dims } => SpecOutcome::Next(
                SpecMachine {
                    env,
                    heap: heap + Seq::new(
                        dims.len(),
                        |i: int| SpecThunk::Unforced { scope, expr: dims[i] },
                    ),
                    stack,
                    state: SpecStep::Resume {
                        value: SpecValue::Tuple {
                            dims: Seq::new(
                                dims.len(),
                                |i: int| SpecValue::Thunk((heap.len() + i) as usize),
                            ),
                        },
                    },
                },
            ),
            SpecValue::Let { name, value, body } => SpecOutcome::Next(
                SpecMachine {
                    env: SpecEnv {
                        globals: env.globals,
                        frames: env.frames.push(
                            SpecFrame {
                                name: name.name,
                                value: SpecValue::Thunk(heap.len() as usize),
                                parent: scope.head,
                            },
                        ),
                    },
                    heap: heap.push(SpecThunk::Unforced { scope, expr: *value }),
                    stack,
                    state: SpecStep::Walk {
                        scope: Scope { head: Some(env.frames.len() as usize) },
                        expr: *body,
                    },
                },
            ),
            SpecValue::Thunk(t) => if t < heap.len() {
                match heap[t as int] {
                    SpecThunk::Forced(w) => SpecOutcome::Next(
                        SpecMachine { env, heap, stack, state: SpecStep::Resume { value: w } },
                    ),
                    SpecThunk::Forcing => SpecOutcome::Stop(SpecError::ReentrantForcing),
                    SpecThunk::Unforced { scope: s2, expr: e2 } => SpecOutcome::Next(
                        SpecMachine {
                            env,
                            heap: heap.update(t as int, SpecThunk::Forcing),
                            stack: stack.push(SpecChoice::Thunk { cell: t }),
                            state: SpecStep::Walk { scope: s2, expr: e2 },
                        },
                    ),
                }
            } else {
                SpecOutcome::Stop(SpecError::ReentrantForcing)
            },
            _ => SpecOutcome::Stop(SpecError::InvalidCallsite),
        }
    }
}

/// One handing of a weak-head-normal value to the continuation stack: the
/// Resume phase. An empty stack ends the program; a thunk-update frame
/// fills its memo cell exactly once; a match frame tries its arms in
/// order; a suspended arm resumes with the forced field; an application
/// frame applies a closure (extending the closure's own captured scope
/// with the argument suspended in the caller's), feeds a builtin, or
/// attaches a constructor field; a builtin frame collects the forced
/// argument and runs the native function at saturation.
pub open spec fn spec_step_resume(
    env: SpecEnv,
    heap: Seq<SpecThunk>,
    stack: Seq<SpecChoice>,
    value: SpecValue,
) -> SpecOutcome {
    if stack.len() == 0 {
        SpecOutcome::Next(SpecMachine { env, heap, stack, state: SpecStep::Done(value) })
    } else {
        let frame = stack.last();
        let rest = stack.drop_last();
        match frame {
            SpecChoice::Thunk { cell } => SpecOutcome::Next(
                SpecMachine {
                    env,
                    heap: heap.update(cell as int, SpecThunk::Forced(value)),
                    stack: rest,
                    state: SpecStep::Resume { value },
                },
            ),
            SpecChoice::Match { scope, pattern_exprs } => spec_step_arms(
                env,
                heap,
                rest,
                scope,
                pattern_exprs,
                value,
                0,
                false,
            ),
            SpecChoice::MatchArm {
                scope,
                subject,
                arms,
                next_arm,
                predicate,
                pending,
                partial,
                body,
                saw_mismatch,
            } => {
                let pend2 = pending.push(SpecObligation { predicate, value });
                match spec_match_pending(heap, pend2, Seq::empty()) {
                    SpecMatch::Bound(bs) => SpecOutcome::Next(
                        SpecMachine {
                            env: SpecEnv {
                                globals: env.globals,
                                frames: env.frames + frames_of_bindings(
                                    env.frames.len() as int,
                                    partial.head,
                                    bs,
                                ),
                            },
                            heap,
                            stack: rest,
                            state: SpecStep::Walk {
                                scope: scope_after_bindings(
                                    env.frames.len() as int,
                                    partial.head,
                                    bs,
                                ),
                                expr: body,
                            },
                        },
                    ),
                    SpecMatch::Fail => spec_step_arms(
                        env,
                        heap,
                        rest,
                        scope,
                        arms,
                        subject,
                        next_arm as int,
                        saw_mismatch,
                    ),
                    SpecMatch::TypeFail => spec_step_arms(
                        env,
                        heap,
                        rest,
                        scope,
                        arms,
                        subject,
                        next_arm as int,
                        true,
                    ),
                    SpecMatch::Stuck { predicate: p2, value: v2, rest: pending2, bound } => SpecOutcome::Next(
                        SpecMachine {
                            env: SpecEnv {
                                globals: env.globals,
                                frames: env.frames + frames_of_bindings(
                                    env.frames.len() as int,
                                    partial.head,
                                    bound,
                                ),
                            },
                            heap,
                            stack: rest.push(
                                SpecChoice::MatchArm {
                                    scope,
                                    subject,
                                    arms,
                                    next_arm,
                                    predicate: p2,
                                    pending: pending2,
                                    partial: scope_after_bindings(
                                        env.frames.len() as int,
                                        partial.head,
                                        bound,
                                    ),
                                    body,
                                    saw_mismatch,
                                },
                            ),
                            state: SpecStep::Walk { scope, expr: v2 },
                        },
                    ),
                }
            },
            SpecChoice::Application { scope, argument } => match value {
                SpecValue::Closure { param, body, scope: cscope } => SpecOutcome::Next(
                    SpecMachine {
                        env: SpecEnv {
                            globals: env.globals,
                            frames: env.frames.push(
                                SpecFrame {
                                    name: param.name,
                                    value: SpecValue::Thunk(heap.len() as usize),
                                    parent: cscope.head,
                                },
                            ),
                        },
                        heap: heap.push(SpecThunk::Unforced { scope, expr: argument }),
                        stack: rest,
                        state: SpecStep::Walk {
                            scope: Scope { head: Some(env.frames.len() as usize) },
                            expr: *body,
                        },
                    },
                ),
                SpecValue::Builtin { op, args } => if args.len() < builtin_arity(op) {
                    SpecOutcome::Next(
                        SpecMachine {
                            env,
                            heap,
                            stack: rest.push(SpecChoice::CollectBuiltin { op, args }),
                            state: SpecStep::Walk { scope, expr: argument },
                        },
                    )
                } else {
                    SpecOutcome::Stop(SpecError::InvalidCallsite)
                },
                SpecValue::Ctor { name, dims } => SpecOutcome::Next(
                    SpecMachine {
                        env,
                        heap: heap.push(SpecThunk::Unforced { scope, expr: argument }),
                        stack: rest,
                        state: SpecStep::Resume {
                            value: SpecValue::Ctor {
                                name,
                                dims: dims.push(SpecValue::Thunk(heap.len() as usize)),
                            },
                        },
                    },
                ),
                _ => SpecOutcome::Stop(SpecError::InvalidCallsite),
            },
            SpecChoice::CollectBuiltin { op, args } => {
                let args2 = args.push(value);
                if args2.len() == builtin_arity(op) {
                    match spec_apply(op, args2) {
                        Some(v) => SpecOutcome::Next(
                            SpecMachine {
                                env,
                                heap,
                                stack: rest,
                                state: SpecStep::Resume { value: v },
                            },
                        ),
                        None => SpecOutcome::Stop(SpecError::InvalidCallsite),
                    }
                } else {
                    SpecOutcome::Next(
                        SpecMachine {
                            env,
                            heap,
                            stack: rest,
                            state: SpecStep::Resume {
                                value: SpecValue::Builtin { op, args: args2 },
                            },
                        },
                    )
                }
            },
        }
    }
}

/// One transition of the trampoline, at the level of the mathematical
/// model: the rules of the Reduce and Resume phases. A machine whose
/// register is already the final result transitions to itself.
pub open spec fn spec_step(m: SpecMachine) -> SpecOutcome {
    match m.state {
        SpecStep::Done(_) => SpecOutcome::Next(m),
        SpecStep::Walk { scope, expr } => spec_step_walk(m.env, m.heap, m.stack, scope, expr),
        SpecStep::Resume { value } => spec_step_resume(m.env, m.heap, m.stack, value),
    }
}

/// One `Walk` transition: reduce `expr` one step toward weak head normal
/// form in `scope`.
#[verifier::loop_isolation(false)]
#[verifier::rlimit(60)]
fn step_walk(m: &mut Machine, scope: Scope, expr: Value) -> (r: Result<(), RuntimeError>)
    requires
        machine_wf(old(m)@),
        scope_valid(scope, old(m)@.env.frames.len() as int),
        value_valid(expr@, old(m)@.env.frames.len() as int, old(m)@.heap.len() as int),
    ensures
        machine_wf(final(m)@),
        heap_le(old(m)@.heap, final(m)@.heap),
        env_le(old(m)@.env, final(m)@.env),
        (match spec_step_walk(old(m)@.env, old(m)@.heap, old(m)@.stack, scope, expr@) {
            SpecOutcome::Next(m2) => r is Ok && final(m)@ == m2,
            SpecOutcome::Stop(k) => r matches Err(e) && error_matches(e, k),
        }),
{
    proof {
        broadcast use lemma_stack_view;

    }
    let ghost nf = old(m)@.env.frames.len() as int;
    let ghost nt = old(m)@.heap.len() as int;
    let ghost ev = expr@;
    // A value that already exposes its shape is handed straight back.
    if expr.is_weak_head_normal_form() {
        m.state = Step::Resume { value: expr };
        proof {
            assert(m@ =~~= (SpecMachine {
                env: old(m)@.env,
                heap: old(m)@.heap,
                stack: old(m)@.stack,
                state: SpecStep::Resume { value: ev },
            }));
        }
        return Ok(());
    }
    match expr {
        Value::Id(id) => {
            let found = m.env.get_symbol(scope, id.name());
            match found {
                None => Err(RuntimeError::UnresolvedSymbol(id)),
                Some(v) => {
                    // The bound value keeps its own captured environment: a
                    // thunk carries its scope, a closure its defining scope.
                    proof {
                        lemma_lookup_valid(m.env@, scope, id@.name, nt);
                    }
                    m.state = Step::Walk { scope, expr: v };
                    proof {
                        assert(m@ =~~= (SpecMachine {
                            env: old(m)@.env,
                            heap: old(m)@.heap,
                            stack: old(m)@.stack,
                            state: m@.state,
                        }));
                    }
                    Ok(())
                },
            }
        },
        Value::Lambda { param, body } => {
            // Reducing a lambda captures the scope in force: lexical, not
            // dynamic, scoping.
            m.state = Step::Resume { value: Value::Closure { param, body, scope } };
            proof {
                assert(m@ =~~= (SpecMachine {
                    env: old(m)@.env,
                    heap: old(m)@.heap,
                    stack: old(m)@.stack,
                    state: SpecStep::Resume {
                        value: SpecValue::Closure {
                            param: ev->Lambda_param,
                            body: ev->Lambda_body,
                            scope,
                        },
                    },
                }));
            }
            Ok(())
        },
        Value::Match { subject, pattern_exprs } => {
            proof {
                lemma_stack_wf_push(
                    old(m)@.stack,
                    m.heap@,
                    nf,
                    SpecChoice::Match {
                        scope,
                        pattern_exprs: pattern_exprs_view(pattern_exprs@),
                    },
                );
            }
            m.stack.push(ContinuationChoice::Match { scope, pattern_exprs });
            m.state = Step::Walk { scope, expr: *subject };
            proof {
                assert(stack_view(m.stack@) =~= old(m)@.stack.push(m.stack@.last()@));
                assert(m@ =~~= (SpecMachine {
                    env: old(m)@.env,
                    heap: old(m)@.heap,
                    stack: old(m)@.stack.push(
                        (SpecChoice::Match {
                            scope,
                            pattern_exprs: ev->Match_pattern_exprs,
                        }),
                    ),
                    state: SpecStep::Walk { scope, expr: *ev->Match_subject },
                }));
            }
            Ok(())
        },
        Value::Callsite { function, argument } => {
            // Only the function position is forced; the argument term waits
            // in the frame, deferred.
            proof {
                lemma_stack_wf_push(
                    old(m)@.stack,
                    m.heap@,
                    nf,
                    SpecChoice::Application { scope, argument: argument@ },
                );
            }
            m.stack.push(ContinuationChoice::Application { scope, argument: *argument });
            m.state = Step::Walk { scope, expr: *function };
            proof {
                assert(stack_view(m.stack@) =~= old(m)@.stack.push(m.stack@.last()@));
                assert(m@ =~~= (SpecMachine {
                    env: old(m)@.env,
                    heap: old(m)@.heap,
                    stack: old(m)@.stack.push(
                        (SpecChoice::Application {
                            scope,
                            argument: *ev->Callsite_argument,
                        }),
                    ),
                    state: SpecStep::Walk { scope, expr: *ev->Callsite_function },
                }));
            }
            Ok(())
        },
        Value::Let { name, value, body } => {
            // The bound term is suspended in the current scope and never
            // touched until forced; the body runs in the extended scope.
            let t = m.heap.suspend(scope, *value);
            let s2 = m.env.add_symbol(scope, name, Value::Thunk(t));
            m.state = Step::Walk { scope: s2, expr: *body };
            proof {
                assert(value_valid(*ev->Let_value, nf, nt));
                assert(value_valid(*ev->Let_body, nf, nt));
                lemma_heap_wf_push(old(m)@.heap, nf, scope, *ev->Let_value);
                lemma_value_valid_mono(*ev->Let_body, nf, nt, nf + 1, nt + 1);
                step_let_proof(old(m)@, m@, scope, nf, nt);
                assert(m@ =~~= (SpecMachine {
                    env: SpecEnv {
                        globals: old(m)@.env.globals,
                        frames: old(m)@.env.frames.push(
                            (SpecFrame {
                                name: ev->Let_name.name,
                                value: SpecValue::Thunk(old(m)@.heap.len() as usize),
                                parent: scope.head,
                            }),
                        ),
                    },
                    heap: old(m)@.heap.push(
                        (SpecThunk::Unforced { scope, expr: *ev->Let_value }),
                    ),
                    stack: old(m)@.stack,
                    state: SpecStep::Walk {
                        scope: Scope { head: Some(old(m)@.env.frames.len() as usize) },
                        expr: *ev->Let_body,
                    },
                }));
            }
            Ok(())
        },
        Value::TupleCtor { dims } => {
            proof {
                broadcast use crate::value::lemma_values_view;

                assert(ev == (SpecValue::TupleCtor { dims: crate::value::values_view(dims@) }));
                assert(forall|i: int|
                    0 <= i < crate::value::values_view(dims@).len() ==> value_valid(
                        #[trigger] crate::value::values_view(dims@)[i],
                        nf,
                        nt,
                    ));
            }
            let r = step_tuple(m, scope, dims, Ghost(nf), Ghost(nt));
            proof {
                assert(spec_step_walk(old(m)@.env, old(m)@.heap, old(m)@.stack, scope, ev)
                    matches SpecOutcome::Next(m2) && m@ =~~= m2);
            }
            r
        },
        Value::Thunk(t) => {
            match m.heap.read_forced(t) {
                Some(w) => {
                    // Memoized: every alias observes this same value, and
                    // the suspended computation never runs again.
                    proof {
                        assert(thunk_wf(m.heap@[t as int], nf, nt));
                    }
                    m.state = Step::Resume { value: w };
                    proof {
                        assert(m@ =~~= (SpecMachine {
                            env: old(m)@.env,
                            heap: old(m)@.heap,
                            stack: old(m)@.stack,
                            state: m@.state,
                        }));
                    }
                    Ok(())
                },
                None => {
                    if m.heap.is_forcing(t) {
                        // A self-referential binding without a fixpoint:
                        // report it rather than loop or corrupt the cell.
                        Err(
                            RuntimeError::ReentrantForcing(
                                String::from_str(
                                    "a binding demanded its own value while being forced",
                                ),
                            ),
                        )
                    } else {
                        proof {
                            assert(m.heap@[t as int] is Unforced);
                            assert(thunk_wf(m.heap@[t as int], nf, nt));
                        }
                        let ghost h0 = m.heap@;
                        let (s2, e2) = m.heap.begin_force(t);
                        proof {
                            assert forall|i: int| 0 <= i < m.heap@.len() implies thunk_wf(
                                #[trigger] m.heap@[i],
                                nf,
                                m.heap@.len() as int,
                            ) by {
                                if i != t {
                                    assert(m.heap@[i] == h0[i]);
                                    assert(thunk_wf(h0[i], nf, h0.len() as int));
                                }
                            }
                            // No other update frame can point at this cell:
                            // they all point at cells already being forced,
                            // and this one was not.
                            assert forall|i: int| 0 <= i < old(m)@.stack.len() implies
                                ((#[trigger] old(m)@.stack[i]) matches SpecChoice::Thunk {
                                    cell,
                                } ==> cell != t && m.heap@[cell as int] is Forcing) by {
                                match old(m)@.stack[i] {
                                    SpecChoice::Thunk { cell } => {
                                        assert(h0[cell as int] is Forcing);
                                    },
                                    _ => {},
                                }
                            }
                        }
                        m.stack.push(ContinuationChoice::Thunk { cell: t });
                        m.state = Step::Walk { scope: s2, expr: e2 };
                        proof {
                            assert(stack_view(m.stack@) =~= old(m)@.stack.push(
                                (SpecChoice::Thunk { cell: t }),
                            ));
                            assert(m@ =~~= (SpecMachine {
                                env: old(m)@.env,
                                heap: old(m)@.heap.update(t as int, SpecThunk::Forcing),
                                stack: old(m)@.stack.push((SpecChoice::Thunk { cell: t })),
                                state: m@.state,
                            }));
                        }
                        Ok(())
                    }
                },
            }
        },
        _ => {
            proof {
                assert(false);
            }
            Ok(())
        },
    }
}

/// The proof that a `let` transition preserves the machine invariant.
proof fn step_let_proof(m0: SpecMachine, m1: SpecMachine, scope: Scope, nf: int, nt: int)
    requires
        machine_wf(m0),
        scope_valid(scope, nf),
        nf == m0.env.frames.len(),
        nt == m0.heap.len(),
        m1.heap.len() == nt + 1,
        forall|i: int| 0 <= i < nt ==> m1.heap[i] == m0.heap[i],
        heap_wf(m1.heap, nf),
        m1.env.globals == m0.env.globals,
        m1.env.frames.len() == nf + 1,
        forall|i: int| 0 <= i < nf ==> m1.env.frames[i] == m0.env.frames[i],
        m1.env.frames[nf].parent == scope.head,
        value_valid(m1.env.frames[nf].value, nf, nt + 1),
        m1.stack == m0.stack,
        state_wf(m1.state, m1.env.frames.len() as int, m1.heap.len() as int),
    ensures
        machine_wf(m1),
        heap_le(m0.heap, m1.heap),
        env_le(m0.env, m1.env),
{
    assert forall|i: int| 0 <= i < m1.env.frames.len() implies value_valid(
        #[trigger] m1.env.frames[i].value,
        i,
        m1.heap.len() as int,
    ) by {
        if i < nf {
            lemma_value_valid_mono(m0.env.frames[i].value, i, nt, i, nt + 1);
        }
    }
    assert forall|i: int| 0 <= i < m1.env.globals.len() implies value_valid(
        #[trigger] m1.env.globals[i].value,
        0,
        m1.heap.len() as int,
    ) by {
        lemma_value_valid_mono(m0.env.globals[i].value, 0, nt, 0, nt + 1);
    }
    lemma_heap_wf_env_grow(m1.heap, nf, nf + 1);
    lemma_stack_wf_grow(m0.stack, m0.heap, m1.heap, nf, nf + 1);
}

/// Builds a tuple instance: every field is suspended as a fresh thunk in
/// the current scope, and the instance of those thunks — itself in weak
/// head normal form — is handed back.
#[verifier::loop_isolation(false)]
#[verifier::rlimit(60)]
fn step_tuple(
    m: &mut Machine,
    scope: Scope,
    dims: Vec<Value>,
    Ghost(nf): Ghost<int>,
    Ghost(nt): Ghost<int>,
) -> (r: Result<(), RuntimeError>)
    requires
        machine_wf(old(m)@),
        nf == old(m)@.env.frames.len(),
        nt == old(m)@.heap.len(),
        scope_valid(scope, nf),
        forall|i: int|
            0 <= i < dims@.len() ==> value_valid(crate::value::values_view(dims@)[i], nf, nt),
    ensures
        machine_wf(final(m)@),
        heap_le(old(m)@.heap, final(m)@.heap),
        env_le(old(m)@.env, final(m)@.env),
        r is Ok,
        final(m)@ == (SpecMachine {
            env: old(m)@.env,
            heap: old(m)@.heap + Seq::new(
                crate::value::values_view(dims@).len(),
                |i: int|
                    SpecThunk::Unforced { scope, expr: crate::value::values_view(dims@)[i] },
            ),
            stack: old(m)@.stack,
            state: SpecStep::Resume {
                value: SpecValue::Tuple {
                    dims: Seq::new(
                        crate::value::values_view(dims@).len(),
                        |i: int| SpecValue::Thunk((old(m)@.heap.len() + i) as usize),
                    ),
                },
            },
        }),
{
    proof {
        broadcast use lemma_stack_view, crate::value::lemma_values_view;

    }
    let ghost h0 = m.heap@;
    let ghost gdims = crate::value::values_view(dims@);
    let mut rest = dims;
    let n0 = rest.len();
    let mut out: Vec<Value> = Vec::new();
    let mut j: usize = 0;
    while rest.len() > 0
        invariant
            gdims.len() == n0,
            j + rest@.len() == gdims.len(),
            forall|k: int|
                0 <= k < rest@.len() ==> crate::value::values_view(rest@)[k] == gdims[j + k],
            m.env@ == old(m)@.env,
            m.stack@ == old(m).stack@,
            m.heap@ == h0 + Seq::new(
                j as nat,
                |i: int| SpecThunk::Unforced { scope, expr: gdims[i] },
            ),
            out@.len() == j,
            crate::value::values_view(out@) == Seq::new(
                j as nat,
                |i: int| SpecValue::Thunk((h0.len() + i) as usize),
            ),
            heap_wf(m.heap@, nf),
        decreases rest@.len(),
    {
        proof {
            broadcast use lemma_stack_view, crate::value::lemma_values_view;

        }
        let ghost rv = rest@;
        let ghost hbefore = m.heap@;
        let ghost ob = out@;
        let d = rest.remove(0);
        proof {
            assert(d@ == crate::value::values_view(rv)[0]);
            assert(d@ == gdims[j as int]);
            assert forall|k: int| 0 <= k < rest@.len() implies crate::value::values_view(
                rest@,
            )[k] == gdims[j + 1 + k] by {
                assert(rest@[k] == rv[k + 1]);
                assert(crate::value::values_view(rest@)[k] == crate::value::values_view(rv)[k
                    + 1]);
            }
            lemma_value_valid_mono(d@, nf, nt, nf, m.heap@.len() as int);
            lemma_heap_wf_push(m.heap@, nf, scope, d@);
        }
        let t = m.heap.suspend(scope, d);
        out.push(Value::Thunk(t));
        proof {
            assert(t == h0.len() + j);
            assert(m.heap@ =~= h0 + Seq::new(
                (j + 1) as nat,
                |i: int| SpecThunk::Unforced { scope, expr: gdims[i] },
            ));
            assert(out@ =~= ob.push(Value::Thunk(t)));
            assert(t as int == h0.len() + j);
            assert((h0.len() + j) as usize == t);
            assert(crate::value::values_view(out@)[j as int] == SpecValue::Thunk(t));
            assert forall|i: int| 0 <= i < j implies crate::value::values_view(out@)[i]
                == SpecValue::Thunk((h0.len() + i) as usize) by {
                assert(out@[i] == ob[i]);
                assert(crate::value::values_view(out@)[i] == crate::value::values_view(ob)[i]);
            }
            assert(crate::value::values_view(out@) =~= Seq::new(
                (j + 1) as nat,
                |i: int| SpecValue::Thunk((h0.len() + i) as usize),
            ));
        }
        j = j + 1;
    }
    let hl = m.heap.len();
    m.state = Step::Resume { value: Value::Tuple { dims: out } };
    proof {
        assert(hl == h0.len() + gdims.len());
        let ghost tupdims = Seq::new(
            gdims.len(),
            |q: int| SpecValue::Thunk((h0.len() + q) as usize),
        );
        assert forall|i: int| 0 <= i < tupdims.len() implies value_valid(
            #[trigger] tupdims[i],
            m.env@.frames.len() as int,
            m.heap@.len() as int,
        ) by {
            assert((h0.len() + i) as usize as int == h0.len() + i);
            assert(tupdims[i] == SpecValue::Thunk((h0.len() + i) as usize));
        }
        lemma_env_wf_grow(m.env@, h0.len() as int, m.heap@.len() as int);
        lemma_heap_wf_env_grow(m.heap@, nf, m.env@.frames.len() as int);
        assert(h0.len() <= m.heap@.len() && forall|i: int| 0 <= i < h0.len() ==> m.heap@[i]
            == h0[i]);
        lemma_stack_wf_grow(stack_view(m.stack@), h0, m.heap@, nf, nf);
        assert(heap_le(h0, m.heap@));
        assert(m@.state =~~= (SpecStep::Resume {
            value: SpecValue::Tuple {
                dims: Seq::new(
                    gdims.len(),
                    |i: int| SpecValue::Thunk((h0.len() + i) as usize),
                ),
            },
        }));
        assert(m@ =~~= (SpecMachine {
            env: old(m)@.env,
            heap: h0 + Seq::new(
                gdims.len(),
                |i: int| SpecThunk::Unforced { scope, expr: gdims[i] },
            ),
            stack: old(m)@.stack,
            state: m@.state,
        }));
    }
    Ok(())
}

/// Popping the top frame leaves the rest of the stack well formed.
proof fn lemma_stack_wf_pop(stack: Seq<SpecChoice>, heap: Seq<SpecThunk>, nf: int)
    requires
        stack_wf(stack, heap, nf),
        stack.len() > 0,
    ensures
        stack_wf(stack.drop_last(), heap, nf),
{
    assert forall|i: int| 0 <= i < stack.drop_last().len() implies choice_wf(
        #[trigger] stack.drop_last()[i],
        nf,
        heap.len() as int,
    ) by {
        assert(stack.drop_last()[i] == stack[i]);
    }
    assert forall|i: int| 0 <= i < stack.drop_last().len() implies (
    #[trigger] stack.drop_last()[i] matches SpecChoice::Thunk { cell }
        ==> heap[cell as int] is Forcing) by {
        assert(stack.drop_last()[i] == stack[i]);
    }
    assert forall|i: int, j: int| 0 <= i < j < stack.drop_last().len() implies ((
    #[trigger] stack.drop_last()[i]) matches SpecChoice::Thunk { cell: c1 } ==> ((
    #[trigger] stack.drop_last()[j]) matches SpecChoice::Thunk { cell: c2 } ==> c1 != c2)) by {
        assert(stack.drop_last()[i] == stack[i]);
        assert(stack.drop_last()[j] == stack[j]);
    }
}

/// The register stays well formed as the arenas grow.
proof fn lemma_state_wf_mono(s: SpecStep, nf1: int, nt1: int, nf2: int, nt2: int)
    requires
        state_wf(s, nf1, nt1),
        nf1 <= nf2,
        nt1 <= nt2,
    ensures
        state_wf(s, nf2, nt2),
{
    match s {
        SpecStep::Walk { scope, expr } => lemma_value_valid_mono(expr, nf1, nt1, nf2, nt2),
        SpecStep::Resume { value } => lemma_value_valid_mono(value, nf1, nt1, nf2, nt2),
        SpecStep::Done(value) => lemma_value_valid_mono(value, nf1, nt1, nf2, nt2),
    }
}

/// One `Resume` transition: hand the weak-head-normal `value` to the top
/// continuation frame, or finish when there is none.
#[verifier::loop_isolation(false)]
#[verifier::rlimit(80)]
fn step_resume(m: &mut Machine, value: Value) -> (r: Result<(), RuntimeError>)
    requires
        machine_wf(old(m)@),
        is_whnf(value@),
        value_valid(value@, old(m)@.env.frames.len() as int, old(m)@.heap.len() as int),
    ensures
        machine_wf(final(m)@),
        heap_le(old(m)@.heap, final(m)@.heap),
        env_le(old(m)@.env, final(m)@.env),
        (match spec_step_resume(old(m)@.env, old(m)@.heap, old(m)@.stack, value@) {
            SpecOutcome::Next(m2) => r is Ok && final(m)@ == m2,
            SpecOutcome::Stop(k) => r matches Err(e) && error_matches(e, k),
        }),
{
    proof {
        broadcast use lemma_stack_view;

    }
    let ghost nf = old(m)@.env.frames.len() as int;
    let ghost nt = old(m)@.heap.len() as int;
    let ghost vv = value@;
    let frame = match m.stack.pop() {
        None => {
            // The bottom of the stack: this value is the program's result.
            m.state = Step::Done(value);
            proof {
                assert(spec_step_resume(old(m)@.env, old(m)@.heap, old(m)@.stack, vv) matches
                    SpecOutcome::Next(m2) && m@ =~~= m2);
            }
            return Ok(());
        },
        Some(f) => f,
    };
    proof {
        assert(frame@ == old(m)@.stack.last());
        assert(stack_view(m.stack@) =~= old(m)@.stack.drop_last());
        assert(choice_wf(frame@, nf, nt));
        lemma_stack_wf_pop(old(m)@.stack, m.heap@, nf);
    }
    match frame {
        ContinuationChoice::Thunk { cell } => {
            // Fill the memo cell, exactly once; every alias of the thunk
            // reads this value from now on.
            proof {
                assert(m.heap@[cell as int] is Forcing);
            }
            let vc = value.clone();
            m.heap.finish_force(cell, vc);
            m.state = Step::Resume { value };
            proof {
                assert forall|i: int| 0 <= i < m.heap@.len() implies thunk_wf(
                    #[trigger] m.heap@[i],
                    nf,
                    m.heap@.len() as int,
                ) by {
                    if i != cell {
                        assert(m.heap@[i] == old(m)@.heap[i]);
                        assert(thunk_wf(old(m)@.heap[i], nf, nt));
                    }
                }
                assert forall|i: int| 0 <= i < stack_view(m.stack@).len() implies ((
                #[trigger] stack_view(m.stack@)[i]) matches SpecChoice::Thunk { cell: c }
                    ==> m.heap@[c as int] is Forcing) by {
                    match stack_view(m.stack@)[i] {
                        SpecChoice::Thunk { cell: c } => {
                            assert(stack_view(m.stack@)[i] == old(m)@.stack[i]);
                            assert(c != cell);
                            assert(m.heap@[c as int] == old(m)@.heap[c as int]);
                        },
                        _ => {},
                    }
                }
                assert forall|i: int| 0 <= i < stack_view(m.stack@).len() implies choice_wf(
                    #[trigger] stack_view(m.stack@)[i],
                    nf,
                    m.heap@.len() as int,
                ) by {
                    assert(stack_view(m.stack@)[i] == old(m)@.stack[i]);
                }
                assert(spec_step_resume(old(m)@.env, old(m)@.heap, old(m)@.stack, vv) matches
                    SpecOutcome::Next(m2) && m@ =~~= m2);
            }
            Ok(())
        },
        ContinuationChoice::Match { scope, pattern_exprs } => {
            proof {
                broadcast use crate::value::lemma_pattern_exprs_view;

                assert(old(m)@.stack.last() == (SpecChoice::Match {
                    scope,
                    pattern_exprs: crate::value::pattern_exprs_view(pattern_exprs@),
                }));
                assert(crate::value::pattern_exprs_view(pattern_exprs@).len()
                    == pattern_exprs@.len());
                assert forall|i: int| 0 <= i < pattern_exprs@.len() implies value_valid(
                    #[trigger] crate::value::pattern_exprs_view(pattern_exprs@)[i].expr,
                    nf,
                    nt,
                ) by {
                    assert(choice_wf(old(m)@.stack.last(), nf, nt));
                }
            }
            match try_arms(&mut m.env, &m.heap, scope, value, pattern_exprs, 0, false) {
                ArmsOutcome::Taken { scope: s2, body, index } => {
                    m.state = Step::Walk { scope: s2, expr: body };
                    proof {
                        lemma_heap_wf_env_grow(m.heap@, nf, m.env@.frames.len() as int);
                        lemma_stack_wf_grow(
                            stack_view(m.stack@),
                            m.heap@,
                            m.heap@,
                            nf,
                            m.env@.frames.len() as int,
                        );
                        assert(spec_step_resume(old(m)@.env, old(m)@.heap, old(m)@.stack, vv)
                            matches SpecOutcome::Next(m2) && m@ =~~= m2);
                    }
                    Ok(())
                },
                ArmsOutcome::Suspended { frame: frame2, value: v2 } => {
                    proof {
                        lemma_heap_wf_env_grow(m.heap@, nf, m.env@.frames.len() as int);
                        lemma_stack_wf_grow(
                            stack_view(m.stack@),
                            m.heap@,
                            m.heap@,
                            nf,
                            m.env@.frames.len() as int,
                        );
                        lemma_stack_wf_push(
                            stack_view(m.stack@),
                            m.heap@,
                            m.env@.frames.len() as int,
                            frame2@,
                        );
                    }
                    m.stack.push(frame2);
                    m.state = Step::Walk { scope, expr: v2 };
                    proof {
                        assert(stack_view(m.stack@) =~= old(m)@.stack.drop_last().push(
                            m.stack@.last()@,
                        ));
                        assert(spec_step_resume(old(m)@.env, old(m)@.heap, old(m)@.stack, vv)
                            matches SpecOutcome::Next(m2) && m@ =~~= m2);
                    }
                    Ok(())
                },
                ArmsOutcome::Exhausted { shape_mismatch } => {
                    proof {
                        lemma_heap_wf_env_grow(m.heap@, nf, m.env@.frames.len() as int);
                        lemma_stack_wf_grow(
                            stack_view(m.stack@),
                            m.heap@,
                            m.heap@,
                            nf,
                            m.env@.frames.len() as int,
                        );
                        lemma_state_wf_mono(m@.state, nf, nt, m.env@.frames.len() as int, nt);
                        assert(spec_step_resume(old(m)@.env, old(m)@.heap, old(m)@.stack, vv)
                            == SpecOutcome::Stop(
                            if shape_mismatch {
                                SpecError::MatchTypeError
                            } else {
                                SpecError::NoMatch
                            },
                        ));
                    }
                    if shape_mismatch {
                        Err(
                            RuntimeError::MatchTypeError(
                                String::from_str(
                                    "a pattern's shape disagreed with the forced subject",
                                ),
                            ),
                        )
                    } else {
                        Err(RuntimeError::NoMatch(String::from_str("no arm matched the subject")))
                    }
                },
            }
        },
        ContinuationChoice::MatchArm {
            scope,
            subject,
            arms,
            next_arm,
            predicate,
            pending,
            partial,
            body,
            saw_mismatch,
        } => {
            proof {
                broadcast use crate::value::lemma_pattern_exprs_view, lemma_obligations_view;

                assert(old(m)@.stack.last() == (SpecChoice::MatchArm {
                    scope,
                    subject: subject@,
                    arms: crate::value::pattern_exprs_view(arms@),
                    next_arm,
                    predicate: predicate@,
                    pending: obligations_view(pending@),
                    partial,
                    body: body@,
                    saw_mismatch,
                }));
                assert(choice_wf(old(m)@.stack.last(), nf, nt));
                assert(crate::value::pattern_exprs_view(arms@).len() == arms@.len());
                assert(obligations_view(pending@).len() == pending@.len());
                assert(value_valid(subject@, nf, nt));
                assert(value_valid(body@, nf, nt));
                assert(forall|i: int|
                    0 <= i < crate::value::pattern_exprs_view(arms@).len() ==> value_valid(
                        #[trigger] crate::value::pattern_exprs_view(arms@)[i].expr,
                        nf,
                        nt,
                    ));
                assert(forall|i: int|
                    0 <= i < obligations_view(pending@).len() ==> value_valid(
                        (#[trigger] obligations_view(pending@)[i]).value,
                        nf,
                        nt,
                    ));
            }
            let mut pending = pending;
            let ghost prv = predicate@;
            let ghost pv0 = obligations_view(pending@);
            pending.push(Obligation { predicate, value });
            proof {
                broadcast use lemma_obligations_view;

                assert(obligations_view(pending@) =~= pv0.push(
                    (SpecObligation { predicate: prv, value: vv }),
                ));
            }
            let ghost sub_v = subject@;
            let ghost arms_v = crate::value::pattern_exprs_view(arms@);
            let ghost body_v = body@;
            match crate::matcher::match_obligations(&mut m.env, &m.heap, partial, &mut pending) {
                MatchOutcome::Matched { scope: s2 } => {
                    m.state = Step::Walk { scope: s2, expr: body };
                    proof {
                        lemma_value_valid_mono(body_v, nf, nt, m.env@.frames.len() as int, nt);
                        lemma_heap_wf_env_grow(m.heap@, nf, m.env@.frames.len() as int);
                        lemma_stack_wf_grow(
                            stack_view(m.stack@),
                            m.heap@,
                            m.heap@,
                            nf,
                            m.env@.frames.len() as int,
                        );
                        assert(spec_step_resume(old(m)@.env, old(m)@.heap, old(m)@.stack, vv)
                            matches SpecOutcome::Next(m2) && m@ =~~= m2);
                    }
                    Ok(())
                },
                MatchOutcome::Failed { shape_mismatch } => {
                    let saw2 = saw_mismatch || shape_mismatch;
                    proof {
                        lemma_value_valid_mono(sub_v, nf, nt, m.env@.frames.len() as int, nt);
                        assert forall|k: int| 0 <= k < arms_v.len() implies value_valid(
                            #[trigger] arms_v[k].expr,
                            m.env@.frames.len() as int,
                            nt,
                        ) by {
                            lemma_value_valid_mono(
                                arms_v[k].expr,
                                nf,
                                nt,
                                m.env@.frames.len() as int,
                                nt,
                            );
                        }
                        lemma_heap_wf_env_grow(m.heap@, nf, m.env@.frames.len() as int);
                    }
                    let ghost nf2 = m.env@.frames.len() as int;
                    match try_arms(&mut m.env, &m.heap, scope, subject, arms, next_arm, saw2) {
                        ArmsOutcome::Taken { scope: s2, body: body2, index } => {
                            m.state = Step::Walk { scope: s2, expr: body2 };
                            proof {
                                lemma_heap_wf_env_grow(m.heap@, nf, m.env@.frames.len() as int);
                                lemma_stack_wf_grow(
                                    stack_view(m.stack@),
                                    m.heap@,
                                    m.heap@,
                                    nf,
                                    m.env@.frames.len() as int,
                                );
                                assert(spec_step_resume(
                                    old(m)@.env,
                                    old(m)@.heap,
                                    old(m)@.stack,
                                    vv,
                                ) matches SpecOutcome::Next(m2) && m@ =~~= m2);
                            }
                            Ok(())
                        },
                        ArmsOutcome::Suspended { frame: frame2, value: v2 } => {
                            proof {
                                lemma_heap_wf_env_grow(m.heap@, nf, m.env@.frames.len() as int);
                                lemma_stack_wf_grow(
                                    stack_view(m.stack@),
                                    m.heap@,
                                    m.heap@,
                                    nf,
                                    m.env@.frames.len() as int,
                                );
                                lemma_stack_wf_push(
                                    stack_view(m.stack@),
                                    m.heap@,
                                    m.env@.frames.len() as int,
                                    frame2@,
                                );
                            }
                            m.stack.push(frame2);
                            m.state = Step::Walk { scope, expr: v2 };
                            proof {
                                assert(stack_view(m.stack@) =~= old(m)@.stack.drop_last().push(
                                    m.stack@.last()@,
                                ));
                                assert(spec_step_resume(
                                    old(m)@.env,
                                    old(m)@.heap,
                                    old(m)@.stack,
                                    vv,
                                ) matches SpecOutcome::Next(m2) && m@ =~~= m2);
                            }
                            Ok(())
                        },
                        ArmsOutcome::Exhausted { shape_mismatch: sm } => {
                            proof {
                                lemma_heap_wf_env_grow(m.heap@, nf, m.env@.frames.len() as int);
                                lemma_stack_wf_grow(
                                    stack_view(m.stack@),
                                    m.heap@,
                                    m.heap@,
                                    nf,
                                    m.env@.frames.len() as int,
                                );
                                lemma_state_wf_mono(
                                    m@.state,
                                    nf,
                                    nt,
                                    m.env@.frames.len() as int,
                                    nt,
                                );
                                assert(spec_step_resume(
                                    old(m)@.env,
                                    old(m)@.heap,
                                    old(m)@.stack,
                                    vv,
                                ) == SpecOutcome::Stop(
                                    if sm {
                                        SpecError::MatchTypeError
                                    } else {
                                        SpecError::NoMatch
                                    },
                                ));
                            }
                            if sm {
                                Err(
                                    RuntimeError::MatchTypeError(
                                        String::from_str(
                                            "a pattern's shape disagreed with the forced subject",
                                        ),
                                    ),
                                )
                            } else {
                                Err(
                                    RuntimeError::NoMatch(
                                        String::from_str("no arm matched the subject"),
                                    ),
                                )
                            }
                        },
                    }
                },
                MatchOutcome::Suspend { predicate: p2, value: v2, scope: partial2 } => {
                    proof {
                        lemma_value_valid_mono(sub_v, nf, nt, m.env@.frames.len() as int, nt);
                        lemma_value_valid_mono(body_v, nf, nt, m.env@.frames.len() as int, nt);
                        assert forall|k: int| 0 <= k < arms_v.len() implies value_valid(
                            #[trigger] arms_v[k].expr,
                            m.env@.frames.len() as int,
                            nt,
                        ) by {
                            lemma_value_valid_mono(
                                arms_v[k].expr,
                                nf,
                                nt,
                                m.env@.frames.len() as int,
                                nt,
                            );
                        }
                    }
                    let frame2 = ContinuationChoice::MatchArm {
                        scope,
                        subject,
                        arms,
                        next_arm,
                        predicate: p2,
                        pending,
                        partial: partial2,
                        body,
                        saw_mismatch,
                    };
                    proof {
                        lemma_heap_wf_env_grow(m.heap@, nf, m.env@.frames.len() as int);
                        lemma_stack_wf_grow(
                            stack_view(m.stack@),
                            m.heap@,
                            m.heap@,
                            nf,
                            m.env@.frames.len() as int,
                        );
                        lemma_stack_wf_push(
                            stack_view(m.stack@),
                            m.heap@,
                            m.env@.frames.len() as int,
                            frame2@,
                        );
                    }
                    m.stack.push(frame2);
                    m.state = Step::Walk { scope, expr: v2 };
                    proof {
                        assert(stack_view(m.stack@) =~= old(m)@.stack.drop_last().push(
                            m.stack@.last()@,
                        ));
                        assert(spec_step_resume(old(m)@.env, old(m)@.heap, old(m)@.stack, vv)
                            matches SpecOutcome::Next(m2) && m@ =~~= m2);
                    }
                    Ok(())
                },
            }
        },
        ContinuationChoice::Application { scope, argument } => {
            proof {
                assert(old(m)@.stack.last() == (SpecChoice::Application {
                    scope,
                    argument: argument@,
                }));
                assert(choice_wf(old(m)@.stack.last(), nf, nt));
                assert(value_valid(argument@, nf, nt));
            }
            match value {
                Value::Closure { param, body, scope: cscope } => {
                    // The argument is deferred as a thunk in the caller's
                    // scope; the parameter is bound in an extension of the
                    // closure's own captured scope — lexical scoping under
                    // currying.
                    let ghost av = argument@;
                    let ghost bv = (*body)@;
                    let t = m.heap.suspend(scope, argument);
                    let s2 = m.env.add_symbol(cscope, param, Value::Thunk(t));
                    m.state = Step::Walk { scope: s2, expr: *body };
                    proof {
                        lemma_heap_wf_push(old(m)@.heap, nf, scope, av);
                        lemma_value_valid_mono(bv, nf, nt, nf + 1, nt + 1);
                        let mid = SpecMachine {
                            env: old(m)@.env,
                            heap: old(m)@.heap,
                            stack: old(m)@.stack.drop_last(),
                            state: SpecStep::Done(SpecValue::Literal(SpecLiteral::Null)),
                        };
                        step_let_proof(mid, m@, cscope, nf, nt);
                        assert(spec_step_resume(old(m)@.env, old(m)@.heap, old(m)@.stack, vv)
                            matches SpecOutcome::Next(m2) && m@ =~~= m2);
                    }
                    Ok(())
                },
                Value::Builtin { op, args } => {
                    if args.len() < op.arity() {
                        proof {
                            broadcast use crate::value::lemma_values_view;

                            assert(vv == (SpecValue::Builtin {
                                op,
                                args: crate::value::values_view(args@),
                            }));
                            assert(crate::value::values_view(args@).len() == args@.len());
                            assert forall|i: int|
                                0 <= i < crate::value::values_view(args@).len() implies value_valid(
                                #[trigger] crate::value::values_view(args@)[i],
                                nf,
                                nt,
                            ) by {
                                crate::value::lemma_builtin_args_valid(vv, nf, nt);
                                assert(vv->Builtin_args == crate::value::values_view(args@));
                            }
                        }
                        let frame2 = ContinuationChoice::CollectBuiltin { op, args };
                        proof {
                            lemma_stack_wf_push(stack_view(m.stack@), m.heap@, nf, frame2@);
                        }
                        m.stack.push(frame2);
                        m.state = Step::Walk { scope, expr: argument };
                        proof {
                            assert(stack_view(m.stack@) =~= old(m)@.stack.drop_last().push(
                                m.stack@.last()@,
                            ));
                            assert(spec_step_resume(old(m)@.env, old(m)@.heap, old(m)@.stack, vv)
                                matches SpecOutcome::Next(m2) && m@ =~~= m2);
                        }
                        Ok(())
                    } else {
                        proof {
                            broadcast use crate::value::lemma_values_view;

                            assert(spec_step_resume(old(m)@.env, old(m)@.heap, old(m)@.stack, vv)
                                == SpecOutcome::Stop(SpecError::InvalidCallsite));
                        }
                        Err(
                            RuntimeError::InvalidCallsite(
                                String::from_str("builtin applied beyond its arity"),
                            ),
                        )
                    }
                },
                Value::Ctor { name, dims } => {
                    // A constructor instance accumulates the argument as one
                    // more lazy field and stays in weak head normal form.
                    let ghost av = argument@;
                    let ghost dv = dims@;
                    let t = m.heap.suspend(scope, argument);
                    let mut dims = dims;
                    dims.push(Value::Thunk(t));
                    m.state = Step::Resume { value: Value::Ctor { name, dims } };
                    proof {
                        broadcast use crate::value::lemma_values_view;

                        lemma_heap_wf_push(old(m)@.heap, nf, scope, av);
                        lemma_env_wf_grow(m.env@, nt, nt + 1);
                        lemma_stack_wf_grow(
                            stack_view(m.stack@),
                            old(m)@.heap,
                            m.heap@,
                            nf,
                            nf,
                        );
                        assert(dims@ =~= dv.push(Value::Thunk(t)));
                        assert forall|i: int| 0 <= i < dims@.len() implies value_valid(
                            #[trigger] crate::value::values_view(dims@)[i],
                            nf,
                            m.heap@.len() as int,
                        ) by {
                            if i < dv.len() {
                                assert(dims@[i] == dv[i]);
                                assert(crate::value::values_view(dims@)[i]
                                    == crate::value::values_view(dv)[i]);
                                lemma_value_valid_mono(
                                    crate::value::values_view(dv)[i],
                                    nf,
                                    nt,
                                    nf,
                                    m.heap@.len() as int,
                                );
                            } else {
                                assert(dims@[i] == Value::Thunk(t));
                            }
                        }
                        assert(t as int == old(m)@.heap.len());
                        assert(crate::value::values_view(dims@) =~= crate::value::values_view(
                            dv,
                        ).push(SpecValue::Thunk(t)));
                        assert(SpecValue::Thunk(t) == SpecValue::Thunk(
                            (old(m)@.heap.len()) as usize,
                        ));
                        assert(spec_step_resume(old(m)@.env, old(m)@.heap, old(m)@.stack, vv)
                            matches SpecOutcome::Next(m2) && m@ =~~= m2);
                    }
                    Ok(())
                },
                _ => {
                    proof {
                        assert(spec_step_resume(old(m)@.env, old(m)@.heap, old(m)@.stack, vv)
                            == SpecOutcome::Stop(SpecError::InvalidCallsite));
                    }
                    Err(
                        RuntimeError::InvalidCallsite(
                            String::from_str("applying a value that is not a function"),
                        ),
                    )
                },
            }
        },
        ContinuationChoice::CollectBuiltin { op, args } => {
            let mut args = args;
            let ghost av0 = crate::value::values_view(args@);
            args.push(value);
            proof {
                broadcast use crate::value::lemma_values_view;

                assert forall|i: int| 0 <= i < args@.len() implies value_valid(
                    #[trigger] crate::value::values_view(args@)[i],
                    nf,
                    nt,
                ) by {
                    if i < av0.len() {
                        assert(args@[i] == args@.subrange(0, av0.len() as int)[i]);
                        assert(crate::value::values_view(args@)[i] == av0[i]);
                    } else {
                        assert(args@[i] == args@.last());
                    }
                }
            }
            let arity = op.arity();
            if args.len() == arity {
                match apply_builtin(op, args) {
                    Ok(v) => {
                        m.state = Step::Resume { value: v };
                        proof {
                            broadcast use crate::value::lemma_values_view;

                            lemma_value_valid_mono(v@, 0, 0, nf, nt);
                            assert(spec_apply(op, av0.push(vv)) == Some(v@));
                            assert(spec_step_resume(old(m)@.env, old(m)@.heap, old(m)@.stack, vv)
                                matches SpecOutcome::Next(m2) && m@ =~~= m2);
                        }
                        Ok(())
                    },
                    Err(e) => {
                        proof {
                            broadcast use crate::value::lemma_values_view;

                            assert(spec_apply(op, av0.push(vv)) is None);
                            assert(spec_step_resume(old(m)@.env, old(m)@.heap, old(m)@.stack, vv)
                                == SpecOutcome::Stop(SpecError::InvalidCallsite));
                        }
                        Err(e)
                    },
                }
            } else {
                m.state = Step::Resume { value: Value::Builtin { op, args } };
                proof {
                    broadcast use crate::value::lemma_values_view;

                    assert(crate::value::values_view(args@) =~= av0.push(vv));
                    assert(spec_step_resume(old(m)@.env, old(m)@.heap, old(m)@.stack, vv)
                        matches SpecOutcome::Next(m2) && m@ =~~= m2);
                }
                Ok(())
            }
        },
    }
}

/// One transition of the trampoline. Errors abort the evaluation; a machine
/// whose register is already `Done` is left untouched.
pub fn step(m: &mut Machine) -> (r: Result<(), RuntimeError>)
    requires
        machine_wf(old(m)@),
    ensures
        machine_wf(final(m)@),
        heap_le(old(m)@.heap, final(m)@.heap),
        env_le(old(m)@.env, final(m)@.env),
        old(m)@.state is Done ==> final(m)@ == old(m)@ && r is Ok,
        (match spec_step(old(m)@) {
            SpecOutcome::Next(m2) => r is Ok && final(m)@ == m2,
            SpecOutcome::Stop(k) => r matches Err(e) && error_matches(e, k),
        }),
{
    let mut st = Step::Done(Value::Literal(LiteralValue::Null));
    core::mem::swap(&mut m.state, &mut st);
    proof {
        assert(m@.env == old(m)@.env);
        assert(m@.heap == old(m)@.heap);
        assert(m@.stack == old(m)@.stack);
    }
    match st {
        Step::Done(v) => {
            m.state = Step::Done(v);
            proof {
                assert(m@ =~= old(m)@);
            }
            Ok(())
        },
        Step::Walk { scope, expr } => {
            let r = step_walk(m, scope, expr);
            proof {
                assert(old(m)@.state matches SpecStep::Walk { scope: s0, expr: e0 } && s0 == scope
                    && e0 == st@->Walk_expr);
            }
            r
        },
        Step::Resume { value } => step_resume(m, value),
    }
}

/// The result of running the model for at most `fuel` transitions: the
/// final value and machine, the machine left when the budget ran out, or
/// the fatal error.
pub enum SpecRun {
    Done(SpecValue, SpecMachine),
    OutOfFuel(SpecMachine),
    Failed(SpecError),
}

/// The iterated transition: step the model until the register holds the
/// final result, the budget runs out, or a transition stops with an error.
pub open spec fn spec_run_fuel(m: SpecMachine, fuel: nat) -> SpecRun
    decreases fuel,
{
    match m.state {
        SpecStep::Done(v) => SpecRun::Done(v, m),
        _ => if fuel == 0 {
            SpecRun::OutOfFuel(m)
        } else {
            match spec_step(m) {
                SpecOutcome::Next(m2) => spec_run_fuel(m2, (fuel - 1) as nat),
                SpecOutcome::Stop(k) => SpecRun::Failed(k),
            }
        },
    }
}

/// Runs the trampoline for at most `fuel` transitions. `Ok(Some(v))` is the
/// program's result in weak head normal form; `Ok(None)` means the budget
/// ran out with the machine left ready to be resumed; an error is fatal.
pub fn eval_loop(m: &mut Machine, fuel: u64) -> (r: Result<Option<Value>, RuntimeError>)
    requires
        machine_wf(old(m)@),
    ensures
        machine_wf(final(m)@),
        heap_le(old(m)@.heap, final(m)@.heap),
        env_le(old(m)@.env, final(m)@.env),
        r matches Ok(Some(v)) ==> final(m)@.state == SpecStep::Done(v@) && is_whnf(v@),
        (match spec_run_fuel(old(m)@, fuel as nat) {
            SpecRun::Done(v, mf) => r matches Ok(Some(rv)) && rv@ == v && final(m)@ == mf,
            SpecRun::OutOfFuel(mf) => r matches Ok(o) && o is None && final(m)@ == mf,
            SpecRun::Failed(k) => r matches Err(e) && error_matches(e, k),
        }),
{
    proof {
        crate::heap::lemma_heap_le_refl(old(m)@.heap);
    }
    let mut left = fuel;
    loop
        invariant
            machine_wf(m@),
            heap_le(old(m)@.heap, m@.heap),
            env_le(old(m)@.env, m@.env),
            spec_run_fuel(old(m)@, fuel as nat) == spec_run_fuel(m@, left as nat),
        decreases left,
    {
        match &m.state {
            Step::Done(v) => {
                proof {
                    assert(spec_run_fuel(m@, left as nat) == SpecRun::Done(v@, m@));
                }
                return Ok(Some(v.clone()));
            },
            _ => {},
        }
        if left == 0 {
            proof {
                assert(spec_run_fuel(m@, left as nat) == SpecRun::OutOfFuel(m@));
            }
            return Ok(None);
        }
        left = left - 1;
        let ghost h_mid = m@.heap;
        let ghost e_mid = m@.env;
        let ghost m_mid = m@;
        let ghost left_mid = left;
        match step(m) {
            Ok(()) => {
                proof {
                    lemma_heap_le_trans(old(m)@.heap, h_mid, m@.heap);
                    crate::env::lemma_env_le_trans(old(m)@.env, e_mid, m@.env);
                    assert(spec_step(m_mid) == SpecOutcome::Next(m@));
                    assert(spec_run_fuel(m_mid, (left_mid + 1) as nat) == spec_run_fuel(
                        m@,
                        left_mid as nat,
                    ));
                }
            },
            Err(e) => {
                proof {
                    lemma_heap_le_trans(old(m)@.heap, h_mid, m@.heap);
                    crate::env::lemma_env_le_trans(old(m)@.env, e_mid, m@.env);
                    assert(spec_step(m_mid) matches SpecOutcome::Stop(k) && error_matches(e, k));
                    assert(spec_run_fuel(m_mid, (left_mid + 1) as nat) matches SpecRun::Failed(
                        k,
                    ) && error_matches(e, k));
                }
                return Err(e);
            },
        }
    }
}


/// Whether a value is in weak head normal form.
pub fn is_weak_head_normal_form(value: &Value) -> (r: bool)
    ensures
        r == is_whnf(value@),
{
    value.is_weak_head_normal_form()
}

/// Determinism of reduction: the model's run is a mathematical function of
/// the machine and the budget, and `eval_loop`'s contract pins its result
/// to that function — so two evaluations of machines with the same
/// mathematical state and the same budget end the same way: the same final
/// value, the same error, or the same out-of-budget machine.
pub proof fn lemma_reduction_deterministic(a: SpecMachine, b: SpecMachine, fuel: nat)
    requires
        a == b,
    ensures
        spec_run_fuel(a, fuel) == spec_run_fuel(b, fuel),
{
}

/// The diagnostic text of an error.
pub open spec fn message_spec(e: RuntimeError) -> Seq<char> {
    match e {
        RuntimeError::UnresolvedSymbol(id) => "pita runtime error: unresolved symbol: "@
            + id@.name,
        RuntimeError::InvalidDecl(d) => "pita runtime error: invalid declaration: "@ + d@,
        RuntimeError::InvalidCallsite(d) => "pita runtime error: invalid callsite: "@ + d@,
        RuntimeError::NoMatch(d) => "pita runtime error: no match: "@ + d@,
        RuntimeError::MatchTypeError(d) => "pita runtime error: match type error: "@ + d@,
        RuntimeError::ReentrantForcing(d) => "pita runtime error: re-entrant forcing: "@ + d@,
    }
}

impl RuntimeError {
    /// Renders the error for a reader, naming its kind and detail.
    pub fn message(&self) -> (r: String)
        ensures
            r@ == message_spec(*self),
    {
        match self {
            RuntimeError::UnresolvedSymbol(id) => String::from_str(
                "pita runtime error: unresolved symbol: ",
            ).concat(id.name()),
            RuntimeError::InvalidDecl(d) => String::from_str(
                "pita runtime error: invalid declaration: ",
            ).concat(d.as_str()),
            RuntimeError::InvalidCallsite(d) => String::from_str(
                "pita runtime error: invalid callsite: ",
            ).concat(d.as_str()),
            RuntimeError::NoMatch(d) => String::from_str("pita runtime error: no match: ").concat(
                d.as_str(),
            ),
            RuntimeError::MatchTypeError(d) => String::from_str(
                "pita runtime error: match type error: ",
            ).concat(d.as_str()),
            RuntimeError::ReentrantForcing(d) => String::from_str(
                "pita runtime error: re-entrant forcing: ",
            ).concat(d.as_str()),
        }
    }
}


} // verus!
