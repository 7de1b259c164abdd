//! The structural pattern matcher. Matching works through an explicit stack
//! of obligations — pattern/value pairs still to be checked, leftmost on
//! top — so that the evaluator can suspend a match whenever a pattern needs
//! a value forced, force it through the trampoline, and resume.
//!
//! An irrefutable pattern binds the original, possibly unforced value and
//! never forces. Shape patterns read a memoized thunk through the heap but
//! never force one themselves: a match that reaches an unforced value
//! reports it and lets the evaluator reduce it.
use vstd::prelude::*;

use crate::env::{
    Binding, Env, SpecBinding, SpecEnv, SpecFrame, bindings_view, chain, env_le, env_wf,
    frames_of_bindings, lemma_bindings_view, lemma_chain_push, scope_after_bindings,
};
use crate::heap::{Heap, SpecThunk, heap_wf, thunk_wf};
use crate::value::{
    LiteralValue, Predicate, Scope, SpecLiteral, SpecPredicate, SpecValue, Value, is_whnf,
    lemma_preds_view, lemma_value_valid_mono, lemma_values_view,
    pred_view, predicate_list_size, predicate_size, preds_view, scope_valid, value_valid,
    values_view,
};

verus! {

/// One obligation: a pattern and the value it must match.
#[derive(Debug)]
pub struct Obligation {
    pub predicate: Predicate,
    pub value: Value,
}

/// The mathematical mirror of `Obligation`.
#[verifier::ext_equal]
pub struct SpecObligation {
    pub predicate: SpecPredicate,
    pub value: SpecValue,
}

impl View for Obligation {
    type V = SpecObligation;

    open spec fn view(&self) -> SpecObligation {
        SpecObligation { predicate: self.predicate@, value: self.value@ }
    }
}

/// The views of a list of obligations.
pub open spec fn obligations_view(s: Seq<Obligation>) -> Seq<SpecObligation>
    decreases s,
{
    if s.len() == 0 {
        Seq::empty()
    } else {
        seq![s[0]@] + obligations_view(s.drop_first())
    }
}

/// The view of an obligation list is the list of the views.
pub broadcast proof fn lemma_obligations_view(s: Seq<Obligation>)
    ensures
        (#[trigger] obligations_view(s)).len() == s.len(),
        forall|i: int| 0 <= i < s.len() ==> obligations_view(s)[i] == s[i]@,
    decreases s,
{
    if s.len() > 0 {
        lemma_obligations_view(s.drop_first());
    }
}

/// One step of dereference: a thunk whose memo cell is filled stands for its
/// memoized value; everything else stands for itself.
pub open spec fn resolve(heap: Seq<SpecThunk>, v: SpecValue) -> SpecValue {
    match v {
        SpecValue::Thunk(t) => if t < heap.len() {
            match heap[t as int] {
                SpecThunk::Forced(w) => w,
                _ => v,
            }
        } else {
            v
        },
        _ => v,
    }
}

/// The total pattern size of an obligation stack: the measure of matching.
pub open spec fn pending_size(s: Seq<SpecObligation>) -> nat
    decreases s,
{
    if s.len() == 0 {
        0
    } else {
        predicate_size(s.last().predicate) + pending_size(s.drop_last())
    }
}

pub proof fn lemma_pending_size_append(a: Seq<SpecObligation>, b: Seq<SpecObligation>)
    ensures
        pending_size(a + b) == pending_size(a) + pending_size(b),
    decreases b,
{
    if b.len() == 0 {
        assert(a + b =~= a);
    } else {
        lemma_pending_size_append(a, b.drop_last());
        assert((a + b).drop_last() =~= a + b.drop_last());
        assert((a + b).last() == b.last());
    }
}

/// Sub-patterns paired with the fields they must match, rightmost first, so
/// that the leftmost pair ends on top of the stack.
pub open spec fn zip_obligations_rev(preds: Seq<SpecPredicate>, values: Seq<SpecValue>) -> Seq<
    SpecObligation,
> {
    Seq::new(
        preds.len(),
        |i: int|
            SpecObligation {
                predicate: preds[preds.len() - 1 - i],
                value: values[preds.len() - 1 - i],
            },
    )
}

pub proof fn lemma_zip_size(preds: Seq<SpecPredicate>, values: Seq<SpecValue>)
    requires
        preds.len() == values.len(),
    ensures
        pending_size(zip_obligations_rev(preds, values)) == predicate_list_size(preds),
    decreases preds,
{
    if preds.len() == 0 {
    } else {
        lemma_zip_size(preds.drop_first(), values.drop_first());
        let z = zip_obligations_rev(preds, values);
        assert(z.drop_last() =~= zip_obligations_rev(preds.drop_first(), values.drop_first()));
        assert(z.last().predicate == preds[0]);
    }
}

/// The outcome of running an obligation stack as far as the heap allows.
pub enum SpecMatch {
    /// Every obligation matched; the bindings made, leftmost first.
    Bound(Seq<SpecBinding>),
    /// An ordinary non-match: an integer or constructor name differed.
    Fail,
    /// A shape mismatch: the pattern's expected shape disagrees with the
    /// value's actual shape, arity included. No bindings survive.
    TypeFail,
    /// A shape pattern reached a value that is not yet in weak head normal
    /// form; matching can resume once the evaluator has reduced it.
    Stuck {
        predicate: SpecPredicate,
        value: SpecValue,
        rest: Seq<SpecObligation>,
        bound: Seq<SpecBinding>,
    },
}

/// Structural matching of an obligation stack against the heap, with the
/// bindings accumulated so far. The rules: an irrefutable pattern always
/// matches, binding the unresolved value; an integer pattern matches an
/// equal integer literal and fails on an unequal one; tuple and constructor
/// patterns demand the same shape and the same arity — a different shape or
/// arity is a type failure, a different constructor name an ordinary
/// failure — and then match the fields leftmost first.
pub open spec fn spec_match_pending(
    heap: Seq<SpecThunk>,
    pending: Seq<SpecObligation>,
    acc: Seq<SpecBinding>,
) -> SpecMatch
    decreases pending_size(pending),
{
    if pending.len() == 0 {
        SpecMatch::Bound(acc)
    } else {
        let ob = pending.last();
        let rest = pending.drop_last();
        match ob.predicate {
            SpecPredicate::Irrefutable(id) => spec_match_pending(
                heap,
                rest,
                acc.push(SpecBinding { name: id.name, value: ob.value }),
            ),
            SpecPredicate::Int(n, loc) => {
                let v = resolve(heap, ob.value);
                if !is_whnf(v) {
                    SpecMatch::Stuck { predicate: ob.predicate, value: ob.value, rest, bound: acc }
                } else {
                    match v {
                        SpecValue::Literal(l) => match l {
                            SpecLiteral::Int(k) => if k == n {
                                spec_match_pending(heap, rest, acc)
                            } else {
                                SpecMatch::Fail
                            },
                            _ => SpecMatch::TypeFail,
                        },
                        _ => SpecMatch::TypeFail,
                    }
                }
            },
            SpecPredicate::Tuple(subs) => {
                let v = resolve(heap, ob.value);
                if !is_whnf(v) {
                    SpecMatch::Stuck { predicate: ob.predicate, value: ob.value, rest, bound: acc }
                } else {
                    match v {
                        SpecValue::Tuple { dims } => if dims.len() == subs.len() {
                            proof {
                                lemma_pending_size_append(rest, zip_obligations_rev(subs, dims));
                                lemma_zip_size(subs, dims);
                            }
                            spec_match_pending(heap, rest + zip_obligations_rev(subs, dims), acc)
                        } else {
                            SpecMatch::TypeFail
                        },
                        _ => SpecMatch::TypeFail,
                    }
                }
            },
            SpecPredicate::Ctor(id, subs) => {
                let v = resolve(heap, ob.value);
                if !is_whnf(v) {
                    SpecMatch::Stuck { predicate: ob.predicate, value: ob.value, rest, bound: acc }
                } else {
                    match v {
                        SpecValue::Ctor { name, dims } => if name.name != id.name {
                            SpecMatch::Fail
                        } else if dims.len() != subs.len() {
                            SpecMatch::TypeFail
                        } else {
                            proof {
                                lemma_pending_size_append(rest, zip_obligations_rev(subs, dims));
                                lemma_zip_size(subs, dims);
                            }
                            spec_match_pending(heap, rest + zip_obligations_rev(subs, dims), acc)
                        },
                        _ => SpecMatch::TypeFail,
                    }
                }
            },
        }
    }
}

/// The match of one pattern against one subject.
pub open spec fn spec_match_one(
    heap: Seq<SpecThunk>,
    predicate: SpecPredicate,
    subject: SpecValue,
) -> SpecMatch {
    spec_match_pending(heap, seq![SpecObligation { predicate, value: subject }], Seq::empty())
}

/// Whether one arm's pattern cannot match the subject, by ordinary failure
/// or by shape mismatch.
pub open spec fn arm_fails(
    heap: Seq<SpecThunk>,
    predicate: SpecPredicate,
    subject: SpecValue,
) -> bool {
    ||| spec_match_one(heap, predicate, subject) is Fail
    ||| spec_match_one(heap, predicate, subject) is TypeFail
}

/// A pattern of a different arity than the tuple it faces is a shape
/// mismatch, never a partial bind: the match is a type failure and makes no
/// bindings at all.
pub proof fn lemma_arity_mismatch_is_type_failure(
    heap: Seq<SpecThunk>,
    subs: Seq<SpecPredicate>,
    dims: Seq<SpecValue>,
)
    requires
        subs.len() != dims.len(),
    ensures
        spec_match_one(heap, SpecPredicate::Tuple(subs), SpecValue::Tuple { dims })
            == SpecMatch::TypeFail,
{
    let pending = seq![
        SpecObligation { predicate: SpecPredicate::Tuple(subs), value: SpecValue::Tuple { dims } },
    ];
    assert(pending.last().predicate == SpecPredicate::Tuple(subs));
    assert(resolve(heap, SpecValue::Tuple { dims }) == SpecValue::Tuple { dims });
}

/// The outcome of one run of the matcher.
#[derive(Debug)]
pub enum MatchOutcome {
    /// Every obligation matched; `scope` holds the bindings.
    Matched { scope: Scope },
    /// This match cannot succeed; `shape_mismatch` tells a shape or arity
    /// disagreement apart from an ordinary non-match.
    Failed { shape_mismatch: bool },
    /// `value` must be reduced to weak head normal form before `predicate`
    /// can be checked; the obligation stack keeps the rest, and `scope`
    /// holds the bindings made so far.
    Suspend { predicate: Predicate, value: Value, scope: Scope },
}


/// Reads one dereference step of `value` through the heap: the memoized
/// value of a filled thunk, the value itself otherwise. `None` means the
/// value is a thunk whose cell is not filled, so only the evaluator can
/// take it further.
fn resolve_value(heap: &Heap, value: &Value) -> (r: Option<Value>)
    requires
        value@ matches SpecValue::Thunk(t) ==> t < heap@.len(),
    ensures
        r matches Some(v) ==> v@ == resolve(heap@, value@),
        r is None ==> resolve(heap@, value@) == value@ && !is_whnf(value@),
{
    match value {
        Value::Thunk(t) => heap.read_forced(*t),
        _ => Some(value.clone()),
    }
}

/// One committed binding extends the arena by exactly the predicted frame
/// and keeps the environment well formed.
proof fn lemma_commit_step(
    base: SpecEnv,
    scope: Scope,
    bsv: Seq<SpecBinding>,
    i: int,
    e1: SpecEnv,
    s1: Scope,
    e2: SpecEnv,
    s2: Scope,
    nt: int,
)
    requires
        0 <= i < bsv.len(),
        e1.globals == base.globals,
        e1.frames == base.frames + frames_of_bindings(
            base.frames.len() as int,
            scope.head,
            bsv,
        ).subrange(0, i),
        s1 == scope_after_bindings(base.frames.len() as int, scope.head, bsv.subrange(0, i)),
        env_wf(e1, nt),
        scope_valid(scope, base.frames.len() as int),
        value_valid(bsv[i].value, base.frames.len() as int, nt),
        chain(e1.frames, s1.head) == bsv.subrange(0, i).reverse() + chain(
            base.frames,
            scope.head,
        ),
        e2.globals == e1.globals,
        e2.frames == e1.frames.push(
            (SpecFrame { name: bsv[i].name, value: bsv[i].value, parent: s1.head }),
        ),
        s2.head matches Some(h) && h == e1.frames.len(),
    ensures
        e2.frames == base.frames + frames_of_bindings(
            base.frames.len() as int,
            scope.head,
            bsv,
        ).subrange(0, i + 1),
        s2 == scope_after_bindings(base.frames.len() as int, scope.head, bsv.subrange(0, i + 1)),
        env_wf(e2, nt),
        chain(e2.frames, s2.head) == bsv.subrange(0, i + 1).reverse() + chain(
            base.frames,
            scope.head,
        ),
{
    let start = base.frames.len() as int;
    let f = SpecFrame { name: bsv[i].name, value: bsv[i].value, parent: s1.head };
    assert(e1.frames.len() == start + i);
    assert(frames_of_bindings(start, scope.head, bsv)[i] == f);
    assert(e2.frames =~= base.frames + frames_of_bindings(start, scope.head, bsv).subrange(
        0,
        i + 1,
    ));
    assert(s2 == scope_after_bindings(start, scope.head, bsv.subrange(0, i + 1)));
    // The scope before the push is valid in the arena before the push.
    assert(s1.head matches Some(p) ==> p < e1.frames.len());
    lemma_chain_push(e1.frames, f, s1.head);
    let h = s2.head->0;
    assert(h == e1.frames.len());
    assert(e2.frames[h as int] == f);
    assert(chain(e2.frames, s2.head) == seq![SpecBinding { name: f.name, value: f.value }] + chain(
        e2.frames,
        f.parent,
    ));
    assert(chain(e2.frames, f.parent) == chain(e1.frames, s1.head));
    assert(bsv.subrange(0, i + 1).reverse() =~= seq![bsv[i]] + bsv.subrange(0, i).reverse());
    assert(chain(e2.frames, s2.head) =~= bsv.subrange(0, i + 1).reverse() + chain(
        base.frames,
        scope.head,
    ));
    assert(value_valid(f.value, start + i, nt)) by {
        lemma_value_valid_mono(bsv[i].value, start, nt, start + i, nt);
    }
    assert forall|k: int| 0 <= k < e2.frames.len() implies value_valid(
        #[trigger] e2.frames[k].value,
        k,
        nt,
    ) by {
        if k < e1.frames.len() {
            assert(e2.frames[k] == e1.frames[k]);
        }
    }
    assert forall|k: int| 0 <= k < e2.frames.len() implies (#[trigger] e2.frames[k].parent
        matches Some(p) ==> p < k) by {
        if k < e1.frames.len() {
            assert(e2.frames[k] == e1.frames[k]);
        }
    }
}

/// Commits accumulated bindings into the environment, leftmost first: one
/// frame per binding, each extending the one before it.
#[verifier::loop_isolation(false)]
fn commit_bindings(
    env: &mut Env,
    scope: Scope,
    binds: Vec<Binding>,
    Ghost(nt): Ghost<int>,
) -> (r: Scope)
    requires
        env_wf(old(env)@, nt),
        scope_valid(scope, old(env)@.frames.len() as int),
        forall|i: int|
            0 <= i < binds@.len() ==> value_valid(
                bindings_view(binds@)[i].value,
                old(env)@.frames.len() as int,
                nt,
            ),
    ensures
        final(env)@.globals == old(env)@.globals,
        final(env)@.frames == old(env)@.frames + frames_of_bindings(
            old(env)@.frames.len() as int,
            scope.head,
            bindings_view(binds@),
        ),
        r == scope_after_bindings(
            old(env)@.frames.len() as int,
            scope.head,
            bindings_view(binds@),
        ),
        env_wf(final(env)@, nt),
        env_le(old(env)@, final(env)@),
        chain(final(env)@.frames, r.head) == bindings_view(binds@).reverse() + chain(
            old(env)@.frames,
            scope.head,
        ),
{
    proof {
        broadcast use lemma_bindings_view;

    }
    let ghost start = old(env)@.frames.len() as int;
    let ghost bsv = bindings_view(binds@);
    let mut sc = scope;
    let mut rest = binds;
    let n0 = rest.len();
    let mut i: usize = 0;
    while rest.len() > 0
        invariant
            bsv.len() == n0,
            i + rest@.len() == bsv.len(),
            forall|k: int| 0 <= k < rest@.len() ==> (#[trigger] rest@[k])@ == bsv[i + k],
            env@.globals == old(env)@.globals,
            env@.frames == old(env)@.frames + frames_of_bindings(start, scope.head, bsv).subrange(
                0,
                i as int,
            ),
            sc == scope_after_bindings(start, scope.head, bsv.subrange(0, i as int)),
            env_wf(env@, nt),
            chain(env@.frames, sc.head) == bsv.subrange(0, i as int).reverse() + chain(
                old(env)@.frames,
                scope.head,
            ),
        decreases rest@.len(),
    {
        proof {
            broadcast use lemma_bindings_view;

        }
        let ghost rv = rest@;
        let ghost e1 = env@;
        let ghost s1 = sc;
        let b = rest.remove(0);
        proof {
            assert(b@ == bsv[i as int]);
            assert forall|k: int| 0 <= k < rest@.len() implies (#[trigger] rest@[k])@ == bsv[i + 1
                + k] by {
                assert(rest@[k] == rv[k + 1]);
            }
        }
        sc = env.add_binding(sc, b);
        proof {
            lemma_commit_step(old(env)@, scope, bsv, i as int, e1, s1, env@, sc, nt);
        }
        i = i + 1;
    }
    proof {
        assert(frames_of_bindings(start, scope.head, bsv).subrange(0, bsv.len() as int)
            =~= frames_of_bindings(start, scope.head, bsv));
        assert(bsv.subrange(0, bsv.len() as int) =~= bsv);
        assert(final(env)@.frames =~= old(env)@.frames + frames_of_bindings(
            start,
            scope.head,
            bsv,
        ));
    }
    sc
}

/// Validity carries over once the bindings have grown the arena.
proof fn lemma_valid_after_commit(
    vv: SpecValue,
    rest: Seq<SpecObligation>,
    nf: int,
    nf2: int,
    nt: int,
)
    requires
        value_valid(vv, nf, nt),
        nf <= nf2,
        forall|i: int| 0 <= i < rest.len() ==> value_valid((#[trigger] rest[i]).value, nf, nt),
    ensures
        value_valid(vv, nf2, nt),
        forall|i: int| 0 <= i < rest.len() ==> value_valid((#[trigger] rest[i]).value, nf2, nt),
{
    lemma_value_valid_mono(vv, nf, nt, nf2, nt);
    assert forall|i: int| 0 <= i < rest.len() implies value_valid(
        (#[trigger] rest[i]).value,
        nf2,
        nt,
    ) by {
        lemma_value_valid_mono(rest[i].value, nf, nt, nf2, nt);
    }
}

/// Runs the obligation stack against the heap. Bindings are committed to
/// the environment only when the whole stack matches or the match suspends:
/// a failed match leaves the environment exactly as it was. The obligations
/// are consumed from the top; on suspension the stack keeps exactly the
/// obligations after the blocked one.
#[verifier::loop_isolation(false)]
pub fn match_obligations(
    env: &mut Env,
    heap: &Heap,
    scope: Scope,
    pending: &mut Vec<Obligation>,
) -> (r: MatchOutcome)
    requires
        env_wf(old(env)@, heap@.len() as int),
        heap_wf(heap@, old(env)@.frames.len() as int),
        scope_valid(scope, old(env)@.frames.len() as int),
        forall|i: int|
            0 <= i < old(pending)@.len() ==> value_valid(
                obligations_view(old(pending)@)[i].value,
                old(env)@.frames.len() as int,
                heap@.len() as int,
            ),
    ensures
        env_le(old(env)@, final(env)@),
        env_wf(final(env)@, heap@.len() as int),
        (match spec_match_pending(heap@, obligations_view(old(pending)@), Seq::empty()) {
            SpecMatch::Bound(bs) => {
                &&& r matches MatchOutcome::Matched { scope: s2 } && s2 == scope_after_bindings(
                    old(env)@.frames.len() as int,
                    scope.head,
                    bs,
                )
                &&& final(env)@.globals == old(env)@.globals
                &&& final(env)@.frames == old(env)@.frames + frames_of_bindings(
                    old(env)@.frames.len() as int,
                    scope.head,
                    bs,
                )
                &&& chain(
                    final(env)@.frames,
                    scope_after_bindings(old(env)@.frames.len() as int, scope.head, bs).head,
                ) == bs.reverse() + chain(old(env)@.frames, scope.head)
            },
            SpecMatch::Fail => r == (MatchOutcome::Failed { shape_mismatch: false }) && final(env)@
                == old(env)@,
            SpecMatch::TypeFail => r == (MatchOutcome::Failed { shape_mismatch: true })
                && final(env)@ == old(env)@,
            SpecMatch::Stuck { predicate, value, rest, bound } => {
                &&& r matches MatchOutcome::Suspend { predicate: p, value: v, scope: s2 } && p@
                    == predicate && v@ == value && s2 == scope_after_bindings(
                    old(env)@.frames.len() as int,
                    scope.head,
                    bound,
                )
                &&& obligations_view(final(pending)@) == rest
                &&& final(env)@.globals == old(env)@.globals
                &&& final(env)@.frames == old(env)@.frames + frames_of_bindings(
                    old(env)@.frames.len() as int,
                    scope.head,
                    bound,
                )
                &&& chain(
                    final(env)@.frames,
                    scope_after_bindings(old(env)@.frames.len() as int, scope.head, bound).head,
                ) == bound.reverse() + chain(old(env)@.frames, scope.head)
                &&& value_valid(value, final(env)@.frames.len() as int, heap@.len() as int)
                &&& forall|i: int|
                    0 <= i < rest.len() ==> value_valid(
                        (#[trigger] rest[i]).value,
                        final(env)@.frames.len() as int,
                        heap@.len() as int,
                    )
            },
        }),
{
    proof {
        broadcast use lemma_obligations_view, lemma_bindings_view;

    }
    let ghost m0 = spec_match_pending(heap@, obligations_view(old(pending)@), Seq::empty());
    let ghost nf = old(env)@.frames.len() as int;
    let ghost nt = heap@.len() as int;
    let mut binds: Vec<Binding> = Vec::new();
    loop
        invariant
            env@ == old(env)@,
            spec_match_pending(heap@, obligations_view(pending@), bindings_view(binds@)) == m0,
            forall|i: int|
                0 <= i < pending@.len() ==> value_valid(
                    obligations_view(pending@)[i].value,
                    nf,
                    nt,
                ),
            forall|i: int|
                0 <= i < binds@.len() ==> value_valid(bindings_view(binds@)[i].value, nf, nt),
        decreases pending_size(obligations_view(pending@)),
    {
        proof {
            broadcast use lemma_obligations_view, lemma_bindings_view;

        }
        let ghost pv = obligations_view(pending@);
        let ghost acc = bindings_view(binds@);
        let ob = match pending.pop() {
            Some(ob) => ob,
            None => {
                proof {
                    assert(pv =~= Seq::<SpecObligation>::empty());
                    assert(m0 == SpecMatch::Bound(acc));
                }
                let s2 = commit_bindings(env, scope, binds, Ghost(nt));
                return MatchOutcome::Matched { scope: s2 };
            },
        };
        let Obligation { predicate, value } = ob;
        proof {
            assert(pv.last() == (SpecObligation { predicate: predicate@, value: value@ }));
            assert(pv.drop_last() =~= obligations_view(pending@));
            assert(value_valid(value@, nf, nt));
        }
        let ghost rest_v = obligations_view(pending@);
        match predicate {
            Predicate::Irrefutable(id) => {
                binds.push(Binding { name: id.token.text, value });
                proof {
                    assert(bindings_view(binds@) =~= acc.push(binds@.last()@));
                }
            },
            Predicate::Int(n, loc) => {
                let resolved: Value = match resolve_value(heap, &value) {
                    Some(v) => v,
                    None => {
                        proof {
                            assert(m0 == (SpecMatch::Stuck {
                                predicate: pv.last().predicate,
                                value: value@,
                                rest: rest_v,
                                bound: acc,
                            }));
                        }
                        let s2 = commit_bindings(env, scope, binds, Ghost(nt));
                        proof {
                            lemma_valid_after_commit(
                                value@,
                                obligations_view(pending@),
                                nf,
                                env@.frames.len() as int,
                                nt,
                            );
                        }
                        return MatchOutcome::Suspend {
                            predicate: Predicate::Int(n, loc),
                            value,
                            scope: s2,
                        };
                    },
                };
                if !resolved.is_weak_head_normal_form() {
                    proof {
                        assert(m0 == (SpecMatch::Stuck {
                            predicate: pv.last().predicate,
                            value: value@,
                            rest: rest_v,
                            bound: acc,
                        }));
                    }
                    let s2 = commit_bindings(env, scope, binds, Ghost(nt));
                    proof {
                        lemma_valid_after_commit(
                            value@,
                            obligations_view(pending@),
                            nf,
                            env@.frames.len() as int,
                            nt,
                        );
                    }
                    return MatchOutcome::Suspend {
                        predicate: Predicate::Int(n, loc),
                        value,
                        scope: s2,
                    };
                }
                match resolved {
                    Value::Literal(l) => match l {
                        LiteralValue::Int(k) => {
                            if k != n {
                                proof {
                                    assert(m0 == SpecMatch::Fail);
                                }
                                return MatchOutcome::Failed { shape_mismatch: false };
                            }
                        },
                        _ => {
                            proof {
                                assert(m0 == SpecMatch::TypeFail);
                            }
                            return MatchOutcome::Failed { shape_mismatch: true };
                        },
                    },
                    _ => {
                        proof {
                            assert(m0 == SpecMatch::TypeFail);
                        }
                        return MatchOutcome::Failed { shape_mismatch: true };
                    },
                }
            },
            Predicate::Tuple(subs) => {
                let resolved: Value = match resolve_value(heap, &value) {
                    Some(v) => v,
                    None => {
                        proof {
                            assert(m0 == (SpecMatch::Stuck {
                                predicate: pv.last().predicate,
                                value: value@,
                                rest: rest_v,
                                bound: acc,
                            }));
                        }
                        let s2 = commit_bindings(env, scope, binds, Ghost(nt));
                        proof {
                            lemma_valid_after_commit(
                                value@,
                                obligations_view(pending@),
                                nf,
                                env@.frames.len() as int,
                                nt,
                            );
                        }
                        return MatchOutcome::Suspend {
                            predicate: Predicate::Tuple(subs),
                            value,
                            scope: s2,
                        };
                    },
                };
                if !resolved.is_weak_head_normal_form() {
                    proof {
                        assert(m0 == (SpecMatch::Stuck {
                            predicate: pv.last().predicate,
                            value: value@,
                            rest: rest_v,
                            bound: acc,
                        }));
                    }
                    let s2 = commit_bindings(env, scope, binds, Ghost(nt));
                    proof {
                        lemma_valid_after_commit(
                            value@,
                            obligations_view(pending@),
                            nf,
                            env@.frames.len() as int,
                            nt,
                        );
                    }
                    return MatchOutcome::Suspend {
                        predicate: Predicate::Tuple(subs),
                        value,
                        scope: s2,
                    };
                }
                proof {
                    assert(value_valid(resolved@, nf, nt)) by {
                        if value@ is Thunk {
                            assert(thunk_wf(heap@[value@->Thunk_0 as int], nf, nt));
                        }
                    }
                }
                match resolved {
                    Value::Tuple { dims } => {
                        if dims.len() != subs.len() {
                            proof {
                                broadcast use crate::value::lemma_preds_view, lemma_values_view;

                                assert(preds_view(subs@).len() == subs@.len());
                                assert(values_view(dims@).len() == dims@.len());
                                assert(m0 == SpecMatch::TypeFail);
                            }
                            return MatchOutcome::Failed { shape_mismatch: true };
                        }
                        proof {
                            broadcast use crate::value::lemma_preds_view, lemma_values_view;

                            assert(forall|i: int|
                                0 <= i < dims@.len() ==> value_valid(
                                    values_view(dims@)[i],
                                    nf,
                                    nt,
                                ));
                        }
                        let ghost gsubs = preds_view(subs@);
                        let ghost gdims = values_view(dims@);
                        push_fields(pending, subs, dims, Ghost(rest_v), Ghost(nf), Ghost(nt));
                        proof {
                            lemma_pending_size_append(rest_v, zip_obligations_rev(gsubs, gdims));
                            lemma_zip_size(gsubs, gdims);
                            assert(spec_match_pending(heap@, obligations_view(pending@), acc)
                                == m0);
                            assert(pending_size(obligations_view(pending@)) < pending_size(pv));
                        }
                    },
                    _ => {
                        proof {
                            assert(m0 == SpecMatch::TypeFail);
                        }
                        return MatchOutcome::Failed { shape_mismatch: true };
                    },
                }
            },
            Predicate::Ctor(id, subs) => {
                let resolved: Value = match resolve_value(heap, &value) {
                    Some(v) => v,
                    None => {
                        proof {
                            assert(m0 == (SpecMatch::Stuck {
                                predicate: pv.last().predicate,
                                value: value@,
                                rest: rest_v,
                                bound: acc,
                            }));
                        }
                        let s2 = commit_bindings(env, scope, binds, Ghost(nt));
                        proof {
                            lemma_valid_after_commit(
                                value@,
                                obligations_view(pending@),
                                nf,
                                env@.frames.len() as int,
                                nt,
                            );
                        }
                        return MatchOutcome::Suspend {
                            predicate: Predicate::Ctor(id, subs),
                            value,
                            scope: s2,
                        };
                    },
                };
                if !resolved.is_weak_head_normal_form() {
                    proof {
                        assert(m0 == (SpecMatch::Stuck {
                            predicate: pv.last().predicate,
                            value: value@,
                            rest: rest_v,
                            bound: acc,
                        }));
                    }
                    let s2 = commit_bindings(env, scope, binds, Ghost(nt));
                    proof {
                        lemma_valid_after_commit(
                            value@,
                            obligations_view(pending@),
                            nf,
                            env@.frames.len() as int,
                            nt,
                        );
                    }
                    return MatchOutcome::Suspend {
                        predicate: Predicate::Ctor(id, subs),
                        value,
                        scope: s2,
                    };
                }
                proof {
                    assert(value_valid(resolved@, nf, nt)) by {
                        if value@ is Thunk {
                            assert(thunk_wf(heap@[value@->Thunk_0 as int], nf, nt));
                        }
                    }
                }
                match resolved {
                    Value::Ctor { name, dims } => {
                        if !(name.token.text == id.token.text) {
                            proof {
                                assert(m0 == SpecMatch::Fail);
                            }
                            return MatchOutcome::Failed { shape_mismatch: false };
                        }
                        if dims.len() != subs.len() {
                            proof {
                                broadcast use crate::value::lemma_preds_view, lemma_values_view;

                                assert(preds_view(subs@).len() == subs@.len());
                                assert(values_view(dims@).len() == dims@.len());
                                assert(m0 == SpecMatch::TypeFail);
                            }
                            return MatchOutcome::Failed { shape_mismatch: true };
                        }
                        proof {
                            broadcast use crate::value::lemma_preds_view, lemma_values_view;

                            assert(forall|i: int|
                                0 <= i < dims@.len() ==> value_valid(
                                    values_view(dims@)[i],
                                    nf,
                                    nt,
                                ));
                        }
                        let ghost gsubs = preds_view(subs@);
                        let ghost gdims = values_view(dims@);
                        push_fields(pending, subs, dims, Ghost(rest_v), Ghost(nf), Ghost(nt));
                        proof {
                            lemma_pending_size_append(rest_v, zip_obligations_rev(gsubs, gdims));
                            lemma_zip_size(gsubs, gdims);
                            assert(spec_match_pending(heap@, obligations_view(pending@), acc)
                                == m0);
                            assert(pending_size(obligations_view(pending@)) < pending_size(pv));
                        }
                    },
                    _ => {
                        proof {
                            assert(m0 == SpecMatch::TypeFail);
                        }
                        return MatchOutcome::Failed { shape_mismatch: true };
                    },
                }
            },
        }
    }
}

/// Pushes the field obligations of a tuple or constructor match, rightmost
/// first, so that the leftmost field is checked next.
#[verifier::loop_isolation(false)]
fn push_fields(
    pending: &mut Vec<Obligation>,
    subs: Vec<Predicate>,
    dims: Vec<Value>,
    Ghost(rest_v): Ghost<Seq<SpecObligation>>,
    Ghost(nf): Ghost<int>,
    Ghost(nt): Ghost<int>,
)
    requires
        subs@.len() == dims@.len(),
        obligations_view(old(pending)@) == rest_v,
        forall|i: int| 0 <= i < dims@.len() ==> value_valid(values_view(dims@)[i], nf, nt),
        forall|i: int|
            0 <= i < old(pending)@.len() ==> value_valid(
                obligations_view(old(pending)@)[i].value,
                nf,
                nt,
            ),
    ensures
        obligations_view(final(pending)@) == rest_v + zip_obligations_rev(
            preds_view(subs@),
            values_view(dims@),
        ),
        forall|i: int|
            0 <= i < final(pending)@.len() ==> value_valid(
                obligations_view(final(pending)@)[i].value,
                nf,
                nt,
            ),
{
    proof {
        broadcast use lemma_obligations_view, lemma_preds_view, lemma_values_view;

    }
    let ghost gsubs = preds_view(subs@);
    let ghost gdims = values_view(dims@);
    let mut subs = subs;
    let mut dims = dims;
    while subs.len() > 0
        invariant
            subs@.len() == dims@.len(),
            subs@.len() <= gsubs.len(),
            gsubs.len() == gdims.len(),
            preds_view(subs@) == gsubs.subrange(0, subs@.len() as int),
            values_view(dims@) == gdims.subrange(0, dims@.len() as int),
            obligations_view(pending@) == rest_v + zip_obligations_rev(gsubs, gdims).subrange(
                0,
                gsubs.len() - subs@.len(),
            ),
            forall|i: int|
                0 <= i < pending@.len() ==> value_valid(
                    obligations_view(pending@)[i].value,
                    nf,
                    nt,
                ),
            forall|i: int| 0 <= i < gdims.len() ==> value_valid(gdims[i], nf, nt),
        decreases subs.len(),
    {
        proof {
            broadcast use lemma_obligations_view, lemma_preds_view, lemma_values_view;

        }
        let ghost sv = subs@;
        let ghost dv = dims@;
        let p = match subs.pop() {
            Some(p) => p,
            None => {
                proof {
                    assert(false);
                }
                return ;
            },
        };
        let d = match dims.pop() {
            Some(d) => d,
            None => {
                proof {
                    assert(false);
                }
                return ;
            },
        };
        proof {
            assert(preds_view(subs@) =~= gsubs.subrange(0, subs@.len() as int));
            assert(values_view(dims@) =~= gdims.subrange(0, dims@.len() as int));
            assert(pred_view(p) == preds_view(sv)[sv.len() - 1]);
            assert(pred_view(p) == gsubs[sv.len() - 1]);
            assert(d@ == values_view(dv)[dv.len() - 1]);
            assert(d@ == gdims[dv.len() - 1]);
        }
        let ghost before = obligations_view(pending@);
        pending.push(Obligation { predicate: p, value: d });
        proof {
            assert(obligations_view(pending@) =~= before.push(
                SpecObligation { predicate: gsubs[sv.len() - 1], value: gdims[dv.len() - 1] },
            ));
            let j = gsubs.len() - sv.len();
            assert(zip_obligations_rev(gsubs, gdims)[j] == (SpecObligation {
                predicate: gsubs[sv.len() - 1],
                value: gdims[dv.len() - 1],
            }));
            assert(obligations_view(pending@) =~= rest_v + zip_obligations_rev(
                gsubs,
                gdims,
            ).subrange(0, gsubs.len() - subs@.len()));
        }
    }
    proof {
        assert(zip_obligations_rev(gsubs, gdims).subrange(0, gsubs.len() as int)
            =~= zip_obligations_rev(gsubs, gdims));
        assert(obligations_view(pending@) =~= rest_v + zip_obligations_rev(gsubs, gdims));
    }
}

} // verus!
