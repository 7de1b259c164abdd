//! The declaration linker. Surface clauses that share a name are merged into
//! one global binding: clauses must agree on arity; zero-arity clauses bind
//! their body as a lazily thunked global value; clauses of arity N become one
//! curried chain of N fresh parameters over a match of the parameter tuple
//! against the clauses' patterns in source order — first matching clause
//! wins. Arity disagreement is reported before any reduction starts.
use vstd::prelude::*;

use crate::env::{Env, SpecBinding, SpecEnv, SpecFrame, env_wf};
use crate::exec::{Machine, RuntimeError, SpecMachine, SpecStep, Step, machine_wf};
use crate::heap::{Heap, SpecThunk};
use crate::id::{Id, SpecId, gensym};
use crate::location::Location;
use crate::token::Token;
use crate::value::{
    BuiltinOp, Decl, PatternExpr, Predicate, Scope, SpecDecl, SpecPatternExpr, SpecPredicate, SpecValue, Value,
    is_whnf, lemma_value_valid_mono, pattern_exprs_view, preds_view, value_valid,
};

verus! {

/// The clauses collected so far for one global name.
#[derive(Debug)]
pub struct DefBuilder {
    pub name: Id,
    pub arity: usize,
    pub variant: DefBuilderVariant,
}

/// A zero-arity value body, or the ordered clause list of a function.
#[derive(Debug)]
pub enum DefBuilderVariant {
    Value(Value),
    Patterns(Vec<PatternExpr>),
}

/// The mathematical mirror of `DefBuilderVariant`.
#[verifier::ext_equal]
pub enum SpecDefVariant {
    Value(SpecValue),
    Patterns(Seq<SpecPatternExpr>),
}

/// The mathematical mirror of `DefBuilder`.
#[verifier::ext_equal]
pub struct SpecDefBuilder {
    pub name: SpecId,
    pub arity: usize,
    pub variant: SpecDefVariant,
}

impl View for DefBuilder {
    type V = SpecDefBuilder;

    open spec fn view(&self) -> SpecDefBuilder {
        SpecDefBuilder {
            name: self.name@,
            arity: self.arity,
            variant: match &self.variant {
                DefBuilderVariant::Value(v) => SpecDefVariant::Value(v@),
                DefBuilderVariant::Patterns(pes) => SpecDefVariant::Patterns(
                    pattern_exprs_view(pes@),
                ),
            },
        }
    }
}

/// The views of a builder list.
pub open spec fn builders_view(s: Seq<DefBuilder>) -> Seq<SpecDefBuilder>
    decreases s,
{
    if s.len() == 0 {
        Seq::empty()
    } else {
        seq![s[0]@] + builders_view(s.drop_first())
    }
}

/// The view of a builder list is the list of the views.
pub broadcast proof fn lemma_builders_view(s: Seq<DefBuilder>)
    ensures
        (#[trigger] builders_view(s)).len() == s.len(),
        forall|i: int| 0 <= i < s.len() ==> builders_view(s)[i] == s[i]@,
    decreases s,
{
    if s.len() > 0 {
        lemma_builders_view(s.drop_first());
    }
}

/// The index of the builder that owns `name`, if any.
pub open spec fn find_builder(bs: Seq<SpecDefBuilder>, name: Seq<char>) -> Option<int>
    decreases bs,
{
    if bs.len() == 0 {
        None
    } else if bs[0].name.name == name {
        Some(0)
    } else {
        match find_builder(bs.drop_first(), name) {
            Some(i) => Some(i + 1),
            None => None,
        }
    }
}

/// What `find_builder` finds: the first builder of the name, or the absence
/// of any.
pub proof fn lemma_find_builder(bs: Seq<SpecDefBuilder>, name: Seq<char>)
    ensures
        (match find_builder(bs, name) {
            None => forall|j: int| 0 <= j < bs.len() ==> (#[trigger] bs[j]).name.name != name,
            Some(i) => 0 <= i < bs.len() && bs[i].name.name == name && (forall|j: int|
                0 <= j < i ==> (#[trigger] bs[j]).name.name != name),
        }),
    decreases bs,
{
    if bs.len() > 0 && bs[0].name.name != name {
        lemma_find_builder(bs.drop_first(), name);
        assert forall|j: int| 1 <= j < bs.len() implies bs.drop_first()[j - 1] == bs[j] by {}
    }
}

/// The builder that one first clause of a name makes: a zero-arity clause
/// binds the body directly; an arity-N clause starts the clause list, each
/// clause a tuple pattern over its patterns.
pub open spec fn spec_new_builder(d: SpecDecl) -> SpecDefBuilder {
    SpecDefBuilder {
        name: d.name,
        arity: d.patterns.len() as usize,
        variant: if d.patterns.len() == 0 {
            SpecDefVariant::Value(d.body)
        } else {
            SpecDefVariant::Patterns(
                seq![
                    SpecPatternExpr {
                        predicate: SpecPredicate::Tuple(d.patterns),
                        expr: d.body,
                    },
                ],
            )
        },
    }
}

/// Whether every term a builder holds is a pure surface term: valid in the
/// empty environment and heap.
pub open spec fn builder_valid(b: SpecDefBuilder) -> bool {
    match b.variant {
        SpecDefVariant::Value(v) => value_valid(v, 0, 0),
        SpecDefVariant::Patterns(pes) => forall|i: int|
            0 <= i < pes.len() ==> value_valid(#[trigger] pes[i].expr, 0, 0),
    }
}

/// The first builder of `name`, by index.
#[verifier::loop_isolation(false)]
fn find_by_name(builders: &Vec<DefBuilder>, name: &String) -> (r: Option<usize>)
    ensures
        (match find_builder(builders_view(builders@), name@) {
            None => r is None,
            Some(i) => r matches Some(k) && k as int == i,
        }),
{
    proof {
        broadcast use lemma_builders_view;

        lemma_find_builder(builders_view(builders@), name@);
    }
    let ghost bv = builders_view(builders@);
    let mut k: usize = 0;
    while k < builders.len()
        invariant
            k <= builders@.len(),
            forall|j: int| 0 <= j < k ==> (#[trigger] bv[j]).name.name != name@,
        decreases builders@.len() - k,
    {
        if builders[k].name.token.text == *name {
            proof {
                assert(bv[k as int].name.name == name@);
            }
            return Some(k);
        }
        k = k + 1;
    }
    None
}

/// What merging one clause does to the builders, at the level of the
/// mathematical model: a new name starts a builder, a known name must agree
/// on arity and must not redeclare a zero-arity value, and an agreeing
/// clause is appended to the name's clause list. `None` is the invalid
/// declaration.
pub open spec fn spec_merge(bs: Seq<SpecDefBuilder>, d: SpecDecl) -> Option<Seq<SpecDefBuilder>> {
    match find_builder(bs, d.name.name) {
        None => Some(bs.push(spec_new_builder(d))),
        Some(i) => {
            if bs[i].arity != d.patterns.len() {
                None
            } else {
                match bs[i].variant {
                    SpecDefVariant::Value(_) => None,
                    SpecDefVariant::Patterns(pes) => Some(
                        bs.update(
                            i,
                            SpecDefBuilder {
                                name: bs[i].name,
                                arity: bs[i].arity,
                                variant: SpecDefVariant::Patterns(
                                    pes.push(
                                        SpecPatternExpr {
                                            predicate: SpecPredicate::Tuple(d.patterns),
                                            expr: d.body,
                                        },
                                    ),
                                ),
                            },
                        ),
                    ),
                }
            }
        },
    }
}

/// Merging a whole declaration list, in order; `None` as soon as any clause
/// is invalid.
pub open spec fn spec_merge_all(bs: Seq<SpecDefBuilder>, ds: Seq<SpecDecl>) -> Option<
    Seq<SpecDefBuilder>,
>
    decreases ds,
{
    if ds.len() == 0 {
        Some(bs)
    } else {
        match spec_merge(bs, ds[0]) {
            None => None,
            Some(bs2) => spec_merge_all(bs2, ds.drop_first()),
        }
    }
}

/// Merges one surface clause into the builders. A new name starts a new
/// builder; a clause for a known name must agree with it on arity, and a
/// second clause for a zero-arity name is a redefinition — both are invalid
/// declarations, reported before any reduction.
#[verifier::loop_isolation(false)]
pub fn merge_decl(builders: &mut Vec<DefBuilder>, decl: Decl) -> (r: Result<(), RuntimeError>)
    requires
        forall|j: int|
            0 <= j < old(builders)@.len() ==> builder_valid(
                #[trigger] builders_view(old(builders)@)[j],
            ),
        forall|j: int|
            0 <= j < old(builders)@.len() ==> ((#[trigger] builders_view(
                old(builders)@,
            )[j]).variant is Patterns ==> builders_view(old(builders)@)[j].arity > 0),
        value_valid(decl@.body, 0, 0),
    ensures
        forall|j: int|
            0 <= j < final(builders)@.len() ==> ((#[trigger] builders_view(
                final(builders)@,
            )[j]).variant is Patterns ==> builders_view(final(builders)@)[j].arity > 0),
        (match find_builder(builders_view(old(builders)@), decl@.name.name) {
            None => r is Ok && builders_view(final(builders)@) == builders_view(
                old(builders)@,
            ).push(spec_new_builder(decl@)),
            Some(i) => {
                if builders_view(old(builders)@)[i].arity != decl@.patterns.len() {
                    &&& r matches Err(e) && e is InvalidDecl
                    &&& builders_view(final(builders)@) == builders_view(old(builders)@)
                } else {
                    match builders_view(old(builders)@)[i].variant {
                        SpecDefVariant::Value(_) => {
                            &&& r matches Err(e) && e is InvalidDecl
                            &&& builders_view(final(builders)@) == builders_view(old(builders)@)
                        },
                        SpecDefVariant::Patterns(pes) => {
                            &&& r is Ok
                            &&& builders_view(final(builders)@) == builders_view(
                                old(builders)@,
                            ).update(
                                i,
                                SpecDefBuilder {
                                    name: builders_view(old(builders)@)[i].name,
                                    arity: builders_view(old(builders)@)[i].arity,
                                    variant: SpecDefVariant::Patterns(
                                        pes.push(
                                            SpecPatternExpr {
                                                predicate: SpecPredicate::Tuple(decl@.patterns),
                                                expr: decl@.body,
                                            },
                                        ),
                                    ),
                                },
                            )
                        },
                    }
                }
            },
        }),
        forall|j: int|
            0 <= j < final(builders)@.len() ==> builder_valid(
                #[trigger] builders_view(final(builders)@)[j],
            ),
        (match spec_merge(builders_view(old(builders)@), decl@) {
            None => r matches Err(e) && e is InvalidDecl && builders_view(final(builders)@)
                == builders_view(old(builders)@),
            Some(bs2) => r is Ok && builders_view(final(builders)@) == bs2,
        }),
{
    proof {
        broadcast use lemma_builders_view, crate::value::lemma_preds_view,
            crate::value::lemma_pattern_exprs_view;

        lemma_find_builder(builders_view(builders@), decl@.name.name);
    }
    let ghost bv0 = builders_view(builders@);
    let Decl { name, patterns, body } = decl;
    let found = find_by_name(builders, &name.token.text);
    match found {
        None => {
            proof {
                assert(find_builder(bv0, name@.name) is None);
            }
            let arity = patterns.len();
            let variant = if arity == 0 {
                DefBuilderVariant::Value(body)
            } else {
                let mut pes: Vec<PatternExpr> = Vec::new();
                pes.push(PatternExpr { predicate: Predicate::Tuple(patterns), expr: body });
                DefBuilderVariant::Patterns(pes)
            };
            builders.push(DefBuilder { name, arity, variant });
            proof {
                assert(builders_view(builders@) =~= bv0.push(builders@.last()@));
                assert(builders@.last()@ =~~= spec_new_builder(decl@));
                assert(builders_view(builders@) =~~= bv0.push(spec_new_builder(decl@)));
                assert forall|j: int| 0 <= j < builders@.len() implies builder_valid(
                    #[trigger] builders_view(builders@)[j],
                ) by {
                    if j < bv0.len() {
                        assert(builders_view(builders@)[j] == bv0[j]);
                    } else {
                        assert(builders_view(builders@)[j] == spec_new_builder(decl@));
                    }
                }
                assert forall|j: int| 0 <= j < builders@.len() implies ((#[trigger] builders_view(
                    builders@,
                )[j]).variant is Patterns ==> builders_view(builders@)[j].arity > 0) by {
                    if j < bv0.len() {
                        assert(builders_view(builders@)[j] == bv0[j]);
                    } else {
                        assert(builders_view(builders@)[j] == builders@.last()@);
                    }
                }
            }
            Ok(())
        },
        Some(i) => {
            proof {
                assert(find_builder(bv0, name@.name) == Some(i as int));
            }
            if builders[i].arity != patterns.len() {
                return Err(
                    RuntimeError::InvalidDecl(
                        String::from_str(
                            "a clause does not agree with an earlier clause of the same name on its number of patterns",
                        ),
                    ),
                );
            }
            let slot = &mut builders[i];
            match &mut slot.variant {
                DefBuilderVariant::Value(_) => {
                    Err(
                        RuntimeError::InvalidDecl(
                            String::from_str("a zero-arity name is declared more than once"),
                        ),
                    )
                },
                DefBuilderVariant::Patterns(pes) => {
                    let ghost pes0 = pattern_exprs_view(pes@);
                    pes.push(
                        PatternExpr { predicate: Predicate::Tuple(patterns), expr: body },
                    );
                    proof {
                        assert(pattern_exprs_view(pes@) =~~= pes0.push(
                            SpecPatternExpr {
                                predicate: SpecPredicate::Tuple(decl@.patterns),
                                expr: decl@.body,
                            },
                        ));
                        assert forall|j: int| 0 <= j < builders@.len() implies ((
                        #[trigger] builders_view(builders@)[j]).variant is Patterns
                            ==> builders_view(builders@)[j].arity > 0) by {
                            if j != i {
                                assert(builders_view(builders@)[j] == bv0[j]);
                            } else {
                                assert(builders_view(builders@)[j].arity == bv0[j].arity);
                            }
                        }
                        assert forall|j: int| 0 <= j < builders@.len() implies builder_valid(
                            #[trigger] builders_view(builders@)[j],
                        ) by {
                            if j != i {
                                assert(builders_view(builders@)[j] == bv0[j]);
                            } else {
                                assert(builder_valid(bv0[j]));
                                match builders_view(builders@)[j].variant {
                                    SpecDefVariant::Patterns(pp) => {
                                        assert forall|q: int| 0 <= q < pp.len() implies value_valid(
                                            #[trigger] pp[q].expr,
                                            0,
                                            0,
                                        ) by {
                                            if q < pp.len() - 1 {
                                                assert(pp[q] == pes0[q]);
                                            } else {
                                                assert(pp[q].expr == decl@.body);
                                            }
                                        }
                                    },
                                    _ => {},
                                }
                            }
                        }
                    }
                    Ok(())
                },
            }
        },
    }
}


/// Identifier references for a parameter list, in order.
pub open spec fn ids_as_values(params: Seq<SpecId>) -> Seq<SpecValue> {
    Seq::new(params.len(), |i: int| SpecValue::Id(params[i]))
}

/// A curried lambda chain over `params` ending in `inner`.
pub open spec fn lambda_chain(params: Seq<SpecId>, inner: SpecValue) -> SpecValue
    decreases params.len(),
{
    if params.len() == 0 {
        inner
    } else {
        SpecValue::Lambda { param: params[0], body: Box::new(lambda_chain(params.drop_first(), inner)) }
    }
}

/// The synthesized body of a multi-clause function: the parameter tuple
/// matched against the clauses in source order.
pub open spec fn synthesized_match(params: Seq<SpecId>, arms: Seq<SpecPatternExpr>) -> SpecValue {
    SpecValue::Match {
        subject: Box::new(SpecValue::TupleCtor { dims: ids_as_values(params) }),
        pattern_exprs: arms,
    }
}

/// The whole synthesized global function: a closure over the empty scope,
/// currying the parameters one by one into the clause match.
pub open spec fn synthesized_function(params: Seq<SpecId>, arms: Seq<SpecPatternExpr>) -> SpecValue
    recommends
        params.len() > 0,
{
    SpecValue::Closure {
        param: params[0],
        body: Box::new(lambda_chain(params.drop_first(), synthesized_match(params, arms))),
        scope: Scope { head: None },
    }
}

/// The fresh parameter names drawn from `c` on: two underscores and the
/// counter value, each at the declaring name's position.
pub open spec fn gensym_ids(c: u64, n: int, loc: Location) -> Seq<SpecId> {
    Seq::new(
        n as nat,
        |i: int| SpecId { name: seq!['_', '_'] + crate::id::decimal((c + i) as nat), location: loc },
    )
}

/// A lambda chain over valid pieces is valid.
proof fn lemma_lambda_chain_valid(params: Seq<SpecId>, inner: SpecValue, nf: int, nt: int)
    requires
        value_valid(inner, nf, nt),
    ensures
        value_valid(lambda_chain(params, inner), nf, nt),
    decreases params.len(),
{
    if params.len() > 0 {
        lemma_lambda_chain_valid(params.drop_first(), inner, nf, nt);
    }
}

/// Builds the single global value of one name: a thunked body for a
/// zero-arity name, or the synthesized curried function over fresh
/// parameters for a clause list. `counter` advances by one per parameter.
#[verifier::loop_isolation(false)]
pub fn build_symbol(heap: &mut Heap, counter: &mut u64, builder: DefBuilder) -> (r: (Id, Value))
    requires
        builder_valid(builder@),
        *old(counter) + builder.arity <= u64::MAX,
        (builder@.variant is Patterns ==> builder.arity > 0),
    ensures
        r.0@ == builder@.name,
        value_valid(r.1@, 0, final(heap)@.len() as int),
        crate::heap::heap_le(old(heap)@, final(heap)@),
        (match builder@.variant {
            SpecDefVariant::Value(body) => {
                &&& final(heap)@ == old(heap)@.push(
                    SpecThunk::Unforced { scope: Scope { head: None }, expr: body },
                )
                &&& r.1@ == SpecValue::Thunk(old(heap)@.len() as usize)
                &&& *final(counter) == *old(counter)
            },
            SpecDefVariant::Patterns(arms) => {
                &&& final(heap)@ == old(heap)@
                &&& *final(counter) == *old(counter) + builder.arity
                &&& r.1@ == synthesized_function(
                    gensym_ids(*old(counter), builder.arity as int, builder@.name.location),
                    arms,
                )
                &&& is_whnf(r.1@)
            },
        }),
{
    let ghost c0 = *counter;
    let DefBuilder { name, arity, variant } = builder;
    match variant {
        DefBuilderVariant::Value(body) => {
            // A singleton: thunk the body; the runtime supplies the globals
            // through the empty local scope.
            let t = heap.suspend(Scope::empty(), body);
            (name, Value::Thunk(t))
        },
        DefBuilderVariant::Patterns(pes) => {
            let ghost pesv = pattern_exprs_view(pes@);
            let ghost pv = gensym_ids(c0, arity as int, name@.location);
            proof {
                assert(builder@.variant->Patterns_0 == pesv);
            }
            let loc = name.location();
            let mut params: Vec<Id> = Vec::new();
            let mut i: usize = 0;
            while i < arity
                invariant
                    i <= arity,
                    params@.len() == i,
                    *counter == c0 + i,
                    c0 + arity <= u64::MAX,
                    forall|k: int| 0 <= k < i ==> (#[trigger] params@[k])@ == pv[k],
                decreases arity - i,
            {
                let id = gensym(*counter, loc);
                *counter = *counter + 1;
                params.push(id);
                proof {
                    assert(params@.last()@ =~~= pv[i as int]);
                }
                i = i + 1;
            }
            // The subject of the clause match: the tuple of the parameters.
            let mut dims: Vec<Value> = Vec::new();
            let mut j: usize = 0;
            while j < arity
                invariant
                    j <= arity,
                    dims@.len() == j,
                    params@.len() == arity,
                    forall|k: int| 0 <= k < arity ==> (#[trigger] params@[k])@ == pv[k],
                    forall|k: int| 0 <= k < j ==> (#[trigger] dims@[k])@ == SpecValue::Id(pv[k]),
                decreases arity - j,
            {
                dims.push(Value::Id(params[j].clone()));
                j = j + 1;
            }
            let ghost dimsv = crate::value::values_view(dims@);
            proof {
                broadcast use crate::value::lemma_values_view;

                assert(dimsv =~= ids_as_values(pv));
            }
            let subject_val = Value::TupleCtor { dims };
            let ghost sv2 = subject_val@;
            proof {
                assert(sv2 == (SpecValue::TupleCtor { dims: dimsv }));
            }
            let inner = Value::Match { subject: Box::new(subject_val), pattern_exprs: pes };
            proof {
                assert(inner@ == (SpecValue::Match {
                    subject: Box::new(sv2),
                    pattern_exprs: pesv,
                }));
                assert(inner@ == synthesized_match(pv, pesv));
            }
            let ghost smatch = synthesized_match(pv, pesv);
            let mut body = inner;
            let mut k: usize = arity;
            while k > 1
                invariant
                    1 <= k <= arity,
                    params@.len() == arity,
                    forall|q: int| 0 <= q < arity ==> (#[trigger] params@[q])@ == pv[q],
                    body@ == lambda_chain(pv.subrange(k as int, arity as int), smatch),
                decreases k,
            {
                k = k - 1;
                let p = params[k].clone();
                body = Value::Lambda { param: p, body: Box::new(body) };
                proof {
                    let sub = pv.subrange(k as int, arity as int);
                    assert(sub[0] == pv[k as int]);
                    assert(sub.drop_first() =~= pv.subrange(k + 1, arity as int));
                    assert(body@ =~~= lambda_chain(sub, smatch));
                }
            }
            let closure = Value::Closure {
                param: params[0].clone(),
                body: Box::new(body),
                scope: Scope::empty(),
            };
            proof {
                assert(pv.drop_first() =~= pv.subrange(1, arity as int));
                assert(closure@ == synthesized_function(pv, pesv));
                // The synthesized value is a pure surface term.
                assert(value_valid(smatch, 0, final(heap)@.len() as int)) by {
                    assert(forall|q: int|
                        0 <= q < ids_as_values(pv).len() ==> value_valid(
                            #[trigger] ids_as_values(pv)[q],
                            0,
                            final(heap)@.len() as int,
                        ));
                    assert forall|q: int| 0 <= q < pesv.len() implies value_valid(
                        #[trigger] pesv[q].expr,
                        0,
                        final(heap)@.len() as int,
                    ) by {
                        lemma_value_valid_mono(pesv[q].expr, 0, 0, 0, final(heap)@.len() as int);
                    }
                    assert(value_valid(
                        SpecValue::TupleCtor { dims: ids_as_values(pv) },
                        0,
                        final(heap)@.len() as int,
                    ));
                }
                lemma_lambda_chain_valid(
                    pv.drop_first(),
                    smatch,
                    0,
                    final(heap)@.len() as int,
                );
            }
            (name, closure)
        },
    }
}

/// The total parameter count of the builders: how far the fresh-name
/// counter must be able to advance.
pub open spec fn total_arity(bs: Seq<SpecDefBuilder>) -> int
    decreases bs,
{
    if bs.len() == 0 {
        0
    } else {
        bs[0].arity + total_arity(bs.drop_first())
    }
}

/// What building one global value does, at the level of the mathematical
/// model: a zero-arity body is suspended as a fresh cell, a clause list
/// becomes the synthesized curried function over fresh names drawn from the
/// counter.
pub open spec fn spec_build_value(c: u64, h: Seq<SpecThunk>, b: SpecDefBuilder) -> (
    SpecValue,
    Seq<SpecThunk>,
    u64,
) {
    match b.variant {
        SpecDefVariant::Value(body) => (
            SpecValue::Thunk(h.len() as usize),
            h.push(SpecThunk::Unforced { scope: Scope { head: None }, expr: body }),
            c,
        ),
        SpecDefVariant::Patterns(arms) => (
            synthesized_function(gensym_ids(c, b.arity as int, b.name.location), arms),
            h,
            (c + b.arity) as u64,
        ),
    }
}

/// Building the whole global table, in order, threading the heap and the
/// fresh-name counter; `None` exactly when the counter cannot cover a
/// builder's parameters.
pub open spec fn spec_build_env(bs: Seq<SpecDefBuilder>, c: u64, h: Seq<SpecThunk>) -> Option<
    (Seq<SpecBinding>, Seq<SpecThunk>, u64),
>
    decreases bs,
{
    if bs.len() == 0 {
        Some((Seq::empty(), h, c))
    } else if u64::MAX - c < bs[0].arity {
        None
    } else {
        let (v, h2, c2) = spec_build_value(c, h, bs[0]);
        match spec_build_env(bs.drop_first(), c2, h2) {
            None => None,
            Some((gs, hf, cf)) => Some(
                (seq![SpecBinding { name: bs[0].name.name, value: v }] + gs, hf, cf),
            ),
        }
    }
}

/// The builtin table's one binding: strict integer addition under `+`.
pub open spec fn plus_binding() -> SpecBinding {
    SpecBinding {
        name: "+"@,
        value: SpecValue::Builtin { op: BuiltinOp::Add, args: Seq::empty() },
    }
}

/// Builds the global environment: the builtin table, then one binding per
/// builder. The only failure is the machine limit on fresh names.
#[verifier::loop_isolation(false)]
pub fn build_env(heap: &mut Heap, counter: &mut u64, builders: Vec<DefBuilder>) -> (r: Result<
    Env,
    RuntimeError,
>)
    requires
        forall|j: int|
            0 <= j < builders@.len() ==> builder_valid(#[trigger] builders_view(builders@)[j])
                && (builders_view(builders@)[j].variant is Patterns
                ==> builders_view(builders@)[j].arity > 0),
        crate::heap::heap_wf(old(heap)@, 0),
    ensures
        crate::heap::heap_le(old(heap)@, final(heap)@),
        crate::heap::heap_wf(final(heap)@, 0),
        (r matches Ok(env) ==> {
            &&& env@.frames.len() == 0
            &&& env@.globals.len() == 1 + builders@.len()
            &&& env@.globals[0].name == "+"@
            &&& forall|i: int|
                0 <= i < builders@.len() ==> (#[trigger] env@.globals[1 + i]).name
                    == builders_view(builders@)[i].name.name
            &&& env_wf(env@, final(heap)@.len() as int)
        }),
        r matches Err(e) ==> e is InvalidDecl,
        (match spec_build_env(builders_view(builders@), *old(counter), old(heap)@) {
            None => r is Err,
            Some((gs, hf, cf)) => {
                &&& r matches Ok(env)
                &&& env@.frames == Seq::<SpecFrame>::empty()
                &&& env@.globals == seq![plus_binding()] + gs
                &&& final(heap)@ == hf
                &&& *final(counter) == cf
            },
        }),
{
    proof {
        broadcast use lemma_builders_view;

    }
    let ghost bv = builders_view(builders@);
    let ghost c0 = *old(counter);
    let ghost h0 = old(heap)@;
    let mut env = Env::with_builtins();
    let mut rest = builders;
    let n0 = rest.len();
    proof {
        crate::heap::lemma_heap_le_refl(old(heap)@);
        assert(env@.globals[0] =~~= plus_binding());
        assert(env@.frames =~= Seq::<SpecFrame>::empty());
    }
    let mut done: usize = 0;
    while rest.len() > 0
        invariant
            bv.len() == n0,
            done + rest@.len() == bv.len(),
            forall|k: int| 0 <= k < rest@.len() ==> (#[trigger] rest@[k])@ == bv[done + k],
            env@.frames.len() == 0,
            env@.frames == Seq::<SpecFrame>::empty(),
            env@.globals.len() == 1 + done,
            env@.globals[0] == plus_binding(),
            env@.globals[0].name == "+"@,
            forall|i: int|
                0 <= i < done ==> (#[trigger] env@.globals[1 + i]).name == bv[i].name.name,
            env_wf(env@, heap@.len() as int),
            crate::heap::heap_le(old(heap)@, heap@),
            crate::heap::heap_wf(heap@, 0),
            (match spec_build_env(builders_view(rest@), *counter, heap@) {
                None => spec_build_env(bv, c0, h0) is None,
                Some(t) => spec_build_env(bv, c0, h0) == Some(
                    (env@.globals.skip(1) + t.0, t.1, t.2),
                ),
            }),
        decreases rest@.len(),
    {
        proof {
            broadcast use lemma_builders_view;

        }
        let ghost hmid = heap@;
        let ghost cmid = *counter;
        let ghost rv_prev = builders_view(rest@);
        let b = rest.remove(0);
        proof {
            assert(b@ == bv[done as int]);
            assert(rv_prev[0] == bv[done as int]);
            assert forall|k: int| 0 <= k < rest@.len() implies (#[trigger] rest@[k])@ == bv[done + 1
                + k] by {}
            assert(builders_view(rest@) =~= rv_prev.drop_first());
        }
        let arity = b.arity;
        if u64::MAX - *counter < arity as u64 {
            proof {
                assert(spec_build_env(rv_prev, cmid, hmid) is None);
                assert(spec_build_env(bv, c0, h0) is None);
            }
            return Err(
                RuntimeError::InvalidDecl(
                    String::from_str("too many parameters across the declarations"),
                ),
            );
        }
        let ghost envmid = env@;
        let (name, value) = build_symbol(heap, counter, b);
        proof {
            // The heap grew by at most the one suspended body.
            assert(crate::heap::heap_wf(heap@, 0)) by {
                match bv[done as int].variant {
                    SpecDefVariant::Value(body) => {
                        lemma_value_valid_mono(body, 0, 0, 0, hmid.len() as int);
                        crate::exec::lemma_heap_wf_push(hmid, 0, Scope { head: None }, body);
                    },
                    SpecDefVariant::Patterns(_) => {},
                }
            }
            crate::heap::lemma_heap_le_trans(old(heap)@, hmid, heap@);
        }
        env.add_symbol_mut(name, value);
        proof {
            let bind = SpecBinding { name: bv[done as int].name.name, value: value@ };
            assert(env@.globals =~= envmid.globals.push(bind));
            crate::exec::lemma_env_wf_grow(envmid, hmid.len() as int, heap@.len() as int);
            assert forall|i: int| 0 <= i < env@.globals.len() implies value_valid(
                (#[trigger] env@.globals[i]).value,
                0,
                heap@.len() as int,
            ) by {
                if i < envmid.globals.len() {
                    assert(env@.globals[i] == envmid.globals[i]);
                }
            }
            // One model step of the table construction.
            assert(!(u64::MAX - cmid < rv_prev[0].arity));
            assert(spec_build_value(cmid, hmid, bv[done as int]) =~~= (value@, heap@, *counter));
            if spec_build_env(builders_view(rest@), *counter, heap@) is Some {
                let t = spec_build_env(builders_view(rest@), *counter, heap@).unwrap();
                assert(spec_build_env(rv_prev, cmid, hmid) == Some(
                    (seq![bind] + t.0, t.1, t.2),
                ));
                assert(envmid.globals.skip(1) + (seq![bind] + t.0) =~= env@.globals.skip(1)
                    + t.0);
            } else {
                assert(spec_build_env(rv_prev, cmid, hmid) is None);
            }
        }
        done = done + 1;
    }
    proof {
        assert(builders_view(rest@) =~= Seq::<SpecDefBuilder>::empty());
        assert(spec_build_env(builders_view(rest@), *counter, heap@) == Some(
            (Seq::<SpecBinding>::empty(), heap@, *counter),
        ));
        assert(env@.globals.skip(1) + Seq::<SpecBinding>::empty() =~= env@.globals.skip(1));
        assert(env@.globals =~= seq![plus_binding()] + env@.globals.skip(1));
    }
    Ok(env)
}

/// The views of a declaration list.
pub open spec fn decls_view(s: Seq<Decl>) -> Seq<SpecDecl>
    decreases s,
{
    if s.len() == 0 {
        Seq::empty()
    } else {
        seq![s[0]@] + decls_view(s.drop_first())
    }
}

/// The view of a declaration list is the list of the views.
pub broadcast proof fn lemma_decls_view(s: Seq<Decl>)
    ensures
        (#[trigger] decls_view(s)).len() == s.len(),
        forall|i: int| 0 <= i < s.len() ==> decls_view(s)[i] == s[i]@,
    decreases s,
{
    if s.len() > 0 {
        lemma_decls_view(s.drop_first());
    }
}

/// What linking does, at the level of the mathematical model: the clauses
/// merged in order, the global table built over them, and the machine
/// readied to reduce a reference to the global name `main` in the empty
/// local scope. `None` is the invalid declaration, reported before any
/// reduction.
pub open spec fn spec_boot(decls: Seq<SpecDecl>) -> Option<SpecMachine> {
    match spec_merge_all(Seq::empty(), decls) {
        None => None,
        Some(bs) => match spec_build_env(bs, 0, Seq::empty()) {
            None => None,
            Some((gs, hf, cf)) => Some(
                SpecMachine {
                    env: SpecEnv { globals: seq![plus_binding()] + gs, frames: Seq::empty() },
                    heap: hf,
                    stack: Seq::empty(),
                    state: SpecStep::Walk {
                        scope: Scope { head: None },
                        expr: SpecValue::Id(
                            SpecId { name: "main"@, location: Location { line: 0, col: 0 } },
                        ),
                    },
                },
            ),
        },
    }
}

/// Links a program and readies the machine: the clauses are merged into
/// global bindings — an arity disagreement is fatal here, before any
/// reduction — and the register is set to reduce a reference to the global
/// name `main` in the empty local scope.
#[verifier::loop_isolation(false)]
pub fn boot(decls: Vec<Decl>) -> (r: Result<Machine, RuntimeError>)
    requires
        forall|i: int|
            0 <= i < decls@.len() ==> value_valid((#[trigger] decls_view(decls@)[i]).body, 0, 0),
    ensures
        (r matches Ok(machine) ==> {
            &&& machine_wf(machine@)
            &&& machine@.stack.len() == 0
            &&& machine@.state matches SpecStep::Walk { scope, expr } && scope.head is None && expr
                == SpecValue::Id(SpecId { name: "main"@, location: Location { line: 0, col: 0 } })
        }),
        r matches Err(e) ==> e is InvalidDecl,
        (match spec_boot(decls_view(decls@)) {
            None => r is Err,
            Some(m0) => r matches Ok(machine) && machine@ == m0,
        }),
{
    proof {
        broadcast use lemma_decls_view, lemma_builders_view;

    }
    let mut builders: Vec<DefBuilder> = Vec::new();
    let mut rest = decls;
    let ghost dv = decls_view(rest@);
    proof {
        assert(builders_view(builders@) =~= Seq::<SpecDefBuilder>::empty());
    }
    while rest.len() > 0
        invariant
            forall|i: int|
                0 <= i < rest@.len() ==> value_valid((#[trigger] decls_view(rest@)[i]).body, 0, 0),
            forall|j: int|
                0 <= j < builders@.len() ==> builder_valid(#[trigger] builders_view(builders@)[j]),
            forall|j: int|
                0 <= j < builders@.len() ==> (builders_view(builders@)[j].variant is Patterns
                    ==> builders_view(builders@)[j].arity > 0),
            spec_merge_all(builders_view(builders@), decls_view(rest@)) == spec_merge_all(
                Seq::empty(),
                dv,
            ),
        decreases rest@.len(),
    {
        proof {
            broadcast use lemma_decls_view, lemma_builders_view;

        }
        let ghost rv = rest@;
        let d = rest.remove(0);
        proof {
            assert(d@ == decls_view(rv)[0]);
            assert forall|i: int| 0 <= i < rest@.len() implies value_valid(
                (#[trigger] decls_view(rest@)[i]).body,
                0,
                0,
            ) by {
                assert(rest@[i] == rv[i + 1]);
                assert(decls_view(rest@)[i] == decls_view(rv)[i + 1]);
            }
            lemma_find_builder(builders_view(builders@), d@.name.name);
        }
        let ghost bv_before = builders_view(builders@);
        let ghost rv_next = decls_view(rest@);
        match merge_decl(&mut builders, d) {
            Ok(()) => {
                proof {
                    assert(decls_view(rv) =~= seq![decls_view(rv)[0]] + rv_next);
                    assert(decls_view(rv).drop_first() =~= rv_next);
                    assert(spec_merge(bv_before, decls_view(rv)[0]) == Some(
                        builders_view(builders@),
                    ));
                }
            },
            Err(e) => {
                proof {
                    assert(decls_view(rv).drop_first() =~= rv_next);
                    assert(spec_merge(bv_before, decls_view(rv)[0]) is None);
                    assert(spec_merge_all(Seq::empty(), dv) is None);
                }
                return Err(e);
            },
        }
    }
    proof {
        assert(decls_view(rest@) =~= Seq::<SpecDecl>::empty());
        assert(spec_merge_all(Seq::empty(), dv) == Some(builders_view(builders@)));
    }
    let mut heap = Heap::new();
    let mut counter: u64 = 0;
    proof {
        assert(crate::heap::heap_wf(heap@, 0));
        assert(heap@ =~= Seq::<SpecThunk>::empty());
    }
    let ghost bv_linked = builders_view(builders@);
    let env = match build_env(&mut heap, &mut counter, builders) {
        Ok(env) => env,
        Err(e) => {
            proof {
                assert(spec_build_env(bv_linked, 0, Seq::empty()) is None);
                assert(spec_boot(dv) is None);
            }
            return Err(e);
        },
    };
    let main_id = Id {
        token: Token { text: String::from_str("main"), location: Location::unknown() },
    };
    let machine = Machine {
        env,
        heap,
        stack: Vec::new(),
        state: Step::Walk { scope: Scope::empty(), expr: Value::Id(main_id) },
    };
    proof {
        broadcast use crate::exec::lemma_stack_view;

        assert(crate::exec::stack_view(machine.stack@) =~= Seq::<crate::exec::SpecChoice>::empty());
        assert(machine_wf(machine@));
        assert(spec_boot(dv) matches Some(m0) && machine@ =~~= m0);
    }
    Ok(machine)
}

/// Links and evaluates a program: the global `main` is reduced to weak head
/// normal form within `fuel` trampoline transitions. `Ok(None)` reports an
/// exhausted budget; a program lacking `main` fails with an unresolved
/// symbol, as any unbound name does.
pub fn run(decls: Vec<Decl>, fuel: u64) -> (r: Result<Option<Value>, RuntimeError>)
    requires
        forall|i: int|
            0 <= i < decls@.len() ==> value_valid((#[trigger] decls_view(decls@)[i]).body, 0, 0),
    ensures
        r matches Ok(Some(v)) ==> crate::value::is_whnf(v@),
        (match spec_boot(decls_view(decls@)) {
            None => r matches Err(e) && e is InvalidDecl,
            Some(m0) => match crate::exec::spec_run_fuel(m0, fuel as nat) {
                crate::exec::SpecRun::Done(v, mf) => r matches Ok(Some(rv)) && rv@ == v,
                crate::exec::SpecRun::OutOfFuel(mf) => r matches Ok(o) && o is None,
                crate::exec::SpecRun::Failed(k) => r matches Err(e) && crate::exec::error_matches(
                    e,
                    k,
                ),
            },
        }),
{
    let mut machine = match boot(decls) {
        Ok(machine) => machine,
        Err(e) => {
            return Err(e);
        },
    };
    crate::exec::eval_loop(&mut machine, fuel)
}

} // verus!
