//! Terms and runtime values. A single `Value` type carries both the surface
//! forms produced by a parser (identifier references, lambdas, lets, matches,
//! call sites, tuple constructions) and the weak-head-normal forms produced by
//! evaluation (literals, closures, tuple and constructor instances, partially
//! applied builtins, thunk references). Every place where a sub-term could be
//! evaluated eagerly instead becomes a thunk reference into the heap.
//!
//! Each executable type has a mathematical mirror (`SpecValue` and friends,
//! with `Seq` for `Vec` and `Seq<char>` for `String`) reached through `@`;
//! every contract of the library speaks of those mirrors.
use vstd::prelude::*;

use crate::id::{Id, SpecId};
use crate::location::Location;

verus! {

/// A literal: an integer, a string, or the unit value.
#[derive(Debug, PartialEq, Eq)]
pub enum LiteralValue {
    Int(i64),
    Str(String),
    Null,
}

/// The mathematical mirror of `LiteralValue`.
pub enum SpecLiteral {
    Int(i64),
    Str(Seq<char>),
    Null,
}

impl View for LiteralValue {
    type V = SpecLiteral;

    open spec fn view(&self) -> SpecLiteral {
        match *self {
            LiteralValue::Int(x) => SpecLiteral::Int(x),
            LiteralValue::Str(s) => SpecLiteral::Str(s@),
            LiteralValue::Null => SpecLiteral::Null,
        }
    }
}

impl Clone for LiteralValue {
    fn clone(&self) -> (r: Self)
        ensures
            r@ == self@,
    {
        match self {
            LiteralValue::Int(x) => LiteralValue::Int(*x),
            LiteralValue::Str(s) => LiteralValue::Str(s.clone()),
            LiteralValue::Null => LiteralValue::Null,
        }
    }
}

/// A pattern: matched structurally against a forced value.
#[derive(Debug, PartialEq, Eq)]
pub enum Predicate {
    /// Always matches and binds the name to the value without forcing it.
    Irrefutable(Id),
    /// Matches an integer literal of equal value.
    Int(i64, Location),
    /// Matches a tuple instance of equal arity, field by field.
    Tuple(Vec<Predicate>),
    /// Matches a constructor instance of equal name and arity, field by field.
    Ctor(Id, Vec<Predicate>),
}

/// The mathematical mirror of `Predicate`.
#[verifier::ext_equal]
pub enum SpecPredicate {
    Irrefutable(SpecId),
    Int(i64, Location),
    Tuple(Seq<SpecPredicate>),
    Ctor(SpecId, Seq<SpecPredicate>),
}

/// The view of a pattern.
pub open spec fn pred_view(p: Predicate) -> SpecPredicate
    decreases p,
{
    match p {
        Predicate::Irrefutable(id) => SpecPredicate::Irrefutable(id@),
        Predicate::Int(x, loc) => SpecPredicate::Int(x, loc),
        Predicate::Tuple(subs) => SpecPredicate::Tuple(preds_view(subs@)),
        Predicate::Ctor(id, subs) => SpecPredicate::Ctor(id@, preds_view(subs@)),
    }
}

/// The views of the patterns in a list.
pub open spec fn preds_view(s: Seq<Predicate>) -> Seq<SpecPredicate>
    decreases s,
{
    if s.len() == 0 {
        Seq::empty()
    } else {
        seq![pred_view(s[0])] + preds_view(s.drop_first())
    }
}

/// The view of a pattern list is the list of the views.
pub broadcast proof fn lemma_preds_view(s: Seq<Predicate>)
    ensures
        (#[trigger] preds_view(s)).len() == s.len(),
        forall|i: int| 0 <= i < s.len() ==> preds_view(s)[i] == pred_view(s[i]),
    decreases s,
{
    if s.len() > 0 {
        lemma_preds_view(s.drop_first());
    }
}

impl View for Predicate {
    type V = SpecPredicate;

    open spec fn view(&self) -> SpecPredicate {
        pred_view(*self)
    }
}

/// The size of a pattern: one for the node plus the sizes of its
/// sub-patterns. The measure that bounds the work of one match attempt.
pub open spec fn predicate_size(p: SpecPredicate) -> nat
    decreases p,
{
    match p {
        SpecPredicate::Irrefutable(_) => 1,
        SpecPredicate::Int(_, _) => 1,
        SpecPredicate::Tuple(subs) => 1 + predicate_list_size(subs),
        SpecPredicate::Ctor(_, subs) => 1 + predicate_list_size(subs),
    }
}

pub open spec fn predicate_list_size(s: Seq<SpecPredicate>) -> nat
    decreases s,
{
    if s.len() == 0 {
        0
    } else {
        predicate_size(s[0]) + predicate_list_size(s.drop_first())
    }
}

/// Every pattern in a list contributes its size to the list's size.
pub proof fn lemma_predicate_list_size_index(s: Seq<SpecPredicate>, i: int)
    requires
        0 <= i < s.len(),
    ensures
        predicate_size(s[i]) <= predicate_list_size(s),
    decreases s.len(),
{
    if i == 0 {
    } else {
        lemma_predicate_list_size_index(s.drop_first(), i - 1);
        assert(s.drop_first()[i - 1] == s[i]);
    }
}

/// The source position of a pattern: the position of its leftmost
/// sub-pattern, or of the constructor name when there is none, or the
/// unknown position for an empty tuple pattern.
pub open spec fn predicate_location(p: SpecPredicate) -> Location
    decreases p,
{
    match p {
        SpecPredicate::Irrefutable(id) => id.location,
        SpecPredicate::Int(_, loc) => loc,
        SpecPredicate::Tuple(subs) => if subs.len() > 0 {
            predicate_location(subs[0])
        } else {
            Location { line: 0, col: 0 }
        },
        SpecPredicate::Ctor(id, subs) => if subs.len() > 0 {
            predicate_location(subs[0])
        } else {
            id.location
        },
    }
}

impl Predicate {
    /// Where the pattern stood in the source.
    #[verifier::loop_isolation(false)]
    pub fn location(&self) -> (r: Location)
        ensures
            r == predicate_location(self@),
        decreases *self,
    {
        match self {
            Predicate::Irrefutable(id) => id.location(),
            Predicate::Int(_, loc) => *loc,
            Predicate::Tuple(subs) => {
                if subs.len() > 0 {
                    proof {
                        assert(decreases_to!(*self => subs@[0]));
                    }
                    subs[0].location()
                } else {
                    Location::unknown()
                }
            },
            Predicate::Ctor(id, subs) => {
                if subs.len() > 0 {
                    proof {
                        assert(decreases_to!(*self => subs@[0]));
                    }
                    subs[0].location()
                } else {
                    id.location()
                }
            },
        }
    }
}

impl Clone for Predicate {
    #[verifier::loop_isolation(false)]
    fn clone(&self) -> (r: Self)
        ensures
            r@ == self@,
        decreases *self,
    {
        proof {
            broadcast use lemma_preds_view;

        }
        let r = match self {
            Predicate::Irrefutable(id) => Predicate::Irrefutable(id.clone()),
            Predicate::Int(x, loc) => Predicate::Int(*x, *loc),
            Predicate::Tuple(subs) => Predicate::Tuple(clone_predicates(subs)),
            Predicate::Ctor(id, subs) => Predicate::Ctor(id.clone(), clone_predicates(subs)),
        };
        proof {
            assert(r@ =~~= self@);
        }
        r
    }
}

#[verifier::loop_isolation(false)]
fn clone_predicates(v: &Vec<Predicate>) -> (r: Vec<Predicate>)
    ensures
        preds_view(r@) == preds_view(v@),
        r@.len() == v@.len(),
    decreases *v,
{
    proof {
        broadcast use lemma_preds_view;

    }
    let mut r: Vec<Predicate> = Vec::new();
    let mut i: usize = 0;
    while i < v.len()
        invariant
            i <= v.len(),
            r@.len() == i,
            preds_view(r@) == preds_view(v@).subrange(0, i as int),
        decreases v.len() - i,
    {
        proof {
            assert(decreases_to!(*v => v@[i as int]));
        }
        r.push(v[i].clone());
        proof {
            assert(preds_view(r@) =~= preds_view(v@).subrange(0, i + 1));
        }
        i = i + 1;
    }
    proof {
        assert(preds_view(r@) =~= preds_view(v@));
    }
    r
}

/// A handle to a local scope: the index of the innermost frame of a chain in
/// the environment's frame arena, or nothing for the empty local scope.
#[derive(Debug, Clone, Copy, PartialEq, Eq)]
pub struct Scope {
    pub head: Option<usize>,
}

impl Scope {
    /// The empty local scope: name lookup falls through to the globals.
    pub fn empty() -> (r: Scope)
        ensures
            r.head is None,
    {
        Scope { head: None }
    }
}

/// Whether a scope handle points into an arena of `nf` frames.
pub open spec fn scope_valid(s: Scope, nf: int) -> bool {
    s.head matches Some(h) ==> h < nf
}

/// A native strict function, as a closed set of operation tags. Each is
/// applied once all of its arguments have been collected and forced.
#[derive(Debug, Clone, Copy, PartialEq, Eq, Structural)]
pub enum BuiltinOp {
    /// Strict integer addition of two arguments, wrapping on overflow.
    Add,
}

/// How many arguments a builtin consumes before its native function runs.
pub open spec fn builtin_arity(op: BuiltinOp) -> nat {
    match op {
        BuiltinOp::Add => 2,
    }
}

impl BuiltinOp {
    pub fn arity(&self) -> (n: usize)
        ensures
            n == builtin_arity(*self),
    {
        match self {
            BuiltinOp::Add => 2,
        }
    }
}

/// A term or runtime value of the language.
#[derive(Debug, PartialEq, Eq)]
pub enum Value {
    /// A literal; weak head normal form.
    Literal(LiteralValue),
    /// A reference to a name; reduced by lookup.
    Id(Id),
    /// A lambda term; reduction captures the scope in force, giving a closure.
    Lambda { param: Id, body: Box<Value> },
    /// A lambda together with the scope it was reduced in; weak head normal
    /// form. Application extends this captured scope, never the call site's.
    Closure { param: Id, body: Box<Value>, scope: Scope },
    /// A match term: a subject and ordered arms, each a pattern and a body.
    Match { subject: Box<Value>, pattern_exprs: Vec<PatternExpr> },
    /// An application of a function term to a single argument term; the
    /// argument is deferred as a thunk, never reduced at the call site.
    Callsite { function: Box<Value>, argument: Box<Value> },
    /// A tuple construction term; reduction thunks every field.
    TupleCtor { dims: Vec<Value> },
    /// A tuple instance whose fields are (usually) thunk references; weak
    /// head normal form.
    Tuple { dims: Vec<Value> },
    /// A constructor head with the lazy fields attached so far; weak head
    /// normal form. Application attaches one more field as a thunk.
    Ctor { name: Id, dims: Vec<Value> },
    /// A let term: the value is thunked in the current scope, the body is
    /// reduced in the extended scope.
    Let { name: Id, value: Box<Value>, body: Box<Value> },
    /// A reference to a thunk cell in the heap, shared by every alias of the
    /// same binding.
    Thunk(usize),
    /// A native function with the arguments collected so far; weak head
    /// normal form. Each argument is forced before it is collected.
    Builtin { op: BuiltinOp, args: Vec<Value> },
}

/// One arm of a match: a pattern and the body reduced on its success.
#[derive(Debug, PartialEq, Eq)]
pub struct PatternExpr {
    pub predicate: Predicate,
    pub expr: Value,
}

/// One surface declaration: a name, the patterns of its clause, and a body.
#[derive(Debug, PartialEq, Eq)]
pub struct Decl {
    pub name: Id,
    pub patterns: Vec<Predicate>,
    pub body: Value,
}

/// The mathematical mirror of `Value`.
#[verifier::ext_equal]
pub enum SpecValue {
    Literal(SpecLiteral),
    Id(SpecId),
    Lambda { param: SpecId, body: Box<SpecValue> },
    Closure { param: SpecId, body: Box<SpecValue>, scope: Scope },
    Match { subject: Box<SpecValue>, pattern_exprs: Seq<SpecPatternExpr> },
    Callsite { function: Box<SpecValue>, argument: Box<SpecValue> },
    TupleCtor { dims: Seq<SpecValue> },
    Tuple { dims: Seq<SpecValue> },
    Ctor { name: SpecId, dims: Seq<SpecValue> },
    Let { name: SpecId, value: Box<SpecValue>, body: Box<SpecValue> },
    Thunk(usize),
    Builtin { op: BuiltinOp, args: Seq<SpecValue> },
}

/// The mathematical mirror of `PatternExpr`.
#[verifier::ext_equal]
pub struct SpecPatternExpr {
    pub predicate: SpecPredicate,
    pub expr: SpecValue,
}

/// The mathematical mirror of `Decl`.
#[verifier::ext_equal]
pub struct SpecDecl {
    pub name: SpecId,
    pub patterns: Seq<SpecPredicate>,
    pub body: SpecValue,
}

/// The view of a term or value.
pub open spec fn value_view(v: Value) -> SpecValue
    decreases v,
{
    match v {
        Value::Literal(l) => SpecValue::Literal(l@),
        Value::Id(id) => SpecValue::Id(id@),
        Value::Lambda { param, body } => SpecValue::Lambda {
            param: param@,
            body: Box::new(value_view(*body)),
        },
        Value::Closure { param, body, scope } => SpecValue::Closure {
            param: param@,
            body: Box::new(value_view(*body)),
            scope,
        },
        Value::Match { subject, pattern_exprs } => SpecValue::Match {
            subject: Box::new(value_view(*subject)),
            pattern_exprs: pattern_exprs_view(pattern_exprs@),
        },
        Value::Callsite { function, argument } => SpecValue::Callsite {
            function: Box::new(value_view(*function)),
            argument: Box::new(value_view(*argument)),
        },
        Value::TupleCtor { dims } => SpecValue::TupleCtor { dims: values_view(dims@) },
        Value::Tuple { dims } => SpecValue::Tuple { dims: values_view(dims@) },
        Value::Ctor { name, dims } => SpecValue::Ctor { name: name@, dims: values_view(dims@) },
        Value::Let { name, value, body } => SpecValue::Let {
            name: name@,
            value: Box::new(value_view(*value)),
            body: Box::new(value_view(*body)),
        },
        Value::Thunk(t) => SpecValue::Thunk(t),
        Value::Builtin { op, args } => SpecValue::Builtin { op, args: values_view(args@) },
    }
}

/// The views of the values in a list.
pub open spec fn values_view(s: Seq<Value>) -> Seq<SpecValue>
    decreases s,
{
    if s.len() == 0 {
        Seq::empty()
    } else {
        seq![value_view(s[0])] + values_view(s.drop_first())
    }
}

/// The views of the arms in a list.
pub open spec fn pattern_exprs_view(s: Seq<PatternExpr>) -> Seq<SpecPatternExpr>
    decreases s,
{
    if s.len() == 0 {
        Seq::empty()
    } else {
        seq![
            SpecPatternExpr {
                predicate: pred_view(s[0].predicate),
                expr: value_view(s[0].expr),
            },
        ] + pattern_exprs_view(s.drop_first())
    }
}

/// The view of a value list is the list of the views.
pub broadcast proof fn lemma_values_view(s: Seq<Value>)
    ensures
        (#[trigger] values_view(s)).len() == s.len(),
        forall|i: int| 0 <= i < s.len() ==> values_view(s)[i] == value_view(s[i]),
    decreases s,
{
    if s.len() > 0 {
        lemma_values_view(s.drop_first());
    }
}

/// The view of an arm list is the list of the views.
pub broadcast proof fn lemma_pattern_exprs_view(s: Seq<PatternExpr>)
    ensures
        (#[trigger] pattern_exprs_view(s)).len() == s.len(),
        forall|i: int|
            0 <= i < s.len() ==> pattern_exprs_view(s)[i] == (SpecPatternExpr {
                predicate: pred_view(s[i].predicate),
                expr: value_view(s[i].expr),
            }),
    decreases s,
{
    if s.len() > 0 {
        lemma_pattern_exprs_view(s.drop_first());
    }
}

impl View for Value {
    type V = SpecValue;

    open spec fn view(&self) -> SpecValue {
        value_view(*self)
    }
}

impl View for PatternExpr {
    type V = SpecPatternExpr;

    open spec fn view(&self) -> SpecPatternExpr {
        SpecPatternExpr { predicate: pred_view(self.predicate), expr: value_view(self.expr) }
    }
}

impl View for Decl {
    type V = SpecDecl;

    open spec fn view(&self) -> SpecDecl {
        SpecDecl {
            name: self.name@,
            patterns: preds_view(self.patterns@),
            body: value_view(self.body),
        }
    }
}

impl Value {
    /// A builtin operation with no arguments collected yet.
    pub fn builtin(op: BuiltinOp) -> (r: Value)
        ensures
            r@ == (SpecValue::Builtin { op, args: Seq::<SpecValue>::empty() }),
    {
        let args: Vec<Value> = Vec::new();
        let r = Value::Builtin { op, args };
        proof {
            assert(values_view(args@) =~= Seq::<SpecValue>::empty());
            assert(r@ =~= (SpecValue::Builtin { op, args: Seq::<SpecValue>::empty() }));
        }
        r
    }
}

/// Whether a value is in weak head normal form: its outermost shape is
/// exposed and needs no further reduction. Fields inside aggregates may
/// still be thunks.
pub open spec fn is_whnf(v: SpecValue) -> bool {
    match v {
        SpecValue::Literal(_) => true,
        SpecValue::Closure { .. } => true,
        SpecValue::Tuple { .. } => true,
        SpecValue::Ctor { .. } => true,
        SpecValue::Builtin { .. } => true,
        _ => false,
    }
}

impl Value {
    /// Whether this value is in weak head normal form. A lambda term is not:
    /// reduction must first capture the scope in force, producing a closure.
    pub fn is_weak_head_normal_form(&self) -> (r: bool)
        ensures
            r == is_whnf(self@),
    {
        match self {
            Value::Literal(_) => true,
            Value::Closure { .. } => true,
            Value::Tuple { .. } => true,
            Value::Ctor { .. } => true,
            Value::Builtin { .. } => true,
            _ => false,
        }
    }
}

/// Whether every scope handle and thunk reference inside `v` points into an
/// environment of `nf` frames and a heap of `nt` thunks.
pub open spec fn value_valid(v: SpecValue, nf: int, nt: int) -> bool
    decreases v,
{
    match v {
        SpecValue::Literal(_) => true,
        SpecValue::Id(_) => true,
        SpecValue::Lambda { param, body } => value_valid(*body, nf, nt),
        SpecValue::Closure { param, body, scope } => scope_valid(scope, nf) && value_valid(
            *body,
            nf,
            nt,
        ),
        SpecValue::Match { subject, pattern_exprs } => value_valid(*subject, nf, nt) && (forall|
            i: int,
        |
            0 <= i < pattern_exprs.len() ==> value_valid(#[trigger] pattern_exprs[i].expr, nf, nt)),
        SpecValue::Callsite { function, argument } => value_valid(*function, nf, nt) && value_valid(
            *argument,
            nf,
            nt,
        ),
        SpecValue::TupleCtor { dims } => forall|i: int|
            0 <= i < dims.len() ==> value_valid(#[trigger] dims[i], nf, nt),
        SpecValue::Tuple { dims } => forall|i: int|
            0 <= i < dims.len() ==> value_valid(#[trigger] dims[i], nf, nt),
        SpecValue::Ctor { name, dims } => forall|i: int|
            0 <= i < dims.len() ==> value_valid(#[trigger] dims[i], nf, nt),
        SpecValue::Let { name, value, body } => value_valid(*value, nf, nt) && value_valid(
            *body,
            nf,
            nt,
        ),
        SpecValue::Thunk(t) => t < nt,
        SpecValue::Builtin { op, args } => forall|i: int|
            0 <= i < args.len() ==> value_valid(#[trigger] args[i], nf, nt),
    }
}

/// The collected arguments of a valid builtin value are valid.
pub proof fn lemma_builtin_args_valid(v: SpecValue, nf: int, nt: int)
    requires
        value_valid(v, nf, nt),
        v is Builtin,
    ensures
        forall|i: int|
            0 <= i < v->Builtin_args.len() ==> value_valid(#[trigger] v->Builtin_args[i], nf, nt),
{
}

/// Validity is preserved when the environment and the heap only grow.
pub proof fn lemma_value_valid_mono(v: SpecValue, nf1: int, nt1: int, nf2: int, nt2: int)
    requires
        value_valid(v, nf1, nt1),
        nf1 <= nf2,
        nt1 <= nt2,
    ensures
        value_valid(v, nf2, nt2),
    decreases v,
{
    match v {
        SpecValue::Lambda { param, body } => lemma_value_valid_mono(*body, nf1, nt1, nf2, nt2),
        SpecValue::Closure { param, body, scope } => lemma_value_valid_mono(
            *body,
            nf1,
            nt1,
            nf2,
            nt2,
        ),
        SpecValue::Match { subject, pattern_exprs } => {
            lemma_value_valid_mono(*subject, nf1, nt1, nf2, nt2);
            assert forall|i: int| 0 <= i < pattern_exprs.len() implies value_valid(
                #[trigger] pattern_exprs[i].expr,
                nf2,
                nt2,
            ) by {
                lemma_value_valid_mono(pattern_exprs[i].expr, nf1, nt1, nf2, nt2);
            }
        },
        SpecValue::Callsite { function, argument } => {
            lemma_value_valid_mono(*function, nf1, nt1, nf2, nt2);
            lemma_value_valid_mono(*argument, nf1, nt1, nf2, nt2);
        },
        SpecValue::TupleCtor { dims } => {
            assert forall|i: int| 0 <= i < dims.len() implies value_valid(
                #[trigger] dims[i],
                nf2,
                nt2,
            ) by {
                lemma_value_valid_mono(dims[i], nf1, nt1, nf2, nt2);
            }
        },
        SpecValue::Tuple { dims } => {
            assert forall|i: int| 0 <= i < dims.len() implies value_valid(
                #[trigger] dims[i],
                nf2,
                nt2,
            ) by {
                lemma_value_valid_mono(dims[i], nf1, nt1, nf2, nt2);
            }
        },
        SpecValue::Ctor { name, dims } => {
            assert forall|i: int| 0 <= i < dims.len() implies value_valid(
                #[trigger] dims[i],
                nf2,
                nt2,
            ) by {
                lemma_value_valid_mono(dims[i], nf1, nt1, nf2, nt2);
            }
        },
        SpecValue::Let { name, value, body } => {
            lemma_value_valid_mono(*value, nf1, nt1, nf2, nt2);
            lemma_value_valid_mono(*body, nf1, nt1, nf2, nt2);
        },
        SpecValue::Builtin { op, args } => {
            assert forall|i: int| 0 <= i < args.len() implies value_valid(
                #[trigger] args[i],
                nf2,
                nt2,
            ) by {
                lemma_value_valid_mono(args[i], nf1, nt1, nf2, nt2);
            }
        },
        _ => {},
    }
}

impl Clone for Value {
    #[verifier::loop_isolation(false)]
    fn clone(&self) -> (r: Self)
        ensures
            r@ == self@,
        decreases *self,
    {
        proof {
            broadcast use lemma_preds_view, lemma_values_view, lemma_pattern_exprs_view;

        }
        let r = match self {
            Value::Literal(l) => Value::Literal(l.clone()),
            Value::Id(id) => Value::Id(id.clone()),
            Value::Lambda { param, body } => Value::Lambda {
                param: param.clone(),
                body: Box::new((**body).clone()),
            },
            Value::Closure { param, body, scope } => Value::Closure {
                param: param.clone(),
                body: Box::new((**body).clone()),
                scope: *scope,
            },
            Value::Match { subject, pattern_exprs } => Value::Match {
                subject: Box::new((**subject).clone()),
                pattern_exprs: clone_pattern_exprs(pattern_exprs),
            },
            Value::Callsite { function, argument } => Value::Callsite {
                function: Box::new((**function).clone()),
                argument: Box::new((**argument).clone()),
            },
            Value::TupleCtor { dims } => Value::TupleCtor { dims: clone_values(dims) },
            Value::Tuple { dims } => Value::Tuple { dims: clone_values(dims) },
            Value::Ctor { name, dims } => Value::Ctor {
                name: name.clone(),
                dims: clone_values(dims),
            },
            Value::Let { name, value, body } => Value::Let {
                name: name.clone(),
                value: Box::new((**value).clone()),
                body: Box::new((**body).clone()),
            },
            Value::Thunk(t) => Value::Thunk(*t),
            Value::Builtin { op, args } => Value::Builtin { op: *op, args: clone_values(args) },
        };
        proof {
            assert(r@ =~~= self@);
        }
        r
    }
}

#[verifier::loop_isolation(false)]
fn clone_values(v: &Vec<Value>) -> (r: Vec<Value>)
    ensures
        values_view(r@) == values_view(v@),
        r@.len() == v@.len(),
    decreases *v,
{
    proof {
        broadcast use lemma_values_view;

    }
    let mut r: Vec<Value> = Vec::new();
    let mut i: usize = 0;
    while i < v.len()
        invariant
            i <= v.len(),
            r@.len() == i,
            values_view(r@) == values_view(v@).subrange(0, i as int),
        decreases v.len() - i,
    {
        proof {
            assert(decreases_to!(*v => v@[i as int]));
        }
        r.push(v[i].clone());
        proof {
            assert(values_view(r@) =~= values_view(v@).subrange(0, i + 1));
        }
        i = i + 1;
    }
    proof {
        assert(values_view(r@) =~= values_view(v@));
    }
    r
}

#[verifier::loop_isolation(false)]
fn clone_pattern_exprs(v: &Vec<PatternExpr>) -> (r: Vec<PatternExpr>)
    ensures
        pattern_exprs_view(r@) == pattern_exprs_view(v@),
        r@.len() == v@.len(),
    decreases *v,
{
    proof {
        broadcast use lemma_pattern_exprs_view;

    }
    let mut r: Vec<PatternExpr> = Vec::new();
    let mut i: usize = 0;
    while i < v.len()
        invariant
            i <= v.len(),
            r@.len() == i,
            pattern_exprs_view(r@) == pattern_exprs_view(v@).subrange(0, i as int),
        decreases v.len() - i,
    {
        proof {
            assert(decreases_to!(*v => v@[i as int]));
        }
        r.push(v[i].clone());
        proof {
            assert(pattern_exprs_view(r@) =~= pattern_exprs_view(v@).subrange(0, i + 1));
        }
        i = i + 1;
    }
    proof {
        assert(pattern_exprs_view(r@) =~= pattern_exprs_view(v@));
    }
    r
}

impl Clone for PatternExpr {
    fn clone(&self) -> (r: Self)
        ensures
            r@ == self@,
        decreases *self,
    {
        let r = PatternExpr { predicate: self.predicate.clone(), expr: self.expr.clone() };
        proof {
            broadcast use lemma_preds_view, lemma_values_view;

        }
        proof {
            assert(r@ =~~= self@);
        }
        r
    }
}

impl Clone for Decl {
    fn clone(&self) -> (r: Self)
        ensures
            r@ == self@,
    {
        let r = Decl {
            name: self.name.clone(),
            patterns: clone_predicates(&self.patterns),
            body: self.body.clone(),
        };
        proof {
            broadcast use lemma_preds_view, lemma_values_view;

        }
        proof {
            assert(r@ =~~= self@);
        }
        r
    }
}


impl Value {
    /// Whether this is a pure surface term: no thunk reference and no
    /// closure handle, so it is meaningful in any machine — exactly what
    /// the linker's precondition asks of declaration bodies. A caller that
    /// did not build its terms in this process can test them here.
    #[verifier::loop_isolation(false)]
    pub fn is_surface_term(&self) -> (r: bool)
        ensures
            r == value_valid(self@, 0, 0),
        decreases *self,
    {
        match self {
            Value::Literal(_) => true,
            Value::Id(_) => true,
            Value::Lambda { param, body } => {
                let r = body.is_surface_term();
                proof {
                    assert(*self@->Lambda_body == (**body)@);
                }
                r
            },
            Value::Closure { param, body, scope } => {
                match scope.head {
                    None => {
                        let r = body.is_surface_term();
                        proof {
                            assert(*self@->Closure_body == (**body)@);
                        }
                        r
                    },
                    Some(_) => false,
                }
            },
            Value::Match { subject, pattern_exprs } => {
                if !subject.is_surface_term() {
                    proof {
                        assert(*self@->Match_subject == (**subject)@);
                    }
                    return false;
                }
                proof {
                    assert(*self@->Match_subject == (**subject)@);
                }
                let mut i: usize = 0;
                while i < pattern_exprs.len()
                    invariant
                        i <= pattern_exprs@.len(),
                        forall|k: int|
                            0 <= k < i ==> value_valid(
                                #[trigger] pattern_exprs_view(pattern_exprs@)[k].expr,
                                0,
                                0,
                            ),
                    decreases pattern_exprs@.len() - i,
                {
                    proof {
                        broadcast use lemma_pattern_exprs_view;

                        assert(decreases_to!(*self => pattern_exprs@[i as int]));
                        assert(decreases_to!(pattern_exprs@[i as int] => pattern_exprs@[
                            i as int
                        ].expr));
                    }
                    if !pattern_exprs[i].expr.is_surface_term() {
                        proof {
                            broadcast use lemma_pattern_exprs_view;

                            assert(!value_valid(
                                self@->Match_pattern_exprs[i as int].expr,
                                0,
                                0,
                            ));
                        }
                        return false;
                    }
                    i = i + 1;
                }
                proof {
                    broadcast use lemma_pattern_exprs_view;

                    assert(value_valid(self@, 0, 0));
                }
                true
            },
            Value::Callsite { function, argument } => {
                let r = function.is_surface_term() && argument.is_surface_term();
                proof {
                    assert(*self@->Callsite_function == (**function)@);
                    assert(*self@->Callsite_argument == (**argument)@);
                }
                r
            },
            Value::TupleCtor { dims } => {
                let r = values_are_surface_terms(dims);
                proof {
                    broadcast use lemma_values_view;

                    assert(self@ == (SpecValue::TupleCtor { dims: values_view(dims@) }));
                    if r {
                        assert(forall|q: int|
                            0 <= q < values_view(dims@).len() ==> value_valid(
                                #[trigger] values_view(dims@)[q],
                                0,
                                0,
                            ));
                        assert(value_valid(SpecValue::TupleCtor { dims: values_view(dims@) }, 0, 0));
                    } else {
                        let w = choose|q: int|
                            0 <= q < values_view(dims@).len() && !value_valid(
                                #[trigger] values_view(dims@)[q],
                                0,
                                0,
                            );
                        assert(!value_valid(values_view(dims@)[w], 0, 0));
                        assert(self@->TupleCtor_dims == values_view(dims@));
                        assert(!value_valid(self@->TupleCtor_dims[w], 0, 0));
                        assert(!value_valid(self@, 0, 0));
                    }
                }
                r
            },
            Value::Tuple { dims } => {
                let r = values_are_surface_terms(dims);
                proof {
                    broadcast use lemma_values_view;

                    assert(self@ == (SpecValue::Tuple { dims: values_view(dims@) }));
                    if r {
                        assert(forall|q: int|
                            0 <= q < values_view(dims@).len() ==> value_valid(
                                #[trigger] values_view(dims@)[q],
                                0,
                                0,
                            ));
                        assert(value_valid(SpecValue::Tuple { dims: values_view(dims@) }, 0, 0));
                    } else {
                        let w = choose|q: int|
                            0 <= q < values_view(dims@).len() && !value_valid(
                                #[trigger] values_view(dims@)[q],
                                0,
                                0,
                            );
                        assert(!value_valid(values_view(dims@)[w], 0, 0));
                        assert(self@->Tuple_dims == values_view(dims@));
                        assert(!value_valid(self@->Tuple_dims[w], 0, 0));
                        assert(!value_valid(self@, 0, 0));
                    }
                }
                r
            },
            Value::Ctor { name, dims } => {
                let r = values_are_surface_terms(dims);
                proof {
                    broadcast use lemma_values_view;

                    assert(self@ == (SpecValue::Ctor { name: name@, dims: values_view(dims@) }));
                    if r {
                        assert(forall|q: int|
                            0 <= q < values_view(dims@).len() ==> value_valid(
                                #[trigger] values_view(dims@)[q],
                                0,
                                0,
                            ));
                        assert(value_valid(SpecValue::Ctor { name: name@, dims: values_view(dims@) }, 0, 0));
                    } else {
                        let w = choose|q: int|
                            0 <= q < values_view(dims@).len() && !value_valid(
                                #[trigger] values_view(dims@)[q],
                                0,
                                0,
                            );
                        assert(!value_valid(values_view(dims@)[w], 0, 0));
                        assert(self@->Ctor_dims == values_view(dims@));
                        assert(!value_valid(self@->Ctor_dims[w], 0, 0));
                        assert(!value_valid(self@, 0, 0));
                    }
                }
                r
            },
            Value::Let { name, value, body } => {
                let r = value.is_surface_term() && body.is_surface_term();
                proof {
                    assert(*self@->Let_value == (**value)@);
                    assert(*self@->Let_body == (**body)@);
                }
                r
            },
            Value::Thunk(_) => false,
            Value::Builtin { op, args } => {
                let r = values_are_surface_terms(args);
                proof {
                    broadcast use lemma_values_view;

                    assert(self@ == (SpecValue::Builtin { op: *op, args: values_view(args@) }));
                    if r {
                        assert(forall|q: int|
                            0 <= q < values_view(args@).len() ==> value_valid(
                                #[trigger] values_view(args@)[q],
                                0,
                                0,
                            ));
                        assert(value_valid(SpecValue::Builtin { op: *op, args: values_view(args@) }, 0, 0));
                    } else {
                        let w = choose|q: int|
                            0 <= q < values_view(args@).len() && !value_valid(
                                #[trigger] values_view(args@)[q],
                                0,
                                0,
                            );
                        assert(!value_valid(values_view(args@)[w], 0, 0));
                        assert(self@->Builtin_args == values_view(args@));
                        assert(!value_valid(self@->Builtin_args[w], 0, 0));
                        assert(!value_valid(self@, 0, 0));
                    }
                }
                r
            },
        }
    }
}

/// Whether every value in the list is a pure surface term.
#[verifier::loop_isolation(false)]
fn values_are_surface_terms(v: &Vec<Value>) -> (r: bool)
    ensures
        r == (forall|i: int|
            0 <= i < values_view(v@).len() ==> value_valid(#[trigger] values_view(v@)[i], 0, 0)),
    decreases *v,
{
    proof {
        broadcast use lemma_values_view;

    }
    let mut i: usize = 0;
    while i < v.len()
        invariant
            i <= v@.len(),
            forall|k: int| 0 <= k < i ==> value_valid(#[trigger] values_view(v@)[k], 0, 0),
        decreases v@.len() - i,
    {
        proof {
            broadcast use lemma_values_view;

            assert(decreases_to!(*v => v@[i as int]));
        }
        if !v[i].is_surface_term() {
            proof {
                broadcast use lemma_values_view;

                assert(!value_valid(values_view(v@)[i as int], 0, 0));
            }
            return false;
        }
        i = i + 1;
    }
    true
}

} // verus!
