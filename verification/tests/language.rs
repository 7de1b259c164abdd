//! End-to-end programs through link and evaluation.
use pita::{
    BuiltinOp, Decl, Id, LiteralValue, Location, Predicate, RuntimeError, Token, Value, run,
};

fn ident(name: &str) -> Id {
    Id { token: Token { text: name.to_string(), location: Location::unknown() } }
}

fn var(name: &str) -> Value {
    Value::Id(ident(name))
}

fn lit_int(x: i64) -> Value {
    Value::Literal(LiteralValue::Int(x))
}

fn call(f: Value, a: Value) -> Value {
    Value::Callsite { function: Box::new(f), argument: Box::new(a) }
}

fn lam(p: &str, body: Value) -> Value {
    Value::Lambda { param: ident(p), body: Box::new(body) }
}

fn decl(name: &str, patterns: Vec<Predicate>, body: Value) -> Decl {
    Decl { name: ident(name), patterns, body }
}

fn plus(a: Value, b: Value) -> Value {
    call(call(var("+"), a), b)
}

const FUEL: u64 = 1_000_000;

#[test]
fn add_two_and_three_gives_five() {
    // add = a b -> a + b; main = add 2 3;
    let decls = vec![
        decl("add", vec![], lam("a", lam("b", plus(var("a"), var("b"))))),
        decl("main", vec![], call(call(var("add"), lit_int(2)), lit_int(3))),
    ];
    let result = run(decls, FUEL).unwrap().unwrap();
    assert_eq!(result, lit_int(5));
}

#[test]
fn missing_main_is_unresolved_symbol() {
    let result = run(vec![], FUEL);
    match result {
        Err(RuntimeError::UnresolvedSymbol(id)) => assert_eq!(id.token.text, "main"),
        other => panic!("expected an unresolved symbol, got {:?}", other),
    }
}

#[test]
fn multi_clause_takes_fallthrough_clause() {
    // f 0 = 1; f n = n; main = f 5;  ->  5
    let decls = vec![
        decl("f", vec![Predicate::Int(0, Location::unknown())], lit_int(1)),
        decl("f", vec![Predicate::Irrefutable(ident("n"))], var("n")),
        decl("main", vec![], call(var("f"), lit_int(5))),
    ];
    assert_eq!(run(decls, FUEL).unwrap().unwrap(), lit_int(5));
}

#[test]
fn multi_clause_takes_first_matching_clause() {
    // f 0 = 1; f n = n; main = f 0;  ->  1
    let decls = vec![
        decl("f", vec![Predicate::Int(0, Location::unknown())], lit_int(1)),
        decl("f", vec![Predicate::Irrefutable(ident("n"))], var("n")),
        decl("main", vec![], call(var("f"), lit_int(0))),
    ];
    assert_eq!(run(decls, FUEL).unwrap().unwrap(), lit_int(1));
}

#[test]
fn clause_arity_disagreement_is_invalid_decl() {
    let decls = vec![
        decl("f", vec![Predicate::Irrefutable(ident("x"))], var("x")),
        decl(
            "f",
            vec![Predicate::Irrefutable(ident("x")), Predicate::Irrefutable(ident("y"))],
            var("x"),
        ),
        decl("main", vec![], call(var("f"), lit_int(1))),
    ];
    assert!(matches!(run(decls, FUEL), Err(RuntimeError::InvalidDecl(_))));
}

#[test]
fn first_arm_wins_when_both_match() {
    // main = match 5 { x -> 1 | 5 -> 2 }  ->  1
    let arms = vec![
        pita::PatternExpr { predicate: Predicate::Irrefutable(ident("x")), expr: lit_int(1) },
        pita::PatternExpr { predicate: Predicate::Int(5, Location::unknown()), expr: lit_int(2) },
    ];
    let body = Value::Match { subject: Box::new(lit_int(5)), pattern_exprs: arms };
    let decls = vec![decl("main", vec![], body)];
    assert_eq!(run(decls, FUEL).unwrap().unwrap(), lit_int(1));
}

#[test]
fn arm_order_decides_between_matching_arms() {
    // main = match 5 { 5 -> 2 | x -> 1 }  ->  2
    let arms = vec![
        pita::PatternExpr { predicate: Predicate::Int(5, Location::unknown()), expr: lit_int(2) },
        pita::PatternExpr { predicate: Predicate::Irrefutable(ident("x")), expr: lit_int(1) },
    ];
    let body = Value::Match { subject: Box::new(lit_int(5)), pattern_exprs: arms };
    let decls = vec![decl("main", vec![], body)];
    assert_eq!(run(decls, FUEL).unwrap().unwrap(), lit_int(2));
}

#[test]
fn exhausted_arms_are_no_match() {
    let arms = vec![
        pita::PatternExpr { predicate: Predicate::Int(4, Location::unknown()), expr: lit_int(1) },
    ];
    let body = Value::Match { subject: Box::new(lit_int(5)), pattern_exprs: arms };
    let decls = vec![decl("main", vec![], body)];
    assert!(matches!(run(decls, FUEL), Err(RuntimeError::NoMatch(_))));
}

#[test]
fn tuple_arity_mismatch_is_match_type_error() {
    // f (a, b) = a; main = f (1, 2, 3);
    let pattern = Predicate::Tuple(vec![
        Predicate::Irrefutable(ident("a")),
        Predicate::Irrefutable(ident("b")),
    ]);
    let triple = Value::TupleCtor { dims: vec![lit_int(1), lit_int(2), lit_int(3)] };
    let decls = vec![
        decl("f", vec![pattern], var("a")),
        decl("main", vec![], call(var("f"), triple)),
    ];
    assert!(matches!(run(decls, FUEL), Err(RuntimeError::MatchTypeError(_))));
}

#[test]
fn constructor_patterns_match_by_name_and_fields() {
    // f (Cons h t) = h; f Nil = 0; main = f (Cons 7 Nil);
    let cons = Value::Ctor { name: ident("Cons"), dims: vec![] };
    let nil = Value::Ctor { name: ident("Nil"), dims: vec![] };
    let decls = vec![
        decl(
            "f",
            vec![Predicate::Ctor(
                ident("Cons"),
                vec![Predicate::Irrefutable(ident("h")), Predicate::Irrefutable(ident("t"))],
            )],
            var("h"),
        ),
        decl("f", vec![Predicate::Ctor(ident("Nil"), vec![])], lit_int(0)),
        decl("main", vec![], call(var("f"), call(call(cons, lit_int(7)), nil))),
    ];
    assert_eq!(run(decls, FUEL).unwrap().unwrap(), lit_int(7));
}

#[test]
fn let_is_lazy_an_unused_binding_never_runs() {
    // main = let x = nonexistent : 42  ->  42, the bound term is never forced
    let body = Value::Let {
        name: ident("x"),
        value: Box::new(var("nonexistent")),
        body: Box::new(lit_int(42)),
    };
    let decls = vec![decl("main", vec![], body)];
    assert_eq!(run(decls, FUEL).unwrap().unwrap(), lit_int(42));
}

#[test]
fn closures_use_lexical_scope() {
    // main = let a = 1 : let f = (x -> a) : let a2-shadow = 2 : f 0  ->  1
    let inner = call(var("f"), lit_int(0));
    let shadow = Value::Let { name: ident("a"), value: Box::new(lit_int(2)), body: Box::new(inner) };
    let bind_f = Value::Let {
        name: ident("f"),
        value: Box::new(lam("x", var("a"))),
        body: Box::new(shadow),
    };
    let outer = Value::Let { name: ident("a"), value: Box::new(lit_int(1)), body: Box::new(bind_f) };
    let decls = vec![decl("main", vec![], outer)];
    assert_eq!(run(decls, FUEL).unwrap().unwrap(), lit_int(1));
}

#[test]
fn applying_a_non_function_is_invalid_callsite() {
    let decls = vec![decl("main", vec![], call(lit_int(1), lit_int(2)))];
    assert!(matches!(run(decls, FUEL), Err(RuntimeError::InvalidCallsite(_))));
}

#[test]
fn builtin_add_rejects_non_integers() {
    let s = Value::Literal(LiteralValue::Str("x".to_string()));
    let decls = vec![decl("main", vec![], plus(lit_int(1), s))];
    assert!(matches!(run(decls, FUEL), Err(RuntimeError::InvalidCallsite(_))));
}

#[test]
fn self_referential_binding_is_reentrant_forcing() {
    // main = main;
    let decls = vec![decl("main", vec![], var("main"))];
    assert!(matches!(run(decls, FUEL), Err(RuntimeError::ReentrantForcing(_))));
}

#[test]
fn fuel_exhaustion_reports_no_result() {
    let decls = vec![decl("main", vec![], lit_int(1))];
    assert_eq!(run(decls, 0), Ok(None));
}

#[test]
fn reduction_is_deterministic() {
    let build = || {
        vec![
            decl("add", vec![], lam("a", lam("b", plus(var("a"), var("b"))))),
            decl("main", vec![], call(call(var("add"), lit_int(20)), lit_int(22))),
        ]
    };
    let first = run(build(), FUEL);
    let second = run(build(), FUEL);
    assert_eq!(first, second);
    assert_eq!(first.unwrap().unwrap(), lit_int(42));
}

#[test]
fn deep_curried_application_chain_runs_in_constant_native_stack() {
    // f = x -> x; main = f (f (f ... (f 0)));  100,000 nested applications
    let mut chain = lit_int(0);
    let mut k = 0;
    while k < 100_000 {
        chain = call(var("f"), chain);
        k += 1;
    }
    let decls = vec![decl("f", vec![], lam("x", var("x"))), decl("main", vec![], chain)];
    assert_eq!(run(decls, 20_000_000).unwrap().unwrap(), lit_int(0));
}

#[test]
fn constructor_application_accumulates_lazy_fields() {
    let cons = Value::Ctor { name: ident("Pair"), dims: vec![] };
    let decls = vec![decl("main", vec![], call(call(cons, lit_int(1)), lit_int(2)))];
    let result = run(decls, FUEL).unwrap().unwrap();
    match result {
        Value::Ctor { name, dims } => {
            assert_eq!(name.token.text, "Pair");
            assert_eq!(dims.len(), 2);
            assert!(matches!(dims[0], Value::Thunk(_)));
            assert!(matches!(dims[1], Value::Thunk(_)));
        },
        other => panic!("expected a constructor instance, got {:?}", other),
    }
}

#[test]
fn builtin_add_wraps_on_overflow() {
    let decls = vec![decl("main", vec![], plus(lit_int(i64::MAX), lit_int(1)))];
    assert_eq!(run(decls, FUEL).unwrap().unwrap(), lit_int(i64::MIN));
}

#[test]
fn builtin_op_is_reachable_through_globals() {
    let _ = BuiltinOp::Add;
    let decls = vec![decl("main", vec![], plus(lit_int(2), lit_int(2)))];
    assert_eq!(run(decls, FUEL).unwrap().unwrap(), lit_int(4));
}

#[test]
fn empty_tuple_pattern_matches_empty_tuple() {
    // f () = 7; main = f ();
    let decls = vec![
        decl("f", vec![Predicate::Tuple(vec![])], lit_int(7)),
        decl("main", vec![], call(var("f"), Value::TupleCtor { dims: vec![] })),
    ];
    assert_eq!(run(decls, FUEL).unwrap().unwrap(), lit_int(7));
}

#[test]
fn string_and_unit_literals_are_results() {
    let hello = Value::Literal(LiteralValue::Str("hello".to_string()));
    let decls = vec![decl("main", vec![], hello.clone())];
    assert_eq!(run(decls, FUEL).unwrap().unwrap(), hello);
    let unit = Value::Literal(LiteralValue::Null);
    let decls = vec![decl("main", vec![], unit.clone())];
    assert_eq!(run(decls, FUEL).unwrap().unwrap(), unit);
}
