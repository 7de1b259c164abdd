//! The pieces in isolation: identifiers, the environment, the heap, the
//! matcher, the builtin table and the linker.
use pita::{
    BuiltinOp, CtorIdImpl, Decl, DefBuilder, DefBuilderVariant, Env, Heap, Id, IdImpl,
    LiteralValue, Location, MatchOutcome, Obligation, Predicate, RuntimeError, Scope, Thunk,
    Token, Value, apply_builtin, build_symbol, gensym, match_obligations, merge_decl, parse_id,
};

fn ident(name: &str) -> Id {
    Id { token: Token { text: name.to_string(), location: Location::unknown() } }
}

fn token(text: &str) -> Token {
    Token { text: text.to_string(), location: Location::unknown() }
}

fn lit_int(x: i64) -> Value {
    Value::Literal(LiteralValue::Int(x))
}

#[test]
fn ordinary_identifiers_follow_the_rule() {
    assert!(parse_id::<IdImpl>(token("x")).is_ok());
    assert!(parse_id::<IdImpl>(token("+")).is_ok());
    assert!(parse_id::<IdImpl>(token("add2")).is_ok());
    assert!(parse_id::<IdImpl>(token("")).is_err());
    assert!(parse_id::<IdImpl>(token("let")).is_err());
    assert!(parse_id::<IdImpl>(token("then")).is_err());
    assert!(parse_id::<IdImpl>(token("2x")).is_err());
}

#[test]
fn constructor_identifiers_start_uppercase() {
    assert!(parse_id::<CtorIdImpl>(token("Cons")).is_ok());
    assert!(parse_id::<CtorIdImpl>(token("cons")).is_err());
    assert!(parse_id::<CtorIdImpl>(token("")).is_err());
}

#[test]
fn gensym_renders_the_counter_in_decimal() {
    assert_eq!(gensym(0, Location::unknown()).token.text, "__0");
    assert_eq!(gensym(7, Location::unknown()).token.text, "__7");
    assert_eq!(gensym(12345, Location::unknown()).token.text, "__12345");
}

#[test]
fn predicate_location_is_the_leftmost_sub_pattern() {
    let loc = Location { line: 3, col: 4 };
    let p = Predicate::Tuple(vec![
        Predicate::Int(1, loc),
        Predicate::Int(2, Location { line: 9, col: 9 }),
    ]);
    assert_eq!(p.location(), loc);
}

#[test]
fn weak_head_normal_forms_are_the_exposed_shapes() {
    assert!(lit_int(1).is_weak_head_normal_form());
    assert!(Value::Tuple { dims: vec![] }.is_weak_head_normal_form());
    assert!(Value::Ctor { name: ident("C"), dims: vec![] }.is_weak_head_normal_form());
    assert!(!Value::Id(ident("x")).is_weak_head_normal_form());
    assert!(!Value::Lambda { param: ident("x"), body: Box::new(lit_int(1)) }
        .is_weak_head_normal_form());
    assert!(Value::Closure { param: ident("x"), body: Box::new(lit_int(1)), scope: Scope::empty() }
        .is_weak_head_normal_form());
}

#[test]
fn scope_extension_is_non_destructive() {
    let mut env = Env::new();
    let s0 = Scope::empty();
    let s1 = env.add_symbol(s0, ident("a"), lit_int(1));
    let s2 = env.add_symbol(s0, ident("a"), lit_int(2));
    assert_eq!(env.get_symbol(s1, "a"), Some(lit_int(1)));
    assert_eq!(env.get_symbol(s2, "a"), Some(lit_int(2)));
    assert_eq!(env.get_symbol(s0, "a"), None);
}

#[test]
fn lookup_is_local_then_global_and_late_globals_replace() {
    let mut env = Env::new();
    let s0 = Scope::empty();
    env.add_symbol_mut(ident("g"), lit_int(9));
    assert_eq!(env.get_symbol(s0, "g"), Some(lit_int(9)));
    let s1 = env.add_symbol(s0, ident("g"), lit_int(8));
    assert_eq!(env.get_symbol(s1, "g"), Some(lit_int(8)));
    env.add_symbol_mut(ident("g"), lit_int(7));
    assert_eq!(env.get_symbol(s0, "g"), Some(lit_int(7)));
    assert!(env.has_symbol(s0, "g"));
    assert!(!env.has_symbol(s0, "absent"));
}

#[test]
fn the_builtin_table_holds_strict_addition() {
    let env = Env::with_builtins();
    match env.get_symbol(Scope::empty(), "+") {
        Some(Value::Builtin { op: BuiltinOp::Add, args }) => assert!(args.is_empty()),
        other => panic!("expected the addition builtin, got {:?}", other),
    }
}

#[test]
fn thunk_cells_are_filled_exactly_once() {
    let mut heap = Heap::new();
    let t = heap.suspend(Scope::empty(), lit_int(5));
    assert_eq!(t, 0);
    assert_eq!(heap.read_forced(t), None);
    assert!(!heap.is_forcing(t));
    let (scope, expr) = heap.begin_force(t);
    assert_eq!(scope, Scope::empty());
    assert_eq!(expr, lit_int(5));
    assert!(heap.is_forcing(t));
    heap.finish_force(t, lit_int(5));
    assert_eq!(heap.read_forced(t), Some(lit_int(5)));
}

#[test]
fn arity_mismatch_is_a_shape_mismatch_with_no_bindings() {
    let mut env = Env::new();
    let heap = Heap::new();
    let pattern = Predicate::Tuple(vec![
        Predicate::Irrefutable(ident("a")),
        Predicate::Irrefutable(ident("b")),
    ]);
    let subject = Value::Tuple { dims: vec![lit_int(1), lit_int(2), lit_int(3)] };
    let mut pending = vec![Obligation { predicate: pattern, value: subject }];
    let outcome = match_obligations(&mut env, &heap, Scope::empty(), &mut pending);
    assert!(matches!(outcome, MatchOutcome::Failed { shape_mismatch: true }));
    assert_eq!(env.frames.len(), 0);
}

#[test]
fn matching_binds_fields_left_to_right() {
    let mut env = Env::new();
    let heap = Heap::new();
    let pattern = Predicate::Tuple(vec![
        Predicate::Irrefutable(ident("a")),
        Predicate::Irrefutable(ident("b")),
    ]);
    let subject = Value::Tuple { dims: vec![lit_int(1), lit_int(2)] };
    let mut pending = vec![Obligation { predicate: pattern, value: subject }];
    match match_obligations(&mut env, &heap, Scope::empty(), &mut pending) {
        MatchOutcome::Matched { scope } => {
            assert_eq!(env.get_symbol(scope, "a"), Some(lit_int(1)));
            assert_eq!(env.get_symbol(scope, "b"), Some(lit_int(2)));
        },
        other => panic!("expected a match, got {:?}", other),
    }
}

#[test]
fn unequal_integers_fail_without_shape_mismatch() {
    let mut env = Env::new();
    let heap = Heap::new();
    let mut pending = vec![Obligation {
        predicate: Predicate::Int(4, Location::unknown()),
        value: lit_int(5),
    }];
    let outcome = match_obligations(&mut env, &heap, Scope::empty(), &mut pending);
    assert!(matches!(outcome, MatchOutcome::Failed { shape_mismatch: false }));
}

#[test]
fn builtin_addition_is_exact_and_wrapping() {
    assert_eq!(apply_builtin(BuiltinOp::Add, vec![lit_int(2), lit_int(3)]), Ok(lit_int(5)));
    assert_eq!(apply_builtin(BuiltinOp::Add, vec![lit_int(i64::MAX), lit_int(1)]), Ok(lit_int(i64::MIN)));
    assert!(matches!(
        apply_builtin(BuiltinOp::Add, vec![lit_int(1), Value::Literal(LiteralValue::Null)]),
        Err(RuntimeError::InvalidCallsite(_))
    ));
}

#[test]
fn merging_clauses_checks_arity_and_appends_in_order() {
    let mut builders: Vec<DefBuilder> = Vec::new();
    let one = Decl {
        name: ident("f"),
        patterns: vec![Predicate::Int(0, Location::unknown())],
        body: lit_int(1),
    };
    let two = Decl {
        name: ident("f"),
        patterns: vec![Predicate::Irrefutable(ident("n"))],
        body: Value::Id(ident("n")),
    };
    assert!(merge_decl(&mut builders, one).is_ok());
    assert!(merge_decl(&mut builders, two).is_ok());
    assert_eq!(builders.len(), 1);
    match &builders[0].variant {
        DefBuilderVariant::Patterns(arms) => assert_eq!(arms.len(), 2),
        other => panic!("expected a clause list, got {:?}", other),
    }
    let clash = Decl { name: ident("f"), patterns: vec![], body: lit_int(9) };
    assert!(matches!(
        merge_decl(&mut builders, clash),
        Err(RuntimeError::InvalidDecl(_))
    ));
}

#[test]
fn built_functions_are_curried_closures_over_fresh_parameters() {
    let mut heap = Heap::new();
    let mut counter: u64 = 0;
    let arms = vec![pita::PatternExpr {
        predicate: Predicate::Tuple(vec![
            Predicate::Irrefutable(ident("a")),
            Predicate::Irrefutable(ident("b")),
        ]),
        expr: lit_int(1),
    }];
    let builder = DefBuilder {
        name: ident("f"),
        arity: 2,
        variant: DefBuilderVariant::Patterns(arms),
    };
    let (name, value) = build_symbol(&mut heap, &mut counter, builder);
    assert_eq!(name.token.text, "f");
    assert_eq!(counter, 2);
    match value {
        Value::Closure { param, body, scope } => {
            assert_eq!(param.token.text, "__0");
            assert_eq!(scope, Scope::empty());
            match *body {
                Value::Lambda { param: p2, body: inner } => {
                    assert_eq!(p2.token.text, "__1");
                    assert!(matches!(*inner, Value::Match { .. }));
                },
                other => panic!("expected the curried chain, got {:?}", other),
            }
        },
        other => panic!("expected a closure, got {:?}", other),
    }
}

#[test]
fn zero_arity_builders_are_thunked_bodies() {
    let mut heap = Heap::new();
    let mut counter: u64 = 0;
    let builder = DefBuilder {
        name: ident("v"),
        arity: 0,
        variant: DefBuilderVariant::Value(lit_int(3)),
    };
    let (name, value) = build_symbol(&mut heap, &mut counter, builder);
    assert_eq!(name.token.text, "v");
    assert_eq!(value, Value::Thunk(0));
    assert!(matches!(heap.thunks[0], Thunk::Unforced { .. }));
}

#[test]
fn errors_render_their_kind_and_detail() {
    let e = RuntimeError::NoMatch("no arm matched the subject".to_string());
    assert_eq!(e.message(), "pita runtime error: no match: no arm matched the subject");
    let u = RuntimeError::UnresolvedSymbol(ident("zig"));
    assert_eq!(u.message(), "pita runtime error: unresolved symbol: zig");
}

#[test]
fn rejected_identifiers_render_their_diagnostic() {
    let e = parse_id::<IdImpl>(token("let")).unwrap_err();
    assert_eq!(
        e.message(),
        "0:0: error: id must start with an alphabetic letter or valid punctuation: 'let'"
    );
}

#[test]
fn surface_terms_hold_no_runtime_references() {
    assert!(lit_int(1).is_surface_term());
    let lam = Value::Lambda { param: ident("x"), body: Box::new(Value::Id(ident("x"))) };
    assert!(lam.is_surface_term());
    assert!(!Value::Thunk(0).is_surface_term());
    let tup = Value::TupleCtor { dims: vec![lit_int(1), Value::Thunk(3)] };
    assert!(!tup.is_surface_term());
    let closed = Value::Closure {
        param: ident("x"),
        body: Box::new(lit_int(1)),
        scope: Scope { head: Some(4) },
    };
    assert!(!closed.is_surface_term());
}
