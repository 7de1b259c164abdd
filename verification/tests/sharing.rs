//! Call-by-need sharing, observed through the thunk heap: a binding's
//! suspended computation runs at most once, and every alias of it reads the
//! same memoized value.
use pita::{
    Decl, Id, LiteralValue, Location, Scope, Step, Thunk, Token, Value, boot, eval_loop,
};

fn ident(name: &str) -> Id {
    Id { token: Token { text: name.to_string(), location: Location::unknown() } }
}

fn var(name: &str) -> Value {
    Value::Id(ident(name))
}

fn lit_int(x: i64) -> Value {
    Value::Literal(LiteralValue::Int(x))
}

fn call(f: Value, a: Value) -> Value {
    Value::Callsite { function: Box::new(f), argument: Box::new(a) }
}

#[test]
fn a_shared_binding_is_forced_once_and_memoized() {
    // main = let x = 1 + 2 : (x, x)
    let sum = call(call(var("+"), lit_int(1)), lit_int(2));
    let body = Value::Let {
        name: ident("x"),
        value: Box::new(sum),
        body: Box::new(Value::TupleCtor { dims: vec![var("x"), var("x")] }),
    };
    let decls = vec![Decl { name: ident("main"), patterns: vec![], body }];
    let mut machine = boot(decls).unwrap();
    let result = eval_loop(&mut machine, 1_000_000).unwrap().unwrap();

    // The tuple is in weak head normal form; its fields are still thunks,
    // and the binding of x — suspended as the second heap cell, after the
    // cell for main's own body — has not run yet.
    let dims = match result {
        Value::Tuple { dims } => dims,
        other => panic!("expected a tuple, got {:?}", other),
    };
    let f0 = match dims[0] {
        Value::Thunk(t) => t,
        ref other => panic!("expected a thunk field, got {:?}", other),
    };
    let f1 = match dims[1] {
        Value::Thunk(t) => t,
        ref other => panic!("expected a thunk field, got {:?}", other),
    };
    let x_cell = 1;
    assert!(matches!(machine.heap.thunks[x_cell], Thunk::Unforced { .. }));

    // Forcing the first field forces x exactly once: the memo cell fills.
    machine.state = Step::Walk { scope: Scope::empty(), expr: Value::Thunk(f0) };
    let v0 = eval_loop(&mut machine, 1_000_000).unwrap().unwrap();
    assert_eq!(v0, lit_int(3));
    match &machine.heap.thunks[x_cell] {
        Thunk::Forced(v) => assert_eq!(*v, lit_int(3)),
        other => panic!("expected a memoized cell, got {:?}", other),
    }

    // Forcing the second field reads the same memoized value; the cell
    // never changes again.
    machine.state = Step::Walk { scope: Scope::empty(), expr: Value::Thunk(f1) };
    let v1 = eval_loop(&mut machine, 1_000_000).unwrap().unwrap();
    assert_eq!(v1, lit_int(3));
    match &machine.heap.thunks[x_cell] {
        Thunk::Forced(v) => assert_eq!(*v, lit_int(3)),
        other => panic!("expected the memoized cell to stay, got {:?}", other),
    }
}
