use n2v::expr::{evaluate, free_vars, substitute, Env, EvalError, GenericWidth, Op, Terminal};
use n2v::parser::Identifier;

fn num(n: usize) -> GenericWidth {
    GenericWidth::Terminal(Terminal::Num(n))
}

fn var(name: &str) -> GenericWidth {
    GenericWidth::Terminal(Terminal::Var(Identifier::from(name)))
}

fn expr(op: Op, l: GenericWidth, r: GenericWidth) -> GenericWidth {
    GenericWidth::Expr(op, Box::new(l), Box::new(r))
}

fn env(bindings: &[(&str, usize)]) -> Env {
    let mut e = Env::new();
    for (name, value) in bindings {
        e.bind(name.to_string(), *value);
    }
    e
}

#[test]
fn evaluate_terminals_and_operators() {
    let e = env(&[("W", 16), ("i", 3)]);
    assert_eq!(evaluate(&num(7), &e), Ok(7));
    assert_eq!(evaluate(&var("W"), &e), Ok(16));
    assert_eq!(evaluate(&expr(Op::Add, var("W"), num(1)), &e), Ok(17));
    assert_eq!(evaluate(&expr(Op::Sub, var("W"), var("i")), &e), Ok(13));
    assert_eq!(evaluate(&expr(Op::Sub, var("i"), var("i")), &e), Ok(0));
}

#[test]
fn unbound_variable_is_reported_by_name() {
    let e = env(&[("W", 16)]);
    assert_eq!(evaluate(&var("N"), &e), Err(EvalError::UnboundGeneric("N".to_string())));
    // the left operand is looked at first
    assert_eq!(
        evaluate(&expr(Op::Add, var("A"), var("B")), &e),
        Err(EvalError::UnboundGeneric("A".to_string()))
    );
    assert_eq!(
        evaluate(&expr(Op::Add, var("W"), var("B")), &e),
        Err(EvalError::UnboundGeneric("B".to_string()))
    );
}

#[test]
fn arithmetic_errors() {
    let e = env(&[("W", 2)]);
    assert_eq!(evaluate(&expr(Op::Sub, var("W"), num(3)), &e), Err(EvalError::ArithmeticError));
    assert_eq!(
        evaluate(&expr(Op::Add, num(usize::MAX), var("W")), &e),
        Err(EvalError::ArithmeticError)
    );
    assert_eq!(evaluate(&expr(Op::Add, num(usize::MAX - 2), var("W")), &e), Ok(usize::MAX));
}

#[test]
fn inner_bindings_shadow_outer_ones() {
    let mut e = env(&[("i", 1), ("W", 8)]);
    e.bind("i".to_string(), 5);
    assert_eq!(e.lookup(&"i".to_string()), Some(5));
    assert_eq!(evaluate(&expr(Op::Add, var("i"), var("W")), &e), Ok(13));
    e.unbind();
    assert_eq!(e.lookup(&"i".to_string()), Some(1));
    e.unbind();
    e.unbind();
    assert_eq!(e.lookup(&"i".to_string()), None);
    e.unbind();
    assert!(e.bindings.is_empty());
    let copy = env(&[("a", 1)]).duplicate();
    assert_eq!(copy.lookup(&"a".to_string()), Some(1));
}

#[test]
fn substitute_replaces_bound_variables_only() {
    let e = env(&[("W", 16)]);
    assert_eq!(substitute(&var("W"), &e), num(16));
    assert_eq!(substitute(&var("N"), &e), var("N"));
    assert_eq!(
        substitute(&expr(Op::Sub, var("W"), var("N")), &e),
        expr(Op::Sub, num(16), var("N"))
    );
    // substitution keeps the value
    let w = expr(Op::Add, var("W"), num(4));
    assert_eq!(evaluate(&substitute(&w, &e), &Env::new()), evaluate(&w, &e));
}

#[test]
fn free_variables_are_listed_once() {
    assert!(free_vars(&num(3)).is_empty());
    assert_eq!(free_vars(&var("W")), vec!["W".to_string()]);
    assert_eq!(free_vars(&expr(Op::Add, var("W"), var("W"))), vec!["W".to_string()]);
    assert_eq!(
        free_vars(&expr(Op::Sub, var("b"), var("a"))),
        vec!["b".to_string(), "a".to_string()]
    );
    let closed = substitute(&expr(Op::Sub, var("b"), var("a")), &env(&[("a", 1), ("b", 2)]));
    assert!(free_vars(&closed).is_empty());
}
