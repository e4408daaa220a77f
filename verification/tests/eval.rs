use lambda_stepper::ast::{term_eq, Abstraction, Application, LambdaTerm, Variable};
use lambda_stepper::eval::{eval_step, replace_bound, EvalContext, SymbolTable};

fn var(id: &str) -> LambdaTerm {
    LambdaTerm::Variable(Box::new(Variable { id: id.to_string() }))
}

fn app(t1: LambdaTerm, t2: LambdaTerm) -> LambdaTerm {
    LambdaTerm::Application(Box::new(Application { term1: t1, term2: t2 }))
}

fn ab(bound: &str, body: LambdaTerm) -> LambdaTerm {
    LambdaTerm::Abstraction(Box::new(Abstraction {
        bound: Variable { id: bound.to_string() },
        body,
    }))
}

fn v(id: &str) -> Variable {
    Variable { id: id.to_string() }
}

fn empty_context(should_expand: bool) -> EvalContext {
    EvalContext {
        should_expand,
        symbol_table: SymbolTable::new(),
    }
}

/// The symbol table of boolean combinators used by the expansion scenario.
fn prelude_context() -> EvalContext {
    let mut symbol_table = SymbolTable::new();
    symbol_table.insert(v("true"), ab("x", ab("y", var("x"))));
    symbol_table.insert(v("false"), ab("x", ab("y", var("y"))));
    symbol_table.insert(
        v("not"),
        ab("b", app(app(var("b"), var("false")), var("true"))),
    );
    symbol_table.insert(
        v("if"),
        ab("b", ab("t", ab("f", app(app(var("b"), var("t")), var("f"))))),
    );
    EvalContext {
        should_expand: true,
        symbol_table,
    }
}

#[test]
fn test_substitution_replaces_free_occurrences() {
    // x is not shadowed anywhere: every free x is replaced, other free
    // variables stay in place.
    let t = app(var("x"), app(var("y"), var("x")));
    let r = replace_bound(t, &v("x"), &var("z"));
    assert_eq!(r, app(var("z"), app(var("y"), var("z"))));
}

#[test]
fn test_substitution_fresh_copy() {
    let replacement = ab("w", var("w"));
    let r = replace_bound(var("x"), &v("x"), &replacement);
    // the replacement itself is untouched and the result equals it
    assert_eq!(r, replacement);
}

#[test]
fn test_substitution_shadowing_leaves_abstraction_unchanged() {
    let t = ab("x", app(var("x"), var("y")));
    let r = replace_bound(t, &v("x"), &app(var("a"), var("b")));
    assert_eq!(r, ab("x", app(var("x"), var("y"))));
}

#[test]
fn test_substitution_descends_into_other_abstractions() {
    let t = ab("y", var("x"));
    let r = replace_bound(t, &v("x"), &var("z"));
    assert_eq!(r, ab("y", var("z")));
}

#[test]
fn test_beta_reduction_scenario() {
    // (λx.λy.x) a b
    let ctx = empty_context(true);
    let t0 = app(app(ab("x", ab("y", var("x"))), var("a")), var("b"));
    let t1 = eval_step(t0, &ctx);
    assert_eq!(t1, app(ab("y", var("a")), var("b")));
    let t2 = eval_step(t1, &ctx);
    assert_eq!(t2, var("a"));
}

#[test]
fn test_expansion_scenario() {
    // not true, stepped to normal form under the boolean prelude
    let ctx = prelude_context();
    let t0 = app(var("not"), var("true"));
    let t1 = eval_step(t0, &ctx);
    assert_eq!(
        t1,
        app(
            ab("b", app(app(var("b"), var("false")), var("true"))),
            var("true")
        )
    );
    let t2 = eval_step(t1, &ctx);
    assert_eq!(t2, app(app(var("true"), var("false")), var("true")));
    let t3 = eval_step(t2, &ctx);
    assert_eq!(
        t3,
        app(app(ab("x", ab("y", var("x"))), var("false")), var("true"))
    );
    let t4 = eval_step(t3, &ctx);
    assert_eq!(t4, app(ab("y", var("false")), var("true")));
    let t5 = eval_step(t4, &ctx);
    assert_eq!(t5, var("false"));
    let t6 = eval_step(t5, &ctx);
    assert_eq!(t6, ab("x", ab("y", var("y"))));
    // λx.λy.y is a normal form: a further step changes nothing
    let t7 = eval_step(t6, &ctx);
    assert_eq!(t7, ab("x", ab("y", var("y"))));
}

#[test]
fn test_non_termination_boundary() {
    // (λx.x x) (λx.x x) steps to itself, forever
    let omega = || app(ab("x", app(var("x"), var("x"))), ab("x", app(var("x"), var("x"))));
    let ctx = empty_context(true);
    let mut t = omega();
    for _ in 0..3 {
        t = eval_step(t, &ctx);
        assert!(term_eq(&t, &omega()));
    }
}

#[test]
fn test_no_op_on_normal_form() {
    let ctx = prelude_context();
    // an abstraction whose body admits no step
    let t = ab("z", app(var("z"), var("z")));
    let r = eval_step(t, &ctx);
    assert_eq!(r, ab("z", app(var("z"), var("z"))));
    // a bare variable not in the symbol table
    let u = eval_step(var("z"), &ctx);
    assert_eq!(u, var("z"));
}

#[test]
fn test_variable_not_expanded_without_flag() {
    let mut ctx = prelude_context();
    ctx.should_expand = false;
    let t = eval_step(var("true"), &ctx);
    assert_eq!(t, var("true"));
}

#[test]
fn test_right_operand_steps_when_left_edge_is_stuck() {
    // f ((λx.x) y): the left edge bottoms out at the free variable f,
    // so the step happens in the right operand.
    let ctx = empty_context(true);
    let t0 = app(var("f"), app(ab("x", var("x")), var("y")));
    let t1 = eval_step(t0, &ctx);
    assert_eq!(t1, app(var("f"), var("y")));
}

#[test]
fn test_right_operand_of_outermost_application_steps() {
    // f x ((λy.y) z): the left edge bottoms out at the free variable f, so
    // the step happens in the right operand of the outermost application,
    // leaving the left side untouched.
    let ctx = empty_context(true);
    let t0 = app(
        app(var("f"), var("x")),
        app(ab("y", var("y")), var("z")),
    );
    let t1 = eval_step(t0, &ctx);
    assert_eq!(t1, app(app(var("f"), var("x")), var("z")));
}

#[test]
fn test_symbol_table_lookup() {
    let mut table = SymbolTable::new();
    table.insert(v("id"), ab("x", var("x")));
    assert!(table.get(&v("id")).is_some());
    assert!(table.get(&v("missing")).is_none());
    assert_eq!(*table.get(&v("id")).unwrap(), ab("x", var("x")));
}
