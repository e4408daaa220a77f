use lambda_stepper::ast::{term_eq, Abstraction, Application, LambdaTerm, Variable};
use lambda_stepper::parser::parse;

fn var(id: &str) -> LambdaTerm {
    LambdaTerm::Variable(Box::new(Variable { id: id.to_string() }))
}

fn app(t1: LambdaTerm, t2: LambdaTerm) -> LambdaTerm {
    LambdaTerm::Application(Box::new(Application { term1: t1, term2: t2 }))
}

fn ab(bound: &str, body: LambdaTerm) -> LambdaTerm {
    LambdaTerm::Abstraction(Box::new(Abstraction {
        bound: Variable { id: bound.to_string() },
        body,
    }))
}

#[test]
fn test_render_variable() {
    assert_eq!(var("x").render(), "x");
}

#[test]
fn test_render_abstraction() {
    assert_eq!(ab("x", var("x")).render(), "λx.x");
    assert_eq!(ab("x", ab("y", var("x"))).render(), "λx.λy.x");
}

#[test]
fn test_render_application_plain() {
    assert_eq!(app(var("f"), var("x")).render(), "f x");
    assert_eq!(app(app(var("f"), var("x")), var("y")).render(), "f x y");
}

#[test]
fn test_render_application_wraps_left_abstraction() {
    assert_eq!(app(ab("x", var("x")), var("y")).render(), "(λx.x) y");
}

#[test]
fn test_render_application_wraps_right_application() {
    assert_eq!(app(var("f"), app(var("g"), var("x"))).render(), "f (g x)");
}

#[test]
fn test_render_application_wraps_both() {
    assert_eq!(
        app(ab("x", var("x")), app(var("g"), var("x"))).render(),
        "(λx.x) (g x)"
    );
}

#[test]
fn test_render_parse_round_trip() {
    let terms = vec![
        var("x"),
        ab("x", var("x")),
        app(var("f"), var("x")),
        app(app(var("f"), var("x")), var("y")),
        app(ab("x", var("x")), var("y")),
        app(var("f"), app(var("g"), var("x"))),
        app(ab("x", app(var("x"), var("x"))), ab("x", app(var("x"), var("x")))),
        ab("b", app(app(var("b"), var("false")), var("true"))),
        app(ab("x", ab("y", var("x"))), app(var("g"), ab("z", var("z")))),
    ];
    for t in terms {
        let text = t.render();
        let back = parse(&text).expect("rendered term should re-parse");
        assert!(term_eq(&back, &t), "round trip changed {}", text);
    }
}

#[test]
fn test_term_eq_structural() {
    assert!(term_eq(&var("x"), &var("x")));
    assert!(!term_eq(&var("x"), &var("y")));
    assert!(term_eq(
        &app(ab("x", var("x")), var("y")),
        &app(ab("x", var("x")), var("y"))
    ));
    // structural equality, not alpha-equivalence
    assert!(!term_eq(&ab("x", var("x")), &ab("y", var("y"))));
}
