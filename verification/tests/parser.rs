use lambda_stepper::ast::{Abstraction, Application, LambdaTerm, Variable};
use lambda_stepper::parser::{parse, parse_script, ParseError, Script};

fn var(id: &str) -> LambdaTerm {
    LambdaTerm::Variable(Box::new(Variable { id: id.to_string() }))
}

fn app(t1: LambdaTerm, t2: LambdaTerm) -> LambdaTerm {
    LambdaTerm::Application(Box::new(Application { term1: t1, term2: t2 }))
}

fn ab(bound: &str, body: LambdaTerm) -> LambdaTerm {
    LambdaTerm::Abstraction(Box::new(Abstraction {
        bound: Variable { id: bound.to_string() },
        body,
    }))
}

#[test]
fn test_parser_parses() {
    assert!(parse("not not true").is_ok())
}

#[test]
fn test_parser_application_left_assoc() {
    let term = parse("not not true").unwrap();
    assert_eq!(term, app(app(var("not"), var("not")), var("true")));
}

#[test]
fn test_parser_abstraction_greedy_body() {
    let term = parse("λx.x y").unwrap();
    assert_eq!(term, ab("x", app(var("x"), var("y"))));
}

#[test]
fn test_parser_parentheses() {
    let term = parse("(λx.x) y").unwrap();
    assert_eq!(term, app(ab("x", var("x")), var("y")));
}

#[test]
fn test_parser_remaining_input() {
    match parse("x)y") {
        Err(ParseError::RemainingInput(rem)) => assert_eq!(rem, ")y"),
        other => panic!("expected remaining input, got {:?}", other.is_ok()),
    }
}

#[test]
fn test_parser_invalid_input() {
    assert!(matches!(parse(""), Err(ParseError::InvalidInput)));
    assert!(matches!(parse("(x"), Err(ParseError::InvalidInput)));
    assert!(matches!(parse("λx"), Err(ParseError::InvalidInput)));
}

#[test]
fn test_parse_error_messages() {
    assert_eq!(
        ParseError::InvalidInput.message(),
        "The input was invalid!"
    );
    assert_eq!(
        ParseError::RemainingInput(")y".to_string()).message(),
        "Finished parsing, but experienced more input:\n```\n)y)\n```"
    );
}

#[test]
fn test_parse_script_library() {
    let script = parse_script("id = λx.x\nconst = λx.λy.x\n").unwrap();
    match script {
        Script::Library { declarations } => {
            let id = Variable { id: "id".to_string() };
            let got = declarations.get(&id).expect("id should be declared");
            assert_eq!(*got, ab("x", var("x")));
        }
        Script::Program { .. } => panic!("expected a library"),
    }
}

#[test]
fn test_parse_script_program() {
    let script = parse_script("id = λx.x\nid y\n").unwrap();
    match script {
        Script::Program { declarations, evaluation_term } => {
            let id = Variable { id: "id".to_string() };
            assert!(declarations.get(&id).is_some());
            assert_eq!(evaluation_term, app(var("id"), var("y")));
        }
        Script::Library { .. } => panic!("expected a program"),
    }
}

#[test]
fn test_parse_script_later_declaration_wins() {
    let script = parse_script("k = λx.x\nk = λy.y\n").unwrap();
    match script {
        Script::Library { declarations } => {
            let k = Variable { id: "k".to_string() };
            let got = declarations.get(&k).expect("k should be declared");
            assert_eq!(*got, ab("y", var("y")));
        }
        Script::Program { .. } => panic!("expected a library"),
    }
}

#[test]
fn test_parse_script_invalid() {
    assert!(matches!(
        parse_script("id = λx.x\n= y"),
        Err(ParseError::InvalidInput)
    ));
}
