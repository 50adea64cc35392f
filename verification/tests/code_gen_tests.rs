use basic_compiler::code_gen::{generate, generate_would_trap, CodeGenError};
use basic_compiler::parser::{BinaryMathOp, CondNode, ExpNode, StatementNode, Term};
use basic_compiler::token::{TokenCompare, TokenMathOp};

fn var(s: &str) -> ExpNode {
    ExpNode::Term(Term::Var(s.to_string()))
}

fn konst(n: u8) -> ExpNode {
    ExpNode::Term(Term::Number(n))
}

fn program() -> Vec<StatementNode> {
    vec![
        StatementNode::Assign(
            10,
            "A".to_string(),
            ExpNode::BinaryMathOp(BinaryMathOp {
                op: TokenMathOp::Add,
                left: Box::new(konst(5)),
                right: Box::new(var("B")),
            }),
        ),
        StatementNode::If(20, CondNode { op: TokenCompare::LessThan, left: var("A"), right: konst(9) }, 10),
        StatementNode::Print(30, "A".to_string()),
        StatementNode::Goto(40, 10),
        StatementNode::Stop(50),
    ]
}

#[test]
fn generate_a_program() {
    assert_eq!(
        generate(program()).unwrap(),
        "10 10 11 1 17 4 12 5 17 1 11 2 10 20 13 11 1 17 3 12 9 14 10 10 30 15 A 10 40 14 10 10 50 16 0"
    );
}

#[test]
fn generate_empty_program() {
    assert_eq!(generate(vec![]).unwrap(), "0");
}

#[test]
fn generate_subtraction_and_equality() {
    let tree = vec![
        StatementNode::Assign(
            1,
            "Z".to_string(),
            ExpNode::BinaryMathOp(BinaryMathOp {
                op: TokenMathOp::Sub,
                left: Box::new(var("a")),
                right: Box::new(konst(255)),
            }),
        ),
        StatementNode::If(65535, CondNode { op: TokenCompare::Equal, left: konst(0), right: konst(1) }, 2),
    ];
    assert_eq!(
        generate(tree).unwrap(),
        "10 1 11 26 17 4 11 33 17 2 12 255 10 65535 13 12 0 17 4 12 1 14 2 0"
    );
}

#[test]
fn generate_in_two_parts_concatenates() {
    let all = generate(program()).unwrap();
    let mut first = program();
    let second = first.split_off(2);
    let a = generate(first).unwrap();
    let b = generate(second).unwrap();
    assert_eq!(format!("{} {}", a.strip_suffix(" 0").unwrap(), b), all);
}

#[test]
fn generate_rejects_long_identifier() {
    let tree = vec![StatementNode::Assign(10, "AB".to_string(), konst(1))];
    assert_eq!(generate(tree).unwrap_err(), CodeGenError::InvalidIdentifier("AB".to_string()));
}

#[test]
fn generate_rejects_multibyte_identifier() {
    let tree = vec![StatementNode::Assign(10, "\u{e9}".to_string(), konst(1))];
    assert_eq!(generate(tree).unwrap_err(), CodeGenError::InvalidIdentifier("\u{e9}".to_string()));
}

#[test]
fn generate_rejects_identifier_in_expression() {
    let tree = vec![
        StatementNode::Stop(1),
        StatementNode::Assign(10, "A".to_string(), var("XY")),
    ];
    assert_eq!(generate(tree).unwrap_err(), CodeGenError::InvalidIdentifier("XY".to_string()));
}

#[test]
fn generate_rejects_more_than() {
    let tree = vec![StatementNode::If(
        10,
        CondNode { op: TokenCompare::MoreThan, left: var("A"), right: konst(1) },
        20,
    )];
    assert_eq!(generate(tree).unwrap_err(), CodeGenError::InvalidOp(TokenCompare::MoreThan));
}

#[test]
fn print_is_not_checked() {
    let tree = vec![StatementNode::Print(7, "LONGNAME".to_string())];
    assert_eq!(generate(tree).unwrap(), "10 7 15 LONGNAME 0");
}

#[test]
fn trap_detection() {
    assert!(!generate_would_trap(&program()));
    let low = vec![StatementNode::Assign(10, "@".to_string(), konst(1))];
    assert!(generate_would_trap(&low));
    let digit = vec![StatementNode::Print(1, "0".to_string()), StatementNode::Assign(2, "A".to_string(), var("0"))];
    assert!(generate_would_trap(&digit));
    let error_first = vec![
        StatementNode::Assign(10, "AB".to_string(), konst(1)),
        StatementNode::Assign(10, "@".to_string(), konst(1)),
    ];
    assert!(!generate_would_trap(&error_first));
}
