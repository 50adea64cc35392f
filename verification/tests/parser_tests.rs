use basic_compiler::parser::{
    parse, parse_bool_exp, parse_exp, parse_iden, parse_number, parse_term, parse_would_hang,
    BinaryMathOp, CondNode, ExpNode, ExpectMismatch, ExpectedSymMismatch, ParseError,
    StatementNode, Term,
};
use basic_compiler::terminal::Terminal;
use basic_compiler::token::{Token, TokenCompare, TokenMathOp};

fn num(n: u16) -> Token {
    Token::Number(n)
}

fn iden(s: &str) -> Token {
    Token::Iden(s.to_string())
}

fn var(s: &str) -> ExpNode {
    ExpNode::Term(Term::Var(s.to_string()))
}

fn konst(n: u8) -> ExpNode {
    ExpNode::Term(Term::Number(n))
}

#[test]
fn parse_helpers_consume_only_what_they_take() {
    let toks = vec![iden("A"), num(300), num(7), Token::EndOfLine];
    let mut pos = 0;
    assert_eq!(parse_number(&toks, &mut pos), None);
    assert_eq!(pos, 0);
    assert_eq!(parse_iden(&toks, &mut pos), Some("A".to_string()));
    assert_eq!(pos, 1);
    assert_eq!(parse_iden(&toks, &mut pos), None);
    assert_eq!(pos, 1);
    assert_eq!(parse_term(&toks, &mut pos), None);
    assert_eq!(pos, 1);
    assert_eq!(parse_number(&toks, &mut pos), Some(300));
    assert_eq!(pos, 2);
    assert_eq!(parse_term(&toks, &mut pos), Some(Term::Number(7)));
    assert_eq!(pos, 3);
    assert_eq!(parse_term(&toks, &mut pos), None);
    assert_eq!(pos, 3);
}

#[test]
fn parse_exp_forms() {
    let toks = vec![num(5), Token::MathOp(TokenMathOp::Add), iden("B")];
    let mut pos = 0;
    assert_eq!(
        parse_exp(&toks, &mut pos).unwrap(),
        Some(ExpNode::BinaryMathOp(BinaryMathOp {
            op: TokenMathOp::Add,
            left: Box::new(konst(5)),
            right: Box::new(var("B")),
        }))
    );
    assert_eq!(pos, 3);

    let toks = vec![iden("B"), Token::EndOfLine];
    let mut pos = 0;
    assert_eq!(parse_exp(&toks, &mut pos).unwrap(), Some(var("B")));
    assert_eq!(pos, 1);

    let toks = vec![Token::EndOfLine];
    let mut pos = 0;
    assert_eq!(parse_exp(&toks, &mut pos).unwrap(), None);
    assert_eq!(pos, 0);

    let toks = vec![num(1), Token::MathOp(TokenMathOp::Sub)];
    let mut pos = 0;
    assert_eq!(parse_exp(&toks, &mut pos).unwrap_err(), ParseError::UnexpectedEndOfInput);

    let toks = vec![num(1), Token::MathOp(TokenMathOp::Sub), Token::EndOfLine];
    let mut pos = 0;
    assert_eq!(
        parse_exp(&toks, &mut pos).unwrap_err(),
        ParseError::UnexpectedSym(ExpectedSymMismatch {
            symbol: Token::EndOfLine,
            expected: Terminal::Expression
        })
    );
}

#[test]
fn parse_bool_exp_forms() {
    let toks = vec![iden("A"), Token::Compare(TokenCompare::LessThan), num(9), num(10)];
    let mut pos = 0;
    assert_eq!(
        parse_bool_exp(&toks, &mut pos).unwrap(),
        Some(CondNode { op: TokenCompare::LessThan, left: var("A"), right: konst(9) })
    );
    assert_eq!(pos, 3);

    let toks = vec![iden("A"), num(9)];
    let mut pos = 0;
    assert_eq!(parse_bool_exp(&toks, &mut pos).unwrap(), None);
    assert_eq!(pos, 1);

    let toks = vec![iden("A"), Token::Compare(TokenCompare::Equal)];
    let mut pos = 0;
    assert_eq!(parse_bool_exp(&toks, &mut pos).unwrap_err(), ParseError::UnexpectedEndOfInput);

    let toks = vec![iden("A"), Token::Compare(TokenCompare::Equal), num(256)];
    let mut pos = 0;
    assert_eq!(
        parse_bool_exp(&toks, &mut pos).unwrap_err(),
        ParseError::UnexpectedSym(ExpectedSymMismatch { symbol: num(256), expected: Terminal::Expression })
    );
}

fn program_tokens() -> Vec<Token> {
    vec![
        num(10), iden("A"), Token::Compare(TokenCompare::Equal), num(5),
        Token::MathOp(TokenMathOp::Add), iden("B"), Token::EndOfLine,
        num(20), iden("IF"), iden("A"), Token::Compare(TokenCompare::LessThan), num(9), num(10),
        Token::EndOfLine,
        num(30), iden("PRINT"), iden("A"), Token::EndOfLine,
        num(40), iden("GOTO"), num(10), Token::EndOfLine,
        num(50), iden("STOP"), Token::EndOfLine,
    ]
}

pub fn program_statements() -> Vec<StatementNode> {
    vec![
        StatementNode::Assign(
            10,
            "A".to_string(),
            ExpNode::BinaryMathOp(BinaryMathOp {
                op: TokenMathOp::Add,
                left: Box::new(konst(5)),
                right: Box::new(var("B")),
            }),
        ),
        StatementNode::If(20, CondNode { op: TokenCompare::LessThan, left: var("A"), right: konst(9) }, 10),
        StatementNode::Print(30, "A".to_string()),
        StatementNode::Goto(40, 10),
        StatementNode::Stop(50),
    ]
}

#[test]
fn parse_a_program() {
    assert_eq!(parse(program_tokens()).unwrap(), program_statements());
}

#[test]
fn parse_empty_and_blank_lines() {
    assert_eq!(parse(vec![]).unwrap(), vec![]);
    assert_eq!(parse(vec![Token::EndOfLine, Token::EndOfLine]).unwrap(), vec![]);
}

#[test]
fn parse_goto_skips_the_following_token() {
    let toks = vec![num(10), iden("GOTO"), num(20), num(30), iden("STOP")];
    assert_eq!(
        parse(toks).unwrap_err(),
        ParseError::UnexpectedSym(ExpectedSymMismatch { symbol: iden("STOP"), expected: Terminal::Number })
    );
    let toks = vec![num(10), iden("GOTO"), num(20), Token::EndOfLine, num(30), iden("STOP")];
    assert_eq!(parse(toks).unwrap(), vec![StatementNode::Goto(10, 20), StatementNode::Stop(30)]);
    let toks = vec![num(10), iden("GOTO"), num(20)];
    assert_eq!(parse(toks).unwrap(), vec![StatementNode::Goto(10, 20)]);
}

#[test]
fn parse_stops_quietly_when_tokens_run_out() {
    let toks = vec![num(10), iden("X"), Token::Compare(TokenCompare::Equal)];
    assert_eq!(parse(toks).unwrap(), vec![]);
}

#[test]
fn parse_accepts_any_comparison_as_assignment() {
    let toks = vec![num(10), iden("X"), Token::Compare(TokenCompare::LessThan), num(1)];
    assert_eq!(parse(toks).unwrap(), vec![StatementNode::Assign(10, "X".to_string(), konst(1))]);
}

#[test]
fn parse_error_line_break_inside_statement() {
    let toks = vec![num(10), iden("PRINT"), Token::EndOfLine];
    assert_eq!(
        parse(toks).unwrap_err(),
        ParseError::UnexpectedSym(ExpectedSymMismatch { symbol: Token::EndOfLine, expected: Terminal::Identifier })
    );
}

#[test]
fn parse_error_missing_line_number() {
    let toks = vec![iden("PRINT"), iden("A")];
    assert_eq!(
        parse(toks).unwrap_err(),
        ParseError::UnexpectedSym(ExpectedSymMismatch { symbol: iden("PRINT"), expected: Terminal::Number })
    );
}

#[test]
fn parse_error_missing_equal() {
    let toks = vec![num(10), iden("A"), num(5)];
    assert_eq!(
        parse(toks).unwrap_err(),
        ParseError::UnexpectedSym(ExpectedSymMismatch { symbol: num(5), expected: Terminal::Equal })
    );
}

#[test]
fn parse_error_missing_expression() {
    let toks = vec![num(10), iden("A"), Token::Compare(TokenCompare::Equal), num(300)];
    assert_eq!(
        parse(toks).unwrap_err(),
        ParseError::ExpectMismatch(ExpectMismatch { expected: Terminal::Expression })
    );
}

#[test]
fn parse_error_missing_condition() {
    let toks = vec![num(10), iden("IF"), iden("A"), num(5)];
    assert_eq!(
        parse(toks).unwrap_err(),
        ParseError::ExpectMismatch(ExpectMismatch { expected: Terminal::BooleanExpression })
    );
}

#[test]
fn parse_error_if_without_target() {
    let toks = vec![num(10), iden("IF"), iden("A"), Token::Compare(TokenCompare::Equal), num(1), iden("B")];
    assert_eq!(parse(toks).unwrap_err(), ParseError::ExpectLineNumber(iden("B")));
}

#[test]
fn parse_error_goto_without_target() {
    let toks = vec![num(10), iden("GOTO"), iden("B")];
    assert_eq!(parse(toks).unwrap_err(), ParseError::ExpectLineNumber(iden("B")));
}

#[test]
fn parse_error_print_without_variable() {
    let toks = vec![num(10), iden("PRINT"), num(3)];
    assert_eq!(
        parse(toks).unwrap_err(),
        ParseError::UnexpectedSym(ExpectedSymMismatch { symbol: num(3), expected: Terminal::Identifier })
    );
}

#[test]
fn parse_error_end_of_input_inside_expression() {
    let toks = vec![num(10), iden("A"), Token::Compare(TokenCompare::Equal), num(1), Token::MathOp(TokenMathOp::Add)];
    assert_eq!(parse(toks).unwrap_err(), ParseError::UnexpectedEndOfInput);
}

#[test]
fn hang_detection() {
    assert!(parse_would_hang(&vec![num(10), num(20)]));
    assert!(parse_would_hang(&vec![num(10), Token::MathOp(TokenMathOp::Add)]));
    assert!(!parse_would_hang(&vec![num(10), Token::EndOfLine]));
    assert!(!parse_would_hang(&program_tokens()));
    assert!(!parse_would_hang(&vec![iden("X"), num(10), num(20)]));
}
