use basic_compiler::scanner::{
    on_finish_term, parse_u16, scan, scan_would_trap, ScanError, ScanState,
};
use basic_compiler::text::{chars_to_string, decimal_string, join_with_spaces};
use basic_compiler::token::{get_reserved_word, ReservedWord, Token, TokenCompare, TokenMathOp};

fn chars(s: &str) -> Vec<char> {
    s.chars().collect()
}

fn scan_str(s: &str) -> (Result<Vec<Token>, ScanError>, ScanState, Vec<char>) {
    let bytes = s.as_bytes().to_vec();
    let mut state = ScanState::Start;
    let mut mem = vec![];
    let res = scan(&bytes, bytes.len(), &mut state, &mut mem);
    (res, state, mem)
}

#[test]
fn reserved_words_are_recognised_by_exact_spelling() {
    assert_eq!(get_reserved_word("IF"), Some(ReservedWord::If));
    assert_eq!(get_reserved_word("GOTO"), Some(ReservedWord::Goto));
    assert_eq!(get_reserved_word("PRINT"), Some(ReservedWord::Print));
    assert_eq!(get_reserved_word("STOP"), Some(ReservedWord::Stop));
    assert_eq!(get_reserved_word("if"), None);
    assert_eq!(get_reserved_word("PRINTX"), None);
    assert_eq!(get_reserved_word(""), None);
    assert_eq!(get_reserved_word("A"), None);
}

#[test]
fn parse_u16_reads_like_str_parse() {
    assert_eq!(parse_u16(&chars("123")), Some(123));
    assert_eq!(parse_u16(&chars("007")), Some(7));
    assert_eq!(parse_u16(&chars("+7")), Some(7));
    assert_eq!(parse_u16(&chars("65535")), Some(65535));
    assert_eq!(parse_u16(&chars("65536")), None);
    assert_eq!(parse_u16(&chars("999999")), None);
    assert_eq!(parse_u16(&chars("")), None);
    assert_eq!(parse_u16(&chars("+")), None);
    assert_eq!(parse_u16(&chars("12a")), None);
    assert_eq!(parse_u16(&chars("-1")), None);
    for s in ["0", "1", "42", "+42", "65535", "65536", "", "+", "1+", "x"] {
        assert_eq!(parse_u16(&chars(s)), s.parse::<u16>().ok(), "{}", s);
    }
}

#[test]
fn finishing_a_number_emits_it_and_resets() {
    let mut state = ScanState::StartNumber;
    let mut mem = chars("42");
    let mut out = vec![Token::EndOfLine];
    on_finish_term(&mut state, &mut mem, &mut out);
    assert_eq!(state, ScanState::Start);
    assert!(mem.is_empty());
    assert_eq!(out, vec![Token::EndOfLine, Token::Number(42)]);
}

#[test]
fn finishing_an_identifier_emits_it_and_resets() {
    let mut state = ScanState::StartIdentifier;
    let mut mem = chars("AB1");
    let mut out = vec![];
    on_finish_term(&mut state, &mut mem, &mut out);
    assert_eq!(state, ScanState::Start);
    assert!(mem.is_empty());
    assert_eq!(out, vec![Token::Iden("AB1".to_string())]);
}

#[test]
fn finishing_twice_changes_nothing_more() {
    let mut state = ScanState::StartIdentifier;
    let mut mem = chars("X");
    let mut out = vec![];
    on_finish_term(&mut state, &mut mem, &mut out);
    on_finish_term(&mut state, &mut mem, &mut out);
    assert_eq!(state, ScanState::Start);
    assert_eq!(out, vec![Token::Iden("X".to_string())]);
}

#[test]
fn finishing_at_start_leaves_memory() {
    let mut state = ScanState::Start;
    let mut mem = chars("Q");
    let mut out = vec![];
    on_finish_term(&mut state, &mut mem, &mut out);
    assert_eq!(state, ScanState::Start);
    assert_eq!(mem, chars("Q"));
    assert!(out.is_empty());
}

#[test]
fn scan_a_statement() {
    let (res, state, mem) = scan_str("10 A = 5 + B1\n");
    assert_eq!(
        res.unwrap(),
        vec![
            Token::Number(10),
            Token::Iden("A".to_string()),
            Token::Compare(TokenCompare::Equal),
            Token::Number(5),
            Token::MathOp(TokenMathOp::Add),
            Token::Iden("B1".to_string()),
            Token::EndOfLine,
        ]
    );
    assert_eq!(state, ScanState::Start);
    assert!(mem.is_empty());
}

#[test]
fn scan_operators() {
    let (res, _, _) = scan_str("A < B -C = D\n");
    assert_eq!(
        res.unwrap(),
        vec![
            Token::Iden("A".to_string()),
            Token::Compare(TokenCompare::LessThan),
            Token::Iden("B".to_string()),
            Token::MathOp(TokenMathOp::Sub),
            Token::Iden("C".to_string()),
            Token::Compare(TokenCompare::Equal),
            Token::Iden("D".to_string()),
            Token::EndOfLine,
        ]
    );
}

#[test]
fn scan_operator_right_after_a_term_is_refused() {
    let (res, _, _) = scan_str("A<B");
    assert_eq!(res.unwrap_err(), ScanError::UnsupportedCharForIden('<'));
    let (res, _, _) = scan_str("1+2");
    assert_eq!(res.unwrap_err(), ScanError::IdenStartWithNum);
}

#[test]
fn scan_skips_carriage_returns() {
    let (res, _, _) = scan_str("7\r\n");
    assert_eq!(res.unwrap(), vec![Token::Number(7), Token::EndOfLine]);
}

#[test]
fn scan_keeps_an_unfinished_term() {
    let (res, state, mem) = scan_str("10 PRI");
    assert_eq!(res.unwrap(), vec![Token::Number(10)]);
    assert_eq!(state, ScanState::StartIdentifier);
    assert_eq!(mem, chars("PRI"));
}

#[test]
fn scan_reads_only_current_size_bytes() {
    let bytes = b"12 34\n".to_vec();
    let mut state = ScanState::Start;
    let mut mem = vec![];
    let res = scan(&bytes, 3, &mut state, &mut mem).unwrap();
    assert_eq!(res, vec![Token::Number(12)]);
    assert_eq!(state, ScanState::Start);
    let mut state = ScanState::Start;
    let mut mem = vec![];
    let res = scan(&bytes, 100, &mut state, &mut mem).unwrap();
    assert_eq!(res, vec![Token::Number(12), Token::Number(34), Token::EndOfLine]);
}

#[test]
fn scan_in_pieces_equals_scan_at_once() {
    let text = "10 PRINT ABC\n20 X = 12 + 3\n";
    let (whole, _, _) = scan_str(text);
    let whole = whole.unwrap();
    for cut in 0..=text.len() {
        let bytes = text.as_bytes();
        let first = bytes[..cut].to_vec();
        let second = bytes[cut..].to_vec();
        let mut state = ScanState::Start;
        let mut mem = vec![];
        let mut toks = scan(&first, first.len(), &mut state, &mut mem).unwrap();
        toks.extend(scan(&second, second.len(), &mut state, &mut mem).unwrap());
        assert_eq!(toks, whole, "cut at {}", cut);
        assert_eq!(state, ScanState::Start);
    }
}

#[test]
fn scan_rejects_unknown_operator() {
    let (res, state, mem) = scan_str("10 A # 2");
    assert_eq!(res.unwrap_err(), ScanError::UnsupportedOp("#".to_string()));
    assert_eq!(state, ScanState::Start);
    assert!(mem.is_empty());
}

#[test]
fn scan_rejects_bad_identifier_character() {
    let (res, state, mem) = scan_str("AB#");
    assert_eq!(res.unwrap_err(), ScanError::UnsupportedCharForIden('#'));
    assert_eq!(state, ScanState::StartIdentifier);
    assert_eq!(mem, chars("AB"));
}

#[test]
fn scan_rejects_identifier_starting_with_digit() {
    let (res, state, mem) = scan_str("12A");
    assert_eq!(res.unwrap_err(), ScanError::IdenStartWithNum);
    assert_eq!(state, ScanState::StartNumber);
    assert_eq!(mem, chars("12"));
}

#[test]
fn scan_reads_bytes_as_latin1() {
    let bytes = vec![0xE9u8];
    let mut state = ScanState::Start;
    let mut mem = vec![];
    let res = scan(&bytes, 1, &mut state, &mut mem);
    assert_eq!(res.unwrap_err(), ScanError::UnsupportedOp("\u{e9}".to_string()));
}

#[test]
fn scan_trap_detection() {
    let big = b"70000 ".to_vec();
    assert!(scan_would_trap(&big, big.len(), ScanState::Start, &vec![]));
    let pending = b"70000".to_vec();
    assert!(!scan_would_trap(&pending, pending.len(), ScanState::Start, &vec![]));
    let error_first = b"# 70000 ".to_vec();
    assert!(!scan_would_trap(&error_first, error_first.len(), ScanState::Start, &vec![]));
    let ok = b"65535 ".to_vec();
    assert!(!scan_would_trap(&ok, ok.len(), ScanState::Start, &vec![]));
    let carried = b"0 ".to_vec();
    assert!(scan_would_trap(&carried, carried.len(), ScanState::StartNumber, &chars("7000")));
}

#[test]
fn text_helpers() {
    assert_eq!(chars_to_string(&chars("hello")), "hello");
    assert_eq!(chars_to_string(&vec![]), "");
    assert_eq!(decimal_string(0), "0");
    assert_eq!(decimal_string(7), "7");
    assert_eq!(decimal_string(10), "10");
    assert_eq!(decimal_string(65535), "65535");
    assert_eq!(decimal_string(4294967295), "4294967295");
    let words = vec!["10".to_string(), "A".to_string(), "0".to_string()];
    assert_eq!(join_with_spaces(&words), "10 A 0");
    assert_eq!(join_with_spaces(&vec![]), "");
    assert_eq!(join_with_spaces(&vec!["x".to_string()]), "x");
}
