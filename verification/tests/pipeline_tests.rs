use basic_compiler::code_gen::{generate, generate_would_trap};
use basic_compiler::parser::{parse, parse_would_hang};
use basic_compiler::scanner::{on_finish_term, scan, scan_would_trap, ScanState};

fn compile(text: &str, piece: usize) -> String {
    let bytes = text.as_bytes();
    let mut state = ScanState::Start;
    let mut mem = vec![];
    let mut tokens = vec![];
    for chunk in bytes.chunks(piece) {
        let buf = chunk.to_vec();
        assert!(!scan_would_trap(&buf, buf.len(), state, &mem));
        tokens.extend(scan(&buf, buf.len(), &mut state, &mut mem).unwrap());
    }
    on_finish_term(&mut state, &mut mem, &mut tokens);
    assert!(!parse_would_hang(&tokens));
    let statements = parse(tokens).unwrap();
    assert!(!generate_would_trap(&statements));
    generate(statements).unwrap()
}

#[test]
fn compile_a_program_from_text() {
    let text = "10 A = 1\r\n20 A = A + 1\r\n30 IF A < 9 20\r\n40 PRINT A\r\n50 STOP";
    let expected = "10 10 11 1 17 4 12 1 10 20 11 1 17 4 11 1 17 1 12 1 10 30 13 11 1 17 3 12 9 14 20 10 40 15 A 10 50 16 0";
    for piece in 1..=text.len() {
        assert_eq!(compile(text, piece), expected, "pieces of {}", piece);
    }
}

#[test]
fn front_end_names_never_trap_code_generation() {
    let text = "10 z = y - 3\n20 PRINT Q7\n";
    let code = compile(text, 4);
    assert_eq!(code, "10 10 11 58 17 4 11 57 17 2 12 3 10 20 15 Q7 0");
}
