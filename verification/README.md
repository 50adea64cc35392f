# basic_compiler

A compiler for a small line-numbered BASIC dialect (`LET`-less assignments, `IF ... <line>`,
`GOTO`, `PRINT`, `STOP`) to a bytecode written as decimal numbers, verified with Verus.

- `src/token.rs`, `src/terminal.rs`: tokens, reserved words, grammar symbols.
- `src/scanner.rs`: the scanner, which reads input in pieces and carries the term in
  progress from one piece to the next.
- `src/parser.rs`: the statement parser, a state machine over the token sequence.
- `src/code_gen.rs`: the bytecode generator.
- `src/text.rs`: decimal numbers, joining words, building strings.
- `src/pipeline.rs`: a law across the three stages.
- `app/`: the command-line program (file reading, argument parsing, error messages).

Each stage's contract is stated over a mathematical model of its input and output
(`scan_chars`, `parse_spec`, `program_emit`).
