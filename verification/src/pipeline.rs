use vstd::prelude::*;

use crate::code_gen::{lemma_scanned_names_never_trap, program_emit};
use crate::parser::{lemma_parse_keeps_names, parse_spec, ParseRun, StatementView};
use crate::scanner::{
    finish_term, lemma_finish_keeps_names, lemma_names_scanned_concat, lemma_scan_keeps_names,
    scan_chars, ScanState,
};
use crate::token::TokenView;

verus! {

/// A whole program text scanned from `Start` with nothing pending, its last term finished,
/// and the tokens parsed, gives statements whose code generation never overflows: the
/// precondition of `generate` holds for every program that the compiler's front end accepts.
pub proof fn lemma_front_end_output_never_traps(
    text: Seq<char>,
    toks: Seq<TokenView>,
    stmts: Seq<StatementView>,
)
    requires
        ({
            let o = scan_chars(text, ScanState::Start, seq![]);
            o.result matches Ok(t) && toks == t + finish_term(o.state, o.mem).2
        }),
        parse_spec(toks) == ParseRun::Done(stmts),
    ensures
        !(program_emit(stmts) is Trap),
{
    let o = scan_chars(text, ScanState::Start, seq![]);
    lemma_scan_keeps_names(text, ScanState::Start, seq![]);
    lemma_finish_keeps_names(o.state, o.mem);
    lemma_names_scanned_concat(o.result->Ok_0, finish_term(o.state, o.mem).2);
    lemma_parse_keeps_names(toks);
    lemma_scanned_names_never_trap(stmts);
}

} // verus!
