use vstd::prelude::*;

verus! {

/// A comparison operator as it appears in source text.
#[derive(Debug, Clone, Copy, PartialEq, Eq, Structural)]
pub enum TokenCompare {
    Equal,
    LessThan,
    MoreThan,
}

/// An arithmetic operator as it appears in source text.
#[derive(Debug, Clone, Copy, PartialEq, Eq, Structural)]
pub enum TokenMathOp {
    Add,
    Sub,
}

/// One lexical unit of a program.
#[derive(Debug, PartialEq, Eq)]
pub enum Token {
    MathOp(TokenMathOp),
    Number(u16),
    Iden(String),
    Compare(TokenCompare),
    EndOfLine,
}

/// The mathematical model of a [`Token`]: an identifier is its sequence of characters.
pub enum TokenView {
    MathOp(TokenMathOp),
    Number(u16),
    Iden(Seq<char>),
    Compare(TokenCompare),
    EndOfLine,
}

impl View for Token {
    type V = TokenView;

    open spec fn view(&self) -> TokenView {
        match self {
            Token::MathOp(op) => TokenView::MathOp(*op),
            Token::Number(n) => TokenView::Number(*n),
            Token::Iden(s) => TokenView::Iden(s@),
            Token::Compare(c) => TokenView::Compare(*c),
            Token::EndOfLine => TokenView::EndOfLine,
        }
    }
}

impl Clone for Token {
    fn clone(&self) -> (res: Self)
        ensures
            res == *self,
    {
        match self {
            Token::MathOp(op) => Token::MathOp(*op),
            Token::Number(n) => Token::Number(*n),
            Token::Iden(s) => Token::Iden(s.clone()),
            Token::Compare(c) => Token::Compare(*c),
            Token::EndOfLine => Token::EndOfLine,
        }
    }
}

/// The models of a sequence of tokens.
pub open spec fn tokens_view(toks: Seq<Token>) -> Seq<TokenView> {
    toks.map_values(|t: Token| t@)
}

/// Words with a fixed meaning at the start of a statement.
#[derive(Debug, Clone, Copy, PartialEq, Eq, Structural)]
pub enum ReservedWord {
    If,
    Goto,
    Print,
    Stop,
}

/// The spelling of each reserved word, in upper case.
pub open spec fn reserved_spelling(w: ReservedWord) -> Seq<char> {
    match w {
        ReservedWord::If => seq!['I', 'F'],
        ReservedWord::Goto => seq!['G', 'O', 'T', 'O'],
        ReservedWord::Print => seq!['P', 'R', 'I', 'N', 'T'],
        ReservedWord::Stop => seq!['S', 'T', 'O', 'P'],
    }
}

/// The reserved word spelled exactly `s`, if there is one (the match is case-sensitive).
pub open spec fn reserved_word_of(s: Seq<char>) -> Option<ReservedWord> {
    if s == reserved_spelling(ReservedWord::If) {
        Some(ReservedWord::If)
    } else if s == reserved_spelling(ReservedWord::Goto) {
        Some(ReservedWord::Goto)
    } else if s == reserved_spelling(ReservedWord::Print) {
        Some(ReservedWord::Print)
    } else if s == reserved_spelling(ReservedWord::Stop) {
        Some(ReservedWord::Stop)
    } else {
        None
    }
}

/// The reserved word that `input` spells exactly (upper case), or `None`.
pub fn get_reserved_word(input: &str) -> (res: Option<ReservedWord>)
    ensures
        res == reserved_word_of(input@),
{
    let s = input.to_owned();
    proof {
        reveal_strlit("IF");
        reveal_strlit("GOTO");
        reveal_strlit("PRINT");
        reveal_strlit("STOP");
        assert("IF"@ =~= reserved_spelling(ReservedWord::If));
        assert("GOTO"@ =~= reserved_spelling(ReservedWord::Goto));
        assert("PRINT"@ =~= reserved_spelling(ReservedWord::Print));
        assert("STOP"@ =~= reserved_spelling(ReservedWord::Stop));
    }
    if s == "IF".to_owned() {
        Some(ReservedWord::If)
    } else if s == "GOTO".to_owned() {
        Some(ReservedWord::Goto)
    } else if s == "PRINT".to_owned() {
        Some(ReservedWord::Print)
    } else if s == "STOP".to_owned() {
        Some(ReservedWord::Stop)
    } else {
        None
    }
}

/// Every reserved word is recognised from its own spelling, so no two share one.
pub proof fn lemma_reserved_spelling_roundtrip(w: ReservedWord)
    ensures
        reserved_word_of(reserved_spelling(w)) == Some(w),
{
    assert(reserved_spelling(ReservedWord::If) != reserved_spelling(ReservedWord::Goto)
        && reserved_spelling(ReservedWord::If).len() == 2);
    assert(reserved_spelling(ReservedWord::Goto)[0] != reserved_spelling(ReservedWord::Print)[0]);
    assert(reserved_spelling(ReservedWord::Goto)[0] != reserved_spelling(ReservedWord::Stop)[0]);
    assert(reserved_spelling(ReservedWord::Print).len() != reserved_spelling(ReservedWord::Stop).len());
}

/// Exactly four texts are reserved words, each spelled in full in upper case: `IF`, `GOTO`,
/// `PRINT` and `STOP`; any other text (a one-letter name, a prefix, a lower-case spelling) is not.
pub proof fn lemma_reserved_words_exact(s: Seq<char>)
    ensures
        (reserved_word_of(s) == Some(ReservedWord::If)) == (s == seq!['I', 'F']),
        (reserved_word_of(s) == Some(ReservedWord::Goto)) == (s == seq!['G', 'O', 'T', 'O']),
        (reserved_word_of(s) == Some(ReservedWord::Print)) == (s == seq!['P', 'R', 'I', 'N', 'T']),
        (reserved_word_of(s) == Some(ReservedWord::Stop)) == (s == seq!['S', 'T', 'O', 'P']),
        (reserved_word_of(s) is None) == (s != seq!['I', 'F'] && s != seq!['G', 'O', 'T', 'O'] && s
            != seq!['P', 'R', 'I', 'N', 'T'] && s != seq!['S', 'T', 'O', 'P']),
        s.len() < 2 ==> reserved_word_of(s) is None,
{
    let sp_if = seq!['I', 'F'];
    let sp_goto = seq!['G', 'O', 'T', 'O'];
    let sp_print = seq!['P', 'R', 'I', 'N', 'T'];
    let sp_stop = seq!['S', 'T', 'O', 'P'];
    assert(sp_if.len() == 2 && sp_goto.len() == 4 && sp_print.len() == 5 && sp_stop.len() == 4);
    assert(sp_goto[0] != sp_stop[0]);
}

} // verus!
