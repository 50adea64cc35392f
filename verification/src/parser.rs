use vstd::prelude::*;

use crate::scanner::{is_scanned_name, names_scanned};
use crate::terminal::Terminal;
use crate::token::{lemma_reserved_words_exact, get_reserved_word, reserved_word_of, tokens_view, ReservedWord, Token, TokenCompare, TokenMathOp, TokenView};

verus! {

/// An operand: a variable or a small constant.
#[derive(Debug, PartialEq, Eq)]
pub enum Term {
    Var(String),
    Number(u8),
}

/// The model of a [`Term`].
pub enum TermView {
    Var(Seq<char>),
    Number(u8),
}

impl View for Term {
    type V = TermView;

    open spec fn view(&self) -> TermView {
        match self {
            Term::Var(s) => TermView::Var(s@),
            Term::Number(n) => TermView::Number(*n),
        }
    }
}

/// Two expressions joined by `+` or `-`.
#[derive(Debug, PartialEq, Eq)]
pub struct BinaryMathOp {
    pub op: TokenMathOp,
    pub left: Box<ExpNode>,
    pub right: Box<ExpNode>,
}

/// An arithmetic expression.
#[derive(Debug, PartialEq, Eq)]
pub enum ExpNode {
    BinaryMathOp(BinaryMathOp),
    Term(Term),
}

/// The model of an [`ExpNode`].
pub enum ExpView {
    BinaryMathOp(TokenMathOp, Box<ExpView>, Box<ExpView>),
    Term(TermView),
}

/// The model of an expression tree.
pub open spec fn exp_view(e: ExpNode) -> ExpView
    decreases e,
{
    match e {
        ExpNode::BinaryMathOp(b) => ExpView::BinaryMathOp(
            b.op,
            Box::new(exp_view(*b.left)),
            Box::new(exp_view(*b.right)),
        ),
        ExpNode::Term(t) => ExpView::Term(t@),
    }
}

impl View for ExpNode {
    type V = ExpView;

    open spec fn view(&self) -> ExpView {
        exp_view(*self)
    }
}

/// A comparison between two expressions.
#[derive(Debug, PartialEq, Eq)]
pub struct CondNode {
    pub op: TokenCompare,
    pub left: ExpNode,
    pub right: ExpNode,
}

/// The model of a [`CondNode`].
pub struct CondView {
    pub op: TokenCompare,
    pub left: ExpView,
    pub right: ExpView,
}

impl View for CondNode {
    type V = CondView;

    open spec fn view(&self) -> CondView {
        CondView { op: self.op, left: self.left@, right: self.right@ }
    }
}

/// One numbered statement of a program; the first field is its line number.
#[derive(Debug, PartialEq, Eq)]
pub enum StatementNode {
    Assign(u16, String, ExpNode),
    If(u16, CondNode, u16),
    Goto(u16, u16),
    Print(u16, String),
    Stop(u16),
}

/// The model of a [`StatementNode`].
pub enum StatementView {
    Assign(u16, Seq<char>, ExpView),
    If(u16, CondView, u16),
    Goto(u16, u16),
    Print(u16, Seq<char>),
    Stop(u16),
}

impl View for StatementNode {
    type V = StatementView;

    open spec fn view(&self) -> StatementView {
        match self {
            StatementNode::Assign(l, s, e) => StatementView::Assign(*l, s@, e@),
            StatementNode::If(l, c, j) => StatementView::If(*l, c@, *j),
            StatementNode::Goto(l, j) => StatementView::Goto(*l, *j),
            StatementNode::Print(l, s) => StatementView::Print(*l, s@),
            StatementNode::Stop(l) => StatementView::Stop(*l),
        }
    }
}

/// The models of a sequence of statements.
pub open spec fn statements_view(v: Seq<StatementNode>) -> Seq<StatementView> {
    v.map_values(|s: StatementNode| s@)
}

/// Where the parser stands within the current statement.
#[derive(Debug, Clone, Copy, PartialEq, Eq, Structural)]
pub enum ParseState {
    Start,
    AfterLineNum,
    AssignmentAfterIden,
    AssignmentAfterEqual,
    AfterIf,
    IfAfterCond,
    AfterGoto,
    AfterPrint,
}

/// A token that is not the one the grammar expected there.
#[derive(Debug, PartialEq, Eq)]
pub struct ExpectedSymMismatch {
    pub symbol: Token,
    pub expected: Terminal,
}

/// A construct that the grammar expected and did not find.
#[derive(Debug, PartialEq, Eq)]
pub struct ExpectMismatch {
    pub expected: Terminal,
}

/// Why the parser refused its input.
#[derive(Debug, PartialEq, Eq)]
pub enum ParseError {
    UnexpectedSym(ExpectedSymMismatch),
    ExpectMismatch(ExpectMismatch),
    ExpectLineNumber(Token),
    UnexpectedEndOfInput,
}

/// The model of a [`ParseError`].
pub enum ParseErrorView {
    UnexpectedSym(TokenView, Terminal),
    ExpectMismatch(Terminal),
    ExpectLineNumber(TokenView),
    UnexpectedEndOfInput,
}

impl View for ParseError {
    type V = ParseErrorView;

    open spec fn view(&self) -> ParseErrorView {
        match self {
            ParseError::UnexpectedSym(m) => ParseErrorView::UnexpectedSym(m.symbol@, m.expected),
            ParseError::ExpectMismatch(m) => ParseErrorView::ExpectMismatch(m.expected),
            ParseError::ExpectLineNumber(t) => ParseErrorView::ExpectLineNumber(t@),
            ParseError::UnexpectedEndOfInput => ParseErrorView::UnexpectedEndOfInput,
        }
    }
}

/// The operand that a token denotes: a variable, or a number that fits in a `u8`.
pub open spec fn term_of(t: TokenView) -> Option<TermView> {
    match t {
        TokenView::Number(n) => if n <= 255 {
            Some(TermView::Number(n as u8))
        } else {
            None
        },
        TokenView::Iden(s) => Some(TermView::Var(s)),
        _ => None,
    }
}

/// Parsing an expression at position `i`: the position after it, and the expression
/// (`None` where no operand stands at `i`) or the error.
pub open spec fn exp_at(tv: Seq<TokenView>, i: int) -> (int, Result<Option<ExpView>, ParseErrorView>) {
    match term_of(tv[i]) {
        None => (i, Ok(None)),
        Some(l) => {
            if i + 1 < tv.len() && tv[i + 1] is MathOp {
                let op = tv[i + 1]->MathOp_0;
                if i + 2 >= tv.len() {
                    (i + 2, Err(ParseErrorView::UnexpectedEndOfInput))
                } else {
                    match term_of(tv[i + 2]) {
                        Some(r) => (
                            i + 3,
                            Ok(
                                Some(
                                    ExpView::BinaryMathOp(
                                        op,
                                        Box::new(ExpView::Term(l)),
                                        Box::new(ExpView::Term(r)),
                                    ),
                                ),
                            ),
                        ),
                        None => (
                            i + 2,
                            Err(ParseErrorView::UnexpectedSym(tv[i + 2], Terminal::Expression)),
                        ),
                    }
                }
            } else {
                (i + 1, Ok(Some(ExpView::Term(l))))
            }
        },
    }
}

/// Parsing a comparison at position `i`: the position after it, and the comparison
/// (`None` where no operand, or no comparison operator after it, stands there) or the error.
pub open spec fn cond_at(tv: Seq<TokenView>, i: int) -> (int, Result<Option<CondView>, ParseErrorView>) {
    match term_of(tv[i]) {
        None => (i, Ok(None)),
        Some(l) => {
            if i + 1 < tv.len() && tv[i + 1] is Compare {
                let op = tv[i + 1]->Compare_0;
                if i + 2 >= tv.len() {
                    (i + 2, Err(ParseErrorView::UnexpectedEndOfInput))
                } else {
                    match term_of(tv[i + 2]) {
                        Some(r) => (
                            i + 3,
                            Ok(Some(CondView { op, left: ExpView::Term(l), right: ExpView::Term(r) })),
                        ),
                        None => (
                            i + 2,
                            Err(ParseErrorView::UnexpectedSym(tv[i + 2], Terminal::Expression)),
                        ),
                    }
                }
            } else {
                (i + 1, Ok(None))
            }
        },
    }
}

/// An identifier token at position `pos` is consumed and its name returned.
pub fn parse_iden(tokens: &Vec<Token>, pos: &mut usize) -> (res: Option<String>)
    requires
        *old(pos) < tokens.len(),
    ensures
        match tokens@[*old(pos) as int]@ {
            TokenView::Iden(s) => res matches Some(name) && name@ == s && *final(pos) == *old(pos) + 1,
            _ => res is None && *final(pos) == *old(pos),
        },
{
    if let Token::Iden(s) = &tokens[*pos] {
        *pos = *pos + 1;
        return Some(s.clone());
    }
    return None;
}

/// A number token at position `pos` is consumed and its value returned.
pub fn parse_number(tokens: &Vec<Token>, pos: &mut usize) -> (res: Option<u16>)
    requires
        *old(pos) < tokens.len(),
    ensures
        match tokens@[*old(pos) as int]@ {
            TokenView::Number(n) => res == Some(n) && *final(pos) == *old(pos) + 1,
            _ => res is None && *final(pos) == *old(pos),
        },
{
    if let Token::Number(num) = &tokens[*pos] {
        *pos = *pos + 1;
        return Some(*num);
    }
    return None;
}

/// An operand token at position `pos` is consumed and returned as a term.
pub fn parse_term(tokens: &Vec<Token>, pos: &mut usize) -> (res: Option<Term>)
    requires
        *old(pos) < tokens.len(),
    ensures
        match res {
            Some(t) => term_of(tokens@[*old(pos) as int]@) == Some(t@) && *final(pos) == *old(pos) + 1,
            None => term_of(tokens@[*old(pos) as int]@) is None && *final(pos) == *old(pos),
        },
{
    if let Token::Number(num) = &tokens[*pos] {
        if *num <= 255 {
            *pos = *pos + 1;
            return Some(Term::Number(*num as u8));
        } else {
            return None;
        }
    } else if let Token::Iden(name) = &tokens[*pos] {
        *pos = *pos + 1;
        return Some(Term::Var(name.clone()));
    } else {
        return None;
    }
}

/// The model of what an expression parser returns.
pub open spec fn exp_result_view(r: Result<Option<ExpNode>, ParseError>) -> Result<Option<ExpView>, ParseErrorView> {
    match r {
        Ok(Some(e)) => Ok(Some(e@)),
        Ok(None) => Ok(None),
        Err(e) => Err(e@),
    }
}

/// The model of what a comparison parser returns.
pub open spec fn cond_result_view(r: Result<Option<CondNode>, ParseError>) -> Result<Option<CondView>, ParseErrorView> {
    match r {
        Ok(Some(c)) => Ok(Some(c@)),
        Ok(None) => Ok(None),
        Err(e) => Err(e@),
    }
}

/// Parses an operand, optionally followed by `+` or `-` and a second operand.
pub fn parse_exp(tokens: &Vec<Token>, pos: &mut usize) -> (res: Result<Option<ExpNode>, ParseError>)
    requires
        *old(pos) < tokens.len(),
    ensures
        (*final(pos) as int, exp_result_view(res)) == exp_at(tokens_view(tokens@), *old(pos) as int),
{
    let ghost tv = tokens_view(tokens@);
    let ghost i = *pos as int;
    let lhs = parse_term(tokens, pos);
    if let Some(lhs) = lhs {
        if *pos < tokens.len() {
            if let Token::MathOp(math_op) = &tokens[*pos] {
                let op = *math_op;
                *pos = *pos + 1;
                if *pos >= tokens.len() {
                    return Err(ParseError::UnexpectedEndOfInput);
                }
                let at: usize = *pos;
                let rhs = parse_term(tokens, pos);
                if let Some(rhs) = rhs {
                    let left = ExpNode::Term(lhs);
                    let right = ExpNode::Term(rhs);
                    assert(left@ == ExpView::Term(lhs@));
                    assert(right@ == ExpView::Term(rhs@));
                    let res = ExpNode::BinaryMathOp(
                        BinaryMathOp { op, left: Box::new(left), right: Box::new(right) },
                    );
                    return Ok(Some(res));
                } else {
                    return Err(
                        ParseError::UnexpectedSym(
                            ExpectedSymMismatch { symbol: tokens[at].clone(), expected: Terminal::Expression },
                        ),
                    );
                }
            }
        }
        return Ok(Some(ExpNode::Term(lhs)));
    } else {
        return Ok(None);
    }
}

/// Parses an operand, a comparison operator and a second operand.
pub fn parse_bool_exp(tokens: &Vec<Token>, pos: &mut usize) -> (res: Result<Option<CondNode>, ParseError>)
    requires
        *old(pos) < tokens.len(),
    ensures
        (*final(pos) as int, cond_result_view(res)) == cond_at(tokens_view(tokens@), *old(pos) as int),
{
    let ghost tv = tokens_view(tokens@);
    let ghost i = *pos as int;
    let lhs = parse_term(tokens, pos);
    if let Some(lhs) = lhs {
        if *pos < tokens.len() {
            if let Token::Compare(comp) = &tokens[*pos] {
                let op = *comp;
                *pos = *pos + 1;
                if *pos >= tokens.len() {
                    return Err(ParseError::UnexpectedEndOfInput);
                }
                let at: usize = *pos;
                let rhs = parse_term(tokens, pos);
                if let Some(rhs) = rhs {
                    return Ok(Some(CondNode { op, left: ExpNode::Term(lhs), right: ExpNode::Term(rhs) }));
                } else {
                    return Err(
                        ParseError::UnexpectedSym(
                            ExpectedSymMismatch { symbol: tokens[at].clone(), expected: Terminal::Expression },
                        ),
                    );
                }
            }
        }
        return Ok(None);
    } else {
        return Ok(None);
    }
}

/// The parser's whole state between two tokens: the position of the next token, the
/// statement state, the parts of the current statement read so far, and the statements
/// finished so far.
pub struct ParseCtx {
    pub pos: int,
    pub state: ParseState,
    pub line: Option<u16>,
    pub iden: Option<Seq<char>>,
    pub cond: Option<CondView>,
    pub stmts: Seq<StatementView>,
}

/// The effect of the token at `ctx.pos`: the next context, an error, or no progress at all
/// (a token other than an identifier right after a line number, on which the parser loops
/// for ever).
pub enum ParseStep {
    Next(ParseCtx),
    Fail(ParseErrorView),
    Hang,
}

/// Where a whole run of the parser ends.
pub enum ParseRun {
    Done(Seq<StatementView>),
    Fail(ParseErrorView),
    Hang,
}

pub open spec fn parse_step(tv: Seq<TokenView>, c: ParseCtx) -> ParseStep {
    let tok = tv[c.pos];
    if tok is EndOfLine {
        if c.state != ParseState::Start {
            ParseStep::Fail(ParseErrorView::UnexpectedSym(TokenView::EndOfLine, Terminal::Identifier))
        } else {
            ParseStep::Next(ParseCtx { pos: c.pos + 1, ..c })
        }
    } else {
        match c.state {
            ParseState::Start => match tok {
                TokenView::Number(n) => ParseStep::Next(
                    ParseCtx { pos: c.pos + 1, state: ParseState::AfterLineNum, line: Some(n), ..c },
                ),
                _ => ParseStep::Fail(ParseErrorView::UnexpectedSym(tok, Terminal::Number)),
            },
            ParseState::AfterLineNum => match tok {
                TokenView::Iden(name) => match reserved_word_of(name) {
                    Some(ReservedWord::If) => ParseStep::Next(
                        ParseCtx { pos: c.pos + 1, state: ParseState::AfterIf, ..c },
                    ),
                    Some(ReservedWord::Goto) => ParseStep::Next(
                        ParseCtx { pos: c.pos + 1, state: ParseState::AfterGoto, ..c },
                    ),
                    Some(ReservedWord::Print) => ParseStep::Next(
                        ParseCtx { pos: c.pos + 1, state: ParseState::AfterPrint, ..c },
                    ),
                    Some(ReservedWord::Stop) => ParseStep::Next(
                        ParseCtx {
                            pos: c.pos + 1,
                            state: ParseState::Start,
                            stmts: c.stmts.push(StatementView::Stop(c.line.unwrap())),
                            ..c
                        },
                    ),
                    None => ParseStep::Next(
                        ParseCtx {
                            pos: c.pos + 1,
                            state: ParseState::AssignmentAfterIden,
                            iden: Some(name),
                            ..c
                        },
                    ),
                },
                _ => ParseStep::Hang,
            },
            ParseState::AssignmentAfterIden => {
                if tok is Compare {
                    ParseStep::Next(
                        ParseCtx { pos: c.pos + 1, state: ParseState::AssignmentAfterEqual, ..c },
                    )
                } else {
                    ParseStep::Fail(ParseErrorView::UnexpectedSym(tok, Terminal::Equal))
                }
            },
            ParseState::AssignmentAfterEqual => {
                let (p, r) = exp_at(tv, c.pos);
                match r {
                    Err(e) => ParseStep::Fail(e),
                    Ok(None) => ParseStep::Fail(ParseErrorView::ExpectMismatch(Terminal::Expression)),
                    Ok(Some(e)) => ParseStep::Next(
                        ParseCtx {
                            pos: p,
                            state: ParseState::Start,
                            line: None,
                            iden: None,
                            stmts: c.stmts.push(
                                StatementView::Assign(c.line.unwrap(), c.iden.unwrap(), e),
                            ),
                            ..c
                        },
                    ),
                }
            },
            ParseState::AfterIf => {
                let (p, r) = cond_at(tv, c.pos);
                match r {
                    Err(e) => ParseStep::Fail(e),
                    Ok(None) => ParseStep::Fail(
                        ParseErrorView::ExpectMismatch(Terminal::BooleanExpression),
                    ),
                    Ok(Some(cn)) => ParseStep::Next(
                        ParseCtx { pos: p, state: ParseState::IfAfterCond, cond: Some(cn), ..c },
                    ),
                }
            },
            ParseState::IfAfterCond => match tok {
                TokenView::Number(n) => ParseStep::Next(
                    ParseCtx {
                        pos: c.pos + 1,
                        state: ParseState::Start,
                        line: None,
                        cond: None,
                        stmts: c.stmts.push(
                            StatementView::If(c.line.unwrap(), c.cond.unwrap(), n),
                        ),
                        ..c
                    },
                ),
                _ => ParseStep::Fail(ParseErrorView::ExpectLineNumber(tok)),
            },
            ParseState::AfterGoto => match tok {
                // The token after the jump target is skipped as well.
                TokenView::Number(n) => ParseStep::Next(
                    ParseCtx {
                        pos: if c.pos + 2 <= tv.len() { c.pos + 2 } else { tv.len() as int },
                        state: ParseState::Start,
                        line: None,
                        stmts: c.stmts.push(StatementView::Goto(c.line.unwrap(), n)),
                        ..c
                    },
                ),
                _ => ParseStep::Fail(ParseErrorView::ExpectLineNumber(tok)),
            },
            ParseState::AfterPrint => match tok {
                TokenView::Iden(name) => ParseStep::Next(
                    ParseCtx {
                        pos: c.pos + 1,
                        state: ParseState::Start,
                        stmts: c.stmts.push(StatementView::Print(c.line.unwrap(), name)),
                        ..c
                    },
                ),
                _ => ParseStep::Fail(ParseErrorView::UnexpectedSym(tok, Terminal::Identifier)),
            },
        }
    }
}

/// Running the parser from `c` until the tokens run out (whatever the state then), an
/// error, or a step that makes no progress.
pub open spec fn parse_from(tv: Seq<TokenView>, c: ParseCtx) -> ParseRun
    decreases tv.len() - c.pos,
{
    if !(0 <= c.pos < tv.len()) {
        ParseRun::Done(c.stmts)
    } else {
        match parse_step(tv, c) {
            ParseStep::Next(c2) => if c.pos < c2.pos {
                parse_from(tv, c2)
            } else {
                ParseRun::Hang
            },
            ParseStep::Fail(e) => ParseRun::Fail(e),
            ParseStep::Hang => ParseRun::Hang,
        }
    }
}

/// The context at the start of the input.
pub open spec fn initial_ctx() -> ParseCtx {
    ParseCtx {
        pos: 0,
        state: ParseState::Start,
        line: None,
        iden: None,
        cond: None,
        stmts: seq![],
    }
}

/// What parsing the whole token sequence gives.
pub open spec fn parse_spec(tv: Seq<TokenView>) -> ParseRun {
    parse_from(tv, initial_ctx())
}

/// Every step that goes on consumes at least one token and stays within the input.
pub proof fn lemma_parse_step_advances(tv: Seq<TokenView>, c: ParseCtx)
    requires
        0 <= c.pos < tv.len(),
    ensures
        parse_step(tv, c) matches ParseStep::Next(c2) ==> c.pos < c2.pos <= tv.len(),
{
}

struct ParseCursor {
    pos: usize,
    state: ParseState,
    line: Option<u16>,
    iden: Option<String>,
    cond: Option<CondNode>,
    root: Vec<StatementNode>,
}

spec fn cursor_ctx(c: ParseCursor) -> ParseCtx {
    ParseCtx {
        pos: c.pos as int,
        state: c.state,
        line: c.line,
        iden: match c.iden {
            Some(s) => Some(s@),
            None => None,
        },
        cond: match c.cond {
            Some(x) => Some(x@),
            None => None,
        },
        stmts: statements_view(c.root@),
    }
}

/// The parts of the current statement that its state relies on have been read.
spec fn cursor_wf(c: ParseCursor) -> bool {
    &&& c.state != ParseState::Start ==> c.line is Some
    &&& (c.state == ParseState::AssignmentAfterIden || c.state == ParseState::AssignmentAfterEqual)
        ==> c.iden is Some
    &&& c.state == ParseState::IfAfterCond ==> c.cond is Some
}

enum StepOutcome {
    Continue,
    Fail(ParseError),
    Hang,
}

/// Handles the token at the cursor, as `parse_step` describes.
fn parse_token(tokens: &Vec<Token>, cur: &mut ParseCursor) -> (res: StepOutcome)
    requires
        old(cur).pos < tokens.len(),
        cursor_wf(*old(cur)),
    ensures
        match parse_step(tokens_view(tokens@), cursor_ctx(*old(cur))) {
            ParseStep::Next(c2) => res is Continue && cursor_ctx(*final(cur)) == c2 && cursor_wf(*final(cur)),
            ParseStep::Fail(e) => res matches StepOutcome::Fail(err) && err@ == e,
            ParseStep::Hang => res is Hang,
        },
{
    let ghost tv = tokens_view(tokens@);
    let ghost c = cursor_ctx(*cur);
    let ghost old_root = cur.root@;
    if let Token::EndOfLine = &tokens[cur.pos] {
        if cur.state != ParseState::Start {
            return StepOutcome::Fail(
                ParseError::UnexpectedSym(
                    ExpectedSymMismatch { symbol: Token::EndOfLine, expected: Terminal::Identifier },
                ),
            );
        }
        cur.pos = cur.pos + 1;
        return StepOutcome::Continue;
    }
    match cur.state {
        ParseState::Start => {
            let at: usize = cur.pos;
            if let Some(num) = parse_number(tokens, &mut cur.pos) {
                cur.line = Some(num);
                cur.state = ParseState::AfterLineNum;
            } else {
                return StepOutcome::Fail(
                    ParseError::UnexpectedSym(
                        ExpectedSymMismatch { symbol: tokens[at].clone(), expected: Terminal::Number },
                    ),
                );
            }
        },
        ParseState::AfterLineNum => {
            if let Some(name) = parse_iden(tokens, &mut cur.pos) {
                if let Some(reserved) = get_reserved_word(name.as_str()) {
                    match reserved {
                        ReservedWord::If => {
                            cur.state = ParseState::AfterIf;
                        },
                        ReservedWord::Goto => {
                            cur.state = ParseState::AfterGoto;
                        },
                        ReservedWord::Print => {
                            cur.state = ParseState::AfterPrint;
                        },
                        ReservedWord::Stop => {
                            let line: u16 = cur.line.unwrap();
                            cur.root.push(StatementNode::Stop(line));
                            cur.state = ParseState::Start;
                            assert(statements_view(cur.root@) =~= statements_view(old_root).push(
                                StatementView::Stop(line),
                            ));
                        },
                    }
                } else {
                    cur.iden = Some(name);
                    cur.state = ParseState::AssignmentAfterIden;
                }
            } else {
                return StepOutcome::Hang;
            }
        },
        ParseState::AssignmentAfterIden => {
            let at: usize = cur.pos;
            cur.pos = cur.pos + 1;
            if let Token::Compare(_) = &tokens[at] {
                cur.state = ParseState::AssignmentAfterEqual;
            } else {
                return StepOutcome::Fail(
                    ParseError::UnexpectedSym(
                        ExpectedSymMismatch { symbol: tokens[at].clone(), expected: Terminal::Equal },
                    ),
                );
            }
        },
        ParseState::AssignmentAfterEqual => {
            match parse_exp(tokens, &mut cur.pos) {
                Err(e) => {
                    return StepOutcome::Fail(e);
                },
                Ok(None) => {
                    return StepOutcome::Fail(
                        ParseError::ExpectMismatch(ExpectMismatch { expected: Terminal::Expression }),
                    );
                },
                Ok(Some(exp)) => {
                    let line: u16 = cur.line.unwrap();
                    let name = cur.iden.take().unwrap();
                    let ghost ev = exp@;
                    let ghost nv = name@;
                    cur.root.push(StatementNode::Assign(line, name, exp));
                    cur.line = None;
                    cur.state = ParseState::Start;
                    assert(statements_view(cur.root@) =~= statements_view(old_root).push(
                        StatementView::Assign(line, nv, ev),
                    ));
                },
            }
        },
        ParseState::AfterIf => {
            match parse_bool_exp(tokens, &mut cur.pos) {
                Err(e) => {
                    return StepOutcome::Fail(e);
                },
                Ok(None) => {
                    return StepOutcome::Fail(
                        ParseError::ExpectMismatch(ExpectMismatch { expected: Terminal::BooleanExpression }),
                    );
                },
                Ok(Some(cn)) => {
                    cur.cond = Some(cn);
                    cur.state = ParseState::IfAfterCond;
                },
            }
        },
        ParseState::IfAfterCond => {
            let at: usize = cur.pos;
            if let Some(num) = parse_number(tokens, &mut cur.pos) {
                let line: u16 = cur.line.unwrap();
                let cn = cur.cond.take().unwrap();
                let ghost cv = cn@;
                cur.root.push(StatementNode::If(line, cn, num));
                cur.line = None;
                cur.state = ParseState::Start;
                assert(statements_view(cur.root@) =~= statements_view(old_root).push(
                    StatementView::If(line, cv, num),
                ));
            } else {
                return StepOutcome::Fail(ParseError::ExpectLineNumber(tokens[at].clone()));
            }
        },
        ParseState::AfterGoto => {
            let at: usize = cur.pos;
            if let Some(num) = parse_number(tokens, &mut cur.pos) {
                let line: u16 = cur.line.unwrap();
                cur.root.push(StatementNode::Goto(line, num));
                cur.line = None;
                cur.state = ParseState::Start;
                if cur.pos < tokens.len() {
                    cur.pos = cur.pos + 1;
                }
                assert(statements_view(cur.root@) =~= statements_view(old_root).push(
                    StatementView::Goto(line, num),
                ));
            } else {
                return StepOutcome::Fail(ParseError::ExpectLineNumber(tokens[at].clone()));
            }
        },
        ParseState::AfterPrint => {
            let at: usize = cur.pos;
            if let Some(iden) = parse_iden(tokens, &mut cur.pos) {
                let line: u16 = cur.line.unwrap();
                let ghost iv = iden@;
                cur.root.push(StatementNode::Print(line, iden));
                cur.state = ParseState::Start;
                assert(statements_view(cur.root@) =~= statements_view(old_root).push(
                    StatementView::Print(line, iv),
                ));
            } else {
                return StepOutcome::Fail(
                    ParseError::UnexpectedSym(
                        ExpectedSymMismatch { symbol: tokens[at].clone(), expected: Terminal::Identifier },
                    ),
                );
            }
        },
    }
    StepOutcome::Continue
}

/// Parses numbered statements. Line breaks are only accepted between statements; when the
/// tokens run out, the statements finished so far are returned, whatever state the parser is in.
pub fn parse(tokens: Vec<Token>) -> (res: Result<Vec<StatementNode>, ParseError>)
    requires
        !(parse_spec(tokens_view(tokens@)) is Hang),
    ensures
        match res {
            Ok(stmts) => parse_spec(tokens_view(tokens@)) == ParseRun::Done(statements_view(stmts@)),
            Err(e) => parse_spec(tokens_view(tokens@)) == ParseRun::Fail(e@),
        },
{
    let ghost tv = tokens_view(tokens@);
    let mut cur = ParseCursor {
        pos: 0,
        state: ParseState::Start,
        line: None,
        iden: None,
        cond: None,
        root: Vec::new(),
    };
    assert(cursor_ctx(cur) == initial_ctx()) by {
        assert(statements_view(cur.root@) =~= seq![]);
    }
    while cur.pos < tokens.len()
        invariant
            tv == tokens_view(tokens@),
            cur.pos <= tokens.len(),
            cursor_wf(cur),
            parse_from(tv, cursor_ctx(cur)) == parse_spec(tv),
            !(parse_spec(tv) is Hang),
        decreases tokens.len() - cur.pos,
    {
        let ghost c = cursor_ctx(cur);
        proof {
            lemma_parse_step_advances(tv, c);
        }
        match parse_token(&tokens, &mut cur) {
            StepOutcome::Continue => {},
            StepOutcome::Fail(e) => {
                return Err(e);
            },
            StepOutcome::Hang => {
                // The precondition rules this out: the parser would loop here for ever.
                assert(false);
                return Ok(cur.root);
            },
        }
    }
    Ok(cur.root)
}

/// Whether `parse` would loop for ever on these tokens (a token other than an identifier
/// right after a line number).
pub fn parse_would_hang(tokens: &Vec<Token>) -> (res: bool)
    ensures
        res == (parse_spec(tokens_view(tokens@)) is Hang),
{
    let ghost tv = tokens_view(tokens@);
    let mut cur = ParseCursor {
        pos: 0,
        state: ParseState::Start,
        line: None,
        iden: None,
        cond: None,
        root: Vec::new(),
    };
    assert(cursor_ctx(cur) == initial_ctx()) by {
        assert(statements_view(cur.root@) =~= seq![]);
    }
    while cur.pos < tokens.len()
        invariant
            tv == tokens_view(tokens@),
            cur.pos <= tokens.len(),
            cursor_wf(cur),
            parse_from(tv, cursor_ctx(cur)) == parse_spec(tv),
        decreases tokens.len() - cur.pos,
    {
        let ghost c = cursor_ctx(cur);
        proof {
            lemma_parse_step_advances(tv, c);
        }
        match parse_token(tokens, &mut cur) {
            StepOutcome::Continue => {},
            StepOutcome::Fail(_) => {
                return false;
            },
            StepOutcome::Hang => {
                return true;
            },
        }
    }
    false
}

/// Every variable in the expression is a scanned name.
pub open spec fn exp_names_scanned(e: ExpView) -> bool
    decreases e,
{
    match e {
        ExpView::Term(TermView::Var(s)) => is_scanned_name(s),
        ExpView::Term(TermView::Number(_)) => true,
        ExpView::BinaryMathOp(_, l, r) => exp_names_scanned(*l) && exp_names_scanned(*r),
    }
}

/// Every name in the statement is a scanned name.
pub open spec fn stmt_names_scanned(s: StatementView) -> bool {
    match s {
        StatementView::Assign(_, n, e) => is_scanned_name(n) && exp_names_scanned(e),
        StatementView::If(_, c, _) => exp_names_scanned(c.left) && exp_names_scanned(c.right),
        StatementView::Print(_, v) => is_scanned_name(v),
        _ => true,
    }
}

pub open spec fn stmts_names_scanned(stmts: Seq<StatementView>) -> bool {
    forall|i: int| 0 <= i < stmts.len() ==> #[trigger] stmt_names_scanned(stmts[i])
}

spec fn ctx_names_scanned(c: ParseCtx) -> bool {
    &&& stmts_names_scanned(c.stmts)
    &&& (c.state == ParseState::AssignmentAfterIden || c.state == ParseState::AssignmentAfterEqual)
        ==> c.iden is Some
    &&& c.state == ParseState::IfAfterCond ==> c.cond is Some
    &&& c.iden matches Some(n) ==> is_scanned_name(n)
    &&& c.cond matches Some(cv) ==> exp_names_scanned(cv.left) && exp_names_scanned(cv.right)
}

proof fn lemma_stmts_push(stmts: Seq<StatementView>, s: StatementView)
    requires
        stmts_names_scanned(stmts),
        stmt_names_scanned(s),
    ensures
        stmts_names_scanned(stmts.push(s)),
{
    assert forall|i: int| 0 <= i < stmts.push(s).len() implies #[trigger] stmt_names_scanned(stmts.push(s)[i]) by {
        if i < stmts.len() {
            assert(stmts.push(s)[i] == stmts[i]);
        }
    }
}

proof fn lemma_step_keeps_names(tv: Seq<TokenView>, c: ParseCtx)
    requires
        names_scanned(tv),
        ctx_names_scanned(c),
        0 <= c.pos < tv.len(),
    ensures
        parse_step(tv, c) matches ParseStep::Next(c2) ==> ctx_names_scanned(c2),
{
    let tok = tv[c.pos];
    assert(tok matches TokenView::Iden(s) ==> is_scanned_name(s));
    if c.pos + 1 < tv.len() {
        assert(tv[c.pos + 1] matches TokenView::Iden(s) ==> is_scanned_name(s));
    }
    if c.pos + 2 < tv.len() {
        assert(tv[c.pos + 2] matches TokenView::Iden(s) ==> is_scanned_name(s));
    }
    if let ParseStep::Next(c2) = parse_step(tv, c) {
        if !(tok is EndOfLine) {
            match c.state {
                ParseState::AfterLineNum => {
                    if let TokenView::Iden(name) = tok {
                        if reserved_word_of(name) == Some(ReservedWord::Stop) {
                            lemma_stmts_push(c.stmts, StatementView::Stop(c.line.unwrap()));
                        }
                    }
                },
                ParseState::AssignmentAfterEqual => {
                    let e = exp_at(tv, c.pos).1->Ok_0->Some_0;
                    reveal_with_fuel(exp_names_scanned, 2);
                    lemma_stmts_push(c.stmts, StatementView::Assign(c.line.unwrap(), c.iden.unwrap(), e));
                },
                ParseState::IfAfterCond => {
                    if let TokenView::Number(n) = tok {
                        lemma_stmts_push(c.stmts, StatementView::If(c.line.unwrap(), c.cond.unwrap(), n));
                    }
                },
                ParseState::AfterGoto => {
                    if let TokenView::Number(n) = tok {
                        lemma_stmts_push(c.stmts, StatementView::Goto(c.line.unwrap(), n));
                    }
                },
                ParseState::AfterPrint => {
                    if let TokenView::Iden(name) = tok {
                        lemma_stmts_push(c.stmts, StatementView::Print(c.line.unwrap(), name));
                    }
                },
                _ => {},
            }
        }
    }
}

proof fn lemma_parse_from_keeps_names(tv: Seq<TokenView>, c: ParseCtx)
    requires
        names_scanned(tv),
        ctx_names_scanned(c),
    ensures
        parse_from(tv, c) matches ParseRun::Done(stmts) ==> stmts_names_scanned(stmts),
    decreases tv.len() - c.pos,
{
    if 0 <= c.pos < tv.len() {
        lemma_step_keeps_names(tv, c);
        if let ParseStep::Next(c2) = parse_step(tv, c) {
            if c.pos < c2.pos {
                lemma_parse_from_keeps_names(tv, c2);
            }
        }
    }
}

/// Where every identifier token is a scanned name, so is every name in the statements that
/// parsing returns.
pub proof fn lemma_parse_keeps_names(tv: Seq<TokenView>)
    requires
        names_scanned(tv),
    ensures
        parse_spec(tv) matches ParseRun::Done(stmts) ==> stmts_names_scanned(stmts),
{
    lemma_parse_from_keeps_names(tv, initial_ctx());
}

/// `IF <variable> <comparison> <small number> <target>`: the statement keeps its line number,
/// the comparison operator read, both operands, and the full `u16` jump target.
pub proof fn lemma_parse_if_statement(l: u16, a: Seq<char>, op: TokenCompare, m: u16, n: u16)
    requires
        m <= 255,
    ensures
        parse_spec(
            seq![
                TokenView::Number(l),
                TokenView::Iden(seq!['I', 'F']),
                TokenView::Iden(a),
                TokenView::Compare(op),
                TokenView::Number(m),
                TokenView::Number(n),
            ],
        ) == ParseRun::Done(
            seq![
                StatementView::If(
                    l,
                    CondView {
                        op,
                        left: ExpView::Term(TermView::Var(a)),
                        right: ExpView::Term(TermView::Number(m as u8)),
                    },
                    n,
                ),
            ],
        ),
{
    let tv = seq![
        TokenView::Number(l),
        TokenView::Iden(seq!['I', 'F']),
        TokenView::Iden(a),
        TokenView::Compare(op),
        TokenView::Number(m),
        TokenView::Number(n),
    ];
    lemma_reserved_words_exact(seq!['I', 'F']);
    let cv = CondView {
        op,
        left: ExpView::Term(TermView::Var(a)),
        right: ExpView::Term(TermView::Number(m as u8)),
    };
    let c0 = initial_ctx();
    let c1 = ParseCtx { pos: 1, state: ParseState::AfterLineNum, line: Some(l), ..c0 };
    let c2 = ParseCtx { pos: 2, state: ParseState::AfterIf, ..c1 };
    let c3 = ParseCtx { pos: 5, state: ParseState::IfAfterCond, cond: Some(cv), ..c2 };
    let c4 = ParseCtx {
        pos: 6,
        state: ParseState::Start,
        line: None,
        cond: None,
        stmts: c3.stmts.push(StatementView::If(l, cv, n)),
        ..c3
    };
    assert(parse_step(tv, c0) == ParseStep::Next(c1));
    assert(parse_step(tv, c1) == ParseStep::Next(c2));
    assert(cond_at(tv, 2) == (5int, Ok::<Option<CondView>, ParseErrorView>(Some(cv))));
    assert(parse_step(tv, c2) == ParseStep::Next(c3));
    assert(parse_step(tv, c3) == ParseStep::Next(c4));
    assert(parse_from(tv, c4) == ParseRun::Done(c4.stmts));
    assert(parse_from(tv, c3) == parse_from(tv, c4));
    assert(parse_from(tv, c2) == parse_from(tv, c3));
    assert(parse_from(tv, c1) == parse_from(tv, c2));
    assert(parse_from(tv, c0) == parse_from(tv, c1));
    assert(c4.stmts =~= seq![StatementView::If(l, cv, n)]);
}

/// The token is an operand and `e` is the term it stands for: a variable by its name, or a
/// number up to 255 by its value.
pub open spec fn operand_of(t: TokenView, e: ExpView) -> bool {
    match t {
        TokenView::Iden(s) => e == ExpView::Term(TermView::Var(s)),
        TokenView::Number(n) => n <= 255 && e == ExpView::Term(TermView::Number(n as u8)),
        _ => false,
    }
}

/// A variable, or a number up to 255.
pub open spec fn is_operand(t: TokenView) -> bool {
    t is Iden || (t matches TokenView::Number(n) && n <= 255)
}

/// A condition parsed at `i` is made of the three tokens at `i`, `i + 1`, `i + 2`: its
/// operator is the comparison token at `i + 1`, its operands are the tokens around it.
pub proof fn lemma_condition_shape(tv: Seq<TokenView>, i: int)
    requires
        0 <= i < tv.len(),
    ensures
        cond_at(tv, i).1 matches Ok(Some(cv)) ==> {
            &&& i + 2 < tv.len()
            &&& cond_at(tv, i).0 == i + 3
            &&& tv[i + 1] == TokenView::Compare(cv.op)
            &&& operand_of(tv[i], cv.left)
            &&& operand_of(tv[i + 2], cv.right)
        },
        (i + 2 < tv.len() && tv[i + 1] is Compare && is_operand(tv[i]) && is_operand(tv[i + 2]))
            ==> cond_at(tv, i).1 is Ok && cond_at(tv, i).1->Ok_0 is Some,
{
}

/// An expression parsed at `i` is either the operand at `i` alone (when no `+` or `-` follows
/// it), or the operands at `i` and `i + 2` joined by the operator token at `i + 1`.
pub proof fn lemma_expression_shape(tv: Seq<TokenView>, i: int)
    requires
        0 <= i < tv.len(),
    ensures
        exp_at(tv, i).1 matches Ok(Some(e)) ==> match e {
            ExpView::Term(_) => {
                &&& exp_at(tv, i).0 == i + 1
                &&& operand_of(tv[i], e)
                &&& !(i + 1 < tv.len() && tv[i + 1] is MathOp)
            },
            ExpView::BinaryMathOp(op, l, r) => {
                &&& i + 2 < tv.len()
                &&& exp_at(tv, i).0 == i + 3
                &&& tv[i + 1] == TokenView::MathOp(op)
                &&& operand_of(tv[i], *l)
                &&& operand_of(tv[i + 2], *r)
            },
        },
        is_operand(tv[i]) ==> !(exp_at(tv, i).1 matches Ok(None)),
        !is_operand(tv[i]) ==> exp_at(tv, i) == (i, Ok::<Option<ExpView>, ParseErrorView>(None)),
{
}

/// `GOTO <target>` keeps its line number and the full `u16` target, and the token after the
/// target is skipped (a line end in a well-formed program), so the next line parses on.
pub proof fn lemma_parse_goto_statement(l: u16, n: u16, l2: u16)
    ensures
        parse_spec(seq![TokenView::Number(l), TokenView::Iden(seq!['G', 'O', 'T', 'O']), TokenView::Number(n)])
            == ParseRun::Done(seq![StatementView::Goto(l, n)]),
        parse_spec(
            seq![
                TokenView::Number(l),
                TokenView::Iden(seq!['G', 'O', 'T', 'O']),
                TokenView::Number(n),
                TokenView::EndOfLine,
                TokenView::Number(l2),
                TokenView::Iden(seq!['S', 'T', 'O', 'P']),
            ],
        ) == ParseRun::Done(seq![StatementView::Goto(l, n), StatementView::Stop(l2)]),
{
    lemma_reserved_words_exact(seq!['G', 'O', 'T', 'O']);
    lemma_reserved_words_exact(seq!['S', 'T', 'O', 'P']);
    let short = seq![TokenView::Number(l), TokenView::Iden(seq!['G', 'O', 'T', 'O']), TokenView::Number(n)];
    let c0 = initial_ctx();
    let c1 = ParseCtx { pos: 1, state: ParseState::AfterLineNum, line: Some(l), ..c0 };
    let c2 = ParseCtx { pos: 2, state: ParseState::AfterGoto, ..c1 };
    let s3 = ParseCtx {
        pos: 3,
        state: ParseState::Start,
        line: None,
        stmts: c2.stmts.push(StatementView::Goto(l, n)),
        ..c2
    };
    assert(parse_step(short, c0) == ParseStep::Next(c1));
    assert(parse_step(short, c1) == ParseStep::Next(c2));
    assert(parse_step(short, c2) == ParseStep::Next(s3));
    assert(parse_from(short, s3) == ParseRun::Done(s3.stmts));
    assert(parse_from(short, c2) == parse_from(short, s3));
    assert(parse_from(short, c1) == parse_from(short, c2));
    assert(parse_from(short, c0) == parse_from(short, c1));
    assert(s3.stmts =~= seq![StatementView::Goto(l, n)]);

    let tv = seq![
        TokenView::Number(l),
        TokenView::Iden(seq!['G', 'O', 'T', 'O']),
        TokenView::Number(n),
        TokenView::EndOfLine,
        TokenView::Number(l2),
        TokenView::Iden(seq!['S', 'T', 'O', 'P']),
    ];
    let c3 = ParseCtx { pos: 4, ..s3 };
    let c4 = ParseCtx { pos: 5, state: ParseState::AfterLineNum, line: Some(l2), ..c3 };
    let c5 = ParseCtx {
        pos: 6,
        state: ParseState::Start,
        stmts: c4.stmts.push(StatementView::Stop(l2)),
        ..c4
    };
    assert(parse_step(tv, c0) == ParseStep::Next(c1));
    assert(parse_step(tv, c1) == ParseStep::Next(c2));
    assert(parse_step(tv, c2) == ParseStep::Next(c3));
    assert(parse_step(tv, c3) == ParseStep::Next(c4));
    assert(parse_step(tv, c4) == ParseStep::Next(c5));
    assert(parse_from(tv, c5) == ParseRun::Done(c5.stmts));
    assert(parse_from(tv, c4) == parse_from(tv, c5));
    assert(parse_from(tv, c3) == parse_from(tv, c4));
    assert(parse_from(tv, c2) == parse_from(tv, c3));
    assert(parse_from(tv, c1) == parse_from(tv, c2));
    assert(parse_from(tv, c0) == parse_from(tv, c1));
    assert(c5.stmts =~= seq![StatementView::Goto(l, n), StatementView::Stop(l2)]);
}

/// `PRINT <variable>` and `STOP` keep their line numbers and the variable's name.
pub proof fn lemma_parse_print_and_stop(l: u16, v: Seq<char>)
    ensures
        parse_spec(seq![TokenView::Number(l), TokenView::Iden(seq!['P', 'R', 'I', 'N', 'T']), TokenView::Iden(v)])
            == ParseRun::Done(seq![StatementView::Print(l, v)]),
        parse_spec(seq![TokenView::Number(l), TokenView::Iden(seq!['S', 'T', 'O', 'P'])]) == ParseRun::Done(
            seq![StatementView::Stop(l)],
        ),
{
    lemma_reserved_words_exact(seq!['P', 'R', 'I', 'N', 'T']);
    lemma_reserved_words_exact(seq!['S', 'T', 'O', 'P']);
    let tv = seq![TokenView::Number(l), TokenView::Iden(seq!['P', 'R', 'I', 'N', 'T']), TokenView::Iden(v)];
    let c0 = initial_ctx();
    let c1 = ParseCtx { pos: 1, state: ParseState::AfterLineNum, line: Some(l), ..c0 };
    let c2 = ParseCtx { pos: 2, state: ParseState::AfterPrint, ..c1 };
    let c3 = ParseCtx { pos: 3, state: ParseState::Start, stmts: c2.stmts.push(StatementView::Print(l, v)), ..c2 };
    assert(parse_step(tv, c0) == ParseStep::Next(c1));
    assert(parse_step(tv, c1) == ParseStep::Next(c2));
    assert(parse_step(tv, c2) == ParseStep::Next(c3));
    assert(parse_from(tv, c3) == ParseRun::Done(c3.stmts));
    assert(parse_from(tv, c2) == parse_from(tv, c3));
    assert(parse_from(tv, c1) == parse_from(tv, c2));
    assert(parse_from(tv, c0) == parse_from(tv, c1));
    assert(c3.stmts =~= seq![StatementView::Print(l, v)]);

    let st = seq![TokenView::Number(l), TokenView::Iden(seq!['S', 'T', 'O', 'P'])];
    let d2 = ParseCtx { pos: 2, state: ParseState::Start, stmts: c1.stmts.push(StatementView::Stop(l)), ..c1 };
    assert(parse_step(st, c0) == ParseStep::Next(c1));
    assert(parse_step(st, c1) == ParseStep::Next(d2));
    assert(parse_from(st, d2) == ParseRun::Done(d2.stmts));
    assert(parse_from(st, c1) == parse_from(st, d2));
    assert(parse_from(st, c0) == parse_from(st, c1));
    assert(d2.stmts =~= seq![StatementView::Stop(l)]);
}

/// `<name> <comparison> <variable> <+ or -> <small number>`, for a name that is not a reserved
/// word: an assignment to that name of the two operands joined by the operator read.
pub proof fn lemma_parse_assignment(l: u16, name: Seq<char>, c: TokenCompare, a: Seq<char>, o: TokenMathOp, m: u16)
    requires
        m <= 255,
        name != seq!['I', 'F'],
        name != seq!['G', 'O', 'T', 'O'],
        name != seq!['P', 'R', 'I', 'N', 'T'],
        name != seq!['S', 'T', 'O', 'P'],
    ensures
        parse_spec(
            seq![
                TokenView::Number(l),
                TokenView::Iden(name),
                TokenView::Compare(c),
                TokenView::Iden(a),
                TokenView::MathOp(o),
                TokenView::Number(m),
            ],
        ) == ParseRun::Done(
            seq![
                StatementView::Assign(
                    l,
                    name,
                    ExpView::BinaryMathOp(
                        o,
                        Box::new(ExpView::Term(TermView::Var(a))),
                        Box::new(ExpView::Term(TermView::Number(m as u8))),
                    ),
                ),
            ],
        ),
        parse_spec(seq![TokenView::Number(l), TokenView::Iden(name), TokenView::Compare(c), TokenView::Number(m)])
            == ParseRun::Done(seq![StatementView::Assign(l, name, ExpView::Term(TermView::Number(m as u8)))]),
{
    lemma_reserved_words_exact(name);
    let e = ExpView::BinaryMathOp(
        o,
        Box::new(ExpView::Term(TermView::Var(a))),
        Box::new(ExpView::Term(TermView::Number(m as u8))),
    );
    let tv = seq![
        TokenView::Number(l),
        TokenView::Iden(name),
        TokenView::Compare(c),
        TokenView::Iden(a),
        TokenView::MathOp(o),
        TokenView::Number(m),
    ];
    let c0 = initial_ctx();
    let c1 = ParseCtx { pos: 1, state: ParseState::AfterLineNum, line: Some(l), ..c0 };
    let c2 = ParseCtx { pos: 2, state: ParseState::AssignmentAfterIden, iden: Some(name), ..c1 };
    let c3 = ParseCtx { pos: 3, state: ParseState::AssignmentAfterEqual, ..c2 };
    let c4 = ParseCtx {
        pos: 6,
        state: ParseState::Start,
        line: None,
        iden: None,
        stmts: c3.stmts.push(StatementView::Assign(l, name, e)),
        ..c3
    };
    assert(parse_step(tv, c0) == ParseStep::Next(c1));
    assert(parse_step(tv, c1) == ParseStep::Next(c2));
    assert(parse_step(tv, c2) == ParseStep::Next(c3));
    assert(exp_at(tv, 3) == (6int, Ok::<Option<ExpView>, ParseErrorView>(Some(e))));
    assert(parse_step(tv, c3) == ParseStep::Next(c4));
    assert(parse_from(tv, c4) == ParseRun::Done(c4.stmts));
    assert(parse_from(tv, c3) == parse_from(tv, c4));
    assert(parse_from(tv, c2) == parse_from(tv, c3));
    assert(parse_from(tv, c1) == parse_from(tv, c2));
    assert(parse_from(tv, c0) == parse_from(tv, c1));
    assert(c4.stmts =~= seq![StatementView::Assign(l, name, e)]);

    let sv = seq![TokenView::Number(l), TokenView::Iden(name), TokenView::Compare(c), TokenView::Number(m)];
    let t = ExpView::Term(TermView::Number(m as u8));
    let d4 = ParseCtx {
        pos: 4,
        state: ParseState::Start,
        line: None,
        iden: None,
        stmts: c3.stmts.push(StatementView::Assign(l, name, t)),
        ..c3
    };
    assert(parse_step(sv, c0) == ParseStep::Next(c1));
    assert(parse_step(sv, c1) == ParseStep::Next(c2));
    assert(parse_step(sv, c2) == ParseStep::Next(c3));
    assert(exp_at(sv, 3) == (4int, Ok::<Option<ExpView>, ParseErrorView>(Some(t))));
    assert(parse_step(sv, c3) == ParseStep::Next(d4));
    assert(parse_from(sv, d4) == ParseRun::Done(d4.stmts));
    assert(parse_from(sv, c3) == parse_from(sv, d4));
    assert(parse_from(sv, c2) == parse_from(sv, c3));
    assert(parse_from(sv, c1) == parse_from(sv, c2));
    assert(parse_from(sv, c0) == parse_from(sv, c1));
    assert(d4.stmts =~= seq![StatementView::Assign(l, name, t)]);
}

/// After a complete `IF` condition, a token that is neither a number nor a line end is
/// reported as the missing line number.
pub proof fn lemma_parse_if_needs_target(l: u16, a: Seq<char>, op: TokenCompare, m: u16, t: TokenView)
    requires
        m <= 255,
        !(t is Number),
        !(t is EndOfLine),
    ensures
        parse_spec(
            seq![
                TokenView::Number(l),
                TokenView::Iden(seq!['I', 'F']),
                TokenView::Iden(a),
                TokenView::Compare(op),
                TokenView::Number(m),
                t,
            ],
        ) == ParseRun::Fail(ParseErrorView::ExpectLineNumber(t)),
{
    let tv = seq![
        TokenView::Number(l),
        TokenView::Iden(seq!['I', 'F']),
        TokenView::Iden(a),
        TokenView::Compare(op),
        TokenView::Number(m),
        t,
    ];
    lemma_reserved_words_exact(seq!['I', 'F']);
    let cv = CondView {
        op,
        left: ExpView::Term(TermView::Var(a)),
        right: ExpView::Term(TermView::Number(m as u8)),
    };
    let c0 = initial_ctx();
    let c1 = ParseCtx { pos: 1, state: ParseState::AfterLineNum, line: Some(l), ..c0 };
    let c2 = ParseCtx { pos: 2, state: ParseState::AfterIf, ..c1 };
    let c3 = ParseCtx { pos: 5, state: ParseState::IfAfterCond, cond: Some(cv), ..c2 };
    assert(parse_step(tv, c0) == ParseStep::Next(c1));
    assert(parse_step(tv, c1) == ParseStep::Next(c2));
    assert(cond_at(tv, 2) == (5int, Ok::<Option<CondView>, ParseErrorView>(Some(cv))));
    assert(parse_step(tv, c2) == ParseStep::Next(c3));
    assert(parse_step(tv, c3) == ParseStep::Fail(ParseErrorView::ExpectLineNumber(t)));
    assert(parse_from(tv, c2) == parse_from(tv, c3));
    assert(parse_from(tv, c1) == parse_from(tv, c2));
    assert(parse_from(tv, c0) == parse_from(tv, c1));
}

/// A step that continues from `c` to `c2` leaves the rest of the run unchanged.
proof fn lemma_run_next(tv: Seq<TokenView>, c: ParseCtx, c2: ParseCtx)
    requires
        0 <= c.pos < tv.len(),
        parse_step(tv, c) == ParseStep::Next(c2),
        c.pos < c2.pos,
    ensures
        parse_from(tv, c) == parse_from(tv, c2),
{
}

/// Line ends between statements are skipped, and input that ends in the middle of a statement
/// gives the statements finished before it.
pub proof fn lemma_parse_line_ends_and_truncation(l: u16, name: Seq<char>, c: TokenCompare)
    requires
        name != seq!['I', 'F'],
        name != seq!['G', 'O', 'T', 'O'],
        name != seq!['P', 'R', 'I', 'N', 'T'],
        name != seq!['S', 'T', 'O', 'P'],
    ensures
        parse_spec(Seq::<TokenView>::empty()) == ParseRun::Done(Seq::<StatementView>::empty()),
        parse_spec(seq![TokenView::EndOfLine, TokenView::Number(l), TokenView::Iden(seq!['S', 'T', 'O', 'P']), TokenView::EndOfLine])
            == ParseRun::Done(seq![StatementView::Stop(l)]),
        parse_spec(seq![TokenView::Number(l)]) == ParseRun::Done(Seq::<StatementView>::empty()),
        parse_spec(seq![TokenView::Number(l), TokenView::Iden(name), TokenView::Compare(c)]) == ParseRun::Done(
            Seq::<StatementView>::empty(),
        ),
{
    lemma_reserved_words_exact(name);
    lemma_reserved_words_exact(seq!['S', 'T', 'O', 'P']);
    let c0 = initial_ctx();
    let tv = seq![TokenView::EndOfLine, TokenView::Number(l), TokenView::Iden(seq!['S', 'T', 'O', 'P']), TokenView::EndOfLine];
    let a1 = ParseCtx { pos: 1, ..c0 };
    let a2 = ParseCtx { pos: 2, state: ParseState::AfterLineNum, line: Some(l), ..a1 };
    let a3 = ParseCtx { pos: 3, state: ParseState::Start, stmts: a2.stmts.push(StatementView::Stop(l)), ..a2 };
    let a4 = ParseCtx { pos: 4, ..a3 };
    lemma_run_next(tv, c0, a1);
    lemma_run_next(tv, a1, a2);
    lemma_run_next(tv, a2, a3);
    lemma_run_next(tv, a3, a4);
    assert(parse_from(tv, a4) == ParseRun::Done(a4.stmts));
    assert(a4.stmts =~= seq![StatementView::Stop(l)]);

    let one = seq![TokenView::Number(l)];
    let b1 = ParseCtx { pos: 1, state: ParseState::AfterLineNum, line: Some(l), ..c0 };
    lemma_run_next(one, c0, b1);

    let part = seq![TokenView::Number(l), TokenView::Iden(name), TokenView::Compare(c)];
    let d2 = ParseCtx { pos: 2, state: ParseState::AssignmentAfterIden, iden: Some(name), ..b1 };
    let d3 = ParseCtx { pos: 3, state: ParseState::AssignmentAfterEqual, ..d2 };
    lemma_run_next(part, c0, b1);
    lemma_run_next(part, b1, d2);
    lemma_run_next(part, d2, d3);
}

/// A statement must begin with a number, and a line may not end inside a statement.
pub proof fn lemma_parse_statement_start_errors(l: u16, t: TokenView)
    requires
        !(t is Number),
        !(t is EndOfLine),
    ensures
        parse_spec(seq![t]) == ParseRun::Fail(ParseErrorView::UnexpectedSym(t, Terminal::Number)),
        parse_spec(seq![TokenView::Number(l), TokenView::Iden(seq!['P', 'R', 'I', 'N', 'T']), TokenView::EndOfLine])
            == ParseRun::Fail(ParseErrorView::UnexpectedSym(TokenView::EndOfLine, Terminal::Identifier)),
{
    lemma_reserved_words_exact(seq!['P', 'R', 'I', 'N', 'T']);
    let c0 = initial_ctx();
    let tv = seq![TokenView::Number(l), TokenView::Iden(seq!['P', 'R', 'I', 'N', 'T']), TokenView::EndOfLine];
    let c1 = ParseCtx { pos: 1, state: ParseState::AfterLineNum, line: Some(l), ..c0 };
    let c2 = ParseCtx { pos: 2, state: ParseState::AfterPrint, ..c1 };
    lemma_run_next(tv, c0, c1);
    lemma_run_next(tv, c1, c2);
}

/// `PRINT` must be followed by a variable and `GOTO` by a number; the offending token is
/// reported.
pub proof fn lemma_parse_print_goto_errors(l: u16, t: TokenView)
    requires
        !(t is EndOfLine),
    ensures
        !(t is Iden) ==> parse_spec(seq![TokenView::Number(l), TokenView::Iden(seq!['P', 'R', 'I', 'N', 'T']), t])
            == ParseRun::Fail(ParseErrorView::UnexpectedSym(t, Terminal::Identifier)),
        !(t is Number) ==> parse_spec(seq![TokenView::Number(l), TokenView::Iden(seq!['G', 'O', 'T', 'O']), t])
            == ParseRun::Fail(ParseErrorView::ExpectLineNumber(t)),
{
    lemma_reserved_words_exact(seq!['P', 'R', 'I', 'N', 'T']);
    lemma_reserved_words_exact(seq!['G', 'O', 'T', 'O']);
    let c0 = initial_ctx();
    let c1 = ParseCtx { pos: 1, state: ParseState::AfterLineNum, line: Some(l), ..c0 };
    let p = seq![TokenView::Number(l), TokenView::Iden(seq!['P', 'R', 'I', 'N', 'T']), t];
    lemma_run_next(p, c0, c1);
    lemma_run_next(p, c1, ParseCtx { pos: 2, state: ParseState::AfterPrint, ..c1 });
    let g = seq![TokenView::Number(l), TokenView::Iden(seq!['G', 'O', 'T', 'O']), t];
    lemma_run_next(g, c0, c1);
    lemma_run_next(g, c1, ParseCtx { pos: 2, state: ParseState::AfterGoto, ..c1 });
}

/// An assignment needs a comparison after the name, and then an operand; an expression may not
/// end right after its operator, nor have a non-operand after it.
pub proof fn lemma_parse_assignment_errors(l: u16, name: Seq<char>, c: TokenCompare, m: u16, o: TokenMathOp, t: TokenView)
    requires
        name != seq!['I', 'F'],
        name != seq!['G', 'O', 'T', 'O'],
        name != seq!['P', 'R', 'I', 'N', 'T'],
        name != seq!['S', 'T', 'O', 'P'],
        m <= 255,
        !(t is EndOfLine),
    ensures
        !(t is Compare) ==> parse_spec(seq![TokenView::Number(l), TokenView::Iden(name), t]) == ParseRun::Fail(
            ParseErrorView::UnexpectedSym(t, Terminal::Equal),
        ),
        !is_operand(t) ==> parse_spec(seq![TokenView::Number(l), TokenView::Iden(name), TokenView::Compare(c), t])
            == ParseRun::Fail(ParseErrorView::ExpectMismatch(Terminal::Expression)),
        parse_spec(seq![TokenView::Number(l), TokenView::Iden(name), TokenView::Compare(c), TokenView::Number(m), TokenView::MathOp(o)])
            == ParseRun::Fail(ParseErrorView::UnexpectedEndOfInput),
        !is_operand(t) ==> parse_spec(
            seq![TokenView::Number(l), TokenView::Iden(name), TokenView::Compare(c), TokenView::Number(m), TokenView::MathOp(o), t],
        ) == ParseRun::Fail(ParseErrorView::UnexpectedSym(t, Terminal::Expression)),
{
    lemma_reserved_words_exact(name);
    let c0 = initial_ctx();
    let c1 = ParseCtx { pos: 1, state: ParseState::AfterLineNum, line: Some(l), ..c0 };
    let c2 = ParseCtx { pos: 2, state: ParseState::AssignmentAfterIden, iden: Some(name), ..c1 };
    let c3 = ParseCtx { pos: 3, state: ParseState::AssignmentAfterEqual, ..c2 };
    let a = seq![TokenView::Number(l), TokenView::Iden(name), t];
    lemma_run_next(a, c0, c1);
    lemma_run_next(a, c1, c2);
    let b = seq![TokenView::Number(l), TokenView::Iden(name), TokenView::Compare(c), t];
    lemma_run_next(b, c0, c1);
    lemma_run_next(b, c1, c2);
    lemma_run_next(b, c2, c3);
    let d = seq![TokenView::Number(l), TokenView::Iden(name), TokenView::Compare(c), TokenView::Number(m), TokenView::MathOp(o)];
    lemma_run_next(d, c0, c1);
    lemma_run_next(d, c1, c2);
    lemma_run_next(d, c2, c3);
    let e = seq![TokenView::Number(l), TokenView::Iden(name), TokenView::Compare(c), TokenView::Number(m), TokenView::MathOp(o), t];
    lemma_run_next(e, c0, c1);
    lemma_run_next(e, c1, c2);
    lemma_run_next(e, c2, c3);
}

/// `IF` needs a comparison after its first operand; a token other than a variable or an
/// identifier right after a line number makes the parser loop for ever.
pub proof fn lemma_parse_if_condition_error_and_hang(l: u16, a: Seq<char>, m: u16, t: TokenView)
    requires
        !(t is EndOfLine),
        !(t is Compare),
    ensures
        parse_spec(seq![TokenView::Number(l), TokenView::Iden(seq!['I', 'F']), TokenView::Iden(a), t]) == ParseRun::Fail(
            ParseErrorView::ExpectMismatch(Terminal::BooleanExpression),
        ),
        !(t is Iden) ==> parse_spec(seq![TokenView::Number(l), t]) is Hang,
{
    lemma_reserved_words_exact(seq!['I', 'F']);
    let c0 = initial_ctx();
    let c1 = ParseCtx { pos: 1, state: ParseState::AfterLineNum, line: Some(l), ..c0 };
    let tv = seq![TokenView::Number(l), TokenView::Iden(seq!['I', 'F']), TokenView::Iden(a), t];
    lemma_run_next(tv, c0, c1);
    lemma_run_next(tv, c1, ParseCtx { pos: 2, state: ParseState::AfterIf, ..c1 });
    let h = seq![TokenView::Number(l), t];
    lemma_run_next(h, c0, c1);
}

/// The token right after a `GOTO` target is skipped whatever it is: a number there is not
/// read as the next line number, so the statement after it is refused.
pub proof fn lemma_parse_goto_skips_next_token(l: u16, n: u16, l2: u16)
    ensures
        parse_spec(
            seq![
                TokenView::Number(l),
                TokenView::Iden(seq!['G', 'O', 'T', 'O']),
                TokenView::Number(n),
                TokenView::Number(l2),
                TokenView::Iden(seq!['S', 'T', 'O', 'P']),
            ],
        ) == ParseRun::Fail(ParseErrorView::UnexpectedSym(TokenView::Iden(seq!['S', 'T', 'O', 'P']), Terminal::Number)),
{
    lemma_reserved_words_exact(seq!['G', 'O', 'T', 'O']);
    let tv = seq![
        TokenView::Number(l),
        TokenView::Iden(seq!['G', 'O', 'T', 'O']),
        TokenView::Number(n),
        TokenView::Number(l2),
        TokenView::Iden(seq!['S', 'T', 'O', 'P']),
    ];
    let c0 = initial_ctx();
    let c1 = ParseCtx { pos: 1, state: ParseState::AfterLineNum, line: Some(l), ..c0 };
    let c2 = ParseCtx { pos: 2, state: ParseState::AfterGoto, ..c1 };
    let c3 = ParseCtx {
        pos: 4,
        state: ParseState::Start,
        line: None,
        stmts: c2.stmts.push(StatementView::Goto(l, n)),
        ..c2
    };
    lemma_run_next(tv, c0, c1);
    lemma_run_next(tv, c1, c2);
    lemma_run_next(tv, c2, c3);
}

} // verus!
