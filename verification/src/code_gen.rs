use vstd::prelude::*;
use vstd::utf8::*;

use crate::parser::{exp_names_scanned, stmt_names_scanned, stmts_names_scanned, CondNode, CondView, ExpNode, ExpView, StatementNode, StatementView, Term, TermView, statements_view};
use crate::scanner::is_scanned_name;
use crate::text::{decimal, decimal_string, join_with_spaces, join_words, strings_view};
use crate::token::{TokenCompare, TokenMathOp};

verus! {

/// The instructions of the bytecode, each written as its number.
#[derive(Debug, Clone, Copy, PartialEq, Eq, Structural)]
enum BCodeIns {
    LineNum,
    Id,
    Const,
    If,
    Goto,
    Print,
    Stop,
    Op,
}

spec fn ins_code(i: BCodeIns) -> nat {
    match i {
        BCodeIns::LineNum => 10,
        BCodeIns::Id => 11,
        BCodeIns::Const => 12,
        BCodeIns::If => 13,
        BCodeIns::Goto => 14,
        BCodeIns::Print => 15,
        BCodeIns::Stop => 16,
        BCodeIns::Op => 17,
    }
}

fn ins_number(i: BCodeIns) -> (n: u32)
    ensures
        n == ins_code(i),
{
    match i {
        BCodeIns::LineNum => 10,
        BCodeIns::Id => 11,
        BCodeIns::Const => 12,
        BCodeIns::If => 13,
        BCodeIns::Goto => 14,
        BCodeIns::Print => 15,
        BCodeIns::Stop => 16,
        BCodeIns::Op => 17,
    }
}

/// The operators of the bytecode.
#[derive(Debug, Clone, Copy, PartialEq, Eq, Structural)]
pub enum OpCode {
    Add,
    Sub,
    LessThan,
    Equal,
}

/// The number that stands for each operator.
pub open spec fn op_code(op: OpCode) -> nat {
    match op {
        OpCode::Add => 1,
        OpCode::Sub => 2,
        OpCode::LessThan => 3,
        OpCode::Equal => 4,
    }
}

fn op_number(op: OpCode) -> (n: u32)
    ensures
        n == op_code(op),
{
    match op {
        OpCode::Add => 1,
        OpCode::Sub => 2,
        OpCode::LessThan => 3,
        OpCode::Equal => 4,
    }
}

/// The bytecode operator for an arithmetic operator.
pub open spec fn math_op_code(op: TokenMathOp) -> OpCode {
    match op {
        TokenMathOp::Add => OpCode::Add,
        TokenMathOp::Sub => OpCode::Sub,
    }
}

/// Why code generation refused a program.
#[derive(Debug, PartialEq, Eq)]
pub enum CodeGenError {
    InvalidIdentifier(String),
    InvalidOp(TokenCompare),
}

/// The model of a [`CodeGenError`].
pub enum CodeGenErrorView {
    InvalidIdentifier(Seq<char>),
    InvalidOp(TokenCompare),
}

impl View for CodeGenError {
    type V = CodeGenErrorView;

    open spec fn view(&self) -> CodeGenErrorView {
        match self {
            CodeGenError::InvalidIdentifier(s) => CodeGenErrorView::InvalidIdentifier(s@),
            CodeGenError::InvalidOp(op) => CodeGenErrorView::InvalidOp(*op),
        }
    }
}

/// What generating code for part of a program does: the words it emits, or the words
/// emitted before it stopped with an error, or a step that stops the program (an
/// arithmetic overflow).
pub enum Emit {
    Done(Seq<Seq<char>>),
    Fail(Seq<Seq<char>>, CodeGenErrorView),
    Trap,
}

/// `a`, and then `b` if `a` completed.
pub open spec fn then(a: Emit, b: Emit) -> Emit {
    match a {
        Emit::Done(w1) => match b {
            Emit::Done(w2) => Emit::Done(w1 + w2),
            Emit::Fail(w2, e) => Emit::Fail(w1 + w2, e),
            Emit::Trap => Emit::Trap,
        },
        _ => a,
    }
}

/// An instruction word followed by its argument.
pub open spec fn pair(ins: nat, arg: nat) -> Emit {
    Emit::Done(seq![decimal(ins), decimal(arg)])
}

/// A variable is written as `11` and its letter's position counted from `A` as 1; it must be
/// exactly one byte long.
pub open spec fn iden_emit(s: Seq<char>) -> Emit {
    if encode_utf8(s).len() != 1 {
        Emit::Fail(seq![], CodeGenErrorView::InvalidIdentifier(s))
    } else if (s[0] as u32) < 65 {
        Emit::Trap
    } else {
        pair(11, ((s[0] as u32) - 64) as nat)
    }
}

pub open spec fn exp_emit(e: ExpView) -> Emit
    decreases e,
{
    match e {
        ExpView::Term(TermView::Var(s)) => iden_emit(s),
        ExpView::Term(TermView::Number(n)) => pair(12, n as nat),
        ExpView::BinaryMathOp(op, l, r) => then(
            exp_emit(*l),
            then(pair(17, op_code(math_op_code(op))), exp_emit(*r)),
        ),
    }
}

pub open spec fn cond_emit(c: CondView) -> Emit {
    match c.op {
        TokenCompare::MoreThan => Emit::Fail(seq![], CodeGenErrorView::InvalidOp(TokenCompare::MoreThan)),
        _ => then(
            exp_emit(c.left),
            then(
                pair(17, if c.op == TokenCompare::Equal { 4 } else { 3 }),
                exp_emit(c.right),
            ),
        ),
    }
}

pub open spec fn stmt_emit(s: StatementView) -> Emit {
    match s {
        StatementView::Assign(l, name, e) => then(
            pair(10, l as nat),
            then(iden_emit(name), then(pair(17, 4), exp_emit(e))),
        ),
        StatementView::If(l, c, j) => then(
            pair(10, l as nat),
            then(Emit::Done(seq![decimal(13)]), then(cond_emit(c), pair(14, j as nat))),
        ),
        StatementView::Goto(l, j) => then(pair(10, l as nat), pair(14, j as nat)),
        StatementView::Print(l, v) => then(pair(10, l as nat), Emit::Done(seq![decimal(15), v])),
        StatementView::Stop(l) => then(pair(10, l as nat), Emit::Done(seq![decimal(16)])),
    }
}

/// The statements' code, in order, up to the first error.
pub open spec fn program_emit(stmts: Seq<StatementView>) -> Emit
    decreases stmts.len(),
{
    if stmts.len() == 0 {
        Emit::Done(seq![])
    } else {
        then(stmt_emit(stmts[0]), program_emit(stmts.drop_first()))
    }
}

/// What a code-emitting call did to `out` and returned, as `e` describes.
pub open spec fn emitted(e: Emit, before: Seq<String>, after: Seq<String>, res: Result<(), CodeGenError>) -> bool {
    match e {
        Emit::Done(w) => res is Ok && strings_view(after) == strings_view(before) + w,
        Emit::Fail(w, err) => (res matches Err(x) && x@ == err) && strings_view(after) == strings_view(
            before,
        ) + w,
        Emit::Trap => false,
    }
}

/// Sequencing is associative.
pub proof fn lemma_then_assoc(a: Emit, b: Emit, c: Emit)
    ensures
        then(a, then(b, c)) == then(then(a, b), c),
{
    if let Emit::Done(w1) = a {
        if let Emit::Done(w2) = b {
            match c {
                Emit::Done(w3) => {
                    assert(w1 + (w2 + w3) =~= (w1 + w2) + w3);
                },
                Emit::Fail(w3, e) => {
                    assert(w1 + (w2 + w3) =~= (w1 + w2) + w3);
                },
                Emit::Trap => {},
            }
        }
    }
}

fn push_number(out: &mut Vec<String>, n: u32)
    ensures
        strings_view(final(out)@) == strings_view(old(out)@).push(decimal(n as nat)),
{
    let ghost before = out@;
    out.push(decimal_string(n));
    assert(strings_view(out@) =~= strings_view(before).push(decimal(n as nat)));
}

fn add_line(out: &mut Vec<String>, line: u16)
    ensures
        strings_view(final(out)@) == strings_view(old(out)@) + seq![decimal(10), decimal(line as nat)],
{
    let ghost before = strings_view(out@);
    push_number(out, ins_number(BCodeIns::LineNum));
    push_number(out, line as u32);
    assert(strings_view(out@) =~= before + seq![decimal(10), decimal(line as nat)]);
}

proof fn lemma_encode_utf8_len(s: Seq<char>)
    ensures
        encode_utf8(s).len() >= s.len(),
    decreases s.len(),
{
    if s.len() > 0 {
        lemma_encode_utf8_len(s.drop_first());
    }
}

/// A text whose UTF-8 encoding is a single byte is a single ASCII character, and that byte
/// is the character's code.
proof fn lemma_single_byte(s: Seq<char>)
    requires
        encode_utf8(s).len() == 1,
    ensures
        s.len() == 1,
        (s[0] as u32) < 128,
        encode_utf8(s)[0] as u32 == s[0] as u32,
{
    lemma_encode_utf8_len(s);
    if s.len() == 0 {
        assert(false);
    }
    lemma_encode_utf8_len(s.drop_first());
    let c: u32 = s[0] as u32;
    assert(encode_scalar(c).len() >= 1);
    assert(encode_utf8(s.drop_first()).len() == 0);
    assert(has_width_1_encoding(c));
    assert(c <= 0x7F ==> ((c & 0x7F) as u8) as u32 == c) by (bit_vector);
}

fn add_iden(out: &mut Vec<String>, iden: String) -> (res: Result<(), CodeGenError>)
    requires
        !(iden_emit(iden@) is Trap),
    ensures
        emitted(iden_emit(iden@), old(out)@, final(out)@, res),
{
    let ghost before = strings_view(out@);
    let single = {
        let bytes = iden.as_str().as_bytes();
        if bytes.len() == 1 {
            Some(bytes[0])
        } else {
            None
        }
    };
    match single {
        None => {
            assert(strings_view(out@) =~= before + seq![]);
            Err(CodeGenError::InvalidIdentifier(iden))
        },
        Some(b) => {
            proof {
                lemma_single_byte(iden@);
            }
            push_number(out, ins_number(BCodeIns::Id));
            push_number(out, (b as u32) - 65 + 1);
            assert(strings_view(out@) =~= before + seq![decimal(11), decimal(((iden@[0] as u32) - 64) as nat)]);
            Ok(())
        },
    }
}

fn add_op(out: &mut Vec<String>, op: OpCode) -> (res: Result<(), CodeGenError>)
    ensures
        res is Ok,
        strings_view(final(out)@) == strings_view(old(out)@) + seq![decimal(17), decimal(op_code(op))],
{
    let ghost before = strings_view(out@);
    push_number(out, ins_number(BCodeIns::Op));
    push_number(out, op_number(op));
    assert(strings_view(out@) =~= before + seq![decimal(17), decimal(op_code(op))]);
    Ok(())
}

fn add_goto(out: &mut Vec<String>, jump: u16)
    ensures
        strings_view(final(out)@) == strings_view(old(out)@) + seq![decimal(14), decimal(jump as nat)],
{
    let ghost before = strings_view(out@);
    push_number(out, ins_number(BCodeIns::Goto));
    push_number(out, jump as u32);
    assert(strings_view(out@) =~= before + seq![decimal(14), decimal(jump as nat)]);
}

fn add_const(out: &mut Vec<String>, val: u8)
    ensures
        strings_view(final(out)@) == strings_view(old(out)@) + seq![decimal(12), decimal(val as nat)],
{
    let ghost before = strings_view(out@);
    push_number(out, ins_number(BCodeIns::Const));
    push_number(out, val as u32);
    assert(strings_view(out@) =~= before + seq![decimal(12), decimal(val as nat)]);
}

proof fn lemma_emitted_then_ok(
    a: Emit,
    b: Emit,
    o0: Seq<String>,
    o1: Seq<String>,
    o2: Seq<String>,
    r1: Result<(), CodeGenError>,
    r2: Result<(), CodeGenError>,
)
    requires
        emitted(a, o0, o1, r1),
        r1 is Ok,
        emitted(b, o1, o2, r2),
    ensures
        emitted(then(a, b), o0, o2, r2),
{
    if let Emit::Done(w1) = a {
        match b {
            Emit::Done(w2) => {
                assert(strings_view(o0) + (w1 + w2) =~= (strings_view(o0) + w1) + w2);
            },
            Emit::Fail(w2, e) => {
                assert(strings_view(o0) + (w1 + w2) =~= (strings_view(o0) + w1) + w2);
            },
            Emit::Trap => {},
        }
    }
}

proof fn lemma_emitted_then_err(a: Emit, b: Emit, o0: Seq<String>, o1: Seq<String>, r1: Result<(), CodeGenError>)
    requires
        emitted(a, o0, o1, r1),
        r1 is Err,
    ensures
        emitted(then(a, b), o0, o1, r1),
{
}

proof fn lemma_emitted_done(w: Seq<Seq<char>>, o0: Seq<String>, o1: Seq<String>)
    requires
        strings_view(o1) == strings_view(o0) + w,
    ensures
        emitted(Emit::Done(w), o0, o1, Ok(())),
{
}

fn add_exp_node(out: &mut Vec<String>, exp: &ExpNode) -> (res: Result<(), CodeGenError>)
    requires
        !(exp_emit(exp@) is Trap),
    ensures
        emitted(exp_emit(exp@), old(out)@, final(out)@, res),
    decreases exp,
{
    let ghost o0 = out@;
    match exp {
        ExpNode::Term(Term::Var(term)) => {
            add_iden(out, term.clone())
        },
        ExpNode::Term(Term::Number(num)) => {
            add_const(out, *num);
            Ok(())
        },
        ExpNode::BinaryMathOp(b) => {
            let ghost l = exp_emit((*b.left)@);
            let ghost o = pair(17, op_code(math_op_code(b.op)));
            let ghost r = exp_emit((*b.right)@);
            assert(exp_emit(exp@) == then(l, then(o, r)));
            let r1 = add_exp_node(out, &b.left);
            if r1.is_err() {
                proof {
                    lemma_emitted_then_err(l, then(o, r), o0, out@, r1);
                }
                return r1;
            }
            let ghost o1 = out@;
            let op = match b.op {
                TokenMathOp::Add => OpCode::Add,
                TokenMathOp::Sub => OpCode::Sub,
            };
            let r2 = add_op(out, op);
            let ghost o2 = out@;
            let r3 = add_exp_node(out, &b.right);
            proof {
                lemma_emitted_then_ok(o, r, o1, o2, out@, r2, r3);
                lemma_emitted_then_ok(l, then(o, r), o0, o1, out@, r1, r3);
            }
            r3
        },
    }
}

fn add_cond_node(out: &mut Vec<String>, cond: &CondNode) -> (res: Result<(), CodeGenError>)
    requires
        !(cond_emit(cond@) is Trap),
    ensures
        emitted(cond_emit(cond@), old(out)@, final(out)@, res),
{
    let ghost o0 = out@;
    let op;
    match cond.op {
        TokenCompare::Equal => {
            op = OpCode::Equal;
        },
        TokenCompare::MoreThan => {
            assert(strings_view(out@) =~= strings_view(o0) + seq![]);
            return Err(CodeGenError::InvalidOp(TokenCompare::MoreThan));
        },
        TokenCompare::LessThan => {
            op = OpCode::LessThan;
        },
    };
    let ghost l = exp_emit(cond.left@);
    let ghost o = pair(17, if cond.op == TokenCompare::Equal { 4 } else { 3 });
    let ghost r = exp_emit(cond.right@);
    let r1 = add_exp_node(out, &cond.left);
    if r1.is_err() {
        proof {
            lemma_emitted_then_err(l, then(o, r), o0, out@, r1);
        }
        return r1;
    }
    let ghost o1 = out@;
    let r2 = add_op(out, op);
    let ghost o2 = out@;
    let r3 = add_exp_node(out, &cond.right);
    proof {
        lemma_emitted_then_ok(o, r, o1, o2, out@, r2, r3);
        lemma_emitted_then_ok(l, then(o, r), o0, o1, out@, r1, r3);
    }
    r3
}

/// Emits the code of one statement.
fn add_statement(out: &mut Vec<String>, stmt: &StatementNode) -> (res: Result<(), CodeGenError>)
    requires
        !(stmt_emit(stmt@) is Trap),
    ensures
        emitted(stmt_emit(stmt@), old(out)@, final(out)@, res),
{
    let ghost o0 = out@;
    match stmt {
        StatementNode::Assign(line, iden, val) => {
            let ghost a = pair(10, *line as nat);
            let ghost b = iden_emit(iden@);
            let ghost c = pair(17, 4);
            let ghost d = exp_emit(val@);
            add_line(out, *line);
            let ghost o1 = out@;
            proof {
                lemma_emitted_done(seq![decimal(10), decimal(*line as nat)], o0, o1);
            }
            let r2 = add_iden(out, iden.clone());
            if r2.is_err() {
                proof {
                    lemma_emitted_then_err(b, then(c, d), o1, out@, r2);
                    lemma_emitted_then_ok(a, then(b, then(c, d)), o0, o1, out@, Ok(()), r2);
                }
                return r2;
            }
            let ghost o2 = out@;
            let r3 = add_op(out, OpCode::Equal);
            let ghost o3 = out@;
            let r4 = add_exp_node(out, val);
            proof {
                lemma_emitted_then_ok(c, d, o2, o3, out@, r3, r4);
                lemma_emitted_then_ok(b, then(c, d), o1, o2, out@, r2, r4);
                lemma_emitted_then_ok(a, then(b, then(c, d)), o0, o1, out@, Ok(()), r4);
            }
            r4
        },
        StatementNode::If(line, cond, jump) => {
            let ghost a = pair(10, *line as nat);
            let ghost b = Emit::Done(seq![decimal(13)]);
            let ghost c = cond_emit(cond@);
            let ghost d = pair(14, *jump as nat);
            add_line(out, *line);
            let ghost o1 = out@;
            push_number(out, ins_number(BCodeIns::If));
            let ghost o2 = out@;
            proof {
                lemma_emitted_done(seq![decimal(10), decimal(*line as nat)], o0, o1);
                assert(strings_view(o2) =~= strings_view(o1) + seq![decimal(13)]);
                lemma_emitted_done(seq![decimal(13)], o1, o2);
            }
            let r3 = add_cond_node(out, cond);
            if r3.is_err() {
                proof {
                    lemma_emitted_then_err(c, d, o2, out@, r3);
                    lemma_emitted_then_ok(b, then(c, d), o1, o2, out@, Ok(()), r3);
                    lemma_emitted_then_ok(a, then(b, then(c, d)), o0, o1, out@, Ok(()), r3);
                }
                return r3;
            }
            let ghost o3 = out@;
            add_goto(out, *jump);
            proof {
                lemma_emitted_done(seq![decimal(14), decimal(*jump as nat)], o3, out@);
                lemma_emitted_then_ok(c, d, o2, o3, out@, r3, Ok(()));
                lemma_emitted_then_ok(b, then(c, d), o1, o2, out@, Ok(()), Ok(()));
                lemma_emitted_then_ok(a, then(b, then(c, d)), o0, o1, out@, Ok(()), Ok(()));
            }
            Ok(())
        },
        StatementNode::Goto(line, jump) => {
            add_line(out, *line);
            let ghost o1 = out@;
            add_goto(out, *jump);
            proof {
                lemma_emitted_done(seq![decimal(10), decimal(*line as nat)], o0, o1);
                lemma_emitted_done(seq![decimal(14), decimal(*jump as nat)], o1, out@);
                lemma_emitted_then_ok(pair(10, *line as nat), pair(14, *jump as nat), o0, o1, out@, Ok(()), Ok(()));
            }
            Ok(())
        },
        StatementNode::Print(line, var) => {
            add_line(out, *line);
            let ghost o1 = out@;
            push_number(out, ins_number(BCodeIns::Print));
            let ghost o2 = out@;
            let name = var.clone();
            assert(name@ == var@);
            out.push(name);
            proof {
                assert(strings_view(o2) =~= strings_view(o1).push(decimal(15)));
                assert(strings_view(out@) =~= strings_view(o2).push(var@));
                lemma_emitted_done(seq![decimal(10), decimal(*line as nat)], o0, o1);
                assert(strings_view(out@) =~= strings_view(o1) + seq![decimal(15), var@]);
                lemma_emitted_done(seq![decimal(15), var@], o1, out@);
                lemma_emitted_then_ok(pair(10, *line as nat), Emit::Done(seq![decimal(15), var@]), o0, o1, out@, Ok(()), Ok(()));
            }
            Ok(())
        },
        StatementNode::Stop(line) => {
            add_line(out, *line);
            let ghost o1 = out@;
            push_number(out, ins_number(BCodeIns::Stop));
            proof {
                lemma_emitted_done(seq![decimal(10), decimal(*line as nat)], o0, o1);
                assert(strings_view(out@) =~= strings_view(o1) + seq![decimal(16)]);
                lemma_emitted_done(seq![decimal(16)], o1, out@);
                lemma_emitted_then_ok(pair(10, *line as nat), Emit::Done(seq![decimal(16)]), o0, o1, out@, Ok(()), Ok(()));
            }
            Ok(())
        },
    }
}

/// Generates the bytecode of a program as decimal numbers separated by single spaces,
/// closed by `0`; the first error stops it.
pub fn generate(tree: Vec<StatementNode>) -> (res: Result<String, CodeGenError>)
    requires
        !(program_emit(statements_view(tree@)) is Trap),
    ensures
        match program_emit(statements_view(tree@)) {
            Emit::Done(w) => res matches Ok(code) && code@ == join_words(w.push(seq!['0'])),
            Emit::Fail(_, e) => res matches Err(err) && err@ == e,
            Emit::Trap => false,
        },
{
    let ghost sv = statements_view(tree@);
    let mut out: Vec<String> = Vec::new();
    let mut i: usize = 0;
    assert(sv.skip(0) =~= sv);
    assert(strings_view(out@) =~= seq![]);
    assert(then(Emit::Done(seq![]), program_emit(sv)) == program_emit(sv)) by {
        if let Emit::Done(w) = program_emit(sv) {
            assert(seq![] + w =~= w);
        }
        if let Emit::Fail(w, e) = program_emit(sv) {
            assert(seq![] + w =~= w);
        }
    }
    while i < tree.len()
        invariant
            i <= tree.len(),
            sv == statements_view(tree@),
            !(program_emit(sv) is Trap),
            program_emit(sv) == then(Emit::Done(strings_view(out@)), program_emit(sv.skip(i as int))),
        decreases tree.len() - i,
    {
        let ghost o0 = out@;
        let ghost st = stmt_emit(sv[i as int]);
        let ghost rest = program_emit(sv.skip(i + 1));
        assert(sv.skip(i as int).drop_first() =~= sv.skip(i + 1));
        assert(program_emit(sv.skip(i as int)) == then(st, rest));
        proof {
            lemma_then_assoc(Emit::Done(strings_view(o0)), st, rest);
        }
        if let Err(e) = add_statement(&mut out, &tree[i]) {
            return Err(e);
        }
        i += 1;
    }
    assert(sv.skip(i as int) =~= seq![]);
    assert(strings_view(out@) + seq![] =~= strings_view(out@));
    let ghost before = out@;
    proof {
        reveal_strlit("0");
    }
    let end = "0".to_owned();
    assert(end@ =~= seq!['0']);
    out.push(end);
    assert(strings_view(out@) =~= strings_view(before).push(seq!['0']));
    Ok(join_with_spaces(&out))
}

/// The code of two programs placed one after the other is the code of the first followed by
/// the code of the second (and the first's error, where it has one, is the error).
pub proof fn lemma_program_emit_concat(a: Seq<StatementView>, b: Seq<StatementView>)
    ensures
        program_emit(a + b) == then(program_emit(a), program_emit(b)),
    decreases a.len(),
{
    if a.len() == 0 {
        assert(a + b =~= b);
        if let Emit::Done(w) = program_emit(b) {
            assert(seq![] + w =~= w);
        }
        if let Emit::Fail(w, e) = program_emit(b) {
            assert(seq![] + w =~= w);
        }
    } else {
        assert((a + b)[0] == a[0]);
        assert((a + b).drop_first() =~= a.drop_first() + b);
        lemma_program_emit_concat(a.drop_first(), b);
        lemma_then_assoc(stmt_emit(a[0]), program_emit(a.drop_first()), program_emit(b));
    }
}

/// How a piece of code generation ends: it completes, it stops with an error, or it stops
/// the program.
#[derive(Debug, Clone, Copy, PartialEq, Eq, Structural)]
pub enum EmitKind {
    Done,
    Fail,
    Trap,
}

pub open spec fn emit_kind(e: Emit) -> EmitKind {
    match e {
        Emit::Done(_) => EmitKind::Done,
        Emit::Fail(_, _) => EmitKind::Fail,
        Emit::Trap => EmitKind::Trap,
    }
}

proof fn lemma_then_kind(a: Emit, b: Emit)
    ensures
        emit_kind(then(a, b)) == if emit_kind(a) == EmitKind::Done {
            emit_kind(b)
        } else {
            emit_kind(a)
        },
{
}

fn iden_kind(s: &String) -> (k: EmitKind)
    ensures
        k == emit_kind(iden_emit(s@)),
{
    let bytes = s.as_str().as_bytes();
    if bytes.len() != 1 {
        EmitKind::Fail
    } else {
        proof {
            lemma_single_byte(s@);
        }
        if bytes[0] < 65 {
            EmitKind::Trap
        } else {
            EmitKind::Done
        }
    }
}

fn exp_kind(e: &ExpNode) -> (k: EmitKind)
    ensures
        k == emit_kind(exp_emit(e@)),
    decreases e,
{
    match e {
        ExpNode::Term(Term::Var(s)) => iden_kind(s),
        ExpNode::Term(Term::Number(_)) => EmitKind::Done,
        ExpNode::BinaryMathOp(b) => {
            proof {
                let o = pair(17, op_code(math_op_code(b.op)));
                lemma_then_kind(o, exp_emit((*b.right)@));
                lemma_then_kind(exp_emit((*b.left)@), then(o, exp_emit((*b.right)@)));
            }
            let kl = exp_kind(&b.left);
            if kl != EmitKind::Done {
                kl
            } else {
                exp_kind(&b.right)
            }
        },
    }
}

fn cond_kind(c: &CondNode) -> (k: EmitKind)
    ensures
        k == emit_kind(cond_emit(c@)),
{
    if let TokenCompare::MoreThan = c.op {
        return EmitKind::Fail;
    }
    proof {
        let o = pair(17, if c.op == TokenCompare::Equal { 4 } else { 3 });
        lemma_then_kind(o, exp_emit(c.right@));
        lemma_then_kind(exp_emit(c.left@), then(o, exp_emit(c.right@)));
    }
    let kl = exp_kind(&c.left);
    if kl != EmitKind::Done {
        kl
    } else {
        exp_kind(&c.right)
    }
}

fn statement_kind(s: &StatementNode) -> (k: EmitKind)
    ensures
        k == emit_kind(stmt_emit(s@)),
{
    match s {
        StatementNode::Assign(line, iden, val) => {
            proof {
                let c = pair(17, 4);
                lemma_then_kind(c, exp_emit(val@));
                lemma_then_kind(iden_emit(iden@), then(c, exp_emit(val@)));
                lemma_then_kind(pair(10, *line as nat), then(iden_emit(iden@), then(c, exp_emit(val@))));
            }
            let ki = iden_kind(iden);
            if ki != EmitKind::Done {
                ki
            } else {
                exp_kind(val)
            }
        },
        StatementNode::If(line, cond, jump) => {
            proof {
                let b = Emit::Done(seq![decimal(13)]);
                let d = pair(14, *jump as nat);
                lemma_then_kind(cond_emit(cond@), d);
                lemma_then_kind(b, then(cond_emit(cond@), d));
                lemma_then_kind(pair(10, *line as nat), then(b, then(cond_emit(cond@), d)));
            }
            cond_kind(cond)
        },
        _ => EmitKind::Done,
    }
}

/// Whether `generate` on these statements would reach an identifier of one byte below `A`
/// before any error (where computing its number overflows and the program stops).
pub fn generate_would_trap(tree: &Vec<StatementNode>) -> (res: bool)
    ensures
        res == (program_emit(statements_view(tree@)) is Trap),
{
    let ghost sv = statements_view(tree@);
    let mut i: usize = 0;
    assert(sv.skip(0) =~= sv);
    while i < tree.len()
        invariant
            i <= tree.len(),
            sv == statements_view(tree@),
            emit_kind(program_emit(sv)) == emit_kind(program_emit(sv.skip(i as int))),
        decreases tree.len() - i,
    {
        assert(sv.skip(i as int).drop_first() =~= sv.skip(i + 1));
        proof {
            lemma_then_kind(stmt_emit(sv[i as int]), program_emit(sv.skip(i + 1)));
        }
        let k = statement_kind(&tree[i]);
        if k == EmitKind::Trap {
            return true;
        }
        if k == EmitKind::Fail {
            return false;
        }
        i += 1;
    }
    assert(sv.skip(i as int) =~= seq![]);
    false
}

/// The generated code always ends with the terminating `0`.
pub proof fn lemma_code_ends_with_zero(w: Seq<Seq<char>>)
    ensures
        join_words(w.push(seq!['0'])).len() > 0,
        join_words(w.push(seq!['0'])).last() == '0',
{
    assert(w.push(seq!['0']).drop_last() =~= w);
    assert(w.push(seq!['0']).last() == seq!['0']);
}

proof fn lemma_then_no_trap(a: Emit, b: Emit)
    requires
        !(a is Trap),
        !(b is Trap),
    ensures
        !(then(a, b) is Trap),
{
}

proof fn lemma_exp_no_trap(e: ExpView)
    requires
        exp_names_scanned(e),
    ensures
        !(exp_emit(e) is Trap),
    decreases e,
{
    if let ExpView::BinaryMathOp(op, l, r) = e {
        lemma_exp_no_trap(*l);
        lemma_exp_no_trap(*r);
        lemma_then_no_trap(pair(17, op_code(math_op_code(op))), exp_emit(*r));
        lemma_then_no_trap(exp_emit(*l), then(pair(17, op_code(math_op_code(op))), exp_emit(*r)));
    }
}

proof fn lemma_stmt_no_trap(s: StatementView)
    requires
        stmt_names_scanned(s),
    ensures
        !(stmt_emit(s) is Trap),
{
    match s {
        StatementView::Assign(l, n, e) => {
            lemma_exp_no_trap(e);
            lemma_then_no_trap(pair(17, 4), exp_emit(e));
            lemma_then_no_trap(iden_emit(n), then(pair(17, 4), exp_emit(e)));
        },
        StatementView::If(l, c, j) => {
            lemma_exp_no_trap(c.left);
            lemma_exp_no_trap(c.right);
            let o = pair(17, if c.op == TokenCompare::Equal { 4 } else { 3 });
            lemma_then_no_trap(o, exp_emit(c.right));
            lemma_then_no_trap(exp_emit(c.left), then(o, exp_emit(c.right)));
            lemma_then_no_trap(cond_emit(c), pair(14, j as nat));
        },
        _ => {},
    }
}

/// Code generation for statements whose names are all scanned names never stops the
/// program: a one-byte scanned name is a letter, at or after `A`.
pub proof fn lemma_scanned_names_never_trap(stmts: Seq<StatementView>)
    requires
        stmts_names_scanned(stmts),
    ensures
        !(program_emit(stmts) is Trap),
    decreases stmts.len(),
{
    if stmts.len() > 0 {
        assert(stmt_names_scanned(stmts[0]));
        lemma_stmt_no_trap(stmts[0]);
        assert forall|i: int| 0 <= i < stmts.drop_first().len() implies #[trigger] stmt_names_scanned(stmts.drop_first()[i]) by {
            assert(stmts.drop_first()[i] == stmts[i + 1]);
        }
        lemma_scanned_names_never_trap(stmts.drop_first());
    }
}

/// A single statement's program code is its statement code.
proof fn lemma_single_program(st: StatementView)
    ensures
        program_emit(seq![st]) == then(stmt_emit(st), Emit::Done(Seq::<Seq<char>>::empty())),
{
    assert(seq![st].drop_first() =~= Seq::<StatementView>::empty());
    assert(seq![st][0] == st);
    assert(program_emit(seq![st].drop_first()) == Emit::Done(Seq::<Seq<char>>::empty()));
}

proof fn lemma_then_done_empty(e: Emit)
    ensures
        then(e, Emit::Done(Seq::<Seq<char>>::empty())) == e,
{
    match e {
        Emit::Done(w) => {
            assert(w + Seq::<Seq<char>>::empty() =~= w);
        },
        _ => {},
    }
}

/// `GOTO` is written `10 <line> 14 <target>`, with the full `u16` target in decimal.
pub proof fn lemma_code_goto(l: u16, j: u16)
    ensures
        program_emit(seq![StatementView::Goto(l, j)]) == Emit::Done(
            seq![decimal(10), decimal(l as nat), decimal(14), decimal(j as nat)],
        ),
{
    lemma_single_program(StatementView::Goto(l, j));
    lemma_then_done_empty(stmt_emit(StatementView::Goto(l, j)));
    assert(seq![decimal(10), decimal(l as nat)] + seq![decimal(14), decimal(j as nat)] =~= seq![
        decimal(10),
        decimal(l as nat),
        decimal(14),
        decimal(j as nat),
    ]);
}

/// `STOP` is written `10 <line> 16`; `PRINT` is written `10 <line> 15 <name>`, the name as it is.
pub proof fn lemma_code_stop_and_print(l: u16, v: Seq<char>)
    ensures
        program_emit(seq![StatementView::Stop(l)]) == Emit::Done(seq![decimal(10), decimal(l as nat), decimal(16)]),
        program_emit(seq![StatementView::Print(l, v)]) == Emit::Done(
            seq![decimal(10), decimal(l as nat), decimal(15), v],
        ),
{
    lemma_single_program(StatementView::Stop(l));
    lemma_then_done_empty(stmt_emit(StatementView::Stop(l)));
    assert(seq![decimal(10), decimal(l as nat)] + seq![decimal(16)] =~= seq![decimal(10), decimal(l as nat), decimal(16)]);
    lemma_single_program(StatementView::Print(l, v));
    lemma_then_done_empty(stmt_emit(StatementView::Print(l, v)));
    assert(seq![decimal(10), decimal(l as nat)] + seq![decimal(15), v] =~= seq![decimal(10), decimal(l as nat), decimal(15), v]);
}

/// `IF a = b j` and `IF a < b j` (number operands) are written `10 <line> 13 12 a 17 4 12 b 14 j`
/// and the same with operator 3; a `>` comparison is refused after `10 <line> 13`.
pub proof fn lemma_code_if(l: u16, op: TokenCompare, a: u8, b: u8, j: u16)
    ensures
        ({
            let st = StatementView::If(
                l,
                CondView {
                    op,
                    left: ExpView::Term(TermView::Number(a)),
                    right: ExpView::Term(TermView::Number(b)),
                },
                j,
            );
            &&& op == TokenCompare::Equal ==> program_emit(seq![st]) == Emit::Done(
                seq![
                    decimal(10),
                    decimal(l as nat),
                    decimal(13),
                    decimal(12),
                    decimal(a as nat),
                    decimal(17),
                    decimal(4),
                    decimal(12),
                    decimal(b as nat),
                    decimal(14),
                    decimal(j as nat),
                ],
            )
            &&& op == TokenCompare::LessThan ==> program_emit(seq![st]) == Emit::Done(
                seq![
                    decimal(10),
                    decimal(l as nat),
                    decimal(13),
                    decimal(12),
                    decimal(a as nat),
                    decimal(17),
                    decimal(3),
                    decimal(12),
                    decimal(b as nat),
                    decimal(14),
                    decimal(j as nat),
                ],
            )
            &&& op == TokenCompare::MoreThan ==> program_emit(seq![st]) == Emit::Fail(
                seq![decimal(10), decimal(l as nat), decimal(13)],
                CodeGenErrorView::InvalidOp(TokenCompare::MoreThan),
            )
        }),
{
    let cv = CondView {
        op,
        left: ExpView::Term(TermView::Number(a)),
        right: ExpView::Term(TermView::Number(b)),
    };
    let st = StatementView::If(l, cv, j);
    lemma_single_program(st);
    lemma_then_done_empty(stmt_emit(st));
    let code: nat = if op == TokenCompare::Equal { 4 } else { 3 };
    let w = seq![
        decimal(10),
        decimal(l as nat),
        decimal(13),
        decimal(12),
        decimal(a as nat),
        decimal(17),
        decimal(code),
        decimal(12),
        decimal(b as nat),
        decimal(14),
        decimal(j as nat),
    ];
    if op != TokenCompare::MoreThan {
        assert(exp_emit(cv.left) == pair(12, a as nat));
        assert(exp_emit(cv.right) == pair(12, b as nat));
        assert(seq![decimal(10), decimal(l as nat)] + (seq![decimal(13)] + (seq![decimal(12), decimal(a as nat)] + (
        seq![decimal(17), decimal(code)] + seq![decimal(12), decimal(b as nat)]) + seq![decimal(14), decimal(j as nat)]))
            =~= w);
    } else {
        assert(seq![decimal(10), decimal(l as nat)] + (seq![decimal(13)] + Seq::<Seq<char>>::empty()) =~= seq![
            decimal(10),
            decimal(l as nat),
            decimal(13),
        ]);
    }
}

proof fn lemma_letter_name(c: char)
    requires
        'A' <= c <= 'Z' || 'a' <= c <= 'z',
    ensures
        iden_emit(seq![c]) == pair(11, ((c as u32) - 64) as nat),
{
    let s = seq![c];
    assert(s.drop_first() =~= Seq::<char>::empty());
    assert(encode_utf8(s) == encode_scalar(c as u32) + encode_utf8(s.drop_first()));
    assert(has_width_1_encoding(c as u32));
}

/// An assignment `c = d + v` or `c = d - v` to a one-letter name `c`, with a one-letter
/// variable `d` and a number `v`, is written
/// `10 <line> 11 <c> 17 4 11 <d> 17 <1 or 2> 12 <v>`, each letter as its position counted from
/// `A` as 1; a name of two or more characters is refused after `10 <line>`.
pub proof fn lemma_code_assignment(l: u16, c: char, d: char, o: TokenMathOp, v: u8, long: Seq<char>)
    requires
        'A' <= c <= 'Z' || 'a' <= c <= 'z',
        'A' <= d <= 'Z' || 'a' <= d <= 'z',
        long.len() >= 2,
    ensures
        program_emit(
            seq![
                StatementView::Assign(
                    l,
                    seq![c],
                    ExpView::BinaryMathOp(
                        o,
                        Box::new(ExpView::Term(TermView::Var(seq![d]))),
                        Box::new(ExpView::Term(TermView::Number(v))),
                    ),
                ),
            ],
        ) == Emit::Done(
            seq![
                decimal(10),
                decimal(l as nat),
                decimal(11),
                decimal(((c as u32) - 64) as nat),
                decimal(17),
                decimal(4),
                decimal(11),
                decimal(((d as u32) - 64) as nat),
                decimal(17),
                decimal(if o == TokenMathOp::Add { 1 } else { 2 }),
                decimal(12),
                decimal(v as nat),
            ],
        ),
        program_emit(seq![StatementView::Assign(l, long, ExpView::Term(TermView::Number(v)))]) == Emit::Fail(
            seq![decimal(10), decimal(l as nat)],
            CodeGenErrorView::InvalidIdentifier(long),
        ),
{
    let e = ExpView::BinaryMathOp(
        o,
        Box::new(ExpView::Term(TermView::Var(seq![d]))),
        Box::new(ExpView::Term(TermView::Number(v))),
    );
    let st = StatementView::Assign(l, seq![c], e);
    lemma_letter_name(c);
    lemma_letter_name(d);
    lemma_single_program(st);
    lemma_then_done_empty(stmt_emit(st));
    let oc: nat = if o == TokenMathOp::Add { 1 } else { 2 };
    assert(op_code(math_op_code(o)) == oc);
    assert(exp_emit(ExpView::Term(TermView::Var(seq![d]))) == pair(11, ((d as u32) - 64) as nat));
    assert(exp_emit(ExpView::Term(TermView::Number(v))) == pair(12, v as nat));
    assert(exp_emit(e) == Emit::Done(
        seq![decimal(11), decimal(((d as u32) - 64) as nat)] + (seq![decimal(17), decimal(oc)] + seq![decimal(12), decimal(v as nat)]),
    ));
    assert(seq![decimal(10), decimal(l as nat)] + (seq![decimal(11), decimal(((c as u32) - 64) as nat)] + (seq![decimal(17), decimal(4)]
        + (seq![decimal(11), decimal(((d as u32) - 64) as nat)] + (seq![decimal(17), decimal(oc)] + seq![decimal(12), decimal(v as nat)]))))
        =~= seq![
        decimal(10),
        decimal(l as nat),
        decimal(11),
        decimal(((c as u32) - 64) as nat),
        decimal(17),
        decimal(4),
        decimal(11),
        decimal(((d as u32) - 64) as nat),
        decimal(17),
        decimal(oc),
        decimal(12),
        decimal(v as nat),
    ]);

    let bad = StatementView::Assign(l, long, ExpView::Term(TermView::Number(v)));
    lemma_encode_utf8_len(long);
    lemma_single_program(bad);
    lemma_then_done_empty(stmt_emit(bad));
    assert(seq![decimal(10), decimal(l as nat)] + Seq::<Seq<char>>::empty() =~= seq![decimal(10), decimal(l as nat)]);
}

/// Assigning a number to a one-character name: a name at or after `A` in ASCII is written as
/// its code minus 64; a name below `A` makes the subtraction overflow (the program stops); a
/// non-ASCII name takes more than one byte and is refused.
pub proof fn lemma_code_one_char_names(l: u16, c: char, v: u8)
    ensures
        ({
            let st = StatementView::Assign(l, seq![c], ExpView::Term(TermView::Number(v)));
            &&& (c as u32) < 65 ==> program_emit(seq![st]) is Trap
            &&& 65 <= (c as u32) < 128 ==> program_emit(seq![st]) == Emit::Done(
                seq![
                    decimal(10),
                    decimal(l as nat),
                    decimal(11),
                    decimal(((c as u32) - 64) as nat),
                    decimal(17),
                    decimal(4),
                    decimal(12),
                    decimal(v as nat),
                ],
            )
            &&& (c as u32) >= 128 ==> program_emit(seq![st]) == Emit::Fail(
                seq![decimal(10), decimal(l as nat)],
                CodeGenErrorView::InvalidIdentifier(seq![c]),
            )
        }),
{
    let st = StatementView::Assign(l, seq![c], ExpView::Term(TermView::Number(v)));
    let sc = seq![c];
    assert(sc.drop_first() =~= Seq::<char>::empty());
    assert(encode_utf8(sc) == encode_scalar(c as u32) + encode_utf8(sc.drop_first()));
    lemma_single_program(st);
    lemma_then_done_empty(stmt_emit(st));
    assert(exp_emit(ExpView::Term(TermView::Number(v))) == pair(12, v as nat));
    assert(seq![decimal(10), decimal(l as nat)] + (seq![decimal(11), decimal(((c as u32) - 64) as nat)] + (seq![decimal(17), decimal(4)]
        + seq![decimal(12), decimal(v as nat)])) =~= seq![
        decimal(10),
        decimal(l as nat),
        decimal(11),
        decimal(((c as u32) - 64) as nat),
        decimal(17),
        decimal(4),
        decimal(12),
        decimal(v as nat),
    ]);
    assert(seq![decimal(10), decimal(l as nat)] + Seq::<Seq<char>>::empty() =~= seq![decimal(10), decimal(l as nat)]);
}

} // verus!
