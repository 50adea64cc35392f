use vstd::prelude::*;

use crate::text::{chars_to_string, decimal, digit_char};
use crate::text::push_char;
use crate::token::{tokens_view, Token, TokenCompare, TokenMathOp, TokenView};

verus! {

/// What the scanner is in the middle of when a character arrives.
#[derive(Debug, Clone, Copy, PartialEq, Eq, Structural)]
pub enum ScanState {
    Start,
    StartIdentifier,
    StartNumber,
}

/// Why the scanner refused its input.
#[derive(Debug, PartialEq, Eq)]
pub enum ScanError {
    UnsupportedOp(String),
    UnsupportedCharForIden(char),
    IdenStartWithNum,
}

/// The model of a [`ScanError`].
pub enum ScanErrorView {
    UnsupportedOp(Seq<char>),
    UnsupportedCharForIden(char),
    IdenStartWithNum,
}

impl View for ScanError {
    type V = ScanErrorView;

    open spec fn view(&self) -> ScanErrorView {
        match self {
            ScanError::UnsupportedOp(s) => ScanErrorView::UnsupportedOp(s@),
            ScanError::UnsupportedCharForIden(c) => ScanErrorView::UnsupportedCharForIden(*c),
            ScanError::IdenStartWithNum => ScanErrorView::IdenStartWithNum,
        }
    }
}

/// An ASCII decimal digit.
pub open spec fn is_digit(c: char) -> bool {
    '0' <= c && c <= '9'
}

/// An ASCII letter.
pub open spec fn is_alpha(c: char) -> bool {
    ('A' <= c && c <= 'Z') || ('a' <= c && c <= 'z')
}

/// An ASCII letter or digit.
pub open spec fn is_alnum(c: char) -> bool {
    is_digit(c) || is_alpha(c)
}

/// The value of a decimal digit character (zero for any other character).
pub open spec fn digit_value(c: char) -> nat {
    if is_digit(c) {
        ((c as int) - ('0' as int)) as nat
    } else {
        0
    }
}

/// Every character is a decimal digit.
pub open spec fn all_digits(s: Seq<char>) -> bool {
    forall|i: int| 0 <= i < s.len() ==> #[trigger] is_digit(s[i])
}

/// The number that a string of decimal digits denotes.
pub open spec fn digits_value(s: Seq<char>) -> nat
    decreases s.len(),
{
    if s.len() == 0 {
        0
    } else {
        digits_value(s.drop_last()) * 10 + digit_value(s.last())
    }
}

/// A non-empty run of digits whose value fits in a `u16`.
pub open spec fn parse_digits(s: Seq<char>) -> Option<u16> {
    if s.len() > 0 && all_digits(s) && digits_value(s) <= u16::MAX {
        Some(digits_value(s) as u16)
    } else {
        None
    }
}

/// What `str::parse::<u16>` gives for the text: an optional `+`, then digits whose value fits.
pub open spec fn parse_u16_spec(s: Seq<char>) -> Option<u16> {
    if s.len() > 0 && s[0] == '+' {
        parse_digits(s.drop_first())
    } else {
        parse_digits(s)
    }
}

proof fn lemma_digits_value_prefix(s: Seq<char>, k: int)
    requires
        0 <= k <= s.len(),
    ensures
        digits_value(s.take(k)) <= digits_value(s),
    decreases s.len(),
{
    if k < s.len() {
        assert(s.drop_last().take(k) =~= s.take(k));
        lemma_digits_value_prefix(s.drop_last(), k);
    } else {
        assert(s.take(k) =~= s);
    }
}

/// The text as a `u16`, exactly as `str::parse::<u16>` reads it.
pub fn parse_u16(text: &Vec<char>) -> (res: Option<u16>)
    ensures
        res == parse_u16_spec(text@),
{
    let n: usize = text.len();
    let start: usize = if n > 0 && text[0] == '+' { 1 } else { 0 };
    let ghost digits = if n > 0 && text@[0] == '+' { text@.drop_first() } else { text@ };
    assert(digits =~= text@.subrange(start as int, n as int));
    assert(parse_u16_spec(text@) == parse_digits(digits));
    if start == n {
        return None;
    }
    let mut v: u32 = 0;
    let mut i: usize = start;
    while i < n
        invariant
            start <= i <= n,
            n == text@.len(),
            start < n,
            digits =~= text@.subrange(start as int, n as int),
            parse_u16_spec(text@) == parse_digits(digits),
            all_digits(digits.take(i - start)),
            v == digits_value(digits.take(i - start)),
            v <= u16::MAX,
        decreases n - i,
    {
        let c = text[i];
        assert(digits[i - start] == c);
        if !(c >= '0' && c <= '9') {
            assert(!is_digit(digits[i - start]));
            assert(!all_digits(digits));
            assert(parse_digits(digits) is None);
            return None;
        }
        let d: u32 = (c as u32) - ('0' as u32);
        let nv: u32 = v * 10 + d;
        assert(digits.take(i - start + 1).drop_last() =~= digits.take(i - start));
        assert(nv == digits_value(digits.take(i - start + 1)));
        if nv > 65535 {
            proof {
                lemma_digits_value_prefix(digits, i - start + 1);
                assert(parse_digits(digits) is None);
            }
            return None;
        }
        v = nv;
        i += 1;
        assert(all_digits(digits.take(i - start)));
    }
    assert(digits.take(i - start) =~= digits);
    Some(v as u16)
}

/// Finishing the number or identifier in progress stops the program where the number
/// text does not parse as a `u16`.
pub open spec fn finish_traps(state: ScanState, mem: Seq<char>) -> bool {
    state == ScanState::StartNumber && parse_u16_spec(mem) is None
}

/// The state, memory and tokens after finishing the term in progress.
pub open spec fn finish_term(state: ScanState, mem: Seq<char>) -> (ScanState, Seq<char>, Seq<TokenView>) {
    match state {
        ScanState::StartNumber => (
            ScanState::Start,
            seq![],
            seq![TokenView::Number(parse_u16_spec(mem).unwrap())],
        ),
        ScanState::StartIdentifier => (ScanState::Start, seq![], seq![TokenView::Iden(mem)]),
        ScanState::Start => (ScanState::Start, mem, seq![]),
    }
}

/// Emits the number or identifier collected in `mem`, if any, and returns to `Start`.
pub fn on_finish_term(state: &mut ScanState, mem: &mut Vec<char>, out: &mut Vec<Token>)
    requires
        !finish_traps(*old(state), old(mem)@),
    ensures
        *final(state) == finish_term(*old(state), old(mem)@).0,
        final(mem)@ == finish_term(*old(state), old(mem)@).1,
        tokens_view(final(out)@) == tokens_view(old(out)@) + finish_term(*old(state), old(mem)@).2,
{
    let ghost old_out = out@;
    match *state {
        ScanState::StartNumber => {
            let num = parse_u16(mem);
            out.push(Token::Number(num.unwrap()));
            *state = ScanState::Start;
            mem.clear();
        },
        ScanState::StartIdentifier => {
            out.push(Token::Iden(chars_to_string(mem)));
            *state = ScanState::Start;
            mem.clear();
        },
        _ => {},
    }
    assert(tokens_view(out@) =~= tokens_view(old_out) + finish_term(*old(state), old(mem)@).2);
}

/// The effect of one character on the scanner: its next state, memory and emitted tokens,
/// or the error that stops it.
pub enum ScanStep {
    Next(ScanState, Seq<char>, Seq<TokenView>),
    Fail(ScanErrorView),
}

/// Handling this character stops the program (a finished number that does not fit).
pub open spec fn step_traps(state: ScanState, mem: Seq<char>, c: char) -> bool {
    (c == ' ' || c == '\n') && finish_traps(state, mem)
}

pub open spec fn scan_step(state: ScanState, mem: Seq<char>, c: char) -> ScanStep {
    if c == '\r' {
        ScanStep::Next(state, mem, seq![])
    } else if c == ' ' || c == '\n' {
        let f = finish_term(state, mem);
        ScanStep::Next(
            f.0,
            f.1,
            if c == '\n' { f.2.push(TokenView::EndOfLine) } else { f.2 },
        )
    } else {
        match state {
            ScanState::Start => {
                if is_digit(c) {
                    ScanStep::Next(ScanState::StartNumber, mem.push(c), seq![])
                } else if is_alpha(c) {
                    ScanStep::Next(ScanState::StartIdentifier, mem.push(c), seq![])
                } else if c == '=' || c == '<' {
                    ScanStep::Next(
                        ScanState::Start,
                        seq![],
                        seq![TokenView::Compare(if c == '=' { TokenCompare::Equal } else { TokenCompare::LessThan })],
                    )
                } else if c == '+' || c == '-' {
                    ScanStep::Next(
                        ScanState::Start,
                        seq![],
                        seq![TokenView::MathOp(if c == '+' { TokenMathOp::Add } else { TokenMathOp::Sub })],
                    )
                } else {
                    ScanStep::Fail(ScanErrorView::UnsupportedOp(seq![c]))
                }
            },
            ScanState::StartIdentifier => {
                if is_alnum(c) {
                    ScanStep::Next(state, mem.push(c), seq![])
                } else {
                    ScanStep::Fail(ScanErrorView::UnsupportedCharForIden(c))
                }
            },
            ScanState::StartNumber => {
                if is_digit(c) {
                    ScanStep::Next(state, mem.push(c), seq![])
                } else {
                    ScanStep::Fail(ScanErrorView::IdenStartWithNum)
                }
            },
        }
    }
}

/// Where a run of the scanner ends: its state and memory, and the tokens or the error.
pub struct ScanOutcome {
    pub state: ScanState,
    pub mem: Seq<char>,
    pub result: Result<Seq<TokenView>, ScanErrorView>,
}

/// The outcome with `toks` emitted before it.
pub open spec fn after_tokens(toks: Seq<TokenView>, o: ScanOutcome) -> ScanOutcome {
    ScanOutcome {
        state: o.state,
        mem: o.mem,
        result: match o.result {
            Ok(t) => Ok(toks + t),
            Err(e) => Err(e),
        },
    }
}

/// Scanning `chars` from the given state and memory, one character at a time; at the first
/// error, state and memory stay as they were before the character that caused it.
pub open spec fn scan_chars(chars: Seq<char>, state: ScanState, mem: Seq<char>) -> ScanOutcome
    decreases chars.len(),
{
    if chars.len() == 0 {
        ScanOutcome { state, mem, result: Ok(seq![]) }
    } else {
        match scan_step(state, mem, chars[0]) {
            ScanStep::Fail(e) => ScanOutcome { state, mem, result: Err(e) },
            ScanStep::Next(s, m, t) => after_tokens(t, scan_chars(chars.drop_first(), s, m)),
        }
    }
}

/// Scanning `chars` reaches a character whose handling stops the program.
pub open spec fn scan_traps(chars: Seq<char>, state: ScanState, mem: Seq<char>) -> bool
    decreases chars.len(),
{
    if chars.len() == 0 {
        false
    } else if step_traps(state, mem, chars[0]) {
        true
    } else {
        match scan_step(state, mem, chars[0]) {
            ScanStep::Fail(e) => false,
            ScanStep::Next(s, m, t) => scan_traps(chars.drop_first(), s, m),
        }
    }
}

/// Each byte read as the character with that code point.
pub open spec fn byte_chars(bytes: Seq<u8>) -> Seq<char> {
    bytes.map_values(|b: u8| b as char)
}

/// The characters that a call of `scan` reads: the first `size` bytes, or all of them.
pub open spec fn scanned_chars(raw: Seq<u8>, size: usize) -> Seq<char> {
    byte_chars(raw.take(if size < raw.len() { size as int } else { raw.len() as int }))
}

/// Handles one character: updates the state and memory and emits tokens, or reports an error
/// and changes nothing.
fn scan_char(c: char, state: &mut ScanState, mem: &mut Vec<char>, out: &mut Vec<Token>) -> (res: Result<(), ScanError>)
    requires
        !step_traps(*old(state), old(mem)@, c),
    ensures
        match scan_step(*old(state), old(mem)@, c) {
            ScanStep::Next(s, m, t) => {
                &&& res is Ok
                &&& *final(state) == s
                &&& final(mem)@ == m
                &&& tokens_view(final(out)@) == tokens_view(old(out)@) + t
            },
            ScanStep::Fail(e) => {
                &&& res matches Err(err) && err@ == e
                &&& *final(state) == *old(state)
                &&& final(mem)@ == old(mem)@
                &&& final(out)@ == old(out)@
            },
        },
{
    let ghost old_out = out@;
    if c == '\r' {
        assert(tokens_view(out@) =~= tokens_view(old_out) + seq![]);
        return Ok(());
    }
    if c == ' ' || c == '\n' {
        on_finish_term(state, mem, out);
        if c == '\n' {
            let ghost mid = out@;
            out.push(Token::EndOfLine);
            assert(tokens_view(out@) =~= tokens_view(mid).push(TokenView::EndOfLine));
        }
        return Ok(());
    }
    match *state {
        ScanState::Start => {
            if c >= '0' && c <= '9' {
                *state = ScanState::StartNumber;
                mem.push(c);
            } else if (c >= 'A' && c <= 'Z') || (c >= 'a' && c <= 'z') {
                *state = ScanState::StartIdentifier;
                mem.push(c);
            } else if c == '=' || c == '<' {
                let compare = if c == '=' {
                    TokenCompare::Equal
                } else {
                    TokenCompare::LessThan
                };
                out.push(Token::Compare(compare));
                *state = ScanState::Start;
                mem.clear();
            } else if c == '+' || c == '-' {
                let math_op = if c == '+' {
                    TokenMathOp::Add
                } else {
                    TokenMathOp::Sub
                };
                out.push(Token::MathOp(math_op));
                *state = ScanState::Start;
                mem.clear();
            } else {
                let mut text = String::new();
                push_char(&mut text, c);
                assert(text@ =~= seq![c]);
                return Err(ScanError::UnsupportedOp(text));
            }
        },
        ScanState::StartIdentifier => {
            if (c >= '0' && c <= '9') || (c >= 'A' && c <= 'Z') || (c >= 'a' && c <= 'z') {
                mem.push(c);
            } else {
                return Err(ScanError::UnsupportedCharForIden(c));
            }
        },
        ScanState::StartNumber => {
            if c >= '0' && c <= '9' {
                mem.push(c);
            } else {
                return Err(ScanError::IdenStartWithNum);
            }
        },
    }
    assert(tokens_view(out@) =~= tokens_view(old_out) + match scan_step(*old(state), old(mem)@, c) {
        ScanStep::Next(s, m, t) => t,
        ScanStep::Fail(e) => seq![],
    });
    Ok(())
}

/// Scans the first `current_size` bytes of `raw_chars` (each byte read as one character),
/// carrying the term in progress over in `state` and `mem` so that input can arrive in pieces.
pub fn scan(raw_chars: &Vec<u8>, current_size: usize, state: &mut ScanState, mem: &mut Vec<char>) -> (res: Result<Vec<Token>, ScanError>)
    requires
        !scan_traps(scanned_chars(raw_chars@, current_size), *old(state), old(mem)@),
    ensures
        ({
            let o = scan_chars(scanned_chars(raw_chars@, current_size), *old(state), old(mem)@);
            &&& *final(state) == o.state
            &&& final(mem)@ == o.mem
            &&& match res {
                Ok(toks) => o.result == Ok::<Seq<TokenView>, ScanErrorView>(tokens_view(toks@)),
                Err(e) => o.result == Err::<Seq<TokenView>, ScanErrorView>(e@),
            }
        }),
{
    let mut out: Vec<Token> = Vec::new();
    let n: usize = if current_size < raw_chars.len() { current_size } else { raw_chars.len() };
    let ghost chars = scanned_chars(raw_chars@, current_size);
    let ghost total = scan_chars(chars, *state, mem@);
    let ghost s_init = *state;
    let ghost m_init = mem@;
    let mut i: usize = 0;
    assert(chars.skip(0) =~= chars);
    assert(tokens_view(out@) =~= seq![]);
    assert(after_tokens(seq![], total) == total);
    while i < n
        invariant
            i <= n,
            n <= raw_chars@.len(),
            chars == byte_chars(raw_chars@.take(n as int)),
            chars == scanned_chars(raw_chars@, current_size),
            total == scan_chars(chars, s_init, m_init),
            s_init == *old(state),
            m_init == old(mem)@,
            !scan_traps(chars.skip(i as int), *state, mem@),
            total == after_tokens(tokens_view(out@), scan_chars(chars.skip(i as int), *state, mem@)),
        decreases n - i,
    {
        let c = raw_chars[i] as char;
        let ghost rest = chars.skip(i as int);
        let ghost out0 = tokens_view(out@);
        let ghost s0 = *state;
        let ghost m0 = mem@;
        assert(rest[0] == c);
        assert(rest.drop_first() =~= chars.skip(i + 1));
        match scan_char(c, state, mem, &mut out) {
            Ok(()) => {},
            Err(e) => {
                assert(scan_chars(rest, s0, m0).result == Err::<Seq<TokenView>, ScanErrorView>(e@));
                assert(total.result == Err::<Seq<TokenView>, ScanErrorView>(e@));
                assert(total.state == *state);
                assert(total.mem == mem@);
                return Err(e);
            },
        }
        proof {
            if let ScanStep::Next(s, m, t) = scan_step(s0, m0, c) {
                let o = scan_chars(chars.skip(i + 1), s, m);
                assert(out0 + (t + match o.result { Ok(x) => x, Err(_) => seq![] }) =~= (out0 + t) + match o.result { Ok(x) => x, Err(_) => seq![] });
            }
        }
        i += 1;
    }
    assert(chars.skip(i as int) =~= seq![]);
    assert(tokens_view(out@) + seq![] =~= tokens_view(out@));
    Ok(out)
}

/// A first run of the scanner followed by a second run on `rest` from where the first ended.
pub open spec fn then_scan(first: ScanOutcome, rest: Seq<char>) -> ScanOutcome {
    match first.result {
        Ok(t) => after_tokens(t, scan_chars(rest, first.state, first.mem)),
        Err(_) => first,
    }
}

/// Scanning input in two pieces, carrying state and memory from the first call into the
/// second, gives what scanning it all at once gives: the same tokens, the same error, the
/// same final state and memory; and it stops the program exactly when scanning it at once does.
pub proof fn lemma_scan_in_pieces(a: Seq<char>, b: Seq<char>, state: ScanState, mem: Seq<char>)
    ensures
        scan_chars(a + b, state, mem) == then_scan(scan_chars(a, state, mem), b),
        scan_traps(a + b, state, mem) == (scan_traps(a, state, mem) || (scan_chars(
            a,
            state,
            mem,
        ).result is Ok && scan_traps(b, scan_chars(a, state, mem).state, scan_chars(a, state, mem).mem))),
    decreases a.len(),
{
    if a.len() == 0 {
        assert(a + b =~= b);
        let o = scan_chars(b, state, mem);
        if let Ok(t) = o.result {
            assert(seq![] + t =~= t);
        }
    } else {
        assert((a + b)[0] == a[0]);
        assert((a + b).drop_first() =~= a.drop_first() + b);
        lemma_scan_in_pieces(a.drop_first(), b, state, mem);
        if let ScanStep::Next(s, m, t) = scan_step(state, mem, a[0]) {
            lemma_scan_in_pieces(a.drop_first(), b, s, m);
            let o = scan_chars(a.drop_first(), s, m);
            if let Ok(t2) = o.result {
                let x = scan_chars(b, o.state, o.mem);
                if let Ok(t3) = x.result {
                    assert(t + (t2 + t3) =~= (t + t2) + t3);
                }
            }
        }
    }
}

/// Whether `scan` on these arguments would reach a finished number that does not parse as a
/// `u16` (where the program stops).
pub fn scan_would_trap(raw_chars: &Vec<u8>, current_size: usize, state: ScanState, mem: &Vec<char>) -> (res: bool)
    ensures
        res == scan_traps(scanned_chars(raw_chars@, current_size), state, mem@),
{
    let mut st = state;
    let mut m: Vec<char> = Vec::new();
    let mut k: usize = 0;
    while k < mem.len()
        invariant
            k <= mem.len(),
            m@ == mem@.take(k as int),
        decreases mem.len() - k,
    {
        m.push(mem[k]);
        k += 1;
        assert(m@ =~= mem@.take(k as int));
    }
    assert(mem@.take(k as int) =~= mem@);
    let mut scratch: Vec<Token> = Vec::new();
    let n: usize = if current_size < raw_chars.len() { current_size } else { raw_chars.len() };
    let ghost chars = scanned_chars(raw_chars@, current_size);
    let mut i: usize = 0;
    assert(chars.skip(0) =~= chars);
    while i < n
        invariant
            i <= n,
            n <= raw_chars@.len(),
            chars == byte_chars(raw_chars@.take(n as int)),
            chars == scanned_chars(raw_chars@, current_size),
            scan_traps(chars, state, mem@) == scan_traps(chars.skip(i as int), st, m@),
        decreases n - i,
    {
        let c = raw_chars[i] as char;
        let ghost rest = chars.skip(i as int);
        assert(rest[0] == c);
        assert(rest.drop_first() =~= chars.skip(i + 1));
        if (c == ' ' || c == '\n') && st == ScanState::StartNumber && parse_u16(&m).is_none() {
            return true;
        }
        match scan_char(c, &mut st, &mut m, &mut scratch) {
            Ok(()) => {},
            Err(_) => {
                return false;
            },
        }
        i += 1;
    }
    false
}

/// After a term is finished the scanner is back at `Start` with nothing pending; finishing
/// again changes nothing and emits nothing.
pub proof fn lemma_finish_term_idempotent(state: ScanState, mem: Seq<char>)
    ensures
        finish_term(state, mem).0 == ScanState::Start,
        finish_term(finish_term(state, mem).0, finish_term(state, mem).1) == (
            ScanState::Start,
            finish_term(state, mem).1,
            Seq::<TokenView>::empty(),
        ),
{
}

/// A name that the scanner can produce: a letter, then letters and digits.
pub open spec fn is_scanned_name(s: Seq<char>) -> bool {
    &&& s.len() > 0
    &&& is_alpha(s[0])
    &&& forall|i: int| 0 <= i < s.len() ==> #[trigger] is_alnum(s[i])
}

/// The memory fits the state, as it does when scanning begins at `Start` with nothing pending.
pub open spec fn scan_state_wf(state: ScanState, mem: Seq<char>) -> bool {
    match state {
        ScanState::Start => mem.len() == 0,
        ScanState::StartIdentifier => is_scanned_name(mem),
        ScanState::StartNumber => mem.len() > 0 && all_digits(mem),
    }
}

/// Every identifier token is a scanned name.
pub open spec fn names_scanned(toks: Seq<TokenView>) -> bool {
    forall|i: int| 0 <= i < toks.len() ==> (#[trigger] toks[i] matches TokenView::Iden(s) ==> is_scanned_name(s))
}

/// Joining two token sequences whose identifiers are scanned names keeps that property.
pub proof fn lemma_names_scanned_concat(a: Seq<TokenView>, b: Seq<TokenView>)
    requires
        names_scanned(a),
        names_scanned(b),
    ensures
        names_scanned(a + b),
{
    assert forall|i: int| 0 <= i < (a + b).len() implies (#[trigger] (a + b)[i] matches TokenView::Iden(s) ==> is_scanned_name(s)) by {
        if i < a.len() {
            assert((a + b)[i] == a[i]);
        } else {
            assert((a + b)[i] == b[i - a.len()]);
        }
    }
}

/// Finishing a term from a well-formed state emits only scanned names.
pub proof fn lemma_finish_keeps_names(state: ScanState, mem: Seq<char>)
    requires
        scan_state_wf(state, mem),
    ensures
        scan_state_wf(finish_term(state, mem).0, finish_term(state, mem).1),
        names_scanned(finish_term(state, mem).2),
{
}

proof fn lemma_step_keeps_names(state: ScanState, mem: Seq<char>, c: char)
    requires
        scan_state_wf(state, mem),
    ensures
        scan_step(state, mem, c) matches ScanStep::Next(s, m, t) ==> scan_state_wf(s, m) && names_scanned(t),
{
    if c == ' ' || c == '\n' {
        lemma_finish_keeps_names(state, mem);
        if c == '\n' {
            let t = finish_term(state, mem).2;
            lemma_names_scanned_concat(t, seq![TokenView::EndOfLine]);
        }
    } else if c != '\r' {
        match state {
            ScanState::Start => {
                if is_digit(c) {
                    assert(mem.push(c) =~= seq![c]);
                } else if is_alpha(c) {
                    assert(mem.push(c) =~= seq![c]);
                }
            },
            ScanState::StartIdentifier => {
                if is_alnum(c) {
                    assert forall|i: int| 0 <= i < mem.push(c).len() implies #[trigger] is_alnum(mem.push(c)[i]) by {
                        if i < mem.len() {
                            assert(is_alnum(mem[i]));
                        }
                    }
                }
            },
            ScanState::StartNumber => {
                if is_digit(c) {
                    assert forall|i: int| 0 <= i < mem.push(c).len() implies #[trigger] is_digit(mem.push(c)[i]) by {
                        if i < mem.len() {
                            assert(is_digit(mem[i]));
                        }
                    }
                }
            },
        }
    }
}

/// Scanning from a well-formed state ends in a well-formed state, and the tokens it emits
/// name only scanned names: identifiers always begin with a letter.
pub proof fn lemma_scan_keeps_names(chars: Seq<char>, state: ScanState, mem: Seq<char>)
    requires
        scan_state_wf(state, mem),
    ensures
        scan_state_wf(scan_chars(chars, state, mem).state, scan_chars(chars, state, mem).mem),
        scan_chars(chars, state, mem).result matches Ok(t) ==> names_scanned(t),
    decreases chars.len(),
{
    if chars.len() > 0 {
        lemma_step_keeps_names(state, mem, chars[0]);
        if let ScanStep::Next(s, m, t) = scan_step(state, mem, chars[0]) {
            lemma_scan_keeps_names(chars.drop_first(), s, m);
            if let Ok(t2) = scan_chars(chars.drop_first(), s, m).result {
                lemma_names_scanned_concat(t, t2);
            }
        }
    }
}

proof fn lemma_digit_char(d: nat)
    requires
        d < 10,
    ensures
        is_digit(digit_char(d)),
        digit_value(digit_char(d)) == d,
        (digit_char(d) == '0') == (d == 0),
{
}

/// The decimal text of `n` is a non-empty run of digits whose value is `n`, with no leading
/// zero unless it is `0` itself.
pub proof fn lemma_decimal_reads_back(n: nat)
    ensures
        decimal(n).len() > 0,
        all_digits(decimal(n)),
        digits_value(decimal(n)) == n,
        n > 0 ==> decimal(n)[0] != '0',
    decreases n,
{
    if n < 10 {
        lemma_digit_char(n);
        assert(decimal(n).drop_last() =~= Seq::<char>::empty());
        assert(digits_value(decimal(n)) == digits_value(Seq::<char>::empty()) * 10 + digit_value(decimal(n).last()));
    } else {
        lemma_decimal_reads_back(n / 10);
        lemma_digit_char(n % 10);
        let s = decimal(n);
        assert(s.drop_last() =~= decimal(n / 10));
        assert forall|i: int| 0 <= i < s.len() implies #[trigger] is_digit(s[i]) by {
            if i < s.len() - 1 {
                assert(s[i] == decimal(n / 10)[i]);
            }
        }
        assert(s[0] == decimal(n / 10)[0]);
        assert(s.last() == digit_char(n % 10));
        assert(n == (n / 10) * 10 + n % 10) by (nonlinear_arith);
        assert(digits_value(s) == digits_value(decimal(n / 10)) * 10 + digit_value(s.last()));
    }
}

/// What the code generator writes for a number, `str::parse::<u16>` reads back as that number.
pub proof fn lemma_parse_u16_of_decimal(n: u16)
    ensures
        parse_u16_spec(decimal(n as nat)) == Some(n),
{
    lemma_decimal_reads_back(n as nat);
    lemma_digit_char(0);
    if decimal(n as nat)[0] == '+' {
        assert(is_digit(decimal(n as nat)[0]));
    }
}

/// In state `Start`: a digit begins a number, a letter begins an identifier, `=` and `<` are
/// comparisons, `+` and `-` are arithmetic operators, and any other character that is not a
/// space, line break or carriage return is refused as an operation.
pub proof fn lemma_scan_start_char(mem: Seq<char>, c: char)
    ensures
        '0' <= c <= '9' ==> scan_step(ScanState::Start, mem, c) == ScanStep::Next(
            ScanState::StartNumber,
            mem.push(c),
            Seq::<TokenView>::empty(),
        ),
        ('A' <= c <= 'Z' || 'a' <= c <= 'z') ==> scan_step(ScanState::Start, mem, c) == ScanStep::Next(
            ScanState::StartIdentifier,
            mem.push(c),
            Seq::<TokenView>::empty(),
        ),
        c == '=' ==> scan_step(ScanState::Start, mem, c) == ScanStep::Next(
            ScanState::Start,
            Seq::<char>::empty(),
            seq![TokenView::Compare(TokenCompare::Equal)],
        ),
        c == '<' ==> scan_step(ScanState::Start, mem, c) == ScanStep::Next(
            ScanState::Start,
            Seq::<char>::empty(),
            seq![TokenView::Compare(TokenCompare::LessThan)],
        ),
        c == '+' ==> scan_step(ScanState::Start, mem, c) == ScanStep::Next(
            ScanState::Start,
            Seq::<char>::empty(),
            seq![TokenView::MathOp(TokenMathOp::Add)],
        ),
        c == '-' ==> scan_step(ScanState::Start, mem, c) == ScanStep::Next(
            ScanState::Start,
            Seq::<char>::empty(),
            seq![TokenView::MathOp(TokenMathOp::Sub)],
        ),
        !('0' <= c <= '9' || 'A' <= c <= 'Z' || 'a' <= c <= 'z' || c == '=' || c == '<' || c == '+'
            || c == '-' || c == ' ' || c == '\n' || c == '\r') ==> scan_step(ScanState::Start, mem, c)
            == ScanStep::Fail(ScanErrorView::UnsupportedOp(seq![c])),
{
}

/// Inside an identifier: letters and digits extend it; any other character that is not a
/// space, line break or carriage return is refused.
pub proof fn lemma_scan_identifier_char(mem: Seq<char>, c: char)
    ensures
        ('0' <= c <= '9' || 'A' <= c <= 'Z' || 'a' <= c <= 'z') ==> scan_step(ScanState::StartIdentifier, mem, c)
            == ScanStep::Next(ScanState::StartIdentifier, mem.push(c), Seq::<TokenView>::empty()),
        !('0' <= c <= '9' || 'A' <= c <= 'Z' || 'a' <= c <= 'z' || c == ' ' || c == '\n' || c == '\r')
            ==> scan_step(ScanState::StartIdentifier, mem, c) == ScanStep::Fail(
            ScanErrorView::UnsupportedCharForIden(c),
        ),
{
}

/// Inside a number: digits extend it; any other character that is not a space, line break or
/// carriage return is refused.
pub proof fn lemma_scan_number_char(mem: Seq<char>, c: char)
    ensures
        '0' <= c <= '9' ==> scan_step(ScanState::StartNumber, mem, c) == ScanStep::Next(
            ScanState::StartNumber,
            mem.push(c),
            Seq::<TokenView>::empty(),
        ),
        !('0' <= c <= '9' || c == ' ' || c == '\n' || c == '\r') ==> scan_step(ScanState::StartNumber, mem, c)
            == ScanStep::Fail(ScanErrorView::IdenStartWithNum),
{
}

/// A carriage return changes nothing; a space or line break ends the identifier or number in
/// progress and emits it (a number with its decimal value), a line break then emits the line end.
pub proof fn lemma_scan_separators(state: ScanState, mem: Seq<char>)
    ensures
        scan_step(state, mem, '\r') == ScanStep::Next(state, mem, Seq::<TokenView>::empty()),
        scan_step(ScanState::Start, mem, ' ') == ScanStep::Next(ScanState::Start, mem, Seq::<TokenView>::empty()),
        scan_step(ScanState::Start, mem, '\n') == ScanStep::Next(ScanState::Start, mem, seq![TokenView::EndOfLine]),
        scan_step(ScanState::StartIdentifier, mem, ' ') == ScanStep::Next(
            ScanState::Start,
            Seq::<char>::empty(),
            seq![TokenView::Iden(mem)],
        ),
        scan_step(ScanState::StartIdentifier, mem, '\n') == ScanStep::Next(
            ScanState::Start,
            Seq::<char>::empty(),
            seq![TokenView::Iden(mem), TokenView::EndOfLine],
        ),
        (mem.len() > 0 && (forall|i: int| 0 <= i < mem.len() ==> '0' <= #[trigger] mem[i] <= '9')
            && digits_value(mem) <= 65535) ==> {
            &&& scan_step(ScanState::StartNumber, mem, ' ') == ScanStep::Next(
                ScanState::Start,
                Seq::<char>::empty(),
                seq![TokenView::Number(digits_value(mem) as u16)],
            )
            &&& scan_step(ScanState::StartNumber, mem, '\n') == ScanStep::Next(
                ScanState::Start,
                Seq::<char>::empty(),
                seq![TokenView::Number(digits_value(mem) as u16), TokenView::EndOfLine],
            )
        },
{
    assert(seq![TokenView::Iden(mem)].push(TokenView::EndOfLine) =~= seq![TokenView::Iden(mem), TokenView::EndOfLine]);
    assert(Seq::<TokenView>::empty().push(TokenView::EndOfLine) =~= seq![TokenView::EndOfLine]);
    if mem.len() > 0 && (forall|i: int| 0 <= i < mem.len() ==> '0' <= #[trigger] mem[i] <= '9')
        && digits_value(mem) <= 65535 {
        assert(is_digit(mem[0]));
        assert(all_digits(mem));
        assert(parse_u16_spec(mem) == Some(digits_value(mem) as u16));
        let t = seq![TokenView::Number(digits_value(mem) as u16)];
        assert(t.push(TokenView::EndOfLine) =~= seq![TokenView::Number(digits_value(mem) as u16), TokenView::EndOfLine]);
    }
}

proof fn lemma_scan_identifier_run(rest: Seq<char>, mem: Seq<char>)
    requires
        forall|i: int| 0 <= i < rest.len() ==> ('0' <= #[trigger] rest[i] <= '9' || 'A' <= rest[i] <= 'Z' || 'a' <= rest[i] <= 'z'),
    ensures
        scan_chars(rest.push(' '), ScanState::StartIdentifier, mem) == (ScanOutcome {
            state: ScanState::Start,
            mem: Seq::<char>::empty(),
            result: Ok(seq![TokenView::Iden(mem + rest)]),
        }),
        !scan_traps(rest.push(' '), ScanState::StartIdentifier, mem),
    decreases rest.len(),
{
    let input = rest.push(' ');
    if rest.len() == 0 {
        assert(mem + rest =~= mem);
        assert(input[0] == ' ');
        assert(input.drop_first() =~= Seq::<char>::empty());
        assert(seq![TokenView::Iden(mem)] + Seq::<TokenView>::empty() =~= seq![TokenView::Iden(mem)]);
        lemma_scan_separators(ScanState::StartIdentifier, mem);
        assert(scan_chars(input, ScanState::StartIdentifier, mem) == after_tokens(seq![TokenView::Iden(mem)], scan_chars(Seq::<char>::empty(), ScanState::Start, Seq::<char>::empty())));
        assert(!scan_traps(Seq::<char>::empty(), ScanState::Start, Seq::<char>::empty()));
        assert(!scan_traps(input, ScanState::StartIdentifier, mem));
    } else {
        let c = rest[0];
        assert('0' <= rest[0] <= '9' || 'A' <= rest[0] <= 'Z' || 'a' <= rest[0] <= 'z');
        assert(input[0] == c);
        assert(input.drop_first() =~= rest.drop_first().push(' '));
        assert(mem.push(c) + rest.drop_first() =~= mem + rest);
        assert forall|i: int| 0 <= i < rest.drop_first().len() implies ('0' <= #[trigger] rest.drop_first()[i] <= '9' || 'A' <= rest.drop_first()[i] <= 'Z' || 'a' <= rest.drop_first()[i] <= 'z') by {
            assert(rest.drop_first()[i] == rest[i + 1]);
        }
        lemma_scan_identifier_run(rest.drop_first(), mem.push(c));
        lemma_scan_identifier_char(mem, c);
        assert(scan_step(ScanState::StartIdentifier, mem, c) == ScanStep::Next(ScanState::StartIdentifier, mem.push(c), Seq::<TokenView>::empty()));
        assert(!step_traps(ScanState::StartIdentifier, mem, c));
        let o = scan_chars(rest.drop_first().push(' '), ScanState::StartIdentifier, mem.push(c));
        assert(Seq::<TokenView>::empty() + seq![TokenView::Iden(mem + rest)] =~= seq![TokenView::Iden(mem + rest)]);
        assert(scan_chars(input, ScanState::StartIdentifier, mem) == after_tokens(Seq::<TokenView>::empty(), o));
        assert(!scan_traps(input, ScanState::StartIdentifier, mem));
    }
}

/// A letter followed by letters and digits, then a space, scans from the start to exactly one
/// identifier token with that name, and the scanner is back at `Start` with nothing pending.
pub proof fn lemma_scan_word(w: Seq<char>)
    requires
        w.len() > 0,
        'A' <= w[0] <= 'Z' || 'a' <= w[0] <= 'z',
        forall|i: int| 0 <= i < w.len() ==> ('0' <= #[trigger] w[i] <= '9' || 'A' <= w[i] <= 'Z' || 'a' <= w[i] <= 'z'),
    ensures
        scan_chars(w.push(' '), ScanState::Start, Seq::<char>::empty()) == (ScanOutcome {
            state: ScanState::Start,
            mem: Seq::<char>::empty(),
            result: Ok(seq![TokenView::Iden(w)]),
        }),
        !scan_traps(w.push(' '), ScanState::Start, Seq::<char>::empty()),
{
    let input = w.push(' ');
    let rest = w.drop_first();
    assert(input[0] == w[0]);
    assert(input.drop_first() =~= rest.push(' '));
    assert forall|i: int| 0 <= i < rest.len() implies ('0' <= #[trigger] rest[i] <= '9' || 'A' <= rest[i] <= 'Z' || 'a' <= rest[i] <= 'z') by {
        assert(rest[i] == w[i + 1]);
    }
    lemma_scan_identifier_run(rest, seq![w[0]]);
    assert(Seq::<char>::empty().push(w[0]) =~= seq![w[0]]);
    assert(seq![w[0]] + rest =~= w);
    assert(Seq::<TokenView>::empty() + seq![TokenView::Iden(w)] =~= seq![TokenView::Iden(w)]);
}

proof fn lemma_scan_digit_run(rest: Seq<char>, mem: Seq<char>)
    requires
        forall|i: int| 0 <= i < rest.len() ==> '0' <= #[trigger] rest[i] <= '9',
        parse_u16_spec(mem + rest) is Some,
    ensures
        scan_chars(rest.push(' '), ScanState::StartNumber, mem) == (ScanOutcome {
            state: ScanState::Start,
            mem: Seq::<char>::empty(),
            result: Ok(seq![TokenView::Number(parse_u16_spec(mem + rest).unwrap())]),
        }),
        !scan_traps(rest.push(' '), ScanState::StartNumber, mem),
    decreases rest.len(),
{
    let input = rest.push(' ');
    if rest.len() == 0 {
        assert(mem + rest =~= mem);
        assert(input[0] == ' ');
        assert(input.drop_first() =~= Seq::<char>::empty());
        let t = seq![TokenView::Number(parse_u16_spec(mem).unwrap())];
        assert(t + Seq::<TokenView>::empty() =~= t);
        assert(scan_step(ScanState::StartNumber, mem, ' ') == ScanStep::Next(ScanState::Start, Seq::<char>::empty(), t));
        assert(scan_chars(input, ScanState::StartNumber, mem) == after_tokens(t, scan_chars(Seq::<char>::empty(), ScanState::Start, Seq::<char>::empty())));
        assert(!scan_traps(Seq::<char>::empty(), ScanState::Start, Seq::<char>::empty()));
        assert(!scan_traps(input, ScanState::StartNumber, mem));
    } else {
        let c = rest[0];
        assert('0' <= rest[0] <= '9');
        assert(input[0] == c);
        assert(input.drop_first() =~= rest.drop_first().push(' '));
        assert(mem.push(c) + rest.drop_first() =~= mem + rest);
        assert forall|i: int| 0 <= i < rest.drop_first().len() implies '0' <= #[trigger] rest.drop_first()[i] <= '9' by {
            assert(rest.drop_first()[i] == rest[i + 1]);
        }
        lemma_scan_digit_run(rest.drop_first(), mem.push(c));
        lemma_scan_number_char(mem, c);
        let t = seq![TokenView::Number(parse_u16_spec(mem + rest).unwrap())];
        assert(Seq::<TokenView>::empty() + t =~= t);
        let o = scan_chars(rest.drop_first().push(' '), ScanState::StartNumber, mem.push(c));
        assert(scan_step(ScanState::StartNumber, mem, c) == ScanStep::Next(ScanState::StartNumber, mem.push(c), Seq::<TokenView>::empty()));
        assert(!step_traps(ScanState::StartNumber, mem, c));
        assert(scan_chars(input, ScanState::StartNumber, mem) == after_tokens(Seq::<TokenView>::empty(), o));
        assert(!scan_traps(input, ScanState::StartNumber, mem));
    }
}

/// The decimal text of any `u16`, then a space, scans from the start to exactly one number
/// token with that value.
pub proof fn lemma_scan_number(n: u16)
    ensures
        scan_chars(decimal(n as nat).push(' '), ScanState::Start, Seq::<char>::empty()) == (ScanOutcome {
            state: ScanState::Start,
            mem: Seq::<char>::empty(),
            result: Ok(seq![TokenView::Number(n)]),
        }),
        !scan_traps(decimal(n as nat).push(' '), ScanState::Start, Seq::<char>::empty()),
{
    let w = decimal(n as nat);
    lemma_decimal_reads_back(n as nat);
    lemma_parse_u16_of_decimal(n);
    let input = w.push(' ');
    let rest = w.drop_first();
    assert(is_digit(w[0]));
    assert(input[0] == w[0]);
    assert(input.drop_first() =~= rest.push(' '));
    assert forall|i: int| 0 <= i < rest.len() implies '0' <= #[trigger] rest[i] <= '9' by {
        assert(rest[i] == w[i + 1]);
        assert(is_digit(w[i + 1]));
    }
    assert(Seq::<char>::empty().push(w[0]) =~= seq![w[0]]);
    assert(seq![w[0]] + rest =~= w);
    lemma_scan_digit_run(rest, seq![w[0]]);
    assert(Seq::<TokenView>::empty() + seq![TokenView::Number(n)] =~= seq![TokenView::Number(n)]);
}

/// `scan` reads the first `size` bytes (all of them when there are fewer), each as the
/// character with that code.
pub proof fn lemma_scanned_chars(raw: Seq<u8>, size: usize)
    ensures
        scanned_chars(raw, size).len() == if size < raw.len() { size as int } else { raw.len() as int },
        forall|i: int| 0 <= i < scanned_chars(raw, size).len() ==> #[trigger] scanned_chars(raw, size)[i] == raw[i] as char,
{
}

proof fn lemma_leading_zero_value(s: Seq<char>)
    ensures
        digits_value(seq!['0'] + s) == digits_value(s),
    decreases s.len(),
{
    if s.len() == 0 {
        assert((seq!['0'] + s).drop_last() =~= Seq::<char>::empty());
        assert((seq!['0'] + s).last() == '0');
        assert(digits_value(seq!['0'] + s) == digits_value(Seq::<char>::empty()) * 10 + digit_value('0'));
        assert(digits_value(s) == 0);
    } else {
        assert((seq!['0'] + s).drop_last() =~= seq!['0'] + s.drop_last());
        assert((seq!['0'] + s).last() == s.last());
        lemma_leading_zero_value(s.drop_last());
        assert(digits_value(seq!['0'] + s) == digits_value(seq!['0'] + s.drop_last()) * 10 + digit_value(s.last()));
        assert(digits_value(s) == digits_value(s.drop_last()) * 10 + digit_value(s.last()));
    }
}

/// Reading a number: empty text, a lone `+`, and any text with a character that is neither a
/// digit nor a leading `+` give nothing; digits with a value above 65535 give nothing; a `+`
/// or a leading zero before a number's decimal text changes nothing.
pub proof fn lemma_parse_u16_text(s: Seq<char>, n: u16)
    ensures
        parse_u16_spec(Seq::<char>::empty()) is None,
        parse_u16_spec(seq!['+']) is None,
        (exists|i: int| 0 <= i < s.len() && !('0' <= #[trigger] s[i] <= '9') && !(i == 0 && s[i] == '+'))
            ==> parse_u16_spec(s) is None,
        ((forall|i: int| 0 <= i < s.len() ==> '0' <= #[trigger] s[i] <= '9') && digits_value(s) > 65535)
            ==> parse_u16_spec(s) is None,
        parse_u16_spec(seq!['+'] + decimal(n as nat)) == Some(n),
        parse_u16_spec(seq!['0'] + decimal(n as nat)) == Some(n),
{
    assert(seq!['+'].drop_first() =~= Seq::<char>::empty());
    if exists|i: int| 0 <= i < s.len() && !('0' <= #[trigger] s[i] <= '9') && !(i == 0 && s[i] == '+') {
        let i = choose|i: int| 0 <= i < s.len() && !('0' <= #[trigger] s[i] <= '9') && !(i == 0 && s[i] == '+');
        if s.len() > 0 && s[0] == '+' {
            assert(s.drop_first()[i - 1] == s[i]);
            assert(!is_digit(s.drop_first()[i - 1]));
        } else {
            assert(!is_digit(s[i]));
        }
    }
    if (forall|i: int| 0 <= i < s.len() ==> '0' <= #[trigger] s[i] <= '9') && digits_value(s) > 65535 {
        if s.len() > 0 {
            assert('0' <= s[0] <= '9');
        }
    }
    lemma_decimal_reads_back(n as nat);
    lemma_parse_u16_of_decimal(n);
    let d = decimal(n as nat);
    assert((seq!['+'] + d)[0] == '+');
    assert((seq!['+'] + d).drop_first() =~= d);
    lemma_leading_zero_value(d);
    let z = seq!['0'] + d;
    assert(z[0] == '0');
    assert forall|i: int| 0 <= i < z.len() implies #[trigger] is_digit(z[i]) by {
        if i > 0 {
            assert(z[i] == d[i - 1]);
        }
    }
}

proof fn lemma_digit_run_traps(rest: Seq<char>, mem: Seq<char>)
    requires
        mem.len() > 0,
        forall|i: int| 0 <= i < mem.len() ==> '0' <= #[trigger] mem[i] <= '9',
        forall|i: int| 0 <= i < rest.len() ==> '0' <= #[trigger] rest[i] <= '9',
    ensures
        scan_traps(rest.push(' '), ScanState::StartNumber, mem) == (digits_value(mem + rest) > 65535),
    decreases rest.len(),
{
    let input = rest.push(' ');
    let whole = mem + rest;
    assert(is_digit(whole[0]));
    assert(all_digits(whole)) by {
        assert forall|i: int| 0 <= i < whole.len() implies #[trigger] is_digit(whole[i]) by {
            if i < mem.len() {
                assert(whole[i] == mem[i]);
            } else {
                assert(whole[i] == rest[i - mem.len()]);
            }
        }
    }
    if rest.len() == 0 {
        assert(whole =~= mem);
        assert(input[0] == ' ');
        assert(input.drop_first() =~= Seq::<char>::empty());
        assert(!scan_traps(Seq::<char>::empty(), ScanState::Start, Seq::<char>::empty()));
    } else {
        let c = rest[0];
        assert('0' <= rest[0] <= '9');
        assert(input[0] == c);
        assert(input.drop_first() =~= rest.drop_first().push(' '));
        assert(mem.push(c) + rest.drop_first() =~= whole);
        assert forall|i: int| 0 <= i < rest.drop_first().len() implies '0' <= #[trigger] rest.drop_first()[i] <= '9' by {
            assert(rest.drop_first()[i] == rest[i + 1]);
        }
        assert forall|i: int| 0 <= i < mem.push(c).len() implies '0' <= #[trigger] mem.push(c)[i] <= '9' by {
            if i < mem.len() {
                assert(mem.push(c)[i] == mem[i]);
            }
        }
        assert(is_digit(mem[0]));
        assert(all_digits(mem)) by {
            assert forall|i: int| 0 <= i < mem.len() implies #[trigger] is_digit(mem[i]) by {
                assert('0' <= mem[i] <= '9');
            }
        }
        lemma_digit_run_traps(rest.drop_first(), mem.push(c));
        lemma_scan_number_char(mem, c);
        assert(!step_traps(ScanState::StartNumber, mem, c));
    }
}

/// A run of digits finished by a space stops the program exactly when its value is above
/// 65535.
pub proof fn lemma_scan_number_traps(w: Seq<char>)
    requires
        w.len() > 0,
        forall|i: int| 0 <= i < w.len() ==> '0' <= #[trigger] w[i] <= '9',
    ensures
        scan_traps(w.push(' '), ScanState::Start, Seq::<char>::empty()) == (digits_value(w) > 65535),
{
    let input = w.push(' ');
    let rest = w.drop_first();
    assert('0' <= w[0] <= '9');
    assert(input[0] == w[0]);
    assert(input.drop_first() =~= rest.push(' '));
    assert forall|i: int| 0 <= i < rest.len() implies '0' <= #[trigger] rest[i] <= '9' by {
        assert(rest[i] == w[i + 1]);
    }
    assert(Seq::<char>::empty().push(w[0]) =~= seq![w[0]]);
    assert(seq![w[0]] + rest =~= w);
    lemma_digit_run_traps(rest, seq![w[0]]);
    lemma_scan_start_char(Seq::<char>::empty(), w[0]);
}

/// Two words, each finished by a space, scan to their two identifier tokens in order.
pub proof fn lemma_scan_two_words(a: Seq<char>, b: Seq<char>)
    requires
        a.len() > 0,
        'A' <= a[0] <= 'Z' || 'a' <= a[0] <= 'z',
        forall|i: int| 0 <= i < a.len() ==> ('0' <= #[trigger] a[i] <= '9' || 'A' <= a[i] <= 'Z' || 'a' <= a[i] <= 'z'),
        b.len() > 0,
        'A' <= b[0] <= 'Z' || 'a' <= b[0] <= 'z',
        forall|i: int| 0 <= i < b.len() ==> ('0' <= #[trigger] b[i] <= '9' || 'A' <= b[i] <= 'Z' || 'a' <= b[i] <= 'z'),
    ensures
        scan_chars(a.push(' ') + b.push(' '), ScanState::Start, Seq::<char>::empty()) == (ScanOutcome {
            state: ScanState::Start,
            mem: Seq::<char>::empty(),
            result: Ok(seq![TokenView::Iden(a), TokenView::Iden(b)]),
        }),
{
    lemma_scan_word(a);
    lemma_scan_word(b);
    lemma_scan_in_pieces(a.push(' '), b.push(' '), ScanState::Start, Seq::<char>::empty());
    assert(seq![TokenView::Iden(a)] + seq![TokenView::Iden(b)] =~= seq![TokenView::Iden(a), TokenView::Iden(b)]);
}

} // verus!
