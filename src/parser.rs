//! The parser: source text to a block of instructions.
//!
//! ```text
//! block       := '{' [instr (';' instr)*] [';'] '}'
//! instr       := ADD | INT | GT | SWAP
//!              | PUSH type literal
//!              | DROP [nat] | DUP [nat] | DIP [nat] block
//!              | IF block block | LOOP block
//! type        := int | nat | bool | mutez
//! literal     := signed integer | True | False
//! nat         := integer in [0, 1023]
//! ```
//!
//! Positions in errors are byte offsets into the source.
use crate::ast::{Instruction, Prim, Value, AST};
use crate::lexer::{lex, lex_stuck_at, lexes_to, literal_int, tokens_wf, Tok, Token};
use vstd::prelude::*;
use vstd::string::{StringExecFns, StringSliceAdditionalSpecFns};

verus! {

/// The largest depth argument of `DROP`, `DUP` and `DIP`.
pub const MAX_DEPTH: u16 = 1023;

/// What the parser would have accepted where it stopped.
#[derive(PartialEq, Eq, Structural, Clone, Copy, Debug)]
pub enum Expected {
    Open,
    InstrOrClose,
    SemiOrClose,
    SemiCloseOrNat,
    TypeName,
    Literal,
    NatOrOpen,
}

/// Why a text does not parse.
#[derive(PartialEq, Eq, Debug)]
pub enum ParserError {
    /// No token starts at `location`.
    InvalidToken { location: usize },
    /// The text ended where more was needed.
    UnrecognizedEof { location: usize, expected: Expected },
    /// A token that cannot stand where it is.
    UnrecognizedToken { token: String, start: usize, end: usize, expected: Expected },
    /// A token after the closing brace of the program.
    ExtraToken { token: String, start: usize, end: usize },
    /// A depth argument above `MAX_DEPTH`, as written.
    DepthOutOfRange { literal: String },
    /// An integer literal that does not fit in 128 bits, as written.
    NumberOutOfRange { literal: String },
}

/// Each byte of `s` read as the character of the same code.
pub open spec fn bytes_chars(s: Seq<u8>) -> Seq<char> {
    s.map_values(|x: u8| x as char)
}

/// A depth argument that the grammar accepts.
pub open spec fn depth_ok(n: Option<u16>) -> bool {
    match n {
        Some(k) => k <= MAX_DEPTH,
        None => true,
    }
}

/// Every depth argument in `i`, nested blocks included, is at most
/// `MAX_DEPTH`.
pub open spec fn instr_depths_ok(i: Instruction) -> bool
    decreases i, 0nat,
{
    match i {
        Instruction::Drop(n) => depth_ok(n),
        Instruction::Dup(n) => depth_ok(n),
        Instruction::Dip(n, body) => depth_ok(n) && block_depths_ok(body@, 0),
        Instruction::If(t, f) => block_depths_ok(t@, 0) && block_depths_ok(f@, 0),
        Instruction::Loop(body) => block_depths_ok(body@, 0),
        _ => true,
    }
}

/// Every depth argument in `b[k..]` is at most `MAX_DEPTH`.
pub open spec fn block_depths_ok(b: Seq<Instruction>, k: int) -> bool
    decreases b, b.len() - k,
{
    0 <= k < b.len() ==> instr_depths_ok(b[k]) && block_depths_ok(b, k + 1)
}

proof fn lemma_block_depths_ok(b: Seq<Instruction>, k: int)
    requires
        0 <= k <= b.len(),
        forall|j: int| k <= j < b.len() ==> instr_depths_ok(#[trigger] b[j]),
    ensures
        block_depths_ok(b, k),
    decreases b.len() - k,
{
    if k < b.len() {
        lemma_block_depths_ok(b, k + 1);
    }
}

/// Relies on `String::push`: appends one character.
#[verifier::external_body]
pub(crate) fn push_char(s: &mut String, c: char)
    ensures
        final(s)@ == old(s)@.push(c),
{
    s.push(c)
}

/// Appends the characters of `t`.
fn push_text(s: &mut String, t: &str)
    ensures
        final(s)@ == old(s)@ + t@,
{
    s.append(t);
}

/// The character of decimal digit `d`.
pub open spec fn digit_char(d: nat) -> char {
    if d == 0 {
        '0'
    } else if d == 1 {
        '1'
    } else if d == 2 {
        '2'
    } else if d == 3 {
        '3'
    } else if d == 4 {
        '4'
    } else if d == 5 {
        '5'
    } else if d == 6 {
        '6'
    } else if d == 7 {
        '7'
    } else if d == 8 {
        '8'
    } else {
        '9'
    }
}

/// `n` written in decimal.
pub open spec fn decimal(n: nat) -> Seq<char>
    decreases n,
{
    if n < 10 {
        seq![digit_char(n)]
    } else {
        decimal(n / 10).push(digit_char(n % 10))
    }
}

fn push_decimal(s: &mut String, n: usize)
    ensures
        final(s)@ == old(s)@ + decimal(n as nat),
    decreases n,
{
    if n >= 10 {
        push_decimal(s, n / 10);
    }
    let d = n % 10;
    let c = if d == 0 {
        '0'
    } else if d == 1 {
        '1'
    } else if d == 2 {
        '2'
    } else if d == 3 {
        '3'
    } else if d == 4 {
        '4'
    } else if d == 5 {
        '5'
    } else if d == 6 {
        '6'
    } else if d == 7 {
        '7'
    } else if d == 8 {
        '8'
    } else {
        '9'
    };
    push_char(s, c);
    assert(s@ =~= old(s)@ + decimal(n as nat));
}

/// The text `b[start..end]`.
fn token_text(b: &[u8], start: usize, end: usize) -> (r: String)
    requires
        start <= end <= b@.len(),
    ensures
        r@ == bytes_chars(b@.subrange(start as int, end as int)),
{
    let mut r = String::new();
    let mut j: usize = start;
    while j < end
        invariant
            start <= j <= end <= b@.len(),
            r@ == bytes_chars(b@.subrange(start as int, j as int)),
        decreases end - j,
    {
        push_char(&mut r, b[j] as char);
        assert(b@.subrange(start as int, j + 1) =~= b@.subrange(start as int, j as int).push(b@[j as int]));
        assert(bytes_chars(b@.subrange(start as int, j + 1)) =~= bytes_chars(b@.subrange(start as int, j as int)).push(b@[j as int] as char));
        j = j + 1;
    }
    r
}

/// The second line of a message: what was expected.
pub open spec fn expected_text(e: Expected) -> Seq<char> {
    match e {
        Expected::Open => "Expected one of \"{\""@,
        Expected::InstrOrClose => "Expected one of \"ADD\", \"DIP\", \"DROP\", \"DUP\", \"GT\", \"IF\", \"INT\", \"LOOP\", \"PUSH\", \"SWAP\" or \"}\""@,
        Expected::SemiOrClose => "Expected one of \";\" or \"}\""@,
        Expected::SemiCloseOrNat => "Expected one of \";\", \"}\" or a natural number"@,
        Expected::TypeName => "Expected one of \"bool\", \"int\", \"mutez\" or \"nat\""@,
        Expected::Literal => "Expected one of \"False\", \"True\" or an integer"@,
        Expected::NatOrOpen => "Expected one of \"{\" or a natural number"@,
    }
}

fn push_expected(s: &mut String, e: Expected)
    ensures
        final(s)@ == old(s)@ + expected_text(e),
{
    match e {
        Expected::Open => push_text(s, "Expected one of \"{\""),
        Expected::InstrOrClose => push_text(s, "Expected one of \"ADD\", \"DIP\", \"DROP\", \"DUP\", \"GT\", \"IF\", \"INT\", \"LOOP\", \"PUSH\", \"SWAP\" or \"}\""),
        Expected::SemiOrClose => push_text(s, "Expected one of \";\" or \"}\""),
        Expected::SemiCloseOrNat => push_text(s, "Expected one of \";\", \"}\" or a natural number"),
        Expected::TypeName => push_text(s, "Expected one of \"bool\", \"int\", \"mutez\" or \"nat\""),
        Expected::Literal => push_text(s, "Expected one of \"False\", \"True\" or an integer"),
        Expected::NatOrOpen => push_text(s, "Expected one of \"{\" or a natural number"),
    }
}

/// The message that describes `e`.
pub open spec fn message(e: ParserError) -> Seq<char> {
    match e {
        ParserError::InvalidToken { location } => "Invalid token at "@ + decimal(location as nat),
        ParserError::UnrecognizedEof { location, expected } => "Unrecognized EOF found at "@
            + decimal(location as nat) + "\n"@ + expected_text(expected),
        ParserError::UnrecognizedToken { token, start, end, expected } => "Unrecognized token `"@
            + token@ + "` found at "@ + decimal(start as nat) + ":"@ + decimal(end as nat) + "\n"@
            + expected_text(expected),
        ParserError::ExtraToken { token, start, end } => "Extra token `"@ + token@ + "` found at "@
            + decimal(start as nat) + ":"@ + decimal(end as nat),
        ParserError::DepthOutOfRange { literal } =>
            "expected a natural from 0 to 1023 inclusive, but got "@ + literal@,
        ParserError::NumberOutOfRange { literal } => "integer literal out of range: "@ + literal@,
    }
}

impl ParserError {
    /// The message that describes this error.
    pub fn to_string(&self) -> (r: String)
        ensures
            r@ == message(*self),
    {
        let mut s = String::new();
        match self {
            ParserError::InvalidToken { location } => {
                push_text(&mut s, "Invalid token at ");
                push_decimal(&mut s, *location);
            },
            ParserError::UnrecognizedEof { location, expected } => {
                push_text(&mut s, "Unrecognized EOF found at ");
                push_decimal(&mut s, *location);
                push_text(&mut s, "\n");
                push_expected(&mut s, *expected);
            },
            ParserError::UnrecognizedToken { token, start, end, expected } => {
                push_text(&mut s, "Unrecognized token `");
                push_text(&mut s, token.as_str());
                push_text(&mut s, "` found at ");
                push_decimal(&mut s, *start);
                push_text(&mut s, ":");
                push_decimal(&mut s, *end);
                push_text(&mut s, "\n");
                push_expected(&mut s, *expected);
            },
            ParserError::ExtraToken { token, start, end } => {
                push_text(&mut s, "Extra token `");
                push_text(&mut s, token.as_str());
                push_text(&mut s, "` found at ");
                push_decimal(&mut s, *start);
                push_text(&mut s, ":");
                push_decimal(&mut s, *end);
            },
            ParserError::DepthOutOfRange { literal } => {
                push_text(&mut s, "expected a natural from 0 to 1023 inclusive, but got ");
                push_text(&mut s, literal.as_str());
            },
            ParserError::NumberOutOfRange { literal } => {
                push_text(&mut s, "integer literal out of range: ");
                push_text(&mut s, literal.as_str());
            },
        }
        s
    }
}

/// The token at `p` is of kind `t`.
pub open spec fn tok_at(ts: Seq<Token>, p: int, t: Tok) -> bool {
    0 <= p < ts.len() && ts[p].tok == t
}

/// The token that writes the literal `v`.
pub open spec fn literal_tok(v: Value) -> Tok {
    match v {
        Value::NumberValue(n) => Tok::Number(Some(n)),
        Value::BooleanValue(x) => Tok::Boolean(x),
    }
}

/// Where the depth argument `n` written at `p` ends: a number for
/// `Some(k)`, and no number at all for `None`.
pub open spec fn depth_end(ts: Seq<Token>, p: int, n: Option<u16>) -> Option<int> {
    match n {
        Some(k) => if tok_at(ts, p, Tok::Number(Some(k as i128))) {
            Some(p + 1)
        } else {
            None
        },
        None => if 0 <= p < ts.len() && ts[p].tok is Number {
            None
        } else {
            Some(p)
        },
    }
}

/// Where the tokens that write `i` end, if `ts[p..]` starts with them.
pub open spec fn instr_end(ts: Seq<Token>, p: int, i: Instruction) -> Option<int>
    decreases i, 0int,
{
    match i {
        Instruction::Add(_) => if tok_at(ts, p, Tok::Instr(Prim::Add)) {
            Some(p + 1)
        } else {
            None
        },
        Instruction::Int => if tok_at(ts, p, Tok::Instr(Prim::Int)) {
            Some(p + 1)
        } else {
            None
        },
        Instruction::Gt => if tok_at(ts, p, Tok::Instr(Prim::Gt)) {
            Some(p + 1)
        } else {
            None
        },
        Instruction::Swap => if tok_at(ts, p, Tok::Instr(Prim::Swap)) {
            Some(p + 1)
        } else {
            None
        },
        Instruction::Push((t, v)) => if tok_at(ts, p, Tok::Instr(Prim::Push)) && tok_at(ts, p + 1, Tok::Ty(t))
            && tok_at(ts, p + 2, literal_tok(v)) {
            Some(p + 3)
        } else {
            None
        },
        Instruction::Drop(n) => if tok_at(ts, p, Tok::Instr(Prim::Drop)) {
            depth_end(ts, p + 1, n)
        } else {
            None
        },
        Instruction::Dup(n) => if tok_at(ts, p, Tok::Instr(Prim::Dup)) {
            depth_end(ts, p + 1, n)
        } else {
            None
        },
        Instruction::Dip(n, body) => if tok_at(ts, p, Tok::Instr(Prim::Dip)) {
            match depth_end(ts, p + 1, n) {
                Some(q) => block_end(ts, q, body@),
                None => None,
            }
        } else {
            None
        },
        Instruction::If(t, f) => if tok_at(ts, p, Tok::Instr(Prim::If)) {
            match block_end(ts, p + 1, t@) {
                Some(q) => block_end(ts, q, f@),
                None => None,
            }
        } else {
            None
        },
        Instruction::Loop(body) => if tok_at(ts, p, Tok::Instr(Prim::Loop)) {
            block_end(ts, p + 1, body@)
        } else {
            None
        },
    }
}

/// Where the first `m` items of `b`, each followed by `;`, end when written
/// from `p`.
pub open spec fn items_end(ts: Seq<Token>, p: int, b: Seq<Instruction>, m: int) -> Option<int>
    decreases b, m,
{
    if m <= 0 || m > b.len() {
        Some(p)
    } else {
        match items_end(ts, p, b, m - 1) {
            Some(q) => match instr_end(ts, q, b[m - 1]) {
                Some(q2) => if tok_at(ts, q2, Tok::Semi) {
                    Some(q2 + 1)
                } else {
                    None
                },
                None => None,
            },
            None => None,
        }
    }
}

/// Where the block `b` written from `p` ends: `{`, the items separated by
/// `;` with an optional `;` after the last, then `}`.
pub open spec fn block_end(ts: Seq<Token>, p: int, b: Seq<Instruction>) -> Option<int>
    decreases b, b.len() + 1,
{
    if !tok_at(ts, p, Tok::LBrace) {
        None
    } else if b.len() == 0 {
        if tok_at(ts, p + 1, Tok::RBrace) {
            Some(p + 2)
        } else {
            None
        }
    } else {
        match items_end(ts, p + 1, b, b.len() - 1) {
            Some(q) => match instr_end(ts, q, b[b.len() - 1]) {
                Some(q2) => if tok_at(ts, q2, Tok::RBrace) {
                    Some(q2 + 1)
                } else if tok_at(ts, q2, Tok::Semi) && tok_at(ts, q2 + 1, Tok::RBrace) {
                    Some(q2 + 2)
                } else {
                    None
                },
                None => None,
            },
            None => None,
        }
    }
}

proof fn lemma_items_end_push(ts: Seq<Token>, p: int, b: Seq<Instruction>, x: Instruction, m: int)
    requires
        0 <= m <= b.len(),
    ensures
        items_end(ts, p, b.push(x), m) == items_end(ts, p, b, m),
    decreases m,
{
    if m > 0 {
        lemma_items_end_push(ts, p, b, x, m - 1);
        assert(b.push(x)[m - 1] == b[m - 1]);
    }
}

/// Where the depth argument at `p` ends as the parser reads it: a number in
/// `0..=MAX_DEPTH` is taken, any other number is rejected, and anything else
/// leaves the argument out.
pub open spec fn pdepth(ts: Seq<Token>, p: int) -> Option<int> {
    if 0 <= p < ts.len() && ts[p].tok is Number {
        match ts[p].tok {
            Tok::Number(Some(v)) => if 0 <= v <= MAX_DEPTH {
                Some(p + 1)
            } else {
                None
            },
            _ => None,
        }
    } else {
        Some(p)
    }
}

/// Where the parser ends the instruction whose name is at `p`, if it accepts
/// it.
pub open spec fn pinstr(ts: Seq<Token>, p: int) -> Option<int>
    decreases ts.len() - p, 0int,
{
    if 0 <= p < ts.len() && ts[p].tok is Instr {
        match ts[p].tok->Instr_0 {
            Prim::Push => if 0 <= p + 2 < ts.len() && ts[p + 1].tok is Ty && (ts[p + 2].tok is Boolean
                || ts[p + 2].tok matches Tok::Number(Some(_))) {
                Some(p + 3)
            } else {
                None
            },
            Prim::Drop | Prim::Dup => pdepth(ts, p + 1),
            Prim::Dip => match pdepth(ts, p + 1) {
                Some(q) => if p < q <= ts.len() {
                    pblock(ts, q)
                } else {
                    None
                },
                None => None,
            },
            Prim::If => match pblock(ts, p + 1) {
                Some(q) => if p < q <= ts.len() {
                    pblock(ts, q)
                } else {
                    None
                },
                None => None,
            },
            Prim::Loop => pblock(ts, p + 1),
            _ => Some(p + 1),
        }
    } else {
        None
    }
}

/// Where the parser ends the items of a block that start at `p`, with the
/// closing brace.
pub open spec fn pitems(ts: Seq<Token>, p: int) -> Option<int>
    decreases ts.len() - p, 1int,
{
    if !(0 <= p < ts.len()) {
        None
    } else if ts[p].tok == Tok::RBrace {
        Some(p + 1)
    } else if ts[p].tok is Instr {
        match pinstr(ts, p) {
            Some(q) => if p < q < ts.len() {
                if ts[q].tok == Tok::Semi {
                    pitems(ts, q + 1)
                } else if ts[q].tok == Tok::RBrace {
                    Some(q + 1)
                } else {
                    None
                }
            } else {
                None
            },
            None => None,
        }
    } else {
        None
    }
}

/// Where the parser ends the block that starts at `p`, if it accepts it.
pub open spec fn pblock(ts: Seq<Token>, p: int) -> Option<int>
    decreases ts.len() - p, 2int,
{
    if tok_at(ts, p, Tok::LBrace) {
        pitems(ts, p + 1)
    } else {
        None
    }
}

/// Where, and on what, the parser stops: a token that cannot stand where it
/// is (or the end of the text) with what was expected there, a depth
/// argument out of range, or a literal too large to hold.
pub enum PErr {
    Unexpected(int, Expected),
    Depth(int),
    Literal(int),
}

/// What is expected after an instruction that starts at `p` and ends at `q`:
/// a bare `DROP` or `DUP` may still take a number.
pub open spec fn expected_after(ts: Seq<Token>, p: int, q: int) -> Expected {
    if (ts[p].tok == Tok::Instr(Prim::Drop) || ts[p].tok == Tok::Instr(Prim::Dup)) && q == p + 1 {
        Expected::SemiCloseOrNat
    } else {
        Expected::SemiOrClose
    }
}

/// Where the parser stops on the instruction whose name is at `p`, when
/// `pinstr` does not accept it.
pub open spec fn pinstr_err(ts: Seq<Token>, p: int) -> PErr
    decreases ts.len() - p, 0int,
{
    if 0 <= p < ts.len() && ts[p].tok is Instr {
        match ts[p].tok->Instr_0 {
            Prim::Push => if !(p + 1 < ts.len() && ts[p + 1].tok is Ty) {
                PErr::Unexpected(p + 1, Expected::TypeName)
            } else if !(p + 2 < ts.len()) {
                PErr::Unexpected(p + 2, Expected::Literal)
            } else if ts[p + 2].tok == Tok::Number(None) {
                PErr::Literal(p + 2)
            } else {
                PErr::Unexpected(p + 2, Expected::Literal)
            },
            Prim::Drop | Prim::Dup => PErr::Depth(p + 1),
            Prim::Dip => match pdepth(ts, p + 1) {
                None => PErr::Depth(p + 1),
                Some(q) => if !tok_at(ts, q, Tok::LBrace) {
                    PErr::Unexpected(q, if q == p + 1 { Expected::NatOrOpen } else { Expected::Open })
                } else if p < q <= ts.len() {
                    pblock_err(ts, q)
                } else {
                    PErr::Depth(p)
                },
            },
            Prim::If => match pblock(ts, p + 1) {
                None => pblock_err(ts, p + 1),
                Some(q) => if p < q <= ts.len() {
                    pblock_err(ts, q)
                } else {
                    PErr::Depth(p)
                },
            },
            Prim::Loop => pblock_err(ts, p + 1),
            _ => PErr::Depth(p),
        }
    } else {
        PErr::Depth(p)
    }
}

/// Where the parser stops on the items of a block from `p`, when `pitems`
/// does not accept them.
pub open spec fn pitems_err(ts: Seq<Token>, p: int) -> PErr
    decreases ts.len() - p, 1int,
{
    if !(0 <= p < ts.len()) {
        PErr::Unexpected(p, Expected::InstrOrClose)
    } else if ts[p].tok is Instr {
        match pinstr(ts, p) {
            None => pinstr_err(ts, p),
            Some(q) => if p < q < ts.len() && ts[q].tok == Tok::Semi {
                pitems_err(ts, q + 1)
            } else {
                PErr::Unexpected(q, expected_after(ts, p, q))
            },
        }
    } else {
        PErr::Unexpected(p, Expected::InstrOrClose)
    }
}

/// Where the parser stops on the block from `p`, when `pblock` does not
/// accept it.
pub open spec fn pblock_err(ts: Seq<Token>, p: int) -> PErr
    decreases ts.len() - p, 2int,
{
    if !tok_at(ts, p, Tok::LBrace) {
        PErr::Unexpected(p, Expected::Open)
    } else {
        pitems_err(ts, p + 1)
    }
}

/// The error `e` is the one for where the parser stopped: the token there
/// (its text, place and what was expected), or the end of the text.
pub open spec fn error_matches(b: Seq<u8>, ts: Seq<Token>, pe: PErr, e: ParserError) -> bool {
    match pe {
        PErr::Unexpected(p, x) => if 0 <= p < ts.len() {
            &&& e is UnrecognizedToken
            &&& e->UnrecognizedToken_start == ts[p].start
            &&& e->UnrecognizedToken_end == ts[p].end
            &&& e->UnrecognizedToken_expected == x
            &&& e->UnrecognizedToken_token@ == bytes_chars(b.subrange(ts[p].start as int, ts[p].end as int))
        } else {
            e == ParserError::UnrecognizedEof { location: b.len() as usize, expected: x }
        },
        PErr::Depth(p) => {
            &&& 0 <= p < ts.len()
            &&& e is DepthOutOfRange
            &&& e->DepthOutOfRange_literal@ == bytes_chars(b.subrange(ts[p].start as int, ts[p].end as int))
        },
        PErr::Literal(p) => {
            &&& 0 <= p < ts.len()
            &&& e is NumberOutOfRange
            &&& e->NumberOutOfRange_literal@ == bytes_chars(b.subrange(ts[p].start as int, ts[p].end as int))
        },
    }
}

/// The name of instruction `i`.
pub open spec fn prim_of(i: Instruction) -> Prim {
    match i {
        Instruction::Add(_) => Prim::Add,
        Instruction::Int => Prim::Int,
        Instruction::Gt => Prim::Gt,
        Instruction::Swap => Prim::Swap,
        Instruction::Push(_) => Prim::Push,
        Instruction::Drop(_) => Prim::Drop,
        Instruction::Dup(_) => Prim::Dup,
        Instruction::Dip(_, _) => Prim::Dip,
        Instruction::If(_, _) => Prim::If,
        Instruction::Loop(_) => Prim::Loop,
    }
}

proof fn lemma_depths_items(a: Seq<Instruction>, k: int)
    requires
        block_depths_ok(a, k),
        0 <= k,
    ensures
        forall|j: int| k <= j < a.len() ==> instr_depths_ok(#[trigger] a[j]),
    decreases a.len() - k,
{
    if k < a.len() {
        lemma_depths_items(a, k + 1);
    }
}

proof fn lemma_items_end_prefix(ts: Seq<Token>, p: int, a: Seq<Instruction>, m: int, k: int)
    requires
        0 <= k <= m <= a.len(),
        items_end(ts, p, a, m) is Some,
    ensures
        items_end(ts, p, a, k) is Some,
    decreases m - k,
{
    if k < m {
        lemma_items_end_prefix(ts, p, a, m - 1, k);
    }
}

/// The parser accepts every instruction that the tokens write, up to the
/// same place.
pub proof fn lemma_pinstr_complete(ts: Seq<Token>, p: int, i: Instruction)
    requires
        instr_end(ts, p, i) is Some,
        instr_depths_ok(i),
    ensures
        pinstr(ts, p) == instr_end(ts, p, i),
        instr_end(ts, p, i)->Some_0 > p,
        tok_at(ts, p, Tok::Instr(prim_of(i))),
    decreases i, 0int,
{
    match i {
        Instruction::Dip(n, body) => {
            let q = depth_end(ts, p + 1, n)->Some_0;
            lemma_pblock_complete(ts, q, body@);
        },
        Instruction::If(t, f) => {
            lemma_pblock_complete(ts, p + 1, t@);
            let q = block_end(ts, p + 1, t@)->Some_0;
            lemma_pblock_complete(ts, q, f@);
        },
        Instruction::Loop(body) => {
            lemma_pblock_complete(ts, p + 1, body@);
        },
        _ => {},
    }
}

/// The parser accepts every block that the tokens write, up to the same
/// place.
pub proof fn lemma_pblock_complete(ts: Seq<Token>, p: int, a: Seq<Instruction>)
    requires
        block_end(ts, p, a) is Some,
        block_depths_ok(a, 0),
    ensures
        pblock(ts, p) == block_end(ts, p, a),
        block_end(ts, p, a)->Some_0 > p,
    decreases a, a.len() + 1,
{
    lemma_depths_items(a, 0);
    if a.len() > 0 {
        lemma_items_end_prefix(ts, p + 1, a, a.len() - 1, 0);
    }
    lemma_pitems_complete(ts, p, a, 0);
}

proof fn lemma_pitems_complete(ts: Seq<Token>, p: int, a: Seq<Instruction>, k: int)
    requires
        block_end(ts, p, a) is Some,
        forall|j: int| 0 <= j < a.len() ==> instr_depths_ok(#[trigger] a[j]),
        0 <= k <= a.len(),
        items_end(ts, p + 1, a, k) is Some,
        items_end(ts, p + 1, a, k)->Some_0 > p,
    ensures
        pitems(ts, items_end(ts, p + 1, a, k)->Some_0) == block_end(ts, p, a),
        block_end(ts, p, a)->Some_0 > p,
    decreases a, a.len() - k,
{
    let x = items_end(ts, p + 1, a, k)->Some_0;
    let n = a.len() as int;
    if k < n {
        if k + 1 < n {
            lemma_items_end_prefix(ts, p + 1, a, n - 1, k + 1);
            assert(items_end(ts, p + 1, a, k + 1) is Some);
        } else {
            assert(items_end(ts, p + 1, a, n - 1) == Some(x));
        }
        assert(instr_end(ts, x, a[k]) is Some);
        lemma_pinstr_complete(ts, x, a[k]);
        let y = instr_end(ts, x, a[k])->Some_0;
        if k + 1 < n {
            lemma_items_end_prefix(ts, p + 1, a, n - 1, k + 1);
            assert(items_end(ts, p + 1, a, k + 1) == Some(y + 1));
            lemma_pitems_complete(ts, p, a, k + 1);
        } else {
            assert(items_end(ts, p + 1, a, n - 1) == Some(x));
        }
    } else {
        if n > 0 {
            lemma_items_end_prefix(ts, p + 1, a, n, n - 1);
        }
    }
}

/// `i1` and `i2` are the same instruction, nested blocks compared item by
/// item.
pub open spec fn same_instr(i1: Instruction, i2: Instruction) -> bool
    decreases i1, 0int,
{
    match (i1, i2) {
        (Instruction::Add(_), Instruction::Add(_)) => true,
        (Instruction::Int, Instruction::Int) => true,
        (Instruction::Gt, Instruction::Gt) => true,
        (Instruction::Swap, Instruction::Swap) => true,
        (Instruction::Push(x), Instruction::Push(y)) => x == y,
        (Instruction::Drop(n), Instruction::Drop(m)) => n == m,
        (Instruction::Dup(n), Instruction::Dup(m)) => n == m,
        (Instruction::Dip(n, b1), Instruction::Dip(m, b2)) => n == m && same_block(b1@, b2@, 0),
        (Instruction::If(t1, f1), Instruction::If(t2, f2)) => same_block(t1@, t2@, 0) && same_block(
            f1@,
            f2@,
            0,
        ),
        (Instruction::Loop(b1), Instruction::Loop(b2)) => same_block(b1@, b2@, 0),
        _ => false,
    }
}

/// `b1[k..]` and `b2[k..]` are the same instructions, item by item.
pub open spec fn same_block(b1: Seq<Instruction>, b2: Seq<Instruction>, k: int) -> bool
    decreases b1, b1.len() - k,
{
    &&& b1.len() == b2.len()
    &&& (0 <= k < b1.len() ==> same_instr(b1[k], b2[k]) && same_block(b1, b2, k + 1))
}

/// After the items of a written block comes its closing brace.
proof fn lemma_block_closes(ts: Seq<Token>, p: int, a: Seq<Instruction>)
    requires
        block_end(ts, p, a) is Some,
        items_end(ts, p + 1, a, a.len() as int) is Some,
    ensures
        tok_at(ts, items_end(ts, p + 1, a, a.len() as int)->Some_0, Tok::RBrace),
        block_end(ts, p, a) == Some(items_end(ts, p + 1, a, a.len() as int)->Some_0 + 1),
{
}

/// What follows item `k` of a written block: `;` and the next items, or the
/// closing brace after the last item.
proof fn lemma_block_item_next(ts: Seq<Token>, p: int, a: Seq<Instruction>, k: int)
    requires
        block_end(ts, p, a) is Some,
        0 <= k < a.len(),
        items_end(ts, p + 1, a, k) is Some,
        instr_end(ts, items_end(ts, p + 1, a, k)->Some_0, a[k]) is Some,
    ensures
        ({
            let y = instr_end(ts, items_end(ts, p + 1, a, k)->Some_0, a[k])->Some_0;
            ||| tok_at(ts, y, Tok::Semi) && items_end(ts, p + 1, a, k + 1) == Some(y + 1)
            ||| k + 1 == a.len() && tok_at(ts, y, Tok::RBrace) && block_end(ts, p, a) == Some(y + 1)
        }),
{
    let n = a.len() as int;
    if k + 1 < n {
        lemma_items_end_prefix(ts, p + 1, a, n - 1, k + 1);
    }
}

/// The tokens determine the instruction: two instructions written by the
/// same tokens from `p` are the same instruction and end at the same place.
pub proof fn lemma_instr_unique(ts: Seq<Token>, p: int, i1: Instruction, i2: Instruction)
    requires
        instr_end(ts, p, i1) is Some,
        instr_end(ts, p, i2) is Some,
    ensures
        instr_end(ts, p, i1) == instr_end(ts, p, i2),
        same_instr(i1, i2),
    decreases i1, 0int,
{
    match (i1, i2) {
        (Instruction::Push((t1, v1)), Instruction::Push((t2, v2))) => {
            assert(literal_tok(v1) == literal_tok(v2));
        },
        (Instruction::Drop(n1), Instruction::Drop(n2)) => {
            assert(n1 == n2);
        },
        (Instruction::Dup(n1), Instruction::Dup(n2)) => {
            assert(n1 == n2);
        },
        (Instruction::Dip(n1, b1), Instruction::Dip(n2, b2)) => {
            assert(n1 == n2);
            let q = depth_end(ts, p + 1, n1)->Some_0;
            lemma_block_unique(ts, q, b1@, b2@);
        },
        (Instruction::If(t1, f1), Instruction::If(t2, f2)) => {
            lemma_block_unique(ts, p + 1, t1@, t2@);
            let q = block_end(ts, p + 1, t1@)->Some_0;
            lemma_block_unique(ts, q, f1@, f2@);
        },
        (Instruction::Loop(b1), Instruction::Loop(b2)) => {
            lemma_block_unique(ts, p + 1, b1@, b2@);
        },
        _ => {},
    }
}

/// The tokens determine the block: two blocks written by the same tokens
/// from `p` are the same, item by item, and end at the same place. So
/// parsing the tokens that a parsed program spans gives back that program.
pub proof fn lemma_block_unique(ts: Seq<Token>, p: int, a1: Seq<Instruction>, a2: Seq<Instruction>)
    requires
        block_end(ts, p, a1) is Some,
        block_end(ts, p, a2) is Some,
    ensures
        block_end(ts, p, a1) == block_end(ts, p, a2),
        same_block(a1, a2, 0),
    decreases a1, a1.len() + 1,
{
    if a1.len() > 0 {
        lemma_items_end_prefix(ts, p + 1, a1, a1.len() - 1, 0);
    }
    if a2.len() > 0 {
        lemma_items_end_prefix(ts, p + 1, a2, a2.len() - 1, 0);
    }
    lemma_items_unique(ts, p, a1, a2, 0);
}

proof fn lemma_items_unique(ts: Seq<Token>, p: int, a1: Seq<Instruction>, a2: Seq<Instruction>, k: int)
    requires
        block_end(ts, p, a1) is Some,
        block_end(ts, p, a2) is Some,
        0 <= k <= a1.len(),
        k <= a2.len(),
        items_end(ts, p + 1, a1, k) is Some,
        items_end(ts, p + 1, a1, k) == items_end(ts, p + 1, a2, k),
    ensures
        block_end(ts, p, a1) == block_end(ts, p, a2),
        same_block(a1, a2, k),
    decreases a1, a1.len() - k,
{
    let x = items_end(ts, p + 1, a1, k)->Some_0;
    let n1 = a1.len() as int;
    let n2 = a2.len() as int;
    if k < n1 && k < n2 {
        if k + 1 < n1 {
            lemma_items_end_prefix(ts, p + 1, a1, n1 - 1, k + 1);
            assert(items_end(ts, p + 1, a1, k + 1) is Some);
        } else {
            assert(items_end(ts, p + 1, a1, n1 - 1) == Some(x));
        }
        if k + 1 < n2 {
            lemma_items_end_prefix(ts, p + 1, a2, n2 - 1, k + 1);
            assert(items_end(ts, p + 1, a2, k + 1) is Some);
        } else {
            assert(items_end(ts, p + 1, a2, n2 - 1) == Some(x));
        }
        lemma_instr_unique(ts, x, a1[k], a2[k]);
        lemma_block_item_next(ts, p, a1, k);
        lemma_block_item_next(ts, p, a2, k);
        let y = instr_end(ts, x, a1[k])->Some_0;
        if tok_at(ts, y, Tok::Semi) {
            lemma_items_unique(ts, p, a1, a2, k + 1);
        } else {
            assert(k + 1 == n1 && k + 1 == n2);
            assert(same_block(a1, a2, k + 1));
        }
        assert(same_instr(a1[k], a2[k]));
        assert(same_block(a1, a2, k));
    } else if k < n1 {
        if k + 1 < n1 {
            lemma_items_end_prefix(ts, p + 1, a1, n1 - 1, k + 1);
            assert(items_end(ts, p + 1, a1, k + 1) is Some);
        } else {
            assert(items_end(ts, p + 1, a1, n1 - 1) == Some(x));
        }
        lemma_pinstr_tok(ts, x, a1[k]);
        lemma_block_closes(ts, p, a2);
    } else if k < n2 {
        if k + 1 < n2 {
            lemma_items_end_prefix(ts, p + 1, a2, n2 - 1, k + 1);
            assert(items_end(ts, p + 1, a2, k + 1) is Some);
        } else {
            assert(items_end(ts, p + 1, a2, n2 - 1) == Some(x));
        }
        lemma_pinstr_tok(ts, x, a2[k]);
        lemma_block_closes(ts, p, a1);
    } else {
        lemma_block_closes(ts, p, a1);
        lemma_block_closes(ts, p, a2);
    }
}

/// An instruction is written from a token that names it.
proof fn lemma_pinstr_tok(ts: Seq<Token>, p: int, i: Instruction)
    requires
        instr_end(ts, p, i) is Some,
    ensures
        tok_at(ts, p, Tok::Instr(prim_of(i))),
{
}

/// Reading back the tokens of a program: when tokens `ts` write a program
/// `a` whose depth arguments are in range, the parser reads all of `ts`, and
/// every program that `ts` write is `a`, item by item.
pub proof fn lemma_tokens_round_trip(ts: Seq<Token>, a: Seq<Instruction>, a2: Seq<Instruction>)
    requires
        block_depths_ok(a, 0),
        block_end(ts, 0, a) == Some(ts.len() as int),
        block_end(ts, 0, a2) is Some,
    ensures
        pblock(ts, 0) == Some(ts.len() as int),
        block_end(ts, 0, a2) == Some(ts.len() as int),
        same_block(a, a2, 0),
{
    lemma_pblock_complete(ts, 0, a);
    lemma_block_unique(ts, 0, a, a2);
}

/// The error for the token at `pos`, or for the end of the text when there
/// is none, where `expected` was wanted.
fn unexpected(b: &[u8], toks: &Vec<Token>, pos: usize, expected: Expected) -> (r: ParserError)
    requires
        tokens_wf(b@, toks@),
    ensures
        pos < toks@.len() ==> r is UnrecognizedToken && r->UnrecognizedToken_start
            == toks@[pos as int].start && r->UnrecognizedToken_end == toks@[pos as int].end
            && r->UnrecognizedToken_expected == expected && r->UnrecognizedToken_token@
            == bytes_chars(b@.subrange(toks@[pos as int].start as int, toks@[pos as int].end as int)),
        pos >= toks@.len() ==> r == (ParserError::UnrecognizedEof { location: b@.len() as usize, expected }),
{
    if pos < toks.len() {
        let t = toks[pos];
        ParserError::UnrecognizedToken {
            token: token_text(b, t.start, t.end),
            start: t.start,
            end: t.end,
            expected,
        }
    } else {
        ParserError::UnrecognizedEof { location: b.len(), expected }
    }
}

/// A depth argument outside `0..=MAX_DEPTH`, or too large to read.
pub open spec fn depth_out_of_range(b: Seq<u8>, t: Token) -> bool {
    t.tok is Number && !(0 <= literal_int(b, t.start as int, t.end as int) <= MAX_DEPTH)
}

/// Reads the optional depth argument at `pos`. A number there is taken as
/// the argument, and rejected unless it is in `0..=MAX_DEPTH`.
#[verifier::rlimit(60)]
fn parse_depth(b: &[u8], toks: &Vec<Token>, pos: &mut usize) -> (r: Result<Option<u16>, ParserError>)
    requires
        toks@.len() <= usize::MAX,
        tokens_wf(b@, toks@),
        1 <= *old(pos) <= toks@.len(),
        toks@[*old(pos) - 1].tok == Tok::Instr(Prim::Drop) || toks@[*old(pos) - 1].tok == Tok::Instr(
            Prim::Dup,
        ) || toks@[*old(pos) - 1].tok == Tok::Instr(Prim::Dip),
    ensures
        *old(pos) <= *final(pos) <= toks@.len(),
        r is Ok <==> pdepth(toks@, *old(pos) as int) is Some,
        r is Err ==> error_matches(b@, toks@, PErr::Depth(*old(pos) as int), r->Err_0),
        r is Err ==> r->Err_0 is DepthOutOfRange,
        r is Ok ==> pdepth(toks@, *old(pos) as int) == Some(*final(pos) as int),
        *old(pos) < toks@.len() && depth_out_of_range(b@, toks@[*old(pos) as int]) ==> r is Err,
        match r {
            Ok(n) => depth_ok(n) && depth_end(toks@, *old(pos) as int, n) == Some(*final(pos) as int) && match n {
                Some(k) => *final(pos) == *old(pos) + 1 && toks@[*old(pos) as int].tok == Tok::Number(Some(k as i128)),
                None => *final(pos) == *old(pos) && (*old(pos) < toks@.len() ==> !(toks@[*old(pos) as int].tok is Number)),
            },
            Err(e) => *old(pos) < toks@.len() && depth_out_of_range(b@, toks@[*old(pos) as int])
                && message(e) == "expected a natural from 0 to 1023 inclusive, but got "@ + bytes_chars(
                b@.subrange(toks@[*old(pos) as int].start as int, toks@[*old(pos) as int].end as int),
            ),
        },
{
    if *pos < toks.len() {
        let t = toks[*pos];
        match t.tok {
            Tok::Number(Some(v)) => {
                if 0 <= v && v <= MAX_DEPTH as i128 {
                    *pos = *pos + 1;
                    Ok(Some(v as u16))
                } else {
                    let e = ParserError::DepthOutOfRange { literal: token_text(b, t.start, t.end) };
                    assert(depth_out_of_range(b@, toks@[*pos as int]));
                    Err(e)
                }
            },
            Tok::Number(None) => {
                let e = ParserError::DepthOutOfRange { literal: token_text(b, t.start, t.end) };
                assert(depth_out_of_range(b@, toks@[*pos as int]));
                Err(e)
            },
            _ => Ok(None),
        }
    } else {
        Ok(None)
    }
}

/// What parsing the instruction whose name is at `p0` leaves: on success an
/// instruction that the tokens `p0..p1` write, with bounded depths; and
/// success exactly where the parser's reading of positions accepts.
pub open spec fn instr_parsed(toks: Seq<Token>, p0: int, p1: int, r: Result<Instruction, ParserError>) -> bool {
    &&& p0 < p1 <= toks.len()
    &&& (r is Ok <==> pinstr(toks, p0) is Some)
    &&& match r {
        Ok(i) => instr_depths_ok(i) && instr_end(toks, p0, i) == Some(p1) && pinstr(toks, p0) == Some(p1),
        Err(e) => !(e is InvalidToken),
    }
}

#[verifier::rlimit(100)]
#[verifier::spinoff_prover]
fn parse_push(b: &[u8], toks: &Vec<Token>, pos: &mut usize) -> (r: Result<Instruction, ParserError>)
    requires
        toks@.len() <= usize::MAX,
        tokens_wf(b@, toks@),
        *old(pos) < toks@.len(),
        toks@[*old(pos) as int].tok == Tok::Instr(Prim::Push),
    ensures
        instr_parsed(toks@, *old(pos) as int, *final(pos) as int, r),
        r is Err ==> error_matches(b@, toks@, pinstr_err(toks@, *old(pos) as int), r->Err_0),
{
    let len = toks.len();
    *pos = *pos + 1;
    if *pos >= len {
        return Err(unexpected(b, toks, *pos, Expected::TypeName));
    }
    let ty = match toks[*pos].tok {
        Tok::Ty(t) => t,
        _ => {
            return Err(unexpected(b, toks, *pos, Expected::TypeName));
        },
    };
    *pos = *pos + 1;
    if *pos >= len {
        return Err(unexpected(b, toks, *pos, Expected::Literal));
    }
    let t = toks[*pos];
    let v = match t.tok {
        Tok::Number(Some(n)) => Value::NumberValue(n),
        Tok::Number(None) => {
            return Err(ParserError::NumberOutOfRange { literal: token_text(b, t.start, t.end) });
        },
        Tok::Boolean(x) => Value::BooleanValue(x),
        _ => {
            return Err(unexpected(b, toks, *pos, Expected::Literal));
        },
    };
    *pos = *pos + 1;
    Ok(Instruction::Push((ty, v)))
}

#[verifier::rlimit(60)]
fn parse_drop_dup(b: &[u8], toks: &Vec<Token>, pos: &mut usize) -> (r: Result<Instruction, ParserError>)
    requires
        toks@.len() <= usize::MAX,
        tokens_wf(b@, toks@),
        *old(pos) < toks@.len(),
        toks@[*old(pos) as int].tok == Tok::Instr(Prim::Drop) || toks@[*old(pos) as int].tok == Tok::Instr(
            Prim::Dup,
        ),
    ensures
        instr_parsed(toks@, *old(pos) as int, *final(pos) as int, r),
        r is Err ==> error_matches(b@, toks@, pinstr_err(toks@, *old(pos) as int), r->Err_0),
{
    let is_drop = toks[*pos].tok == Tok::Instr(Prim::Drop);
    *pos = *pos + 1;
    match parse_depth(b, toks, pos) {
        Ok(n) => if is_drop {
            Ok(Instruction::Drop(n))
        } else {
            Ok(Instruction::Dup(n))
        },
        Err(e) => Err(e),
    }
}

#[verifier::rlimit(60)]
fn parse_dip(b: &[u8], toks: &Vec<Token>, pos: &mut usize) -> (r: Result<Instruction, ParserError>)
    requires
        toks@.len() <= usize::MAX,
        tokens_wf(b@, toks@),
        *old(pos) < toks@.len(),
        toks@[*old(pos) as int].tok == Tok::Instr(Prim::Dip),
    ensures
        instr_parsed(toks@, *old(pos) as int, *final(pos) as int, r),
        r is Err ==> error_matches(b@, toks@, pinstr_err(toks@, *old(pos) as int), r->Err_0),
    decreases toks@.len() - *old(pos), 1int,
{
    *pos = *pos + 1;
    let n = match parse_depth(b, toks, pos) {
        Ok(n) => n,
        Err(e) => {
            return Err(e);
        },
    };
    if *pos >= toks.len() || toks[*pos].tok != Tok::LBrace {
        let expected = match n {
            None => Expected::NatOrOpen,
            Some(_) => Expected::Open,
        };
        return Err(unexpected(b, toks, *pos, expected));
    }
    match parse_block(b, toks, pos) {
        Ok(body) => Ok(Instruction::Dip(n, body)),
        Err(e) => Err(e),
    }
}

#[verifier::rlimit(60)]
fn parse_if(b: &[u8], toks: &Vec<Token>, pos: &mut usize) -> (r: Result<Instruction, ParserError>)
    requires
        toks@.len() <= usize::MAX,
        tokens_wf(b@, toks@),
        *old(pos) < toks@.len(),
        toks@[*old(pos) as int].tok == Tok::Instr(Prim::If),
    ensures
        instr_parsed(toks@, *old(pos) as int, *final(pos) as int, r),
        r is Err ==> error_matches(b@, toks@, pinstr_err(toks@, *old(pos) as int), r->Err_0),
    decreases toks@.len() - *old(pos), 1int,
{
    *pos = *pos + 1;
    let t = match parse_block(b, toks, pos) {
        Ok(t) => t,
        Err(e) => {
            return Err(e);
        },
    };
    match parse_block(b, toks, pos) {
        Ok(f) => Ok(Instruction::If(t, f)),
        Err(e) => Err(e),
    }
}

#[verifier::rlimit(60)]
fn parse_loop(b: &[u8], toks: &Vec<Token>, pos: &mut usize) -> (r: Result<Instruction, ParserError>)
    requires
        toks@.len() <= usize::MAX,
        tokens_wf(b@, toks@),
        *old(pos) < toks@.len(),
        toks@[*old(pos) as int].tok == Tok::Instr(Prim::Loop),
    ensures
        instr_parsed(toks@, *old(pos) as int, *final(pos) as int, r),
        r is Err ==> error_matches(b@, toks@, pinstr_err(toks@, *old(pos) as int), r->Err_0),
    decreases toks@.len() - *old(pos), 1int,
{
    *pos = *pos + 1;
    match parse_block(b, toks, pos) {
        Ok(body) => Ok(Instruction::Loop(body)),
        Err(e) => Err(e),
    }
}

/// Parses the instruction whose name is at `pos`.
#[verifier::rlimit(80)]
fn parse_instr(b: &[u8], toks: &Vec<Token>, pos: &mut usize) -> (r: Result<Instruction, ParserError>)
    requires
        toks@.len() <= usize::MAX,
        tokens_wf(b@, toks@),
        *old(pos) < toks@.len(),
        toks@[*old(pos) as int].tok is Instr,
    ensures
        instr_parsed(toks@, *old(pos) as int, *final(pos) as int, r),
        r is Err ==> error_matches(b@, toks@, pinstr_err(toks@, *old(pos) as int), r->Err_0),
    decreases toks@.len() - *old(pos), 2int,
{
    let p = match toks[*pos].tok {
        Tok::Instr(p) => p,
        _ => Prim::Add,
    };
    match p {
        Prim::Push => parse_push(b, toks, pos),
        Prim::Drop | Prim::Dup => parse_drop_dup(b, toks, pos),
        Prim::Dip => parse_dip(b, toks, pos),
        Prim::If => parse_if(b, toks, pos),
        Prim::Loop => parse_loop(b, toks, pos),
        Prim::Add => {
            *pos = *pos + 1;
            Ok(Instruction::Add(()))
        },
        Prim::Int => {
            *pos = *pos + 1;
            Ok(Instruction::Int)
        },
        Prim::Gt => {
            *pos = *pos + 1;
            Ok(Instruction::Gt)
        },
        Prim::Swap => {
            *pos = *pos + 1;
            Ok(Instruction::Swap)
        },
    }
}

/// Parses the block that starts at `pos`.
#[verifier::rlimit(60)]
fn parse_block(b: &[u8], toks: &Vec<Token>, pos: &mut usize) -> (r: Result<Vec<Instruction>, ParserError>)
    requires
        toks@.len() <= usize::MAX,
        tokens_wf(b@, toks@),
        *old(pos) <= toks@.len(),
    ensures
        *old(pos) <= *final(pos) <= toks@.len(),
        match r {
            Ok(ast) => block_depths_ok(ast@, 0) && *old(pos) < *final(pos) && block_end(toks@, *old(pos) as int, ast@)
                == Some(*final(pos) as int),
            Err(_) => true,
        },
        r is Ok <==> pblock(toks@, *old(pos) as int) is Some,
        r is Err ==> !(r->Err_0 is InvalidToken),
        r is Err ==> error_matches(b@, toks@, pblock_err(toks@, *old(pos) as int), r->Err_0),
        r is Ok ==> pblock(toks@, *old(pos) as int) == Some(*final(pos) as int),
    decreases toks@.len() - *old(pos), 0int,
{
    if *pos >= toks.len() || toks[*pos].tok != Tok::LBrace {
        return Err(unexpected(b, toks, *pos, Expected::Open));
    }
    *pos = *pos + 1;
    let ghost p0 = *old(pos);
    let mut out: Vec<Instruction> = Vec::new();
    loop
        invariant
            tokens_wf(b@, toks@),
            p0 == *old(pos),
            p0 < *pos <= toks@.len(),
            tok_at(toks@, p0 as int, Tok::LBrace),
            pblock(toks@, p0 as int) == pitems(toks@, *pos as int),
            pblock_err(toks@, p0 as int) == pitems_err(toks@, *pos as int),
            items_end(toks@, p0 + 1, out@, out@.len() as int) == Some(*pos as int),
            forall|j: int| 0 <= j < out@.len() ==> instr_depths_ok(#[trigger] out@[j]),
        decreases toks@.len() - *pos,
    {
        if *pos >= toks.len() {
            return Err(unexpected(b, toks, *pos, Expected::InstrOrClose));
        }
        match toks[*pos].tok {
            Tok::RBrace => {
                *pos = *pos + 1;
                proof {
                    lemma_block_depths_ok(out@, 0);
                }
                return Ok(out);
            },
            Tok::Instr(_) => {},
            _ => {
                return Err(unexpected(b, toks, *pos, Expected::InstrOrClose));
            },
        }
        let i = match parse_instr(b, toks, pos) {
            Ok(i) => i,
            Err(e) => {
                return Err(e);
            },
        };
        let ghost old_out = out@;
        let after = match &i {
            Instruction::Drop(None) => Expected::SemiCloseOrNat,
            Instruction::Dup(None) => Expected::SemiCloseOrNat,
            _ => Expected::SemiOrClose,
        };
        out.push(i);
        if *pos >= toks.len() {
            return Err(unexpected(b, toks, *pos, after));
        }
        proof {
            lemma_items_end_push(toks@, p0 + 1, old_out, i, old_out.len() as int);
            assert(out@[old_out.len() as int] == i);
        }
        match toks[*pos].tok {
            Tok::Semi => {
                *pos = *pos + 1;
            },
            Tok::RBrace => {
                *pos = *pos + 1;
                proof {
                    lemma_block_depths_ok(out@, 0);
                }
                return Ok(out);
            },
            _ => {
                return Err(unexpected(b, toks, *pos, after));
            },
        }
    }
}

/// The error `e` is the one for where the parser stops on the tokens `ts`
/// of a whole text: inside the program, or at a token after it.
pub open spec fn stop_matches(b: Seq<u8>, ts: Seq<Token>, e: ParserError) -> bool {
    match pblock(ts, 0) {
        None => error_matches(b, ts, pblock_err(ts, 0), e),
        Some(q) => {
            &&& 0 <= q < ts.len()
            &&& e is ExtraToken
            &&& e->ExtraToken_start == ts[q].start
            &&& e->ExtraToken_end == ts[q].end
            &&& e->ExtraToken_token@ == bytes_chars(b.subrange(ts[q].start as int, ts[q].end as int))
        },
    }
}

/// What parsing the text `b` gives. The text has at most one tokenization
/// (`lemma_lex_unique`), and its tokens write at most one program
/// (`lemma_block_unique`). Parsing succeeds exactly when the text has a
/// tokenization whose tokens, all of them, write a program whose depth
/// arguments are at most `MAX_DEPTH`, and returns that program. Otherwise
/// the error says where no token starts, or the text has a tokenization that
/// writes no such program.
pub open spec fn parse_outcome(b: Seq<u8>, r: Result<AST, ParserError>) -> bool {
    match r {
        Ok(ast) => {
            &&& block_depths_ok(ast@, 0)
            &&& exists|ts: Seq<Token>|
                lexes_to(b, ts) && #[trigger] block_end(ts, 0, ast@) == Some(ts.len() as int)
        },
        Err(e) => if e is InvalidToken {
            &&& lex_stuck_at(b, e->InvalidToken_location as int)
            &&& forall|ts: Seq<Token>| !lexes_to(b, ts)
        } else {
            exists|ts: Seq<Token>|
                #[trigger] lexes_to(b, ts) && stop_matches(b, ts, e) && forall|a: Seq<Instruction>|
                    !(block_depths_ok(a, 0) && #[trigger] block_end(ts, 0, a) == Some(ts.len() as int))
        },
    }
}

/// Parses a whole program: one block and nothing after it.
pub fn parse(src: &str) -> (r: Result<AST, ParserError>)
    ensures
        parse_outcome(src.spec_bytes(), r),
{
    let b = src.as_bytes();
    let toks = match lex(b) {
        Ok(t) => t,
        Err(e) => {
            return Err(e);
        },
    };
    let n = toks.len();
    let mut pos: usize = 0;
    let ast = match parse_block(b, &toks, &mut pos) {
        Ok(a) => a,
        Err(e) => {
            assert forall|a: Seq<Instruction>| !(block_depths_ok(a, 0) && #[trigger] block_end(toks@, 0, a) == Some(toks@.len() as int)) by {
                if block_depths_ok(a, 0) && block_end(toks@, 0, a) == Some(toks@.len() as int) {
                    lemma_pblock_complete(toks@, 0, a);
                }
            }
            assert(lexes_to(src.spec_bytes(), toks@));
            return Err(e);
        },
    };
    if pos < n {
        let t = toks[pos];
        assert forall|a: Seq<Instruction>| !(block_depths_ok(a, 0) && #[trigger] block_end(toks@, 0, a) == Some(toks@.len() as int)) by {
            if block_depths_ok(a, 0) && block_end(toks@, 0, a) == Some(toks@.len() as int) {
                lemma_pblock_complete(toks@, 0, a);
            }
        }
        assert(lexes_to(src.spec_bytes(), toks@));
        return Err(ParserError::ExtraToken { token: token_text(b, t.start, t.end), start: t.start, end: t.end });
    }
    assert(lexes_to(src.spec_bytes(), toks@) && block_end(toks@, 0, ast@) == Some(toks@.len() as int));
    Ok(ast)
}

} // verus!
