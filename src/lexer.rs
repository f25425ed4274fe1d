//! The lexer: source text, as bytes, to tokens.
//!
//! Tokens are braces, semicolons, keywords (instruction names, type names,
//! `True`, `False`) and integer literals (an optional `-` and digits).
//! Whitespace separates them; every token runs as far as its kind allows.
use crate::ast::{Prim, Type};
use crate::parser::ParserError;
use vstd::prelude::*;

verus! {

/// The kind of a token.
#[derive(PartialEq, Eq, Structural, Clone, Copy, Debug)]
pub enum Tok {
    LBrace,
    RBrace,
    Semi,
    Instr(Prim),
    Ty(Type),
    Boolean(bool),
    /// An integer literal, `None` where it does not fit in 128 bits.
    Number(Option<i128>),
}

/// A token and the byte range it spans.
#[derive(PartialEq, Eq, Structural, Clone, Copy, Debug)]
pub struct Token {
    pub tok: Tok,
    pub start: usize,
    pub end: usize,
}

/// The token that the word `w` spells, if any.
#[verifier::opaque]
pub open spec fn keyword_of(w: Seq<u8>) -> Option<Tok> {
    if w == seq![65u8, 68u8, 68u8] { // ADD
        Some(Tok::Instr(Prim::Add))
    } else if w == seq![73u8, 78u8, 84u8] { // INT
        Some(Tok::Instr(Prim::Int))
    } else if w == seq![71u8, 84u8] { // GT
        Some(Tok::Instr(Prim::Gt))
    } else if w == seq![83u8, 87u8, 65u8, 80u8] { // SWAP
        Some(Tok::Instr(Prim::Swap))
    } else if w == seq![80u8, 85u8, 83u8, 72u8] { // PUSH
        Some(Tok::Instr(Prim::Push))
    } else if w == seq![68u8, 82u8, 79u8, 80u8] { // DROP
        Some(Tok::Instr(Prim::Drop))
    } else if w == seq![68u8, 85u8, 80u8] { // DUP
        Some(Tok::Instr(Prim::Dup))
    } else if w == seq![68u8, 73u8, 80u8] { // DIP
        Some(Tok::Instr(Prim::Dip))
    } else if w == seq![73u8, 70u8] { // IF
        Some(Tok::Instr(Prim::If))
    } else if w == seq![76u8, 79u8, 79u8, 80u8] { // LOOP
        Some(Tok::Instr(Prim::Loop))
    } else if w == seq![105u8, 110u8, 116u8] { // int
        Some(Tok::Ty(Type::Int))
    } else if w == seq![110u8, 97u8, 116u8] { // nat
        Some(Tok::Ty(Type::Nat))
    } else if w == seq![98u8, 111u8, 111u8, 108u8] { // bool
        Some(Tok::Ty(Type::Bool))
    } else if w == seq![109u8, 117u8, 116u8, 101u8, 122u8] { // mutez
        Some(Tok::Ty(Type::Mutez))
    } else if w == seq![84u8, 114u8, 117u8, 101u8] { // True
        Some(Tok::Boolean(true))
    } else if w == seq![70u8, 97u8, 108u8, 115u8, 101u8] { // False
        Some(Tok::Boolean(false))
    } else {
        None
    }
}

/// Looks the word `w` up among the keywords.
pub fn keyword(w: &Vec<u8>) -> (r: Option<Tok>)
    ensures
        r == keyword_of(w@),
        r is Some ==> r->Some_0 is Instr || r->Some_0 is Ty || r->Some_0 is Boolean,
{
    proof {
        reveal(keyword_of);
    }
    if w.len() == 3 && w[0] == 65u8 && w[1] == 68u8 && w[2] == 68u8 { // ADD
        assert(w@ =~= seq![65u8, 68u8, 68u8]);
        return Some(Tok::Instr(Prim::Add));
    }
    if w.len() == 3 && w[0] == 73u8 && w[1] == 78u8 && w[2] == 84u8 { // INT
        assert(w@ =~= seq![73u8, 78u8, 84u8]);
        return Some(Tok::Instr(Prim::Int));
    }
    if w.len() == 2 && w[0] == 71u8 && w[1] == 84u8 { // GT
        assert(w@ =~= seq![71u8, 84u8]);
        return Some(Tok::Instr(Prim::Gt));
    }
    if w.len() == 4 && w[0] == 83u8 && w[1] == 87u8 && w[2] == 65u8 && w[3] == 80u8 { // SWAP
        assert(w@ =~= seq![83u8, 87u8, 65u8, 80u8]);
        return Some(Tok::Instr(Prim::Swap));
    }
    if w.len() == 4 && w[0] == 80u8 && w[1] == 85u8 && w[2] == 83u8 && w[3] == 72u8 { // PUSH
        assert(w@ =~= seq![80u8, 85u8, 83u8, 72u8]);
        return Some(Tok::Instr(Prim::Push));
    }
    if w.len() == 4 && w[0] == 68u8 && w[1] == 82u8 && w[2] == 79u8 && w[3] == 80u8 { // DROP
        assert(w@ =~= seq![68u8, 82u8, 79u8, 80u8]);
        return Some(Tok::Instr(Prim::Drop));
    }
    if w.len() == 3 && w[0] == 68u8 && w[1] == 85u8 && w[2] == 80u8 { // DUP
        assert(w@ =~= seq![68u8, 85u8, 80u8]);
        return Some(Tok::Instr(Prim::Dup));
    }
    if w.len() == 3 && w[0] == 68u8 && w[1] == 73u8 && w[2] == 80u8 { // DIP
        assert(w@ =~= seq![68u8, 73u8, 80u8]);
        return Some(Tok::Instr(Prim::Dip));
    }
    if w.len() == 2 && w[0] == 73u8 && w[1] == 70u8 { // IF
        assert(w@ =~= seq![73u8, 70u8]);
        return Some(Tok::Instr(Prim::If));
    }
    if w.len() == 4 && w[0] == 76u8 && w[1] == 79u8 && w[2] == 79u8 && w[3] == 80u8 { // LOOP
        assert(w@ =~= seq![76u8, 79u8, 79u8, 80u8]);
        return Some(Tok::Instr(Prim::Loop));
    }
    if w.len() == 3 && w[0] == 105u8 && w[1] == 110u8 && w[2] == 116u8 { // int
        assert(w@ =~= seq![105u8, 110u8, 116u8]);
        return Some(Tok::Ty(Type::Int));
    }
    if w.len() == 3 && w[0] == 110u8 && w[1] == 97u8 && w[2] == 116u8 { // nat
        assert(w@ =~= seq![110u8, 97u8, 116u8]);
        return Some(Tok::Ty(Type::Nat));
    }
    if w.len() == 4 && w[0] == 98u8 && w[1] == 111u8 && w[2] == 111u8 && w[3] == 108u8 { // bool
        assert(w@ =~= seq![98u8, 111u8, 111u8, 108u8]);
        return Some(Tok::Ty(Type::Bool));
    }
    if w.len() == 5 && w[0] == 109u8 && w[1] == 117u8 && w[2] == 116u8 && w[3] == 101u8 && w[4] == 122u8 { // mutez
        assert(w@ =~= seq![109u8, 117u8, 116u8, 101u8, 122u8]);
        return Some(Tok::Ty(Type::Mutez));
    }
    if w.len() == 4 && w[0] == 84u8 && w[1] == 114u8 && w[2] == 117u8 && w[3] == 101u8 { // True
        assert(w@ =~= seq![84u8, 114u8, 117u8, 101u8]);
        return Some(Tok::Boolean(true));
    }
    if w.len() == 5 && w[0] == 70u8 && w[1] == 97u8 && w[2] == 108u8 && w[3] == 115u8 && w[4] == 101u8 { // False
        assert(w@ =~= seq![70u8, 97u8, 108u8, 115u8, 101u8]);
        return Some(Tok::Boolean(false));
    }
    None
}

pub open spec fn is_digit(b: u8) -> bool {
    48 <= b <= 57
}

pub open spec fn is_word_start(b: u8) -> bool {
    (65 <= b <= 90) || (97 <= b <= 122) || b == 95
}

pub open spec fn is_word_char(b: u8) -> bool {
    is_word_start(b) || is_digit(b)
}

pub open spec fn is_space(b: u8) -> bool {
    b == 32 || b == 9 || b == 10 || b == 13
}

/// The value of the decimal digits `d`.
pub open spec fn digits_value(d: Seq<u8>) -> int
    decreases d.len(),
{
    if d.len() == 0 {
        0
    } else {
        digits_value(d.drop_last()) * 10 + (d.last() - 48)
    }
}

/// The integer written as `b[start..end]`: an optional `-` and digits.
pub open spec fn literal_int(b: Seq<u8>, start: int, end: int) -> int {
    if b[start] == 45 {
        -digits_value(b.subrange(start + 1, end))
    } else {
        digits_value(b.subrange(start, end))
    }
}

/// `b[start..end]` is an optional `-` followed by at least one digit.
pub open spec fn number_text(b: Seq<u8>, start: int, end: int) -> bool {
    let d = if b[start] == 45 { start + 1 } else { start };
    &&& d < end
    &&& forall|k: int| d <= k < end ==> is_digit(#[trigger] b[k])
}

/// Token `t` lies inside the text, is what its text spells, and runs as far
/// as a token of its kind can.
pub open spec fn token_ok(b: Seq<u8>, t: Token) -> bool {
    &&& t.start < t.end <= b.len()
    &&& match t.tok {
        Tok::Instr(_) | Tok::Ty(_) | Tok::Boolean(_) => {
            &&& keyword_of(b.subrange(t.start as int, t.end as int)) == Some(t.tok)
            &&& (t.end == b.len() || !is_word_char(b[t.end as int]))
        },
        Tok::Number(n) => {
            &&& number_text(b, t.start as int, t.end as int)
            &&& (t.end == b.len() || !is_digit(b[t.end as int]))
            &&& match n {
                Some(v) => v == literal_int(b, t.start as int, t.end as int),
                None => !(i128::MIN <= literal_int(b, t.start as int, t.end as int) <= i128::MAX),
            }
        },
        Tok::LBrace => t.end == t.start + 1 && b[t.start as int] == 123,
        Tok::RBrace => t.end == t.start + 1 && b[t.start as int] == 125,
        Tok::Semi => t.end == t.start + 1 && b[t.start as int] == 59,
    }
}

/// Each token lies inside the text, in order, and is what its text spells.
pub open spec fn tokens_wf(b: Seq<u8>, ts: Seq<Token>) -> bool {
    &&& forall|j: int| 0 <= j < ts.len() ==> token_ok(b, #[trigger] ts[j])
    &&& forall|j: int| 0 < j < ts.len() ==> #[trigger] ts[j].start >= ts[j - 1].end
}

/// `b[a..c]` is whitespace.
pub open spec fn spaces(b: Seq<u8>, a: int, c: int) -> bool {
    forall|k: int| a <= k < c ==> is_space(#[trigger] b[k])
}

/// Everything in `b[..upto]` outside the tokens is whitespace.
pub open spec fn gaps_are_spaces(b: Seq<u8>, ts: Seq<Token>, upto: int) -> bool {
    if ts.len() == 0 {
        spaces(b, 0, upto)
    } else {
        &&& spaces(b, 0, ts[0].start as int)
        &&& forall|j: int| 0 < j < ts.len() ==> spaces(b, ts[j - 1].end as int, #[trigger] ts[j].start as int)
        &&& spaces(b, ts.last().end as int, upto)
    }
}

/// Where the run of word characters that starts at `k` ends.
pub open spec fn word_end(b: Seq<u8>, k: int) -> int
    decreases b.len() - k,
{
    if 0 <= k < b.len() && is_word_char(b[k]) {
        word_end(b, k + 1)
    } else {
        k
    }
}

/// No token starts at `l`, which is not whitespace either: the byte is no
/// brace, semicolon, digit or sign of a number, and the word there, if any,
/// is no keyword.
pub open spec fn no_token_at(b: Seq<u8>, l: int) -> bool {
    &&& 0 <= l < b.len()
    &&& !is_space(b[l])
    &&& b[l] != 123 && b[l] != 125 && b[l] != 59
    &&& !is_digit(b[l])
    &&& !(b[l] == 45 && l + 1 < b.len() && is_digit(b[l + 1]))
    &&& is_word_start(b[l]) ==> keyword_of(b.subrange(l, word_end(b, l))) is None
}

/// `ts` splits `b[..l]` into tokens and whitespace.
#[verifier::opaque]
pub open spec fn tokens_upto(b: Seq<u8>, ts: Seq<Token>, l: int) -> bool {
    tokens_wf(b, ts) && gaps_are_spaces(b, ts, l) && (ts.len() > 0 ==> ts.last().end <= l)
}

/// `b[..l]` splits into tokens and whitespace, and no token starts at `l`.
pub open spec fn lex_stuck_at(b: Seq<u8>, l: int) -> bool {
    &&& no_token_at(b, l)
    &&& exists|ts: Seq<Token>| #[trigger] tokens_upto(b, ts, l)
}

/// `ts` is the tokenization of the whole text `b`.
#[verifier::opaque]
pub open spec fn lexes_to(b: Seq<u8>, ts: Seq<Token>) -> bool {
    tokens_wf(b, ts) && gaps_are_spaces(b, ts, b.len() as int)
}

proof fn lemma_tokens_push(b: Seq<u8>, ts: Seq<Token>, t: Token)
    requires
        tokens_wf(b, ts),
        gaps_are_spaces(b, ts, t.start as int),
        token_ok(b, t),
        ts.len() > 0 ==> ts.last().end <= t.start,
    ensures
        tokens_wf(b, ts.push(t)),
        gaps_are_spaces(b, ts.push(t), t.end as int),
{
    let ts2 = ts.push(t);
    assert forall|j: int| 0 <= j < ts2.len() implies token_ok(b, #[trigger] ts2[j]) by {
        if j < ts.len() {
            assert(ts2[j] == ts[j]);
        }
    }
    assert forall|j: int| 0 < j < ts2.len() implies #[trigger] ts2[j].start >= ts2[j - 1].end by {
        if j < ts.len() {
            assert(ts2[j] == ts[j]);
            assert(ts2[j - 1] == ts[j - 1]);
        }
    }
    assert forall|j: int| 0 < j < ts2.len() implies spaces(b, ts2[j - 1].end as int, #[trigger] ts2[j].start as int) by {
        if j < ts.len() {
            assert(ts2[j] == ts[j]);
            assert(ts2[j - 1] == ts[j - 1]);
        }
    }
    if ts.len() > 0 {
        assert(ts2[0] == ts[0]);
    }
}

proof fn lemma_digits_nonneg(d: Seq<u8>)
    requires
        forall|k: int| 0 <= k < d.len() ==> is_digit(#[trigger] d[k]),
    ensures
        digits_value(d) >= 0,
    decreases d.len(),
{
    if d.len() > 0 {
        lemma_digits_nonneg(d.drop_last());
    }
}

proof fn lemma_digits_push(d: Seq<u8>, x: u8)
    ensures
        digits_value(d.push(x)) == digits_value(d) * 10 + (x - 48),
{
    assert(d.push(x).drop_last() =~= d);
}

/// Reads the integer literal at `b[i..]`: an optional `-` and at least one
/// digit. Returns its value (`None` past 128 bits) and where it ends.
fn lex_number(b: &[u8], i: usize) -> (r: (Option<i128>, usize))
    requires
        i < b@.len(),
        is_digit(b@[i as int]) || (b@[i as int] == 45 && i + 1 < b@.len() && is_digit(b@[i + 1])),
    ensures
        i < r.1 <= b@.len(),
        number_text(b@, i as int, r.1 as int),
        r.1 == b@.len() || !is_digit(b@[r.1 as int]),
        match r.0 {
            Some(v) => v == literal_int(b@, i as int, r.1 as int),
            None => !(i128::MIN <= literal_int(b@, i as int, r.1 as int) <= i128::MAX),
        },
{
    let n = b.len();
    let neg = b[i] == 45;
    let dstart: usize = if neg { i + 1 } else { i };
    let mut j: usize = dstart;
    let mut acc: i128 = 0;
    let mut fits = true;
    while j < n && 48 <= b[j] && b[j] <= 57
        invariant
            dstart <= j <= n == b@.len(),
            dstart == if neg { i + 1 } else { i as int },
            neg == (b@[i as int] == 45),
            fits ==> acc == (if neg { -digits_value(b@.subrange(dstart as int, j as int)) } else { digits_value(b@.subrange(dstart as int, j as int)) }),
            forall|k: int| dstart <= k < j ==> is_digit(#[trigger] b@[k]),
            !fits && neg ==> digits_value(b@.subrange(dstart as int, j as int)) > i128::MAX + 1,
            !fits && !neg ==> digits_value(b@.subrange(dstart as int, j as int)) > i128::MAX,
        decreases n - j,
    {
        proof {
            assert(b@.subrange(dstart as int, j + 1) =~= b@.subrange(dstart as int, j as int).push(b@[j as int]));
            lemma_digits_push(b@.subrange(dstart as int, j as int), b@[j as int]);
            lemma_digits_nonneg(b@.subrange(dstart as int, j as int));
        }
        let d = (b[j] - 48) as i128;
        if fits {
            match acc.checked_mul(10) {
                Some(m) => {
                    let next = if neg { m.checked_sub(d) } else { m.checked_add(d) };
                    match next {
                        Some(v) => {
                            acc = v;
                        },
                        None => {
                            fits = false;
                        },
                    }
                },
                None => {
                    fits = false;
                },
            }
        }
        j = j + 1;
    }
    if j == dstart {
        // the precondition puts a digit at `dstart`
        assert(is_digit(b@[dstart as int]));
    }
    if fits {
        (Some(acc), j)
    } else {
        (None, j)
    }
}

/// Where no token starts after a tokenized prefix, the lexer is stuck and
/// the text has no tokenization.
proof fn lemma_lex_error(b: Seq<u8>, toks: Seq<Token>, l: int)
    requires
        tokens_wf(b, toks),
        gaps_are_spaces(b, toks, l),
        toks.len() > 0 ==> toks.last().end <= l,
        no_token_at(b, l),
    ensures
        lex_stuck_at(b, l),
        forall|ts: Seq<Token>| !lexes_to(b, ts),
{
    assert(tokens_upto(b, toks, l)) by {
        reveal(tokens_upto);
    }
    assert forall|ts: Seq<Token>| !lexes_to(b, ts) by {
        lemma_stuck_has_no_tokens(b, l, ts);
    }
}

/// Splits the text `b` into tokens.
#[verifier::rlimit(80)]
pub fn lex(b: &[u8]) -> (r: Result<Vec<Token>, ParserError>)
    ensures
        match r {
            Ok(ts) => lexes_to(b@, ts@) && tokens_wf(b@, ts@),
            Err(e) => e is InvalidToken && lex_stuck_at(b@, e->InvalidToken_location as int) && forall|ts: Seq<Token>| !lexes_to(b@, ts),
        },
{
    let n = b.len();
    let mut toks: Vec<Token> = Vec::new();
    let mut i: usize = 0;
    while i < n
        invariant
            0 <= i <= n == b@.len(),
            tokens_wf(b@, toks@),
            gaps_are_spaces(b@, toks@, i as int),
            toks@.len() > 0 ==> toks@.last().end <= i,
        decreases n - i,
    {
        let c = b[i];
        if c == 32 || c == 9 || c == 10 || c == 13 {
            i = i + 1;
            if toks.len() > 0 {
                assert(spaces(b@, toks@.last().end as int, i as int));
            } else {
                assert(spaces(b@, 0, i as int));
            }
        } else if c == 123 || c == 125 || c == 59 {
            let tok = if c == 123 {
                Tok::LBrace
            } else if c == 125 {
                Tok::RBrace
            } else {
                Tok::Semi
            };
            let t = Token { tok, start: i, end: i + 1 };
            proof {
                lemma_tokens_push(b@, toks@, t);
            }
            toks.push(t);
            i = i + 1;
        } else if (65 <= c && c <= 90) || (97 <= c && c <= 122) || c == 95 {
            let start = i;
            let mut w: Vec<u8> = Vec::new();
            while i < n && ((65 <= b[i] && b[i] <= 90) || (97 <= b[i] && b[i] <= 122) || b[i] == 95 || (48 <= b[i] && b[i] <= 57))
                invariant
                    start <= i <= n == b@.len(),
                    w@ == b@.subrange(start as int, i as int),
                    word_end(b@, start as int) == word_end(b@, i as int),
                decreases n - i,
            {
                w.push(b[i]);
                i = i + 1;
                assert(w@ =~= b@.subrange(start as int, i as int));
            }
            match keyword(&w) {
                Some(tok) => {
                    let t = Token { tok, start, end: i };
                    proof {
                        lemma_tokens_push(b@, toks@, t);
                    }
                    toks.push(t);
                },
                None => {
                    proof {
                        lemma_lex_error(b@, toks@, start as int);
                    }
                    return Err(ParserError::InvalidToken { location: start });
                },
            }
        } else if (48 <= c && c <= 57) || (c == 45 && i + 1 < n && 48 <= b[i + 1] && b[i + 1] <= 57) {
            let (v, end) = lex_number(b, i);
            let t = Token { tok: Tok::Number(v), start: i, end };
            proof {
                lemma_tokens_push(b@, toks@, t);
            }
            toks.push(t);
            i = end;
        } else {
            proof {
                lemma_lex_error(b@, toks@, i as int);
            }
            return Err(ParserError::InvalidToken { location: i });
        }
    }
    proof {
        reveal(lexes_to);
    }
    Ok(toks)
}

/// A keyword is made of word characters and starts with a letter.
proof fn lemma_keyword_chars(w: Seq<u8>)
    requires
        keyword_of(w) is Some,
    ensures
        w.len() > 0,
        is_word_start(w[0]),
        forall|k: int| 0 <= k < w.len() ==> is_word_char(#[trigger] w[k]),
{
    reveal(keyword_of);
}

/// A run of word characters from `s` that stops at `e` ends where
/// `word_end` says.
proof fn lemma_word_run(b: Seq<u8>, s: int, e: int)
    requires
        0 <= s <= e <= b.len(),
        forall|k: int| s <= k < e ==> is_word_char(#[trigger] b[k]),
        e == b.len() || !is_word_char(b[e]),
    ensures
        word_end(b, s) == e,
    decreases e - s,
{
    if s < e {
        lemma_word_run(b, s + 1, e);
    }
}

/// Where the run of digits that starts at `k` ends.
pub open spec fn digit_end(b: Seq<u8>, k: int) -> int
    decreases b.len() - k,
{
    if 0 <= k < b.len() && is_digit(b[k]) {
        digit_end(b, k + 1)
    } else {
        k
    }
}

proof fn lemma_digit_run(b: Seq<u8>, s: int, e: int)
    requires
        0 <= s <= e <= b.len(),
        forall|k: int| s <= k < e ==> is_digit(#[trigger] b[k]),
        e == b.len() || !is_digit(b[e]),
    ensures
        digit_end(b, s) == e,
    decreases e - s,
{
    if s < e {
        lemma_digit_run(b, s + 1, e);
    }
}

/// A token never starts with whitespace.
proof fn lemma_token_start(b: Seq<u8>, t: Token)
    requires
        token_ok(b, t),
    ensures
        !is_space(b[t.start as int]),
{
    match t.tok {
        Tok::Instr(_) | Tok::Ty(_) | Tok::Boolean(_) => {
            let w = b.subrange(t.start as int, t.end as int);
            lemma_keyword_chars(w);
            assert(w[0] == b[t.start as int]);
        },
        _ => {},
    }
}

/// Where a token starts decides all of it.
proof fn lemma_token_determined(b: Seq<u8>, t1: Token, t2: Token)
    requires
        token_ok(b, t1),
        token_ok(b, t2),
        t1.start == t2.start,
    ensures
        t1 == t2,
{
    let s = t1.start as int;
    let is_word1 = t1.tok is Instr || t1.tok is Ty || t1.tok is Boolean;
    let is_word2 = t2.tok is Instr || t2.tok is Ty || t2.tok is Boolean;
    if is_word1 {
        let w = b.subrange(s, t1.end as int);
        lemma_keyword_chars(w);
        assert(w[0] == b[s]);
        assert forall|k: int| s <= k < t1.end implies is_word_char(#[trigger] b[k]) by {
            assert(w[k - s] == b[k]);
        }
        lemma_word_run(b, s, t1.end as int);
    }
    if is_word2 {
        let w = b.subrange(s, t2.end as int);
        lemma_keyword_chars(w);
        assert(w[0] == b[s]);
        assert forall|k: int| s <= k < t2.end implies is_word_char(#[trigger] b[k]) by {
            assert(w[k - s] == b[k]);
        }
        lemma_word_run(b, s, t2.end as int);
    }
    if t1.tok is Number {
        let d = if b[s] == 45 { s + 1 } else { s };
        lemma_digit_run(b, d, t1.end as int);
    }
    if t2.tok is Number {
        let d = if b[s] == 45 { s + 1 } else { s };
        lemma_digit_run(b, d, t2.end as int);
    }
}

/// The tokenization of a text is unique.
pub proof fn lemma_lex_unique(b: Seq<u8>, ts1: Seq<Token>, ts2: Seq<Token>)
    requires
        lexes_to(b, ts1),
        lexes_to(b, ts2),
    ensures
        ts1 == ts2,
{
    lemma_lex_unique_from(b, ts1, ts2, 0);
    assert(ts1 =~= ts2);
}

/// What a tokenization says after its first `j` tokens: whitespace up to
/// the next token, which starts with no whitespace; or whitespace to the end.
proof fn lemma_after_tokens(b: Seq<u8>, ts: Seq<Token>, j: int)
    requires
        lexes_to(b, ts),
        0 <= j <= ts.len(),
    ensures
        ({
            let e = if j == 0 { 0 } else { ts[j - 1].end as int };
            &&& j < ts.len() ==> {
                &&& token_ok(b, ts[j])
                &&& e <= ts[j].start
                &&& spaces(b, e, ts[j].start as int)
                &&& !is_space(b[ts[j].start as int])
            }
            &&& j == ts.len() ==> e <= b.len() && spaces(b, e, b.len() as int)
        }),
{
    reveal(lexes_to);
    if j < ts.len() {
        lemma_token_start(b, ts[j]);
    }
    if j > 0 {
        assert(token_ok(b, ts[j - 1]));
        if j == ts.len() {
            assert(ts.last() == ts[j - 1]);
        }
    }
}

#[verifier::spinoff_prover]
proof fn lemma_lex_unique_from(b: Seq<u8>, ts1: Seq<Token>, ts2: Seq<Token>, j: int)
    requires
        lexes_to(b, ts1),
        lexes_to(b, ts2),
        0 <= j <= ts1.len(),
        j <= ts2.len(),
        forall|k: int| 0 <= k < j ==> ts1[k] == ts2[k],
    ensures
        ts1.len() == ts2.len(),
        forall|k: int| 0 <= k < ts1.len() ==> ts1[k] == ts2[k],
    decreases ts1.len() - j,
{
    if j > 0 {
        assert(ts1[j - 1] == ts2[j - 1]);
    }
    lemma_after_tokens(b, ts1, j);
    lemma_after_tokens(b, ts2, j);
    if j < ts1.len() && j < ts2.len() {
        let s1 = ts1[j].start as int;
        let s2 = ts2[j].start as int;
        if s1 < s2 {
            assert(is_space(b[s1]));
        }
        if s2 < s1 {
            assert(is_space(b[s2]));
        }
        lemma_token_determined(b, ts1[j], ts2[j]);
        lemma_lex_unique_from(b, ts1, ts2, j + 1);
    } else if j < ts1.len() {
        assert(is_space(b[ts1[j].start as int]));
    } else if j < ts2.len() {
        assert(is_space(b[ts2[j].start as int]));
    }
}

/// No token can start where `no_token_at` holds.
proof fn lemma_token_not_stuck(b: Seq<u8>, t: Token)
    requires
        token_ok(b, t),
    ensures
        !no_token_at(b, t.start as int),
{
    let s = t.start as int;
    if t.tok is Instr || t.tok is Ty || t.tok is Boolean {
        let w = b.subrange(s, t.end as int);
        lemma_keyword_chars(w);
        assert(w[0] == b[s]);
        assert forall|k: int| s <= k < t.end implies is_word_char(#[trigger] b[k]) by {
            assert(w[k - s] == b[k]);
        }
        lemma_word_run(b, s, t.end as int);
    }
}

/// What a tokenization of `b[..l]` says after its first `j` tokens.
proof fn lemma_after_prefix(b: Seq<u8>, tp: Seq<Token>, l: int, j: int)
    requires
        tokens_upto(b, tp, l),
        0 <= l,
        0 <= j <= tp.len(),
    ensures
        ({
            let e = if j == 0 { 0 } else { tp[j - 1].end as int };
            &&& j < tp.len() ==> {
                &&& token_ok(b, tp[j])
                &&& e <= tp[j].start
                &&& spaces(b, e, tp[j].start as int)
                &&& !is_space(b[tp[j].start as int])
            }
            &&& j == tp.len() ==> e <= l && spaces(b, e, l)
        }),
{
    reveal(tokens_upto);
    if j < tp.len() {
        lemma_token_start(b, tp[j]);
    }
    if j > 0 {
        assert(token_ok(b, tp[j - 1]));
        if j == tp.len() {
            assert(tp.last() == tp[j - 1]);
        }
    }
}

/// A tokenization of `b[..l]` agrees with every tokenization of the whole
/// text on its tokens, when `b[l]` is no whitespace.
#[verifier::spinoff_prover]
proof fn lemma_prefix_agrees(b: Seq<u8>, tp: Seq<Token>, l: int, ts: Seq<Token>, j: int)
    requires
        tokens_upto(b, tp, l),
        0 <= l < b.len(),
        !is_space(b[l]),
        lexes_to(b, ts),
        0 <= j <= tp.len(),
        j <= ts.len(),
        forall|k: int| 0 <= k < j ==> tp[k] == ts[k],
    ensures
        tp.len() <= ts.len(),
        forall|k: int| 0 <= k < tp.len() ==> tp[k] == ts[k],
    decreases tp.len() - j,
{
    if j < tp.len() {
        if j > 0 {
            assert(tp[j - 1] == ts[j - 1]);
        }
        lemma_after_prefix(b, tp, l, j);
        lemma_after_tokens(b, ts, j);
        let sp = tp[j].start as int;
        if j < ts.len() {
            let st = ts[j].start as int;
            if sp < st {
                assert(is_space(b[sp]));
            }
            if st < sp {
                assert(is_space(b[st]));
            }
            lemma_token_determined(b, tp[j], ts[j]);
            lemma_prefix_agrees(b, tp, l, ts, j + 1);
        } else {
            assert(is_space(b[sp]));
        }
    }
}

/// Where the lexer gets stuck, the text has no tokenization.
pub proof fn lemma_stuck_has_no_tokens(b: Seq<u8>, l: int, ts: Seq<Token>)
    requires
        lex_stuck_at(b, l),
    ensures
        !lexes_to(b, ts),
{
    if lexes_to(b, ts) {
        let tp = choose|tp: Seq<Token>| #[trigger] tokens_upto(b, tp, l);
        lemma_prefix_agrees(b, tp, l, ts, 0);
        let j = tp.len() as int;
        if j > 0 {
            assert(tp[j - 1] == ts[j - 1]);
        }
        lemma_after_prefix(b, tp, l, j);
        lemma_after_tokens(b, ts, j);
        if j < ts.len() {
            let st = ts[j].start as int;
            if st < l {
                assert(is_space(b[st]));
            }
            if l < st {
                assert(is_space(b[l]));
            }
            lemma_token_not_stuck(b, ts[j]);
        } else {
            assert(is_space(b[l]));
        }
    }
}

} // verus!
