//! The printed form of a program: each token's text followed by one space,
//! `{ ADD ; DIP 2 { DROP } }` written as `{ ADD ; DIP 2 { DROP } } `.
//!
//! Printing a program and reading the text back gives the same program:
//! see `lemma_print_round_trip`.
use crate::ast::{Instruction, Prim, Type};
use crate::ast::AST;
use crate::lexer::lemma_lex_unique;
use crate::ast::Value;
use crate::parser::{
    block_depths_ok, block_end, bytes_chars, depth_end, instr_end, items_end, lemma_block_unique,
    literal_tok, parse_outcome, push_char, same_block, same_instr, ParserError,
};
use crate::lexer::{
    digits_value, is_digit, is_space, keyword_of, lexes_to, literal_int, number_text, spaces,
    token_ok, tokens_wf, gaps_are_spaces, Tok, Token,
};
use crate::ast::depth_of;
use crate::typechecker::{tc_block, tc_cost, tc_instr};
use vstd::prelude::*;
use vstd::string::StringSliceAdditionalSpecFns;

verus! {

/// The decimal digits of `n`.
pub open spec fn dec_bytes(n: nat) -> Seq<u8>
    decreases n,
{
    if n < 10 {
        seq![(48 + n) as u8]
    } else {
        dec_bytes(n / 10).push((48 + n % 10) as u8)
    }
}

/// The text of the integer `v`: a `-` for a negative one, then digits.
pub open spec fn int_text(v: int) -> Seq<u8> {
    if v < 0 {
        seq![45u8] + dec_bytes((-v) as nat)
    } else {
        dec_bytes(v as nat)
    }
}

/// The name of an instruction.
pub open spec fn prim_text(p: Prim) -> Seq<u8> {
    match p {
        Prim::Add => seq![65u8, 68u8, 68u8],
        Prim::Int => seq![73u8, 78u8, 84u8],
        Prim::Gt => seq![71u8, 84u8],
        Prim::Swap => seq![83u8, 87u8, 65u8, 80u8],
        Prim::Push => seq![80u8, 85u8, 83u8, 72u8],
        Prim::Drop => seq![68u8, 82u8, 79u8, 80u8],
        Prim::Dup => seq![68u8, 85u8, 80u8],
        Prim::Dip => seq![68u8, 73u8, 80u8],
        Prim::If => seq![73u8, 70u8],
        Prim::Loop => seq![76u8, 79u8, 79u8, 80u8],
    }
}

/// The name of a type.
pub open spec fn type_text(t: Type) -> Seq<u8> {
    match t {
        Type::Int => seq![105u8, 110u8, 116u8],
        Type::Nat => seq![110u8, 97u8, 116u8],
        Type::Bool => seq![98u8, 111u8, 111u8, 108u8],
        Type::Mutez => seq![109u8, 117u8, 116u8, 101u8, 122u8],
    }
}

/// The text of a token.
pub open spec fn tok_text(t: Tok) -> Seq<u8> {
    match t {
        Tok::LBrace => seq![123u8],
        Tok::RBrace => seq![125u8],
        Tok::Semi => seq![59u8],
        Tok::Instr(p) => prim_text(p),
        Tok::Ty(t) => type_text(t),
        Tok::Boolean(true) => seq![84u8, 114u8, 117u8, 101u8],
        Tok::Boolean(false) => seq![70u8, 97u8, 108u8, 115u8, 101u8],
        Tok::Number(Some(v)) => int_text(v as int),
        Tok::Number(None) => dec_bytes(TOO_LARGE as nat),
    }
}

/// The least integer above the 128-bit range: the text of a number token
/// too large to hold.
pub const TOO_LARGE: u128 = 0x8000_0000_0000_0000_0000_0000_0000_0000;

/// The texts of the tokens `ks`, each followed by one space.
pub open spec fn text_of(ks: Seq<Tok>) -> Seq<u8>
    decreases ks.len(),
{
    if ks.len() == 0 {
        seq![]
    } else {
        text_of(ks.drop_last()) + tok_text(ks.last()) + seq![32u8]
    }
}

/// The tokens `ks` at the places where `text_of(ks)` writes them.
pub open spec fn placed(ks: Seq<Tok>) -> Seq<Token> {
    Seq::new(
        ks.len(),
        |k: int|
            Token {
                tok: ks[k],
                start: text_of(ks.subrange(0, k)).len() as usize,
                end: (text_of(ks.subrange(0, k)).len() + tok_text(ks[k]).len()) as usize,
            },
    )
}

proof fn lemma_dec_bytes(n: nat)
    ensures
        dec_bytes(n).len() >= 1,
        forall|k: int| 0 <= k < dec_bytes(n).len() ==> is_digit(#[trigger] dec_bytes(n)[k]),
        digits_value(dec_bytes(n)) == n,
    decreases n,
{
    if n >= 10 {
        lemma_dec_bytes(n / 10);
        vstd::arithmetic::div_mod::lemma_fundamental_div_mod(n as int, 10);
        let d = (48 + n % 10) as u8;
        assert(d == 48 + n % 10);
        assert(dec_bytes(n).drop_last() =~= dec_bytes(n / 10));
        assert(dec_bytes(n).last() == d);
        assert(digits_value(dec_bytes(n)) == digits_value(dec_bytes(n / 10)) * 10 + (d - 48));
    } else {
        let d = (48 + n) as u8;
        assert(d == 48 + n);
        assert(seq![d].drop_last() =~= Seq::<u8>::empty());
        assert(digits_value(seq![d]) == digits_value(Seq::<u8>::empty()) * 10 + (d - 48));
    }
}

/// The text of a token reads as that token, when a space follows it.
proof fn lemma_tok_text_ok(b: Seq<u8>, t: Token)
    requires
        t.start as int + tok_text(t.tok).len() == t.end,
        t.end < b.len(),
        b.subrange(t.start as int, t.end as int) == tok_text(t.tok),
        b[t.end as int] == 32,
    ensures
        token_ok(b, t),
{
    reveal(keyword_of);
    let s = t.start as int;
    let w = b.subrange(s, t.end as int);
    assert(w[0] == b[s]);
    match t.tok {
        Tok::Number(Some(v)) => {
            if v < 0 {
                lemma_dec_bytes((-v) as nat);
                assert forall|k: int| s + 1 <= k < t.end implies is_digit(#[trigger] b[k]) by {
                    assert(b[k] == w[k - s]);
                }
                let dv = dec_bytes((-v) as nat);
                assert(w =~= seq![45u8] + dv);
                assert forall|k: int| 0 <= k < dv.len() implies #[trigger] b.subrange(s + 1, t.end as int)[k] == dv[k] by {
                    assert(b[s + 1 + k] == w[1 + k]);
                }
                assert(b.subrange(s + 1, t.end as int) =~= dv);
            } else {
                lemma_dec_bytes(v as nat);
                assert forall|k: int| s <= k < t.end implies is_digit(#[trigger] b[k]) by {
                    assert(b[k] == w[k - s]);
                }
            }
            assert(number_text(b, s, t.end as int));
            assert(literal_int(b, s, t.end as int) == v);
        },
        Tok::Number(None) => {
            lemma_dec_bytes(TOO_LARGE as nat);
            assert forall|k: int| s <= k < t.end implies is_digit(#[trigger] b[k]) by {
                assert(b[k] == w[k - s]);
            }
            assert(number_text(b, s, t.end as int));
            assert(literal_int(b, s, t.end as int) == TOO_LARGE);
        },
        _ => {},
    }
}

/// A token stays what it is when text is appended after the byte that
/// follows it.
proof fn lemma_token_extend(b: Seq<u8>, c: Seq<u8>, t: Token)
    requires
        token_ok(b, t),
        t.end < b.len(),
    ensures
        token_ok(b + c, t),
{
    let b2 = b + c;
    let s = t.start as int;
    let e = t.end as int;
    assert(b2.subrange(s, e) =~= b.subrange(s, e));
    assert(b2.subrange(s + 1, e) =~= b.subrange(s + 1, e));
    assert(b2[e] == b[e]);
    assert(b2[s] == b[s]);
    if t.tok is Number {
        let d = if b[s] == 45 { s + 1 } else { s };
        assert forall|k: int| d <= k < e implies is_digit(#[trigger] b2[k]) by {
            assert(b2[k] == b[k]);
        }
    }
}

/// `placed(ks)` is `placed` of all but the last token, then the last token
/// right after their text.
proof fn lemma_placed_last(ks: Seq<Tok>)
    requires
        ks.len() > 0,
    ensures
        text_of(ks) == text_of(ks.drop_last()) + (tok_text(ks.last()) + seq![32u8]),
        placed(ks) == placed(ks.drop_last()).push(
            Token {
                tok: ks.last(),
                start: text_of(ks.drop_last()).len() as usize,
                end: (text_of(ks.drop_last()).len() + tok_text(ks.last()).len()) as usize,
            },
        ),
{
    let n = ks.len() as int;
    let ks1 = ks.drop_last();
    assert(text_of(ks) =~= text_of(ks1) + (tok_text(ks.last()) + seq![32u8]));
    assert forall|j: int| 0 <= j < n - 1 implies #[trigger] placed(ks)[j] == placed(ks1)[j] by {
        assert(ks.subrange(0, j) =~= ks1.subrange(0, j));
    }
    assert(ks.subrange(0, n - 1) =~= ks1);
    assert(placed(ks) =~= placed(ks1).push(
        Token {
            tok: ks.last(),
            start: text_of(ks1).len() as usize,
            end: (text_of(ks1).len() + tok_text(ks.last()).len()) as usize,
        },
    ));
}

#[verifier::spinoff_prover]
proof fn lemma_tokens_step(b1: Seq<u8>, tail: Seq<u8>, p1: Seq<Token>, t: Token)
    requires
        tokens_wf(b1, p1),
        forall|j: int| 0 <= j < p1.len() ==> (#[trigger] p1[j]).end < b1.len(),
        p1.len() > 0 ==> p1.last().end == b1.len() - 1,
        t.start == b1.len(),
        token_ok(b1 + tail, t),
        t.end < (b1 + tail).len(),
    ensures
        tokens_wf(b1 + tail, p1.push(t)),
        forall|j: int| 0 <= j < p1.push(t).len() ==> (#[trigger] p1.push(t)[j]).end < (b1 + tail).len(),
{
    let b = b1 + tail;
    let p = p1.push(t);
    let n = p.len() as int;
    assert forall|j: int| 0 <= j < n implies token_ok(b, #[trigger] p[j]) by {
        if j < n - 1 {
            assert(p[j] == p1[j]);
            lemma_token_extend(b1, tail, p1[j]);
        }
    }
    assert forall|j: int| 0 < j < n implies #[trigger] p[j].start >= p[j - 1].end by {
        assert(p[j - 1] == p1[j - 1]);
        if j < n - 1 {
            assert(p[j] == p1[j]);
        } else {
            assert(p1.last() == p1[j - 1]);
        }
    }
    assert forall|j: int| 0 <= j < n implies (#[trigger] p[j]).end < b.len() by {
        if j < n - 1 {
            assert(p[j] == p1[j]);
        }
    }
}

#[verifier::spinoff_prover]
proof fn lemma_gaps_step(b1: Seq<u8>, tail: Seq<u8>, p1: Seq<Token>, t: Token)
    requires
        gaps_are_spaces(b1, p1, b1.len() as int),
        forall|j: int| 0 <= j < p1.len() ==> (#[trigger] p1[j]).start < p1[j].end < b1.len(),
        p1.len() > 0 ==> p1.last().end == b1.len() - 1 && b1[b1.len() - 1] == 32,
        p1.len() == 0 ==> b1.len() == 0,
        t.start == b1.len(),
        t.end <= (b1 + tail).len(),
        spaces(b1 + tail, t.end as int, (b1 + tail).len() as int),
    ensures
        gaps_are_spaces(b1 + tail, p1.push(t), (b1 + tail).len() as int),
{
    let b = b1 + tail;
    let p = p1.push(t);
    let n = p.len() as int;
    assert(p[n - 1] == t);
    if n > 1 {
        assert(p[0] == p1[0]);
        assert forall|k: int| 0 <= k < p[0].start implies is_space(#[trigger] b[k]) by {
            assert(b[k] == b1[k]);
        }
    }
    assert forall|j: int| 0 < j < n implies spaces(b, p[j - 1].end as int, #[trigger] p[j].start as int) by {
        assert(p[j - 1] == p1[j - 1]);
        if j < n - 1 {
            assert(p[j] == p1[j]);
            assert(spaces(b1, p1[j - 1].end as int, p1[j].start as int));
            assert forall|k: int| p[j - 1].end <= k < p[j].start implies is_space(#[trigger] b[k]) by {
                assert(b[k] == b1[k]);
            }
        } else {
            assert(p1.last() == p1[j - 1]);
            assert forall|k: int| p[j - 1].end <= k < p[j].start implies is_space(#[trigger] b[k]) by {
                assert(k == b1.len() - 1);
                assert(b[k] == b1[k]);
            }
        }
    }
    assert(p.last() == t);
}

/// The text of tokens reads back as those tokens, at the places
/// where `placed` puts them.
#[verifier::spinoff_prover]
#[verifier::rlimit(60)]
proof fn lemma_text_tokens(ks: Seq<Tok>)
    requires
        text_of(ks).len() <= usize::MAX,
    ensures
        tokens_wf(text_of(ks), placed(ks)),
        gaps_are_spaces(text_of(ks), placed(ks), text_of(ks).len() as int),
        forall|j: int| 0 <= j < ks.len() ==> (#[trigger] placed(ks)[j]).end < text_of(ks).len(),
        ks.len() > 0 ==> text_of(ks)[text_of(ks).len() - 1] == 32 && placed(ks).last().end
            == text_of(ks).len() - 1,
        ks.len() == 0 ==> text_of(ks).len() == 0,
    decreases ks.len(),
{
    if ks.len() > 0 {
        let ks1 = ks.drop_last();
        let b1 = text_of(ks1);
        let tail = tok_text(ks.last()) + seq![32u8];
        lemma_placed_last(ks);
        assert(b1.len() <= text_of(ks).len());
        lemma_text_tokens(ks1);
        let b = b1 + tail;
        let t = Token {
            tok: ks.last(),
            start: b1.len() as usize,
            end: (b1.len() + tok_text(ks.last()).len()) as usize,
        };
        assert(b.subrange(t.start as int, t.end as int) =~= tok_text(ks.last()));
        assert(b[t.end as int] == 32);
        lemma_tok_text_ok(b, t);
        lemma_tokens_step(b1, tail, placed(ks1), t);
        assert forall|j: int| 0 <= j < placed(ks1).len() implies (#[trigger] placed(ks1)[j]).start < placed(ks1)[j].end < b1.len() by {
            assert(crate::lexer::token_ok(b1, placed(ks1)[j]));
        }
        assert(spaces(b, t.end as int, b.len() as int));
        lemma_gaps_step(b1, tail, placed(ks1), t);
        assert(placed(ks).last() == t);
    }
}

/// The tokens of a depth argument.
pub open spec fn depth_toks(n: Option<u16>) -> Seq<Tok> {
    match n {
        Some(k) => seq![Tok::Number(Some(k as i128))],
        None => seq![],
    }
}

/// The tokens that write `i`.
pub open spec fn render_instr(i: Instruction) -> Seq<Tok>
    decreases i, 0int,
{
    match i {
        Instruction::Add(_) => seq![Tok::Instr(Prim::Add)],
        Instruction::Int => seq![Tok::Instr(Prim::Int)],
        Instruction::Gt => seq![Tok::Instr(Prim::Gt)],
        Instruction::Swap => seq![Tok::Instr(Prim::Swap)],
        Instruction::Push((t, v)) => seq![Tok::Instr(Prim::Push), Tok::Ty(t), literal_tok(v)],
        Instruction::Drop(n) => seq![Tok::Instr(Prim::Drop)] + depth_toks(n),
        Instruction::Dup(n) => seq![Tok::Instr(Prim::Dup)] + depth_toks(n),
        Instruction::Dip(n, b) => seq![Tok::Instr(Prim::Dip)] + depth_toks(n) + render_block(b@),
        Instruction::If(t, f) => seq![Tok::Instr(Prim::If)] + render_block(t@) + render_block(f@),
        Instruction::Loop(b) => seq![Tok::Instr(Prim::Loop)] + render_block(b@),
    }
}

/// The tokens of the first `m` items of `b`, each followed by `;`.
pub open spec fn render_items(b: Seq<Instruction>, m: int) -> Seq<Tok>
    decreases b, m,
{
    if m <= 0 || m > b.len() {
        seq![]
    } else {
        render_items(b, m - 1) + render_instr(b[m - 1]) + seq![Tok::Semi]
    }
}

/// The tokens that write the block `b`: `{`, the items separated by `;`,
/// then `}`.
pub open spec fn render_block(b: Seq<Instruction>) -> Seq<Tok>
    decreases b, b.len() + 1,
{
    if b.len() == 0 {
        seq![Tok::LBrace, Tok::RBrace]
    } else {
        seq![Tok::LBrace] + render_items(b, b.len() - 1) + render_instr(b[b.len() - 1]) + seq![
            Tok::RBrace,
        ]
    }
}

/// The printed text of the program `a`.
pub open spec fn print_text(a: Seq<Instruction>) -> Seq<u8> {
    text_of(render_block(a))
}

/// The tokens from `p` on are of the kinds `ks`.
pub open spec fn kinds_at(ts: Seq<Token>, p: int, ks: Seq<Tok>) -> bool {
    &&& 0 <= p
    &&& p + ks.len() <= ts.len()
    &&& forall|k: int| 0 <= k < ks.len() ==> #[trigger] ts[p + k].tok == ks[k]
}

proof fn lemma_kinds_split(ts: Seq<Token>, p: int, x: Seq<Tok>, y: Seq<Tok>)
    requires
        kinds_at(ts, p, x + y),
    ensures
        kinds_at(ts, p, x),
        kinds_at(ts, p + x.len(), y),
{
    assert forall|k: int| 0 <= k < x.len() implies #[trigger] ts[p + k].tok == x[k] by {
        assert((x + y)[k] == x[k]);
    }
    assert forall|k: int| 0 <= k < y.len() implies #[trigger] ts[p + x.len() + k].tok == y[k] by {
        assert((x + y)[x.len() + k] == y[k]);
        assert(p + (x.len() + k) == p + x.len() + k);
    }
}

proof fn lemma_render_block_starts(b: Seq<Instruction>)
    ensures
        render_block(b).len() >= 2,
        render_block(b)[0] == Tok::LBrace,
{
}

/// The tokens that write an instruction write it.
proof fn lemma_render_instr(ts: Seq<Token>, p: int, i: Instruction)
    requires
        kinds_at(ts, p, render_instr(i)),
        p + render_instr(i).len() < ts.len() ==> !(ts[p + render_instr(i).len()].tok is Number),
    ensures
        instr_end(ts, p, i) == Some(p + render_instr(i).len()),
    decreases i, 0int,
{
    let r = render_instr(i);
    assert(ts[p + 0].tok == r[0]);
    match i {
        Instruction::Push((t, v)) => {
            assert(ts[p + 1].tok == r[1]);
            assert(ts[p + 2].tok == r[2]);
        },
        Instruction::Drop(n) => {
            lemma_kinds_split(ts, p, seq![Tok::Instr(Prim::Drop)], depth_toks(n));
            if n is Some {
                assert(ts[(p + 1) + 0].tok == depth_toks(n)[0]);
            }
        },
        Instruction::Dup(n) => {
            lemma_kinds_split(ts, p, seq![Tok::Instr(Prim::Dup)], depth_toks(n));
            if n is Some {
                assert(ts[(p + 1) + 0].tok == depth_toks(n)[0]);
            }
        },
        Instruction::Dip(n, b) => {
            let head = seq![Tok::Instr(Prim::Dip)] + depth_toks(n);
            lemma_kinds_split(ts, p, head, render_block(b@));
            lemma_kinds_split(ts, p, seq![Tok::Instr(Prim::Dip)], depth_toks(n));
            let q = p + head.len();
            lemma_render_block_starts(b@);
            assert(ts[q + 0].tok == render_block(b@)[0]);
            if n is Some {
                assert(ts[(p + 1) + 0].tok == depth_toks(n)[0]);
            }
            assert(depth_end(ts, p + 1, n) == Some(q));
            lemma_render_block(ts, q, b@);
        },
        Instruction::If(t, f) => {
            let head = seq![Tok::Instr(Prim::If)] + render_block(t@);
            lemma_kinds_split(ts, p, head, render_block(f@));
            lemma_kinds_split(ts, p, seq![Tok::Instr(Prim::If)], render_block(t@));
            lemma_render_block(ts, p + 1, t@);
            lemma_render_block(ts, p + head.len(), f@);
        },
        Instruction::Loop(b) => {
            lemma_kinds_split(ts, p, seq![Tok::Instr(Prim::Loop)], render_block(b@));
            lemma_render_block(ts, p + 1, b@);
        },
        _ => {},
    }
}

/// The tokens that write the first `m` items of a block, each followed by
/// `;`, write them.
proof fn lemma_render_items(ts: Seq<Token>, p: int, b: Seq<Instruction>, m: int)
    requires
        0 <= m <= b.len(),
        kinds_at(ts, p, render_items(b, m)),
    ensures
        items_end(ts, p, b, m) == Some(p + render_items(b, m).len()),
    decreases b, m,
{
    if m > 0 {
        let prev = render_items(b, m - 1);
        let it = render_instr(b[m - 1]);
        lemma_kinds_split(ts, p, prev + it, seq![Tok::Semi]);
        lemma_kinds_split(ts, p, prev, it);
        lemma_render_items(ts, p, b, m - 1);
        let q = p + prev.len();
        assert(ts[(q + it.len()) + 0].tok == seq![Tok::Semi][0]);
        lemma_render_instr(ts, q, b[m - 1]);
    }
}

/// The tokens that write a block write it.
proof fn lemma_render_block(ts: Seq<Token>, p: int, b: Seq<Instruction>)
    requires
        kinds_at(ts, p, render_block(b)),
    ensures
        block_end(ts, p, b) == Some(p + render_block(b).len()),
    decreases b, b.len() + 1,
{
    let r = render_block(b);
    assert(ts[p + 0].tok == r[0]);
    if b.len() == 0 {
        assert(ts[p + 1].tok == r[1]);
    } else {
        let n = b.len() as int;
        let items = render_items(b, n - 1);
        let last = render_instr(b[n - 1]);
        lemma_kinds_split(ts, p, seq![Tok::LBrace] + items + last, seq![Tok::RBrace]);
        lemma_kinds_split(ts, p, seq![Tok::LBrace] + items, last);
        lemma_kinds_split(ts, p, seq![Tok::LBrace], items);
        lemma_render_items(ts, p + 1, b, n - 1);
        let q = p + 1 + items.len();
        assert(ts[(q + last.len()) + 0].tok == seq![Tok::RBrace][0]);
        lemma_render_instr(ts, q, b[n - 1]);
    }
}

/// The printed text of a program reads back as the rendered tokens, and
/// those write the program.
pub proof fn lemma_print_tokens(a: Seq<Instruction>)
    requires
        print_text(a).len() <= usize::MAX,
    ensures
        lexes_to(print_text(a), placed(render_block(a))),
        block_end(placed(render_block(a)), 0, a) == Some(placed(render_block(a)).len() as int),
{
    let ks = render_block(a);
    lemma_text_tokens(ks);
    reveal(lexes_to);
    assert(kinds_at(placed(ks), 0, ks));
    lemma_render_block(placed(ks), 0, a);
}

/// Printing a program and parsing the text back gives the same program:
/// whatever `parse` returns on the printed text of a program whose depth
/// arguments are in range is that program, item by item.
pub proof fn lemma_print_round_trip(a: Seq<Instruction>, r: Result<AST, ParserError>)
    requires
        block_depths_ok(a, 0),
        print_text(a).len() <= usize::MAX,
        parse_outcome(print_text(a), r),
    ensures
        r is Ok,
        same_block(a, r->Ok_0@, 0),
{
    let b = print_text(a);
    let pt = placed(render_block(a));
    lemma_print_tokens(a);
    match r {
        Ok(ast) => {
            let ts = choose|ts: Seq<Token>| lexes_to(b, ts) && #[trigger] block_end(ts, 0, ast@) == Some(ts.len() as int);
            lemma_lex_unique(b, ts, pt);
            lemma_block_unique(ts, 0, a, ast@);
        },
        Err(e) => {
            if !(e is InvalidToken) {
                let ts = choose|ts: Seq<Token>|
                    #[trigger] lexes_to(b, ts) && forall|a2: Seq<Instruction>|
                        !(block_depths_ok(a2, 0) && #[trigger] block_end(ts, 0, a2) == Some(ts.len() as int));
                lemma_lex_unique(b, ts, pt);
            }
        },
    }
}

fn push_byte(s: &mut String, b: u8)
    ensures
        final(s)@ == old(s)@ + bytes_chars(seq![b]),
{
    push_char(s, b as char);
    assert(s@ =~= old(s)@ + bytes_chars(seq![b]));
}

fn push_prim(s: &mut String, p: Prim)
    ensures
        final(s)@ == old(s)@ + bytes_chars(prim_text(p)),
{
    let ghost s0 = s@;
    match p {
        Prim::Add => {
            push_byte(s, 65u8);
            push_byte(s, 68u8);
            push_byte(s, 68u8);
        },
        Prim::Int => {
            push_byte(s, 73u8);
            push_byte(s, 78u8);
            push_byte(s, 84u8);
        },
        Prim::Gt => {
            push_byte(s, 71u8);
            push_byte(s, 84u8);
        },
        Prim::Swap => {
            push_byte(s, 83u8);
            push_byte(s, 87u8);
            push_byte(s, 65u8);
            push_byte(s, 80u8);
        },
        Prim::Push => {
            push_byte(s, 80u8);
            push_byte(s, 85u8);
            push_byte(s, 83u8);
            push_byte(s, 72u8);
        },
        Prim::Drop => {
            push_byte(s, 68u8);
            push_byte(s, 82u8);
            push_byte(s, 79u8);
            push_byte(s, 80u8);
        },
        Prim::Dup => {
            push_byte(s, 68u8);
            push_byte(s, 85u8);
            push_byte(s, 80u8);
        },
        Prim::Dip => {
            push_byte(s, 68u8);
            push_byte(s, 73u8);
            push_byte(s, 80u8);
        },
        Prim::If => {
            push_byte(s, 73u8);
            push_byte(s, 70u8);
        },
        Prim::Loop => {
            push_byte(s, 76u8);
            push_byte(s, 79u8);
            push_byte(s, 79u8);
            push_byte(s, 80u8);
        },
    }
    assert(s@ =~= s0 + bytes_chars(prim_text(p)));
}

fn push_type(s: &mut String, t: Type)
    ensures
        final(s)@ == old(s)@ + bytes_chars(type_text(t)),
{
    let ghost s0 = s@;
    match t {
        Type::Int => {
            push_byte(s, 105u8);
            push_byte(s, 110u8);
            push_byte(s, 116u8);
        },
        Type::Nat => {
            push_byte(s, 110u8);
            push_byte(s, 97u8);
            push_byte(s, 116u8);
        },
        Type::Bool => {
            push_byte(s, 98u8);
            push_byte(s, 111u8);
            push_byte(s, 111u8);
            push_byte(s, 108u8);
        },
        Type::Mutez => {
            push_byte(s, 109u8);
            push_byte(s, 117u8);
            push_byte(s, 116u8);
            push_byte(s, 101u8);
            push_byte(s, 122u8);
        },
    }
    assert(s@ =~= s0 + bytes_chars(type_text(t)));
}

/// Appends the decimal digits of `n`.
fn push_dec(s: &mut String, n: u128)
    ensures
        final(s)@ == old(s)@ + bytes_chars(dec_bytes(n as nat)),
    decreases n,
{
    let ghost s0 = s@;
    if n >= 10 {
        push_dec(s, n / 10);
    }
    let d = (48 + n % 10) as u8;
    push_byte(s, d);
    if n >= 10 {
        assert(dec_bytes(n as nat) == dec_bytes((n / 10) as nat).push(d));
        assert(bytes_chars(dec_bytes((n / 10) as nat).push(d)) =~= bytes_chars(dec_bytes((n / 10) as nat))
            + bytes_chars(seq![d]));
    } else {
        assert(dec_bytes(n as nat) =~= seq![d]);
    }
    assert(s@ =~= s0 + bytes_chars(dec_bytes(n as nat)));
}

/// Appends the text of token `t`.
fn push_tok(s: &mut String, t: Tok)
    ensures
        final(s)@ == old(s)@ + bytes_chars(tok_text(t)),
{
    let ghost s0 = s@;
    match t {
        Tok::LBrace => push_byte(s, 123u8),
        Tok::RBrace => push_byte(s, 125u8),
        Tok::Semi => push_byte(s, 59u8),
        Tok::Instr(p) => push_prim(s, p),
        Tok::Ty(ty) => push_type(s, ty),
        Tok::Boolean(true) => {
            push_byte(s, 84u8);
            push_byte(s, 114u8);
            push_byte(s, 117u8);
            push_byte(s, 101u8);
            assert(s@ =~= s0 + bytes_chars(tok_text(t)));
        },
        Tok::Boolean(false) => {
            push_byte(s, 70u8);
            push_byte(s, 97u8);
            push_byte(s, 108u8);
            push_byte(s, 115u8);
            push_byte(s, 101u8);
            assert(s@ =~= s0 + bytes_chars(tok_text(t)));
        },
        Tok::Number(Some(v)) => {
            if v < 0 {
                push_byte(s, 45u8);
                let m = ((-(v + 1)) as u128) + 1;
                push_dec(s, m);
                assert(bytes_chars(seq![45u8] + dec_bytes(m as nat)) =~= bytes_chars(seq![45u8])
                    + bytes_chars(dec_bytes(m as nat)));
            } else {
                push_dec(s, v as u128);
            }
            assert(s@ =~= s0 + bytes_chars(tok_text(t)));
        },
        Tok::Number(None) => push_dec(s, TOO_LARGE),
    }
}

fn render_depth(n: &Option<u16>, out: &mut Vec<Tok>)
    ensures
        final(out)@ == old(out)@ + depth_toks(*n),
{
    match n {
        Some(k) => out.push(Tok::Number(Some(*k as i128))),
        None => {},
    }
    assert(out@ =~= old(out)@ + depth_toks(*n));
}

/// Appends the tokens that write `i`.
fn render_instr_exec(i: &Instruction, out: &mut Vec<Tok>)
    ensures
        final(out)@ == old(out)@ + render_instr(*i),
    decreases i,
{
    let ghost o0 = out@;
    match i {
        Instruction::Add(_) => out.push(Tok::Instr(Prim::Add)),
        Instruction::Int => out.push(Tok::Instr(Prim::Int)),
        Instruction::Gt => out.push(Tok::Instr(Prim::Gt)),
        Instruction::Swap => out.push(Tok::Instr(Prim::Swap)),
        Instruction::Push((t, v)) => {
            out.push(Tok::Instr(Prim::Push));
            out.push(Tok::Ty(*t));
            let lit = match v {
                Value::NumberValue(n) => Tok::Number(Some(*n)),
                Value::BooleanValue(x) => Tok::Boolean(*x),
            };
            out.push(lit);
        },
        Instruction::Drop(n) => {
            out.push(Tok::Instr(Prim::Drop));
            render_depth(n, out);
        },
        Instruction::Dup(n) => {
            out.push(Tok::Instr(Prim::Dup));
            render_depth(n, out);
        },
        Instruction::Dip(n, b) => {
            out.push(Tok::Instr(Prim::Dip));
            render_depth(n, out);
            render_block_exec(b, out);
        },
        Instruction::If(t, f) => {
            out.push(Tok::Instr(Prim::If));
            render_block_exec(t, out);
            render_block_exec(f, out);
        },
        Instruction::Loop(b) => {
            out.push(Tok::Instr(Prim::Loop));
            render_block_exec(b, out);
        },
    }
    assert(out@ =~= o0 + render_instr(*i));
}

/// Appends the tokens that write the block `b`.
fn render_block_exec(b: &Vec<Instruction>, out: &mut Vec<Tok>)
    ensures
        final(out)@ == old(out)@ + render_block(b@),
    decreases b,
{
    let ghost o0 = out@;
    out.push(Tok::LBrace);
    let n = b.len();
    if n == 0 {
        out.push(Tok::RBrace);
        assert(out@ =~= o0 + render_block(b@));
        return;
    }
    let mut k: usize = 0;
    while k < n - 1
        invariant
            0 <= k <= n - 1,
            n == b@.len(),
            out@ == o0 + seq![Tok::LBrace] + render_items(b@, k as int),
        decreases n - 1 - k,
    {
        render_instr_exec(&b[k], out);
        out.push(Tok::Semi);
        assert(out@ =~= o0 + seq![Tok::LBrace] + render_items(b@, k + 1));
        k = k + 1;
    }
    render_instr_exec(&b[n - 1], out);
    out.push(Tok::RBrace);
    assert(out@ =~= o0 + render_block(b@));
}

/// Prints the program `ast`: the text of each of its tokens followed by one
/// space. Parsing the text gives `ast` back (`lemma_print_round_trip`).
pub fn print(ast: &Vec<Instruction>) -> (r: String)
    ensures
        r@ == bytes_chars(print_text(ast@)),
{
    let mut toks: Vec<Tok> = Vec::new();
    render_block_exec(ast, &mut toks);
    assert(toks@ =~= render_block(ast@));
    let mut s = String::new();
    let mut k: usize = 0;
    while k < toks.len()
        invariant
            0 <= k <= toks@.len(),
            s@ == bytes_chars(text_of(toks@.subrange(0, k as int))),
        decreases toks@.len() - k,
    {
        let ghost before = s@;
        push_tok(&mut s, toks[k]);
        push_byte(&mut s, 32u8);
        proof {
            let ks = toks@.subrange(0, k + 1);
            assert(ks.drop_last() =~= toks@.subrange(0, k as int));
            assert(ks.last() == toks@[k as int]);
            assert(text_of(ks) == text_of(ks.drop_last()) + tok_text(ks.last()) + seq![32u8]);
            assert(bytes_chars(text_of(ks)) =~= before + bytes_chars(tok_text(toks@[k as int])) + bytes_chars(seq![32u8]));
        }
        k = k + 1;
    }
    assert(toks@.subrange(0, toks@.len() as int) =~= toks@);
    s
}

/// Every byte of `s` is an ASCII code.
pub open spec fn ascii_bytes(s: Seq<u8>) -> bool {
    forall|i: int| 0 <= i < s.len() ==> #[trigger] s[i] < 128
}

proof fn lemma_tok_text_ascii(t: Tok)
    ensures
        ascii_bytes(tok_text(t)),
{
    match t {
        Tok::Number(Some(v)) => {
            if v < 0 {
                lemma_dec_bytes((-v) as nat);
                let d = dec_bytes((-v) as nat);
                assert forall|i: int| 0 <= i < (seq![45u8] + d).len() implies #[trigger] (seq![45u8] + d)[i] < 128 by {
                    if i > 0 {
                        assert((seq![45u8] + d)[i] == d[i - 1]);
                    }
                }
            } else {
                lemma_dec_bytes(v as nat);
            }
        },
        Tok::Number(None) => {
            lemma_dec_bytes(TOO_LARGE as nat);
        },
        _ => {},
    }
}

proof fn lemma_text_ascii(ks: Seq<Tok>)
    ensures
        ascii_bytes(text_of(ks)),
    decreases ks.len(),
{
    if ks.len() > 0 {
        lemma_text_ascii(ks.drop_last());
        lemma_tok_text_ascii(ks.last());
        let a = text_of(ks.drop_last());
        let t = tok_text(ks.last());
        assert forall|i: int| 0 <= i < text_of(ks).len() implies #[trigger] text_of(ks)[i] < 128 by {
            if i < a.len() {
                assert(text_of(ks)[i] == a[i]);
            } else if i < a.len() + t.len() {
                assert(text_of(ks)[i] == t[i - a.len()]);
            }
        }
    }
}

/// A string whose characters are the ASCII bytes `s` is, byte for byte, `s`.
proof fn lemma_ascii_str_bytes(text: &str, s: Seq<u8>)
    requires
        text@ == bytes_chars(s),
        ascii_bytes(s),
    ensures
        text.spec_bytes() == s,
{
    broadcast use vstd::string::is_ascii_spec_bytes;

    assert forall|i: int| 0 <= i < text@.len() implies '\0' <= #[trigger] text@[i] <= '\u{7f}' by {
        assert(text@[i] == s[i] as char);
    }
    assert(vstd::string::is_ascii(text));
    assert forall|i: int| 0 <= i < s.len() implies #[trigger] text.spec_bytes()[i] == s[i] by {
        assert(text@[i] == s[i] as char);
    }
    assert(text.spec_bytes() =~= s);
}

/// Parsing what `print` writes gives the program back: for a text whose
/// characters are the printed text of `a` (the result of `print`), whatever
/// `parse` returns on it is `a`, item by item.
pub proof fn lemma_parse_printed(a: Seq<Instruction>, text: &str, r: Result<AST, ParserError>)
    requires
        block_depths_ok(a, 0),
        print_text(a).len() <= usize::MAX,
        text@ == bytes_chars(print_text(a)),
        parse_outcome(text.spec_bytes(), r),
    ensures
        r is Ok,
        same_block(a, r->Ok_0@, 0),
{
    lemma_text_ascii(render_block(a));
    lemma_ascii_str_bytes(text, print_text(a));
    lemma_print_round_trip(a, r);
}

/// Programs that are the same item by item typecheck alike: the same result,
/// stack type and gas, or the same error and gas.
pub proof fn lemma_same_block_typechecks_alike(
    a1: Seq<Instruction>,
    a2: Seq<Instruction>,
    k: int,
    ts: Seq<Type>,
    g: nat,
)
    requires
        same_block(a1, a2, k),
        0 <= k,
    ensures
        tc_block(a1, k, ts, g) == tc_block(a2, k, ts, g),
    decreases a1, a1.len() - k,
{
    if k < a1.len() {
        lemma_same_instr_typechecks_alike(a1[k], a2[k], ts, g);
        match tc_instr(a1[k], ts, g) {
            Ok((ts2, g2)) => {
                lemma_same_block_typechecks_alike(a1, a2, k + 1, ts2, g2);
            },
            Err(_) => {},
        }
    }
}

/// Instructions that are the same, nested blocks item by item, typecheck
/// alike.
pub proof fn lemma_same_instr_typechecks_alike(i1: Instruction, i2: Instruction, ts: Seq<Type>, g: nat)
    requires
        same_instr(i1, i2),
    ensures
        tc_instr(i1, ts, g) == tc_instr(i2, ts, g),
    decreases i1, 0int,
{
    if g >= tc_cost(i1) {
        let g1 = (g - tc_cost(i1)) as nat;
        let len = ts.len() as int;
        match (i1, i2) {
            (Instruction::Dip(n, b1), Instruction::Dip(_, b2)) => {
                let h = depth_of(n) as int;
                if h <= len {
                    lemma_same_block_typechecks_alike(b1@, b2@, 0, ts.subrange(h, len), g1);
                }
            },
            (Instruction::If(t1, f1), Instruction::If(t2, f2)) => {
                if len >= 1 {
                    let tail = ts.subrange(1, len);
                    lemma_same_block_typechecks_alike(t1@, t2@, 0, tail, g1);
                    match tc_block(t1@, 0, tail, g1) {
                        Ok((_, g2)) => {
                            lemma_same_block_typechecks_alike(f1@, f2@, 0, tail, g2);
                        },
                        Err(_) => {},
                    }
                }
            },
            (Instruction::Loop(b1), Instruction::Loop(b2)) => {
                if len >= 1 {
                    lemma_same_block_typechecks_alike(b1@, b2@, 0, ts.subrange(1, len), g1);
                }
            },
            _ => {},
        }
    }
}

} // verus!
