//! The typechecker: elaborates a parsed block against a stack of types.
use crate::ast::{
    block_type, blocks_correspond, corresponds, depth_of, instr_type, literal_value, AddOverload,
    Instruction, Prim, Type, TypeStack, TypedInstruction, TypedValue, Value, AST, MUTEZ_MAX,
};
use crate::bigint::{digits_from_u128, int_from_i128};
use crate::gas::{Gas, OutOfGas, TC_INSTR_STEP, TC_PUSH_STEP};
use std::collections::VecDeque;
use vstd::prelude::*;

verus! {

/// Why a block does not typecheck.
#[derive(PartialEq, Eq, Debug)]
pub enum TcError {
    OutOfGas(OutOfGas),
    /// The instruction needs `expected` slots and the stack has `got`.
    StackTooShort { expected: usize, got: usize },
    /// The two branches of `IF`, or a `LOOP` body and its entry stack, leave
    /// different stacks.
    StacksNotEqual(TypeStack, TypeStack),
    /// An argument the instruction does not accept (`DUP 0`).
    InvalidArgument(Prim),
    /// The literal of `PUSH` is not a value of its declared type.
    PushLiteralMismatch { declared: Type, literal: Value },
    /// The types on top of the stack fit no form of the instruction.
    NoMatchingOverload { instr: Prim, stack: TypeStack },
}

/// `TcError` with its stacks as sequences.
pub enum TcErrorView {
    OutOfGas,
    StackTooShort { expected: nat, got: nat },
    StacksNotEqual(Seq<Type>, Seq<Type>),
    InvalidArgument(Prim),
    PushLiteralMismatch { declared: Type, literal: Value },
    NoMatchingOverload { instr: Prim, stack: Seq<Type> },
}

impl View for TcError {
    type V = TcErrorView;

    open spec fn view(&self) -> TcErrorView {
        match *self {
            TcError::OutOfGas(_) => TcErrorView::OutOfGas,
            TcError::StackTooShort { expected, got } => TcErrorView::StackTooShort {
                expected: expected as nat,
                got: got as nat,
            },
            TcError::StacksNotEqual(l, r) => TcErrorView::StacksNotEqual(l@, r@),
            TcError::InvalidArgument(p) => TcErrorView::InvalidArgument(p),
            TcError::PushLiteralMismatch { declared, literal } => TcErrorView::PushLiteralMismatch {
                declared,
                literal,
            },
            TcError::NoMatchingOverload { instr, stack } => TcErrorView::NoMatchingOverload {
                instr,
                stack: stack@,
            },
        }
    }
}

/// Gas that typechecking `i` itself costs, before its nested blocks.
pub open spec fn tc_cost(i: Instruction) -> nat {
    match i {
        Instruction::Push(_) => TC_PUSH_STEP as nat,
        _ => TC_INSTR_STEP as nat,
    }
}

/// The overload of `ADD` for operands of types `a` and `b`.
pub open spec fn add_overload(a: Type, b: Type) -> Option<AddOverload> {
    match (a, b) {
        (Type::Nat, Type::Nat) => Some(AddOverload::NatNat),
        (Type::Int, Type::Int) => Some(AddOverload::IntInt),
        (Type::Mutez, Type::Mutez) => Some(AddOverload::MutezMutez),
        _ => None,
    }
}

pub open spec fn too_short(expected: nat, ts: Seq<Type>) -> TcErrorView {
    TcErrorView::StackTooShort { expected, got: ts.len() }
}

pub open spec fn no_overload(p: Prim, ts: Seq<Type>, n: int) -> TcErrorView {
    TcErrorView::NoMatchingOverload { instr: p, stack: ts.subrange(0, n) }
}

/// Typechecking of one instruction from stack type `ts` with `g` milligas:
/// the resulting stack type and gas, or the error and the gas left when it
/// was found.
pub open spec fn tc_instr(i: Instruction, ts: Seq<Type>, g: nat) -> Result<
    (Seq<Type>, nat),
    (TcErrorView, nat),
>
    decreases i, 0nat,
{
    if g < tc_cost(i) {
        Err((TcErrorView::OutOfGas, g))
    } else {
        let g1 = (g - tc_cost(i)) as nat;
        let len = ts.len() as int;
        match i {
            Instruction::Add(_) => if len < 2 {
                Err((too_short(2, ts), g1))
            } else if add_overload(ts[0], ts[1]) is Some {
                Ok((ts.subrange(1, len), g1))
            } else {
                Err((no_overload(Prim::Add, ts, 2), g1))
            },
            Instruction::Int => if len < 1 {
                Err((too_short(1, ts), g1))
            } else if ts[0] == Type::Nat {
                Ok((ts.update(0, Type::Int), g1))
            } else {
                Err((no_overload(Prim::Int, ts, 1), g1))
            },
            Instruction::Gt => if len < 1 {
                Err((too_short(1, ts), g1))
            } else if ts[0] == Type::Int {
                Ok((ts.update(0, Type::Bool), g1))
            } else {
                Err((no_overload(Prim::Gt, ts, 1), g1))
            },
            Instruction::Swap => if len < 2 {
                Err((too_short(2, ts), g1))
            } else {
                Ok((seq![ts[1], ts[0]] + ts.subrange(2, len), g1))
            },
            Instruction::Push((t, v)) => if literal_value(t, v) is Some {
                Ok((seq![t] + ts, g1))
            } else {
                Err((TcErrorView::PushLiteralMismatch { declared: t, literal: v }, g1))
            },
            Instruction::Drop(n) => if len < depth_of(n) {
                Err((too_short(depth_of(n), ts), g1))
            } else {
                Ok((ts.subrange(depth_of(n) as int, len), g1))
            },
            Instruction::Dup(n) => if depth_of(n) == 0 {
                Err((TcErrorView::InvalidArgument(Prim::Dup), g1))
            } else if len < depth_of(n) {
                Err((too_short(depth_of(n), ts), g1))
            } else {
                Ok((seq![ts[depth_of(n) - 1]] + ts, g1))
            },
            Instruction::Dip(n, body) => {
                let h = depth_of(n) as int;
                if len < h {
                    Err((too_short(depth_of(n), ts), g1))
                } else {
                    match tc_block(body@, 0, ts.subrange(h, len), g1) {
                        Ok((r, g2)) => Ok((ts.subrange(0, h) + r, g2)),
                        Err(e) => Err(e),
                    }
                }
            },
            Instruction::If(t, f) => if len < 1 {
                Err((too_short(1, ts), g1))
            } else if ts[0] != Type::Bool {
                Err((no_overload(Prim::If, ts, 1), g1))
            } else {
                match tc_block(t@, 0, ts.subrange(1, len), g1) {
                    Err(e) => Err(e),
                    Ok((rt, g2)) => match tc_block(f@, 0, ts.subrange(1, len), g2) {
                        Err(e) => Err(e),
                        Ok((rf, g3)) => if rt == rf {
                            Ok((rt, g3))
                        } else {
                            Err((TcErrorView::StacksNotEqual(rt, rf), g3))
                        },
                    },
                }
            },
            Instruction::Loop(body) => if len < 1 {
                Err((too_short(1, ts), g1))
            } else if ts[0] != Type::Bool {
                Err((no_overload(Prim::Loop, ts, 1), g1))
            } else {
                let tail = ts.subrange(1, len);
                match tc_block(body@, 0, tail, g1) {
                    Err(e) => Err(e),
                    Ok((r, g2)) => if r.len() < 1 {
                        Err((too_short(1, r), g2))
                    } else if r[0] != Type::Bool {
                        Err((no_overload(Prim::Loop, r, 1), g2))
                    } else if r.subrange(1, r.len() as int) != tail {
                        Err((TcErrorView::StacksNotEqual(tail, r.subrange(1, r.len() as int)), g2))
                    } else {
                        Ok((tail, g2))
                    },
                }
            },
        }
    }
}

/// Typechecking of `b[k..]` from stack type `ts` with `g` milligas.
pub open spec fn tc_block(b: Seq<Instruction>, k: int, ts: Seq<Type>, g: nat) -> Result<
    (Seq<Type>, nat),
    (TcErrorView, nat),
>
    decreases b, b.len() - k,
{
    if 0 <= k < b.len() {
        match tc_instr(b[k], ts, g) {
            Ok((ts2, g2)) => tc_block(b, k + 1, ts2, g2),
            Err(e) => Err(e),
        }
    } else {
        Ok((ts, g))
    }
}

/// What `typecheck_instruction` leaves: on success the typed counterpart of
/// `i`, whose typing judgment gives the new stack type.
pub open spec fn tc_instr_outcome(
    i: Instruction,
    ts: Seq<Type>,
    g: nat,
    r: Result<TypedInstruction, TcError>,
    ts2: Seq<Type>,
    g2: nat,
) -> bool {
    &&& g2 <= g
    &&& match tc_instr(i, ts, g) {
        Ok((rts, rg)) => match r {
            Ok(t) => ts2 == rts && g2 == rg && corresponds(i, t) && instr_type(t, ts) == Some(rts),
            Err(_) => false,
        },
        Err((e, ge)) => match r {
            Ok(_) => false,
            Err(re) => re@ == e && g2 == ge && ts2 == ts,
        },
    }
}

/// What `typecheck` leaves for the block `b`: on an error, the gas left when
/// it was found and the stack type it was given.
pub open spec fn tc_block_outcome(
    b: Seq<Instruction>,
    ts: Seq<Type>,
    g: nat,
    r: Result<Vec<TypedInstruction>, TcError>,
    ts2: Seq<Type>,
    g2: nat,
) -> bool {
    &&& g2 <= g
    &&& match tc_block(b, 0, ts, g) {
        Ok((rts, rg)) => match r {
            Ok(t) => ts2 == rts && g2 == rg && blocks_correspond(b, t@, 0) && block_type(t@, 0, ts)
                == Some(rts),
            Err(_) => false,
        },
        Err((e, ge)) => match r {
            Ok(_) => false,
            Err(re) => re@ == e && g2 == ge && ts2 == ts,
        },
    }
}

/// Typechecks the block `ast` against `stack`, which it turns into the
/// stack type the block leaves, and returns the typed block.
pub fn typecheck(ast: AST, gas: &mut Gas, stack: &mut TypeStack) -> (r: Result<
    Vec<TypedInstruction>,
    TcError,
>)
    ensures
        tc_block_outcome(ast@, old(stack)@, old(gas)@, r, final(stack)@, final(gas)@),
{
    let saved = copy_prefix(stack, stack.len());
    assert(saved@ =~= stack@);
    let r = typecheck_block(&ast, gas, stack);
    match r {
        Ok(_) => {},
        Err(_) => {
            *stack = saved;
        },
    }
    r
}

proof fn lemma_block_type_push(s: Seq<TypedInstruction>, x: TypedInstruction, k: int, ts: Seq<Type>)
    requires
        0 <= k <= s.len(),
    ensures
        block_type(s.push(x), k, ts) == match block_type(s, k, ts) {
            Some(t) => instr_type(x, t),
            None => None,
        },
    decreases s.len() - k,
{
    assert(s.push(x)[k] == if k < s.len() { s[k] } else { x });
    if k < s.len() {
        match instr_type(s[k], ts) {
            Some(ts2) => lemma_block_type_push(s, x, k + 1, ts2),
            None => {},
        }
    } else {
        match instr_type(x, ts) {
            Some(ts2) => {
                assert(block_type(s.push(x), k + 1, ts2) == Some(ts2));
            },
            None => {},
        }
    }
}

proof fn lemma_blocks_correspond(ub: Seq<Instruction>, tb: Seq<TypedInstruction>, k: int)
    requires
        0 <= k <= ub.len(),
        ub.len() == tb.len(),
        forall|j: int| k <= j < ub.len() ==> corresponds(#[trigger] ub[j], tb[j]),
    ensures
        blocks_correspond(ub, tb, k),
    decreases ub.len() - k,
{
    if k < ub.len() {
        lemma_blocks_correspond(ub, tb, k + 1);
    }
}

fn typecheck_block(ast: &Vec<Instruction>, gas: &mut Gas, stack: &mut TypeStack) -> (r: Result<
    Vec<TypedInstruction>,
    TcError,
>)
    ensures
        tc_block_outcome(
            ast@,
            old(stack)@,
            old(gas)@,
            r,
            if r is Ok { final(stack)@ } else { old(stack)@ },
            final(gas)@,
        ),
    decreases ast,
{
    let ghost ts0 = stack@;
    let ghost g0 = gas@;
    let mut out: Vec<TypedInstruction> = Vec::new();
    let mut k: usize = 0;
    while k < ast.len()
        invariant
            0 <= k <= ast.len(),
            out@.len() == k,
            ts0 == old(stack)@,
            g0 == old(gas)@,
            gas@ <= g0,
            tc_block(ast@, 0, ts0, g0) == tc_block(ast@, k as int, stack@, gas@),
            block_type(out@, 0, ts0) == Some(stack@),
            forall|j: int| 0 <= j < k ==> corresponds(#[trigger] ast@[j], out@[j]),
        decreases ast.len() - k,
    {
        let ghost ts_k = stack@;
        let ghost g_k = gas@;
        match check_instruction(&ast[k], gas, stack) {
            Ok(t) => {
                proof {
                    lemma_block_type_push(out@, t, 0, ts0);
                }
                out.push(t);
            },
            Err(e) => {
                assert(tc_block(ast@, k as int, ts_k, g_k) == Err::<(Seq<Type>, nat), (TcErrorView, nat)>((e@, gas@)));
                return Err(e);
            },
        }
        k = k + 1;
    }
    proof {
        lemma_blocks_correspond(ast@, out@, 0);
    }
    Ok(out)
}

/// The first `n` slots of `s`, copied.
fn copy_prefix(s: &TypeStack, n: usize) -> (r: TypeStack)
    requires
        n <= s@.len(),
    ensures
        r@ == s@.subrange(0, n as int),
{
    let mut r: TypeStack = VecDeque::new();
    let mut j: usize = 0;
    while j < n
        invariant
            0 <= j <= n <= s@.len(),
            r@ == s@.subrange(0, j as int),
        decreases n - j,
    {
        r.push_back(s[j]);
        j = j + 1;
    }
    r
}

/// Structural equality of two type stacks.
fn stacks_equal(a: &TypeStack, b: &TypeStack) -> (r: bool)
    ensures
        r == (a@ == b@),
{
    if a.len() != b.len() {
        return false;
    }
    let mut j: usize = 0;
    while j < a.len()
        invariant
            0 <= j <= a@.len() == b@.len(),
            forall|m: int| 0 <= m < j ==> a@[m] == b@[m],
        decreases a@.len() - j,
    {
        if a[j] != b[j] {
            return false;
        }
        j = j + 1;
    }
    assert(a@ =~= b@);
    true
}

/// The depth argument with its default.
fn depth_value(n: &Option<u16>) -> (r: u16)
    ensures
        r == depth_of(*n),
{
    match n {
        Some(k) => *k,
        None => 1,
    }
}

/// The value that literal `v` denotes at the declared type `t`, or the
/// mismatch when `v` is no value of `t`.
pub fn typecheck_value(t: &Type, v: &Value) -> (r: Result<TypedValue, TcError>)
    ensures
        match literal_value(*t, *v) {
            Some(x) => r == Ok::<TypedValue, TcError>(x),
            None => r == Err::<TypedValue, TcError>(TcError::PushLiteralMismatch { declared: *t, literal: *v }),
        },
{
    let tv = match (t, v) {
        (Type::Nat, Value::NumberValue(n)) => {
            if *n >= 0 {
                Some(TypedValue::Nat(digits_from_u128(*n as u128)))
            } else {
                None
            }
        },
        (Type::Int, Value::NumberValue(n)) => Some(TypedValue::Int(int_from_i128(*n))),
        (Type::Mutez, Value::NumberValue(n)) => {
            if 0 <= *n && *n <= MUTEZ_MAX as i128 {
                Some(TypedValue::Mutez(*n as i64))
            } else {
                None
            }
        },
        (Type::Bool, Value::BooleanValue(b)) => Some(TypedValue::Bool(*b)),
        _ => None,
    };
    match tv {
        Some(x) => Ok(x),
        None => Err(TcError::PushLiteralMismatch { declared: *t, literal: *v }),
    }
}

/// Typechecks one instruction against `stack`, which it turns into the stack
/// type the instruction leaves; on an error `stack` is left as it was.
pub fn typecheck_instruction(i: &Instruction, gas: &mut Gas, stack: &mut TypeStack) -> (r: Result<
    TypedInstruction,
    TcError,
>)
    ensures
        tc_instr_outcome(*i, old(stack)@, old(gas)@, r, final(stack)@, final(gas)@),
{
    let saved = copy_prefix(stack, stack.len());
    assert(saved@ =~= stack@);
    let r = check_instruction(i, gas, stack);
    match r {
        Ok(_) => {},
        Err(_) => {
            *stack = saved;
        },
    }
    r
}

fn check_instruction(i: &Instruction, gas: &mut Gas, stack: &mut TypeStack) -> (r: Result<
    TypedInstruction,
    TcError,
>)
    ensures
        tc_instr_outcome(
            *i,
            old(stack)@,
            old(gas)@,
            r,
            if r is Ok { final(stack)@ } else { old(stack)@ },
            final(gas)@,
        ),
    decreases i,
{
    let ghost ts = stack@;
    let cost = match i {
        Instruction::Push(_) => TC_PUSH_STEP,
        _ => TC_INSTR_STEP,
    };
    match gas.consume(cost) {
        Ok(()) => {},
        Err(e) => {
            return Err(TcError::OutOfGas(e));
        },
    }
    let len = stack.len();
    match i {
        Instruction::Add(_) => {
            if len < 2 {
                return Err(TcError::StackTooShort { expected: 2, got: len });
            }
            let o = match (stack[0], stack[1]) {
                (Type::Nat, Type::Nat) => AddOverload::NatNat,
                (Type::Int, Type::Int) => AddOverload::IntInt,
                (Type::Mutez, Type::Mutez) => AddOverload::MutezMutez,
                _ => {
                    return Err(TcError::NoMatchingOverload { instr: Prim::Add, stack: copy_prefix(stack, 2) });
                },
            };
            stack.pop_front();
            Ok(TypedInstruction::Add(o))
        },
        Instruction::Int => {
            if len < 1 {
                return Err(TcError::StackTooShort { expected: 1, got: len });
            }
            if stack[0] != Type::Nat {
                return Err(TcError::NoMatchingOverload { instr: Prim::Int, stack: copy_prefix(stack, 1) });
            }
            stack.pop_front();
            stack.push_front(Type::Int);
            assert(stack@ =~= ts.update(0, Type::Int));
            Ok(TypedInstruction::Int)
        },
        Instruction::Gt => {
            if len < 1 {
                return Err(TcError::StackTooShort { expected: 1, got: len });
            }
            if stack[0] != Type::Int {
                return Err(TcError::NoMatchingOverload { instr: Prim::Gt, stack: copy_prefix(stack, 1) });
            }
            stack.pop_front();
            stack.push_front(Type::Bool);
            assert(stack@ =~= ts.update(0, Type::Bool));
            Ok(TypedInstruction::Gt)
        },
        Instruction::Swap => {
            if len < 2 {
                return Err(TcError::StackTooShort { expected: 2, got: len });
            }
            let a = stack[0];
            let b = stack[1];
            stack.pop_front();
            stack.pop_front();
            stack.push_front(a);
            stack.push_front(b);
            assert(stack@ =~= seq![ts[1], ts[0]] + ts.subrange(2, len as int));
            Ok(TypedInstruction::Swap)
        },
        Instruction::Push((t, v)) => {
            let x = match typecheck_value(t, v) {
                Ok(x) => x,
                Err(e) => {
                    return Err(e);
                },
            };
            stack.push_front(*t);
            Ok(TypedInstruction::Push(x))
        },
        Instruction::Drop(n) => {
            let h = depth_value(n);
            if len < h as usize {
                return Err(TcError::StackTooShort { expected: h as usize, got: len });
            }
            let rest = stack.split_off(h as usize);
            *stack = rest;
            Ok(TypedInstruction::Drop(h))
        },
        Instruction::Dup(n) => {
            let h = depth_value(n);
            if h == 0 {
                return Err(TcError::InvalidArgument(Prim::Dup));
            }
            if len < h as usize {
                return Err(TcError::StackTooShort { expected: h as usize, got: len });
            }
            let t = stack[(h - 1) as usize];
            stack.push_front(t);
            Ok(TypedInstruction::Dup(h))
        },
        Instruction::Dip(n, body) => {
            let h = depth_value(n);
            if len < h as usize {
                return Err(TcError::StackTooShort { expected: h as usize, got: len });
            }
            let mut live = stack.split_off(h as usize);
            let tb = match typecheck_block(body, gas, &mut live) {
                Ok(tb) => tb,
                Err(e) => {
                    return Err(e);
                },
            };
            stack.append(&mut live);
            Ok(TypedInstruction::Dip(h, tb))
        },
        Instruction::If(nested_t, nested_f) => {
            if len < 1 {
                return Err(TcError::StackTooShort { expected: 1, got: len });
            }
            if stack[0] != Type::Bool {
                return Err(TcError::NoMatchingOverload { instr: Prim::If, stack: copy_prefix(stack, 1) });
            }
            stack.pop_front();
            let mut t_stack = copy_prefix(stack, len - 1);
            let mut f_stack = copy_prefix(stack, len - 1);
            assert(t_stack@ =~= ts.subrange(1, len as int));
            assert(f_stack@ =~= ts.subrange(1, len as int));
            let tt = match typecheck_block(nested_t, gas, &mut t_stack) {
                Ok(tt) => tt,
                Err(e) => {
                    return Err(e);
                },
            };
            let tf = match typecheck_block(nested_f, gas, &mut f_stack) {
                Ok(tf) => tf,
                Err(e) => {
                    return Err(e);
                },
            };
            if !stacks_equal(&t_stack, &f_stack) {
                return Err(TcError::StacksNotEqual(t_stack, f_stack));
            }
            *stack = t_stack;
            Ok(TypedInstruction::If(tt, tf))
        },
        Instruction::Loop(nested) => {
            if len < 1 {
                return Err(TcError::StackTooShort { expected: 1, got: len });
            }
            if stack[0] != Type::Bool {
                return Err(TcError::NoMatchingOverload { instr: Prim::Loop, stack: copy_prefix(stack, 1) });
            }
            stack.pop_front();
            let mut live = copy_prefix(stack, len - 1);
            assert(live@ =~= ts.subrange(1, len as int));
            let tb = match typecheck_block(nested, gas, &mut live) {
                Ok(tb) => tb,
                Err(e) => {
                    return Err(e);
                },
            };
            if live.len() < 1 {
                return Err(TcError::StackTooShort { expected: 1, got: live.len() });
            }
            if live[0] != Type::Bool {
                return Err(TcError::NoMatchingOverload { instr: Prim::Loop, stack: copy_prefix(&live, 1) });
            }
            let ghost r = live@;
            live.pop_front();
            if !stacks_equal(stack, &live) {
                let entry = copy_prefix(stack, len - 1);
                return Err(TcError::StacksNotEqual(entry, live));
            }
            assert(live@ == r.subrange(1, r.len() as int));
            assert(stack@ == ts.subrange(1, len as int));
            assert(r[0] == ts[0]);
            assert forall|m: int| 0 <= m < r.len() implies r[m] == ts[m] by {
                if m > 0 {
                    assert(r[m] == r.subrange(1, r.len() as int)[m - 1]);
                    assert(ts[m] == ts.subrange(1, len as int)[m - 1]);
                }
            }
            assert(r =~= ts);
            Ok(TypedInstruction::Loop(tb))
        },
    }
}

/// Typechecking is deterministic: two runs of `typecheck` on the same block,
/// stack type and gas both succeed or both fail; they leave the same stack
/// type and the same gas, and when they fail, the same error.
pub proof fn lemma_typecheck_deterministic(
    b: Seq<Instruction>,
    ts: Seq<Type>,
    g: nat,
    r1: Result<Vec<TypedInstruction>, TcError>,
    ts1: Seq<Type>,
    g1: nat,
    r2: Result<Vec<TypedInstruction>, TcError>,
    ts2: Seq<Type>,
    g2: nat,
)
    requires
        tc_block_outcome(b, ts, g, r1, ts1, g1),
        tc_block_outcome(b, ts, g, r2, ts2, g2),
    ensures
        r1 is Ok <==> r2 is Ok,
        ts1 == ts2,
        g1 == g2,
        r1 is Err ==> r1->Err_0@ == r2->Err_0@,
{
}

/// `DUP 0` never typechecks: given gas for its step it is rejected with
/// `InvalidArgument`, whatever the stack.
pub proof fn lemma_dup_zero_rejected(ts: Seq<Type>, g: nat)
    ensures
        tc_instr(Instruction::Dup(Some(0)), ts, g) is Err,
        g >= TC_INSTR_STEP ==> tc_instr(Instruction::Dup(Some(0)), ts, g) == Err::<
            (Seq<Type>, nat),
            (TcErrorView, nat),
        >((TcErrorView::InvalidArgument(Prim::Dup), (g - TC_INSTR_STEP) as nat)),
{
}

/// An `IF` whose two branches leave different stacks is rejected with
/// `StacksNotEqual`, carrying the two stacks.
pub proof fn lemma_if_branches_must_agree(
    t: Vec<Instruction>,
    f: Vec<Instruction>,
    ts: Seq<Type>,
    g: nat,
    rt: Seq<Type>,
    gt: nat,
    rf: Seq<Type>,
    gf: nat,
)
    requires
        ts.len() >= 1,
        ts[0] == Type::Bool,
        g >= TC_INSTR_STEP,
        tc_block(t@, 0, ts.subrange(1, ts.len() as int), (g - TC_INSTR_STEP) as nat) == Ok::<
            (Seq<Type>, nat),
            (TcErrorView, nat),
        >((rt, gt)),
        tc_block(f@, 0, ts.subrange(1, ts.len() as int), gt) == Ok::<
            (Seq<Type>, nat),
            (TcErrorView, nat),
        >((rf, gf)),
        rt != rf,
    ensures
        tc_instr(Instruction::If(t, f), ts, g) is Err,
        tc_instr(Instruction::If(t, f), ts, g)->Err_0.0 == TcErrorView::StacksNotEqual(rt, rf),
{
}

/// A `LOOP` whose body leaves `Bool` over a stack other than the one it
/// started from is rejected with `StacksNotEqual`, carrying the entry tail
/// and the tail the body left.
pub proof fn lemma_loop_body_must_restore(
    body: Vec<Instruction>,
    ts: Seq<Type>,
    g: nat,
    r: Seq<Type>,
    g2: nat,
)
    requires
        ts.len() >= 1,
        ts[0] == Type::Bool,
        g >= TC_INSTR_STEP,
        tc_block(body@, 0, ts.subrange(1, ts.len() as int), (g - TC_INSTR_STEP) as nat) == Ok::<
            (Seq<Type>, nat),
            (TcErrorView, nat),
        >((seq![Type::Bool] + r, g2)),
        r != ts.subrange(1, ts.len() as int),
    ensures
        tc_instr(Instruction::Loop(body), ts, g) is Err,
        tc_instr(Instruction::Loop(body), ts, g)->Err_0.0 == TcErrorView::StacksNotEqual(
            ts.subrange(1, ts.len() as int),
            r,
        ),
{
    assert((seq![Type::Bool] + r).subrange(1, r.len() as int + 1) =~= r);
}

} // verus!
