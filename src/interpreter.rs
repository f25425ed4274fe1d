//! The interpreter: runs a typed block on a stack of values under a gas
//! budget.
use crate::ast::{
    block_type, has_type, instr_type, stack_has_types, AddOverload, IStack, Instruction, Type,
    TypedInstruction, TypedValue, MUTEZ_MAX,
};
use crate::ast::copy_value;
use crate::bigint::{digits_of, int_add, int_of, is_positive, ival, nat_add, nat_to_int, val};
use crate::gas::{
    depth_cost, depth_cost_exec, Gas, OutOfGas, ADD_MUTEZ_COST, ADD_NUM_COST, DIP_COST, IF_COST,
    LOOP_COST, PUSH_COST, SIMPLE_COST,
};
use crate::typechecker::{tc_block_outcome, TcError};
use vstd::prelude::*;

verus! {

/// Why a run stopped.
#[derive(PartialEq, Eq, Structural, Clone, Copy, Debug)]
pub enum InterpretError {
    OutOfGas(OutOfGas),
    /// A mutez sum above `2^63 - 1`.
    MutezOverflow,
    /// The stack does not have the shape the instruction was typed for; a
    /// typechecked block never gets here.
    InternalInvariantBroken,
}

/// Gas that running `i` itself costs, before its nested blocks.
pub open spec fn instr_cost(i: TypedInstruction) -> nat {
    match i {
        TypedInstruction::Add(AddOverload::MutezMutez) => ADD_MUTEZ_COST as nat,
        TypedInstruction::Add(_) => ADD_NUM_COST as nat,
        TypedInstruction::Int => SIMPLE_COST as nat,
        TypedInstruction::Gt => SIMPLE_COST as nat,
        TypedInstruction::Swap => SIMPLE_COST as nat,
        TypedInstruction::Push(_) => PUSH_COST as nat,
        TypedInstruction::Drop(n) => depth_cost(n as nat),
        TypedInstruction::Dup(n) => depth_cost(n as nat),
        TypedInstruction::Dip(_, _) => DIP_COST as nat,
        TypedInstruction::If(_, _) => IF_COST as nat,
        TypedInstruction::Loop(_) => LOOP_COST as nat,
    }
}

/// The sum of two values under an `ADD` overload.
pub open spec fn add_values(o: AddOverload, a: TypedValue, b: TypedValue) -> Result<
    TypedValue,
    InterpretError,
> {
    match (o, a, b) {
        (AddOverload::NatNat, TypedValue::Nat(x), TypedValue::Nat(y)) => Ok(
            TypedValue::Nat(digits_of(val(x) + val(y))),
        ),
        (AddOverload::IntInt, TypedValue::Int(x), TypedValue::Int(y)) => Ok(
            TypedValue::Int(int_of(ival(x) + ival(y))),
        ),
        (AddOverload::MutezMutez, TypedValue::Mutez(x), TypedValue::Mutez(y)) => if x + y
            > MUTEZ_MAX {
            Err(InterpretError::MutezOverflow)
        } else if x + y < 0 {
            Err(InterpretError::InternalInvariantBroken)
        } else {
            Ok(TypedValue::Mutez((x + y) as i64))
        },
        _ => Err(InterpretError::InternalInvariantBroken),
    }
}

/// What a run that stops leaves: the error, the stack and the gas at that
/// point.
pub type Stop = (InterpretError, Seq<TypedValue>, nat);

pub open spec fn broken(vs: Seq<TypedValue>, g: nat) -> Result<(Seq<TypedValue>, nat), Stop> {
    Err((InterpretError::InternalInvariantBroken, vs, g))
}

/// Running one instruction on `vs` with `g` milligas: the new stack and gas,
/// or the error. The instruction's own cost is charged before anything else.
pub open spec fn run_instr(i: TypedInstruction, vs: Seq<TypedValue>, g: nat) -> Result<
    (Seq<TypedValue>, nat),
    Stop,
>
    decreases g, i, 0int,
{
    if g < instr_cost(i) {
        Err((InterpretError::OutOfGas(OutOfGas), vs, g))
    } else {
        let g1 = (g - instr_cost(i)) as nat;
        let len = vs.len() as int;
        match i {
            TypedInstruction::Add(o) => if len < 2 {
                broken(vs, g1)
            } else {
                match add_values(o, vs[0], vs[1]) {
                    Ok(v) => Ok((seq![v] + vs.subrange(2, len), g1)),
                    Err(e) => Err((e, vs, g1)),
                }
            },
            TypedInstruction::Int => if len >= 1 && vs[0] is Nat {
                Ok((vs.update(0, TypedValue::Int(int_of(val(vs[0]->Nat_0) as int))), g1))
            } else {
                broken(vs, g1)
            },
            TypedInstruction::Gt => if len >= 1 && vs[0] is Int {
                Ok((vs.update(0, TypedValue::Bool(ival(vs[0]->Int_0) > 0)), g1))
            } else {
                broken(vs, g1)
            },
            TypedInstruction::Swap => if len >= 2 {
                Ok((seq![vs[1], vs[0]] + vs.subrange(2, len), g1))
            } else {
                broken(vs, g1)
            },
            TypedInstruction::Push(v) => Ok((seq![v] + vs, g1)),
            TypedInstruction::Drop(n) => if n <= len {
                Ok((vs.subrange(n as int, len), g1))
            } else {
                broken(vs, g1)
            },
            TypedInstruction::Dup(n) => if 1 <= n <= len {
                Ok((seq![vs[n - 1]] + vs, g1))
            } else {
                broken(vs, g1)
            },
            TypedInstruction::Dip(n, body) => if n <= len {
                match run_block(body@, 0, vs.subrange(n as int, len), g1) {
                    Ok((r, g2)) => Ok((vs.subrange(0, n as int) + r, g2)),
                    Err((e, r, g2)) => Err((e, vs.subrange(0, n as int) + r, g2)),
                }
            } else {
                broken(vs, g1)
            },
            TypedInstruction::If(t, f) => if len >= 1 && vs[0] is Bool {
                if vs[0]->Bool_0 {
                    run_block(t@, 0, vs.subrange(1, len), g1)
                } else {
                    run_block(f@, 0, vs.subrange(1, len), g1)
                }
            } else {
                broken(vs, g1)
            },
            TypedInstruction::Loop(body) => if len >= 1 && vs[0] is Bool {
                if vs[0]->Bool_0 {
                    run_loop(body@, vs.subrange(1, len), g1)
                } else {
                    Ok((vs.subrange(1, len), g1))
                }
            } else {
                broken(vs, g1)
            },
        }
    }
}

/// Running the body of a loop on `vs` with `g` milligas, then going on while
/// the body leaves `True` on top; every pass after the first costs
/// `LOOP_COST`.
pub open spec fn run_loop(body: Seq<TypedInstruction>, vs: Seq<TypedValue>, g: nat) -> Result<
    (Seq<TypedValue>, nat),
    Stop,
>
    decreases g, body, body.len() + 1,
{
    match run_block(body, 0, vs, g) {
        Err(e) => Err(e),
        Ok((r, g2)) => if r.len() >= 1 && r[0] is Bool {
            let tail = r.subrange(1, r.len() as int);
            if !r[0]->Bool_0 {
                Ok((tail, g2))
            } else if g2 < LOOP_COST {
                Err((InterpretError::OutOfGas(OutOfGas), tail, g2))
            } else if g2 <= g {
                run_loop(body, tail, (g2 - LOOP_COST) as nat)
            } else {
                broken(tail, g2)
            }
        } else {
            broken(r, g2)
        },
    }
}

/// Running `b[k..]` on `vs` with `g` milligas. (Gas never grows, so the
/// last branch is never taken: see `lemma_gas_decreases_block`.)
pub open spec fn run_block(b: Seq<TypedInstruction>, k: int, vs: Seq<TypedValue>, g: nat) -> Result<
    (Seq<TypedValue>, nat),
    Stop,
>
    decreases g, b, b.len() - k,
{
    if 0 <= k < b.len() {
        match run_instr(b[k], vs, g) {
            Ok((vs2, g2)) => if g2 <= g {
                run_block(b, k + 1, vs2, g2)
            } else {
                broken(vs2, g2)
            },
            Err(e) => Err(e),
        }
    } else {
        Ok((vs, g))
    }
}

/// What a run leaves: on success the stack and gas that `res` gives, on
/// failure its error with the stack and gas as they were at the failing
/// step; gas never grows.
pub open spec fn run_outcome(
    res: Result<(Seq<TypedValue>, nat), Stop>,
    g: nat,
    r: Result<(), InterpretError>,
    vs2: Seq<TypedValue>,
    g2: nat,
) -> bool {
    &&& g2 <= g
    &&& match res {
        Ok((v, rg)) => r is Ok && vs2 == v && g2 == rg,
        Err((e, ve, ge)) => r == Err::<(), InterpretError>(e) && vs2 == ve && g2 == ge,
    }
}

fn instr_cost_exec(i: &TypedInstruction) -> (r: u64)
    ensures
        r == instr_cost(*i),
{
    match i {
        TypedInstruction::Add(AddOverload::MutezMutez) => ADD_MUTEZ_COST,
        TypedInstruction::Add(_) => ADD_NUM_COST,
        TypedInstruction::Int => SIMPLE_COST,
        TypedInstruction::Gt => SIMPLE_COST,
        TypedInstruction::Swap => SIMPLE_COST,
        TypedInstruction::Push(_) => PUSH_COST,
        TypedInstruction::Drop(n) => depth_cost_exec(*n),
        TypedInstruction::Dup(n) => depth_cost_exec(*n),
        TypedInstruction::Dip(_, _) => DIP_COST,
        TypedInstruction::If(_, _) => IF_COST,
        TypedInstruction::Loop(_) => LOOP_COST,
    }
}

fn add_exec(o: AddOverload, a: &TypedValue, b: &TypedValue) -> (r: Result<TypedValue, InterpretError>)
    ensures
        r == add_values(o, *a, *b),
{
    match (o, a, b) {
        (AddOverload::NatNat, TypedValue::Nat(x), TypedValue::Nat(y)) => Ok(TypedValue::Nat(nat_add(x, y))),
        (AddOverload::IntInt, TypedValue::Int(x), TypedValue::Int(y)) => Ok(TypedValue::Int(int_add(x, y))),
        (AddOverload::MutezMutez, TypedValue::Mutez(x), TypedValue::Mutez(y)) => {
            let s = *x as i128 + *y as i128;
            if s > MUTEZ_MAX as i128 {
                Err(InterpretError::MutezOverflow)
            } else if s < 0 {
                Err(InterpretError::InternalInvariantBroken)
            } else {
                Ok(TypedValue::Mutez(s as i64))
            }
        },
        _ => Err(InterpretError::InternalInvariantBroken),
    }
}

/// Runs the typed block `ast` on `stack`, charging `gas`.
pub fn interpret(ast: &Vec<TypedInstruction>, gas: &mut Gas, stack: &mut IStack) -> (r: Result<
    (),
    InterpretError,
>)
    ensures
        run_outcome(run_block(ast@, 0, old(stack)@, old(gas)@), old(gas)@, r, final(stack)@, final(gas)@),
    decreases old(gas)@, ast,
{
    let ghost vs0 = stack@;
    let ghost g0 = gas@;
    let mut k: usize = 0;
    while k < ast.len()
        invariant
            0 <= k <= ast.len(),
            vs0 == old(stack)@,
            g0 == old(gas)@,
            gas@ <= g0,
            run_block(ast@, 0, vs0, g0) == run_block(ast@, k as int, stack@, gas@),
        decreases ast.len() - k,
    {
        let ghost vs_k = stack@;
        let ghost g_k = gas@;
        match interpret_instr(&ast[k], gas, stack) {
            Ok(()) => {},
            Err(e) => {
                assert(run_block(ast@, k as int, vs_k, g_k) == Err::<(Seq<TypedValue>, nat), Stop>((e, stack@, gas@)));
                return Err(e);
            },
        }
        k = k + 1;
    }
    Ok(())
}

/// Runs one typed instruction on `stack`, charging `gas`.
pub fn interpret_instr(i: &TypedInstruction, gas: &mut Gas, stack: &mut IStack) -> (r: Result<
    (),
    InterpretError,
>)
    ensures
        run_outcome(run_instr(*i, old(stack)@, old(gas)@), old(gas)@, r, final(stack)@, final(gas)@),
        old(gas)@ < instr_cost(*i) ==> final(stack)@ == old(stack)@ && final(gas)@ == old(gas)@,
    decreases old(gas)@, i,
{
    let ghost vs = stack@;
    let ghost g0 = gas@;
    let cost = instr_cost_exec(i);
    match gas.consume(cost) {
        Ok(()) => {},
        Err(e) => {
            return Err(InterpretError::OutOfGas(e));
        },
    }
    let len = stack.len();
    match i {
        TypedInstruction::Add(o) => {
            if len < 2 {
                return Err(InterpretError::InternalInvariantBroken);
            }
            let v = match add_exec(*o, &stack[0], &stack[1]) {
                Ok(v) => v,
                Err(e) => {
                    return Err(e);
                },
            };
            stack.pop_front();
            stack.pop_front();
            stack.push_front(v);
            assert(stack@ =~= seq![v] + vs.subrange(2, len as int));
            Ok(())
        },
        TypedInstruction::Int => {
            if len < 1 {
                return Err(InterpretError::InternalInvariantBroken);
            }
            let z = match &stack[0] {
                TypedValue::Nat(n) => nat_to_int(n),
                _ => {
                    return Err(InterpretError::InternalInvariantBroken);
                },
            };
            let ghost zv = z;
            stack.pop_front();
            stack.push_front(TypedValue::Int(z));
            assert(stack@ =~= vs.update(0, TypedValue::Int(zv)));
            Ok(())
        },
        TypedInstruction::Gt => {
            if len < 1 {
                return Err(InterpretError::InternalInvariantBroken);
            }
            let pos = match &stack[0] {
                TypedValue::Int(n) => is_positive(n),
                _ => {
                    return Err(InterpretError::InternalInvariantBroken);
                },
            };
            stack.pop_front();
            stack.push_front(TypedValue::Bool(pos));
            assert(stack@ =~= vs.update(0, TypedValue::Bool(pos)));
            Ok(())
        },
        TypedInstruction::Swap => {
            if len < 2 {
                return Err(InterpretError::InternalInvariantBroken);
            }
            let a = copy_value(&stack[0]);
            let b = copy_value(&stack[1]);
            stack.pop_front();
            stack.pop_front();
            stack.push_front(a);
            stack.push_front(b);
            assert(stack@ =~= seq![vs[1], vs[0]] + vs.subrange(2, len as int));
            Ok(())
        },
        TypedInstruction::Push(v) => {
            stack.push_front(copy_value(v));
            Ok(())
        },
        TypedInstruction::Drop(n) => {
            if len < *n as usize {
                return Err(InterpretError::InternalInvariantBroken);
            }
            let rest = stack.split_off(*n as usize);
            *stack = rest;
            Ok(())
        },
        TypedInstruction::Dup(n) => {
            if *n == 0 || len < *n as usize {
                return Err(InterpretError::InternalInvariantBroken);
            }
            let v = copy_value(&stack[(*n - 1) as usize]);
            stack.push_front(v);
            Ok(())
        },
        TypedInstruction::Dip(n, body) => {
            if len < *n as usize {
                return Err(InterpretError::InternalInvariantBroken);
            }
            let mut live = stack.split_off(*n as usize);
            match interpret(body, gas, &mut live) {
                Ok(()) => {},
                Err(e) => {
                    stack.append(&mut live);
                    return Err(e);
                },
            }
            stack.append(&mut live);
            Ok(())
        },
        TypedInstruction::If(t, f) => {
            if len < 1 {
                return Err(InterpretError::InternalInvariantBroken);
            }
            match &stack[0] {
                TypedValue::Bool(b) => {
                    let b = *b;
                    stack.pop_front();
                    if b {
                        interpret(t, gas, stack)
                    } else {
                        interpret(f, gas, stack)
                    }
                },
                _ => Err(InterpretError::InternalInvariantBroken),
            }
        },
        TypedInstruction::Loop(body) => {
            if len < 1 {
                return Err(InterpretError::InternalInvariantBroken);
            }
            let go = match &stack[0] {
                TypedValue::Bool(b) => *b,
                _ => {
                    return Err(InterpretError::InternalInvariantBroken);
                },
            };
            stack.pop_front();
            if !go {
                return Ok(());
            }
            let ghost res = run_instr(*i, vs, g0);
            loop
                invariant
                    gas@ < g0,
                    g0 == old(gas)@,
                    instr_cost(*i) <= g0,
                    vs == old(stack)@,
                    res == run_instr(*i, vs, g0),
                    res == run_loop(body@, stack@, gas@),
                decreases gas@,
            {
                match interpret(body, gas, stack) {
                    Ok(()) => {},
                    Err(e) => {
                        return Err(e);
                    },
                }
                if stack.len() < 1 {
                    return Err(InterpretError::InternalInvariantBroken);
                }
                let again = match &stack[0] {
                    TypedValue::Bool(b) => *b,
                    _ => {
                        return Err(InterpretError::InternalInvariantBroken);
                    },
                };
                stack.pop_front();
                if !again {
                    return Ok(());
                }
                match gas.consume(LOOP_COST) {
                    Ok(()) => {},
                    Err(e) => {
                        return Err(InterpretError::OutOfGas(e));
                    },
                }
            }
        },
    }
}

/// Every instruction costs a positive amount, and a run of it that succeeds
/// leaves at most the gas it was given minus that cost: gas strictly
/// decreases with each charged step and never goes below zero.
pub proof fn lemma_gas_decreases_instr(i: TypedInstruction, vs: Seq<TypedValue>, g: nat)
    ensures
        instr_cost(i) > 0,
        match run_instr(i, vs, g) {
            Ok((_, g2)) => g2 + instr_cost(i) <= g,
            Err(_) => true,
        },
    decreases g, i, 0int,
{
    if g >= instr_cost(i) {
        let g1 = (g - instr_cost(i)) as nat;
        let len = vs.len() as int;
        match i {
            TypedInstruction::Dip(n, body) => {
                if n <= len {
                    lemma_gas_decreases_block(body@, 0, vs.subrange(n as int, len), g1);
                }
            },
            TypedInstruction::If(t, f) => {
                if len >= 1 {
                    lemma_gas_decreases_block(t@, 0, vs.subrange(1, len), g1);
                    lemma_gas_decreases_block(f@, 0, vs.subrange(1, len), g1);
                }
            },
            TypedInstruction::Loop(body) => {
                if len >= 1 {
                    lemma_gas_decreases_loop(body@, vs.subrange(1, len), g1);
                }
            },
            _ => {},
        }
    }
}

/// A run of a block that succeeds never leaves more gas than it was given.
pub proof fn lemma_gas_decreases_block(b: Seq<TypedInstruction>, k: int, vs: Seq<TypedValue>, g: nat)
    ensures
        match run_block(b, k, vs, g) {
            Ok((_, g2)) => g2 <= g,
            Err(_) => true,
        },
    decreases g, b, b.len() - k,
{
    if 0 <= k < b.len() {
        lemma_gas_decreases_instr(b[k], vs, g);
        match run_instr(b[k], vs, g) {
            Ok((vs2, g2)) => {
                lemma_gas_decreases_block(b, k + 1, vs2, g2);
            },
            Err(_) => {},
        }
    }
}

/// A run of a loop body that succeeds never leaves more gas than it was
/// given.
pub proof fn lemma_gas_decreases_loop(body: Seq<TypedInstruction>, vs: Seq<TypedValue>, g: nat)
    ensures
        match run_loop(body, vs, g) {
            Ok((_, g2)) => g2 <= g,
            Err(_) => true,
        },
    decreases g, body, body.len() + 1,
{
    lemma_gas_decreases_block(body, 0, vs, g);
    match run_block(body, 0, vs, g) {
        Ok((r, g2)) => {
            if r.len() >= 1 && r[0] is Bool && r[0]->Bool_0 && g2 >= LOOP_COST && g2 <= g {
                lemma_gas_decreases_loop(body, r.subrange(1, r.len() as int), (g2 - LOOP_COST) as nat);
            }
        },
        Err(_) => {},
    }
}

/// The failures that a well-typed run may still meet.
pub open spec fn expected_failure(e: InterpretError) -> bool {
    e is OutOfGas || e is MutezOverflow
}

proof fn lemma_types_concat(v1: Seq<TypedValue>, t1: Seq<Type>, v2: Seq<TypedValue>, t2: Seq<Type>)
    requires
        stack_has_types(v1, t1),
        stack_has_types(v2, t2),
    ensures
        stack_has_types(v1 + v2, t1 + t2),
{
    assert forall|j: int| 0 <= j < (v1 + v2).len() implies has_type(#[trigger] (v1 + v2)[j], (t1 + t2)[j]) by {
        if j < v1.len() {
            assert(has_type(v1[j], t1[j]));
        } else {
            assert(has_type(v2[j - v1.len()], t2[j - v1.len()]));
        }
    }
}

proof fn lemma_types_subrange(vs: Seq<TypedValue>, ts: Seq<Type>, a: int, b: int)
    requires
        stack_has_types(vs, ts),
        0 <= a <= b <= vs.len(),
    ensures
        stack_has_types(vs.subrange(a, b), ts.subrange(a, b)),
{
    assert forall|j: int| 0 <= j < b - a implies has_type(#[trigger] vs.subrange(a, b)[j], ts.subrange(a, b)[j]) by {
        assert(has_type(vs[a + j], ts[a + j]));
    }
}

/// Progress and preservation for one instruction: run on a stack of values
/// whose types are `ts`, a well-typed instruction either fails with an
/// expected failure or leaves values of the types its typing gives.
pub proof fn lemma_preservation_instr(i: TypedInstruction, ts: Seq<Type>, vs: Seq<TypedValue>, g: nat)
    requires
        instr_type(i, ts) is Some,
        stack_has_types(vs, ts),
    ensures
        match run_instr(i, vs, g) {
            Ok((vs2, _)) => stack_has_types(vs2, instr_type(i, ts)->Some_0),
            Err((e, _, _)) => expected_failure(e),
        },
    decreases g, i, 0int,
{
    if g >= instr_cost(i) {
        let g1 = (g - instr_cost(i)) as nat;
        let len = vs.len() as int;
        let ts2 = instr_type(i, ts)->Some_0;
        match i {
            TypedInstruction::Add(o) => {
                assert(has_type(vs[0], ts[0]));
                assert(has_type(vs[1], ts[1]));
                match add_values(o, vs[0], vs[1]) {
                    Ok(v) => {
                        lemma_types_subrange(vs, ts, 2, len);
                        assert(stack_has_types(seq![v], seq![ts[1]]));
                        lemma_types_concat(seq![v], seq![ts[1]], vs.subrange(2, len), ts.subrange(2, len));
                        assert(seq![ts[1]] + ts.subrange(2, len) =~= ts2);
                    },
                    Err(_) => {},
                }
            },
            TypedInstruction::Int => {
                assert(has_type(vs[0], ts[0]));
                let vs2 = vs.update(0, TypedValue::Int(int_of(val(vs[0]->Nat_0) as int)));
                assert forall|j: int| 0 <= j < len implies has_type(#[trigger] vs2[j], ts2[j]) by {
                    assert(has_type(vs[j], ts[j]));
                }
            },
            TypedInstruction::Gt => {
                assert(has_type(vs[0], ts[0]));
                let vs2 = vs.update(0, TypedValue::Bool(ival(vs[0]->Int_0) > 0));
                assert forall|j: int| 0 <= j < len implies has_type(#[trigger] vs2[j], ts2[j]) by {
                    assert(has_type(vs[j], ts[j]));
                }
            },
            TypedInstruction::Swap => {
                assert(has_type(vs[0], ts[0]));
                assert(has_type(vs[1], ts[1]));
                lemma_types_subrange(vs, ts, 2, len);
                assert(stack_has_types(seq![vs[1], vs[0]], seq![ts[1], ts[0]]));
                lemma_types_concat(seq![vs[1], vs[0]], seq![ts[1], ts[0]], vs.subrange(2, len), ts.subrange(2, len));
            },
            TypedInstruction::Push(v) => {
                assert(stack_has_types(seq![v], seq![crate::ast::type_of(v)]));
                lemma_types_concat(seq![v], seq![crate::ast::type_of(v)], vs, ts);
            },
            TypedInstruction::Drop(n) => {
                lemma_types_subrange(vs, ts, n as int, len);
            },
            TypedInstruction::Dup(n) => {
                assert(has_type(vs[n - 1], ts[n - 1]));
                assert(stack_has_types(seq![vs[n - 1]], seq![ts[n - 1]]));
                lemma_types_concat(seq![vs[n - 1]], seq![ts[n - 1]], vs, ts);
            },
            TypedInstruction::Dip(n, body) => {
                let tl = ts.subrange(n as int, len);
                lemma_types_subrange(vs, ts, n as int, len);
                lemma_types_subrange(vs, ts, 0, n as int);
                lemma_preservation_block(body@, 0, tl, vs.subrange(n as int, len), g1);
                match run_block(body@, 0, vs.subrange(n as int, len), g1) {
                    Ok((r, _)) => {
                        lemma_types_concat(vs.subrange(0, n as int), ts.subrange(0, n as int), r, block_type(body@, 0, tl)->Some_0);
                    },
                    Err(_) => {},
                }
            },
            TypedInstruction::If(t, f) => {
                assert(has_type(vs[0], ts[0]));
                let tl = ts.subrange(1, len);
                lemma_types_subrange(vs, ts, 1, len);
                if vs[0]->Bool_0 {
                    lemma_preservation_block(t@, 0, tl, vs.subrange(1, len), g1);
                } else {
                    lemma_preservation_block(f@, 0, tl, vs.subrange(1, len), g1);
                }
            },
            TypedInstruction::Loop(body) => {
                assert(has_type(vs[0], ts[0]));
                let tl = ts.subrange(1, len);
                lemma_types_subrange(vs, ts, 1, len);
                assert(ts =~= seq![Type::Bool] + tl);
                if vs[0]->Bool_0 {
                    lemma_preservation_loop(body@, tl, vs.subrange(1, len), g1);
                }
            },
        }
    }
}

/// Progress and preservation: a block whose typing takes `ts` to some stack
/// type, run on values of types `ts`, either fails with an expected failure
/// (gas, or a mutez sum over its bound) or ends with
/// values of that stack type.
pub proof fn lemma_preservation_block(b: Seq<TypedInstruction>, k: int, ts: Seq<Type>, vs: Seq<TypedValue>, g: nat)
    requires
        block_type(b, k, ts) is Some,
        stack_has_types(vs, ts),
    ensures
        match run_block(b, k, vs, g) {
            Ok((vs2, _)) => stack_has_types(vs2, block_type(b, k, ts)->Some_0),
            Err((e, _, _)) => expected_failure(e),
        },
    decreases g, b, b.len() - k,
{
    if 0 <= k < b.len() {
        lemma_preservation_instr(b[k], ts, vs, g);
        lemma_gas_decreases_instr(b[k], vs, g);
        match run_instr(b[k], vs, g) {
            Ok((vs2, g2)) => {
                lemma_preservation_block(b, k + 1, instr_type(b[k], ts)->Some_0, vs2, g2);
            },
            Err(_) => {},
        }
    }
}

/// Progress and preservation for the passes of a loop whose body takes
/// `tail` to `Bool` over `tail`.
pub proof fn lemma_preservation_loop(body: Seq<TypedInstruction>, tail: Seq<Type>, vs: Seq<TypedValue>, g: nat)
    requires
        block_type(body, 0, tail) == Some(seq![Type::Bool] + tail),
        stack_has_types(vs, tail),
    ensures
        match run_loop(body, vs, g) {
            Ok((vs2, _)) => stack_has_types(vs2, tail),
            Err((e, _, _)) => expected_failure(e),
        },
    decreases g, body, body.len() + 1,
{
    lemma_preservation_block(body, 0, tail, vs, g);
    lemma_gas_decreases_block(body, 0, vs, g);
    match run_block(body, 0, vs, g) {
        Ok((r, g2)) => {
            let full = seq![Type::Bool] + tail;
            assert(has_type(r[0], full[0]));
            lemma_types_subrange(r, full, 1, r.len() as int);
            assert(full.subrange(1, full.len() as int) =~= tail);
            if r[0]->Bool_0 && g2 >= LOOP_COST {
                lemma_preservation_loop(body, tail, r.subrange(1, r.len() as int), (g2 - LOOP_COST) as nat);
            }
        },
        Err(_) => {},
    }
}

/// Progress and preservation from the typechecker's side: when `typecheck`
/// turns the block `ast` and stack type `ts0` into the typed block `t` and
/// stack type `ts1`, every run of `t` from values of types `ts0` either meets
/// an expected failure or ends with values of types `ts1`.
pub proof fn lemma_typechecked_run(
    ast: Seq<Instruction>,
    ts0: Seq<Type>,
    g: nat,
    t: Vec<TypedInstruction>,
    ts1: Seq<Type>,
    g1: nat,
    vs0: Seq<TypedValue>,
    run_gas: nat,
)
    requires
        tc_block_outcome(ast, ts0, g, Ok::<Vec<TypedInstruction>, TcError>(t), ts1, g1),
        stack_has_types(vs0, ts0),
    ensures
        match run_block(t@, 0, vs0, run_gas) {
            Ok((vs1, _)) => stack_has_types(vs1, ts1),
            Err((e, _, _)) => expected_failure(e),
        },
{
    lemma_preservation_block(t@, 0, ts0, vs0, run_gas);
}

} // verus!
