//! The instruction model shared by the parser, the typechecker and the
//! interpreter, with the typing judgment of typed instruction trees.
use crate::bigint::{copy_digits, digits_from_u128, digits_of, int_from_i128, int_of, BigInt, Digits};
use std::collections::VecDeque;
use vstd::prelude::*;

verus! {

/// The static shape of one stack slot.
#[derive(PartialEq, Eq, Structural, Clone, Copy, Debug)]
pub enum Type {
    Nat,
    Int,
    Bool,
    Mutez,
}

/// A literal as written in source.
#[derive(PartialEq, Eq, Structural, Clone, Copy, Debug)]
pub enum Value {
    NumberValue(i128),
    BooleanValue(bool),
}

/// The names of the instructions, common to both trees.
#[derive(PartialEq, Eq, Structural, Clone, Copy, Debug)]
pub enum Prim {
    Add,
    Int,
    Gt,
    Swap,
    Push,
    Drop,
    Dup,
    Dip,
    If,
    Loop,
}

/// An instruction as parsed.
#[derive(PartialEq, Eq, Debug)]
pub enum Instruction {
    Add(()),
    Int,
    Gt,
    Swap,
    Push((Type, Value)),
    Drop(Option<u16>),
    Dup(Option<u16>),
    Dip(Option<u16>, Vec<Instruction>),
    If(Vec<Instruction>, Vec<Instruction>),
    Loop(Vec<Instruction>),
}

/// A block of parsed instructions; a whole program is one.
pub type AST = Vec<Instruction>;

/// The overload of `ADD` that the typechecker chose.
#[derive(PartialEq, Eq, Structural, Clone, Copy, Debug)]
pub enum AddOverload {
    NatNat,
    IntInt,
    MutezMutez,
}

/// A runtime value, tagged with its type. Naturals and integers are
/// unbounded.
#[derive(PartialEq, Eq, Debug)]
pub enum TypedValue {
    Nat(Digits),
    Int(BigInt),
    Bool(bool),
    Mutez(i64),
}

impl TypedValue {
    /// The natural `n`.
    pub fn nat_value(n: u128) -> (r: TypedValue)
        ensures
            r == TypedValue::Nat(digits_of(n as nat)),
    {
        TypedValue::Nat(digits_from_u128(n))
    }

    /// The integer `n`.
    pub fn int_value(n: i128) -> (r: TypedValue)
        ensures
            r == TypedValue::Int(int_of(n as int)),
    {
        TypedValue::Int(int_from_i128(n))
    }
}

/// An exact copy of `v`.
pub fn copy_value(v: &TypedValue) -> (r: TypedValue)
    ensures
        r == *v,
{
    match v {
        TypedValue::Nat(d) => TypedValue::Nat(copy_digits(d)),
        TypedValue::Int(z) => TypedValue::Int(BigInt { neg: z.neg, mag: copy_digits(&z.mag) }),
        TypedValue::Bool(b) => TypedValue::Bool(*b),
        TypedValue::Mutez(m) => TypedValue::Mutez(*m),
    }
}

/// An instruction after typechecking: overloads are resolved and depth
/// arguments take their default.
#[derive(PartialEq, Eq, Debug)]
pub enum TypedInstruction {
    Add(AddOverload),
    Int,
    Gt,
    Swap,
    Push(TypedValue),
    Drop(u16),
    Dup(u16),
    Dip(u16, Vec<TypedInstruction>),
    If(Vec<TypedInstruction>, Vec<TypedInstruction>),
    Loop(Vec<TypedInstruction>),
}

/// Type stack, top of stack at index 0.
pub type TypeStack = VecDeque<Type>;

/// Value stack, top of stack at index 0.
pub type IStack = VecDeque<TypedValue>;

/// The largest amount of mutez.
pub const MUTEZ_MAX: i64 = 0x7fff_ffff_ffff_ffff;

/// The depth argument of `DROP`, `DUP` and `DIP`, where absence means 1.
pub open spec fn depth_of(n: Option<u16>) -> nat {
    match n {
        Some(k) => k as nat,
        None => 1,
    }
}

/// The type of which `v` is a well-formed value.
pub open spec fn type_of(v: TypedValue) -> Type {
    match v {
        TypedValue::Nat(_) => Type::Nat,
        TypedValue::Int(_) => Type::Int,
        TypedValue::Bool(_) => Type::Bool,
        TypedValue::Mutez(_) => Type::Mutez,
    }
}

/// Values respect their type's range: mutez are never negative.
pub open spec fn value_wf(v: TypedValue) -> bool {
    match v {
        TypedValue::Mutez(m) => m >= 0,
        _ => true,
    }
}

/// `v` is a well-formed value of type `t`.
pub open spec fn has_type(v: TypedValue, t: Type) -> bool {
    value_wf(v) && type_of(v) == t
}

/// Each value of `vs` has the type at the same depth of `ts`.
pub open spec fn stack_has_types(vs: Seq<TypedValue>, ts: Seq<Type>) -> bool {
    &&& vs.len() == ts.len()
    &&& forall|i: int| 0 <= i < vs.len() ==> #[trigger] has_type(vs[i], ts[i])
}

/// The value that literal `v` denotes at type `t`, if it is admissible there.
pub open spec fn literal_value(t: Type, v: Value) -> Option<TypedValue> {
    match (t, v) {
        (Type::Nat, Value::NumberValue(n)) => if n >= 0 {
            Some(TypedValue::Nat(digits_of(n as nat)))
        } else {
            None
        },
        (Type::Int, Value::NumberValue(n)) => Some(TypedValue::Int(int_of(n as int))),
        (Type::Mutez, Value::NumberValue(n)) => if 0 <= n <= MUTEZ_MAX {
            Some(TypedValue::Mutez(n as i64))
        } else {
            None
        },
        (Type::Bool, Value::BooleanValue(b)) => Some(TypedValue::Bool(b)),
        _ => None,
    }
}

/// The operand and result type of an `ADD` overload.
pub open spec fn overload_type(o: AddOverload) -> Type {
    match o {
        AddOverload::NatNat => Type::Nat,
        AddOverload::IntInt => Type::Int,
        AddOverload::MutezMutez => Type::Mutez,
    }
}

/// The typing judgment of a typed instruction: the stack type it leaves when
/// run on a stack of type `ts`, or `None` where it does not fit `ts`.
pub open spec fn instr_type(i: TypedInstruction, ts: Seq<Type>) -> Option<Seq<Type>>
    decreases i, 0nat,
{
    match i {
        TypedInstruction::Add(o) => if ts.len() >= 2 && ts[0] == overload_type(o) && ts[1]
            == overload_type(o) {
            Some(ts.subrange(1, ts.len() as int))
        } else {
            None
        },
        TypedInstruction::Int => if ts.len() >= 1 && ts[0] == Type::Nat {
            Some(ts.update(0, Type::Int))
        } else {
            None
        },
        TypedInstruction::Gt => if ts.len() >= 1 && ts[0] == Type::Int {
            Some(ts.update(0, Type::Bool))
        } else {
            None
        },
        TypedInstruction::Swap => if ts.len() >= 2 {
            Some(seq![ts[1], ts[0]] + ts.subrange(2, ts.len() as int))
        } else {
            None
        },
        TypedInstruction::Push(v) => if value_wf(v) {
            Some(seq![type_of(v)] + ts)
        } else {
            None
        },
        TypedInstruction::Drop(n) => if n <= ts.len() {
            Some(ts.subrange(n as int, ts.len() as int))
        } else {
            None
        },
        TypedInstruction::Dup(n) => if 1 <= n <= ts.len() {
            Some(seq![ts[n - 1]] + ts)
        } else {
            None
        },
        TypedInstruction::Dip(n, body) => if n <= ts.len() {
            match block_type(body@, 0, ts.subrange(n as int, ts.len() as int)) {
                Some(r) => Some(ts.subrange(0, n as int) + r),
                None => None,
            }
        } else {
            None
        },
        TypedInstruction::If(t, f) => if ts.len() >= 1 && ts[0] == Type::Bool {
            let tail = ts.subrange(1, ts.len() as int);
            match (block_type(t@, 0, tail), block_type(f@, 0, tail)) {
                (Some(rt), Some(rf)) => if rt == rf {
                    Some(rt)
                } else {
                    None
                },
                _ => None,
            }
        } else {
            None
        },
        TypedInstruction::Loop(body) => if ts.len() >= 1 && ts[0] == Type::Bool {
            let tail = ts.subrange(1, ts.len() as int);
            if block_type(body@, 0, tail) == Some(ts) {
                Some(tail)
            } else {
                None
            }
        } else {
            None
        },
    }
}

/// The typing judgment of `b[k..]` from stack type `ts`.
pub open spec fn block_type(b: Seq<TypedInstruction>, k: int, ts: Seq<Type>) -> Option<Seq<Type>>
    decreases b, b.len() - k,
{
    if 0 <= k < b.len() {
        match instr_type(b[k], ts) {
            Some(ts2) => block_type(b, k + 1, ts2),
            None => None,
        }
    } else {
        Some(ts)
    }
}

/// `t` is the typed counterpart of the parsed instruction `u`.
pub open spec fn corresponds(u: Instruction, t: TypedInstruction) -> bool
    decreases u, 0nat,
{
    match (u, t) {
        (Instruction::Add(_), TypedInstruction::Add(_)) => true,
        (Instruction::Int, TypedInstruction::Int) => true,
        (Instruction::Gt, TypedInstruction::Gt) => true,
        (Instruction::Swap, TypedInstruction::Swap) => true,
        (Instruction::Push((ty, v)), TypedInstruction::Push(tv)) => literal_value(ty, v) == Some(
            tv,
        ),
        (Instruction::Drop(n), TypedInstruction::Drop(m)) => m == depth_of(n),
        (Instruction::Dup(n), TypedInstruction::Dup(m)) => m == depth_of(n),
        (Instruction::Dip(n, ub), TypedInstruction::Dip(m, tb)) => m == depth_of(n)
            && blocks_correspond(ub@, tb@, 0),
        (Instruction::If(ut, uf), TypedInstruction::If(tt, tf)) => blocks_correspond(ut@, tt@, 0)
            && blocks_correspond(uf@, tf@, 0),
        (Instruction::Loop(ub), TypedInstruction::Loop(tb)) => blocks_correspond(ub@, tb@, 0),
        _ => false,
    }
}

/// `tb[k..]` is the typed counterpart of `ub[k..]`, item by item.
pub open spec fn blocks_correspond(ub: Seq<Instruction>, tb: Seq<TypedInstruction>, k: int) -> bool
    decreases ub, ub.len() - k,
{
    &&& ub.len() == tb.len()
    &&& (0 <= k < ub.len() ==> corresponds(ub[k], tb[k]) && blocks_correspond(ub, tb, k + 1))
}

} // verus!
