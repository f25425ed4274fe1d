use mir::bigint::{BigInt, Digits};
use mir::ast::{AddOverload, Prim, Type, TypedInstruction, TypedValue, Value};
use mir::gas::{Gas, OutOfGas};
use mir::interpreter::{interpret, interpret_instr, InterpretError};
use mir::parser::parse;
use mir::printer::print;
use mir::typechecker::{typecheck, typecheck_value, TcError};
use std::collections::VecDeque;

const FIBONACCI_SRC: &str = "{ INT ; PUSH int 0 ; DUP 2 ; GT ;
  IF { DIP { PUSH int -1 ; ADD } ; PUSH int 1 ; DUP 3 ; GT ;
       LOOP { SWAP ; DUP 2 ; ADD ; DIP 2 { PUSH int -1 ; ADD } ; DUP 3 ; GT } ;
       DIP { DROP 2 } }
     { DIP { DROP } } }";

fn check(src: &str, stack: Vec<Type>) -> (Result<Vec<TypedInstruction>, TcError>, VecDeque<Type>, u64) {
    let mut gas = Gas::default();
    let mut st = VecDeque::from(stack);
    let r = typecheck(parse(src).unwrap(), &mut gas, &mut st);
    (r, st, gas.milligas())
}

fn run(src: &str, types: Vec<Type>, values: Vec<TypedValue>) -> (Result<(), InterpretError>, VecDeque<TypedValue>) {
    let ast = typecheck(parse(src).unwrap(), &mut Gas::default(), &mut VecDeque::from(types)).unwrap();
    let mut st = VecDeque::from(values);
    let r = interpret(&ast, &mut Gas::default(), &mut st);
    (r, st)
}

#[test]
fn mutez_overflow_is_reported() {
    let src = "{ PUSH mutez 9223372036854775000 ; PUSH mutez 1000 ; ADD }";
    let (r, st, _) = check(src, vec![]);
    assert!(r.is_ok());
    assert_eq!(st, VecDeque::from(vec![Type::Mutez]));
    assert_eq!(run(src, vec![], vec![]).0, Err(InterpretError::MutezOverflow));
}

#[test]
fn mutez_sum_at_the_bound_is_kept() {
    let src = "{ PUSH mutez 9223372036854775000 ; PUSH mutez 807 ; ADD }";
    let (r, st) = run(src, vec![], vec![]);
    assert_eq!(r, Ok(()));
    assert_eq!(st, VecDeque::from(vec![TypedValue::Mutez(i64::MAX)]));
}

#[test]
fn dup_zero_is_rejected() {
    let (r, _, _) = check("{ DUP 0 }", vec![Type::Nat]);
    assert_eq!(r, Err(TcError::InvalidArgument(Prim::Dup)));
}

#[test]
fn if_branches_must_agree() {
    let (r, _, _) = check("{ IF { PUSH nat 1 } { } }", vec![Type::Bool]);
    assert_eq!(
        r,
        Err(TcError::StacksNotEqual(VecDeque::from(vec![Type::Nat]), VecDeque::new()))
    );
}

#[test]
fn loop_body_must_restore_the_stack() {
    let (r, _, _) = check("{ LOOP { PUSH int 1 ; PUSH bool True } }", vec![Type::Bool]);
    assert_eq!(
        r,
        Err(TcError::StacksNotEqual(VecDeque::new(), VecDeque::from(vec![Type::Int])))
    );
    let (r, _, _) = check("{ LOOP { PUSH int 1 } }", vec![Type::Bool, Type::Nat]);
    assert_eq!(
        r,
        Err(TcError::NoMatchingOverload { instr: Prim::Loop, stack: VecDeque::from(vec![Type::Int]) })
    );
}

#[test]
fn failed_typecheck_keeps_the_stack() {
    let mut gas = Gas::new(10_000);
    let mut st = VecDeque::from(vec![Type::Nat, Type::Int]);
    let r = typecheck(parse("{ DROP ; PUSH int 1 ; DIP 2 { GT } }").unwrap(), &mut gas, &mut st);
    assert_eq!(r, Err(TcError::StackTooShort { expected: 1, got: 0 }));
    assert_eq!(st, VecDeque::from(vec![Type::Nat, Type::Int]));
    assert_eq!(gas.milligas(), 10_000 - 460 - 565 - 460 - 460);
}

#[test]
fn out_of_gas_inside_dip_keeps_the_stack() {
    let dip = TypedInstruction::Dip(1, vec![TypedInstruction::Push(TypedValue::int_value(1))]);
    let mut gas = Gas::new(30);
    let mut st = VecDeque::from(vec![TypedValue::Bool(true), TypedValue::nat_value(4)]);
    assert_eq!(interpret_instr(&dip, &mut gas, &mut st), Err(InterpretError::OutOfGas(OutOfGas)));
    assert_eq!(st, VecDeque::from(vec![TypedValue::Bool(true), TypedValue::nat_value(4)]));
    assert_eq!(gas.milligas(), 10);
}

#[test]
fn typecheck_is_deterministic() {
    let a = check(FIBONACCI_SRC, vec![Type::Nat]);
    let b = check(FIBONACCI_SRC, vec![Type::Nat]);
    assert_eq!(a, b);
    assert_eq!(a.1, VecDeque::from(vec![Type::Int]));
    assert_eq!(a.2, 1_000_000_000 - 11460);
}

#[test]
fn well_typed_run_keeps_types() {
    for n in 0..12u128 {
        let (r, st) = run(FIBONACCI_SRC, vec![Type::Nat], vec![TypedValue::nat_value(n)]);
        assert_eq!(r, Ok(()));
        assert_eq!(st.len(), 1);
        assert!(matches!(st[0], TypedValue::Int(_)));
    }
    let (_, st) = run(FIBONACCI_SRC, vec![Type::Nat], vec![TypedValue::nat_value(11)]);
    assert_eq!(st[0], TypedValue::int_value(89));
}

#[test]
fn gas_strictly_decreases_per_step() {
    let mut gas = Gas::new(100);
    let mut st = VecDeque::new();
    let push = TypedInstruction::Push(TypedValue::int_value(3));
    assert_eq!(interpret_instr(&push, &mut gas, &mut st), Ok(()));
    assert_eq!(gas.milligas(), 80);
    assert_eq!(interpret_instr(&push, &mut gas, &mut st), Ok(()));
    assert_eq!(gas.milligas(), 60);
    let add = TypedInstruction::Add(AddOverload::IntInt);
    assert_eq!(interpret_instr(&add, &mut gas, &mut st), Err(InterpretError::OutOfGas(OutOfGas)));
    assert_eq!(gas.milligas(), 60);
    assert_eq!(st, VecDeque::from(vec![TypedValue::int_value(3), TypedValue::int_value(3)]));
}

#[test]
fn consume_is_atomic() {
    let mut gas = Gas::new(10);
    assert_eq!(gas.consume(11), Err(OutOfGas));
    assert_eq!(gas.milligas(), 10);
    assert_eq!(gas.consume(10), Ok(()));
    assert_eq!(gas.milligas(), 0);
    assert_eq!(Gas::default().milligas(), 1_000_000_000);
}

#[test]
fn interpret_costs_follow_the_table() {
    let cases: Vec<(TypedInstruction, Vec<TypedValue>, u64)> = vec![
        (TypedInstruction::Drop(3), vec![TypedValue::int_value(1), TypedValue::int_value(1), TypedValue::int_value(1)], 16),
        (TypedInstruction::Dup(2), vec![TypedValue::int_value(1), TypedValue::int_value(1)], 14),
        (TypedInstruction::Swap, vec![TypedValue::int_value(1), TypedValue::int_value(1)], 10),
        (TypedInstruction::Int, vec![TypedValue::nat_value(1)], 10),
        (TypedInstruction::Gt, vec![TypedValue::int_value(1)], 10),
        (TypedInstruction::Add(AddOverload::NatNat), vec![TypedValue::nat_value(1), TypedValue::nat_value(1)], 75),
        (TypedInstruction::Add(AddOverload::MutezMutez), vec![TypedValue::Mutez(1), TypedValue::Mutez(1)], 20),
        (TypedInstruction::Dip(1, vec![]), vec![TypedValue::int_value(1)], 20),
        (TypedInstruction::If(vec![], vec![]), vec![TypedValue::Bool(true)], 30),
        (TypedInstruction::Loop(vec![]), vec![TypedValue::Bool(false)], 30),
    ];
    for (i, values, cost) in cases {
        let mut gas = Gas::new(1000);
        let mut st = VecDeque::from(values);
        assert_eq!(interpret_instr(&i, &mut gas, &mut st), Ok(()));
        assert_eq!(gas.milligas(), 1000 - cost);
    }
}

#[test]
fn loop_charges_every_further_pass() {
    // an empty body on [True, True, False]: two passes, the second one charged
    let lp = TypedInstruction::Loop(vec![]);
    let mut gas = Gas::new(1000);
    let mut st = VecDeque::from(vec![TypedValue::Bool(true), TypedValue::Bool(true), TypedValue::Bool(false)]);
    assert_eq!(interpret_instr(&lp, &mut gas, &mut st), Ok(()));
    assert_eq!(gas.milligas(), 940);
    assert!(st.is_empty());
    // a body that always leaves True runs until the gas is gone
    let endless = TypedInstruction::Loop(vec![TypedInstruction::Push(TypedValue::Bool(true))]);
    let mut gas = Gas::new(1000);
    let mut st = VecDeque::from(vec![TypedValue::Bool(true)]);
    assert_eq!(interpret_instr(&endless, &mut gas, &mut st), Err(InterpretError::OutOfGas(OutOfGas)));
    assert!(gas.milligas() < 50);
}

#[test]
fn typecheck_costs_follow_the_table() {
    let mut gas = Gas::new(10_000);
    let mut st = VecDeque::new();
    typecheck(parse("{ PUSH int 1 }").unwrap(), &mut gas, &mut st).unwrap();
    assert_eq!(gas.milligas(), 10_000 - 565);
    typecheck(parse("{ DUP }").unwrap(), &mut gas, &mut st).unwrap();
    assert_eq!(gas.milligas(), 10_000 - 565 - 460);
}

#[test]
fn push_literal_mismatch() {
    let (r, _, _) = check("{ PUSH nat -1 }", vec![]);
    assert_eq!(r, Err(TcError::PushLiteralMismatch { declared: Type::Nat, literal: Value::NumberValue(-1) }));
    let (r, _, _) = check("{ PUSH mutez 9223372036854775808 }", vec![]);
    assert!(matches!(r, Err(TcError::PushLiteralMismatch { declared: Type::Mutez, .. })));
    let (r, _, _) = check("{ PUSH bool 1 }", vec![]);
    assert!(matches!(r, Err(TcError::PushLiteralMismatch { declared: Type::Bool, .. })));
}

#[test]
fn no_matching_overload() {
    let (r, _, _) = check("{ ADD }", vec![Type::Nat, Type::Int]);
    assert_eq!(
        r,
        Err(TcError::NoMatchingOverload { instr: Prim::Add, stack: VecDeque::from(vec![Type::Nat, Type::Int]) })
    );
    let (r, _, _) = check("{ GT }", vec![Type::Nat]);
    assert_eq!(r, Err(TcError::NoMatchingOverload { instr: Prim::Gt, stack: VecDeque::from(vec![Type::Nat]) }));
    let (r, _, _) = check("{ IF {} {} }", vec![Type::Int]);
    assert_eq!(r, Err(TcError::NoMatchingOverload { instr: Prim::If, stack: VecDeque::from(vec![Type::Int]) }));
}

#[test]
fn stack_too_short() {
    let (r, _, _) = check("{ SWAP }", vec![Type::Nat]);
    assert_eq!(r, Err(TcError::StackTooShort { expected: 2, got: 1 }));
    let (r, _, _) = check("{ DROP 3 }", vec![Type::Nat]);
    assert_eq!(r, Err(TcError::StackTooShort { expected: 3, got: 1 }));
    let (r, _, _) = check("{ DIP 2 { } }", vec![]);
    assert_eq!(r, Err(TcError::StackTooShort { expected: 2, got: 0 }));
}

#[test]
fn typed_tree_resolves_overloads() {
    let (r, _, _) = check("{ ADD ; DUP ; DROP 0 ; DIP { PUSH mutez 3 } }", vec![Type::Nat, Type::Nat]);
    assert_eq!(
        r,
        Ok(vec![
            TypedInstruction::Add(AddOverload::NatNat),
            TypedInstruction::Dup(1),
            TypedInstruction::Drop(0),
            TypedInstruction::Dip(1, vec![TypedInstruction::Push(TypedValue::Mutez(3))]),
        ])
    );
}

fn digits(ds: &[u32]) -> Digits {
    let mut d = Digits::Nil;
    for x in ds.iter().rev() {
        d = Digits::Cons(*x, Box::new(d));
    }
    d
}

#[test]
fn integers_are_unbounded() {
    let mut st = VecDeque::from(vec![TypedValue::nat_value(u128::MAX), TypedValue::nat_value(1)]);
    assert_eq!(interpret_instr(&TypedInstruction::Add(AddOverload::NatNat), &mut Gas::default(), &mut st), Ok(()));
    assert_eq!(st, VecDeque::from(vec![TypedValue::Nat(digits(&[0, 0, 0, 0, 1]))]));
    assert_eq!(interpret_instr(&TypedInstruction::Int, &mut Gas::default(), &mut st), Ok(()));
    assert_eq!(st, VecDeque::from(vec![TypedValue::Int(BigInt { neg: false, mag: digits(&[0, 0, 0, 0, 1]) })]));
    let mut st = VecDeque::from(vec![TypedValue::int_value(i128::MAX), TypedValue::int_value(1)]);
    assert_eq!(interpret_instr(&TypedInstruction::Add(AddOverload::IntInt), &mut Gas::default(), &mut st), Ok(()));
    assert_eq!(st, VecDeque::from(vec![TypedValue::Int(BigInt { neg: false, mag: digits(&[0, 0, 0, 0x8000_0000]) })]));
    let mut st = VecDeque::from(vec![TypedValue::int_value(i128::MIN), TypedValue::int_value(i128::MIN)]);
    assert_eq!(interpret_instr(&TypedInstruction::Add(AddOverload::IntInt), &mut Gas::default(), &mut st), Ok(()));
    assert_eq!(st, VecDeque::from(vec![TypedValue::Int(BigInt { neg: true, mag: digits(&[0, 0, 0, 0, 1]) })]));
    let mut st = VecDeque::from(vec![TypedValue::int_value(-5), TypedValue::int_value(5)]);
    assert_eq!(interpret_instr(&TypedInstruction::Add(AddOverload::IntInt), &mut Gas::default(), &mut st), Ok(()));
    assert_eq!(st, VecDeque::from(vec![TypedValue::int_value(0)]));
    let mut st = VecDeque::from(vec![TypedValue::int_value(-7), TypedValue::int_value(5)]);
    assert_eq!(interpret_instr(&TypedInstruction::Add(AddOverload::IntInt), &mut Gas::default(), &mut st), Ok(()));
    assert_eq!(st, VecDeque::from(vec![TypedValue::int_value(-2)]));
    let mut st = VecDeque::from(vec![TypedValue::int_value(-2)]);
    assert_eq!(interpret_instr(&TypedInstruction::Gt, &mut Gas::default(), &mut st), Ok(()));
    assert_eq!(st, VecDeque::from(vec![TypedValue::Bool(false)]));
}

#[test]
fn broken_invariant() {
    let mut st = VecDeque::new();
    assert_eq!(interpret_instr(&TypedInstruction::Gt, &mut Gas::default(), &mut st), Err(InterpretError::InternalInvariantBroken));
}

#[test]
fn semantics_of_each_instruction() {
    let (r, st) = run(
        "{ PUSH int -5 ; GT ; PUSH int 7 ; PUSH int -2 ; ADD ; GT ; SWAP ; DROP ; PUSH nat 4 ; INT ; DUP 2 ; DIP 2 { DROP } }",
        vec![],
        vec![],
    );
    assert_eq!(r, Ok(()));
    assert_eq!(st, VecDeque::from(vec![TypedValue::Bool(true), TypedValue::int_value(4)]));
}

#[test]
fn printing_and_reparsing_gives_the_same_tree() {
    for src in [
        FIBONACCI_SRC,
        "{}",
        "{ PUSH bool False ; PUSH mutez 0 ; PUSH int -170141183460469231731687303715884105728 ; DROP 1023 ; DUP 0 ; }",
        "{IF{}{LOOP{DIP 3{}}};SWAP;}",
    ] {
        let ast = parse(src).unwrap();
        let printed = print(&ast);
        assert_eq!(parse(&printed).unwrap(), ast);
    }
}

#[test]
fn literal_values_at_their_types() {
    assert_eq!(typecheck_value(&Type::Nat, &Value::NumberValue(7)), Ok(TypedValue::nat_value(7)));
    assert_eq!(typecheck_value(&Type::Int, &Value::NumberValue(-7)), Ok(TypedValue::int_value(-7)));
    assert_eq!(typecheck_value(&Type::Mutez, &Value::NumberValue(9223372036854775807)), Ok(TypedValue::Mutez(i64::MAX)));
    assert_eq!(typecheck_value(&Type::Bool, &Value::BooleanValue(true)), Ok(TypedValue::Bool(true)));
    assert_eq!(
        typecheck_value(&Type::Int, &Value::BooleanValue(true)),
        Err(TcError::PushLiteralMismatch { declared: Type::Int, literal: Value::BooleanValue(true) })
    );
}

#[test]
fn printed_text() {
    let ast = parse("{ADD;DIP 2{DROP};PUSH int -170141183460469231731687303715884105728;PUSH bool True;IF{}{};}").unwrap();
    assert_eq!(
        print(&ast),
        "{ ADD ; DIP 2 { DROP } ; PUSH int -170141183460469231731687303715884105728 ; PUSH bool True ; IF { } { } } "
    );
    assert_eq!(print(&vec![]), "{ } ");
}
