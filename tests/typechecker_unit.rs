use mir::ast::Instruction::{Add, Dip, Drop, Dup, Gt, Int, Loop, Push, Swap};
use mir::ast::{Type, Value};
use mir::gas::Gas;
use mir::parser::parse;
use mir::typechecker::{typecheck, typecheck_instruction};
use std::collections::VecDeque;

#[test]
fn test_dup() {
    let mut stack = VecDeque::from([Type::Nat]);
    let expected_stack = VecDeque::from([Type::Nat, Type::Nat]);
    typecheck_instruction(&Dup(Some(1)), &mut Gas::default(), &mut stack).unwrap();
    assert!(stack == expected_stack);
}

#[test]
fn test_dup_n() {
    let mut stack = VecDeque::from([Type::Nat, Type::Int]);
    let expected_stack = VecDeque::from([Type::Int, Type::Nat, Type::Int]);
    typecheck_instruction(&Dup(Some(2)), &mut Gas::default(), &mut stack).unwrap();
    assert!(stack == expected_stack);
}

#[test]
fn test_swap() {
    let mut stack = VecDeque::from([Type::Nat, Type::Int]);
    let expected_stack = VecDeque::from([Type::Int, Type::Nat]);
    typecheck_instruction(&Swap, &mut Gas::default(), &mut stack).unwrap();
    assert!(stack == expected_stack);
}

#[test]
fn test_int() {
    let mut stack = VecDeque::from([Type::Nat]);
    let expected_stack = VecDeque::from([Type::Int]);
    typecheck_instruction(&Int, &mut Gas::default(), &mut stack).unwrap();
    assert!(stack == expected_stack);
}

#[test]
fn test_drop() {
    let mut stack = VecDeque::from([Type::Nat]);
    let expected_stack = VecDeque::from([]);
    typecheck(parse("{DROP}").unwrap(), &mut Gas::default(), &mut stack).unwrap();
    assert!(stack == expected_stack);
}

#[test]
fn test_drop_n() {
    let mut stack = VecDeque::from([Type::Nat, Type::Int]);
    let expected_stack = VecDeque::from([]);
    typecheck_instruction(&Drop(Some(2)), &mut Gas::default(), &mut stack).unwrap();
    assert!(stack == expected_stack);
}

#[test]
fn test_push() {
    let mut stack = VecDeque::from([Type::Nat]);
    let expected_stack = VecDeque::from([Type::Int, Type::Nat]);
    typecheck_instruction(&Push((Type::Int, Value::NumberValue(1))), &mut Gas::default(), &mut stack).unwrap();
    assert!(stack == expected_stack);
}

#[test]
fn test_gt() {
    let mut stack = VecDeque::from([Type::Int]);
    let expected_stack = VecDeque::from([Type::Bool]);
    typecheck_instruction(&Gt, &mut Gas::default(), &mut stack).unwrap();
    assert!(stack == expected_stack);
}

#[test]
fn test_dip() {
    let mut stack = VecDeque::from([Type::Int, Type::Bool]);
    let expected_stack = VecDeque::from([Type::Int, Type::Nat, Type::Bool]);
    typecheck_instruction(&Dip(Some(1), parse("{PUSH nat 6}").unwrap()), &mut Gas::default(), &mut stack).unwrap();
    assert!(stack == expected_stack);
}

#[test]
fn test_add() {
    let mut stack = VecDeque::from([Type::Int, Type::Int]);
    let expected_stack = VecDeque::from([Type::Int]);
    typecheck_instruction(&Add(()), &mut Gas::default(), &mut stack).unwrap();
    assert!(stack == expected_stack);
}

#[test]
fn test_loop() {
    let mut stack = VecDeque::from([Type::Bool, Type::Int]);
    let expected_stack = VecDeque::from([Type::Int]);
    assert!(
        typecheck_instruction(&Loop(parse("{PUSH bool True}").unwrap()), &mut Gas::default(), &mut stack).is_ok()
    );
    assert!(stack == expected_stack);
}
