//! The gas meter and the fixed cost tables.
//!
//! Costs are in milligas (1 gas = 1000 milligas).
//!
//! Typechecking charges `TC_INSTR_STEP` for every instruction it visits and
//! `TC_PUSH_STEP` for a `PUSH`, which also checks its literal.
//!
//! Interpretation charges, for each executed instruction:
//!
//! | instruction            | milligas     |
//! |------------------------|--------------|
//! | ADD on nat or int      | 75           |
//! | ADD on mutez           | 20           |
//! | INT, GT, SWAP          | 10           |
//! | DROP n, DUP n          | 10 + 2n      |
//! | PUSH                   | 20           |
//! | DIP n                  | 20 + body    |
//! | IF                     | 30 + branch  |
//! | LOOP                   | 30 + 30 for every pass through the body after the first |
use vstd::prelude::*;

verus! {

/// Raised when a charge exceeds what is left of the budget.
#[derive(PartialEq, Eq, Structural, Clone, Copy, Debug)]
pub struct OutOfGas;

/// A budget of milligas that only goes down.
#[derive(Debug)]
pub struct Gas {
    milligas: u64,
}

/// The budget of `Gas::default()`.
pub const DEFAULT_MILLIGAS: u64 = 1_000_000_000;

/// Typechecking cost of any instruction but `PUSH`.
pub const TC_INSTR_STEP: u64 = 460;

/// Typechecking cost of `PUSH`.
pub const TC_PUSH_STEP: u64 = 565;

pub const ADD_NUM_COST: u64 = 75;

pub const ADD_MUTEZ_COST: u64 = 20;

pub const SIMPLE_COST: u64 = 10;

pub const PUSH_COST: u64 = 20;

pub const DIP_COST: u64 = 20;

pub const IF_COST: u64 = 30;

pub const LOOP_COST: u64 = 30;

/// Cost of `DROP n` and `DUP n`.
pub open spec fn depth_cost(n: nat) -> nat {
    10 + 2 * n
}

/// Executable form of `depth_cost`, for depths that fit in 16 bits.
pub fn depth_cost_exec(n: u16) -> (r: u64)
    ensures
        r == depth_cost(n as nat),
{
    10 + 2 * (n as u64)
}

impl View for Gas {
    type V = nat;

    closed spec fn view(&self) -> nat {
        self.milligas as nat
    }
}

impl Gas {
    /// A meter holding `milligas`.
    pub fn new(milligas: u64) -> (r: Gas)
        ensures
            r@ == milligas,
    {
        Gas { milligas }
    }

    /// What is left of the budget.
    pub fn milligas(&self) -> (r: u64)
        ensures
            r == self@,
    {
        self.milligas
    }

    /// Charges `cost`; when less than `cost` is left, nothing is charged.
    pub fn consume(&mut self, cost: u64) -> (r: Result<(), OutOfGas>)
        ensures
            cost <= old(self)@ ==> r is Ok && final(self)@ == old(self)@ - cost,
            cost > old(self)@ ==> r == Err::<(), OutOfGas>(OutOfGas) && final(self)@ == old(self)@,
            final(self)@ <= u64::MAX,
    {
        if cost <= self.milligas {
            self.milligas = self.milligas - cost;
            Ok(())
        } else {
            Err(OutOfGas)
        }
    }
}

impl Default for Gas {
    fn default() -> (r: Gas)
        ensures
            r@ == DEFAULT_MILLIGAS,
    {
        Gas { milligas: DEFAULT_MILLIGAS }
    }
}

} // verus!
