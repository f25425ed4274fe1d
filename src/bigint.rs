//! Unbounded integers: naturals as little-endian lists of 32-bit digits and
//! integers as a sign over such a list. Every arithmetic result is in the
//! canonical form that `digits_of` and `int_of` give.
use vstd::prelude::*;

verus! {

/// The base of the digits.
pub open spec fn base() -> nat {
    0x1_0000_0000
}

/// A natural number, least significant digit first.
#[derive(PartialEq, Eq, Debug)]
pub enum Digits {
    Nil,
    Cons(u32, Box<Digits>),
}

/// An integer: a sign and a magnitude.
#[derive(PartialEq, Eq, Debug)]
pub struct BigInt {
    pub neg: bool,
    pub mag: Digits,
}

/// The value of a list of digits.
pub open spec fn val(d: Digits) -> nat
    decreases d,
{
    match d {
        Digits::Nil => 0,
        Digits::Cons(x, rest) => (x + base() * val(*rest)) as nat,
    }
}

/// The value of an integer.
pub open spec fn ival(z: BigInt) -> int {
    if z.neg {
        -val(z.mag)
    } else {
        val(z.mag) as int
    }
}

/// The canonical digits of `n`: no most significant zero digit.
pub open spec fn digits_of(n: nat) -> Digits
    decreases n,
{
    if n == 0 {
        Digits::Nil
    } else {
        Digits::Cons((n % base()) as u32, Box::new(digits_of(n / base())))
    }
}

/// The canonical form of the integer `z`: zero is not negative.
pub open spec fn int_of(z: int) -> BigInt {
    if z < 0 {
        BigInt { neg: true, mag: digits_of((-z) as nat) }
    } else {
        BigInt { neg: false, mag: digits_of(z as nat) }
    }
}

/// No most significant zero digit.
pub open spec fn canonical(d: Digits) -> bool
    decreases d,
{
    match d {
        Digits::Nil => true,
        Digits::Cons(x, rest) => canonical(*rest) && !(*rest == Digits::Nil && x == 0),
    }
}

/// The canonical digits of `n` have value `n`.
pub proof fn lemma_digits_of(n: nat)
    ensures
        val(digits_of(n)) == n,
        canonical(digits_of(n)),
    decreases n,
{
    if n > 0 {
        vstd::arithmetic::div_mod::lemma_fundamental_div_mod(n as int, base() as int);
        lemma_digits_of(n / base());
        if n / base() == 0 {
            assert(n % base() == n);
        }
    }
}

/// Canonical digits are the only canonical digits of their value.
pub proof fn lemma_canonical_unique(d: Digits)
    requires
        canonical(d),
    ensures
        d == digits_of(val(d)),
    decreases d,
{
    match d {
        Digits::Nil => {},
        Digits::Cons(x, rest) => {
            lemma_canonical_unique(*rest);
            let v = val(d);
            if *rest == Digits::Nil {
                assert(v == x);
                assert(x > 0);
            }
            assert(v > 0);
            vstd::arithmetic::div_mod::lemma_fundamental_div_mod_converse(
                v as int,
                base() as int,
                val(*rest) as int,
                x as int,
            );
        },
    }
}

/// An exact copy of `d`.
pub fn copy_digits(d: &Digits) -> (r: Digits)
    ensures
        r == *d,
    decreases d,
{
    match d {
        Digits::Nil => Digits::Nil,
        Digits::Cons(x, rest) => Digits::Cons(*x, Box::new(copy_digits(rest))),
    }
}

/// The canonical digits of `u`.
pub fn digits_from_u128(u: u128) -> (r: Digits)
    ensures
        r == digits_of(u as nat),
    decreases u,
{
    if u == 0 {
        Digits::Nil
    } else {
        let low = (u % 0x1_0000_0000) as u32;
        Digits::Cons(low, Box::new(digits_from_u128(u / 0x1_0000_0000)))
    }
}

/// The canonical form of `n`.
pub fn int_from_i128(n: i128) -> (r: BigInt)
    ensures
        r == int_of(n as int),
{
    if n < 0 {
        let m = ((-(n + 1)) as u128) + 1;
        BigInt { neg: true, mag: digits_from_u128(m) }
    } else {
        BigInt { neg: false, mag: digits_from_u128(n as u128) }
    }
}

/// Drops most significant zero digits.
fn normalize(d: Digits) -> (r: Digits)
    ensures
        val(r) == val(d),
        canonical(r),
    decreases d,
{
    match d {
        Digits::Nil => Digits::Nil,
        Digits::Cons(x, rest) => {
            let r2 = normalize(*rest);
            let empty = match r2 {
                Digits::Nil => true,
                _ => false,
            };
            if x == 0 && empty {
                Digits::Nil
            } else {
                Digits::Cons(x, Box::new(r2))
            }
        },
    }
}

/// The digits of `val(a) + val(b) + carry`.
fn add_digits(a: &Digits, b: &Digits, carry: u32) -> (r: Digits)
    requires
        carry <= 1,
    ensures
        val(r) == val(*a) + val(*b) + carry,
    decreases a, b,
{
    match (a, b) {
        (Digits::Nil, Digits::Nil) => if carry == 0 {
            Digits::Nil
        } else {
            Digits::Cons(carry, Box::new(Digits::Nil))
        },
        (Digits::Cons(x, ra), Digits::Nil) => {
            let s = (*x as u64) + (carry as u64);
            let low = (s % 0x1_0000_0000) as u32;
            let c = (s / 0x1_0000_0000) as u32;
            let rest = add_digits(ra, &Digits::Nil, c);
            Digits::Cons(low, Box::new(rest))
        },
        (Digits::Nil, Digits::Cons(y, rb)) => {
            let s = (*y as u64) + (carry as u64);
            let low = (s % 0x1_0000_0000) as u32;
            let c = (s / 0x1_0000_0000) as u32;
            let rest = add_digits(&Digits::Nil, rb, c);
            Digits::Cons(low, Box::new(rest))
        },
        (Digits::Cons(x, ra), Digits::Cons(y, rb)) => {
            let s = (*x as u64) + (*y as u64) + (carry as u64);
            let low = (s % 0x1_0000_0000) as u32;
            let c = (s / 0x1_0000_0000) as u32;
            let rest = add_digits(ra, rb, c);
            Digits::Cons(low, Box::new(rest))
        },
    }
}

/// Whether `val(d) > 0`.
fn nonzero(d: &Digits) -> (r: bool)
    ensures
        r == (val(*d) > 0),
    decreases d,
{
    match d {
        Digits::Nil => false,
        Digits::Cons(x, rest) => *x != 0 || nonzero(rest),
    }
}

/// The order of `val(a)` and `val(b)`: -1, 0 or 1.
fn cmp_digits(a: &Digits, b: &Digits) -> (r: i8)
    ensures
        r == (if val(*a) < val(*b) {
            -1i8
        } else if val(*a) == val(*b) {
            0i8
        } else {
            1i8
        }),
    decreases a, b,
{
    match (a, b) {
        (Digits::Nil, Digits::Nil) => 0,
        (Digits::Nil, Digits::Cons(_, _)) => if nonzero(b) {
            -1
        } else {
            0
        },
        (Digits::Cons(_, _), Digits::Nil) => if nonzero(a) {
            1
        } else {
            0
        },
        (Digits::Cons(x, ra), Digits::Cons(y, rb)) => {
            let c = cmp_digits(ra, rb);
            if c != 0 {
                c
            } else if *x < *y {
                -1
            } else if *x == *y {
                0
            } else {
                1
            }
        },
    }
}

/// The digits of `val(a) - val(b) - borrow`.
fn sub_digits(a: &Digits, b: &Digits, borrow: u32) -> (r: Digits)
    requires
        borrow <= 1,
        val(*a) >= val(*b) + borrow,
    ensures
        val(r) == val(*a) - val(*b) - borrow,
    decreases a,
{
    match a {
        Digits::Nil => Digits::Nil,
        Digits::Cons(x, ra) => {
            let (y, rb): (u32, &Digits) = match b {
                Digits::Nil => (0, b),
                Digits::Cons(y, rb) => (*y, &**rb),
            };
            let ghost vrb = val(*rb);
            assert(val(*b) == y + base() * vrb);
            let t = (*x as i64) - (y as i64) - (borrow as i64);
            if t >= 0 {
                let rest = sub_digits(ra, rb, 0);
                Digits::Cons(t as u32, Box::new(rest))
            } else {
                let rest = sub_digits(ra, rb, 1);
                Digits::Cons((t + 0x1_0000_0000) as u32, Box::new(rest))
            }
        },
    }
}

/// The canonical digits of `val(a) + val(b)`.
pub fn nat_add(a: &Digits, b: &Digits) -> (r: Digits)
    ensures
        r == digits_of(val(*a) + val(*b)),
{
    let r = normalize(add_digits(a, b, 0));
    proof {
        lemma_canonical_unique(r);
    }
    r
}

/// The canonical integer of value `val(a)`.
pub fn nat_to_int(a: &Digits) -> (r: BigInt)
    ensures
        r == int_of(val(*a) as int),
{
    let m = normalize(copy_digits(a));
    proof {
        lemma_canonical_unique(m);
    }
    BigInt { neg: false, mag: m }
}

/// Whether `ival(z) > 0`.
pub fn is_positive(z: &BigInt) -> (r: bool)
    ensures
        r == (ival(*z) > 0),
{
    !z.neg && nonzero(&z.mag)
}

/// The canonical integer of value `ival(a) + ival(b)`.
pub fn int_add(a: &BigInt, b: &BigInt) -> (r: BigInt)
    ensures
        r == int_of(ival(*a) + ival(*b)),
{
    let va = Ghost(val(a.mag));
    let vb = Ghost(val(b.mag));
    if a.neg == b.neg {
        let m = nat_add(&a.mag, &b.mag);
        proof {
            lemma_digits_of(va@ + vb@);
        }
        let neg = a.neg && nonzero(&m);
        BigInt { neg, mag: m }
    } else {
        let c = cmp_digits(&a.mag, &b.mag);
        if c >= 0 {
            let m = normalize(sub_digits(&a.mag, &b.mag, 0));
            proof {
                lemma_canonical_unique(m);
            }
            let neg = a.neg && nonzero(&m);
            BigInt { neg, mag: m }
        } else {
            let m = normalize(sub_digits(&b.mag, &a.mag, 0));
            proof {
                lemma_canonical_unique(m);
            }
            BigInt { neg: b.neg, mag: m }
        }
    }
}

} // verus!
