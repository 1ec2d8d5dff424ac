//! Token quantities: a fixed-point amount together with its symbol.
//!
//! Arithmetic on quantities of different symbols, overflow and division by
//! zero abort the whole unit of work; here they are ruled out by `requires`.

use vstd::prelude::*;

verus! {

/// A token symbol: the low byte is the number of decimal places, the seven
/// bytes above it are the symbol's code, one uppercase letter per byte,
/// lowest byte first.
#[derive(PartialEq, Eq, Structural, Debug, Clone, Copy, Hash, Default)]
pub struct Symbol(pub u64);

/// An amount in the smallest unit of a symbol.
#[derive(PartialEq, Eq, Structural, Debug, Clone, Copy, Default)]
pub struct Asset {
    pub amount: i64,
    pub symbol: Symbol,
}

/// A quantity together with the account of the contract that issues it.
#[derive(PartialEq, Eq, Structural, Debug, Clone, Copy, Default)]
pub struct ExtendedAsset {
    pub quantity: Asset,
    pub contract: u64,
}

pub open spec fn is_upper_letter(b: nat) -> bool {
    65 <= b <= 90
}

/// Every byte of `c`, from the lowest up to the highest non-zero one, is an
/// uppercase letter.
pub open spec fn all_letters(c: nat) -> bool
    decreases c,
{
    if c == 0 {
        true
    } else {
        is_upper_letter(c % 256) && all_letters(c / 256)
    }
}

/// The letters of a code, lowest byte first.
pub open spec fn code_letters(c: nat) -> Seq<u8>
    decreases c,
{
    if c == 0 {
        Seq::empty()
    } else {
        seq![(c % 256) as u8] + code_letters(c / 256)
    }
}

/// A code is valid when it has at least one letter and nothing but letters.
pub open spec fn code_is_valid(c: nat) -> bool {
    c != 0 && all_letters(c)
}

/// The quotient of `a` by `b`, rounded toward zero.
pub open spec fn trunc_div(a: int, b: int) -> int {
    let q = (if a < 0 { -a } else { a }) / (if b < 0 { -b } else { b });
    if (a < 0) == (b < 0) {
        q
    } else {
        -q
    }
}

/// The remainder that goes with `trunc_div`; it has the sign of `a`.
pub open spec fn trunc_rem(a: int, b: int) -> int {
    a - b * trunc_div(a, b)
}

impl Symbol {
    pub open spec fn spec_code(self) -> nat {
        (self.0 / 256) as nat
    }

    /// The number of decimal places.
    pub fn precision(self) -> (r: u8)
        ensures
            r == self.0 % 256,
    {
        (self.0 % 256) as u8
    }

    /// The symbol's code, without the precision.
    pub fn code(self) -> (r: u64)
        ensures
            r == self.spec_code(),
    {
        self.0 / 256
    }

    /// Whether the code is one to seven uppercase letters with no gap.
    pub fn is_valid(self) -> (r: bool)
        ensures
            r == code_is_valid(self.spec_code()),
    {
        let mut c: u64 = self.0 / 256;
        if c == 0 {
            return false;
        }
        while c != 0
            invariant
                code_is_valid(self.spec_code()) == all_letters(c as nat),
            decreases c,
        {
            let b = c % 256;
            if b < 65 || b > 90 {
                return false;
            }
            c = c / 256;
        }
        true
    }

    /// The letters of the code, lowest byte first.
    pub fn name_bytes(self) -> (r: Vec<u8>)
        ensures
            r@ == code_letters(self.spec_code()),
    {
        let mut c: u64 = self.0 / 256;
        let mut out: Vec<u8> = Vec::new();
        while c != 0
            invariant
                out@ + code_letters(c as nat) == code_letters(self.spec_code()),
            decreases c,
        {
            out.push((c % 256) as u8);
            assert(code_letters(c as nat) == seq![(c % 256) as u8] + code_letters((c / 256) as nat));
            assert(out@ + code_letters((c / 256) as nat) =~= code_letters(self.spec_code()));
            c = c / 256;
        }
        assert(out@ + code_letters(0) =~= out@);
        out
    }
}

impl Asset {
    pub fn is_valid(&self) -> (r: bool)
        ensures
            r == code_is_valid(self.symbol.spec_code()),
    {
        self.symbol.is_valid()
    }

    /// The sum of two amounts of one symbol.
    pub fn add(self, other: Self) -> (r: Self)
        requires
            self.symbol == other.symbol,
            i64::MIN <= self.amount + other.amount <= i64::MAX,
        ensures
            r.amount == self.amount + other.amount,
            r.symbol == self.symbol,
    {
        Asset { amount: self.amount + other.amount, symbol: self.symbol }
    }

    pub fn add_assign(&mut self, other: Self)
        requires
            old(self).symbol == other.symbol,
            i64::MIN <= old(self).amount + other.amount <= i64::MAX,
        ensures
            final(self).amount == old(self).amount + other.amount,
            final(self).symbol == old(self).symbol,
    {
        self.amount = self.amount + other.amount;
    }

    /// The difference of two amounts of one symbol.
    pub fn sub(self, other: Self) -> (r: Self)
        requires
            self.symbol == other.symbol,
            i64::MIN <= self.amount - other.amount <= i64::MAX,
        ensures
            r.amount == self.amount - other.amount,
            r.symbol == self.symbol,
    {
        Asset { amount: self.amount - other.amount, symbol: self.symbol }
    }

    pub fn sub_assign(&mut self, other: Self)
        requires
            old(self).symbol == other.symbol,
            i64::MIN <= old(self).amount - other.amount <= i64::MAX,
        ensures
            final(self).amount == old(self).amount - other.amount,
            final(self).symbol == old(self).symbol,
    {
        self.amount = self.amount - other.amount;
    }

    /// The product of two amounts of one symbol.
    pub fn mul(self, other: Self) -> (r: Self)
        requires
            self.symbol == other.symbol,
            i64::MIN <= self.amount * other.amount <= i64::MAX,
        ensures
            r.amount == self.amount * other.amount,
            r.symbol == self.symbol,
    {
        Asset { amount: self.amount * other.amount, symbol: self.symbol }
    }

    pub fn mul_assign(&mut self, other: Self)
        requires
            old(self).symbol == other.symbol,
            i64::MIN <= old(self).amount * other.amount <= i64::MAX,
        ensures
            final(self).amount == old(self).amount * other.amount,
            final(self).symbol == old(self).symbol,
    {
        self.amount = self.amount * other.amount;
    }

    /// The quotient of two amounts of one symbol, rounded toward zero.
    pub fn div(self, other: Self) -> (r: Self)
        requires
            self.symbol == other.symbol,
            other.amount != 0,
            !(self.amount == i64::MIN && other.amount == -1),
        ensures
            r.amount == trunc_div(self.amount as int, other.amount as int),
            r.symbol == self.symbol,
    {
        Asset { amount: quotient(self.amount, other.amount), symbol: self.symbol }
    }

    pub fn div_assign(&mut self, other: Self)
        requires
            old(self).symbol == other.symbol,
            other.amount != 0,
            !(old(self).amount == i64::MIN && other.amount == -1),
        ensures
            final(self).amount == trunc_div(old(self).amount as int, other.amount as int),
            final(self).symbol == old(self).symbol,
    {
        self.amount = quotient(self.amount, other.amount);
    }

    /// The remainder of two amounts of one symbol; it has the sign of `self`.
    pub fn rem(self, other: Self) -> (r: Self)
        requires
            self.symbol == other.symbol,
            other.amount != 0,
            !(self.amount == i64::MIN && other.amount == -1),
        ensures
            r.amount == trunc_rem(self.amount as int, other.amount as int),
            r.symbol == self.symbol,
    {
        Asset { amount: remainder(self.amount, other.amount), symbol: self.symbol }
    }

    pub fn rem_assign(&mut self, other: Self)
        requires
            old(self).symbol == other.symbol,
            other.amount != 0,
            !(old(self).amount == i64::MIN && other.amount == -1),
        ensures
            final(self).amount == trunc_rem(old(self).amount as int, other.amount as int),
            final(self).symbol == old(self).symbol,
    {
        self.amount = remainder(self.amount, other.amount);
    }
}

fn magnitude(a: i64) -> (r: u64)
    ensures
        r == if a < 0 { -a } else { a as int },
{
    if a < 0 {
        if a == i64::MIN {
            9_223_372_036_854_775_808u64
        } else {
            (-a) as u64
        }
    } else {
        a as u64
    }
}

fn quotient(a: i64, b: i64) -> (r: i64)
    requires
        b != 0,
        !(a == i64::MIN && b == -1),
    ensures
        r == trunc_div(a as int, b as int),
{
    let ma = magnitude(a);
    let mb = magnitude(b);
    let q = ma / mb;
    proof {
        assert(q <= ma) by (nonlinear_arith)
            requires
                q == ma / mb,
                mb >= 1,
        {
        }
        if mb >= 2 {
            assert(q <= ma / 2) by (nonlinear_arith)
                requires
                    q == ma / mb,
                    mb >= 2,
            {
            }
        }
    }
    if (a < 0) == (b < 0) {
        q as i64
    } else if q == 9_223_372_036_854_775_808u64 {
        i64::MIN
    } else {
        -(q as i64)
    }
}

fn remainder(a: i64, b: i64) -> (r: i64)
    requires
        b != 0,
        !(a == i64::MIN && b == -1),
    ensures
        r == trunc_rem(a as int, b as int),
{
    let q = quotient(a, b);
    let mb = magnitude(b);
    let ma = magnitude(a);
    proof {
        let qq = (ma as int) / (mb as int);
        assert(0 <= ma - mb * qq < mb) by (nonlinear_arith)
            requires
                qq == (ma as int) / (mb as int),
                mb >= 1,
        {
        }
        assert(b * trunc_div(a as int, b as int) == if a < 0 { -(mb * qq) } else { mb * qq }) by (nonlinear_arith)
            requires
                qq == (ma as int) / (mb as int),
                mb == if b < 0 { -b } else { b as int },
                ma == if a < 0 { -a } else { a as int },
                trunc_div(a as int, b as int) == if (a < 0) == (b < 0) { qq } else { -qq },
        {
        }
    }
    a - b * q
}

} // verus!
