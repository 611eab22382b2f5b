//! Wrapping byte arithmetic: increment, decrement and stepping by a count.

use vstd::prelude::*;

verus! {

/// The byte reached from `b` by moving `n` places forward on the wheel of
/// 256 byte values (negative `n` moves backward).
pub open spec fn wrapped(b: u8, n: int) -> u8 {
    ((b + n) % 256) as u8
}

/// Increment and decrement that wrap around instead of overflowing.
pub trait WrappedInc: Sized {
    /// The next value, wrapping from the largest value to the smallest.
    fn inc(self) -> Self;

    /// The previous value, wrapping from the smallest value to the largest.
    fn dec(self) -> Self;
}

/// Stepping forward by a count of wrapping increments.
pub trait WrappedStep: Sized {
    /// The value reached after `other` wrapping increments.
    fn step(self, other: &Self) -> Self;
}

/// Decrementing undoes incrementing and incrementing undoes decrementing,
/// for every byte, wrap-around included.
pub proof fn lemma_inc_dec_inverse(b: u8)
    ensures
        wrapped(wrapped(b, 1), -1) == b,
        wrapped(wrapped(b, -1), 1) == b,
{
    if b == 255 {
        assert(wrapped(b, 1) == 0);
    } else {
        assert(wrapped(b, 1) == b + 1);
    }
    if b == 0 {
        assert((0 + -1) % 256 == 255);
        assert(wrapped(b, -1) == 255);
    } else {
        assert(wrapped(b, -1) == b - 1);
    }
}

/// Stepping by `a` and then by `b` lands where stepping by `a + b` does,
/// modulo the wheel of 256 byte values.
pub proof fn lemma_steps_add(x: u8, a: u8, b: u8)
    ensures
        wrapped(wrapped(x, a as int), b as int) == wrapped(x, a + b),
{
    vstd::arithmetic::div_mod::lemma_add_mod_noop(x + a, b as int, 256);
    vstd::arithmetic::div_mod::lemma_mod_twice(x + a, 256);
    vstd::arithmetic::div_mod::lemma_small_mod(b as nat, 256);
}

impl WrappedInc for u8 {
    fn inc(self) -> (r: u8)
        ensures
            r == wrapped(self, 1),
            r == (if self == 255 { 0 } else { self + 1 }),
    {
        match self {
            255u8 => 0u8,
            _ => self + 1u8,
        }
    }

    fn dec(self) -> (r: u8)
        ensures
            r == wrapped(self, -1),
            r == (if self == 0 { 255 } else { self - 1 }),
    {
        match self {
            0u8 => 255u8,
            _ => self - 1,
        }
    }
}

impl WrappedStep for u8 {
    fn step(self, other: &u8) -> (r: u8)
        ensures
            r == wrapped(self, *other as int),
    {
        let mut counter: u8 = 0;
        let mut output: u8 = self;
        while counter < *other
            invariant
                counter <= *other,
                output == wrapped(self, counter as int),
            decreases *other - counter,
        {
            output = output.inc();
            counter += 1;
        }
        output
    }
}

} // verus!
