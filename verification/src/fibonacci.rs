//! The Fibonacci numbers: a function that costs enough to be worth a pool.

use crate::bignat::BigNat;
use vstd::prelude::*;

verus! {

/// The Fibonacci numbers: 0, 1, and from there on the sum of the two before.
pub open spec fn fib_spec(num: nat) -> nat
    decreases num,
{
    if num == 0 {
        0
    } else if num == 1 {
        1
    } else {
        fib_spec((num - 1) as nat) + fib_spec((num - 2) as nat)
    }
}

/// The number that stands before `fib_spec(num)` in the loop of `fib`: the
/// Fibonacci number before it, and 1 before the first.
spec fn fib_before(num: nat) -> nat {
    if num == 0 {
        1
    } else {
        fib_spec((num - 1) as nat)
    }
}

/// The Fibonacci number at `num`.
pub fn fib(num: usize) -> (number: BigNat)
    ensures
        number@ == fib_spec(num as nat),
        number.wf(),
{
    let mut current = BigNat::zero();
    let mut other = BigNat::one();
    for step in 0..num
        invariant
            current@ == fib_spec(step as nat),
            other@ == fib_before(step as nat),
            current.wf(),
    {
        std::mem::swap(&mut current, &mut other);
        current = current.plus(&other);
    }
    current
}

} // verus!
