//! Natural numbers of any size, held as digits to the base 2^32. The
//! arithmetic is num-bigint's.

use num_bigint::BigUint;
use num_traits::{One, Zero};
use vstd::prelude::*;

verus! {

/// The number that `digits` stand for, the least significant digit first.
pub open spec fn digits_value(digits: Seq<u32>) -> nat
    decreases digits.len(),
{
    if digits.len() == 0 {
        0
    } else {
        digits[0] as nat + 4294967296 * digits_value(digits.drop_first())
    }
}

/// `digits` do not end in a zero, so that each number has one form only.
pub open spec fn is_canonical(digits: Seq<u32>) -> bool {
    digits.len() > 0 ==> digits.last() != 0
}

/// A natural number.
pub struct BigNat {
    /// The digits to the base 2^32, the least significant first.
    pub digits: Vec<u32>,
}

impl View for BigNat {
    type V = nat;

    open spec fn view(&self) -> nat {
        digits_value(self.digits@)
    }
}

/// `Zero::zero` of num-traits for `BigUint`, as digits: zero has no digits.
#[verifier::external_body]
fn zero_digits() -> (digits: Vec<u32>)
    ensures
        digits@.len() == 0,
{
    BigUint::zero().to_u32_digits()
}

/// `One::one` of num-traits for `BigUint`, as digits: the one digit 1.
#[verifier::external_body]
fn one_digits() -> (digits: Vec<u32>)
    ensures
        digits@ == seq![1u32],
{
    BigUint::one().to_u32_digits()
}

/// `BigUint`'s `+=`, from digits to digits. `BigUint::new` reads digits to
/// the base 2^32, the least significant first, and `to_u32_digits` gives them
/// back in that order without a zero at the end; between the two stands the
/// sum of the two numbers. None of this is proved here.
#[verifier::external_body]
fn plus_digits(left: &Vec<u32>, right: &Vec<u32>) -> (sum: Vec<u32>)
    ensures
        digits_value(sum@) == digits_value(left@) + digits_value(right@),
        is_canonical(sum@),
{
    let mut total = BigUint::new(left.clone());
    total += &BigUint::new(right.clone());
    total.to_u32_digits()
}

impl BigNat {
    /// The digits are in the one form that each number has.
    pub open spec fn wf(&self) -> bool {
        is_canonical(self.digits@)
    }

    /// The number 0.
    pub fn zero() -> (number: BigNat)
        ensures
            number@ == 0,
            number.wf(),
    {
        BigNat { digits: zero_digits() }
    }

    /// The number 1.
    pub fn one() -> (number: BigNat)
        ensures
            number@ == 1,
            number.wf(),
    {
        let digits = one_digits();
        proof {
            reveal_with_fuel(digits_value, 2);
            assert(digits@.drop_first().len() == 0);
        }
        BigNat { digits }
    }

    /// The sum of this number and `other`.
    pub fn plus(&self, other: &BigNat) -> (sum: BigNat)
        ensures
            sum@ == self@ + other@,
            sum.wf(),
    {
        BigNat { digits: plus_digits(&self.digits, &other.digits) }
    }
}

} // verus!
