use vstd::prelude::*;

use crate::error::OperatorError;

verus! {

use vstd::arithmetic::power::{
    pow, lemma_pow_strictly_increases, lemma_pow0, lemma0_pow, lemma1_pow,
};

/// An integer literal: a 64-bit signed integer.
#[derive(Clone, Copy, Debug, PartialEq, Eq, Structural)]
pub struct Int(pub i64);

/// Whether a mathematical integer fits in a 64-bit signed integer.
pub open spec fn in_i64(x: int) -> bool {
    i64::MIN <= x <= i64::MAX
}

/// The absolute value of a mathematical integer.
pub open spec fn abs(x: int) -> int {
    if x < 0 {
        -x
    } else {
        x
    }
}

/// What raising `base` to `exp` returns: a negative exponent and a result
/// that leaves the 64-bit range are the two failure modes; otherwise the
/// exact power.
pub open spec fn int_pow_result(base: i64, exp: i64) -> Result<Int, OperatorError> {
    if exp < 0 {
        Err(OperatorError::NegativeExponent)
    } else if in_i64(pow(base as int, exp as nat)) {
        Ok(Int(pow(base as int, exp as nat) as i64))
    } else {
        Err(OperatorError::Overflow)
    }
}

/// The magnitude of a power is the power of the magnitude.
proof fn lemma_pow_abs(b: int, e: nat)
    ensures
        abs(pow(b, e)) == pow(abs(b), e),
    decreases e,
{
    reveal(pow);
    if e > 0 {
        lemma_pow_abs(b, (e - 1) as nat);
        assert(pow(b, e) == b * pow(b, (e - 1) as nat));
        assert(pow(abs(b), e) == abs(b) * pow(abs(b), (e - 1) as nat));
        assert(abs(b * pow(b, (e - 1) as nat)) == abs(b) * abs(pow(b, (e - 1) as nat)))
            by (nonlinear_arith);
    }
}

/// A power of -1 is 1 or -1 according to the parity of the exponent.
proof fn lemma_pow_neg_one(e: nat)
    ensures
        pow(-1, e) == if e % 2 == 0 { 1int } else { -1int },
    decreases e,
{
    reveal(pow);
    if e > 0 {
        lemma_pow_neg_one((e - 1) as nat);
    }
}

/// Once a power of a base of magnitude at least two has left the 64-bit
/// range, every later power stays outside it.
proof fn lemma_pow_overflow_stays(b: int, e1: nat, e2: nat)
    requires
        abs(b) >= 2,
        e1 <= e2,
        !in_i64(pow(b, e1)),
    ensures
        !in_i64(pow(b, e2)),
{
    lemma_pow_abs(b, e1);
    lemma_pow_abs(b, e2);
    if e1 < e2 {
        lemma_pow_strictly_increases(abs(b) as nat, e1, e2);
    }
}

impl Int {
    /// Wraps a machine integer as a literal.
    pub fn new(value: i64) -> (r: Self)
        ensures
            r == Int(value),
    {
        Int(value)
    }

    /// Raises this integer to an integer exponent, exactly when the
    /// mathematical result fits in 64 bits.
    pub fn pow(&self, exp: i64) -> (r: Result<Int, OperatorError>)
        ensures
            r == int_pow_result(self.0, exp),
    {
        let base = self.0;
        if exp < 0 {
            return Err(OperatorError::NegativeExponent);
        }
        if base == 0 {
            proof {
                if exp > 0 {
                    lemma0_pow(exp as nat);
                } else {
                    lemma_pow0(0);
                }
            }
            return Ok(Int(if exp == 0 { 1 } else { 0 }));
        }
        if base == 1 {
            proof {
                lemma1_pow(exp as nat);
            }
            return Ok(Int(1));
        }
        if base == -1 {
            proof {
                lemma_pow_neg_one(exp as nat);
            }
            return Ok(Int(if exp % 2 == 0 { 1 } else { -1 }));
        }
        let mut acc: i64 = 1;
        let mut i: i64 = 0;
        proof {
            lemma_pow0(base as int);
        }
        while i < exp
            invariant
                base == self.0,
                abs(base as int) >= 2,
                0 <= i <= exp,
                acc as int == pow(base as int, i as nat),
            decreases exp - i,
        {
            match acc.checked_mul(base) {
                Some(next) => {
                    proof {
                        reveal(pow);
                        assert(pow(base as int, (i + 1) as nat)
                            == base * pow(base as int, i as nat));
                        assert(base as int * pow(base as int, i as nat)
                            == pow(base as int, i as nat) * base as int) by (nonlinear_arith);
                    }
                    acc = next;
                    i = i + 1;
                },
                None => {
                    proof {
                        reveal(pow);
                        assert(pow(base as int, (i + 1) as nat)
                            == base * pow(base as int, i as nat));
                        assert(base as int * pow(base as int, i as nat)
                            == pow(base as int, i as nat) * base as int) by (nonlinear_arith);
                        lemma_pow_overflow_stays(base as int, (i + 1) as nat, exp as nat);
                        assert(!in_i64(pow(base as int, exp as nat)));
                    }
                    return Err(OperatorError::Overflow);
                },
            }
        }
        Ok(Int(acc))
    }
}

} // verus!
