//! Table-driven arithmetic in GF(2^16).
use vstd::prelude::*;

use crate::recovery::rar5::error::{Error, Result};
use crate::recovery::rar5::field::{gf_exp, gf_mul, lemma_mul_units, xtime, xtimes};
use crate::recovery::rar5::order::{
    gf_inv, gf_log, lemma_exp_injective, lemma_exp_periodic, lemma_inv, lemma_log,
    lemma_mul_nonzero, FIELD_SIZE,
};

verus! {

const FIELD_MASK: u32 = 0xffff;

const PRIMITIVE_POLYNOMIAL: u32 = 0x1100b;

const ZERO_LOG_SENTINEL: u32 = 131_070;

/// Logarithm and antilogarithm tables of the field.
#[derive(Debug)]
#[non_exhaustive]
pub struct Gf16 {
    exp: Vec<u16>,
    log: Vec<u32>,
}

impl Gf16 {
    /// The antilogarithm table holds the powers of `x` and the logarithm table
    /// inverts it.
    #[verifier::type_invariant]
    pub closed spec fn tables_hold(self) -> bool {
        &&& self.exp@.len() == 4 * FIELD_SIZE + 1
        &&& self.log@.len() == FIELD_SIZE + 1
        &&& forall|i: int| 0 <= i < 2 * FIELD_SIZE ==> #[trigger] self.exp@[i] == gf_exp(i as nat)
        &&& forall|v: u16| v != 0 ==> #[trigger] self.log@[v as int] == gf_log(v)
    }

    /// Builds both tables by walking through the powers of `x`.
    pub fn new() -> (gf: Self)
        ensures
            gf.tables_hold(),
    {
        let mut exp: Vec<u16> = vec![0u16; 4 * FIELD_SIZE + 1];
        let mut log: Vec<u32> = vec![0u32; FIELD_SIZE + 1];
        let mut value: u32 = 1;
        let mut power: usize = 0;
        while power < FIELD_SIZE
            invariant
                power <= FIELD_SIZE,
                exp@.len() == 4 * FIELD_SIZE + 1,
                log@.len() == FIELD_SIZE + 1,
                value == gf_exp(power as nat),
                forall|i: int| 0 <= i < power ==> #[trigger] exp@[i] == gf_exp(i as nat),
                forall|i: int|
                    FIELD_SIZE <= i < FIELD_SIZE + power ==> #[trigger] exp@[i] == gf_exp(
                        (i - FIELD_SIZE) as nat,
                    ),
                forall|i: nat| i < power ==> log@[(#[trigger] gf_exp(i)) as int] == i,
            decreases FIELD_SIZE - power,
        {
            log[value as usize] = power as u32;
            exp[power] = value as u16;
            exp[power + FIELD_SIZE] = value as u16;
            proof {
                assert forall|i: nat| i < power implies gf_exp(i) != gf_exp(power as nat) by {
                    if gf_exp(i) == gf_exp(power as nat) {
                        lemma_exp_injective(i, power as nat);
                    }
                }
                reveal_with_fuel(xtimes, 2);
                let v = value;
                let w = value as u16;
                assert((v << 1) <= 0x1fffe && ((v << 1) > 0xffff ==> ((v << 1) ^ 0x1100b) == xtime(
                    w,
                ) as u32) && ((v << 1) <= 0xffff ==> (v << 1) == xtime(w) as u32)) by (bit_vector)
                    requires
                        v <= 0xffff,
                        w == v as u16,
                ;
            }
            value = value << 1;
            if value > FIELD_MASK {
                value = value ^ PRIMITIVE_POLYNOMIAL;
            }
            power += 1;
        }
        log[0] = ZERO_LOG_SENTINEL;
        proof {
            assert forall|i: int| 0 <= i < 2 * FIELD_SIZE implies #[trigger] exp@[i] == gf_exp(
                i as nat,
            ) by {
                if i >= FIELD_SIZE {
                    lemma_exp_periodic((i - FIELD_SIZE) as nat);
                }
            }
            assert forall|v: u16| v != 0 implies #[trigger] log@[v as int] == gf_log(v) by {
                lemma_log(v);
                assert(gf_exp(gf_log(v)) == v);
            }
        }
        Gf16 { exp, log }
    }

    /// The sum of two elements.
    pub fn add(&self, left: u16, right: u16) -> (sum: u16)
        ensures
            sum == left ^ right,
    {
        left ^ right
    }

    /// The product of two elements.
    pub fn mul(&self, left: u16, right: u16) -> (product: u16)
        ensures
            product == gf_mul(left, right),
    {
        proof {
            use_type_invariant(self);
            lemma_mul_units(left);
            lemma_mul_units(right);
        }
        if left == 0 || right == 0 {
            return 0;
        }
        proof {
            lemma_log(left);
            lemma_log(right);
            lemma_mul_nonzero(left, right);
            assert(self.log@[left as int] == gf_log(left));
            assert(self.log@[right as int] == gf_log(right));
        }
        let index: u32 = self.log[left as usize] + self.log[right as usize];
        self.exp[index as usize]
    }

    /// The inverse of an element; zero has none.
    pub fn inv(&self, value: u16) -> (inverse: Result<u16>)
        ensures
            value == 0 ==> inverse == Err::<u16, Error>(Error::SingularElement),
            value != 0 ==> inverse == Ok::<u16, Error>(gf_inv(value)) && gf_mul(
                value,
                gf_inv(value),
            ) == 1,
    {
        if value == 0 {
            return Err(Error::SingularElement);
        }
        proof {
            use_type_invariant(self);
            lemma_log(value);
            lemma_inv(value);
            assert(self.log@[value as int] == gf_log(value));
        }
        let index: u32 = 65_535u32 - self.log[value as usize];
        Ok(self.exp[index as usize])
    }

    /// The quotient of two elements; nothing is divided by zero.
    pub fn div(&self, numerator: u16, denominator: u16) -> (quotient: Result<u16>)
        ensures
            denominator == 0 ==> quotient == Err::<u16, Error>(Error::SingularElement),
            denominator != 0 ==> quotient == Ok::<u16, Error>(
                gf_mul(numerator, gf_inv(denominator)),
            ),
    {
        match self.inv(denominator) {
            Ok(inverse) => Ok(self.mul(numerator, inverse)),
            Err(error) => Err(error),
        }
    }
}

impl Clone for Gf16 {
    fn clone(&self) -> (copy: Self)
        ensures
            copy.tables_hold(),
    {
        proof {
            use_type_invariant(self);
        }
        let exp = self.exp.clone();
        let log = self.log.clone();
        assert(exp@ =~= self.exp@);
        assert(log@ =~= self.log@);
        Gf16 { exp, log }
    }
}

impl Default for Gf16 {
    fn default() -> (gf: Self)
        ensures
            gf.tables_hold(),
    {
        Self::new()
    }
}

} // verus!
