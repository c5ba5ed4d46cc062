//! A natural number of unbounded size, for the generic divisor and factorial routines.
//! The arithmetic is num's `BigUint`; the value is kept as its base-2^32 digits.
use crate::number_util::Integral;
use num::BigUint;
use vstd::prelude::*;

verus! {

/// The value of little-endian base-2^32 digits.
pub open spec fn digits_value(d: Seq<u32>) -> nat
    decreases d.len(),
{
    if d.len() == 0 {
        0
    } else {
        d[0] as nat + 0x1_0000_0000 * digits_value(d.drop_first())
    }
}

proof fn lemma_digits_zero(d: Seq<u32>)
    ensures
        (digits_value(d) == 0) <==> (forall|k: int| 0 <= k < d.len() ==> d[k] == 0),
    decreases d.len(),
{
    if d.len() > 0 {
        lemma_digits_zero(d.drop_first());
        if forall|k: int| 0 <= k < d.drop_first().len() ==> d.drop_first()[k] == 0 {
            if d[0] == 0 {
                assert forall|k: int| 0 <= k < d.len() implies d[k] == 0 by {
                    if k > 0 {
                        assert(d[k] == d.drop_first()[k - 1]);
                    }
                }
            }
        } else {
            let k = choose|k: int| 0 <= k < d.drop_first().len() && d.drop_first()[k] != 0;
            assert(d[k + 1] != 0);
        }
    }
}

/// Relies on num's `BigUint` addition; `BigUint::new` reads and `to_u32_digits` writes
/// little-endian base-2^32 digits.
#[verifier::external_body]
fn big_add(a: &Vec<u32>, b: &Vec<u32>) -> (r: Vec<u32>)
    ensures
        digits_value(r@) == digits_value(a@) + digits_value(b@),
{
    (BigUint::new(a.clone()) + BigUint::new(b.clone())).to_u32_digits()
}

/// Relies on num's `BigUint` multiplication.
#[verifier::external_body]
fn big_mul(a: &Vec<u32>, b: &Vec<u32>) -> (r: Vec<u32>)
    ensures
        digits_value(r@) == digits_value(a@) * digits_value(b@),
{
    (BigUint::new(a.clone()) * BigUint::new(b.clone())).to_u32_digits()
}

/// Relies on num's `BigUint` division, which panics on a zero divisor.
#[verifier::external_body]
fn big_div(a: &Vec<u32>, b: &Vec<u32>) -> (r: Vec<u32>)
    requires
        digits_value(b@) > 0,
    ensures
        digits_value(r@) == digits_value(a@) / digits_value(b@),
{
    (BigUint::new(a.clone()) / BigUint::new(b.clone())).to_u32_digits()
}

/// Relies on num's `BigUint` remainder, which panics on a zero divisor.
#[verifier::external_body]
fn big_rem(a: &Vec<u32>, b: &Vec<u32>) -> (r: Vec<u32>)
    requires
        digits_value(b@) > 0,
    ensures
        digits_value(r@) == digits_value(a@) % digits_value(b@),
{
    (BigUint::new(a.clone()) % BigUint::new(b.clone())).to_u32_digits()
}

/// Relies on num's `BigUint` ordering, which compares values.
#[verifier::external_body]
fn big_lt(a: &Vec<u32>, b: &Vec<u32>) -> (r: bool)
    ensures
        r == (digits_value(a@) < digits_value(b@)),
{
    BigUint::new(a.clone()) < BigUint::new(b.clone())
}

/// A natural number of unbounded size.
pub struct BigNatural {
    digits: Vec<u32>,
}

impl BigNatural {
    /// The value of this number.
    pub closed spec fn nat_value(&self) -> nat {
        digits_value(self.digits@)
    }

    /// The number with value `v`.
    pub fn from_u64(v: u64) -> (r: BigNatural)
        ensures
            r.nat_value() == v as nat,
    {
        let lo = (v % 0x1_0000_0000) as u32;
        let hi = (v / 0x1_0000_0000) as u32;
        let mut digits: Vec<u32> = Vec::new();
        digits.push(lo);
        digits.push(hi);
        proof {
            assert(digits@.drop_first().drop_first().len() == 0);
            assert(digits_value(digits@.drop_first()) == hi as nat) by {
                reveal_with_fuel(digits_value, 2);
            }
        }
        BigNatural { digits }
    }

    /// The little-endian base-2^32 digits of this number.
    pub fn to_digits(&self) -> (r: Vec<u32>)
        ensures
            digits_value(r@) == self.nat_value(),
    {
        let mut r: Vec<u32> = Vec::new();
        let mut i: usize = 0;
        while i < self.digits.len()
            invariant
                i <= self.digits@.len(),
                r@ == self.digits@.subrange(0, i as int),
            decreases self.digits@.len() - i,
        {
            r.push(self.digits[i]);
            i = i + 1;
            assert(r@ =~= self.digits@.subrange(0, i as int));
        }
        assert(r@ =~= self.digits@);
        r
    }
}

impl Integral for BigNatural {
    closed spec fn value(&self) -> int {
        self.nat_value() as int
    }

    open spec fn fits(v: int) -> bool {
        v >= 0
    }

    proof fn lemma_fits_interval(a: int, b: int, c: int) {
    }

    proof fn lemma_value_fits(&self) {
    }

    fn one() -> (r: Self) {
        let mut digits: Vec<u32> = Vec::new();
        digits.push(1);
        proof {
            assert(digits@.drop_first().len() == 0);
            assert(digits_value(digits@) == 1) by {
                reveal_with_fuel(digits_value, 2);
            }
        }
        BigNatural { digits }
    }

    fn is_zero(&self) -> (r: bool) {
        proof {
            lemma_digits_zero(self.digits@);
        }
        let mut i: usize = 0;
        while i < self.digits.len()
            invariant
                i <= self.digits@.len(),
                forall|k: int| 0 <= k < i ==> self.digits@[k] == 0,
            decreases self.digits@.len() - i,
        {
            if self.digits[i] != 0 {
                proof {
                    lemma_digits_zero(self.digits@);
                    assert(self.digits@[i as int] != 0);
                    assert(digits_value(self.digits@) != 0);
                }
                return false;
            }
            i = i + 1;
        }
        true
    }

    fn less_than(&self, o: &Self) -> (r: bool) {
        big_lt(&self.digits, &o.digits)
    }

    fn plus(&self, o: &Self) -> (r: Self) {
        BigNatural { digits: big_add(&self.digits, &o.digits) }
    }

    fn times(&self, o: &Self) -> (r: Self) {
        BigNatural { digits: big_mul(&self.digits, &o.digits) }
    }

    fn quot(&self, o: &Self) -> (r: Self) {
        BigNatural { digits: big_div(&self.digits, &o.digits) }
    }

    fn modulo(&self, o: &Self) -> (r: Self) {
        BigNatural { digits: big_rem(&self.digits, &o.digits) }
    }
}

} // verus!
