//! Unsigned arbitrary-precision integers held as base 2^32 limbs,
//! least significant limb first. Arithmetic is done by `num_bigint`.
use num_bigint::BigUint;
use num_integer::Integer;
use num_traits::{ToPrimitive, Zero};
use vstd::prelude::*;

verus! {

/// 2^32, the base of one limb.
pub open spec fn limb_base() -> nat {
    4294967296
}

/// The number that a sequence of limbs stands for, least significant limb first.
pub open spec fn limbs_value(s: Seq<u32>) -> nat
    decreases s.len(),
{
    if s.len() == 0 {
        0
    } else {
        s[0] as nat + limb_base() * limbs_value(s.drop_first())
    }
}

/// Natural-number power.
pub open spec fn pow(b: nat, e: nat) -> nat
    decreases e,
{
    if e == 0 {
        1
    } else {
        b * pow(b, (e - 1) as nat)
    }
}

/// A number held in `n` limbs is below `(2^32)^n`.
pub proof fn lemma_limbs_value_bound(s: Seq<u32>)
    ensures
        limbs_value(s) < pow(limb_base(), s.len()),
    decreases s.len(),
{
    if s.len() > 0 {
        let rest = s.drop_first();
        lemma_limbs_value_bound(rest);
        let v = limbs_value(rest);
        let p = pow(limb_base(), rest.len());
        let d = s[0] as nat;
        assert(d + limb_base() * v < limb_base() * p) by (nonlinear_arith)
            requires
                d < limb_base(),
                v < p,
        ;
    }
}

/// `(2^32)^n <= 10000^(3n)`, as `2^32 < 10000^3`.
pub proof fn lemma_limb_pow_bound(n: nat)
    ensures
        pow(limb_base(), n) <= pow(10000, 3 * n),
    decreases n,
{
    if n > 0 {
        let m = (n - 1) as nat;
        lemma_limb_pow_bound(m);
        let a = pow(limb_base(), m);
        let b = pow(10000, 3 * m);
        assert(pow(10000, 3 * n) == 10000 * pow(10000, (3 * n - 1) as nat));
        assert(pow(10000, (3 * n - 1) as nat) == 10000 * pow(10000, (3 * n - 2) as nat));
        assert(pow(10000, (3 * n - 2) as nat) == 10000 * pow(10000, 3 * m));
        assert(limb_base() * a <= 10000 * (10000 * (10000 * b))) by (nonlinear_arith)
            requires
                a <= b,
                limb_base() == 4294967296,
        ;
    }
}

/// Relies on `Integer::div_rem` for `BigUint` (truncated division and
/// remainder), with `BigUint::new` and `BigUint::to_u32_digits` reading and
/// writing limbs least significant first.
#[verifier::external_body]
pub(crate) fn big_div_rem(a: &Vec<u32>, d: u32) -> (r: (Vec<u32>, Vec<u32>))
    requires
        d > 0,
    ensures
        limbs_value(r.0@) == limbs_value(a@) / (d as nat),
        limbs_value(r.1@) == limbs_value(a@) % (d as nat),
{
    let (q, m) = BigUint::new(a.clone()).div_rem(&BigUint::from(d));
    (q.to_u32_digits(), m.to_u32_digits())
}

/// Relies on `Zero::is_zero` for `BigUint`.
#[verifier::external_body]
pub(crate) fn big_is_zero(a: &Vec<u32>) -> (r: bool)
    ensures
        r == (limbs_value(a@) == 0),
{
    BigUint::new(a.clone()).is_zero()
}

/// Relies on `Mul<u32>` for `BigUint`.
#[verifier::external_body]
pub(crate) fn big_mul(a: &Vec<u32>, m: u32) -> (r: Vec<u32>)
    ensures
        limbs_value(r@) == limbs_value(a@) * (m as nat),
{
    (BigUint::new(a.clone()) * m).to_u32_digits()
}

/// Relies on `Add<u32>` for `BigUint`.
#[verifier::external_body]
pub(crate) fn big_add(a: &Vec<u32>, m: u32) -> (r: Vec<u32>)
    ensures
        limbs_value(r@) == limbs_value(a@) + (m as nat),
{
    (BigUint::new(a.clone()) + m).to_u32_digits()
}

/// Relies on `ToPrimitive::to_i16` for `BigUint`: `Some` exactly when the
/// value fits.
#[verifier::external_body]
pub(crate) fn big_to_i16(a: &Vec<u32>) -> (r: Option<i16>)
    ensures
        limbs_value(a@) <= i16::MAX ==> r == Some(limbs_value(a@) as i16),
        limbs_value(a@) > i16::MAX ==> r.is_none(),
{
    BigUint::new(a.clone()).to_i16()
}

} // verus!
