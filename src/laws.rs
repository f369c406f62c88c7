//! Properties that relate the encoder and the decoder.
use vstd::prelude::*;

use crate::bignum::pow;
use crate::digits::digits_le;
use crate::numeric::{
    aligned, aligned_digits, decode_model, decoded_scale, digits_value, encode_model,
    encoded_digits, encoded_weight, pad_steps, trim_zeros, DecimalModel, NumericModel,
};

verus! {

/// Most-significant-first base-10000 digits of `n` stand for `n`.
pub proof fn lemma_digits_value_of_digits(n: nat)
    ensures
        digits_value(digits_le(n).reverse()) == n,
    decreases n,
{
    let rev = digits_le(n).reverse();
    if n < 10000 {
        assert(rev.drop_last() =~= seq![]);
        assert(rev.last() == n);
        assert(digits_value(seq![]) == 0);
        assert(digits_value(rev) == digits_value(rev.drop_last()) * 10000 + rev.last());
    } else {
        lemma_digits_value_of_digits(n / 10000);
        assert(rev.drop_last() =~= digits_le(n / 10000).reverse());
        assert(rev.last() == n % 10000);
        assert(digits_value(rev) == digits_value(rev.drop_last()) * 10000 + rev.last());
        assert((n / 10000) * 10000 + n % 10000 == n);
    }
}

/// Encoding a non-negative integer at scale zero and decoding the wire value
/// gives back the same integer, at scale zero.
pub proof fn lemma_integer_round_trip(n: nat)
    ensures
        decode_model(encode_model(false, n, 0)) == (DecimalModel {
            negative: false,
            magnitude: n,
            scale: 0,
        }),
{
    if n == 0 {
        assert(seq![0int].drop_last() =~= seq![]);
        assert(digits_value(seq![]) == 0);
        assert(digits_value(seq![0int]) == 0);
    } else {
        reveal_with_fuel(pow, 5);
        let a = aligned(n, 0);
        assert(a == n * 10000);
        assert(a % 10000 == 0 && a / 10000 == n) by (nonlinear_arith)
            requires
                a == n * 10000,
        ;
        let dn = digits_le(n).reverse();
        assert(digits_le(a) == seq![0int] + digits_le(n));
        assert(digits_le(a).reverse() =~= dn.push(0));
        assert(dn.push(0).drop_last() =~= dn);
        lemma_digits_value_of_digits(n);
        let l = dn.len() as int;
        assert(aligned_digits(n, 0).len() == l + 1);
        assert(encoded_weight(n, 0) == l - 1);
        assert(dn.push(0).last() == 0);
        assert(trim_zeros(dn, l) == dn);
        assert(trim_zeros(dn.push(0), l) == trim_zeros(dn, l));
        assert(encoded_digits(n, 0) == dn);
        assert(digits_value(dn) == n);
        assert(decoded_scale(encoded_weight(n, 0), l) == 0);
    }
}

/// A non-zero magnitude encodes to the same weight, scale and digits under
/// either sign: only the tag tells the two apart.
pub proof fn lemma_sign_symmetry(mag: nat, scale: nat)
    requires
        mag > 0,
    ensures
        match (encode_model(false, mag, scale), encode_model(true, mag, scale)) {
            (
                NumericModel::Positive { weight: w1, scale: s1, digits: d1 },
                NumericModel::Negative { weight: w2, scale: s2, digits: d2 },
            ) => w1 == w2 && s1 == s2 && d1 == d2,
            _ => false,
        },
{
}

/// Zero encodes to the positive value with weight 0, scale 0 and the single
/// digit 0, whatever its sign flag and scale.
pub proof fn lemma_zero_canonical(negative: bool, scale: nat)
    ensures
        encode_model(negative, 0, scale) == (NumericModel::Positive {
            weight: 0,
            scale: 0,
            digits: seq![0],
        }),
{
}

/// `b^(x + y) == b^x * b^y`.
pub proof fn lemma_pow_add(b: nat, x: nat, y: nat)
    ensures
        pow(b, x + y) == pow(b, x) * pow(b, y),
    decreases x,
{
    if x > 0 {
        let x1 = (x - 1) as nat;
        lemma_pow_add(b, x1, y);
        assert(pow(b, x + y) == b * pow(b, x1 + y));
        assert(b * (pow(b, x1) * pow(b, y)) == (b * pow(b, x1)) * pow(b, y)) by (nonlinear_arith);
    } else {
        assert(pow(b, 0) == 1);
    }
}

/// `10000^t == 10^(4t)`.
pub proof fn lemma_pow_10000(t: nat)
    ensures
        pow(10000, t) == pow(10, 4 * t),
    decreases t,
{
    if t > 0 {
        let t1 = (t - 1) as nat;
        lemma_pow_10000(t1);
        lemma_pow_add(10, 4, 4 * t1);
        reveal_with_fuel(pow, 5);
        assert(4 + 4 * t1 == 4 * t);
    }
}

/// Trimming trailing zeros divides the value of the digits by a power of
/// 10000, and keeps every digit before position `from`.
pub proof fn lemma_trim_zeros(s: Seq<int>, from: int)
    ensures
        trim_zeros(s, from).len() <= s.len(),
        from <= s.len() ==> trim_zeros(s, from).len() >= from,
        digits_value(s) == digits_value(trim_zeros(s, from)) * pow(
            10000,
            (s.len() - trim_zeros(s, from).len()) as nat,
        ),
    decreases s.len(),
{
    let r = trim_zeros(s, from);
    if s.len() > 0 && s.len() - 1 >= from && s.last() == 0 {
        let s1 = s.drop_last();
        lemma_trim_zeros(s1, from);
        let k = (s1.len() - r.len()) as nat;
        assert((s.len() - r.len()) as nat == k + 1);
        assert(pow(10000, k + 1) == 10000 * pow(10000, k));
        let v = digits_value(r);
        let p = pow(10000, k);
        assert(r == trim_zeros(s1, from));
        assert(digits_value(s) == digits_value(s1) * 10000 + s.last());
        assert(v * p * 10000 == v * (10000 * p)) by (nonlinear_arith);
    } else {
        assert(r == s);
        assert(pow(10000, 0) == 1);
        assert(digits_value(s) * 1 == digits_value(s));
    }
}

/// Decoding the wire value of a decimal gives back a decimal of the same
/// value, with a scale that is never negative; a non-zero value keeps its
/// sign. Only the scale may differ, as the wire scale is not consulted.
pub proof fn lemma_value_round_trip(negative: bool, mag: nat, scale: nat)
    ensures
        ({
            let m = decode_model(encode_model(negative, mag, scale));
            &&& m.scale >= 0
            &&& m.magnitude * pow(10, scale) == mag * pow(10, m.scale as nat)
            &&& mag > 0 ==> m.negative == negative
        }),
{
    let m = decode_model(encode_model(negative, mag, scale));
    if mag == 0 {
        assert(seq![0int].drop_last() =~= seq![]);
        assert(digits_value(seq![]) == 0);
        assert(digits_value(seq![0int]) == 0);
        assert(m.magnitude == 0 && m.scale == 0);
    } else {
        let be = aligned_digits(mag, scale);
        let l = be.len() as int;
        let dad = scale / 4 + 1;
        let from = encoded_weight(mag, scale) + 1;
        let r = encoded_digits(mag, scale);
        lemma_trim_zeros(be, from);
        let count = r.len() as int;
        let t = (l - count) as nat;
        let big_m = digits_value(r);
        assert(m.scale == decoded_scale(encoded_weight(mag, scale), count));
        assert(m.scale == 4 * dad - 4 * t);
        let ds = m.scale as nat;
        let pad = pad_steps(scale);
        assert(pad + scale == 4 * dad);
        lemma_digits_value_of_digits(aligned(mag, scale));
        lemma_pow_10000(t);
        // digits_value(be) == mag * 10^pad == big_m * 10^(4t)
        lemma_pow_add(10, pad, scale);
        lemma_pow_add(10, ds, 4 * t);
        assert(ds + 4 * t == pad + scale);
        let a = pow(10, 4 * t);
        let ps = pow(10, scale);
        let pp = pow(10, pad);
        let pd = pow(10, ds);
        assert(big_m * a == mag * pp);
        assert(pow(10, pad + scale) == pp * ps);
        assert(pow(10, ds + 4 * t) == pd * a);
        lemma_pow_positive(10, 4 * t);
        assert(big_m >= 0) by (nonlinear_arith)
            requires
                big_m * a == mag * pp,
                a > 0,
        ;
        assert(m.magnitude == big_m);
        assert(big_m * ps == mag * pd) by (nonlinear_arith)
            requires
                big_m * a == mag * pp,
                pp * ps == pd * a,
                a > 0,
        ;
    }
}

/// Powers of a positive base are positive.
pub proof fn lemma_pow_positive(b: nat, e: nat)
    requires
        b > 0,
    ensures
        pow(b, e) > 0,
    decreases e,
{
    if e > 0 {
        lemma_pow_positive(b, (e - 1) as nat);
        let p = pow(b, (e - 1) as nat);
        assert(b * p > 0) by (nonlinear_arith)
            requires
                b > 0,
                p > 0,
        ;
    }
}

} // verus!
