//! The NUMERIC wire value, the decimal value, and the conversions between them.
use vstd::prelude::*;

use crate::bignum::{
    big_add, big_is_zero, big_mul, lemma_limb_pow_bound, lemma_limbs_value_bound, limbs_value, pow,
};
use crate::digits::{digits_le, lemma_digits_in_range, lemma_digits_len_bound, ToBase10000};

verus! {

/// A NUMERIC value as it travels on the wire: a sign tag, the weight (the
/// power of 10000 of the first digit), the display scale, and base-10000
/// digits, most significant first.
#[derive(Debug, Clone, PartialEq, Eq)]
pub enum PgNumeric {
    Positive { weight: i16, scale: u16, digits: Vec<i16> },
    Negative { weight: i16, scale: u16, digits: Vec<i16> },
    NaN,
}

/// The mathematical content of a [`PgNumeric`].
pub enum NumericModel {
    Positive { weight: int, scale: int, digits: Seq<int> },
    Negative { weight: int, scale: int, digits: Seq<int> },
    NaN,
}

/// An arbitrary-precision decimal: `(-1)^negative * magnitude * 10^(-scale)`.
/// The magnitude is held as base 2^32 limbs, least significant first; a zero
/// magnitude is zero whatever the sign flag says.
#[derive(Debug, Clone, PartialEq, Eq)]
pub struct Decimal {
    pub negative: bool,
    pub magnitude: Vec<u32>,
    pub scale: i64,
}

/// The mathematical content of a [`Decimal`].
pub struct DecimalModel {
    pub negative: bool,
    pub magnitude: nat,
    pub scale: int,
}

/// Why a wire value could not be turned into a decimal.
#[derive(Debug, Clone, Copy, PartialEq, Eq, Structural)]
pub enum DecodeError {
    /// The wire value is `NaN`, which a decimal cannot hold.
    UnsupportedValue,
}

/// Digits widened to mathematical integers.
pub open spec fn ints(s: Seq<i16>) -> Seq<int> {
    s.map_values(|d: i16| d as int)
}

impl View for PgNumeric {
    type V = NumericModel;

    open spec fn view(&self) -> NumericModel {
        match self {
            PgNumeric::Positive { weight, scale, digits } => NumericModel::Positive {
                weight: *weight as int,
                scale: *scale as int,
                digits: ints(digits@),
            },
            PgNumeric::Negative { weight, scale, digits } => NumericModel::Negative {
                weight: *weight as int,
                scale: *scale as int,
                digits: ints(digits@),
            },
            PgNumeric::NaN => NumericModel::NaN,
        }
    }
}

impl View for Decimal {
    type V = DecimalModel;

    open spec fn view(&self) -> DecimalModel {
        DecimalModel {
            negative: self.negative,
            magnitude: limbs_value(self.magnitude@),
            scale: self.scale as int,
        }
    }
}

/// Every digit lies in `[0, 9999]`, and there are no more digits than the
/// wire's 16-bit digit count can hold.
pub open spec fn digits_wf(s: Seq<int>) -> bool {
    &&& s.len() <= i16::MAX
    &&& forall|i: int| 0 <= i < s.len() ==> 0 <= #[trigger] s[i] < 10000
}

impl PgNumeric {
    /// A well-formed wire value.
    pub open spec fn wf(&self) -> bool {
        match self@ {
            NumericModel::Positive { digits, .. } => digits_wf(digits),
            NumericModel::Negative { digits, .. } => digits_wf(digits),
            NumericModel::NaN => true,
        }
    }
}

/// How many times the magnitude is multiplied by ten so that the decimal
/// point falls on a base-10000 digit boundary.
pub open spec fn pad_steps(scale: nat) -> nat {
    (4 - scale % 4) as nat
}

/// The magnitude moved onto a digit boundary.
pub open spec fn aligned(mag: nat, scale: nat) -> nat {
    mag * pow(10, pad_steps(scale))
}

/// Base-10000 digits of the aligned magnitude, most significant first.
pub open spec fn aligned_digits(mag: nat, scale: nat) -> Seq<int> {
    digits_le(aligned(mag, scale)).reverse()
}

/// The weight given to a non-zero magnitude.
pub open spec fn encoded_weight(mag: nat, scale: nat) -> int {
    aligned_digits(mag, scale).len() - (scale / 4 + 1) - 1
}

/// `s` without the trailing zeros that stand at position `from` or later.
pub open spec fn trim_zeros(s: Seq<int>, from: int) -> Seq<int>
    decreases s.len(),
{
    if s.len() > 0 && s.len() - 1 >= from && s.last() == 0 {
        trim_zeros(s.drop_last(), from)
    } else {
        s
    }
}

/// The digits given to a non-zero magnitude.
pub open spec fn encoded_digits(mag: nat, scale: nat) -> Seq<int> {
    trim_zeros(aligned_digits(mag, scale), encoded_weight(mag, scale) + 1)
}

/// The wire value of the decimal `(-1)^negative * mag * 10^(-scale)`.
pub open spec fn encode_model(negative: bool, mag: nat, scale: nat) -> NumericModel {
    if mag == 0 {
        NumericModel::Positive { weight: 0, scale: 0, digits: seq![0] }
    } else if negative {
        NumericModel::Negative {
            weight: encoded_weight(mag, scale),
            scale: scale as int,
            digits: encoded_digits(mag, scale),
        }
    } else {
        NumericModel::Positive {
            weight: encoded_weight(mag, scale),
            scale: scale as int,
            digits: encoded_digits(mag, scale),
        }
    }
}

/// The number that base-10000 digits stand for, most significant first.
pub open spec fn digits_value(s: Seq<int>) -> int
    decreases s.len(),
{
    if s.len() == 0 {
        0
    } else {
        digits_value(s.drop_last()) * 10000 + s.last()
    }
}

/// The decimal scale of a value whose first digit has the given weight:
/// the accumulated digits are worth `10000^(count - 1 - weight)` too much.
pub open spec fn decoded_scale(weight: int, count: int) -> int {
    -4 * (weight - count + 1)
}

/// The decimal that a signed wire value stands for.
pub open spec fn decode_model(n: NumericModel) -> DecimalModel {
    match n {
        NumericModel::Positive { weight, digits, .. } => DecimalModel {
            negative: false,
            magnitude: digits_value(digits) as nat,
            scale: decoded_scale(weight, digits.len() as int),
        },
        NumericModel::Negative { weight, digits, .. } => DecimalModel {
            negative: true,
            magnitude: digits_value(digits) as nat,
            scale: decoded_scale(weight, digits.len() as int),
        },
        NumericModel::NaN => DecimalModel { negative: false, magnitude: 0, scale: 0 },
    }
}

/// The most limbs that a magnitude may have for its wire weight to fit in 16 bits.
pub const MAX_LIMBS: usize = 10000;

/// Base-10000 digits of the number held in `n`, most significant first.
fn digits_be(n: Vec<u32>) -> (r: Vec<i16>)
    requires
        limbs_value(n@) < pow(10000, 30001),
    ensures
        ints(r@) == digits_le(limbs_value(n@)).reverse(),
        1 <= r@.len() <= 30001,
{
    let ghost all = digits_le(limbs_value(n@));
    proof {
        lemma_digits_in_range(limbs_value(n@));
        lemma_digits_len_bound(limbs_value(n@), 30001);
    }
    let mut it = ToBase10000::new(n);
    let mut le: Vec<i16> = Vec::new();
    loop
        invariant
            ints(le@) + it.remaining() == all,
            forall|i: int| 0 <= i < all.len() ==> 0 <= #[trigger] all[i] < 10000,
        ensures
            ints(le@) == all,
        decreases it.remaining().len(),
    {
        let ghost before = it.remaining();
        match it.next() {
            Some(d) => {
                proof {
                    assert(all[le@.len() as int] == before[0]);
                }
                le.push(d);
                assert(ints(le@) + it.remaining() =~= all);
            },
            None => {
                assert(before =~= seq![]);
                assert(ints(le@) =~= all);
                break ;
            },
        }
    }
    let mut be: Vec<i16> = Vec::new();
    let mut i: usize = le.len();
    while i > 0
        invariant
            i <= le@.len(),
            be@.len() == le@.len() - i,
            forall|j: int| 0 <= j < be@.len() ==> #[trigger] be@[j] == le@[le@.len() - 1 - j],
        decreases i,
    {
        i = i - 1;
        be.push(le[i]);
    }
    assert(ints(be@) =~= ints(le@).reverse());
    be
}

/// Removing trailing zeros from a prefix whose next element would also go
/// reaches the same result as removing them from the whole.
proof fn lemma_trim_step(s: Seq<int>, from: int, keep: int)
    requires
        0 < keep <= s.len(),
        keep - 1 >= from,
        s[keep - 1] == 0,
    ensures
        trim_zeros(s.subrange(0, keep), from) == trim_zeros(s.subrange(0, keep - 1), from),
{
    assert(s.subrange(0, keep).drop_last() =~= s.subrange(0, keep - 1));
}

impl PgNumeric {
    /// The wire value of a decimal. Zero becomes `Positive` with weight 0,
    /// scale 0 and the single digit 0; any other value keeps its scale, takes
    /// its sign as the tag, and has its digits aligned so that the decimal
    /// point falls on a digit boundary, without the zero digits that the
    /// alignment added after it.
    pub fn from_decimal(decimal: &Decimal) -> (r: PgNumeric)
        requires
            0 <= decimal.scale <= u16::MAX,
            decimal.magnitude@.len() <= MAX_LIMBS,
        ensures
            r@ == encode_model(decimal.negative, decimal@.magnitude, decimal.scale as nat),
            r.wf(),
    {
        let ghost mag = decimal@.magnitude;
        if big_is_zero(&decimal.magnitude) {
            let digits: Vec<i16> = vec![0];
            let r = PgNumeric::Positive { weight: 0, scale: 0, digits };
            assert(ints(digits@) =~= seq![0int]);
            return r;
        }
        let scale: u16 = decimal.scale as u16;
        let ghost sc = scale as nat;
        let mut integer: Vec<u32> = decimal.magnitude.clone();
        let steps: u16 = 4 - scale % 4;
        let mut i: u16 = 0;
        assert(pow(10, 0) == 1);
        while i < steps
            invariant
                i <= steps,
                limbs_value(integer@) == mag * pow(10, i as nat),
            decreases steps - i,
        {
            integer = big_mul(&integer, 10);
            proof {
                assert(pow(10, (i + 1) as nat) == 10 * pow(10, i as nat));
                assert(mag * pow(10, (i + 1) as nat) == mag * pow(10, i as nat) * 10) by (nonlinear_arith)
                    requires
                        pow(10, (i + 1) as nat) == 10 * pow(10, i as nat),
                ;
            }
            i = i + 1;
        }
        proof {
            let l = decimal.magnitude@.len();
            lemma_limbs_value_bound(decimal.magnitude@);
            lemma_limb_pow_bound(l);
            reveal_with_fuel(pow, 5);
            assert(pow(10, steps as nat) <= 10000);
            assert(pow(10000, 3 * l + 1) == 10000 * pow(10000, 3 * l));
            let p = pow(10000, 3 * l);
            assert(mag * pow(10, steps as nat) < pow(10000, 3 * l + 1)) by (nonlinear_arith)
                requires
                    mag < p,
                    pow(10, steps as nat) <= 10000,
                    pow(10000, 3 * l + 1) == 10000 * p,
            ;
            lemma_pow_mono(10000, 3 * l + 1, 30001);
        }
        let mut digits = digits_be(integer);
        let digits_after_decimal: u16 = scale / 4 + 1;
        let weight: i16 = digits.len() as i16 - digits_after_decimal as i16 - 1;
        let index_of_decimal: i16 = weight + 1;
        let ghost full = ints(digits@);
        let mut keep: usize = digits.len();
        assert(full.subrange(0, keep as int) =~= full);
        while keep > 0 && keep as i64 - 1 >= index_of_decimal as i64 && digits[keep - 1] == 0
            invariant
                keep <= digits@.len(),
                digits@.len() <= 30001,
                full == ints(digits@),
                trim_zeros(full, index_of_decimal as int) == trim_zeros(
                    full.subrange(0, keep as int),
                    index_of_decimal as int,
                ),
            decreases keep,
        {
            proof {
                lemma_trim_step(full, index_of_decimal as int, keep as int);
            }
            keep = keep - 1;
        }
        digits.truncate(keep);
        assert(ints(digits@) =~= full.subrange(0, keep as int));
        proof {
            lemma_digits_in_range(aligned(mag, sc));
            assert forall|j: int| 0 <= j < digits@.len() implies 0 <= #[trigger] ints(digits@)[j]
                < 10000 by {
                assert(ints(digits@)[j] == full[j]);
                assert(full[j] == digits_le(aligned(mag, sc))[full.len() - 1 - j]);
            }
        }
        if decimal.negative {
            PgNumeric::Negative { digits, scale, weight }
        } else {
            PgNumeric::Positive { digits, scale, weight }
        }
    }
}

/// The number that base-10000 digits stand for, accumulated most significant
/// first into limbs.
fn accumulate(digits: &Vec<i16>) -> (r: Vec<u32>)
    requires
        digits_wf(ints(digits@)),
    ensures
        limbs_value(r@) == digits_value(ints(digits@)),
{
    let ghost ds = ints(digits@);
    let mut result: Vec<u32> = Vec::new();
    let mut i: usize = 0;
    assert(ds.subrange(0, 0) =~= seq![]);
    while i < digits.len()
        invariant
            i <= digits@.len(),
            ds == ints(digits@),
            digits_wf(ds),
            limbs_value(result@) == digits_value(ds.subrange(0, i as int)),
        decreases digits@.len() - i,
    {
        let digit = digits[i];
        assert(ds[i as int] == digit as int);
        assert(ds.subrange(0, i + 1).drop_last() =~= ds.subrange(0, i as int));
        result = big_mul(&result, 10000);
        result = big_add(&result, digit as u32);
        i = i + 1;
    }
    assert(ds.subrange(0, i as int) =~= ds);
    result
}

impl Decimal {
    /// The decimal that a wire value stands for: its digits read as one
    /// number, with the scale that puts the first digit at `10000^weight`.
    /// The wire scale is not consulted, so zero digits kept after the
    /// decimal point become trailing decimal zeros. `NaN` is refused.
    pub fn from_numeric(numeric: &PgNumeric) -> (r: Result<Decimal, DecodeError>)
        requires
            numeric.wf(),
        ensures
            numeric@ is NaN ==> r == Err::<Decimal, DecodeError>(DecodeError::UnsupportedValue),
            !(numeric@ is NaN) ==> r is Ok && r->Ok_0@ == decode_model(numeric@),
    {
        let (negative, weight, digits) = match numeric {
            PgNumeric::Positive { weight, digits, .. } => (false, *weight, digits),
            PgNumeric::Negative { weight, digits, .. } => (true, *weight, digits),
            PgNumeric::NaN => {
                return Err(DecodeError::UnsupportedValue);
            },
        };
        let magnitude = accumulate(digits);
        let count: i64 = digits.len() as i64;
        let correction_exp: i64 = 4 * (weight as i64 - count + 1);
        Ok(Decimal { negative, magnitude, scale: -correction_exp })
    }
}

/// Powers of a base of at least one grow with the exponent.
proof fn lemma_pow_mono(b: nat, e1: nat, e2: nat)
    requires
        b >= 1,
        e1 <= e2,
    ensures
        pow(b, e1) <= pow(b, e2),
    decreases e2,
{
    if e1 < e2 {
        let e = (e2 - 1) as nat;
        lemma_pow_mono(b, e1, e);
        let p = pow(b, e);
        assert(p <= b * p) by (nonlinear_arith)
            requires
                b >= 1,
        ;
    }
}

} // verus!
