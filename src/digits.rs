//! Base-10000 digits of an unsigned integer, least significant first.
use vstd::prelude::*;

use crate::bignum::{big_div_rem, big_is_zero, big_to_i16, limbs_value, pow};

verus! {

/// The base-10000 digits of `n`, least significant first. Zero has the
/// single digit `0`; no other value has a most significant digit of `0`.
pub open spec fn digits_le(n: nat) -> Seq<int>
    decreases n,
{
    if n < 10000 {
        seq![n as int]
    } else {
        seq![(n % 10000) as int] + digits_le(n / 10000)
    }
}

/// Every base-10000 digit lies in `[0, 9999]`.
pub proof fn lemma_digits_in_range(n: nat)
    ensures
        forall|i: int| 0 <= i < digits_le(n).len() ==> 0 <= #[trigger] digits_le(n)[i] < 10000,
    decreases n,
{
    if n >= 10000 {
        lemma_digits_in_range(n / 10000);
        assert forall|i: int| 0 <= i < digits_le(n).len() implies 0 <= #[trigger] digits_le(n)[i]
            < 10000 by {
            if i > 0 {
                assert(digits_le(n)[i] == digits_le(n / 10000)[i - 1]);
            }
        }
    }
}

/// A value below `10000^k` (with `k >= 1`) has at most `k` digits.
pub proof fn lemma_digits_len_bound(n: nat, k: nat)
    requires
        k >= 1,
        n < pow(10000, k),
    ensures
        1 <= digits_le(n).len() <= k,
    decreases n,
{
    if n >= 10000 {
        let k1 = (k - 1) as nat;
        if k1 == 0 {
            assert(pow(10000, 0) == 1);
            assert(false);
        }
        assert(n / 10000 < pow(10000, k1)) by (nonlinear_arith)
            requires
                n < 10000 * pow(10000, k1),
        ;
        lemma_digits_len_bound(n / 10000, k1);
    }
}

/// A finite, consuming producer of the base-10000 digits of an unsigned
/// integer, least significant digit first.
pub struct ToBase10000 {
    rest: Option<Vec<u32>>,
}

impl ToBase10000 {
    /// The digits that are still to come.
    pub closed spec fn remaining(&self) -> Seq<int> {
        match self.rest {
            None => seq![],
            Some(v) => digits_le(limbs_value(v@)),
        }
    }

    /// Starts on the digits of the number held in the limbs `n`.
    pub fn new(n: Vec<u32>) -> (r: Self)
        ensures
            r.remaining() == digits_le(limbs_value(n@)),
    {
        ToBase10000 { rest: Some(n) }
    }

    /// Hands out the next digit, or `None` once all have been handed out.
    pub fn next(&mut self) -> (r: Option<i16>)
        ensures
            old(self).remaining().len() == 0 ==> r.is_none() && final(self).remaining()
                == old(self).remaining(),
            old(self).remaining().len() > 0 ==> r == Some(old(self).remaining()[0] as i16)
                && final(self).remaining() == old(self).remaining().drop_first(),
    {
        let cur = self.rest.take();
        match cur {
            None => None,
            Some(v) => {
                let ghost n = limbs_value(v@);
                let (div, rem) = big_div_rem(&v, 10000);
                if !big_is_zero(&div) {
                    self.rest = Some(div);
                }
                proof {
                    if n >= 10000 {
                        assert(n / 10000 >= 1);
                        assert(digits_le(n).drop_first() == digits_le(n / 10000));
                    } else {
                        assert(digits_le(n).drop_first() =~= seq![]);
                    }
                }
                match big_to_i16(&rem) {
                    Some(d) => Some(d),
                    None => {
                        proof {
                            assert(false);
                        }
                        None
                    },
                }
            },
        }
    }
}

} // verus!
