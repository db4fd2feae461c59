//! `Dec`: a signed fixed-point rate with twelve decimal places, as far as
//! amounts use it.

use crate::amount::{div_ceil, Amount, AmountParseError};
use crate::denominated::{raise_spec, DenominatedAmount, Denomination};
use crate::decimal::parse_spec;
use crate::uint::{
    checked_pow10, lemma_words_value, max_value, pow10, u256_checked_add, u256_checked_mul,
    u256_div_mod, Uint,
};
use vstd::prelude::*;
use vstd::string::StrSliceExecFns;

verus! {

/// Decimal places of a `Dec`.
pub const POS_DECIMAL_PRECISION: u8 = 12;

/// `±abs * 10^-12`.
#[derive(Clone, Copy, Debug, PartialEq, Eq, Hash)]
pub struct Dec {
    pub negative: bool,
    pub abs: Uint,
}

/// 10^12 fits in 256 bits.
proof fn lemma_pow10_precision()
    ensures
        pow10(POS_DECIMAL_PRECISION as nat) == 1_000_000_000_000,
{
    reveal_with_fuel(pow10, 13);
}

impl Dec {
    /// The sign counts only for a non-zero magnitude.
    pub open spec fn is_negative_spec(&self) -> bool {
        self.negative && self.abs@ > 0
    }

    pub fn is_negative(&self) -> (r: bool)
        ensures
            r == self.is_negative_spec(),
    {
        self.negative && !self.abs.is_zero()
    }

    /// The magnitude, in units of 10^-12.
    pub fn abs(&self) -> (r: Uint)
        ensures
            r == self.abs,
    {
        self.abs
    }

    /// Reads an optional `-` and a decimal of at most twelve places.
    pub fn from_str(s: &str) -> (r: Result<Dec, AmountParseError>)
        ensures
            ({
                let neg = s@.len() > 0 && s@[0] == '-';
                let digits = if neg {
                    s@.subrange(1, s@.len() as int)
                } else {
                    s@
                };
                match parse_spec(digits) {
                    Err(e) => r == Err::<Dec, AmountParseError>(e),
                    Ok((m, d)) => match raise_spec(m, d, POS_DECIMAL_PRECISION as nat) {
                        Ok(v) => r matches Ok(x) && x.abs@ == v && x.negative == neg,
                        Err(e) => r == Err::<Dec, AmountParseError>(e),
                    },
                }
            }),
    {
        let n = s.unicode_len();
        let neg = n > 0 && s.get_char(0) == '-';
        let digits = if neg {
            s.substring_char(1, n)
        } else {
            s
        };
        match DenominatedAmount::from_str(digits) {
            Ok(x) => match x.increase_precision(Denomination(POS_DECIMAL_PRECISION)) {
                Ok(y) => Ok(Dec { negative: neg, abs: y.amount.raw }),
                Err(e) => Err(e),
            },
            Err(e) => Err(e),
        }
    }
}

impl Amount {
    /// Multiplies by a non-negative rate, rounding up to a whole micro-unit.
    pub fn mul_ceil(&self, dec: Dec) -> (r: Amount)
        requires
            !dec.is_negative_spec(),
            self@ * dec.abs@ <= max_value(),
        ensures
            r@ == div_ceil(self@ * dec.abs@, pow10(POS_DECIMAL_PRECISION as nat)),
    {
        proof {
            lemma_pow10_precision();
        }
        let tot = u256_checked_mul(self.raw, dec.abs()).unwrap();
        let denom = checked_pow10(POS_DECIMAL_PRECISION).unwrap();
        let (floor_div, rem) = u256_div_mod(tot, denom);
        proof {
            let p = pow10(POS_DECIMAL_PRECISION as nat);
            vstd::arithmetic::div_mod::lemma_fundamental_div_mod(tot@ as int, p as int);
            vstd::arithmetic::div_mod::lemma_mod_bound(tot@ as int, p as int);
            if rem@ > 0 {
                assert(floor_div@ + 1 <= tot@) by (nonlinear_arith)
                    requires
                        tot@ == p * floor_div@ + rem@,
                        rem@ > 0,
                        rem@ < p,
                ;
                lemma_words_value(tot.0, tot.0);
            }
        }
        let raw = if !rem.is_zero() {
            u256_checked_add(floor_div, Uint::one()).unwrap()
        } else {
            floor_div
        };
        Amount { raw }
    }

    /// The whole micro-units of a non-negative rate: the magnitude with
    /// its twelve decimal places cut off.
    pub fn from_dec(dec: Dec) -> (r: Amount)
        requires
            !dec.is_negative_spec(),
        ensures
            r@ == dec.abs@ / pow10(POS_DECIMAL_PRECISION as nat),
    {
        proof {
            lemma_pow10_precision();
        }
        let denom = checked_pow10(POS_DECIMAL_PRECISION).unwrap();
        let (q, _) = u256_div_mod(dec.abs, denom);
        Amount { raw: q }
    }
}

} // verus!
