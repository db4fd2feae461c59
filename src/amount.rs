//! `Amount`: a count of the smallest indivisible unit of a token, with
//! arithmetic that never wraps silently.

use crate::uint::{
    checked_pow10, dec_str, max_signed_value, max_value, pow10, u256_checked_add, u256_checked_mul,
    lemma_words_value, u256_checked_sub, u256_div_mod, word_base, Uint,
};
use vstd::prelude::*;

verus! {

/// Decimal places of the native token.
pub const NATIVE_MAX_DECIMAL_PLACES: u8 = 6;

/// 10^6: micro-units in one native token.
pub const NATIVE_SCALE: u64 = 1_000_000;

/// Errors met while reading or scaling an amount.
#[derive(Clone, Copy, Debug, PartialEq, Eq)]
pub enum AmountParseError {
    /// Too many decimal digits: the count found, and the most allowed.
    ScaleTooLarge(u32, u8),
    /// The value is not within the representable range.
    InvalidRange,
    /// Scaling to an integer passed 256 bits.
    ConvertToDecimal,
    /// The string is not an unsigned 256-bit integer.
    FromString,
    /// The string is not a correctly formatted number.
    NotNumeric,
    /// Raising the precision passed 256 bits.
    PrecisionOverflow,
    /// More precision was given than requested.
    PrecisionDecrease,
}

/// Amount in micro units.
#[derive(Clone, Copy, Debug, PartialEq, Eq, Hash, Default)]
pub struct Amount {
    pub raw: Uint,
}

impl View for Amount {
    type V = nat;

    open spec fn view(&self) -> nat {
        self.raw@
    }
}

/// A signed change of an amount: a sign and a magnitude of at most 2^255 - 1.
#[derive(Clone, Copy, Debug, PartialEq, Eq, Hash)]
pub struct Change {
    pub negative: bool,
    pub magnitude: Uint,
}

impl Change {
    pub open spec fn wf(&self) -> bool {
        self.magnitude@ <= max_signed_value() && (self.negative ==> self.magnitude@ > 0)
    }

    /// The signed value.
    pub open spec fn value(&self) -> int {
        if self.negative {
            -(self.magnitude@ as int)
        } else {
            self.magnitude@ as int
        }
    }

    /// A change of `magnitude`, negative when `negative` holds and the
    /// magnitude is not zero.
    pub fn new(negative: bool, magnitude: Amount) -> (r: Change)
        requires
            magnitude@ <= max_signed_value(),
        ensures
            r.wf(),
            r.value() == if negative {
                -(magnitude@ as int)
            } else {
                magnitude@ as int
            },
    {
        Change { negative: negative && !magnitude.raw.is_zero(), magnitude: magnitude.raw }
    }

    pub fn is_negative(&self) -> (r: bool)
        ensures
            r == (self.value() < 0),
    {
        self.negative && !self.magnitude.is_zero()
    }

    /// The magnitude.
    pub open spec fn abs_spec(&self) -> Amount {
        Amount { raw: self.magnitude }
    }

    pub fn abs(&self) -> (r: Amount)
        ensures
            r == self.abs_spec(),
            r@ as int == if self.value() < 0 {
                -self.value()
            } else {
                self.value()
            },
    {
        Amount { raw: self.magnitude }
    }
}

/// `ceil(n / d)`.
pub open spec fn div_ceil(n: nat, d: nat) -> nat
    recommends
        d > 0,
{
    if n % d == 0 {
        n / d
    } else {
        n / d + 1
    }
}

impl Amount {
    /// An amount of `x` micro-units.
    pub fn from_u64(x: u64) -> (r: Amount)
        ensures
            r@ == x as nat,
    {
        Amount { raw: Uint::from_u64(x) }
    }

    /// An amount of `x` micro-units.
    pub fn from_u128(x: u128) -> (r: Amount)
        ensures
            r@ == x as nat,
    {
        Amount { raw: Uint::from_u128(x) }
    }

    /// An amount of the given magnitude.
    pub fn from_raw(raw: Uint) -> (r: Amount)
        ensures
            r@ == raw@,
    {
        Amount { raw }
    }

    /// The amount as a non-negative change; it must fit a signed 256-bit integer.
    pub fn change(&self) -> (r: Change)
        requires
            self@ <= max_signed_value(),
        ensures
            r.wf(),
            r.value() == self@ as int,
    {
        Change::new(false, *self)
    }

    /// Spend `amount`, which must not exceed what is held.
    pub fn spend(&mut self, amount: &Amount)
        requires
            amount@ <= old(self)@,
        ensures
            final(self)@ == old(self)@ - amount@,
    {
        self.raw = u256_checked_sub(self.raw, amount.raw).unwrap();
    }

    /// Whether there is enough to spend `amount`.
    pub fn can_spend(&self, amount: &Amount) -> (r: bool)
        ensures
            r == (self@ >= amount@),
    {
        amount.raw.is_at_most(&self.raw)
    }

    /// Receive `amount`; the sum must not pass 2^256 - 1.
    pub fn receive(&mut self, amount: &Amount)
        requires
            old(self)@ + amount@ <= max_value(),
        ensures
            final(self)@ == old(self)@ + amount@,
    {
        self.raw = u256_checked_add(self.raw, amount.raw).unwrap();
    }

    /// An amount of `amount` whole native tokens.
    pub fn native_whole(amount: u64) -> (r: Amount)
        ensures
            r@ == amount as nat * NATIVE_SCALE as nat,
    {
        assert(amount as nat * NATIVE_SCALE as nat <= u64::MAX as nat * 1_000_000) by (nonlinear_arith)
            requires amount as nat <= u64::MAX as nat, NATIVE_SCALE == 1_000_000u64;
        let wide: u128 = amount as u128 * NATIVE_SCALE as u128;
        Amount::from_u128(wide)
    }

    /// The magnitude.
    pub fn raw_amount(&self) -> (r: Uint)
        ensures
            r@ == self@,
    {
        self.raw
    }

    /// The largest amount, 2^256 - 1.
    pub fn max() -> (r: Amount)
        ensures
            r@ == max_value(),
    {
        let m = u64::MAX;
        Amount { raw: Uint([m, m, m, m]) }
    }

    /// The largest amount that a signed change holds, 2^255 - 1.
    pub fn max_signed() -> (r: Amount)
        ensures
            r@ == max_signed_value(),
    {
        let m = u64::MAX;
        Amount { raw: Uint([m, m, m, 0x7fff_ffff_ffff_ffffu64]) }
    }

    pub fn zero() -> (r: Amount)
        ensures
            r@ == 0,
    {
        Amount { raw: Uint::zero() }
    }

    pub fn is_zero(&self) -> (r: bool)
        ensures
            r == (self@ == 0),
    {
        self.raw.is_zero()
    }

    /// The sum, or `None` where it passes 2^256 - 1.
    pub fn checked_add(&self, amount: Amount) -> (r: Option<Amount>)
        ensures
            match r {
                Some(s) => s@ == self@ + amount@ && self@ + amount@ <= max_value(),
                None => self@ + amount@ > max_value(),
            },
    {
        match u256_checked_add(self.raw, amount.raw) {
            Some(s) => {
                proof {
                    lemma_words_value(s.0, s.0);
                }
                Some(Amount { raw: s })
            },
            None => None,
        }
    }

    /// The sum, or `None` where it passes 2^255 - 1, the most that a signed
    /// change holds.
    pub fn checked_signed_add(&self, amount: Amount) -> (r: Option<Amount>)
        ensures
            match r {
                Some(s) => s@ == self@ + amount@ && self@ + amount@ <= max_signed_value(),
                None => self@ + amount@ > max_signed_value(),
            },
    {
        let limit = Amount::max_signed();
        match u256_checked_add(self.raw, amount.raw) {
            Some(s) => {
                if s.is_at_most(&limit.raw) {
                    Some(Amount { raw: s })
                } else {
                    None
                }
            },
            None => None,
        }
    }

    /// The difference, or `None` below zero.
    pub fn checked_sub(&self, amount: Amount) -> (r: Option<Amount>)
        ensures
            match r {
                Some(s) => s@ == self@ - amount@ && amount@ <= self@,
                None => self@ < amount@,
            },
    {
        match u256_checked_sub(self.raw, amount.raw) {
            Some(s) => Some(Amount { raw: s }),
            None => None,
        }
    }

    /// The magnitude of a change: its sign is lost.
    pub fn from_change(change: Change) -> (r: Amount)
        ensures
            r@ as int == if change.value() < 0 {
                -change.value()
            } else {
                change.value()
            },
    {
        change.abs()
    }

    /// The truncated quotient, or `None` for a zero divisor.
    pub fn checked_div(&self, amount: Amount) -> (r: Option<Amount>)
        ensures
            match r {
                Some(q) => amount@ > 0 && q@ == self@ / amount@,
                None => amount@ == 0,
            },
    {
        if amount.raw.is_zero() {
            None
        } else {
            let (q, _) = u256_div_mod(self.raw, amount.raw);
            Some(Amount { raw: q })
        }
    }

    /// The product, or `None` where it passes 2^256 - 1.
    pub fn checked_mul(&self, amount: Amount) -> (r: Option<Amount>)
        ensures
            match r {
                Some(p) => p@ == self@ * amount@ && self@ * amount@ <= max_value(),
                None => self@ * amount@ > max_value(),
            },
    {
        match u256_checked_mul(self.raw, amount.raw) {
            Some(p) => {
                proof {
                    lemma_words_value(p.0, p.0);
                }
                Some(Amount { raw: p })
            },
            None => None,
        }
    }

    /// `uint` scaled up by 10^denom, or an error where that passes 256 bits.
    pub fn from_uint(uint: Uint, denom: u8) -> (r: Result<Amount, AmountParseError>)
        ensures
            match r {
                Ok(a) => a@ == uint@ * pow10(denom as nat),
                Err(e) => e == AmountParseError::ConvertToDecimal,
            },
            r.is_ok() == (uint@ * pow10(denom as nat) <= max_value()),
    {
        if denom == 0 {
            proof {
                assert(pow10(0) == 1);
                lemma_words_value(uint.0, uint.0);
            }
            return Ok(Amount { raw: uint });
        }
        match checked_pow10(denom) {
            Some(scaling) => match u256_checked_mul(scaling, uint) {
                Some(a) => {
                    assert(scaling@ * uint@ == uint@ * scaling@) by (nonlinear_arith);
                    Ok(Amount { raw: a })
                },
                None => {
                    assert(scaling@ * uint@ == uint@ * scaling@) by (nonlinear_arith);
                    Err(AmountParseError::ConvertToDecimal)
                },
            },
            None => {
                // 10^denom alone passes 256 bits: only zero still fits.
                if uint.is_zero() {
                    proof {
                        assert(uint@ * pow10(denom as nat) == 0);
                    }
                    Ok(Amount { raw: uint })
                } else {
                    proof {
                        let p = pow10(denom as nat);
                        assert(uint@ * p >= p) by (nonlinear_arith)
                            requires
                                uint@ >= 1,
                        ;
                    }
                    Err(AmountParseError::ConvertToDecimal)
                }
            },
        }
    }
}

impl Amount {
    /// The amount as a `u128`, or `None` where it needs more than 128 bits.
    pub fn to_u128(&self) -> (r: Option<u128>)
        ensures
            match r {
                Some(v) => v as nat == self@,
                None => self@ > u128::MAX as nat,
            },
    {
        let w = self.raw.0;
        proof {
            let b = word_base();
            let (w0, w1, w2, w3) = (w[0] as nat, w[1] as nat, w[2] as nat, w[3] as nat);
            assert(b * b == 0x1_0000_0000_0000_0000_0000_0000_0000_0000nat);
            assert(self@ == w0 + b * w1 + b * b * (w2 + b * w3)) by (nonlinear_arith)
                requires
                    self@ == w0 + b * (w1 + b * (w2 + b * w3)),
            ;
            assert(w0 + b * w1 <= u128::MAX as nat) by (nonlinear_arith)
                requires
                    w0 < b,
                    w1 < b,
                    b == 0x1_0000_0000_0000_0000nat,
            ;
            if w[2] != 0 || w[3] != 0 {
                assert(b * b * (w2 + b * w3) >= b * b) by (nonlinear_arith)
                    requires
                        w2 + b * w3 >= 1,
                ;
            }
        }
        if w[2] != 0 || w[3] != 0 {
            return None;
        }
        let v: u128 = ((w[1] as u128) << 64u32) | (w[0] as u128);
        proof {
            let (lo, hi) = (w[0], w[1]);
            assert(v == ((hi as u128) << 64u32) | (lo as u128));
            assert(v as nat == lo as nat + word_base() * (hi as nat)) by (bit_vector)
                requires
                    v == ((hi as u128) << 64u32) | (lo as u128),
            ;
        }
        Some(v)
    }
}

impl Amount {
    /// The magnitude in decimal, without a decimal point.
    pub fn to_string(&self) -> (r: String)
        ensures
            r@ == dec_str(self@),
    {
        crate::uint::u256_to_dec_string(self.raw)
    }

    /// Euclidean division into a fraction `num / den`: `num * (self / den)`
    /// and the remainder `self % den`.
    pub fn mul_fraction(&self, num: u64, den: u64) -> (r: (Amount, Amount))
        requires
            den > 0,
            (self@ / den as nat) * num as nat <= max_value(),
        ensures
            r.0@ == (self@ / den as nat) * num as nat,
            r.1@ == self@ % den as nat,
    {
        let (q, m) = u256_div_mod(self.raw, Uint::from_u64(den));
        let scaled = u256_checked_mul(q, Uint::from_u64(num)).unwrap();
        (Amount { raw: scaled }, Amount { raw: m })
    }
}

impl PartialOrd for Amount {
    /// Compares the magnitudes.
    fn partial_cmp(&self, other: &Amount) -> (r: Option<std::cmp::Ordering>) {
        if !self.raw.is_at_most(&other.raw) {
            Some(std::cmp::Ordering::Greater)
        } else if !other.raw.is_at_most(&self.raw) {
            Some(std::cmp::Ordering::Less)
        } else {
            proof {
                lemma_words_value(self.raw.0, other.raw.0);
            }
            Some(std::cmp::Ordering::Equal)
        }
    }
}

impl vstd::std_specs::cmp::PartialOrdSpecImpl for Amount {
    open spec fn obeys_partial_cmp_spec() -> bool {
        true
    }

    open spec fn partial_cmp_spec(&self, other: &Amount) -> Option<std::cmp::Ordering> {
        Some(
            if self@ < other@ {
                std::cmp::Ordering::Less
            } else if self@ == other@ {
                std::cmp::Ordering::Equal
            } else {
                std::cmp::Ordering::Greater
            },
        )
    }
}

impl From<u64> for Amount {
    /// An amount of `val` micro-units.
    fn from(val: u64) -> (r: Amount)
        ensures
            r@ == val as nat,
    {
        Amount { raw: Uint([val, 0u64, 0u64, 0u64]) }
    }
}

impl vstd::std_specs::convert::FromSpecImpl<u64> for Amount {
    open spec fn obeys_from_spec() -> bool {
        true
    }

    open spec fn from_spec(val: u64) -> Amount {
        Amount { raw: Uint([val, 0u64, 0u64, 0u64]) }
    }
}

} // verus!
