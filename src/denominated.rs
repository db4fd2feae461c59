//! `DenominatedAmount`: a magnitude with the number of decimal places it
//! is expressed in, read and written as decimal strings and ordered as the
//! real numbers it stands for.

use crate::amount::{Amount, AmountParseError, NATIVE_MAX_DECIMAL_PLACES};
use crate::decimal::{
    all_digits, digits_value, display_str, is_digit, lemma_digits_value_bound,
    lemma_point_unique, lemma_pow10_max_digits, parse_spec, point_at, precise_str, strip_point,
    trim_end_char, well_formed, zeros, MAX_DECIMAL_DIGITS,
};
use crate::uint::{
    checked_pow10, lemma_pow10_positive, lemma_words_value, max_value, pow10, u256_div_mod,
    u256_to_dec_string, Uint,
};
use vstd::prelude::*;
use vstd::string::{StrSliceExecFns, StringExecFns};

verus! {

/// The number of decimal places: an amount in this denomination counts
/// units of 10^-d.
#[derive(Clone, Copy, Debug, PartialEq, Eq, PartialOrd, Ord, Hash)]
pub struct Denomination(pub u8);

impl From<u8> for Denomination {
    fn from(denom: u8) -> (r: Denomination)
        ensures
            r.0 == denom,
    {
        Denomination(denom)
    }
}

impl vstd::std_specs::convert::FromSpecImpl<u8> for Denomination {
    open spec fn obeys_from_spec() -> bool {
        true
    }

    open spec fn from_spec(denom: u8) -> Denomination {
        Denomination(denom)
    }
}

/// A magnitude standing for `amount * 10^-denom`. Equality compares both
/// fields; the order compares the numbers.
#[derive(Clone, Copy, Debug, PartialEq, Eq, Hash)]
pub struct DenominatedAmount {
    /// The mantissa.
    pub amount: Amount,
    /// The number of decimal places in base ten.
    pub denom: Denomination,
}

/// Strip trailing zero decimals from `a * 10^-d`, as long as there are
/// decimal places left.
pub open spec fn canon(a: nat, d: nat) -> (nat, nat)
    decreases d,
{
    if d > 0 && a % 10 == 0 {
        canon(a / 10, (d - 1) as nat)
    } else {
        (a, d)
    }
}

/// `a * 10^-d` and `b * 10^-e` compared as numbers.
pub open spec fn numeric_cmp(a: nat, d: nat, b: nat, e: nat) -> std::cmp::Ordering {
    let top = if d >= e {
        d
    } else {
        e
    };
    let l = a * pow10((top - d) as nat);
    let r = b * pow10((top - e) as nat);
    if l < r {
        std::cmp::Ordering::Less
    } else if l == r {
        std::cmp::Ordering::Equal
    } else {
        std::cmp::Ordering::Greater
    }
}

/// The magnitude `a * 10^-d` takes at `t >= d` decimal places.
pub open spec fn raised(a: nat, d: nat, t: nat) -> nat {
    a * pow10((t - d) as nat)
}

/// What `increase_precision` gives for `a * 10^-d` raised to `t` places.
pub open spec fn raise_spec(a: nat, d: nat, t: nat) -> Result<nat, AmountParseError> {
    if t < d {
        Err(AmountParseError::PrecisionDecrease)
    } else if raised(a, d, t) > max_value() {
        Err(AmountParseError::PrecisionOverflow)
    } else {
        Ok(raised(a, d, t))
    }
}

/// The larger of two denominations.
pub open spec fn top_denom(x: DenominatedAmount, y: DenominatedAmount) -> Denomination {
    if x.denom.0 < y.denom.0 {
        y.denom
    } else {
        x.denom
    }
}

/// What `checked_add` (`add`) or `checked_sub` (not `add`) gives: both
/// operands raised to the larger denomination, then added or subtracted.
pub open spec fn aligned_op(x: DenominatedAmount, y: DenominatedAmount, add: bool) -> Option<
    (nat, Denomination),
> {
    let t = top_denom(x, y);
    match (
        raise_spec(x.mantissa(), x.places(), t.0 as nat),
        raise_spec(y.mantissa(), y.places(), t.0 as nat),
    ) {
        (Ok(l), Ok(r)) => if add && l + r <= max_value() {
            Some((l + r, t))
        } else if !add && r <= l {
            Some(((l - r) as nat, t))
        } else {
            None
        },
        _ => None,
    }
}

/// Raising to the same denomination changes nothing.
pub proof fn lemma_raise_same(a: nat, d: nat)
    requires
        a <= max_value(),
    ensures
        raise_spec(a, d, d) == Ok::<nat, AmountParseError>(a),
{
    assert(pow10(0) == 1);
    assert(raised(a, d, d) == a * 1);
    assert(max_value() >= 1);
}

impl DenominatedAmount {
    /// The magnitude.
    pub open spec fn mantissa(&self) -> nat {
        self.amount@
    }

    /// The number of decimal places.
    pub open spec fn places(&self) -> nat {
        self.denom.0 as nat
    }

    /// `amount * 10^-denom`.
    pub fn new(amount: Amount, denom: Denomination) -> (r: DenominatedAmount)
        ensures
            r.amount == amount,
            r.denom == denom,
    {
        DenominatedAmount { amount, denom }
    }

    /// A native token amount: six decimal places.
    pub fn native(amount: Amount) -> (r: DenominatedAmount)
        ensures
            r.amount == amount,
            r.denom.0 == NATIVE_MAX_DECIMAL_PLACES,
    {
        DenominatedAmount { amount, denom: Denomination(NATIVE_MAX_DECIMAL_PLACES) }
    }

    pub fn is_zero(&self) -> (r: bool)
        ensures
            r == (self.mantissa() == 0),
    {
        self.amount.is_zero()
    }

    /// The mantissa.
    pub fn amount(&self) -> (r: Amount)
        ensures
            r == self.amount,
    {
        self.amount
    }

    /// The denomination.
    pub fn denom(&self) -> (r: Denomination)
        ensures
            r == self.denom,
    {
        self.denom
    }

    /// The same number at `denom` decimal places. Lowering the precision is
    /// refused, and so is a magnitude past 256 bits.
    pub fn increase_precision(self, denom: Denomination) -> (r: Result<
        DenominatedAmount,
        AmountParseError,
    >)
        ensures
            match raise_spec(self.mantissa(), self.places(), denom.0 as nat) {
                Ok(m) => r matches Ok(x) && x.mantissa() == m && x.denom == denom,
                Err(e) => r == Err::<DenominatedAmount, AmountParseError>(e),
            },
    {
        if denom.0 < self.denom.0 {
            return Err(AmountParseError::PrecisionDecrease);
        }
        match checked_pow10(denom.0 - self.denom.0) {
            Some(scaling) => match self.amount.checked_mul(Amount::from_raw(scaling)) {
                Some(amount) => Ok(DenominatedAmount { amount, denom }),
                None => Err(AmountParseError::PrecisionOverflow),
            },
            None => {
                // 10^k alone passes 256 bits: only zero still fits.
                if self.amount.is_zero() {
                    proof {
                        assert(self.mantissa() * pow10((denom.0 - self.denom.0) as nat) == 0);
                    }
                    Ok(DenominatedAmount { amount: self.amount, denom })
                } else {
                    proof {
                        let p = pow10((denom.0 - self.denom.0) as nat);
                        assert(self.mantissa() * p >= p) by (nonlinear_arith)
                            requires
                                self.mantissa() >= 1,
                        ;
                    }
                    Err(AmountParseError::PrecisionOverflow)
                }
            },
        }
    }

    /// The integer that this number makes at `denom` decimal places.
    pub fn scale(self, denom: u8) -> (r: Result<Amount, AmountParseError>)
        ensures
            match raise_spec(self.mantissa(), self.places(), denom as nat) {
                Ok(m) => r matches Ok(a) && a@ == m,
                Err(e) => r == Err::<Amount, AmountParseError>(e),
            },
    {
        match self.increase_precision(Denomination(denom)) {
            Ok(x) => Ok(x.amount),
            Err(e) => Err(e),
        }
    }

    /// The product: magnitudes multiply and denominations add. `None` where
    /// the magnitude passes 256 bits or the denomination passes 255.
    pub fn checked_mul(&self, rhs: DenominatedAmount) -> (r: Option<DenominatedAmount>)
        ensures
            match r {
                Some(x) => x.mantissa() == self.mantissa() * rhs.mantissa() && x.places()
                    == self.places() + rhs.places(),
                None => self.mantissa() * rhs.mantissa() > max_value() || self.places()
                    + rhs.places() > 255,
            },
            r.is_some() == (self.mantissa() * rhs.mantissa() <= max_value() && self.places()
                + rhs.places() <= 255),
    {
        let amount = match self.amount.checked_mul(rhs.amount) {
            Some(a) => a,
            None => {
                return None;
            },
        };
        let denom = match self.denom.0.checked_add(rhs.denom.0) {
            Some(d) => d,
            None => {
                return None;
            },
        };
        Some(DenominatedAmount { amount, denom: Denomination(denom) })
    }

    /// The sum at the larger of the two denominations; `None` where raising
    /// either operand or adding passes 256 bits.
    pub fn checked_add(&self, rhs: DenominatedAmount) -> (r: Option<DenominatedAmount>)
        ensures
            match aligned_op(*self, rhs, true) {
                Some((m, t)) => r matches Some(x) && x.mantissa() == m && x.denom == t,
                None => r is None,
            },
    {
        let mut lhs = *self;
        let mut rhs = rhs;
        let ghost (a, b) = (*self, rhs);
        proof {
            lemma_words_value(a.amount.raw.0, a.amount.raw.0);
            lemma_words_value(b.amount.raw.0, b.amount.raw.0);
        }
        if lhs.denom.0 < rhs.denom.0 {
            proof {
                lemma_raise_same(b.mantissa(), b.places());
            }
            lhs = match lhs.increase_precision(rhs.denom) {
                Ok(x) => x,
                Err(_) => {
                    return None;
                },
            };
        } else {
            proof {
                lemma_raise_same(a.mantissa(), a.places());
            }
            rhs = match rhs.increase_precision(lhs.denom) {
                Ok(x) => x,
                Err(_) => {
                    return None;
                },
            };
        }
        let amount = match lhs.amount.checked_add(rhs.amount) {
            Some(s) => s,
            None => {
                return None;
            },
        };
        Some(DenominatedAmount { amount, denom: lhs.denom })
    }

    /// The difference at the larger of the two denominations; `None` where
    /// raising either operand passes 256 bits or the difference is negative.
    pub fn checked_sub(&self, rhs: DenominatedAmount) -> (r: Option<DenominatedAmount>)
        ensures
            match aligned_op(*self, rhs, false) {
                Some((m, t)) => r matches Some(x) && x.mantissa() == m && x.denom == t,
                None => r is None,
            },
    {
        let mut lhs = *self;
        let mut rhs = rhs;
        let ghost (a, b) = (*self, rhs);
        proof {
            lemma_words_value(a.amount.raw.0, a.amount.raw.0);
            lemma_words_value(b.amount.raw.0, b.amount.raw.0);
        }
        if lhs.denom.0 < rhs.denom.0 {
            proof {
                lemma_raise_same(b.mantissa(), b.places());
            }
            lhs = match lhs.increase_precision(rhs.denom) {
                Ok(x) => x,
                Err(_) => {
                    return None;
                },
            };
        } else {
            proof {
                lemma_raise_same(a.mantissa(), a.places());
            }
            rhs = match rhs.increase_precision(lhs.denom) {
                Ok(x) => x,
                Err(_) => {
                    return None;
                },
            };
        }
        let amount = match lhs.amount.checked_sub(rhs.amount) {
            Some(s) => s,
            None => {
                return None;
            },
        };
        Some(DenominatedAmount { amount, denom: lhs.denom })
    }

    /// The value with exactly `denom` decimal places; the number of places
    /// in the string gives the denomination back.
    pub fn to_string_precise(&self) -> (r: String)
        ensures
            r@ == precise_str(self.mantissa(), self.places()),
    {
        let decimals = self.denom.0 as usize;
        let string = u256_to_dec_string(self.amount.raw);
        if decimals == 0 {
            return string;
        }
        let len = string.as_str().unicode_len();
        if len > decimals {
            let mut out = String::from_str(string.as_str().substring_char(0, len - decimals));
            out.append(".");
            out.append(string.as_str().substring_char(len - decimals, len));
            proof {
                reveal_strlit(".");
            }
            out
        } else {
            let mut out = String::from_str("0.");
            let mut k: usize = len;
            proof {
                reveal_strlit("0.");
                reveal_strlit("0");
                assert(out@ =~= seq!['0', '.'] + zeros(0));
            }
            while k < decimals
                invariant
                    len <= k <= decimals,
                    out@ == seq!['0', '.'] + zeros((k - len) as nat),
                decreases decimals - k,
            {
                out.append("0");
                proof {
                    reveal_strlit("0");
                    assert("0"@ =~= seq!['0']);
                    assert(seq!['0', '.'] + zeros((k + 1 - len) as nat) =~= seq!['0', '.'] + zeros(
                        (k - len) as nat,
                    ) + "0"@);
                }
                k = k + 1;
            }
            out.append(string.as_str());
            out
        }
    }

    /// The display form: the precise form without trailing decimal zeros or
    /// a dangling decimal point. It drops the denomination.
    pub fn to_string(&self) -> (r: String)
        ensures
            r@ == display_str(self.mantissa(), self.places()),
    {
        let precise = self.to_string_precise();
        let trimmed = if self.denom.0 > 0 {
            trim_end_char(precise.as_str(), '0')
        } else {
            precise.as_str()
        };
        String::from_str(trim_end_char(trimmed, '.'))
    }

    /// The least denomination that holds this value exactly: trailing
    /// decimal zeros are stripped.
    pub fn canonical(self) -> (r: DenominatedAmount)
        ensures
            (r.mantissa(), r.places()) == canon(self.mantissa(), self.places()),
    {
        let mut value = self.amount.raw;
        let ten = Uint::from_u64(10);
        let mut denom = self.denom.0;
        let mut i: u8 = 0;
        while i < self.denom.0
            invariant
                i <= self.denom.0,
                denom <= self.denom.0,
                ten@ == 10,
                canon(value@, denom as nat) == canon(self.mantissa(), self.places()),
                value@ % 10 == 0 ==> denom == self.denom.0 - i,
            decreases self.denom.0 - i,
        {
            let (div, rem) = u256_div_mod(value, ten);
            if rem.is_zero() {
                value = div;
                denom = denom - 1;
            }
            i = i + 1;
        }
        DenominatedAmount { amount: Amount { raw: value }, denom: Denomination(denom) }
    }

    /// Reads digits with at most one decimal point; the digits after the
    /// point give the denomination. An empty string reads as zero.
    pub fn from_str(s: &str) -> (r: Result<DenominatedAmount, AmountParseError>)
        ensures
            match parse_spec(s@) {
                Ok((m, d)) => r matches Ok(x) && x.mantissa() == m && x.places() == d,
                Err(e) => r == Err::<DenominatedAmount, AmountParseError>(e),
            },
    {
        let n = s.unicode_len();
        let mut dot: Option<usize> = None;
        let mut i: usize = 0;
        proof {
            assert(s@.subrange(0, 0) =~= Seq::<char>::empty());
        }
        while i < n
            invariant
                i <= n,
                n == s@.len(),
                match dot {
                    None => all_digits(s@.subrange(0, i as int)),
                    Some(p) => p < i && point_at(s@.subrange(0, i as int), p as int),
                },
            decreases n - i,
        {
            let c = s.get_char(i);
            let ghost pre = s@.subrange(0, i as int);
            let ghost next = s@.subrange(0, i + 1);
            if '0' <= c && c <= '9' {
                proof {
                    assert(next =~= pre.push(c));
                    match dot {
                        None => {
                            assert forall|k: int| 0 <= k < next.len() implies is_digit(
                                #[trigger] next[k],
                            ) by {
                                if k < i {
                                    assert(next[k] == pre[k]);
                                }
                            }
                        },
                        Some(p) => {
                            assert(next.subrange(0, p as int) =~= pre.subrange(0, p as int));
                            assert(next.subrange(p + 1, next.len() as int) =~= pre.subrange(
                                p + 1,
                                pre.len() as int,
                            ).push(c));
                            let tail = next.subrange(p + 1, next.len() as int);
                            let ptail = pre.subrange(p + 1, pre.len() as int);
                            assert forall|k: int| 0 <= k < tail.len() implies is_digit(
                                #[trigger] tail[k],
                            ) by {
                                if k < ptail.len() {
                                    assert(tail[k] == ptail[k]);
                                }
                            }
                        },
                    }
                }
            } else if c == '.' && dot.is_none() {
                proof {
                    assert(next.subrange(0, i as int) =~= pre);
                    assert(next.subrange(i + 1, next.len() as int) =~= Seq::<char>::empty());
                }
                dot = Some(i);
            } else {
                proof {
                    assert(!is_digit(s@[i as int]));
                    assert forall|p: int| !point_at(s@, p) by {
                        if point_at(s@, p) {
                            if p < i {
                                assert(s@.subrange(p + 1, s@.len() as int)[i - p - 1] == s@[i as int]);
                            } else if p > i {
                                assert(s@.subrange(0, p)[i as int] == s@[i as int]);
                            } else {
                                let q = dot->Some_0;
                                assert(pre.subrange(0, q as int) =~= s@.subrange(0, q as int));
                                assert(s@.subrange(0, p)[q as int] == s@[q as int]);
                                assert(pre[q as int] == s@[q as int]);
                            }
                        }
                    }
                }
                return Err(AmountParseError::NotNumeric);
            }
            i = i + 1;
        }
        proof {
            assert(s@.subrange(0, n as int) =~= s@);
            match dot {
                None => {},
                Some(p) => {
                    assert(!is_digit(s@[p as int]));
                    let q = choose|q: int| point_at(s@, q);
                    lemma_point_unique(s@, p as int, q);
                },
            }
        }
        let count: usize = match dot {
            Some(_) => n - 1,
            None => n,
        };
        if count > MAX_DECIMAL_DIGITS {
            return Err(AmountParseError::ScaleTooLarge(count as u32, MAX_DECIMAL_DIGITS as u8));
        }
        let mut value = Amount::zero();
        let ten = Amount::from_u64(10);
        let mut j: usize = 0;
        proof {
            assert(s@.subrange(0, 0) =~= Seq::<char>::empty());
            lemma_pow10_max_digits();
        }
        while j < n
            invariant
                j <= n,
                n == s@.len(),
                count <= MAX_DECIMAL_DIGITS,
                ten@ == 10,
                well_formed(s@),
                match dot {
                    None => all_digits(s@),
                    Some(p) => point_at(s@, p as int),
                },
                count == match dot {
                    Some(_) => n - 1,
                    None => n as int,
                },
                all_digits(strip_point(s@.subrange(0, j as int))),
                strip_point(s@.subrange(0, j as int)).len() == match dot {
                    Some(p) => if p < j {
                        j - 1
                    } else {
                        j as int
                    },
                    None => j as int,
                },
                value@ == digits_value(strip_point(s@.subrange(0, j as int))),
                pow10(MAX_DECIMAL_DIGITS as nat) <= max_value(),
            decreases n - j,
        {
            let c = s.get_char(j);
            let ghost pre = s@.subrange(0, j as int);
            let ghost next = s@.subrange(0, j + 1);
            proof {
                assert(next.drop_last() =~= pre);
                assert(next.last() == c);
            }
            if c != '.' {
                proof {
                    match dot {
                        None => {},
                        Some(p) => {
                            if j < p {
                                assert(s@.subrange(0, p as int)[j as int] == c);
                            } else {
                                assert(s@.subrange(p + 1, s@.len() as int)[j - p - 1] == c);
                            }
                        },
                    }
                    assert(is_digit(c));
                    let t = strip_point(next);
                    assert(t =~= strip_point(pre).push(c));
                    assert forall|k: int| 0 <= k < t.len() implies is_digit(#[trigger] t[k]) by {
                        if k < t.len() - 1 {
                            assert(t[k] == strip_point(pre)[k]);
                        }
                    }
                    lemma_digits_value_bound(t);
                    crate::uint::lemma_pow10_monotone(t.len(), MAX_DECIMAL_DIGITS as nat);
                    assert(t.drop_last() =~= strip_point(pre));
                }
                let d = Amount::from_u64((c as u32 - '0' as u32) as u64);
                // At most 77 digits: every partial value stays below 10^77.
                let shifted = value.checked_mul(ten).unwrap();
                value = shifted.checked_add(d).unwrap();
            } else {
                proof {
                    match dot {
                        None => {
                            assert(!is_digit(s@[j as int]));
                        },
                        Some(p) => {
                            if j < p {
                                assert(s@.subrange(0, p as int)[j as int] == c);
                            } else if j > p {
                                assert(s@.subrange(p + 1, s@.len() as int)[j - p - 1] == c);
                            }
                        },
                    }
                    assert(strip_point(next) =~= strip_point(pre));
                }
            }
            j = j + 1;
        }
        proof {
            assert(s@.subrange(0, n as int) =~= s@);
        }
        let places: u8 = match dot {
            Some(p) => (n - p - 1) as u8,
            None => 0,
        };
        Ok(DenominatedAmount { amount: value, denom: Denomination(places) })
    }
}

impl Amount {
    /// Reads `string` as a decimal and scales it to `denom` decimal places.
    pub fn from_str(string: &str, denom: u8) -> (r: Result<Amount, AmountParseError>)
        ensures
            match parse_spec(string@) {
                Err(e) => r == Err::<Amount, AmountParseError>(e),
                Ok((m, d)) => match raise_spec(m, d, denom as nat) {
                    Ok(v) => r matches Ok(a) && a@ == v,
                    Err(e) => r == Err::<Amount, AmountParseError>(e),
                },
            },
    {
        match DenominatedAmount::from_str(string) {
            Ok(x) => x.scale(denom),
            Err(e) => Err(e),
        }
    }

    /// Reads a decimal whose digits hold every decimal place: the mantissa.
    pub fn from_string_precise(string: &str) -> (r: Result<Amount, AmountParseError>)
        ensures
            match parse_spec(string@) {
                Err(e) => r == Err::<Amount, AmountParseError>(e),
                Ok((m, d)) => r matches Ok(a) && a@ == m,
            },
    {
        match DenominatedAmount::from_str(string) {
            Ok(x) => Ok(x.amount),
            Err(e) => Err(e),
        }
    }

    /// The amount written as a native token: six decimal places.
    pub fn to_string_native(&self) -> (r: String)
        ensures
            r@ == precise_str(self@, NATIVE_MAX_DECIMAL_PLACES as nat),
    {
        DenominatedAmount { amount: *self, denom: Denomination(NATIVE_MAX_DECIMAL_PLACES) }.to_string_precise()
    }

    /// The amount as a native token: six decimal places.
    pub fn native_denominated(self) -> (r: DenominatedAmount)
        ensures
            r.amount == self,
            r.denom.0 == NATIVE_MAX_DECIMAL_PLACES,
    {
        DenominatedAmount::native(self)
    }
}

impl From<Amount> for DenominatedAmount {
    /// The amount at zero decimal places.
    fn from(amount: Amount) -> (r: DenominatedAmount)
        ensures
            r.amount == amount,
            r.denom.0 == 0,
    {
        DenominatedAmount { amount, denom: Denomination(0) }
    }
}

impl vstd::std_specs::convert::FromSpecImpl<Amount> for DenominatedAmount {
    open spec fn obeys_from_spec() -> bool {
        true
    }

    open spec fn from_spec(amount: Amount) -> DenominatedAmount {
        DenominatedAmount { amount, denom: Denomination(0) }
    }
}

impl std::str::FromStr for DenominatedAmount {
    type Err = AmountParseError;

    /// Same as `DenominatedAmount::from_str`.
    fn from_str(s: &str) -> Result<DenominatedAmount, AmountParseError> {
        DenominatedAmount::from_str(s)
    }
}

/// Ordering of two numbers.
pub open spec fn nat_cmp(l: nat, r: nat) -> std::cmp::Ordering {
    if l < r {
        std::cmp::Ordering::Less
    } else if l == r {
        std::cmp::Ordering::Equal
    } else {
        std::cmp::Ordering::Greater
    }
}

/// Comparing `ceil(h / p)` with `lo`, with a tie broken by the remainder,
/// orders `h` against `lo * p`.
proof fn lemma_ceil_cmp(h: nat, p: nat, q: nat, m: nat, lo: nat)
    requires
        p > 0,
        m < p,
        h == q * p + m,
    ensures
        m > 0 ==> q + 1 <= h,
        lo < q + (if m > 0 { 1nat } else { 0nat }) ==> h > lo * p,
        lo == q + (if m > 0 { 1nat } else { 0nat }) ==> (m == 0 <==> h == lo * p) && (m > 0 ==> h
            < lo * p),
        lo > q + (if m > 0 { 1nat } else { 0nat }) ==> h < lo * p,
{
    if m > 0 {
        assert(q + 1 <= h) by (nonlinear_arith)
            requires
                h == q * p + m,
                m > 0,
                m < p,
        ;
        assert(lo < q + 1 ==> h > lo * p) by (nonlinear_arith)
            requires
                h == q * p + m,
                m > 0,
        ;
        assert(lo == q + 1 ==> h < lo * p) by (nonlinear_arith)
            requires
                h == q * p + m,
                m < p,
        ;
        assert(lo > q + 1 ==> h < lo * p) by (nonlinear_arith)
            requires
                h == q * p + m,
                m < p,
        ;
    } else {
        assert(lo < q ==> h > lo * p) by (nonlinear_arith)
            requires
                h == q * p,
                p > 0,
        ;
        assert(lo == q ==> h == lo * p) by (nonlinear_arith)
            requires
                h == q * p,
        ;
        assert(lo > q ==> h < lo * p) by (nonlinear_arith)
            requires
                h == q * p,
                p > 0,
        ;
    }
}

/// Orders `hi` against `lo * 10^diff` without computing the product: `hi`
/// is divided by 10^diff, rounding up, and a tie is broken by the remainder.
fn cmp_scaled(hi: Amount, diff: u8, lo: Amount) -> (r: std::cmp::Ordering)
    ensures
        r == nat_cmp(hi@, lo@ * pow10(diff as nat)),
{
    proof {
        lemma_words_value(hi.raw.0, lo.raw.0);
        lemma_pow10_positive(diff as nat);
    }
    let (div, rem) = match checked_pow10(diff) {
        Some(p) => u256_div_mod(hi.raw, p),
        None => {
            proof {
                vstd::arithmetic::div_mod::lemma_basic_div_specific_divisor(
                    pow10(diff as nat) as int,
                );
                vstd::arithmetic::div_mod::lemma_small_mod(hi@, pow10(diff as nat));
                assert(hi@ / pow10(diff as nat) == 0);
            }
            (Uint::zero(), hi.raw)
        },
    };
    proof {
        let p = pow10(diff as nat);
        vstd::arithmetic::div_mod::lemma_fundamental_div_mod(hi@ as int, p as int);
        vstd::arithmetic::div_mod::lemma_mod_bound(hi@ as int, p as int);
        assert(hi@ == p * div@ + rem@);
        assert(p * div@ == div@ * p) by (nonlinear_arith);
        lemma_ceil_cmp(hi@, p, div@, rem@, lo@);
    }
    let rem_zero = rem.is_zero();
    let div_ceil = if rem_zero {
        div
    } else {
        crate::uint::u256_checked_add(div, Uint::one()).unwrap()
    };
    if !lo.raw.is_at_most(&div_ceil) {
        std::cmp::Ordering::Less
    } else if !div_ceil.is_at_most(&lo.raw) {
        std::cmp::Ordering::Greater
    } else if rem_zero {
        std::cmp::Ordering::Equal
    } else {
        std::cmp::Ordering::Less
    }
}

impl PartialOrd for DenominatedAmount {
    /// Compares the numbers `amount * 10^-denom`; never `None`.
    fn partial_cmp(&self, other: &DenominatedAmount) -> (r: Option<std::cmp::Ordering>) {
        proof {
            assert(pow10(0) == 1);
        }
        if self.denom.0 < other.denom.0 {
            let diff = other.denom.0 - self.denom.0;
            let ord = cmp_scaled(other.amount, diff, self.amount);
            proof {
                let (a, b) = (self.amount@, other.amount@);
                assert(b * pow10(0) == b);
                assert(a * pow10(diff as nat) == b ==> b == a * pow10(diff as nat));
            }
            let rev = match ord {
                std::cmp::Ordering::Less => std::cmp::Ordering::Greater,
                std::cmp::Ordering::Equal => std::cmp::Ordering::Equal,
                std::cmp::Ordering::Greater => std::cmp::Ordering::Less,
            };
            Some(rev)
        } else {
            let diff = self.denom.0 - other.denom.0;
            let ord = cmp_scaled(self.amount, diff, other.amount);
            proof {
                assert(self.amount@ * pow10(0) == self.amount@);
            }
            Some(ord)
        }
    }
}

impl vstd::std_specs::cmp::PartialOrdSpecImpl for DenominatedAmount {
    open spec fn obeys_partial_cmp_spec() -> bool {
        true
    }

    open spec fn partial_cmp_spec(&self, other: &DenominatedAmount) -> Option<std::cmp::Ordering> {
        Some(
            numeric_cmp(
                self.amount@,
                self.denom.0 as nat,
                other.amount@,
                other.denom.0 as nat,
            ),
        )
    }
}

} // verus!
