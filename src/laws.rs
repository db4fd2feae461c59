//! Laws that relate several operations, proved over their contracts.

use crate::amount::Amount;
use crate::denominated::{canon, nat_cmp, numeric_cmp, raise_spec, top_denom, DenominatedAmount};
use crate::masp::{lemma_word_digit, word_weight};
use crate::uint::{pow10, word_base};
use vstd::prelude::*;

verus! {

/// Canonical form is a fixed point: canonicalizing again changes nothing,
/// and a canonical magnitude ends in a zero digit only at zero places.
pub proof fn lemma_canonical_idempotent(a: nat, d: nat)
    ensures
        canon(canon(a, d).0, canon(a, d).1) == canon(a, d),
        canon(a, d).1 > 0 ==> canon(a, d).0 % 10 != 0,
    decreases d,
{
    if d > 0 && a % 10 == 0 {
        lemma_canonical_idempotent(a / 10, (d - 1) as nat);
    }
}

/// Canonical form keeps the number: `a * 10^-d` equals its canonical form.
pub proof fn lemma_canonical_same_value(a: nat, d: nat)
    ensures
        numeric_cmp(a, d, canon(a, d).0, canon(a, d).1) == std::cmp::Ordering::Equal,
    decreases d,
{
    let (c, e) = canon(a, d);
    if d > 0 && a % 10 == 0 {
        lemma_canonical_same_value(a / 10, (d - 1) as nat);
        assert(e <= d - 1) by {
            lemma_canon_denom_le(a / 10, (d - 1) as nat);
        }
        let k = (d - 1 - e) as nat;
        assert((a / 10) * pow10(0) == c * pow10(k)) by {
            assert(pow10(0) == 1);
            assert(((d - 1) as nat - (d - 1) as nat) as nat == 0);
        }
        assert(a == (a / 10) * 10);
        assert(a * pow10(0) == c * pow10((d - e) as nat)) by {
            assert(pow10(0) == 1);
            assert(pow10((d - e) as nat) == 10 * pow10(k));
            assert(c * (10 * pow10(k)) == 10 * (c * pow10(k))) by (nonlinear_arith);
            assert((a / 10) * 1 == a / 10);
        }
    } else {
        assert(pow10(0) == 1);
    }
}

/// Canonical form never adds decimal places.
pub proof fn lemma_canon_denom_le(a: nat, d: nat)
    ensures
        canon(a, d).1 <= d,
    decreases d,
{
    if d > 0 && a % 10 == 0 {
        lemma_canon_denom_le(a / 10, (d - 1) as nat);
    }
}

/// The order of two denominated amounts is the order of their magnitudes
/// once both are raised to the larger denomination, wherever raising
/// succeeds.
pub proof fn lemma_cmp_matches_raised(x: DenominatedAmount, y: DenominatedAmount)
    requires
        raise_spec(x.mantissa(), x.places(), top_denom(x, y).0 as nat) is Ok,
        raise_spec(y.mantissa(), y.places(), top_denom(x, y).0 as nat) is Ok,
    ensures
        numeric_cmp(x.mantissa(), x.places(), y.mantissa(), y.places()) == nat_cmp(
            raise_spec(x.mantissa(), x.places(), top_denom(x, y).0 as nat)->Ok_0,
            raise_spec(y.mantissa(), y.places(), top_denom(x, y).0 as nat)->Ok_0,
        ),
{
}

/// The base-2^64 digit of `v` at word `i`: what `MaspDigitPos::denominate`
/// gives.
pub open spec fn word_digit(v: nat, i: nat) -> nat {
    (v / word_weight(i)) % word_base()
}

/// An amount is the sum of its four base-2^64 digits, each at its weight:
/// the words that `MaspDigitPos::denominate` takes out, put back by
/// `Amount::from_masp_denominated`, add up to the amount.
pub proof fn lemma_digits_recompose(m: Amount)
    ensures
        m@ == word_digit(m@, 0) * word_weight(0) + word_digit(m@, 1) * word_weight(1)
            + word_digit(m@, 2) * word_weight(2) + word_digit(m@, 3) * word_weight(3),
{
    lemma_word_digit(m.raw.0);
    assert(word_digit(m@, 0) == m.raw.0[0] as nat);
    assert(word_digit(m@, 1) == m.raw.0[1] as nat);
    assert(word_digit(m@, 2) == m.raw.0[2] as nat);
    assert(word_digit(m@, 3) == m.raw.0[3] as nat);
    let w = word_base();
    let (w0, w1, w2, w3) = (m.raw.0[0] as nat, m.raw.0[1] as nat, m.raw.0[2] as nat, m.raw.0[3] as nat);
    assert(w0 + w * (w1 + w * (w2 + w * w3)) == w0 * 1 + w1 * w + w2 * (w * w) + w3 * (w * w * w))
        by (nonlinear_arith);
}

} // verus!
