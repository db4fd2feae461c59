//! The four 64-bit digit positions through which an amount is embedded in
//! shielded-pool notes.

use crate::amount::{Amount, Change};
use crate::uint::{word_base, words_value, Uint};
use vstd::arithmetic::div_mod::{lemma_div_denominator, lemma_fundamental_div_mod_converse};
use vstd::prelude::*;

verus! {

/// One of the four 64-bit words of a 256-bit magnitude, least significant
/// first.
#[derive(Clone, Copy, Debug, PartialEq, Eq, PartialOrd, Ord, Hash)]
pub enum MaspDigitPos {
    Zero,
    One,
    Two,
    Three,
}

/// The weight of the word at `i`: 2^(64 i).
pub open spec fn word_weight(i: nat) -> nat {
    if i == 0 {
        1
    } else if i == 1 {
        word_base()
    } else if i == 2 {
        word_base() * word_base()
    } else {
        word_base() * word_base() * word_base()
    }
}

/// Each word is the base-2^64 digit of the value at its position.
pub proof fn lemma_word_digit(w: [u64; 4])
    ensures
        forall|i: nat|
            i < 4 ==> (w[i as int] as nat) == (words_value(w) / #[trigger] word_weight(i))
                % word_base(),
{
    let b = word_base() as int;
    let a3 = w[3] as int;
    let a2 = (w[2] as int) + b * a3;
    let a1 = (w[1] as int) + b * a2;
    let v = words_value(w) as int;
    assert(v == (w[0] as int) + b * a1);
    lemma_fundamental_div_mod_converse(v, b, a1, w[0] as int);
    lemma_fundamental_div_mod_converse(a1, b, a2, w[1] as int);
    lemma_fundamental_div_mod_converse(a2, b, a3, w[2] as int);
    lemma_fundamental_div_mod_converse(a3, b, 0, w[3] as int);
    lemma_div_denominator(v, b, b);
    lemma_div_denominator(v, b * b, b);
    assert(a1 * b == b * a1) by (nonlinear_arith);
    assert(v / 1 == v);
    assert(v / (b * b) == a2);
    assert(v / (b * b * b) == a3);
}

impl MaspDigitPos {
    /// The word index.
    pub open spec fn index(&self) -> nat {
        match self {
            MaspDigitPos::Zero => 0,
            MaspDigitPos::One => 1,
            MaspDigitPos::Two => 2,
            MaspDigitPos::Three => 3,
        }
    }

    pub fn to_index(&self) -> (r: usize)
        ensures
            r == self.index(),
    {
        match self {
            MaspDigitPos::Zero => 0,
            MaspDigitPos::One => 1,
            MaspDigitPos::Two => 2,
            MaspDigitPos::Three => 3,
        }
    }

    /// The position of word `denom`, which must be below four.
    pub fn from_u8(denom: u8) -> (r: MaspDigitPos)
        requires
            denom < 4,
        ensures
            r.index() == denom as nat,
    {
        if denom == 0 {
            MaspDigitPos::Zero
        } else if denom == 1 {
            MaspDigitPos::One
        } else if denom == 2 {
            MaspDigitPos::Two
        } else {
            MaspDigitPos::Three
        }
    }

    /// The four positions, in order.
    pub fn iter() -> (r: Vec<MaspDigitPos>)
        ensures
            r@.len() == 4,
            forall|i: int| 0 <= i < 4 ==> (#[trigger] r@[i]).index() == i,
    {
        let mut v: Vec<MaspDigitPos> = Vec::new();
        let mut k: u8 = 0;
        while k < 4
            invariant
                k <= 4,
                v@.len() == k,
                forall|i: int| 0 <= i < k ==> (#[trigger] v@[i]).index() == i,
            decreases 4 - k,
        {
            v.push(MaspDigitPos::from_u8(k));
            k = k + 1;
        }
        v
    }

    /// The word of `amount` at this position: its base-2^64 digit there.
    pub fn denominate(&self, amount: &Amount) -> (r: u64)
        ensures
            r == amount.raw.0[self.index() as int],
            r as nat == (amount@ / word_weight(self.index())) % word_base(),
    {
        proof {
            lemma_word_digit(amount.raw.0);
        }
        amount.raw.0[self.to_index()]
    }

    /// The word of the magnitude of `amount` at this position, with the
    /// sign of `amount`.
    pub fn denominate_i128(&self, amount: &Change) -> (r: i128)
        requires
            amount.wf(),
        ensures
            r == if amount.value() < 0 {
                -(amount.abs_spec().raw.0[self.index() as int] as int)
            } else {
                amount.abs_spec().raw.0[self.index() as int] as int
            },
    {
        let val = amount.abs().raw.0[self.to_index()] as i128;
        if amount.is_negative() {
            -val
        } else {
            val
        }
    }
}

impl Amount {
    /// The amount with `val` in the word at `denom` and zero elsewhere.
    pub fn from_masp_denominated(val: u64, denom: MaspDigitPos) -> (r: Amount)
        ensures
            r@ == val as nat * word_weight(denom.index()),
            r.raw.0[denom.index() as int] == val,
            forall|i: int| 0 <= i < 4 && i != denom.index() ==> r.raw.0[i] == 0,
    {
        let mut raw = [0u64; 4];
        raw[denom.to_index()] = val;
        proof {
            broadcast use vstd::array::group_array_axioms;

            let w = word_base();
            let v = val as nat;
            let i = denom.index() as int;
            assert(raw[0] == if i == 0 { val } else { 0 });
            assert(raw[1] == if i == 1 { val } else { 0 });
            assert(raw[2] == if i == 2 { val } else { 0 });
            assert(raw[3] == if i == 3 { val } else { 0 });
            if i == 0 {
                assert(words_value(raw) == v);
                assert(word_weight(0) == 1);
                assert(v * 1 == v);
            } else if i == 1 {
                assert(words_value(raw) == w * v);
                assert(w * v == v * w) by (nonlinear_arith);
            } else if i == 2 {
                assert(words_value(raw) == w * (w * v));
                assert(w * (w * v) == v * (w * w)) by (nonlinear_arith);
            } else {
                assert(words_value(raw) == w * (w * (w * v)));
                assert(w * (w * (w * v)) == v * (w * w * w)) by (nonlinear_arith);
            }
        }
        Amount { raw: Uint(raw) }
    }

    /// The amount with the low 64 bits of `val` at `denom` and the high 64
    /// bits at the next position; `None` where the high bits are not zero
    /// and there is no next position.
    pub fn from_masp_denominated_u128(val: u128, denom: MaspDigitPos) -> (r: Option<Amount>)
        ensures
            r is None <==> (val as nat >= word_base() && denom.index() == 3),
            r matches Some(a) ==> a@ == val as nat * word_weight(denom.index()),
    {
        let lo = #[verifier::truncate] (val as u64);
        let hi = #[verifier::truncate] ((val >> 64u32) as u64);
        assert(val as nat == lo as nat + word_base() * (hi as nat)) by (bit_vector)
            requires
                lo == val as u64,
                hi == (val >> 64u32) as u64,
        ;
        let lo_pos = denom.to_index();
        let hi_pos = lo_pos + 1;
        let mut raw = [0u64; 4];
        raw[lo_pos] = lo;
        if hi != 0 && hi_pos >= 4 {
            return None;
        } else if hi != 0 {
            raw[hi_pos] = hi;
        }
        proof {
            broadcast use vstd::array::group_array_axioms;

            let w = word_base();
            let (l, h) = (lo as nat, hi as nat);
            let v = val as nat;
            let i = lo_pos as int;
            assert(raw[0] == if i == 0 { lo } else { 0 });
            assert(raw[1] == if i == 1 { lo } else if i == 0 { hi } else { 0 });
            assert(raw[2] == if i == 2 { lo } else if i == 1 { hi } else { 0 });
            assert(raw[3] == if i == 3 { lo } else if i == 2 { hi } else { 0 });
            if lo_pos == 0 {
                assert(words_value(raw) == l + w * h);
                assert(word_weight(0) == 1);
                assert(v * 1 == v);
            } else if lo_pos == 1 {
                assert(words_value(raw) == w * (l + w * h));
                assert(w * (l + w * h) == v * w) by (nonlinear_arith)
                    requires
                        v == l + w * h,
                ;
            } else if lo_pos == 2 {
                assert(words_value(raw) == w * (w * (l + w * h)));
                assert(w * (w * (l + w * h)) == v * (w * w)) by (nonlinear_arith)
                    requires
                        v == l + w * h,
                ;
            } else {
                assert(h == 0);
                assert(words_value(raw) == w * (w * (w * l)));
                assert(w * (w * (w * l)) == v * (w * w * w)) by (nonlinear_arith)
                    requires
                        v == l + w * h,
                        h == 0,
                ;
            }
        }
        Some(Amount { raw: Uint(raw) })
    }
}

} // verus!
