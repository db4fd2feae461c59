//! The 256-bit unsigned magnitude that amounts are made of, held as four
//! little-endian 64-bit words. Arithmetic on it is done by
//! `primitive_types::U256`, which has the same layout.

use primitive_types::U256;
use vstd::arithmetic::div_mod::lemma_fundamental_div_mod_converse;
use vstd::prelude::*;

verus! {

/// The weight of one 64-bit word: 2^64.
pub open spec fn word_base() -> nat {
    0x1_0000_0000_0000_0000nat
}

/// The largest magnitude: 2^256 - 1.
pub open spec fn max_value() -> nat {
    0xffff_ffff_ffff_ffff_ffff_ffff_ffff_ffff_ffff_ffff_ffff_ffff_ffff_ffff_ffff_ffffnat
}

/// The largest magnitude that a signed 256-bit change can hold: 2^255 - 1.
pub open spec fn max_signed_value() -> nat {
    0x7fff_ffff_ffff_ffff_ffff_ffff_ffff_ffff_ffff_ffff_ffff_ffff_ffff_ffff_ffff_ffffnat
}

/// The number that four little-endian words stand for.
pub open spec fn words_value(w: [u64; 4]) -> nat {
    (w[0] as nat) + word_base() * ((w[1] as nat) + word_base() * ((w[2] as nat) + word_base()
        * (w[3] as nat)))
}

/// A 256-bit unsigned integer, least significant word first.
#[derive(Clone, Copy, Debug, PartialEq, Eq, Hash, Default)]
pub struct Uint(pub [u64; 4]);

impl View for Uint {
    type V = nat;

    open spec fn view(&self) -> nat {
        words_value(self.0)
    }
}

/// The decimal digit for `d < 10`.
pub open spec fn digit_char(d: nat) -> char {
    ((d + '0' as nat) as u32) as char
}

/// The decimal numeral of `n`: no leading zeros, and "0" for zero.
pub open spec fn dec_str(n: nat) -> Seq<char>
    decreases n,
{
    if n < 10 {
        seq![digit_char(n)]
    } else {
        dec_str(n / 10).push(digit_char(n % 10))
    }
}

/// Four words stand for at most 2^256 - 1, and for one number each.
pub proof fn lemma_words_value(a: [u64; 4], b: [u64; 4])
    ensures
        words_value(a) <= max_value(),
        words_value(a) == words_value(b) ==> a == b,
{
    let w = word_base();
    let a3 = a[3] as nat;
    let a2 = (a[2] as nat) + w * a3;
    let a1 = (a[1] as nat) + w * a2;
    assert(a3 <= w - 1);
    assert(a2 <= w * w - 1) by (nonlinear_arith)
        requires a2 == (a[2] as nat) + w * a3, a3 <= w - 1, (a[2] as nat) <= w - 1;
    assert(a1 <= w * w * w - 1) by (nonlinear_arith)
        requires a1 == (a[1] as nat) + w * a2, a2 <= w * w - 1, (a[1] as nat) <= w - 1;
    assert(words_value(a) <= w * w * w * w - 1) by (nonlinear_arith)
        requires words_value(a) == (a[0] as nat) + w * a1, a1 <= w * w * w - 1, (a[0] as nat) <= w - 1;
    if words_value(a) == words_value(b) {
        let b3 = b[3] as nat;
        let b2 = (b[2] as nat) + w * b3;
        let b1 = (b[1] as nat) + w * b2;
        let v = words_value(a) as int;
        lemma_fundamental_div_mod_converse(v, w as int, a1 as int, a[0] as int);
        lemma_fundamental_div_mod_converse(v, w as int, b1 as int, b[0] as int);
        lemma_fundamental_div_mod_converse(a1 as int, w as int, a2 as int, a[1] as int);
        lemma_fundamental_div_mod_converse(b1 as int, w as int, b2 as int, b[1] as int);
        lemma_fundamental_div_mod_converse(a2 as int, w as int, a3 as int, a[2] as int);
        lemma_fundamental_div_mod_converse(b2 as int, w as int, b3 as int, b[2] as int);
        assert(a =~= b);
    }
}

/// The number that big-endian bytes stand for.
pub open spec fn be_value(b: Seq<u8>) -> nat
    decreases b.len(),
{
    if b.len() == 0 {
        0
    } else {
        be_value(b.drop_last()) * 256 + (b.last() as nat)
    }
}

/// Relies on `U256::checked_add`: the sum, or `None` when it passes 2^256 - 1.
#[verifier::external_body]
pub(crate) fn u256_checked_add(a: Uint, b: Uint) -> (r: Option<Uint>)
    ensures
        match r {
            Some(s) => s@ == a@ + b@,
            None => a@ + b@ > max_value(),
        },
{
    match U256(a.0).checked_add(U256(b.0)) {
        Some(s) => Some(Uint(s.0)),
        None => None,
    }
}

/// Relies on `U256::checked_sub`: the difference, or `None` below zero.
#[verifier::external_body]
pub(crate) fn u256_checked_sub(a: Uint, b: Uint) -> (r: Option<Uint>)
    ensures
        match r {
            Some(s) => s@ == a@ - b@ && b@ <= a@,
            None => a@ < b@,
        },
{
    match U256(a.0).checked_sub(U256(b.0)) {
        Some(s) => Some(Uint(s.0)),
        None => None,
    }
}

/// Relies on `U256::checked_mul`: the product, or `None` when it passes 2^256 - 1.
#[verifier::external_body]
pub(crate) fn u256_checked_mul(a: Uint, b: Uint) -> (r: Option<Uint>)
    ensures
        match r {
            Some(s) => s@ == a@ * b@,
            None => a@ * b@ > max_value(),
        },
{
    match U256(a.0).checked_mul(U256(b.0)) {
        Some(s) => Some(Uint(s.0)),
        None => None,
    }
}

/// Relies on `U256::div_mod`: quotient and remainder; it panics on a zero divisor.
#[verifier::external_body]
pub(crate) fn u256_div_mod(a: Uint, b: Uint) -> (r: (Uint, Uint))
    requires
        b@ > 0,
    ensures
        r.0@ == a@ / b@,
        r.1@ == a@ % b@,
{
    let (q, m) = U256(a.0).div_mod(U256(b.0));
    (Uint(q.0), Uint(m.0))
}

/// Relies on `U256`'s `Display`: the decimal numeral of the value.
#[verifier::external_body]
pub(crate) fn u256_to_dec_string(a: Uint) -> (r: String)
    ensures
        r@ == dec_str(a@),
{
    U256(a.0).to_string()
}

/// Relies on `U256::to_big_endian`: the value as 32 big-endian bytes.
#[verifier::external_body]
pub(crate) fn u256_to_big_endian(a: Uint) -> (r: Vec<u8>)
    ensures
        r@.len() == 32,
        be_value(r@) == a@,
{
    let mut buf = [0u8; 32];
    U256(a.0).to_big_endian(&mut buf);
    buf.to_vec()
}

/// Relies on `U256::from_big_endian`: the value of at most 32 big-endian
/// bytes; it panics on a longer slice.
#[verifier::external_body]
pub(crate) fn u256_from_big_endian(b: &[u8]) -> (r: Uint)
    requires
        b@.len() <= 32,
    ensures
        r@ == be_value(b@),
{
    Uint(U256::from_big_endian(b).0)
}

/// 10^n.
pub open spec fn pow10(n: nat) -> nat
    decreases n,
{
    if n == 0 {
        1
    } else {
        10 * pow10((n - 1) as nat)
    }
}

pub proof fn lemma_pow10_positive(n: nat)
    ensures
        pow10(n) >= 1,
    decreases n,
{
    if n > 0 {
        lemma_pow10_positive((n - 1) as nat);
    }
}

/// 10^n grows with n.
pub proof fn lemma_pow10_monotone(m: nat, n: nat)
    requires
        m <= n,
    ensures
        pow10(m) <= pow10(n),
    decreases n,
{
    if m < n {
        lemma_pow10_monotone(m, (n - 1) as nat);
        lemma_pow10_positive((n - 1) as nat);
    }
}

/// 10^n as a 256-bit integer, or `None` where it does not fit.
pub fn checked_pow10(n: u8) -> (r: Option<Uint>)
    ensures
        match r {
            Some(p) => p@ == pow10(n as nat) && pow10(n as nat) <= max_value(),
            None => pow10(n as nat) > max_value(),
        },
{
    let ten = Uint::from_u64(10);
    let mut p = Uint::one();
    let mut i: u8 = 0;
    while i < n
        invariant
            i <= n,
            p@ == pow10(i as nat),
            ten@ == 10,
        decreases n - i,
    {
        match u256_checked_mul(p, ten) {
            Some(q) => {
                p = q;
            },
            None => {
                proof {
                    assert(pow10((i + 1) as nat) == 10 * pow10(i as nat));
                    lemma_pow10_monotone((i + 1) as nat, n as nat);
                }
                return None;
            },
        }
        i = i + 1;
    }
    proof {
        lemma_words_value(p.0, p.0);
    }
    Some(p)
}

impl Uint {
    pub fn zero() -> (r: Uint)
        ensures
            r@ == 0,
    {
        Uint([0u64, 0u64, 0u64, 0u64])
    }

    pub fn one() -> (r: Uint)
        ensures
            r@ == 1,
    {
        Uint([1u64, 0u64, 0u64, 0u64])
    }

    pub fn from_u64(x: u64) -> (r: Uint)
        ensures
            r@ == x as nat,
    {
        Uint([x, 0u64, 0u64, 0u64])
    }

    pub fn from_u128(x: u128) -> (r: Uint)
        ensures
            r@ == x as nat,
    {
        let lo = x as u64;
        let hi = (x >> 64u32) as u64;
        assert(x as nat == lo as nat + word_base() * (hi as nat)) by (bit_vector)
            requires lo == x as u64, hi == (x >> 64u32) as u64;
        Uint([lo, hi, 0u64, 0u64])
    }

    pub fn is_zero(&self) -> (r: bool)
        ensures
            r == (self@ == 0),
    {
        self.0[0] == 0 && self.0[1] == 0 && self.0[2] == 0 && self.0[3] == 0
    }

    /// Whether `self <= other` as numbers.
    pub fn is_at_most(&self, other: &Uint) -> (r: bool)
        ensures
            r == (self@ <= other@),
    {
        proof {
            lemma_words_value(self.0, other.0);
        }
        match u256_checked_sub(*other, *self) {
            Some(_) => true,
            None => false,
        }
    }
}

} // verus!
