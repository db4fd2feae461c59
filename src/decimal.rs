//! Decimal strings: what the parser accepts and what the formatter writes,
//! stated over sequences of characters.

use crate::uint::{dec_str, digit_char, pow10};
use vstd::prelude::*;

verus! {

/// The most decimal digits that a 256-bit magnitude is read from.
pub const MAX_DECIMAL_DIGITS: usize = 77;

pub open spec fn is_digit(c: char) -> bool {
    '0' <= c && c <= '9'
}

pub open spec fn all_digits(s: Seq<char>) -> bool {
    forall|i: int| 0 <= i < s.len() ==> is_digit(#[trigger] s[i])
}

/// The number that a sequence of decimal digits stands for.
pub open spec fn digits_value(s: Seq<char>) -> nat
    decreases s.len(),
{
    if s.len() == 0 {
        0
    } else {
        digits_value(s.drop_last()) * 10 + ((s.last() as nat) - ('0' as nat)) as nat
    }
}

/// `s` with its decimal points taken out.
pub open spec fn strip_point(s: Seq<char>) -> Seq<char>
    decreases s.len(),
{
    if s.len() == 0 {
        s
    } else if s.last() == '.' {
        strip_point(s.drop_last())
    } else {
        strip_point(s.drop_last()).push(s.last())
    }
}

/// `s` has a decimal point at `p` and digits everywhere else.
pub open spec fn point_at(s: Seq<char>, p: int) -> bool {
    0 <= p < s.len() && s[p] == '.' && all_digits(s.subrange(0, p)) && all_digits(
        s.subrange(p + 1, s.len() as int),
    )
}

/// Digits, with at most one decimal point among them.
pub open spec fn well_formed(s: Seq<char>) -> bool {
    all_digits(s) || exists|p: int| point_at(s, p)
}

/// The number of digits after the decimal point of a well-formed string.
pub open spec fn places_of(s: Seq<char>) -> nat {
    if all_digits(s) {
        0
    } else {
        (s.len() - 1 - choose|p: int| point_at(s, p)) as nat
    }
}

/// The number of digits of a well-formed string.
pub open spec fn digit_count(s: Seq<char>) -> nat {
    if all_digits(s) {
        s.len()
    } else {
        (s.len() - 1) as nat
    }
}

/// `n` zeros.
pub open spec fn zeros(n: nat) -> Seq<char> {
    Seq::new(n, |i: int| '0')
}

/// `n * 10^-d` written with exactly `d` decimal places, and a leading "0"
/// where the integer part is empty.
pub open spec fn precise_str(n: nat, d: nat) -> Seq<char> {
    let s = dec_str(n);
    if d == 0 {
        s
    } else if s.len() > d {
        s.subrange(0, s.len() - d) + seq!['.'] + s.subrange(s.len() - d, s.len() as int)
    } else {
        seq!['0', '.'] + zeros((d - s.len()) as nat) + s
    }
}

/// `s` without the copies of `c` that end it.
pub open spec fn trim_end(s: Seq<char>, c: char) -> Seq<char>
    decreases s.len(),
{
    if s.len() > 0 && s.last() == c {
        trim_end(s.drop_last(), c)
    } else {
        s
    }
}

/// The display form: the precise form without trailing decimal zeros and
/// without a dangling decimal point.
pub open spec fn display_str(n: nat, d: nat) -> Seq<char> {
    let p = precise_str(n, d);
    let t = if d > 0 {
        trim_end(p, '0')
    } else {
        p
    };
    trim_end(t, '.')
}

/// What parsing `s` gives: the mantissa and the number of decimal places,
/// or why it is refused.
pub open spec fn parse_spec(s: Seq<char>) -> Result<(nat, nat), crate::amount::AmountParseError> {
    if !well_formed(s) {
        Err(crate::amount::AmountParseError::NotNumeric)
    } else if digit_count(s) > MAX_DECIMAL_DIGITS {
        Err(
            crate::amount::AmountParseError::ScaleTooLarge(
                digit_count(s) as u32,
                MAX_DECIMAL_DIGITS as u8,
            ),
        )
    } else {
        Ok((digits_value(strip_point(s)), places_of(s)))
    }
}

/// A well-formed string has one decimal point at most.
pub proof fn lemma_point_unique(s: Seq<char>, p: int, q: int)
    requires
        point_at(s, p),
        point_at(s, q),
    ensures
        p == q,
{
    if p < q {
        assert(s.subrange(0, q)[p] == s[p]);
    } else if q < p {
        assert(s.subrange(0, p)[q] == s[q]);
    }
}

/// `d` digits stand for less than 10^d.
pub proof fn lemma_digits_value_bound(t: Seq<char>)
    requires
        all_digits(t),
    ensures
        digits_value(t) < pow10(t.len()),
    decreases t.len(),
{
    if t.len() > 0 {
        let u = t.drop_last();
        assert(all_digits(u)) by {
            assert forall|i: int| 0 <= i < u.len() implies is_digit(#[trigger] u[i]) by {
                assert(u[i] == t[i]);
            }
        }
        lemma_digits_value_bound(u);
        assert(is_digit(t[t.len() - 1]));
        assert(pow10(t.len()) == 10 * pow10(u.len()));
    }
}

/// 10^77 fits in 256 bits.
pub proof fn lemma_pow10_max_digits()
    ensures
        pow10(MAX_DECIMAL_DIGITS as nat) <= crate::uint::max_value(),
{
    reveal_with_fuel(pow10, 78);
    assert(pow10(77) == 100000000000000000000000000000000000000000000000000000000000000000000000000000nat);
}

/// A numeral is made of digits and reads back as its number.
pub proof fn lemma_dec_str(n: nat)
    ensures
        all_digits(dec_str(n)),
        digits_value(dec_str(n)) == n,
        dec_str(n).len() >= 1,
    decreases n,
{
    let c = digit_char(n % 10);
    assert(c as nat == n % 10 + '0' as nat);
    if n >= 10 {
        lemma_dec_str(n / 10);
        let s = dec_str(n);
        assert(s.drop_last() =~= dec_str(n / 10));
        assert forall|i: int| 0 <= i < s.len() implies is_digit(#[trigger] s[i]) by {
            if i < s.len() - 1 {
                assert(s[i] == dec_str(n / 10)[i]);
            }
        }
        assert(s.last() == c);
        assert(digits_value(s) == digits_value(dec_str(n / 10)) * 10 + n % 10);
    } else {
        let s = dec_str(n);
        assert(s.drop_last() =~= Seq::<char>::empty());
        assert(digits_value(s.drop_last()) == 0);
        assert(s.last() == c);
    }
}

/// Taking the points out of digits changes nothing.
pub proof fn lemma_strip_digits(s: Seq<char>)
    requires
        all_digits(s),
    ensures
        strip_point(s) == s,
    decreases s.len(),
{
    if s.len() > 0 {
        let u = s.drop_last();
        assert(all_digits(u)) by {
            assert forall|i: int| 0 <= i < u.len() implies is_digit(#[trigger] u[i]) by {
                assert(u[i] == s[i]);
            }
        }
        lemma_strip_digits(u);
        assert(is_digit(s[s.len() - 1]));
        assert(u.push(s.last()) =~= s);
    }
}

/// Taking the point out of `a.b` leaves `ab`.
pub proof fn lemma_strip_point_between(a: Seq<char>, b: Seq<char>)
    requires
        all_digits(a),
        all_digits(b),
    ensures
        strip_point(a + seq!['.'] + b) == a + b,
    decreases b.len(),
{
    let s = a + seq!['.'] + b;
    if b.len() == 0 {
        assert(s.drop_last() =~= a);
        assert(a + b =~= a);
        lemma_strip_digits(a);
    } else {
        let u = b.drop_last();
        assert(all_digits(u)) by {
            assert forall|i: int| 0 <= i < u.len() implies is_digit(#[trigger] u[i]) by {
                assert(u[i] == b[i]);
            }
        }
        lemma_strip_point_between(a, u);
        assert(s.drop_last() =~= a + seq!['.'] + u);
        assert(is_digit(b[b.len() - 1]));
        assert((a + u).push(b.last()) =~= a + b);
    }
}

/// Leading zeros do not change the number.
pub proof fn lemma_leading_zeros(k: nat, s: Seq<char>)
    ensures
        digits_value(zeros(k) + s) == digits_value(s),
    decreases s.len(), k,
{
    if s.len() == 0 {
        assert(zeros(k) + s =~= zeros(k));
        if k > 0 {
            assert(zeros(k).drop_last() =~= zeros((k - 1) as nat));
            lemma_leading_zeros((k - 1) as nat, s);
            assert(zeros((k - 1) as nat) + s =~= zeros((k - 1) as nat));
        }
    } else {
        lemma_leading_zeros(k, s.drop_last());
        assert((zeros(k) + s).drop_last() =~= zeros(k) + s.drop_last());
    }
}

/// `a.b`, with digits on both sides, has its point right after `a`.
pub proof fn lemma_point_between(a: Seq<char>, b: Seq<char>)
    requires
        all_digits(a),
        all_digits(b),
    ensures
        well_formed(a + seq!['.'] + b),
        !all_digits(a + seq!['.'] + b),
        places_of(a + seq!['.'] + b) == b.len(),
        digit_count(a + seq!['.'] + b) == a.len() + b.len(),
        strip_point(a + seq!['.'] + b) == a + b,
{
    let s = a + seq!['.'] + b;
    let p = a.len() as int;
    assert(s[p] == '.');
    assert(s.subrange(0, p) =~= a);
    assert(s.subrange(p + 1, s.len() as int) =~= b);
    assert(point_at(s, p));
    assert(!is_digit(s[p]));
    let q = choose|q: int| point_at(s, q);
    lemma_point_unique(s, p, q);
    lemma_strip_point_between(a, b);
}

/// The precise form of `n * 10^-d` reads back as `n` at `d` places, where
/// it has at most 77 digits.
pub proof fn lemma_precise_round_trip(n: nat, d: nat)
    requires
        digit_count(precise_str(n, d)) <= MAX_DECIMAL_DIGITS,
    ensures
        parse_spec(precise_str(n, d)) == Ok::<(nat, nat), crate::amount::AmountParseError>((n, d)),
{
    let s = dec_str(n);
    lemma_dec_str(n);
    if d == 0 {
        lemma_strip_digits(s);
    } else if s.len() > d {
        let a = s.subrange(0, s.len() - d);
        let b = s.subrange(s.len() - d, s.len() as int);
        assert(all_digits(a)) by {
            assert forall|i: int| 0 <= i < a.len() implies is_digit(#[trigger] a[i]) by {
                assert(a[i] == s[i]);
            }
        }
        assert(all_digits(b)) by {
            assert forall|i: int| 0 <= i < b.len() implies is_digit(#[trigger] b[i]) by {
                assert(b[i] == s[i + s.len() - d]);
            }
        }
        lemma_point_between(a, b);
        assert(a + b =~= s);
    } else {
        let a = seq!['0'];
        let b = zeros((d - s.len()) as nat) + s;
        assert(all_digits(a)) by {
            assert(a[0] == '0');
        }
        assert(all_digits(b)) by {
            assert forall|i: int| 0 <= i < b.len() implies is_digit(#[trigger] b[i]) by {
                if i >= d - s.len() {
                    assert(b[i] == s[i - (d - s.len())]);
                }
            }
        }
        assert(seq!['0', '.'] + zeros((d - s.len()) as nat) + s =~= a + seq!['.'] + b);
        lemma_point_between(a, b);
        assert(a + b =~= zeros((d - s.len() + 1) as nat) + s);
        lemma_leading_zeros((d - s.len() + 1) as nat, s);
    }
}

/// A well-formed decimal with its integer part written without leading
/// zeros ("0" where it is empty or all zeros) and a point with no digits
/// after it dropped; the digits after the point are kept as they are.
pub open spec fn normalized(s: Seq<char>) -> Seq<char> {
    if all_digits(s) {
        dec_str(digits_value(s))
    } else {
        let p = choose|p: int| point_at(s, p);
        let b = s.subrange(p + 1, s.len() as int);
        if b.len() == 0 {
            dec_str(digits_value(s.subrange(0, p)))
        } else {
            dec_str(digits_value(s.subrange(0, p))) + seq!['.'] + b
        }
    }
}

proof fn lemma_digit_char_of(c: char)
    requires
        is_digit(c),
    ensures
        digit_char(((c as nat) - ('0' as nat)) as nat) == c,
{
    let d = ((c as nat) - ('0' as nat)) as nat;
    assert(digit_char(d) as nat == c as nat);
    assert((digit_char(d) as u32) == (c as u32));
}

proof fn lemma_all_digits_prefix(s: Seq<char>)
    requires
        all_digits(s),
        s.len() > 0,
    ensures
        all_digits(s.drop_last()),
        is_digit(s.last()),
{
    let u = s.drop_last();
    assert forall|i: int| 0 <= i < u.len() implies is_digit(#[trigger] u[i]) by {
        assert(u[i] == s[i]);
    }
}

/// Appending `k` digits to `a` multiplies its value by 10^k and adds theirs.
pub proof fn lemma_digits_value_concat(a: Seq<char>, b: Seq<char>)
    ensures
        digits_value(a + b) == digits_value(a) * pow10(b.len()) + digits_value(b),
    decreases b.len(),
{
    if b.len() == 0 {
        assert(a + b =~= a);
        assert(pow10(0) == 1);
    } else {
        lemma_digits_value_concat(a, b.drop_last());
        assert((a + b).drop_last() =~= a + b.drop_last());
        assert(pow10(b.len()) == 10 * pow10((b.len() - 1) as nat));
        let (x, y, p) = (digits_value(a), digits_value(b.drop_last()), pow10((b.len() - 1) as nat));
        assert((x * p + y) * 10 == x * (10 * p) + y * 10) by (nonlinear_arith);
    }
}

/// The numeral of `x * 10^k + v` for `x > 0` and `k` digits `b` worth `v`
/// is the numeral of `x` followed by `b`.
proof fn lemma_dec_str_append(x: nat, b: Seq<char>)
    requires
        x > 0,
        all_digits(b),
    ensures
        dec_str(x * pow10(b.len()) + digits_value(b)) == dec_str(x) + b,
    decreases b.len(),
{
    if b.len() == 0 {
        assert(pow10(0) == 1);
        assert(dec_str(x) + b =~= dec_str(x));
    } else {
        let u = b.drop_last();
        lemma_all_digits_prefix(b);
        lemma_dec_str_append(x, u);
        let c = b.last();
        let d = ((c as nat) - ('0' as nat)) as nat;
        let p = pow10(u.len());
        let inner = x * p + digits_value(u);
        let n = x * pow10(b.len()) + digits_value(b);
        assert(pow10(b.len()) == 10 * p);
        assert(n == inner * 10 + d) by (nonlinear_arith)
            requires
                n == x * (10 * p) + (digits_value(u) * 10 + d),
                inner == x * p + digits_value(u),
        ;
        crate::uint::lemma_pow10_positive(u.len());
        assert(inner >= 1) by (nonlinear_arith)
            requires
                inner == x * p + digits_value(u),
                x >= 1,
                p >= 1,
        ;
        assert(n / 10 == inner && n % 10 == d);
        lemma_digit_char_of(c);
        assert(dec_str(x) + b =~= (dec_str(x) + u).push(c));
    }
}

/// `k >= 1` digits are their value's numeral padded with zeros on the left.
proof fn lemma_padded_numeral(b: Seq<char>)
    requires
        all_digits(b),
        b.len() >= 1,
    ensures
        dec_str(digits_value(b)).len() <= b.len(),
        zeros((b.len() - dec_str(digits_value(b)).len()) as nat) + dec_str(digits_value(b)) == b,
    decreases b.len(),
{
    let u = b.drop_last();
    lemma_all_digits_prefix(b);
    let c = b.last();
    let d = ((c as nat) - ('0' as nat)) as nat;
    lemma_digit_char_of(c);
    if digits_value(u) == 0 {
        lemma_zero_digits(u);
        assert(digits_value(b) == d);
        assert(dec_str(d) =~= seq![c]);
        assert(zeros(u.len()) + seq![c] =~= b);
    } else {
        lemma_padded_numeral(u);
        lemma_dec_str_append(digits_value(u), seq![c]);
        assert(seq![c].drop_last() =~= Seq::<char>::empty());
        assert(pow10(1) == 10) by {
            assert(pow10(0) == 1);
        }
        assert(seq![c].last() == c);
        assert(digits_value(seq![c].drop_last()) == 0);
        assert(digits_value(seq![c]) == d);
        assert(all_digits(seq![c]));
        let k = (u.len() - dec_str(digits_value(u)).len()) as nat;
        assert(zeros(k) + (dec_str(digits_value(u)) + seq![c]) =~= (zeros(k) + dec_str(
            digits_value(u),
        )).push(c));
        assert(b =~= u.push(c));
    }
}

/// Digits worth zero are all zeros.
proof fn lemma_zero_digits(u: Seq<char>)
    requires
        all_digits(u),
        digits_value(u) == 0,
    ensures
        u == zeros(u.len()),
    decreases u.len(),
{
    if u.len() > 0 {
        lemma_all_digits_prefix(u);
        lemma_zero_digits(u.drop_last());
        assert(u =~= zeros((u.len() - 1) as nat).push('0'));
    } else {
        assert(u =~= zeros(0));
    }
}

/// Formatting what a well-formed string of at most 77 digits parses to
/// gives the string back, normalized.
pub proof fn lemma_parse_then_format(s: Seq<char>)
    requires
        well_formed(s),
        digit_count(s) <= MAX_DECIMAL_DIGITS,
    ensures
        parse_spec(s) is Ok,
        precise_str(parse_spec(s)->Ok_0.0, parse_spec(s)->Ok_0.1) == normalized(s),
{
    if all_digits(s) {
        lemma_strip_digits(s);
    } else {
        let p = choose|p: int| point_at(s, p);
        let a = s.subrange(0, p);
        let b = s.subrange(p + 1, s.len() as int);
        assert(s =~= a + seq!['.'] + b);
        lemma_point_between(a, b);
        let x = digits_value(a);
        let m = digits_value(a + b);
        lemma_digits_value_concat(a, b);
        lemma_dec_str(x);
        if b.len() == 0 {
            assert(a + b =~= a);
            assert(pow10(0) == 1);
        } else if x > 0 {
            lemma_dec_str_append(x, b);
            let t = dec_str(x) + b;
            assert(t.subrange(0, t.len() - b.len()) =~= dec_str(x));
            assert(t.subrange(t.len() - b.len(), t.len() as int) =~= b);
        } else {
            lemma_padded_numeral(b);
            assert(x * pow10(b.len()) == 0) by (nonlinear_arith)
                requires
                    x == 0,
            ;
            assert(m == digits_value(b));
            assert(dec_str(0) =~= seq!['0']);
        }
    }
}

/// The prefix of `s` that is left once the copies of `c` ending it are
/// trimmed.
pub fn trim_end_char(s: &str, c: char) -> (r: &str)
    ensures
        r@ == trim_end(s@, c),
{
    let mut k = s.unicode_len();
    proof {
        assert(s@.subrange(0, k as int) =~= s@);
    }
    while k > 0 && s.get_char(k - 1) == c
        invariant
            k <= s@.len(),
            trim_end(s@.subrange(0, k as int), c) == trim_end(s@, c),
        decreases k,
    {
        proof {
            assert(s@.subrange(0, k as int).drop_last() =~= s@.subrange(0, k - 1));
        }
        k = k - 1;
    }
    s.substring_char(0, k)
}

} // verus!
