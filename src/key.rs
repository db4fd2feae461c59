//! The storage-key segment of an amount: its 32 big-endian bytes in
//! unpadded base-32 with the extended-hex alphabet. Keys sort as the
//! amounts do.

use crate::amount::Amount;
use crate::uint::{be_value, u256_from_big_endian, u256_to_big_endian};
use data_encoding::BASE32HEX_NOPAD;
use vstd::arithmetic::power2::pow2;
use vstd::prelude::*;
use vstd::string::StringExecFns;

verus! {

/// The symbol of a base-32 digit: `0`-`9`, then `A`-`V`.
pub open spec fn b32_char(d: nat) -> char {
    if d < 10 {
        ((d + '0' as nat) as u32) as char
    } else {
        ((d - 10 + 'A' as nat) as u32) as char
    }
}

/// The last `len` base-32 digits of `v`, most significant first.
pub open spec fn base32_digits(v: nat, len: nat) -> Seq<char>
    decreases len,
{
    if len == 0 {
        Seq::empty()
    } else {
        base32_digits(v / 32, (len - 1) as nat).push(b32_char(v % 32))
    }
}

/// The number of symbols for `n` bytes: `ceil(8 n / 5)`.
pub open spec fn encoded_len(n: nat) -> nat {
    (8 * n + 4) / 5
}

/// Unpadded base-32 of `b`: its bits, most significant first, filled with
/// zero bits to a whole number of symbols.
pub open spec fn base32hex_nopad(b: Seq<u8>) -> Seq<char> {
    let len = encoded_len(b.len());
    base32_digits(be_value(b) * pow2((5 * len - 8 * b.len()) as nat), len)
}

/// Relies on `data_encoding::BASE32HEX_NOPAD.encode`.
#[verifier::external_body]
fn base32hex_encode(b: &[u8]) -> (r: String)
    ensures
        r@ == base32hex_nopad(b@),
{
    BASE32HEX_NOPAD.encode(b)
}

/// Relies on `data_encoding::BASE32HEX_NOPAD.decode`: it inverts `encode`
/// exactly, refusing other symbols, lengths and non-zero trailing bits.
/// Its error is kept as its message.
#[verifier::external_body]
fn base32hex_decode(s: &str) -> (r: Result<Vec<u8>, String>)
    requires
        s@.len() <= usize::MAX / 32,
    ensures
        match r {
            Ok(b) => base32hex_nopad(b@) == s@,
            Err(_) => forall|b: Seq<u8>| base32hex_nopad(b) != s@,
        },
{
    match BASE32HEX_NOPAD.decode(s.as_bytes()) {
        Ok(b) => Ok(b),
        Err(e) => Err(e.to_string()),
    }
}

/// A key segment that does not read as an amount.
#[derive(Clone, Debug, PartialEq, Eq)]
pub enum KeySegError {
    /// The segment, and why it was refused.
    ParseKeySeg(String, String),
}

/// The key segment of a magnitude.
pub open spec fn key_of(v: nat) -> Seq<char> {
    base32_digits(v * 16, 52)
}

proof fn lemma_base32_digits_len(v: nat, len: nat)
    ensures
        base32_digits(v, len).len() == len,
    decreases len,
{
    if len > 0 {
        lemma_base32_digits_len(v / 32, (len - 1) as nat);
    }
}

/// Segments of `n` and `m` bytes have the same length only where `n == m`.
proof fn lemma_encoded_len_injective(n: nat, m: nat)
    requires
        n < m,
    ensures
        encoded_len(n) < encoded_len(m),
{
    assert((8 * n + 4) / 5 < (8 * m + 4) / 5) by (nonlinear_arith)
        requires
            n < m,
    ;
}

/// Plain lexicographic order on strings, by character code.
pub open spec fn seq_lt(s: Seq<char>, t: Seq<char>) -> bool {
    (exists|k: int|
        0 <= k < s.len() && k < t.len() && s.subrange(0, k) == t.subrange(0, k) && (
        #[trigger] s[k] as u32) < (t[k] as u32)) || (s.len() < t.len() && s == t.subrange(
        0,
        s.len() as int,
    ))
}

/// 32^n.
pub open spec fn pow32(n: nat) -> nat
    decreases n,
{
    if n == 0 {
        1
    } else {
        32 * pow32((n - 1) as nat)
    }
}

proof fn lemma_b32_char_order(d: nat, e: nat)
    requires
        d < e < 32,
    ensures
        (b32_char(d) as u32) < (b32_char(e) as u32),
{
}

/// Fixed-width base-32 digits order as the numbers they stand for.
proof fn lemma_digits_order(v: nat, u: nat, len: nat)
    requires
        v < u < pow32(len),
    ensures
        seq_lt(base32_digits(v, len), base32_digits(u, len)),
    decreases len,
{
    lemma_base32_digits_len(v, len);
    lemma_base32_digits_len(u, len);
    let (q, r, qq, rr) = (v / 32, v % 32, u / 32, u % 32);
    let m = (len - 1) as nat;
    assert(len > 0);
    assert(u < 32 * pow32(m));
    assert(qq < pow32(m));
    assert(q <= qq);
    let s = base32_digits(v, len);
    let t = base32_digits(u, len);
    lemma_base32_digits_len(q, m);
    lemma_base32_digits_len(qq, m);
    if q < qq {
        lemma_digits_order(q, qq, m);
        let k = choose|k: int|
            0 <= k < base32_digits(q, m).len() && k < base32_digits(qq, m).len()
                && base32_digits(q, m).subrange(0, k) == base32_digits(qq, m).subrange(0, k) && (
            #[trigger] base32_digits(q, m)[k] as u32) < (base32_digits(qq, m)[k] as u32);
        assert(s.subrange(0, k) =~= base32_digits(q, m).subrange(0, k));
        assert(t.subrange(0, k) =~= base32_digits(qq, m).subrange(0, k));
        assert(s[k] == base32_digits(q, m)[k]);
        assert(t[k] == base32_digits(qq, m)[k]);
    } else {
        assert(r < rr);
        lemma_b32_char_order(r, rr);
        let k = m as int;
        assert(s.subrange(0, k) =~= base32_digits(q, m));
        assert(t.subrange(0, k) =~= base32_digits(qq, m));
        assert((s[k] as u32) < (t[k] as u32));
    }
}

/// `seq_lt` on strings of one length is asymmetric.
proof fn lemma_seq_lt_asymmetric(s: Seq<char>, t: Seq<char>)
    requires
        s.len() == t.len(),
        seq_lt(s, t),
    ensures
        !seq_lt(t, s),
        s != t,
{
    let k = choose|k: int|
        0 <= k < s.len() && k < t.len() && s.subrange(0, k) == t.subrange(0, k) && (
        #[trigger] s[k] as u32) < (t[k] as u32);
    if seq_lt(t, s) {
        let j = choose|j: int|
            0 <= j < t.len() && j < s.len() && t.subrange(0, j) == s.subrange(0, j) && (
            #[trigger] t[j] as u32) < (s[j] as u32);
        if j < k {
            assert(s.subrange(0, k)[j] == t.subrange(0, k)[j]);
        } else if k < j {
            assert(s.subrange(0, j)[k] == t.subrange(0, j)[k]);
        }
    }
}

/// Key segments sort as the amounts they encode: `a < b` exactly where the
/// segment of `a` comes first in plain string order.
pub proof fn lemma_key_order(a: Amount, b: Amount)
    ensures
        a@ < b@ <==> seq_lt(key_of(a@), key_of(b@)),
{
    reveal_with_fuel(pow32, 53);
    crate::uint::lemma_words_value(a.raw.0, b.raw.0);
    crate::uint::lemma_words_value(b.raw.0, a.raw.0);
    assert(pow32(52) == 0x1_0000_0000_0000_0000_0000_0000_0000_0000_0000_0000_0000_0000_0000_0000_0000_0000_0nat);
    lemma_base32_digits_len(a@ * 16, 52);
    lemma_base32_digits_len(b@ * 16, 52);
    if a@ < b@ {
        lemma_digits_order(a@ * 16, b@ * 16, 52);
    } else if b@ < a@ {
        lemma_digits_order(b@ * 16, a@ * 16, 52);
        lemma_seq_lt_asymmetric(key_of(b@), key_of(a@));
    } else {
        if seq_lt(key_of(a@), key_of(b@)) {
            lemma_seq_lt_asymmetric(key_of(a@), key_of(b@));
        }
    }
}

/// 256^n.
pub open spec fn pow256(n: nat) -> nat
    decreases n,
{
    if n == 0 {
        1
    } else {
        256 * pow256((n - 1) as nat)
    }
}

/// `n` big-endian bytes stand for less than 256^n.
proof fn lemma_be_value_bound(b: Seq<u8>)
    ensures
        be_value(b) < pow256(b.len()),
    decreases b.len(),
{
    if b.len() > 0 {
        lemma_be_value_bound(b.drop_last());
    }
}

/// Fixed-width base-32 digits stand for one number each.
proof fn lemma_digits_injective(v: nat, u: nat, len: nat)
    requires
        v < pow32(len),
        u < pow32(len),
        base32_digits(v, len) == base32_digits(u, len),
    ensures
        v == u,
{
    lemma_base32_digits_len(v, len);
    lemma_base32_digits_len(u, len);
    if v < u {
        lemma_digits_order(v, u, len);
        lemma_seq_lt_asymmetric(base32_digits(v, len), base32_digits(u, len));
    } else if u < v {
        lemma_digits_order(u, v, len);
        lemma_seq_lt_asymmetric(base32_digits(u, len), base32_digits(v, len));
    }
}

/// A key segment decodes only to the amount it was made from: bytes, at
/// most 32 of them, that encode to the segment of `a` are 32 bytes that
/// stand for `a`.
pub proof fn lemma_key_decodes_to_amount(a: Amount, b: Seq<u8>)
    requires
        b.len() <= 32,
        base32hex_nopad(b) == key_of(a@),
    ensures
        b.len() == 32,
        be_value(b) == a@,
{
    let len = encoded_len(b.len());
    let v = be_value(b) * pow2((5 * len - 8 * b.len()) as nat);
    lemma_base32_digits_len(v, len);
    lemma_base32_digits_len(a@ * 16, 52);
    if b.len() < 32 {
        lemma_encoded_len_injective(b.len(), 32);
    }
    assert(encoded_len(32) == 52);
    assert(b.len() == 32);
    vstd::arithmetic::power2::lemma2_to64();
    reveal_with_fuel(pow32, 53);
    reveal_with_fuel(pow256, 33);
    lemma_be_value_bound(b);
    crate::uint::lemma_words_value(a.raw.0, a.raw.0);
    assert(pow32(52) == 0x1_0000_0000_0000_0000_0000_0000_0000_0000_0000_0000_0000_0000_0000_0000_0000_0000_0nat);
    assert(pow256(32) == 0x1_0000_0000_0000_0000_0000_0000_0000_0000_0000_0000_0000_0000_0000_0000_0000_0000nat);
    lemma_digits_injective(be_value(b) * 16, a@ * 16, 52);
}

impl Amount {
    /// The storage-key segment: the 32 big-endian bytes in unpadded
    /// base-32 hex.
    pub fn raw(&self) -> (r: String)
        ensures
            r@ == key_of(self@),
    {
        let buf = u256_to_big_endian(self.raw);
        proof {
            assert(encoded_len(32) == 52);
            vstd::arithmetic::power2::lemma2_to64();
        }
        base32hex_encode(buf.as_slice())
    }

    /// Reads a key segment: the amount whose big-endian bytes, at most 32
    /// of them, encode to `string`.
    pub fn parse(string: String) -> (r: Result<Amount, KeySegError>)
        requires
            string@.len() <= usize::MAX / 32,
        ensures
            r matches Ok(a) ==> exists|b: Seq<u8>|
                b.len() <= 32 && base32hex_nopad(b) == string@ && a@ == be_value(b),
            r is Err <==> forall|b: Seq<u8>| b.len() <= 32 ==> base32hex_nopad(b) != string@,
            r matches Err(KeySegError::ParseKeySeg(s, _)) ==> s@ == string@,
    {
        match base32hex_decode(string.as_str()) {
            Ok(bytes) => {
                if bytes.len() > 32 {
                    proof {
                        assert forall|b: Seq<u8>| b.len() <= 32 implies base32hex_nopad(b)
                            != string@ by {
                            if base32hex_nopad(b) == string@ {
                                lemma_encoded_len_injective(b.len(), bytes@.len());
                                lemma_base32_digits_len(
                                    be_value(b) * pow2((5 * encoded_len(b.len()) - 8 * b.len()) as nat),
                                    encoded_len(b.len()),
                                );
                                lemma_base32_digits_len(
                                    be_value(bytes@) * pow2(
                                        (5 * encoded_len(bytes@.len()) - 8 * bytes@.len()) as nat,
                                    ),
                                    encoded_len(bytes@.len()),
                                );
                            }
                        }
                    }
                    Err(KeySegError::ParseKeySeg(string, String::from_str("more than 32 bytes")))
                } else {
                    let raw = u256_from_big_endian(bytes.as_slice());
                    Ok(Amount::from_raw(raw))
                }
            },
            Err(cause) => Err(KeySegError::ParseKeySeg(string, cause)),
        }
    }
}

} // verus!
