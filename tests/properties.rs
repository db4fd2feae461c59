use std::cmp::Ordering;
use token_amount::amount::{Amount, AmountParseError, Change};
use token_amount::dec::Dec;
use token_amount::denominated::{DenominatedAmount, Denomination};
use token_amount::key::KeySegError;
use token_amount::masp::MaspDigitPos;
use token_amount::uint::Uint;

fn damt(m: u64, d: u8) -> DenominatedAmount {
    DenominatedAmount::new(Amount::from_u64(m), Denomination(d))
}

#[test]
fn precise_string_parses_back() {
    for x in [damt(1120, 3), damt(1120, 5), damt(0, 4), damt(200, 0), damt(u64::MAX, 30)] {
        let s = x.to_string_precise();
        assert_eq!(DenominatedAmount::from_str(&s), Ok(x));
    }
    let big = DenominatedAmount::new(Amount::max(), Denomination(0));
    let s = big.to_string_precise();
    assert_eq!(
        s,
        "115792089237316195423570985008687907853269984665640564039457584007913129639935"
    );
    assert!(DenominatedAmount::from_str(&s).is_err());
}

#[test]
fn parsed_string_formats_back() {
    for s in ["1.120", "0.01120", "200", "0.000", "7"] {
        let x = DenominatedAmount::from_str(s).unwrap();
        assert_eq!(x.to_string_precise(), s);
    }
    let x = DenominatedAmount::from_str(".34").unwrap();
    assert_eq!(x.to_string_precise(), "0.34");
    let x = DenominatedAmount::from_str("0034").unwrap();
    assert_eq!(x.to_string_precise(), "34");
    let x = DenominatedAmount::from_str("007.50").unwrap();
    assert_eq!(x.to_string_precise(), "7.50");
    let x = DenominatedAmount::from_str("1.").unwrap();
    assert_eq!(x.to_string_precise(), "1");
    let x = DenominatedAmount::from_str("00.000").unwrap();
    assert_eq!(x.to_string_precise(), "0.000");
}

#[test]
fn parse_edge_cases() {
    assert_eq!(DenominatedAmount::from_str(""), Ok(damt(0, 0)));
    assert_eq!(DenominatedAmount::from_str("."), Ok(damt(0, 0)));
    assert_eq!(DenominatedAmount::from_str("5."), Ok(damt(5, 0)));
    assert_eq!(DenominatedAmount::from_str("1.12"), Ok(damt(112, 2)));
    assert_eq!("1.12".parse::<DenominatedAmount>(), Ok(damt(112, 2)));
    assert_eq!(
        DenominatedAmount::from_str("1.12.1"),
        Err(AmountParseError::NotNumeric)
    );
    assert_eq!(
        DenominatedAmount::from_str("1.1a"),
        Err(AmountParseError::NotNumeric)
    );
    assert_eq!(
        DenominatedAmount::from_str("-1"),
        Err(AmountParseError::NotNumeric)
    );
    let digits77 = "9".repeat(77);
    assert!(DenominatedAmount::from_str(&digits77).is_ok());
    let digits78 = "1".repeat(78);
    assert_eq!(
        DenominatedAmount::from_str(&digits78),
        Err(AmountParseError::ScaleTooLarge(78, 77))
    );
    let point78 = format!("0.{}", "1".repeat(77));
    assert_eq!(
        DenominatedAmount::from_str(&point78),
        Err(AmountParseError::ScaleTooLarge(78, 77))
    );
}

#[test]
fn checked_arithmetic_is_total() {
    let a = Amount::from_u64(7);
    let b = Amount::from_u64(2);
    assert_eq!(a.checked_add(b), Some(Amount::from_u64(9)));
    assert_eq!(a.checked_sub(b), Some(Amount::from_u64(5)));
    assert_eq!(b.checked_sub(a), None);
    assert_eq!(a.checked_mul(b), Some(Amount::from_u64(14)));
    assert_eq!(a.checked_div(b), Some(Amount::from_u64(3)));
    assert_eq!(a.checked_div(Amount::zero()), None);
    let half = Amount::from_uint(Uint([0, 0, 0, 1u64 << 63]), 0).unwrap();
    assert_eq!(half.checked_mul(b), None);
    assert_eq!(Amount::max().checked_signed_add(Amount::zero()), None);
    assert_eq!(
        Amount::max_signed().checked_signed_add(Amount::zero()),
        Some(Amount::max_signed())
    );
}

#[test]
fn spend_and_receive() {
    let mut a = Amount::from_u64(10);
    assert!(a.can_spend(&Amount::from_u64(10)));
    assert!(!a.can_spend(&Amount::from_u64(11)));
    a.spend(&Amount::from_u64(4));
    assert_eq!(a, Amount::from_u64(6));
    a.receive(&Amount::from_u64(5));
    assert_eq!(a, Amount::from_u64(11));
}

#[test]
fn cross_scale_order_matches_raised() {
    let x = damt(15, 1);
    let y = damt(1500, 3);
    assert_eq!(x.partial_cmp(&y), Some(Ordering::Equal));
    assert_ne!(x, y);
    let raised = x.increase_precision(Denomination(3)).unwrap();
    assert_eq!(raised, y);
    let z = damt(1, 200);
    assert_eq!(z.partial_cmp(&damt(0, 0)), Some(Ordering::Greater));
    assert_eq!(damt(0, 0).partial_cmp(&z), Some(Ordering::Less));
    assert_eq!(damt(0, 200).partial_cmp(&damt(0, 0)), Some(Ordering::Equal));
    assert!(damt(14, 1) < damt(1500, 3));
}

#[test]
fn canonical_is_idempotent() {
    let x = damt(1500, 3).canonical();
    assert_eq!(x, damt(15, 1));
    assert_eq!(x.canonical(), x);
    assert_eq!(damt(1010, 3).canonical(), damt(101, 2));
    assert_eq!(damt(0, 3).canonical(), damt(0, 0));
    assert_eq!(damt(200, 0).canonical(), damt(200, 0));
}

#[test]
fn digits_recompose() {
    let m = Amount::from_raw(Uint([15, 16, 17, 18]));
    let mut total = Amount::zero();
    for pos in MaspDigitPos::iter() {
        let part = Amount::from_masp_denominated(pos.denominate(&m), pos);
        total = total.checked_add(part).unwrap();
    }
    assert_eq!(total, m);
    assert_eq!(MaspDigitPos::Three.denominate(&m), 18);
}

#[test]
fn masp_u128_split() {
    let v: u128 = (5u128 << 64) | 9;
    let a = Amount::from_masp_denominated_u128(v, MaspDigitPos::One).unwrap();
    assert_eq!(a.raw_amount().0, [0, 9, 5, 0]);
    assert_eq!(
        Amount::from_masp_denominated_u128(v, MaspDigitPos::Three),
        None
    );
    let small = Amount::from_masp_denominated_u128(9, MaspDigitPos::Three).unwrap();
    assert_eq!(small.raw_amount().0, [0, 0, 0, 9]);
}

#[test]
fn key_segments_sort_as_amounts() {
    let one = Amount::from_u64(1).raw();
    assert_eq!(one, format!("{}G", "0".repeat(51)));
    let values = [0u64, 1, 2, 31, 32, 255, 256, 1234560000, u64::MAX];
    for a in values {
        for b in values {
            let ka = Amount::from_u64(a).raw();
            let kb = Amount::from_u64(b).raw();
            assert_eq!(a < b, ka < kb);
        }
    }
    assert!(Amount::from_u64(u64::MAX).raw() < Amount::max().raw());
}

#[test]
fn key_segment_errors() {
    let bad = Amount::parse("!!".to_string());
    assert!(matches!(bad, Err(KeySegError::ParseKeySeg(ref s, _)) if s == "!!"));
    let long = "0".repeat(56);
    assert!(Amount::parse(long).is_err());
    assert_eq!(Amount::parse("00".to_string()), Ok(Amount::zero()));
    let max = Amount::max();
    assert_eq!(Amount::parse(max.raw()), Ok(max));
}

#[test]
fn scaling_errors() {
    assert_eq!(
        Amount::from_uint(Uint::from_u64(1), 78),
        Err(AmountParseError::ConvertToDecimal)
    );
    assert_eq!(
        Amount::from_uint(Uint::from_u64(7), 3),
        Ok(Amount::from_u64(7000))
    );
    assert_eq!(
        damt(1, 0).increase_precision(Denomination(78)),
        Err(AmountParseError::PrecisionOverflow)
    );
    assert_eq!(
        Amount::from_str("1.12", 80),
        Err(AmountParseError::PrecisionOverflow)
    );
    assert_eq!(damt(10, 3).checked_mul(damt(10, 255)), None);
    assert_eq!(damt(10, 3).checked_add(damt(10, 2)), Some(damt(110, 3)));
    assert_eq!(damt(10, 3).checked_mul(damt(10, 2)), Some(damt(100, 5)));
}

#[test]
fn rates_and_changes() {
    let dec = Dec::from_str("0.34").unwrap();
    assert_eq!(dec.abs(), Uint::from_u64(340_000_000_000));
    assert_eq!(Amount::from_u64(3).mul_ceil(dec), Amount::from_u64(2));
    assert_eq!(Amount::from_u64(50).mul_ceil(dec), Amount::from_u64(17));
    let neg = Dec::from_str("-1.5").unwrap();
    assert!(neg.is_negative());
    let whole = Dec::from_str("2.75").unwrap();
    assert_eq!(Amount::from_dec(whole), Amount::from_u64(2));
    let c = Change::new(true, Amount::from_u64(42));
    assert!(c.is_negative());
    assert_eq!(Amount::from_change(c), Amount::from_u64(42));
    assert_eq!(MaspDigitPos::Zero.denominate_i128(&c), -42);
    let p = Amount::from_u64(9).change();
    assert!(!p.is_negative());
}

#[test]
fn plain_conversions() {
    assert_eq!(Amount::from_u128(u128::MAX).to_u128(), Some(u128::MAX));
    assert_eq!(Amount::max().to_u128(), None);
    assert_eq!(Amount::native_whole(3), Amount::from_u64(3_000_000));
    assert_eq!(Amount::from_u64(1234).to_string(), "1234");
    assert_eq!(Amount::max().to_string().len(), 78);
    let (q, r) = Amount::from_u64(17).mul_fraction(3, 5);
    assert_eq!(q, Amount::from_u64(9));
    assert_eq!(r, Amount::from_u64(2));
    assert_eq!(
        DenominatedAmount::from(Amount::from_u64(5)),
        damt(5, 0)
    );
    assert_eq!(Amount::from_u64(5).native_denominated(), damt(5, 6));
}

#[test]
fn zero_scales_to_any_precision() {
    assert_eq!(
        Amount::from_uint(Uint::from_u64(0), 78),
        Ok(Amount::zero())
    );
    assert_eq!(
        damt(0, 0).increase_precision(Denomination(200)),
        Ok(damt(0, 200))
    );
    assert_eq!(Amount::from_str("0", 100), Ok(Amount::zero()));
    assert_eq!(damt(0, 0).checked_add(damt(5, 100)), Some(damt(5, 100)));
    assert_eq!(damt(5, 100).checked_sub(damt(0, 0)), Some(damt(5, 100)));
    assert_eq!(
        damt(1, 0).increase_precision(Denomination(200)),
        Err(AmountParseError::PrecisionOverflow)
    );
}

#[test]
fn amounts_order_by_magnitude() {
    let low = Amount::from_raw(Uint([u64::MAX, 0, 0, 0]));
    let high = Amount::from_raw(Uint([0, 1, 0, 0]));
    assert!(low < high);
    assert_eq!(high.partial_cmp(&low), Some(Ordering::Greater));
    assert_eq!(low.partial_cmp(&low), Some(Ordering::Equal));
    assert!(Amount::max_signed() < Amount::max());
}
