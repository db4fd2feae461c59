use std::cmp::Ordering;
use token_amount::amount::{Amount, AmountParseError, NATIVE_MAX_DECIMAL_PLACES, NATIVE_SCALE};
use token_amount::dec::Dec;
use token_amount::denominated::{DenominatedAmount, Denomination};
use token_amount::masp::MaspDigitPos;
use token_amount::uint::Uint;

fn amt(x: u64) -> Amount {
    Amount::from_uint(Uint::from_u64(x), 0).expect("Test failed")
}

#[test]
fn test_token_display() {
    let max = amt(u64::MAX);
    assert_eq!("18446744073709.551615", max.to_string_native());
    let max = DenominatedAmount {
        amount: max,
        denom: NATIVE_MAX_DECIMAL_PLACES.into(),
    };
    assert_eq!("18446744073709.551615", max.to_string());

    let whole = amt(u64::MAX / NATIVE_SCALE * NATIVE_SCALE);
    assert_eq!("18446744073709.000000", whole.to_string_native());
    let whole = DenominatedAmount {
        amount: whole,
        denom: NATIVE_MAX_DECIMAL_PLACES.into(),
    };
    assert_eq!("18446744073709", whole.to_string());

    let trailing_zeroes = amt(123000);
    assert_eq!("0.123000", trailing_zeroes.to_string_native());
    let trailing_zeroes = DenominatedAmount {
        amount: trailing_zeroes,
        denom: NATIVE_MAX_DECIMAL_PLACES.into(),
    };
    assert_eq!("0.123", trailing_zeroes.to_string());

    let zero = Amount::default();
    assert_eq!("0.000000", zero.to_string_native());
    let zero = DenominatedAmount {
        amount: zero,
        denom: NATIVE_MAX_DECIMAL_PLACES.into(),
    };
    assert_eq!("0", zero.to_string());

    let amount = DenominatedAmount {
        amount: amt(1120),
        denom: 3u8.into(),
    };
    assert_eq!("1.12", amount.to_string());
    assert_eq!("1.120", amount.to_string_precise());

    let amount = DenominatedAmount {
        amount: amt(1120),
        denom: 5u8.into(),
    };
    assert_eq!("0.0112", amount.to_string());
    assert_eq!("0.01120", amount.to_string_precise());

    let amount = DenominatedAmount {
        amount: amt(200),
        denom: 0.into(),
    };
    assert_eq!("200", amount.to_string());
    assert_eq!("200", amount.to_string_precise());
}

#[test]
fn test_amount_checked_sub() {
    let max = Amount::native_whole(u64::MAX);
    let one = Amount::native_whole(1);
    let zero = Amount::native_whole(0);

    assert_eq!(zero.checked_sub(zero), Some(zero));
    assert_eq!(zero.checked_sub(one), None);
    assert_eq!(zero.checked_sub(max), None);

    assert_eq!(max.checked_sub(zero), Some(max));
    assert_eq!(
        max.checked_sub(one),
        Some(Amount::native_whole(u64::MAX - 1))
    );
    assert_eq!(max.checked_sub(max), Some(zero));
}

#[test]
fn test_amount_checked_add() {
    let max = Amount::max();
    let max_signed = Amount::max_signed();
    let one = Amount::native_whole(1);
    let zero = Amount::native_whole(0);
    let m = u64::MAX;
    // 2^256 - 1 - 10^6, 2^255 - 1 - 10^6 and 2^255 - 1 + 10^6, word by word.
    let max_minus_one = Amount::from_raw(Uint([m - 1_000_000, m, m, m]));
    let max_signed_minus_one =
        Amount::from_raw(Uint([m - 1_000_000, m, m, 0x7fff_ffff_ffff_ffff]));
    let max_signed_plus_one = Amount::from_raw(Uint([999_999, 0, 0, 1u64 << 63]));

    assert_eq!(zero.checked_add(zero), Some(zero));
    assert_eq!(zero.checked_signed_add(zero), Some(zero));
    assert_eq!(zero.checked_add(one), Some(one));
    assert_eq!(zero.checked_add(max_minus_one), Some(max_minus_one));
    assert_eq!(
        zero.checked_signed_add(max_signed_minus_one),
        Some(max_signed_minus_one)
    );
    assert_eq!(zero.checked_add(max), Some(max));
    assert_eq!(zero.checked_signed_add(max_signed), Some(max_signed));

    assert_eq!(max.checked_add(zero), Some(max));
    assert_eq!(max.checked_signed_add(zero), None);
    assert_eq!(max.checked_add(one), None);
    assert_eq!(max.checked_add(max), None);

    assert_eq!(max_signed.checked_add(zero), Some(max_signed));
    assert_eq!(max_signed.checked_add(one), Some(max_signed_plus_one));
    assert_eq!(max_signed.checked_signed_add(max_signed), None);
}

#[test]
fn test_amount_from_string() {
    assert!(Amount::from_str("1.12", 1).is_err());
    assert!(Amount::from_str("0.0", 0).is_err());
    assert!(Amount::from_str("1.12", 80).is_err());
    assert!(Amount::from_str("1.12.1", 3).is_err());
    assert!(Amount::from_str("1.1a", 3).is_err());
    assert_eq!(
        Amount::zero(),
        Amount::from_str("0.0", 1).expect("Test failed")
    );
    assert_eq!(
        Amount::zero(),
        Amount::from_str(".0", 1).expect("Test failed")
    );

    let amount = Amount::from_str("1.12", 3).expect("Test failed");
    assert_eq!(amount, amt(1120));
    let amount = Amount::from_str(".34", 3).expect("Test failed");
    assert_eq!(amount, amt(340));
    let amount = Amount::from_str("0.34", 3).expect("Test failed");
    assert_eq!(amount, amt(340));
    let amount = Amount::from_str("34", 1).expect("Test failed");
    assert_eq!(amount, amt(340));
}

#[test]
fn test_from_masp_denominated() {
    let uint = Uint([15u64, 16, 17, 18]);
    let original = Amount::from_uint(uint, 0).expect("Test failed");
    for denom in MaspDigitPos::iter() {
        let word = denom.denominate(&original);
        assert_eq!(word, denom.to_index() as u64 + 15u64);
        let amount = Amount::from_masp_denominated(word, denom);
        let raw = amount.raw_amount().0;
        let mut expected = [0u64; 4];
        expected[denom.to_index()] = word;
        assert_eq!(raw, expected);
    }
}

#[test]
fn test_key_seg() {
    let original = amt(1234560000);
    let key = original.raw();
    let amount = Amount::parse(key).expect("Test failed");
    assert_eq!(amount, original);
}

#[test]
fn test_amount_is_zero() {
    let zero = Amount::zero();
    assert!(zero.is_zero());

    let non_zero = amt(1);
    assert!(!non_zero.is_zero());
}

#[test]
fn test_token_amount_mul_ceil() {
    let one = Amount::from(1);
    let two = Amount::from(2);
    let three = Amount::from(3);
    let dec = Dec::from_str("0.34").unwrap();
    assert_eq!(one.mul_ceil(dec), one);
    assert_eq!(two.mul_ceil(dec), one);
    assert_eq!(three.mul_ceil(dec), two);
}

#[test]
fn test_denominateed_arithmetic() {
    let a = DenominatedAmount::new(10.into(), 3.into());
    let b = DenominatedAmount::new(10.into(), 2.into());
    let c = DenominatedAmount::new(110.into(), 3.into());
    let d = DenominatedAmount::new(90.into(), 3.into());
    let e = DenominatedAmount::new(100.into(), 5.into());
    let f = DenominatedAmount::new(100.into(), 3.into());
    let g = DenominatedAmount::new(0.into(), 3.into());
    assert_eq!(a.checked_add(b).unwrap(), c);
    assert_eq!(b.checked_sub(a).unwrap(), d);
    assert_eq!(a.checked_mul(b).unwrap(), e);
    assert!(a.checked_sub(b).is_none());
    assert_eq!(c.checked_sub(a).unwrap(), f);
    assert_eq!(c.checked_sub(c).unwrap(), g);
}

#[test]
fn test_denominated_amt_ord() {
    let denom_1 = DenominatedAmount {
        amount: amt(15),
        denom: 1.into(),
    };
    let denom_2 = DenominatedAmount {
        amount: amt(1500),
        denom: 3.into(),
    };
    assert_eq!(
        denom_1.partial_cmp(&denom_2).expect("Test failed"),
        Ordering::Equal
    );
    assert_eq!(
        denom_2.partial_cmp(&denom_1).expect("Test failed"),
        Ordering::Equal
    );
    assert_ne!(denom_1, denom_2);

    let denom_1 = DenominatedAmount {
        amount: amt(15),
        denom: 1.into(),
    };
    let denom_2 = DenominatedAmount {
        amount: amt(1501),
        denom: 3.into(),
    };
    assert_eq!(
        denom_1.partial_cmp(&denom_2).expect("Test failed"),
        Ordering::Less
    );
    assert_eq!(
        denom_2.partial_cmp(&denom_1).expect("Test failed"),
        Ordering::Greater
    );
    let denom_1 = DenominatedAmount {
        amount: amt(15),
        denom: 1.into(),
    };
    let denom_2 = DenominatedAmount {
        amount: amt(1499),
        denom: 3.into(),
    };
    assert_eq!(
        denom_1.partial_cmp(&denom_2).expect("Test failed"),
        Ordering::Greater
    );
    assert_eq!(
        denom_2.partial_cmp(&denom_1).expect("Test failed"),
        Ordering::Less
    );
}

#[test]
fn precision_decrease_is_refused() {
    assert_eq!(
        Amount::from_str("1.12", 1),
        Err(AmountParseError::PrecisionDecrease)
    );
    let x = DenominatedAmount::new(amt(112), Denomination(2));
    assert_eq!(
        x.increase_precision(Denomination(1)),
        Err(AmountParseError::PrecisionDecrease)
    );
}
