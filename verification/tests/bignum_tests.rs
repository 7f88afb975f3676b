use webcrawl::bignum::BigNumber;

#[test]
fn arithmetic_on_six_digit_numbers() {
    let num1 = BigNumber::from_str("222222").unwrap();
    let num2 = BigNumber::from_str("111111").unwrap();
    assert_eq!(num1.add(&num2).to_string(), "333333");
    assert_eq!(num1.subtract(&num2).to_string(), "111111");
    assert_eq!(num1.multiply(&num2).to_string(), "24691308642");
    assert_eq!(num1.divide(&num2).unwrap().to_string(), "2");
}

#[test]
fn addition_carries_across_digits() {
    let a = BigNumber::from_str("999").unwrap();
    let b = BigNumber::from_str("1").unwrap();
    assert_eq!(a.add(&b).to_string(), "1000");
}

#[test]
fn mixed_signs() {
    let a = BigNumber::from_str("100").unwrap();
    let b = BigNumber::from_str("-250").unwrap();
    assert_eq!(a.add(&b).to_string(), "-150");
    assert_eq!(a.subtract(&b).to_string(), "350");
    assert_eq!(b.subtract(&a).to_string(), "-350");
    assert_eq!(a.multiply(&b).to_string(), "-25000");
}

#[test]
fn negative_difference_of_negatives() {
    let a = BigNumber::from_str("-1").unwrap();
    let b = BigNumber::from_str("-5").unwrap();
    assert_eq!(a.subtract(&b).to_string(), "4");
    assert_eq!(b.subtract(&a).to_string(), "-4");
}

#[test]
fn long_division() {
    let a = BigNumber::from_str("1000000").unwrap();
    let b = BigNumber::from_str("997").unwrap();
    assert_eq!(a.divide(&b).unwrap().to_string(), "1003");
    let c = BigNumber::from_str("42").unwrap();
    let d = BigNumber::from_str("54321").unwrap();
    assert_eq!(c.divide(&d).unwrap().to_string(), "0");
}

#[test]
fn division_by_zero_is_an_error() {
    let a = BigNumber::from_str("7").unwrap();
    let z = BigNumber::from_str("0").unwrap();
    assert!(a.divide(&z).is_err());
    assert!(a.divide(&BigNumber::from_str("-0").unwrap()).is_err());
}

#[test]
fn parsing_trims_and_rejects() {
    assert_eq!(BigNumber::from_str("  42\n").unwrap().to_string(), "42");
    assert_eq!(BigNumber::from_str("-17").unwrap().to_string(), "-17");
    assert!(BigNumber::from_str("12a").is_err());
    assert!(BigNumber::from_str("1.5").is_err());
}

#[test]
fn leading_zeros_are_kept_verbatim() {
    let a = BigNumber::from_str("007").unwrap();
    assert_eq!(a.to_string(), "007");
    let b = BigNumber::from_str("3").unwrap();
    assert_eq!(a.add(&b).to_string(), "010");
}

#[test]
fn zero_quotient_keeps_combined_sign() {
    let a = BigNumber::from_str("-10").unwrap();
    let b = BigNumber::from_str("3").unwrap();
    // A negative dividend yields a zero-magnitude quotient with the
    // combined sign.
    assert_eq!(a.divide(&b).unwrap().to_string(), "-0");
}
