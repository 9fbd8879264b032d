use hex_game::fin_dec::{Decimal, Digit};

#[test]
fn digit_from_char() {
    assert_eq!(Digit::try_from_char('3').unwrap(), Digit::Three);
    assert_eq!(Digit::try_from_char('a'), None);
}

#[test]
fn digit_from_u64() {
    assert_eq!(Digit::try_from_u64(3).unwrap(), Digit::Three);
    assert_eq!(Digit::try_from_u64(15), None);
}

#[test]
fn decimal_from_str() {
    assert_eq!(
        Decimal::try_from_str("123").unwrap(),
        vec![Digit::One, Digit::Two, Digit::Three].into()
    );
    assert_eq!(Decimal::try_from_str("1223345a3453"), None);
}

#[test]
fn decimal_len() {
    assert_eq!(Decimal::try_from_str("5346").unwrap().len(), 4);
}

#[test]
fn sum_digits() {
    assert_eq!(Decimal::try_from_str("12345").unwrap().sum_digits(), 15);
}

#[test]
fn digit_values_round_trip() {
    for n in 0u64..10 {
        assert_eq!(Digit::try_from_u64(n).unwrap().to_u64(), n);
    }
    assert_eq!(Digit::try_from_char('9').unwrap().to_u64(), 9);
    assert_eq!(Digit::try_from_char('0').unwrap(), Digit::Zero);
    assert_eq!(Digit::try_from_u64(10), None);
}

#[test]
fn empty_decimal() {
    let d = Decimal::try_from_str("").unwrap();
    assert_eq!(d.len(), 0);
    assert_eq!(d.sum_digits(), 0);
}
