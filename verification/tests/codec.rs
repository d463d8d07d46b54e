use codebreaker::Digit::{Eight, Four, One, Six, Three, Two, Zero};
use codebreaker::{code_to_numeral, digit_to_value, numeral_to_code, value_to_digit, Code};

#[test]
fn code() {
    let code = Code([One, Two, Three, Four, Zero, Six]);
    assert_eq!(code_to_numeral(code), 123406);
    assert_eq!(numeral_to_code(123406), code);
}

#[test]
fn round_trip_scan() {
    let mut n: u32 = 0;
    while n <= 999999 {
        assert_eq!(code_to_numeral(numeral_to_code(n)), n);
        n += 1;
    }
}

#[test]
fn round_trip_bounds() {
    assert_eq!(numeral_to_code(0), Code([Zero, Zero, Zero, Zero, Zero, Zero]));
    assert_eq!(code_to_numeral(numeral_to_code(0)), 0);
    assert_eq!(code_to_numeral(numeral_to_code(999999)), 999999);
    assert_eq!(numeral_to_code(81220), Code([Zero, Eight, One, Two, Two, Zero]));
}

#[test]
fn digit_conversions() {
    for v in 0u8..10 {
        let d = value_to_digit(v).unwrap();
        assert_eq!(digit_to_value(d), v);
    }
    assert!(value_to_digit(10).is_err());
    assert!(value_to_digit(255).is_err());
}
