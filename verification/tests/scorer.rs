use codebreaker::Digit::{Four, Nine, One, Six, Three, Two, Zero};
use codebreaker::Code;

#[test]
fn check() {
    let code = Code([One, Two, Three, Four, Zero, Six]);
    assert_eq!(codebreaker::check(code, code), (6, 0));

    let rev = Code([Six, Zero, Four, Three, Two, One]);
    assert_eq!(codebreaker::check(code, rev), (0, 6));

    let bad = Code([Nine, Nine, Nine, Nine, Nine, Nine]);
    assert_eq!(codebreaker::check(code, bad), (0, 0));

    let swapped = Code([One, Two, Three, Four, Six, Zero]);
    assert_eq!(codebreaker::check(code, swapped), (4, 2));

    let partial = Code([One, Two, Three, Four, Nine, Nine]);
    assert_eq!(codebreaker::check(code, partial), (4, 0));

    let dupe = Code([One, Two, Three, Four, Zero, Zero]);
    assert_eq!(codebreaker::check(code, dupe), (5, 0));

    let dupe_code = Code([One, One, One, Two, Two, Two]);
    let dupe_miss = Code([One, One, One, One, Two, Two]);
    assert_eq!(codebreaker::check(dupe_code, dupe_miss), (5, 0));

    let dupe_double_code = Code([One, Two, Nine, Nine, Nine, Nine]);
    let dupe_double_miss = Code([One, One, Two, Two, Two, Two]);
    assert_eq!(codebreaker::check(dupe_double_code, dupe_double_miss), (1, 1));
    assert_eq!(codebreaker::check(dupe_double_miss, dupe_double_code), (1, 1));
}

#[test]
fn check_duplicate_credit_order() {
    let secret = Code([One, One, Two, Two, Three, Three]);
    let guess = Code([One, Two, Three, One, Two, Three]);
    let verdict = codebreaker::check(secret, guess);
    assert_eq!(verdict, (2, 4));
    assert!(verdict.0 + verdict.1 <= 6);
}
