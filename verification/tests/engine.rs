use codebreaker::{all_codes, numeral_to_code, possibilities, select_guess, Code};
use std::cell::Cell;

#[test]
fn break_code() {
    let run = |secret_numeral: u32| {
        let secret = numeral_to_code(secret_numeral);
        let found = codebreaker::break_code(|guess| codebreaker::check(secret, guess));
        assert_eq!(found, Some(secret));
    };
    run(123406);
    run(111111);
    run(123456);
    run(81220);
    run(1);
}

#[test]
fn break_code_contradictory_feedback() {
    let calls = Cell::new(0u32);
    let found = codebreaker::break_code(|_guess| {
        let k = calls.get();
        calls.set(k + 1);
        if k == 0 {
            (5, 0)
        } else {
            (0, 0)
        }
    });
    assert_eq!(found, None);
}

#[test]
fn possibilities_blocks() {
    let guess = numeral_to_code(123406);
    let empty: Vec<(Code, (u8, u8))> = Vec::new();
    assert_eq!(possibilities(guess, &empty), Vec::new());

    let history = vec![(numeral_to_code(123456), (4u8, 1u8))];
    let expected: Vec<(u8, u8)> = vec![
        (0, 0),
        (0, 1),
        (1, 0),
        (1, 1),
        (2, 0),
        (2, 1),
        (3, 0),
        (3, 1),
        (4, 0),
        (4, 1),
    ];
    assert_eq!(possibilities(guess, &history), expected);
}

#[test]
fn select_guess_first_round() {
    let candidates = vec![numeral_to_code(5)];
    let history: Vec<(Code, (u8, u8))> = Vec::new();
    assert_eq!(select_guess(&candidates, &history), numeral_to_code(111222));
}

#[test]
fn select_guess_membership() {
    let mut candidates = Vec::new();
    let mut n: u32 = 3000;
    while n < 3600 {
        candidates.push(numeral_to_code(n));
        n += 1;
    }
    let history = vec![(numeral_to_code(111222), (0u8, 2u8))];
    for _ in 0..10 {
        let g = select_guess(&candidates, &history);
        assert!(candidates.contains(&g));
    }
}

#[test]
fn filter_candidates_shrinks() {
    let mut candidates = Vec::new();
    let mut n: u32 = 0;
    while n < 1000 {
        candidates.push(numeral_to_code(n));
        n += 1;
    }
    let secret = numeral_to_code(7);
    let guess = numeral_to_code(500);
    let resp = codebreaker::check(secret, guess);
    let filtered = codebreaker::filter_candidates(&candidates, guess, resp);
    assert!(filtered.len() <= candidates.len());
    assert!(filtered.contains(&secret));
    for c in &filtered {
        assert_eq!(codebreaker::check(*c, guess), resp);
    }
    assert!(!filtered.contains(&guess));
}

#[test]
fn all_codes_spans_the_space() {
    let cs = all_codes();
    assert_eq!(cs.len(), 1000000);
    assert_eq!(cs[0], numeral_to_code(0));
    assert_eq!(cs[123406], numeral_to_code(123406));
    assert_eq!(cs[999999], numeral_to_code(999999));
}
