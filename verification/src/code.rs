//! The digit/code representation and its bidirectional mapping to a
//! canonical six-digit numeral.

use vstd::arithmetic::div_mod::{
    lemma_fundamental_div_mod, lemma_fundamental_div_mod_converse, lemma_mod_multiples_vanish,
    lemma_mod_pos_bound, lemma_small_mod,
};
use vstd::prelude::*;

verus! {

/// One of the ten decimal symbols a code position can hold.
#[derive(Clone, Copy, Debug, Hash, PartialEq, Eq)]
pub enum Digit {
    One,
    Two,
    Three,
    Four,
    Five,
    Six,
    Seven,
    Eight,
    Nine,
    Zero,
}

/// The numeric value a digit stands for.
pub open spec fn digit_val(d: Digit) -> u8 {
    match d {
        Digit::One => 1,
        Digit::Two => 2,
        Digit::Three => 3,
        Digit::Four => 4,
        Digit::Five => 5,
        Digit::Six => 6,
        Digit::Seven => 7,
        Digit::Eight => 8,
        Digit::Nine => 9,
        Digit::Zero => 0,
    }
}

/// Converts a digit to its numeric value; total over all ten digits.
pub fn digit_to_value(d: Digit) -> (r: u8)
    ensures
        r == digit_val(d),
        r < 10,
{
    match d {
        Digit::One => 1,
        Digit::Two => 2,
        Digit::Three => 3,
        Digit::Four => 4,
        Digit::Five => 5,
        Digit::Six => 6,
        Digit::Seven => 7,
        Digit::Eight => 8,
        Digit::Nine => 9,
        Digit::Zero => 0,
    }
}

/// Converts a numeric value to the digit it stands for; values outside
/// 0..=9 are rejected rather than truncated or wrapped.
pub fn value_to_digit(v: u8) -> (r: Result<Digit, ()>)
    ensures
        v < 10 ==> (r matches Ok(d) && digit_val(d) == v),
        v >= 10 ==> r is Err,
{
    match v {
        1 => Ok(Digit::One),
        2 => Ok(Digit::Two),
        3 => Ok(Digit::Three),
        4 => Ok(Digit::Four),
        5 => Ok(Digit::Five),
        6 => Ok(Digit::Six),
        7 => Ok(Digit::Seven),
        8 => Ok(Digit::Eight),
        9 => Ok(Digit::Nine),
        0 => Ok(Digit::Zero),
        _ => Err(()),
    }
}

/// A digit for a value known to be in range; the wildcard arm is only
/// reached for zero.
fn digit_of_value(v: u8) -> (r: Digit)
    requires
        v < 10,
    ensures
        digit_val(r) == v,
{
    match v {
        1 => Digit::One,
        2 => Digit::Two,
        3 => Digit::Three,
        4 => Digit::Four,
        5 => Digit::Five,
        6 => Digit::Six,
        7 => Digit::Seven,
        8 => Digit::Eight,
        9 => Digit::Nine,
        _ => Digit::Zero,
    }
}

/// An ordered sequence of exactly six digits. Position matters, and a
/// leading zero is legal: "000000" is representable.
#[derive(Clone, Copy, Debug, Hash, PartialEq, Eq)]
pub struct Code(pub [Digit; 6]);

impl View for Code {
    type V = Seq<u8>;

    /// The mathematical content of a code: its six digit values, most
    /// significant first.
    open spec fn view(&self) -> Seq<u8> {
        self.0@.map_values(|d: Digit| digit_val(d))
    }
}

/// The digit a value in 0..=9 stands for: the inverse of `digit_val`.
pub open spec fn spec_digit_of(v: u8) -> Digit {
    if v == 1 {
        Digit::One
    } else if v == 2 {
        Digit::Two
    } else if v == 3 {
        Digit::Three
    } else if v == 4 {
        Digit::Four
    } else if v == 5 {
        Digit::Five
    } else if v == 6 {
        Digit::Six
    } else if v == 7 {
        Digit::Seven
    } else if v == 8 {
        Digit::Eight
    } else if v == 9 {
        Digit::Nine
    } else {
        Digit::Zero
    }
}

/// The digit-to-value mapping is a bijection: every digit is recovered
/// from its value.
pub proof fn lemma_digit_val_inverse(d: Digit)
    ensures
        spec_digit_of(digit_val(d)) == d,
{
}

/// The shape every code's view has: six digit values, each below ten.
pub open spec fn code_seq_wf(s: Seq<u8>) -> bool {
    &&& s.len() == 6
    &&& forall|i: int| 0 <= i < 6 ==> s[i] < 10
}

/// Every code's view is well formed.
pub proof fn lemma_code_view(c: Code)
    ensures
        code_seq_wf(c@),
        forall|i: int| 0 <= i < 6 ==> c@[i] == digit_val(c.0@[i]),
{
    assert forall|i: int| 0 <= i < 6 implies c@[i] == digit_val(c.0@[i]) && c@[i] < 10 by {
        assert(c@[i] == digit_val(c.0@[i]));
    }
}

/// Codes with the same view are the same code: the view loses nothing.
pub proof fn lemma_code_view_injective(c: Code, d: Code)
    requires
        c@ == d@,
    ensures
        c == d,
{
    assert forall|i: int| 0 <= i < 6 implies c.0@[i] == d.0@[i] by {
        lemma_code_view(c);
        lemma_code_view(d);
        assert(c@[i] == d@[i]);
        assert(c@[i] == digit_val(c.0@[i]));
        assert(d@[i] == digit_val(d.0@[i]));
        lemma_digit_val_inverse(c.0@[i]);
        lemma_digit_val_inverse(d.0@[i]);
        assert(spec_digit_of(digit_val(c.0@[i])) == spec_digit_of(digit_val(d.0@[i])));
    }
    assert(c.0 =~= d.0);
}

/// The numeral a six-value sequence denotes, first slot most significant.
pub open spec fn seq_numeral(s: Seq<u8>) -> int
    recommends
        s.len() == 6,
{
    s[0] * 100000 + s[1] * 10000 + s[2] * 1000 + s[3] * 100 + s[4] * 10 + s[5]
}

/// The six digit values of a numeral, most significant first.
pub open spec fn numeral_seq(n: int) -> Seq<u8> {
    seq![
        (n / 100000 % 10) as u8,
        (n / 10000 % 10) as u8,
        (n / 1000 % 10) as u8,
        (n / 100 % 10) as u8,
        (n / 10 % 10) as u8,
        (n % 10) as u8,
    ]
}

/// Treats the six digits as a base-10 numeral, most significant first;
/// the result always lies in 0..=999999.
pub fn code_to_numeral(c: Code) -> (r: u32)
    ensures
        r as int == seq_numeral(c@),
        r <= 999999,
{
    proof {
        lemma_code_view(c);
    }
    let d0 = digit_to_value(c.0[0]) as u32;
    let d1 = digit_to_value(c.0[1]) as u32;
    let d2 = digit_to_value(c.0[2]) as u32;
    let d3 = digit_to_value(c.0[3]) as u32;
    let d4 = digit_to_value(c.0[4]) as u32;
    let d5 = digit_to_value(c.0[5]) as u32;
    d0 * 100000 + d1 * 10000 + d2 * 1000 + d3 * 100 + d4 * 10 + d5
}

/// Decomposes a numeral in 0..=999999 into its six digits, most
/// significant first; the inverse of `code_to_numeral`.
pub fn numeral_to_code(n: u32) -> (r: Code)
    requires
        n <= 999999,
    ensures
        r@ == numeral_seq(n as int),
{
    let v0 = (n / 100000 % 10) as u8;
    let v1 = (n / 10000 % 10) as u8;
    let v2 = (n / 1000 % 10) as u8;
    let v3 = (n / 100 % 10) as u8;
    let v4 = (n / 10 % 10) as u8;
    let v5 = (n % 10) as u8;
    let r = Code(
        [
            digit_of_value(v0),
            digit_of_value(v1),
            digit_of_value(v2),
            digit_of_value(v3),
            digit_of_value(v4),
            digit_of_value(v5),
        ],
    );
    proof {
        lemma_code_view(r);
        assert(r@ =~= numeral_seq(n as int));
    }
    r
}

/// Round trip over numerals: decoding a numeral in 0..=999999 and
/// re-encoding it gives the numeral back.
pub proof fn lemma_numeral_round_trip(n: int)
    requires
        0 <= n <= 999999,
    ensures
        seq_numeral(numeral_seq(n)) == n,
{
    let q0 = n / 100000;
    let r0 = n % 100000;
    lemma_fundamental_div_mod(n, 100000);
    lemma_mod_pos_bound(n, 100000);
    let a1 = r0 / 10000;
    let r1 = r0 % 10000;
    lemma_fundamental_div_mod(r0, 10000);
    lemma_mod_pos_bound(r0, 10000);
    let a2 = r1 / 1000;
    let r2 = r1 % 1000;
    lemma_fundamental_div_mod(r1, 1000);
    lemma_mod_pos_bound(r1, 1000);
    let a3 = r2 / 100;
    let r3 = r2 % 100;
    lemma_fundamental_div_mod(r2, 100);
    lemma_mod_pos_bound(r2, 100);
    let a4 = r3 / 10;
    let r4 = r3 % 10;
    lemma_fundamental_div_mod(r3, 10);
    lemma_mod_pos_bound(r3, 10);
    lemma_small_mod(q0 as nat, 10);
    lemma_fundamental_div_mod_converse(n, 10000, 10 * q0 + a1, r1);
    lemma_mod_multiples_vanish(q0, a1, 10);
    lemma_small_mod(a1 as nat, 10);
    lemma_fundamental_div_mod_converse(n, 1000, 100 * q0 + 10 * a1 + a2, r2);
    lemma_mod_multiples_vanish(10 * q0 + a1, a2, 10);
    lemma_small_mod(a2 as nat, 10);
    lemma_fundamental_div_mod_converse(n, 100, 1000 * q0 + 100 * a1 + 10 * a2 + a3, r3);
    lemma_mod_multiples_vanish(100 * q0 + 10 * a1 + a2, a3, 10);
    lemma_small_mod(a3 as nat, 10);
    lemma_fundamental_div_mod_converse(
        n,
        10,
        10000 * q0 + 1000 * a1 + 100 * a2 + 10 * a3 + a4,
        r4,
    );
    lemma_mod_multiples_vanish(1000 * q0 + 100 * a1 + 10 * a2 + a3, a4, 10);
    lemma_small_mod(a4 as nat, 10);
}

/// Round trip over codes: encoding a well-formed digit sequence and
/// decoding the numeral gives the sequence back, so the mapping is a
/// bijection between codes and 0..=999999.
pub proof fn lemma_code_round_trip(s: Seq<u8>)
    requires
        code_seq_wf(s),
    ensures
        0 <= seq_numeral(s) <= 999999,
        numeral_seq(seq_numeral(s)) == s,
{
    let n = seq_numeral(s);
    let s0 = s[0] as int;
    let s1 = s[1] as int;
    let s2 = s[2] as int;
    let s3 = s[3] as int;
    let s4 = s[4] as int;
    let s5 = s[5] as int;
    lemma_fundamental_div_mod_converse(
        n,
        100000,
        s0,
        s1 * 10000 + s2 * 1000 + s3 * 100 + s4 * 10 + s5,
    );
    lemma_small_mod(s0 as nat, 10);
    lemma_fundamental_div_mod_converse(
        n,
        10000,
        10 * s0 + s1,
        s2 * 1000 + s3 * 100 + s4 * 10 + s5,
    );
    lemma_mod_multiples_vanish(s0, s1, 10);
    lemma_small_mod(s1 as nat, 10);
    lemma_fundamental_div_mod_converse(
        n,
        1000,
        100 * s0 + 10 * s1 + s2,
        s3 * 100 + s4 * 10 + s5,
    );
    lemma_mod_multiples_vanish(10 * s0 + s1, s2, 10);
    lemma_small_mod(s2 as nat, 10);
    lemma_fundamental_div_mod_converse(
        n,
        100,
        1000 * s0 + 100 * s1 + 10 * s2 + s3,
        s4 * 10 + s5,
    );
    lemma_mod_multiples_vanish(100 * s0 + 10 * s1 + s2, s3, 10);
    lemma_small_mod(s3 as nat, 10);
    lemma_fundamental_div_mod_converse(
        n,
        10,
        10000 * s0 + 1000 * s1 + 100 * s2 + 10 * s3 + s4,
        s5,
    );
    lemma_mod_multiples_vanish(1000 * s0 + 100 * s1 + 10 * s2 + s3, s4, 10);
    lemma_small_mod(s4 as nat, 10);
    assert(numeral_seq(n) =~= s);
}

} // verus!
