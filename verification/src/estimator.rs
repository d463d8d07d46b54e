//! The possibility-count estimator: from a candidate guess and the
//! observed (guess, response) history, the set of (good, miss) pairs a
//! new guess could still produce consistently with each observation.

use crate::code::Code;
use crate::scorer::good_count;
use itertools::Itertools;
use vstd::prelude::*;

verus! {

/// Whether the digit value `d` occurs anywhere in `s`.
pub open spec fn has_digit(s: Seq<u8>, d: u8) -> bool {
    exists|j: int| 0 <= j < s.len() && s[j] == d
}

/// How many of the first `i` positions of `g` hold a digit that occurs
/// anywhere in `h`: the multiset-overlap bound on miss credits.
pub open spec fn overlap_count(g: Seq<u8>, h: Seq<u8>, i: int) -> int
    decreases i,
{
    if i <= 0 {
        0
    } else {
        overlap_count(g, h, i - 1) + if has_digit(h, g[i - 1]) {
            1int
        } else {
            0int
        }
    }
}

/// All pairs (x, y) with x in 0..=a and y in 0..=b, in lexicographic
/// order with the first component outermost.
pub open spec fn pair_range(a: int, b: int) -> Seq<(u8, u8)>
    recommends
        0 <= a,
        0 <= b,
{
    Seq::new(((a + 1) * (b + 1)) as nat, |k: int| ((k / (b + 1)) as u8, (k % (b + 1)) as u8))
}

/// The largest good count a response to `g` could share with the
/// observation `ob`: positional overlap, capped by the observed good.
pub open spec fn good_bound(g: Seq<u8>, ob: (Code, (u8, u8))) -> int {
    let m = good_count(ob.0@, g, 6);
    if m <= ob.1.0 {
        m
    } else {
        ob.1.0 as int
    }
}

/// The largest miss count a response to `g` could share with the
/// observation `ob`: multiset overlap, capped by the observed miss.
pub open spec fn miss_bound(g: Seq<u8>, ob: (Code, (u8, u8))) -> int {
    let m = overlap_count(g, ob.0@, 6);
    if m <= ob.1.1 {
        m
    } else {
        ob.1.1 as int
    }
}

/// The (good, miss) pairs structurally consistent with each prior
/// observation, one block per observation in history order.
pub open spec fn spec_possibilities(g: Seq<u8>, obs: Seq<(Code, (u8, u8))>) -> Seq<(u8, u8)>
    decreases obs.len(),
{
    if obs.len() == 0 {
        Seq::empty()
    } else {
        spec_possibilities(g, obs.drop_last()) + pair_range(
            good_bound(g, obs.last()),
            miss_bound(g, obs.last()),
        )
    }
}

/// Relies on itertools' `Itertools::cartesian_product` over two
/// inclusive ranges: it yields every pair, outer component first, in
/// lexicographic order.
#[verifier::external_body]
fn range_pairs(a: u8, b: u8) -> (r: Vec<(u8, u8)>)
    ensures
        r@ == pair_range(a as int, b as int),
{
    (0..=a).cartesian_product(0..=b).collect()
}

/// How many positions of `a` hold the same digit as `b`.
fn positional_matches(a: Code, b: Code) -> (r: u8)
    ensures
        r as int == good_count(a@, b@, 6),
        r <= 6,
{
    let av = crate::scorer::code_values(a);
    let bv = crate::scorer::code_values(b);
    let mut n: u8 = 0;
    let mut i: usize = 0;
    while i < 6
        invariant
            i <= 6,
            av@ == a@,
            bv@ == b@,
            n as int == good_count(a@, b@, i as int),
            n <= i,
        decreases 6 - i,
    {
        if av[i] == bv[i] {
            n = n + 1;
        }
        i = i + 1;
    }
    n
}

/// Whether any position of `c` holds the digit value `v`.
fn contains_value(c: Code, v: u8) -> (r: bool)
    ensures
        r == has_digit(c@, v),
{
    let cv = crate::scorer::code_values(c);
    let mut i: usize = 0;
    while i < 6
        invariant
            i <= 6,
            cv@ == c@,
            forall|j: int| 0 <= j < i ==> c@[j] != v,
        decreases 6 - i,
    {
        if cv[i] == v {
            return true;
        }
        i = i + 1;
    }
    false
}

/// How many positions of `g` hold a digit that occurs anywhere in `h`.
fn digit_overlap(g: Code, h: Code) -> (r: u8)
    ensures
        r as int == overlap_count(g@, h@, 6),
        r <= 6,
{
    let gv = crate::scorer::code_values(g);
    let mut n: u8 = 0;
    let mut i: usize = 0;
    while i < 6
        invariant
            i <= 6,
            gv@ == g@,
            n as int == overlap_count(g@, h@, i as int),
            n <= i,
        decreases 6 - i,
    {
        if contains_value(h, gv[i]) {
            n = n + 1;
        }
        i = i + 1;
    }
    n
}

/// For each prior observation, the range of (good, miss) pairs a
/// response to `guess` could produce while remaining consistent with
/// that observation's counts: positional and multiset overlap between
/// the two guesses, capped by the observed good and miss.
pub fn possibilities(guess: Code, guesses: &Vec<(Code, (u8, u8))>) -> (r: Vec<(u8, u8)>)
    ensures
        r@ == spec_possibilities(guess@, guesses@),
{
    let mut r: Vec<(u8, u8)> = Vec::new();
    let mut i: usize = 0;
    proof {
        assert(r@ =~= spec_possibilities(guess@, guesses@.subrange(0, 0)));
    }
    while i < guesses.len()
        invariant
            i <= guesses@.len(),
            r@ == spec_possibilities(guess@, guesses@.subrange(0, i as int)),
        decreases guesses@.len() - i,
    {
        let ob = guesses[i];
        let pm = positional_matches(ob.0, guess);
        let gb = if pm <= ob.1.0 {
            pm
        } else {
            ob.1.0
        };
        let ov = digit_overlap(guess, ob.0);
        let mb = if ov <= ob.1.1 {
            ov
        } else {
            ob.1.1
        };
        let mut block = range_pairs(gb, mb);
        r.append(&mut block);
        proof {
            let pre = guesses@.subrange(0, i as int);
            let cur = guesses@.subrange(0, i + 1);
            assert(cur.drop_last() =~= pre);
            assert(cur.last() == guesses@[i as int]);
        }
        i = i + 1;
    }
    proof {
        assert(guesses@.subrange(0, guesses@.len() as int) =~= guesses@);
    }
    r
}

} // verus!
