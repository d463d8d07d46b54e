//! The feedback scorer: counts exact-position matches ("good") and
//! correct-digit-wrong-position matches ("miss") under duplicate-aware
//! rules.

use crate::code::{code_seq_wf, digit_to_value, lemma_code_view, Code};
use vstd::prelude::*;

verus! {

/// How many of the first `i` positions hold the same value in both
/// sequences: the exact matches ("good").
pub open spec fn good_count(s: Seq<u8>, g: Seq<u8>, i: int) -> int
    decreases i,
{
    if i <= 0 {
        0
    } else {
        good_count(s, g, i - 1) + if s[i - 1] == g[i - 1] {
            1int
        } else {
            0int
        }
    }
}

/// How many of the first `i` secret positions hold digit `d` without
/// being an exact match: the occurrences of `d` still available to be
/// credited as misses.
pub open spec fn avail_count(s: Seq<u8>, g: Seq<u8>, d: u8, i: int) -> int
    decreases i,
{
    if i <= 0 {
        0
    } else {
        avail_count(s, g, d, i - 1) + if s[i - 1] == d && g[i - 1] != s[i - 1] {
            1int
        } else {
            0int
        }
    }
}

/// Whether guess position `i` earns a miss credit: it is not an exact
/// match, and scanning left to right, fewer occurrences of its digit
/// have been credited so far than the secret has available.
pub open spec fn credited(s: Seq<u8>, g: Seq<u8>, i: int) -> bool
    decreases i, 1int,
{
    &&& g[i] != s[i]
    &&& credits_before(s, g, g[i], i) < avail_count(s, g, g[i], s.len() as int)
}

/// How many of the first `i` guess positions holding digit `d` have
/// been credited as misses.
pub open spec fn credits_before(s: Seq<u8>, g: Seq<u8>, d: u8, i: int) -> int
    decreases i, 0int,
{
    if i <= 0 {
        0
    } else {
        credits_before(s, g, d, i - 1) + if g[i - 1] == d && credited(s, g, i - 1) {
            1int
        } else {
            0int
        }
    }
}

/// How many of the first `i` guess positions are credited as misses.
pub open spec fn miss_count(s: Seq<u8>, g: Seq<u8>, i: int) -> int
    decreases i, 2int,
{
    if i <= 0 {
        0
    } else {
        miss_count(s, g, i - 1) + if credited(s, g, i - 1) {
            1int
        } else {
            0int
        }
    }
}

/// The verdict of scoring `g` against the secret `s`: exact-position
/// matches, and duplicate-aware wrong-position matches.
pub open spec fn spec_check(s: Seq<u8>, g: Seq<u8>) -> (int, int) {
    (good_count(s, g, s.len() as int), miss_count(s, g, s.len() as int))
}

/// The six digit values of a code, in an array.
pub(crate) fn code_values(c: Code) -> (r: [u8; 6])
    ensures
        r@ == c@,
{
    let r = [
        digit_to_value(c.0[0]),
        digit_to_value(c.0[1]),
        digit_to_value(c.0[2]),
        digit_to_value(c.0[3]),
        digit_to_value(c.0[4]),
        digit_to_value(c.0[5]),
    ];
    proof {
        lemma_code_view(c);
        assert(r@ =~= c@);
    }
    r
}

/// Scores one guess against one secret. Per guessed position: an exact
/// match counts as good; otherwise the position is credited as a miss
/// exactly when, scanning left to right, the secret still has an
/// occurrence of the guessed digit that is neither an exact match nor
/// already credited to an earlier occurrence of the same digit in the
/// guess. Good and miss together never exceed six.
pub fn check(code: Code, guess: Code) -> (r: (u8, u8))
    ensures
        r.0 as int == good_count(code@, guess@, 6),
        r.1 as int == miss_count(code@, guess@, 6),
        (r.0 as int, r.1 as int) == spec_check(code@, guess@),
        r.0 + r.1 <= 6,
{
    proof {
        lemma_code_view(code);
        lemma_code_view(guess);
    }
    let s = code_values(code);
    let g = code_values(guess);
    let mut avail: [u8; 10] = [0; 10];
    let mut j: usize = 0;
    while j < 6
        invariant
            j <= 6,
            s@ == code@,
            g@ == guess@,
            forall|d: u8| d < 10 ==> avail@[d as int] == avail_count(code@, guess@, d, j as int),
            forall|d: u8| d < 10 ==> avail@[d as int] <= j,
        decreases 6 - j,
    {
        if s[j] != g[j] && s[j] < 10 {
            let d = s[j];
            avail[d as usize] = avail[d as usize] + 1;
        }
        proof {
            assert(forall|d: u8|
                d < 10 ==> avail_count(code@, guess@, d, j + 1) == avail_count(
                    code@,
                    guess@,
                    d,
                    j as int,
                ) + if code@[j as int] == d && guess@[j as int] != code@[j as int] {
                    1int
                } else {
                    0int
                });
        }
        j = j + 1;
    }
    let mut credits: [u8; 10] = [0; 10];
    let mut good: u8 = 0;
    let mut miss: u8 = 0;
    let mut i: usize = 0;
    while i < 6
        invariant
            i <= 6,
            s@ == code@,
            g@ == guess@,
            code_seq_wf(code@),
            code_seq_wf(guess@),
            forall|d: u8| d < 10 ==> avail@[d as int] == avail_count(code@, guess@, d, 6),
            forall|d: u8| d < 10 ==> avail@[d as int] <= 6,
            forall|d: u8| d < 10 ==> credits@[d as int] == credits_before(
                code@,
                guess@,
                d,
                i as int,
            ),
            forall|d: u8| d < 10 ==> credits@[d as int] <= i,
            good as int == good_count(code@, guess@, i as int),
            miss as int == miss_count(code@, guess@, i as int),
            good + miss <= i,
        decreases 6 - i,
    {
        if g[i] == s[i] {
            good = good + 1;
            proof {
                assert(!credited(code@, guess@, i as int));
                assert(forall|d: u8|
                    d < 10 ==> credits_before(code@, guess@, d, i + 1) == credits_before(
                        code@,
                        guess@,
                        d,
                        i as int,
                    ));
            }
        } else {
            let d = g[i];
            assert(d < 10);
            if credits[d as usize] < avail[d as usize] {
                miss = miss + 1;
                credits[d as usize] = credits[d as usize] + 1;
                proof {
                    assert(credited(code@, guess@, i as int));
                    assert(forall|e: u8|
                        e < 10 && e != d ==> credits_before(code@, guess@, e, i + 1)
                            == credits_before(code@, guess@, e, i as int));
                    assert(credits_before(code@, guess@, d, i + 1) == credits_before(
                        code@,
                        guess@,
                        d,
                        i as int,
                    ) + 1);
                }
            } else {
                proof {
                    assert(!credited(code@, guess@, i as int));
                    assert(forall|e: u8|
                        e < 10 ==> credits_before(code@, guess@, e, i + 1) == credits_before(
                            code@,
                            guess@,
                            e,
                            i as int,
                        ));
                }
            }
        }
        i = i + 1;
    }
    (good, miss)
}

/// Self-score: scoring any code against itself yields six exact matches
/// and no misses.
pub proof fn lemma_self_score(s: Seq<u8>)
    requires
        s.len() == 6,
    ensures
        spec_check(s, s) == (6int, 0int),
{
    lemma_self_score_rec(s, 6);
}

proof fn lemma_self_score_rec(s: Seq<u8>, i: int)
    requires
        0 <= i <= s.len(),
    ensures
        good_count(s, s, i) == i,
        miss_count(s, s, i) == 0,
    decreases i,
{
    if i > 0 {
        lemma_self_score_rec(s, i - 1);
        assert(!credited(s, s, i - 1));
    }
}

/// A full set of exact matches pins the guess down: if all six
/// positions match, the two sequences are equal.
pub proof fn lemma_good_full(s: Seq<u8>, g: Seq<u8>)
    requires
        s.len() == 6,
        g.len() == 6,
        good_count(s, g, 6) == 6,
    ensures
        s == g,
{
    lemma_good_bound(s, g, 6);
    assert(s =~= g);
}

/// Good counts are bounded by the prefix length, and a full count
/// forces every position in the prefix to match.
proof fn lemma_good_bound(s: Seq<u8>, g: Seq<u8>, i: int)
    requires
        0 <= i,
    ensures
        good_count(s, g, i) <= i,
        good_count(s, g, i) == i ==> forall|j: int| 0 <= j < i ==> s[j] == g[j],
    decreases i,
{
    if i > 0 {
        lemma_good_bound(s, g, i - 1);
    }
}

} // verus!
