//! The candidate-elimination engine: it owns the set of codes still
//! consistent with every response received, picks a guess each round,
//! asks the oracle, and filters the set by the scorer's verdict until
//! one candidate remains.

use crate::code::{
    lemma_code_round_trip, lemma_code_view, lemma_code_view_injective, lemma_numeral_round_trip,
    numeral_seq, numeral_to_code, seq_numeral, Code,
};
use crate::estimator::possibilities;
use crate::scorer::{check, lemma_good_full, lemma_self_score, spec_check};
use rand::Rng;
use vstd::prelude::*;

verus! {

/// Whether a candidate set is strictly ascending in numeral order: the
/// canonical ordering over codes, which also makes its members unique.
pub open spec fn sorted_by_numeral(cs: Seq<Code>) -> bool {
    forall|i: int, j: int| 0 <= i < j < cs.len() ==> seq_numeral(cs[i]@) < seq_numeral(cs[j]@)
}

/// The candidates that survive a round: those that would have produced
/// exactly the observed response had they been the secret.
pub open spec fn consistent_with(guess: Code, resp: (u8, u8)) -> spec_fn(Code) -> bool {
    |c: Code| spec_check(c@, guess@) == (resp.0 as int, resp.1 as int)
}

/// An oracle is truthful for a secret when every response it can give
/// is exactly the scorer's verdict for that secret.
pub open spec fn truthful<F: Fn(Code) -> (u8, u8)>(oracle: F, secret: Code) -> bool {
    forall|g: Code, resp: (u8, u8)|
        #[trigger] call_ensures(oracle, (g,), resp) ==> (resp.0 as int, resp.1 as int)
            == spec_check(secret@, g@)
}

/// Every one of the million possible codes, in ascending numeral order.
pub fn all_codes() -> (r: Vec<Code>)
    ensures
        r@.len() == 1000000,
        forall|k: int| 0 <= k < 1000000 ==> (#[trigger] r@[k])@ == numeral_seq(k),
{
    let mut r: Vec<Code> = Vec::new();
    let mut n: u32 = 0;
    while n < 1000000
        invariant
            n <= 1000000,
            r@.len() == n,
            forall|k: int| 0 <= k < n ==> (#[trigger] r@[k])@ == numeral_seq(k),
        decreases 1000000 - n,
    {
        let c = numeral_to_code(n);
        r.push(c);
        n = n + 1;
    }
    r
}

/// Filtering a sequence extended by one element keeps the old filtrate
/// and appends the new element exactly when it passes.
proof fn lemma_filter_push(s: Seq<Code>, pred: spec_fn(Code) -> bool, x: Code)
    ensures
        pred(x) ==> s.push(x).filter(pred) == s.filter(pred).push(x),
        !pred(x) ==> s.push(x).filter(pred) == s.filter(pred),
{
    reveal(Seq::filter);
    assert(s.push(x).drop_last() =~= s);
    assert(s.push(x).last() == x);
}

/// A sequence with a member that fails the predicate strictly shrinks
/// under filtering.
proof fn lemma_filter_skip(s: Seq<Code>, pred: spec_fn(Code) -> bool, j: int)
    requires
        0 <= j < s.len(),
        !pred(s[j]),
    ensures
        s.filter(pred).len() < s.len(),
    decreases s.len(),
{
    reveal(Seq::filter);
    if j == s.len() - 1 {
        s.drop_last().lemma_filter_len(pred);
    } else {
        lemma_filter_skip(s.drop_last(), pred, j);
    }
}

/// Filtering preserves the strict numeral order, and every survivor
/// comes from the original sequence.
proof fn lemma_filter_sorted(s: Seq<Code>, pred: spec_fn(Code) -> bool)
    requires
        sorted_by_numeral(s),
    ensures
        sorted_by_numeral(s.filter(pred)),
        forall|k: int|
            0 <= k < s.filter(pred).len() ==> exists|m: int|
                0 <= m < s.len() && #[trigger] s.filter(pred)[k] == s[m],
    decreases s.len(),
{
    reveal(Seq::filter);
    if s.len() > 0 {
        let pre = s.drop_last();
        assert forall|i: int, j: int| 0 <= i < j < pre.len() implies seq_numeral(pre[i]@)
            < seq_numeral(pre[j]@) by {
            assert(pre[i] == s[i]);
            assert(pre[j] == s[j]);
        }
        lemma_filter_sorted(pre, pred);
        let sub = pre.filter(pred);
        let out = s.filter(pred);
        if pred(s.last()) {
            assert(out == sub.push(s.last()));
            assert forall|k: int| 0 <= k < out.len() implies exists|m: int|
                0 <= m < s.len() && #[trigger] out[k] == s[m] by {
                if k == out.len() - 1 {
                    assert(out[k] == s[s.len() - 1]);
                } else {
                    assert(out[k] == sub[k]);
                    let m = choose|m: int| 0 <= m < pre.len() && #[trigger] sub[k] == pre[m];
                    assert(out[k] == s[m]);
                }
            }
            assert forall|k1: int, k2: int| 0 <= k1 < k2 < out.len() implies seq_numeral(
                out[k1]@,
            ) < seq_numeral(out[k2]@) by {
                if k2 == out.len() - 1 {
                    assert(out[k1] == sub[k1]);
                    let m = choose|m: int| 0 <= m < pre.len() && #[trigger] sub[k1] == pre[m];
                    assert(pre[m] == s[m]);
                    assert(seq_numeral(s[m]@) < seq_numeral(s[s.len() - 1]@));
                } else {
                    assert(out[k1] == sub[k1]);
                    assert(out[k2] == sub[k2]);
                }
            }
        } else {
            assert(out == sub);
            assert forall|k: int| 0 <= k < out.len() implies exists|m: int|
                0 <= m < s.len() && #[trigger] out[k] == s[m] by {
                assert(out[k] == sub[k]);
                let m = choose|m: int| 0 <= m < pre.len() && #[trigger] sub[k] == pre[m];
                assert(out[k] == s[m]);
            }
        }
    }
}

/// One round of elimination: keeps exactly the candidates whose verdict
/// against the guess equals the observed response. The candidate set
/// never grows: the result is the filtrate of the input, so its length
/// is bounded by the input's.
pub fn filter_candidates(cands: &Vec<Code>, guess: Code, resp: (u8, u8)) -> (r: Vec<Code>)
    ensures
        r@ == cands@.filter(consistent_with(guess, resp)),
        r@.len() <= cands@.len(),
{
    let ghost pred = consistent_with(guess, resp);
    let mut r: Vec<Code> = Vec::new();
    let mut i: usize = 0;
    proof {
        reveal(Seq::filter);
        assert(cands@.subrange(0, 0) =~= Seq::<Code>::empty());
        assert(r@ =~= cands@.subrange(0, 0).filter(pred));
    }
    while i < cands.len()
        invariant
            i <= cands@.len(),
            pred == consistent_with(guess, resp),
            r@ == cands@.subrange(0, i as int).filter(pred),
        decreases cands@.len() - i,
    {
        let c = cands[i];
        let verdict = check(c, guess);
        proof {
            let pre = cands@.subrange(0, i as int);
            let cur = cands@.subrange(0, i + 1);
            assert(cur =~= pre.push(cands@[i as int]));
            lemma_filter_push(pre, pred, cands@[i as int]);
        }
        if verdict.0 == resp.0 && verdict.1 == resp.1 {
            proof {
                assert(pred(c));
            }
            r.push(c);
        } else {
            proof {
                assert(!pred(c));
            }
        }
        i = i + 1;
    }
    proof {
        assert(cands@.subrange(0, cands@.len() as int) =~= cands@);
        cands@.lemma_filter_len(pred);
    }
    r
}

/// Relies on rand's `thread_rng` and `Rng::gen_range` over `0..n`: the
/// sample always lies below `n`; the range is nonempty, so the call
/// cannot panic.
#[verifier::external_body]
fn random_below(n: usize) -> (r: usize)
    requires
        n > 0,
    ensures
        r < n,
{
    rand::thread_rng().gen_range(0..n)
}

/// The worst case left by guessing `g`: over the response pairs still
/// structurally possible, the largest number of candidates that would
/// survive the corresponding round.
fn worst_case_survivors(g: Code, candidates: &Vec<Code>, guesses: &Vec<(Code, (u8, u8))>) -> (r:
    usize)
    ensures
        r <= candidates@.len(),
{
    let ps = possibilities(g, guesses);
    let mut hist: [usize; 49] = [0; 49];
    let mut i: usize = 0;
    while i < candidates.len()
        invariant
            i <= candidates@.len(),
            forall|e: int| 0 <= e < 49 ==> hist@[e] <= i,
        decreases candidates@.len() - i,
    {
        let resp = check(candidates[i], g);
        let idx = (resp.0 as usize) * 7 + (resp.1 as usize);
        hist[idx] = hist[idx] + 1;
        i = i + 1;
    }
    let mut worst: usize = 0;
    let mut k: usize = 0;
    while k < ps.len()
        invariant
            k <= ps@.len(),
            worst <= candidates@.len(),
            forall|e: int| 0 <= e < 49 ==> hist@[e] <= candidates@.len(),
        decreases ps@.len() - k,
    {
        let p = ps[k];
        if p.0 <= 6 && p.1 <= 6 {
            let n = hist[(p.0 as usize) * 7 + (p.1 as usize)];
            if n > worst {
                worst = n;
            }
        }
        k = k + 1;
    }
    worst
}

/// Chooses the next guess. On the first round this is the fixed opening
/// code 111222. Afterwards a random sample of the candidates is drawn
/// and, among the sampled ones, the guess minimizing the worst-case
/// surviving count is chosen, earliest candidate first on ties; if the
/// sample is empty, the first candidate in canonical order stands in.
pub fn select_guess(candidates: &Vec<Code>, guesses: &Vec<(Code, (u8, u8))>) -> (r: Code)
    requires
        candidates@.len() > 0,
    ensures
        guesses@.len() == 0 ==> r@ == numeral_seq(111222),
        guesses@.len() > 0 ==> candidates@.contains(r),
{
    if guesses.len() == 0 {
        return numeral_to_code(111222);
    }
    // Sampling keeps the minimax evaluation affordable: a fixed 1-in-500
    // survival probability while the set is small, thinned further on
    // large sets so that the expected sample stays a handful.
    let denom = if candidates.len() / 4 > 500 {
        candidates.len() / 4
    } else {
        500
    };
    let mut best: Option<(Code, usize)> = None;
    let mut idx: usize = 0;
    while idx < candidates.len()
        invariant
            idx <= candidates@.len(),
            denom > 0,
            best matches Some(p) ==> candidates@.contains(p.0),
        decreases candidates@.len() - idx,
    {
        if random_below(denom) == 0 {
            let c = candidates[idx];
            let w = worst_case_survivors(c, candidates, guesses);
            best = match best {
                None => Some((c, w)),
                Some((bc, bw)) => if w < bw {
                    Some((c, w))
                } else {
                    Some((bc, bw))
                },
            };
            proof {
                assert(candidates@[idx as int] == c);
            }
        }
        idx = idx + 1;
    }
    match best {
        Some((c, _)) => c,
        None => {
            let c = candidates[0];
            proof {
                assert(candidates@[0] == c);
            }
            c
        },
    }
}

/// Deduces the secret from round-trip feedback alone. The candidate set
/// starts as all million codes and is filtered by each response; the
/// loop ends when at most one candidate is left. For every secret the
/// oracle is truthful about, the call returns exactly that secret;
/// `None` can only arise from feedback no code is consistent with.
pub fn break_code<F: Fn(Code) -> (u8, u8)>(good: F) -> (r: Option<Code>)
    requires
        forall|g: Code| #[trigger] call_requires(good, (g,)),
    ensures
        forall|s: Code| #[trigger] truthful(good, s) ==> r == Some(s),
{
    let mut guesses = all_codes();
    let mut prev: Vec<(Code, (u8, u8))> = Vec::new();
    proof {
        assert forall|s: Code| #[trigger] truthful(good, s) implies exists|i: int|
            0 <= i < guesses@.len() && (#[trigger] guesses@[i])@ == s@ by {
            lemma_code_view(s);
            lemma_code_round_trip(s@);
            let i = seq_numeral(s@);
            assert(guesses@[i]@ == numeral_seq(i));
            assert(guesses@[i]@ == s@);
        }
        assert forall|i: int, j: int| 0 <= i < j < guesses@.len() implies seq_numeral(
            guesses@[i]@,
        ) < seq_numeral(guesses@[j]@) by {
            lemma_numeral_round_trip(i);
            lemma_numeral_round_trip(j);
        }
    }
    while guesses.len() > 1
        invariant
            forall|g: Code| #[trigger] call_requires(good, (g,)),
            sorted_by_numeral(guesses@),
            forall|s: Code| #[trigger] truthful(good, s) ==> exists|i: int|
                0 <= i < guesses@.len() && (#[trigger] guesses@[i])@ == s@,
            prev@.len() == 0 ==> guesses@.len() == 1000000,
            prev@.len() == 0 ==> forall|k: int|
                0 <= k < 1000000 ==> (#[trigger] guesses@[k])@ == numeral_seq(k),
        decreases guesses@.len(),
    {
        let first_round = prev.len() == 0;
        let guess = select_guess(&guesses, &prev);
        proof {
            if first_round {
                assert(guesses@[111222]@ == numeral_seq(111222));
            }
        }
        let resp = good(guess);
        prev.push((guess, resp));
        let next = filter_candidates(&guesses, guess, resp);
        proof {
            let pred = consistent_with(guess, resp);
            lemma_code_view(guess);
            lemma_self_score(guess@);
            let j: int = if first_round {
                111222
            } else {
                choose|j: int| 0 <= j < guesses@.len() && guesses@[j] == guess
            };
            assert(0 <= j < guesses@.len() && guesses@[j]@ == guess@);
            lemma_filter_sorted(guesses@, pred);
            if (resp.0 as int, resp.1 as int) == (6int, 0int) {
                let out = guesses@.filter(pred);
                if out.len() >= 2 {
                    guesses@.lemma_filter_pred(pred, 0);
                    guesses@.lemma_filter_pred(pred, 1);
                    lemma_code_view(out[0]);
                    lemma_code_view(out[1]);
                    lemma_good_full(out[0]@, guess@);
                    lemma_good_full(out[1]@, guess@);
                    assert(seq_numeral(out[0]@) < seq_numeral(out[1]@));
                    assert(false);
                }
            } else {
                assert(!pred(guesses@[j]));
                lemma_filter_skip(guesses@, pred, j);
            }
            assert(next@.len() < guesses@.len());
            assert forall|s: Code| #[trigger] truthful(good, s) implies exists|i: int|
                0 <= i < next@.len() && (#[trigger] next@[i])@ == s@ by {
                let i0 = choose|i: int|
                    0 <= i < guesses@.len() && (#[trigger] guesses@[i])@ == s@;
                assert((resp.0 as int, resp.1 as int) == spec_check(s@, guess@));
                assert(pred(guesses@[i0]));
                guesses@.lemma_filter_contains(pred, i0);
                assert(next@.contains(guesses@[i0]));
                let i1 = choose|i: int| 0 <= i < next@.len() && next@[i] == guesses@[i0];
                assert(next@[i1]@ == s@);
            }
        }
        guesses = next;
    }
    if guesses.len() == 1 {
        let c = guesses[0];
        proof {
            assert forall|s: Code| #[trigger] truthful(good, s) implies c == s by {
                let i = choose|i: int|
                    0 <= i < guesses@.len() && (#[trigger] guesses@[i])@ == s@;
                assert(i == 0);
                lemma_code_view_injective(c, s);
            }
        }
        Some(c)
    } else {
        proof {
            assert forall|s: Code| #[trigger] truthful(good, s) implies false by {
                let i = choose|i: int|
                    0 <= i < guesses@.len() && (#[trigger] guesses@[i])@ == s@;
            }
        }
        None
    }
}

} // verus!

