//! The guess search: the word whose feedback is expected to leave the
//! fewest candidates.

use rayon::iter::{IntoParallelRefIterator, ParallelIterator};
use vstd::prelude::*;
use crate::constraints::{consistent, Constraints, Feasible};
use crate::feedback::{evolve, lemma_evolve_keeps_secret, spec_evolve};
use crate::filter::{
    candidates, lemma_candidates_consistent, lemma_candidates_contains, lemma_candidates_len,
    lemma_candidates_valid, reduce, reduce_len,
};
use crate::word::{valid_word, valid_words, Word};

verus! {

/// How many of `pool` would still be candidates after guessing `guess`
/// against the secret `secret`.
pub open spec fn survivors(pool: Seq<Word>, c: Feasible, secret: Word, guess: Word) -> nat {
    candidates(pool, spec_evolve(c, secret, guess)).len()
}

/// `survivors` summed over the first `n` words of `pool`, each taken as the
/// secret.
pub open spec fn survivors_sum(pool: Seq<Word>, c: Feasible, guess: Word, n: nat) -> nat
    decreases n,
{
    if n == 0 {
        0
    } else {
        survivors_sum(pool, c, guess, (n - 1) as nat) + survivors(pool, c, pool[n - 1], guess)
    }
}

/// `survivors` summed over every candidate of `words` taken as the secret.
pub open spec fn survivors_total(words: Seq<Word>, c: Feasible, guess: Word) -> nat {
    let pool = candidates(words, c);
    survivors_sum(pool, c, guess, pool.len())
}

/// The expected reduction of `guess`, times the number `n` of candidates:
/// `n * n` less the survivors over all candidates. The expected reduction
/// itself is this gain divided by `n`.
pub open spec fn reduction_gain(words: Seq<Word>, c: Feasible, guess: Word) -> int {
    let n = candidates(words, c).len();
    n * n - survivors_total(words, c, guess)
}

/// An expected reduction as an exact fraction `gain / count`: `count` is the
/// number of candidates and `gain / count` the number of them that a guess
/// is expected to remove.
#[derive(Clone, Copy, Debug, PartialEq, Eq)]
pub struct Reduction {
    pub gain: u128,
    pub count: u128,
}

/// `k` is where the search stops: the first index of `totals` that holds
/// the least value.
pub open spec fn is_first_least(totals: Seq<u128>, k: int) -> bool {
    &&& 0 <= k < totals.len()
    &&& forall|j: int| 0 <= j < totals.len() ==> totals[k] <= #[trigger] totals[j]
    &&& forall|j: int| 0 <= j < k ==> totals[k] < #[trigger] totals[j]
}

/// `k` is the first index of `words` whose word has the greatest expected
/// reduction.
pub open spec fn is_optimal_index(words: Seq<Word>, c: Feasible, k: int) -> bool {
    &&& 0 <= k < words.len()
    &&& forall|j: int|
        0 <= j < words.len() ==> reduction_gain(words, c, #[trigger] words[j]) <= reduction_gain(
            words,
            c,
            words[k],
        )
    &&& forall|j: int|
        0 <= j < k ==> reduction_gain(words, c, #[trigger] words[j]) < reduction_gain(
            words,
            c,
            words[k],
        )
}

/// The index that `is_optimal_index` singles out.
pub open spec fn optimal_index(words: Seq<Word>, c: Feasible) -> int {
    choose|k: int| is_optimal_index(words, c, k)
}

/// No sum over `n` secrets exceeds `n` times the size of the pool.
proof fn lemma_survivors_sum_bound(pool: Seq<Word>, c: Feasible, guess: Word, n: nat)
    ensures
        survivors_sum(pool, c, guess, n) <= n * pool.len(),
    decreases n,
{
    if n > 0 {
        lemma_survivors_sum_bound(pool, c, guess, (n - 1) as nat);
        lemma_candidates_len(pool, spec_evolve(c, pool[n - 1], guess));
        assert((n - 1) * pool.len() + pool.len() == n * pool.len()) by (nonlinear_arith);
    }
}

/// Each of the first `n` secrets survives its own feedback, so the sum is at
/// least `n`.
proof fn lemma_survivors_sum_floor(pool: Seq<Word>, c: Feasible, guess: Word, n: nat)
    requires
        n <= pool.len(),
        forall|k: int| 0 <= k < pool.len() ==> consistent(#[trigger] pool[k], c),
    ensures
        n <= survivors_sum(pool, c, guess, n),
    decreases n,
{
    if n > 0 {
        lemma_survivors_sum_floor(pool, c, guess, (n - 1) as nat);
        let secret = pool[n - 1];
        let after = spec_evolve(c, secret, guess);
        lemma_evolve_keeps_secret(c, secret, guess);
        assert(pool.contains(secret));
        lemma_candidates_contains(pool, after, secret);
        assert(candidates(pool, after).len() > 0);
    }
}

/// The expected reduction is never negative and never more than the
/// candidates less one; with a single candidate it is zero.
pub proof fn lemma_reduction_range(words: Seq<Word>, c: Feasible, guess: Word)
    ensures
        0 <= reduction_gain(words, c, guess),
        reduction_gain(words, c, guess) <= candidates(words, c).len() * candidates(
            words,
            c,
        ).len() - candidates(words, c).len(),
        candidates(words, c).len() == 1 ==> reduction_gain(words, c, guess) == 0,
{
    let pool = candidates(words, c);
    lemma_survivors_sum_bound(pool, c, guess, pool.len());
    lemma_candidates_consistent(words, c);
    lemma_survivors_sum_floor(pool, c, guess, pool.len());
}

/// At most one index is optimal.
pub proof fn lemma_optimal_index_unique(words: Seq<Word>, c: Feasible, k1: int, k2: int)
    requires
        is_optimal_index(words, c, k1),
        is_optimal_index(words, c, k2),
    ensures
        k1 == k2,
{
    let at1 = reduction_gain(words, c, words[k1]);
    let at2 = reduction_gain(words, c, words[k2]);
    assert(at1 <= at2 && at2 <= at1);
}

/// Among words that tie for the greatest expected reduction the search
/// settles on the one that stands first.
pub proof fn lemma_ties_go_to_first(words: Seq<Word>, c: Feasible, k: int, j: int)
    requires
        is_optimal_index(words, c, k),
        0 <= j < words.len(),
        reduction_gain(words, c, words[j]) == reduction_gain(words, c, words[k]),
    ensures
        k <= j,
{
    if j < k {
        assert(reduction_gain(words, c, words[j]) < reduction_gain(words, c, words[k]));
    }
}

/// The survivors over every word of `pool` taken as the secret, for the one
/// guess `guess`.
pub fn survivor_count(guess: &Word, pool: &Vec<Word>, l: &Constraints) -> (total: u128)
    requires
        valid_word(*guess),
        valid_words(pool@),
    ensures
        total == survivors_sum(pool@, l@, *guess, pool@.len()),
        total <= pool@.len() * pool@.len(),
{
    let n = pool.len();
    let mut total: u128 = 0;
    let mut i: usize = 0;
    while i < n
        invariant
            i <= n,
            n == pool@.len(),
            valid_word(*guess),
            valid_words(pool@),
            total == survivors_sum(pool@, l@, *guess, i as nat),
            total <= i * n,
        decreases n - i,
    {
        let after = evolve(l, &pool[i], guess);
        let left = reduce_len(pool, &after);
        proof {
            lemma_candidates_len(pool@, after@);
            assert(i * n + n == (i + 1) * n) by (nonlinear_arith);
            assert((i + 1) * n <= 0xffff_ffff_ffff_ffff * 0xffff_ffff_ffff_ffff) by (nonlinear_arith)
                requires
                    0 <= i + 1 <= 0xffff_ffff_ffff_ffff,
                    0 <= n <= 0xffff_ffff_ffff_ffff,
            ;
        }
        total = total + left as u128;
        i += 1;
    }
    proof {
        assert(i * n == n * n);
    }
    total
}

/// How far guessing `guess` is expected to shrink the candidates of `w`.
///
/// With `n` candidates the expected reduction is `n` less the average, over
/// every candidate taken as the secret, of the candidates left after the
/// feedback. It is returned as the exact fraction `gain / count` with
/// `count == n`; with no candidate at all both parts are zero.
pub fn expected_reduction(guess: &Word, w: &Vec<Word>, l: &Constraints) -> (r: Reduction)
    requires
        valid_word(*guess),
    ensures
        r.count == candidates(w@, l@).len(),
        r.gain == reduction_gain(w@, l@, *guess),
{
    let g = reduce(w, l);
    proof {
        lemma_candidates_valid(w@, *l);
    }
    let total = survivor_count(guess, &g, l);
    let n = g.len() as u128;
    proof {
        assert(n * n <= 0xffff_ffff_ffff_ffff * 0xffff_ffff_ffff_ffff) by (nonlinear_arith)
            requires
                0 <= n <= 0xffff_ffff_ffff_ffff,
        ;
    }
    Reduction { gain: n * n - total, count: n }
}

/// The first index of `totals` that holds the least value.
pub fn first_least(totals: &Vec<u128>) -> (k: usize)
    requires
        totals.len() > 0,
    ensures
        is_first_least(totals@, k as int),
{
    let mut k: usize = 0;
    let mut i: usize = 1;
    while i < totals.len()
        invariant
            1 <= i <= totals.len(),
            k < i,
            forall|j: int| 0 <= j < i ==> totals[k as int] <= #[trigger] totals[j],
            forall|j: int| 0 <= j < k ==> totals[k as int] < #[trigger] totals[j],
        decreases totals.len() - i,
    {
        if totals[i] < totals[k] {
            k = i;
        }
        i += 1;
    }
    k
}

/// Runs `survivor_count` for every word of `w` on rayon's worker threads, as
/// `par_iter().map(..).collect()`.
///
/// Not proved, but taken from rayon: `map` applies the closure to each item,
/// and `collect` into a `Vec` gives the results in the order of the source,
/// as a sequential `collect` would. So entry `k` of the result is the count
/// for `w[k]`.
#[verifier::external_body]
fn survivor_counts(w: &Vec<Word>, pool: &Vec<Word>, l: &Constraints) -> (totals: Vec<u128>)
    requires
        valid_words(w@),
        valid_words(pool@),
    ensures
        totals@.len() == w@.len(),
        forall|k: int|
            0 <= k < w@.len() ==> #[trigger] totals@[k] == survivors_sum(
                pool@,
                l@,
                w@[k],
                pool@.len(),
            ),
{
    w.par_iter().map(|guess| survivor_count(guess, pool, l)).collect()
}

/// The word of `w` with the greatest expected reduction; among equals, the
/// one that stands first in `w`.
///
/// Every word of `w` is tried as a guess, also those that are no candidates
/// any more.
pub fn optimal_guess(w: &Vec<Word>, l: &Constraints) -> (best: Word)
    requires
        w.len() > 0,
        valid_words(w@),
    ensures
        is_optimal_index(w@, l@, optimal_index(w@, l@)),
        best == w@[optimal_index(w@, l@)],
{
    let pool = reduce(w, l);
    proof {
        lemma_candidates_valid(w@, *l);
    }
    let totals = survivor_counts(w, &pool, l);
    let k = first_least(&totals);
    proof {
        assert forall|j: int| 0 <= j < w@.len() implies reduction_gain(w@, l@, #[trigger] w@[j])
            == pool@.len() * pool@.len() - totals@[j] by {
            assert(totals@[j] == survivors_sum(pool@, l@, w@[j], pool@.len()));
        }
        assert(is_optimal_index(w@, l@, k as int));
    }
    w[k]
}

} // verus!
