//! The candidate filter: the words of a list that the constraint model
//! still allows.

use vstd::prelude::*;
use crate::constraints::{consistent, within, Constraints, Feasible};
use crate::word::{valid_word, valid_words, Word};

verus! {

/// The test that `candidates` applies to each word.
pub open spec fn is_candidate(c: Feasible) -> spec_fn(Word) -> bool {
    |w: Word| consistent(w, c)
}

/// The words of `words` that are consistent with `c`, in their order.
pub open spec fn candidates(words: Seq<Word>, c: Feasible) -> Seq<Word> {
    words.filter(is_candidate(c))
}

/// Filtering one more word appends it if it is consistent and changes
/// nothing otherwise.
proof fn lemma_candidates_step(words: Seq<Word>, c: Feasible, i: int)
    requires
        0 <= i < words.len(),
    ensures
        candidates(words.take(i + 1), c) == if consistent(words[i], c) {
            candidates(words.take(i), c).push(words[i])
        } else {
            candidates(words.take(i), c)
        },
{
    reveal(Seq::filter);
    assert(words.take(i + 1).drop_last() =~= words.take(i));
}

/// A word is a candidate exactly if it is in the list and every one of its
/// letters is allowed at its position.
pub proof fn lemma_candidates_contains(words: Seq<Word>, c: Feasible, w: Word)
    ensures
        candidates(words, c).contains(w) <==> words.contains(w) && consistent(w, c),
{
    let pred = is_candidate(c);
    if candidates(words, c).contains(w) {
        words.lemma_filter_contains_rev(pred, w);
        let k = choose|k: int| 0 <= k < candidates(words, c).len() && candidates(words, c)[k] == w;
        words.lemma_filter_pred(pred, k);
    }
    if words.contains(w) && consistent(w, c) {
        let k = choose|k: int| 0 <= k < words.len() && words[k] == w;
        words.lemma_filter_contains(pred, k);
    }
}

/// Every candidate is consistent with the model it was filtered by.
pub proof fn lemma_candidates_consistent(words: Seq<Word>, c: Feasible)
    ensures
        forall|k: int|
            0 <= k < candidates(words, c).len() ==> consistent(
                #[trigger] candidates(words, c)[k],
                c,
            ),
{
    let pool = candidates(words, c);
    assert forall|k: int| 0 <= k < pool.len() implies consistent(#[trigger] pool[k], c) by {
        assert(pool.contains(pool[k]));
        lemma_candidates_contains(words, c, pool[k]);
    }
}

/// A grid allows letters of the alphabet only, so its candidates are valid
/// words.
pub proof fn lemma_candidates_valid(words: Seq<Word>, l: Constraints)
    ensures
        valid_words(candidates(words, l@)),
{
    let pool = candidates(words, l@);
    lemma_candidates_consistent(words, l@);
    assert forall|k: int| 0 <= k < pool.len() implies valid_word(#[trigger] pool[k]) by {
        assert(consistent(pool[k], l@));
        assert forall|i: int| 0 <= i < 5 implies pool[k][i] < 26 by {
            assert(l@[i].contains(pool[k][i]));
        }
    }
}

/// A narrower model never has more candidates.
pub proof fn lemma_candidates_shrink(words: Seq<Word>, narrow: Feasible, wide: Feasible)
    requires
        within(narrow, wide),
    ensures
        candidates(words, narrow).len() <= candidates(words, wide).len(),
    decreases words.len(),
{
    reveal(Seq::filter);
    if words.len() > 0 {
        lemma_candidates_shrink(words.drop_last(), narrow, wide);
        let w = words.last();
        if consistent(w, narrow) {
            assert forall|i: int| 0 <= i < 5 implies wide[i].contains(#[trigger] w[i]) by {
                assert(narrow[i].subset_of(wide[i]));
                assert(narrow[i].contains(w[i]));
            }
        }
    }
}

/// There are never more candidates than words.
pub proof fn lemma_candidates_len(words: Seq<Word>, c: Feasible)
    ensures
        candidates(words, c).len() <= words.len(),
{
    words.lemma_filter_len(is_candidate(c));
}

/// The words of `w` that `l` still allows, in the order of `w`.
pub fn reduce(w: &Vec<Word>, l: &Constraints) -> (kept: Vec<Word>)
    ensures
        kept@ == candidates(w@, l@),
{
    let mut kept: Vec<Word> = Vec::new();
    let mut i: usize = 0;
    proof {
        reveal(Seq::filter);
        assert(w@.take(0) =~= Seq::<Word>::empty());
    }
    while i < w.len()
        invariant
            i <= w.len(),
            kept@ == candidates(w@.take(i as int), l@),
        decreases w.len() - i,
    {
        proof {
            lemma_candidates_step(w@, l@, i as int);
        }
        if l.admits(&w[i]) {
            kept.push(w[i]);
        }
        i += 1;
    }
    assert(w@.take(w.len() as int) =~= w@);
    kept
}

/// The number of words of `w` that `l` still allows.
pub fn reduce_len(w: &Vec<Word>, l: &Constraints) -> (count: usize)
    ensures
        count == candidates(w@, l@).len(),
{
    let mut count: usize = 0;
    let mut i: usize = 0;
    proof {
        reveal(Seq::filter);
        assert(w@.take(0) =~= Seq::<Word>::empty());
    }
    while i < w.len()
        invariant
            i <= w.len(),
            count <= i,
            count == candidates(w@.take(i as int), l@).len(),
        decreases w.len() - i,
    {
        proof {
            lemma_candidates_step(w@, l@, i as int);
        }
        if l.admits(&w[i]) {
            count += 1;
        }
        i += 1;
    }
    assert(w@.take(w.len() as int) =~= w@);
    count
}

} // verus!
