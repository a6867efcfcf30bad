//! The feedback rules: how a guess, judged against the secret, narrows the
//! constraint model.

use vstd::prelude::*;
use crate::constraints::{consistent, full_feasibility, within, Constraints, Feasible};
use crate::filter::{candidates, lemma_candidates_contains};
use crate::word::{valid_word, Word};

verus! {

/// `letter` was guessed somewhere and occurs nowhere in the secret.
pub open spec fn ruled_out(secret: Word, guess: Word, letter: u8) -> bool {
    guess@.contains(letter) && !secret@.contains(letter)
}

/// The letters allowed at position `i` after the feedback on `guess`.
///
/// A hit leaves the secret's letter alone. Otherwise the guessed letter goes
/// from this position, and so does every guessed letter that the secret does
/// not hold at all.
pub open spec fn evolve_at(c: Feasible, secret: Word, guess: Word, i: int) -> Set<u8> {
    if guess[i] == secret[i] {
        set![secret[i]]
    } else {
        Set::new(
            |letter: u8|
                c[i].contains(letter) && letter != guess[i] && !ruled_out(secret, guess, letter),
        )
    }
}

/// The constraint model after the feedback on `guess`, position by position.
pub open spec fn spec_evolve(c: Feasible, secret: Word, guess: Word) -> Feasible {
    Seq::new(5, |i: int| evolve_at(c, secret, guess, i))
}

/// The clue at position `k` strikes `letter` from position `p`.
spec fn struck_by(secret: Word, guess: Word, k: int, letter: u8, p: int) -> bool {
    guess[k] != secret[k] && guess[k] == letter && (k == p || !secret@.contains(letter))
}

/// One of the clues at the first `n` positions strikes `letter` from `p`.
spec fn struck_before(secret: Word, guess: Word, n: int, letter: u8, p: int) -> bool
    decreases n,
{
    n > 0 && (struck_by(secret, guess, n - 1, letter, p) || struck_before(
        secret,
        guess,
        n - 1,
        letter,
        p,
    ))
}

/// The flag of (`letter`, `p`) once the clues at the first `n` positions
/// have been applied to `l`.
spec fn cell_after(l: Constraints, secret: Word, guess: Word, n: int, letter: u8, p: int) -> bool {
    if p < n && guess[p] == secret[p] {
        letter == secret[p]
    } else {
        l.grid[letter as int][p] && !struck_before(secret, guess, n, letter, p)
    }
}

/// A word holds a letter exactly if one of its five positions does.
proof fn lemma_contains_unfold(w: Word, letter: u8)
    ensures
        w@.contains(letter) <==> (w[0] == letter || w[1] == letter || w[2] == letter || w[3]
            == letter || w[4] == letter),
{
    if w@.contains(letter) {
        let k = choose|k: int| 0 <= k < w@.len() && w@[k] == letter;
        assert(w[k] == letter);
    }
    if w[0] == letter || w[1] == letter || w[2] == letter || w[3] == letter || w[4] == letter {
        let k: int = if w[0] == letter {
            0
        } else if w[1] == letter {
            1
        } else if w[2] == letter {
            2
        } else if w[3] == letter {
            3
        } else {
            4
        };
        assert(w@[k] == letter);
    }
}

/// All five clues together strike exactly what the rules name.
proof fn lemma_struck_all(secret: Word, guess: Word, letter: u8, p: int)
    requires
        0 <= p < 5,
    ensures
        struck_before(secret, guess, 5, letter, p) <==> ((guess[p] != secret[p] && guess[p]
            == letter) || ruled_out(secret, guess, letter)),
{
    reveal_with_fuel(struck_before, 6);
    lemma_contains_unfold(secret, letter);
    lemma_contains_unfold(guess, letter);
}

/// Tells whether `letter` occurs in `w`.
pub fn has_letter(w: &Word, letter: u8) -> (found: bool)
    ensures
        found == w@.contains(letter),
{
    let mut i: usize = 0;
    while i < 5
        invariant
            i <= 5,
            forall|k: int| 0 <= k < i ==> w[k] != letter,
        decreases 5 - i,
    {
        if w[i] == letter {
            assert(w@[i as int] == letter);
            return true;
        }
        i += 1;
    }
    false
}

/// Applies the feedback that `guess` earns against the secret `word`.
///
/// Position by position: a hit collapses the position to the secret's
/// letter; a letter that the secret does not hold goes from every position;
/// a letter that the secret holds elsewhere goes from this position only.
pub fn evolve(l: &Constraints, word: &Word, guess: &Word) -> (new_l: Constraints)
    requires
        valid_word(*word),
        valid_word(*guess),
    ensures
        new_l@ == spec_evolve(l@, *word, *guess),
{
    let mut new_l = *l;
    let mut i: usize = 0;
    while i < 5
        invariant
            i <= 5,
            valid_word(*word),
            valid_word(*guess),
            forall|a: u8, p: int|
                a < 26 && 0 <= p < 5 ==> new_l.grid[a as int][p] == #[trigger] cell_after(
                    *l,
                    *word,
                    *guess,
                    i as int,
                    a,
                    p,
                ),
        decreases 5 - i,
    {
        let ghost before = new_l;
        if guess[i] == word[i] {
            let mut j: usize = 0;
            while j < 26
                invariant
                    j <= 26,
                    i < 5,
                    forall|a: u8, p: int|
                        a < 26 && 0 <= p < 5 ==> #[trigger] new_l.grid[a as int][p] == (if a < j
                            && p == i {
                            false
                        } else {
                            before.grid[a as int][p]
                        }),
                decreases 26 - j,
            {
                let mut row = new_l.grid[j];
                row[i] = false;
                new_l.grid[j] = row;
                j += 1;
            }
            let mut row = new_l.grid[word[i] as usize];
            row[i] = true;
            new_l.grid[word[i] as usize] = row;
        } else if !has_letter(word, guess[i]) {
            let mut j: usize = 0;
            while j < 5
                invariant
                    j <= 5,
                    i < 5,
                    guess[i as int] < 26,
                    forall|a: u8, p: int|
                        a < 26 && 0 <= p < 5 ==> #[trigger] new_l.grid[a as int][p] == (if a
                            == guess[i as int] && p < j {
                            false
                        } else {
                            before.grid[a as int][p]
                        }),
                decreases 5 - j,
            {
                let mut row = new_l.grid[guess[i] as usize];
                row[j] = false;
                new_l.grid[guess[i] as usize] = row;
                j += 1;
            }
        } else {
            let mut row = new_l.grid[guess[i] as usize];
            row[i] = false;
            new_l.grid[guess[i] as usize] = row;
        }
        proof {
            assert forall|a: u8, p: int| a < 26 && 0 <= p < 5 implies new_l.grid[a as int][p]
                == #[trigger] cell_after(*l, *word, *guess, i + 1, a, p) by {
                assert(before.grid[a as int][p] == cell_after(*l, *word, *guess, i as int, a, p));
                assert(word[i as int] < 26 && guess[i as int] < 26);
                if guess[p] == word[p] && !word@.contains(a) {
                    assert(word@[p] == word[p]);
                }
            }
        }
        i += 1;
    }
    proof {
        assert forall|p: int| 0 <= p < 5 implies #[trigger] new_l@[p] =~= spec_evolve(
            l@,
            *word,
            *guess,
        )[p] by {
            assert forall|a: u8|
                new_l@[p].contains(a) == spec_evolve(l@, *word, *guess)[p].contains(a) by {
                lemma_struck_all(*word, *guess, a, p);
                if a < 26 {
                    assert(new_l.grid[a as int][p] == cell_after(*l, *word, *guess, 5, a, p));
                }
            }
        }
        assert(new_l@ =~= spec_evolve(l@, *word, *guess));
    }
    new_l
}

/// The constraint model after the feedback on each of `guesses` in turn.
pub open spec fn evolve_all(c: Feasible, secret: Word, guesses: Seq<Word>) -> Feasible
    decreases guesses.len(),
{
    if guesses.len() == 0 {
        c
    } else {
        spec_evolve(evolve_all(c, secret, guesses.drop_last()), secret, guesses.last())
    }
}

/// Feedback never widens a position, as long as no hit lands on a letter
/// that the position had already lost.
pub proof fn lemma_evolve_shrinks(c: Feasible, secret: Word, guess: Word)
    requires
        forall|i: int| 0 <= i < 5 && guess[i] == secret[i] ==> c[i].contains(secret[i]),
    ensures
        within(spec_evolve(c, secret, guess), c),
{
}

/// A hit on a letter that the position had already lost brings that letter
/// back: there, and only there, a position ends up outside its old set.
pub proof fn lemma_evolve_widens_only_on_lost_hit(c: Feasible, secret: Word, guess: Word, i: int)
    requires
        0 <= i < 5,
    ensures
        spec_evolve(c, secret, guess)[i].subset_of(c[i]) <==> !(guess[i] == secret[i]
            && !c[i].contains(secret[i])),
{
    if guess[i] == secret[i] {
        assert(spec_evolve(c, secret, guess)[i].contains(secret[i]));
    }
}

/// Truthful feedback never rules out the secret itself.
pub proof fn lemma_evolve_keeps_secret(c: Feasible, secret: Word, guess: Word)
    requires
        consistent(secret, c),
    ensures
        consistent(secret, spec_evolve(c, secret, guess)),
{
    assert forall|i: int| 0 <= i < 5 implies spec_evolve(c, secret, guess)[i].contains(
        #[trigger] secret[i],
    ) by {
        assert(secret@[i] == secret[i]);
    }
}

/// After any run of truthful feedback the secret is still allowed, and no
/// position has grown.
pub proof fn lemma_evolve_all_keeps_secret(c: Feasible, secret: Word, guesses: Seq<Word>)
    requires
        consistent(secret, c),
    ensures
        consistent(secret, evolve_all(c, secret, guesses)),
        within(evolve_all(c, secret, guesses), c),
    decreases guesses.len(),
{
    if guesses.len() > 0 {
        let earlier = evolve_all(c, secret, guesses.drop_last());
        lemma_evolve_all_keeps_secret(c, secret, guesses.drop_last());
        lemma_evolve_keeps_secret(earlier, secret, guesses.last());
        lemma_evolve_shrinks(earlier, secret, guesses.last());
        let later = spec_evolve(earlier, secret, guesses.last());
        assert forall|i: int| 0 <= i < 5 implies (#[trigger] later[i]).subset_of(c[i]) by {
            assert(later[i].subset_of(earlier[i]));
            assert(earlier[i].subset_of(c[i]));
        }
    }
}

/// Before any guess every valid word is allowed.
pub proof fn lemma_full_allows(w: Word)
    requires
        valid_word(w),
    ensures
        consistent(w, full_feasibility()),
{
}

/// Guessing the secret leaves the secret as the only consistent word.
pub proof fn lemma_evolve_exact(c: Feasible, secret: Word, w: Word)
    ensures
        consistent(w, spec_evolve(c, secret, secret)) <==> w == secret,
{
    let after = spec_evolve(c, secret, secret);
    if consistent(w, after) {
        assert forall|i: int| 0 <= i < 5 implies w[i] == secret[i] by {
            assert(after[i].contains(w[i]));
        }
        assert(w =~= secret);
    }
}

/// After guessing the secret, the candidates of a list without repetitions
/// are the secret alone, if the list holds it, and none otherwise.
pub proof fn lemma_exact_guess_isolates(words: Seq<Word>, c: Feasible, secret: Word)
    requires
        words.no_duplicates(),
    ensures
        candidates(words, spec_evolve(c, secret, secret)) == if words.contains(secret) {
            seq![secret]
        } else {
            Seq::<Word>::empty()
        },
    decreases words.len(),
{
    reveal(Seq::filter);
    let after = spec_evolve(c, secret, secret);
    if words.len() > 0 {
        let front = words.drop_last();
        let w = words.last();
        lemma_exact_guess_isolates(front, c, secret);
        lemma_evolve_exact(c, secret, w);
        if w == secret {
            if front.contains(secret) {
                let k = choose|k: int| 0 <= k < front.len() && front[k] == secret;
                assert(words[k] == words[words.len() - 1]);
            }
            assert(words[words.len() - 1] == secret);
            assert(Seq::<Word>::empty().push(secret) =~= seq![secret]);
        } else {
            if words.contains(secret) {
                let k = choose|k: int| 0 <= k < words.len() && words[k] == secret;
                assert(front[k] == secret);
            }
            if front.contains(secret) {
                let k = choose|k: int| 0 <= k < front.len() && front[k] == secret;
                assert(words[k] == secret);
            }
        }
    }
}

/// After guessing the secret, every candidate is the secret, and the secret
/// is a candidate if the list holds it.
pub proof fn lemma_exact_guess_leaves_secret(words: Seq<Word>, c: Feasible, secret: Word)
    requires
        words.contains(secret),
    ensures
        candidates(words, spec_evolve(c, secret, secret)).to_set() == set![secret],
{
    let left = candidates(words, spec_evolve(c, secret, secret));
    assert forall|w: Word| left.to_set().contains(w) <==> w == secret by {
        lemma_candidates_contains(words, spec_evolve(c, secret, secret), w);
        lemma_evolve_exact(c, secret, w);
    }
    assert(left.to_set() =~= set![secret]);
}

/// A secret from the list is still a candidate after any run of truthful
/// feedback that starts from full feasibility.
pub proof fn lemma_secret_stays_candidate(words: Seq<Word>, secret: Word, guesses: Seq<Word>)
    requires
        words.contains(secret),
        valid_word(secret),
    ensures
        candidates(words, evolve_all(full_feasibility(), secret, guesses)).contains(secret),
{
    lemma_full_allows(secret);
    lemma_evolve_all_keeps_secret(full_feasibility(), secret, guesses);
    lemma_candidates_contains(words, evolve_all(full_feasibility(), secret, guesses), secret);
}

} // verus!
