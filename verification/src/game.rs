//! The turn sequence: guesses are judged against the secret, one per turn,
//! until one candidate is left or the turns run out.

use vstd::prelude::*;
use crate::constraints::{consistent, full_feasibility, within, Constraints, Feasible};
use crate::dictionary::Dictionary;
use crate::feedback::{
    evolve, lemma_evolve_keeps_secret, lemma_evolve_shrinks, lemma_full_allows, spec_evolve,
};
use crate::filter::{candidates, lemma_candidates_contains, lemma_candidates_shrink, reduce, reduce_len};
use crate::optimizer::{
    expected_reduction, optimal_guess, optimal_index, reduction_gain, Reduction,
};
use crate::word::{encodes, is_word_text, lemma_encoding_unique, parse_word, valid_word, valid_words, Word};

verus! {

/// The number of turns in a game.
pub const MAX_TRIES: usize = 6;

/// Where a game stands.
#[derive(Clone, Copy, Debug)]
pub enum GameState {
    /// `turn` guesses have been made and more may follow.
    Playing { turn: usize, constraints: Constraints },
    /// One candidate was left after `turn` guesses, with a turn to spare.
    Solved { word: Word, turn: usize },
    /// The turns ran out with `remaining` candidates left.
    Exhausted { remaining: usize },
}

/// What a `GameState` stands for.
pub enum Progress {
    Playing { turn: nat, feasible: Feasible },
    Solved { word: Word, turn: nat },
    Exhausted { remaining: nat },
}

impl View for GameState {
    type V = Progress;

    open spec fn view(&self) -> Progress {
        match *self {
            GameState::Playing { turn, constraints } => Progress::Playing {
                turn: turn as nat,
                feasible: constraints@,
            },
            GameState::Solved { word, turn } => Progress::Solved { word, turn: turn as nat },
            GameState::Exhausted { remaining } => Progress::Exhausted {
                remaining: remaining as nat,
            },
        }
    }
}

/// What one turn did.
#[derive(Clone, Copy, Debug, PartialEq, Eq)]
pub struct TurnReport {
    /// The number of the turn, counted from one.
    pub number: usize,
    /// The word that was guessed.
    pub guess: Word,
    /// The candidates left after the feedback.
    pub remaining: usize,
    /// The candidates that the feedback removed.
    pub reduction: usize,
    /// For a guess that the search chose, the reduction it expected.
    pub expected: Option<Reduction>,
}

/// The guess of a turn: the supplied one, or else the search's choice.
pub open spec fn chosen_guess(words: Seq<Word>, c: Feasible, supplied: Option<Word>) -> Word {
    match supplied {
        Some(g) => g,
        None => words[optimal_index(words, c)],
    }
}

/// Where the game stands after guessing `guess` in the state
/// `Playing { turn, c }`.
///
/// A single candidate with a turn to spare solves the game. Otherwise the
/// game is exhausted once the last turn is spent, and goes on if not.
pub open spec fn after_turn(
    words: Seq<Word>,
    secret: Word,
    turn: nat,
    c: Feasible,
    guess: Word,
) -> Progress {
    let narrowed = spec_evolve(c, secret, guess);
    let left = candidates(words, narrowed);
    if left.len() == 1 && turn + 1 < MAX_TRIES {
        Progress::Solved { word: left[0], turn: turn + 1 }
    } else if turn + 1 >= MAX_TRIES {
        Progress::Exhausted { remaining: left.len() }
    } else {
        Progress::Playing { turn: turn + 1, feasible: narrowed }
    }
}

/// What the turn taken in the state `Playing { turn, c }` reports.
pub open spec fn report_of_turn(
    words: Seq<Word>,
    secret: Word,
    turn: nat,
    c: Feasible,
    supplied: Option<Word>,
) -> TurnReport {
    let guess = chosen_guess(words, c, supplied);
    let before = candidates(words, c).len();
    let left = candidates(words, spec_evolve(c, secret, guess)).len();
    TurnReport {
        number: (turn + 1) as usize,
        guess,
        remaining: left as usize,
        reduction: (before - left) as usize,
        expected: match supplied {
            Some(_) => None,
            None => Some(
                Reduction { gain: reduction_gain(words, c, guess) as u128, count: before as u128 },
            ),
        },
    }
}

/// The guess that the turn numbered `turn` (from zero) uses: the supplied
/// guess of that number while there is one.
pub open spec fn supplied_at(guesses: Seq<Word>, turn: nat) -> Option<Word> {
    if turn < guesses.len() {
        Some(guesses[turn as int])
    } else {
        None
    }
}

/// The turns that a state still allows.
pub open spec fn turns_left(state: Progress) -> nat {
    match state {
        Progress::Playing { turn, .. } => if turn < MAX_TRIES {
            (MAX_TRIES - turn) as nat
        } else {
            0
        },
        _ => 0,
    }
}

/// The state in which the game started from `state` ends, and the reports
/// of the turns taken on the way.
pub open spec fn play_from(words: Seq<Word>, secret: Word, guesses: Seq<Word>, state: Progress) -> (
    Progress,
    Seq<TurnReport>,
)
    decreases turns_left(state),
{
    match state {
        Progress::Playing { turn, feasible } => if turn < MAX_TRIES {
            let supplied = supplied_at(guesses, turn);
            let guess = chosen_guess(words, feasible, supplied);
            let rest = play_from(
                words,
                secret,
                guesses,
                after_turn(words, secret, turn, feasible, guess),
            );
            (rest.0, seq![report_of_turn(words, secret, turn, feasible, supplied)] + rest.1)
        } else {
            (state, Seq::empty())
        },
        _ => (state, Seq::empty()),
    }
}

/// The state before the first turn: solved at once if the dictionary holds
/// a single word.
pub open spec fn opening(words: Seq<Word>) -> Progress {
    if words.len() == 1 {
        Progress::Solved { word: words[0], turn: 0 }
    } else {
        Progress::Playing { turn: 0, feasible: full_feasibility() }
    }
}

/// Guessing in a state that still allows the secret gives a state that
/// still allows it and allows nothing new; the candidates do not grow in
/// number, and if the game ends solved, the word is the secret.
pub proof fn lemma_turn_keeps_secret(
    words: Seq<Word>,
    secret: Word,
    turn: nat,
    c: Feasible,
    guess: Word,
)
    requires
        words.contains(secret),
        consistent(secret, c),
    ensures
        candidates(words, spec_evolve(c, secret, guess)).contains(secret),
        candidates(words, spec_evolve(c, secret, guess)).len() <= candidates(words, c).len(),
        after_turn(words, secret, turn, c, guess) matches Progress::Solved { word, .. } ==> word
            == secret,
        after_turn(words, secret, turn, c, guess) matches Progress::Playing { feasible, .. }
            ==> consistent(secret, feasible) && within(feasible, c),
{
    let narrowed = spec_evolve(c, secret, guess);
    let left = candidates(words, narrowed);
    lemma_evolve_keeps_secret(c, secret, guess);
    lemma_evolve_shrinks(c, secret, guess);
    lemma_candidates_shrink(words, narrowed, c);
    lemma_candidates_contains(words, narrowed, secret);
    if left.len() == 1 {
        let k = choose|k: int| 0 <= k < left.len() && left[k] == secret;
        assert(left[0] == secret);
    }
}

impl GameState {
    /// A state in which the game can go on: turns are left and the secret
    /// is still allowed.
    pub open spec fn wf(&self, secret: Word) -> bool {
        match *self {
            GameState::Playing { turn, constraints } => turn < MAX_TRIES && consistent(
                secret,
                constraints@,
            ),
            _ => true,
        }
    }

    /// The state before the first turn.
    pub fn start(dict: &Dictionary, secret: &Word) -> (state: GameState)
        requires
            dict.wf(),
            dict@.contains(*secret),
        ensures
            state@ == opening(dict@),
            state.wf(*secret),
    {
        if dict.len() == 1 {
            GameState::Solved { word: dict.words()[0], turn: 0 }
        } else {
            proof {
                lemma_full_allows(*secret);
            }
            GameState::Playing { turn: 0, constraints: Constraints::full() }
        }
    }

    /// Tells whether the game has ended.
    pub fn is_over(&self) -> (over: bool)
        ensures
            over == !(self@ is Playing),
    {
        match self {
            GameState::Playing { .. } => false,
            _ => true,
        }
    }

    /// The word that solved the game, if it is solved.
    pub fn solution(&self) -> (word: Option<Word>)
        ensures
            word == match self@ {
                Progress::Solved { word, .. } => Some(word),
                _ => None::<Word>,
            },
    {
        match self {
            GameState::Solved { word, .. } => Some(*word),
            _ => None,
        }
    }

    /// Tells whether the game was lost: the turns ran out with two or more
    /// candidates left.
    pub fn failed(&self) -> (lost: bool)
        ensures
            lost == (self@ matches Progress::Exhausted { remaining } && remaining > 1),
    {
        match self {
            GameState::Exhausted { remaining } => *remaining > 1,
            _ => false,
        }
    }
}

/// Takes one turn in the state `Playing { turn, constraints }`: guesses
/// `supplied`, or the search's choice if there is none, and judges it
/// against the secret.
pub fn take_turn(
    dict: &Dictionary,
    secret: &Word,
    turn: usize,
    constraints: &Constraints,
    supplied: Option<Word>,
) -> (out: (GameState, TurnReport))
    requires
        dict.wf(),
        dict@.contains(*secret),
        turn < MAX_TRIES,
        consistent(*secret, constraints@),
        supplied matches Some(g) ==> valid_word(g),
    ensures
        out.0@ == after_turn(
            dict@,
            *secret,
            turn as nat,
            constraints@,
            chosen_guess(dict@, constraints@, supplied),
        ),
        out.1 == report_of_turn(dict@, *secret, turn as nat, constraints@, supplied),
        out.0.wf(*secret),
        out.0 matches GameState::Solved { word, .. } ==> word == *secret,
        out.0 matches GameState::Playing { constraints: narrowed, .. } ==> within(
            narrowed@,
            constraints@,
        ),
        out.1.remaining <= candidates(dict@, constraints@).len(),
{
    let words = dict.words();
    let before = reduce_len(words, constraints);
    let (guess, expected) = match supplied {
        Some(g) => (g, None),
        None => {
            let g = optimal_guess(words, constraints);
            let e = expected_reduction(&g, words, constraints);
            (g, Some(e))
        },
    };
    let narrowed = evolve(constraints, secret, &guess);
    let left = reduce(words, &narrowed);
    let remaining = left.len();
    proof {
        lemma_turn_keeps_secret(dict@, *secret, turn as nat, constraints@, guess);
    }
    let report = TurnReport {
        number: turn + 1,
        guess,
        remaining,
        reduction: before - remaining,
        expected,
    };
    let state = if remaining == 1 && turn + 1 < MAX_TRIES {
        GameState::Solved { word: left[0], turn: turn + 1 }
    } else if turn + 1 >= MAX_TRIES {
        GameState::Exhausted { remaining }
    } else {
        GameState::Playing { turn: turn + 1, constraints: narrowed }
    };
    (state, report)
}

/// Plays a game to its end: the supplied guesses first, one per turn, then
/// the search's choices.
///
/// The game ends solved as soon as one candidate is left with a turn to
/// spare, and exhausted when the last turn is spent; supplied guesses that
/// are left over then are not used.
pub fn play(dict: &Dictionary, secret: &Word, guesses: &Vec<Word>) -> (out: (
    GameState,
    Vec<TurnReport>,
))
    requires
        dict.wf(),
        dict@.contains(*secret),
        valid_words(guesses@),
    ensures
        (out.0@, out.1@) == play_from(dict@, *secret, guesses@, opening(dict@)),
        !(out.0@ is Playing),
        out.0 matches GameState::Solved { word, .. } ==> word == *secret,
        out.1@.len() <= MAX_TRIES,
{
    let mut state = GameState::start(dict, secret);
    let mut reports: Vec<TurnReport> = Vec::new();
    let ghost goal = play_from(dict@, *secret, guesses@, opening(dict@));
    proof {
        assert(reports@ + play_from(dict@, *secret, guesses@, state@).1 =~= goal.1);
    }
    loop
        invariant
            dict.wf(),
            dict@.contains(*secret),
            valid_words(guesses@),
            state.wf(*secret),
            goal.0 == play_from(dict@, *secret, guesses@, state@).0,
            goal.1 == reports@ + play_from(dict@, *secret, guesses@, state@).1,
            state matches GameState::Playing { turn, .. } ==> reports@.len() == turn,
            !(state@ is Playing) ==> reports@.len() <= MAX_TRIES,
            state matches GameState::Solved { word, .. } ==> word == *secret,
        ensures
            !(state@ is Playing),
        decreases turns_left(state@),
    {
        match state {
            GameState::Playing { turn, constraints } => {
                let supplied = if turn < guesses.len() {
                    Some(guesses[turn])
                } else {
                    None
                };
                let ghost rest_before = play_from(dict@, *secret, guesses@, state@);
                let (next, report) = take_turn(dict, secret, turn, &constraints, supplied);
                proof {
                    assert(supplied == supplied_at(guesses@, turn as nat));
                    let rest_after = play_from(dict@, *secret, guesses@, next@);
                    assert(rest_before.1 == seq![report] + rest_after.1);
                    assert(reports@.push(report) + rest_after.1 =~= reports@ + rest_before.1);
                }
                reports.push(report);
                state = next;
            },
            _ => {
                break ;
            },
        }
    }
    proof {
        assert(play_from(dict@, *secret, guesses@, state@).1 =~= Seq::<TurnReport>::empty());
        assert(reports@ + Seq::<TurnReport>::empty() =~= reports@);
    }
    (state, reports)
}

/// Why a game could not be set up.
#[derive(Clone, Copy, Debug, PartialEq, Eq)]
pub enum GameError {
    /// The secret is not five letters, or not a word of the dictionary.
    UnknownSecret,
    /// The supplied guess with this index, counted from zero, is the first
    /// that is not five letters.
    BadGuess { index: usize },
}

/// `text` is the text form of one of `words`.
pub open spec fn names_word_of(words: Seq<Word>, text: Seq<char>) -> bool {
    is_word_text(text) && exists|k: int| 0 <= k < words.len() && encodes(#[trigger] words[k], text)
}

/// Checks the secret and the supplied guesses before any turn is taken, and
/// encodes them.
///
/// The secret must be a word of the dictionary and every guess must be five
/// lower-case letters. The secret is looked at first, then the guesses in
/// their order.
pub fn prepare(dict: &Dictionary, secret: &str, guesses: &Vec<String>) -> (checked: Result<
    (Word, Vec<Word>),
    GameError,
>)
    requires
        dict.wf(),
    ensures
        match checked {
            Ok((word, list)) => {
                &&& names_word_of(dict@, secret@)
                &&& encodes(word, secret@)
                &&& dict@.contains(word)
                &&& valid_words(list@)
                &&& list@.len() == guesses@.len()
                &&& forall|k: int|
                    0 <= k < guesses@.len() ==> is_word_text(#[trigger] guesses@[k]@) && encodes(
                        list@[k],
                        guesses@[k]@,
                    )
            },
            Err(GameError::UnknownSecret) => !names_word_of(dict@, secret@),
            Err(GameError::BadGuess { index }) => {
                &&& names_word_of(dict@, secret@)
                &&& index < guesses@.len()
                &&& !is_word_text(guesses@[index as int]@)
                &&& forall|k: int| 0 <= k < index ==> is_word_text(#[trigger] guesses@[k]@)
            },
        },
{
    let word = match parse_word(secret) {
        Some(w) => w,
        None => {
            return Err(GameError::UnknownSecret);
        },
    };
    if !dict.contains(&word) {
        proof {
            if names_word_of(dict@, secret@) {
                let k = choose|k: int| 0 <= k < dict@.len() && encodes(#[trigger] dict@[k], secret@);
                lemma_encoding_unique(dict@[k], word, secret@);
            }
        }
        return Err(GameError::UnknownSecret);
    }
    proof {
        let k = choose|k: int| 0 <= k < dict@.len() && dict@[k] == word;
        assert(encodes(dict@[k], secret@));
    }
    let mut list: Vec<Word> = Vec::new();
    let mut i: usize = 0;
    while i < guesses.len()
        invariant
            i <= guesses@.len(),
            list@.len() == i,
            valid_words(list@),
            names_word_of(dict@, secret@),
            forall|k: int|
                0 <= k < i ==> is_word_text(#[trigger] guesses@[k]@) && encodes(
                    list@[k],
                    guesses@[k]@,
                ),
        decreases guesses@.len() - i,
    {
        match parse_word(guesses[i].as_str()) {
            Some(g) => {
                list.push(g);
            },
            None => {
                return Err(GameError::BadGuess { index: i });
            },
        }
        i += 1;
    }
    Ok((word, list))
}

/// The word that `text` spells.
pub open spec fn word_of(text: Seq<char>) -> Word {
    choose|w: Word| encodes(w, text)
}

/// The words that `texts` spell, one for one.
pub open spec fn words_of(texts: Seq<String>) -> Seq<Word> {
    Seq::new(texts.len(), |k: int| word_of(texts[k]@))
}

/// Checks the secret and the supplied guesses and, if they pass, plays the
/// game to its end. Nothing is played if the check fails.
pub fn solve(dict: &Dictionary, secret: &str, guesses: &Vec<String>) -> (outcome: Result<
    (GameState, Vec<TurnReport>),
    GameError,
>)
    requires
        dict.wf(),
    ensures
        match outcome {
            Ok((end, reports)) => {
                &&& names_word_of(dict@, secret@)
                &&& forall|k: int| 0 <= k < guesses@.len() ==> is_word_text(#[trigger] guesses@[k]@)
                &&& (end@, reports@) == play_from(
                    dict@,
                    word_of(secret@),
                    words_of(guesses@),
                    opening(dict@),
                )
                &&& !(end@ is Playing)
                &&& end matches GameState::Solved { word, .. } ==> encodes(word, secret@)
            },
            Err(GameError::UnknownSecret) => !names_word_of(dict@, secret@),
            Err(GameError::BadGuess { index }) => {
                &&& names_word_of(dict@, secret@)
                &&& index < guesses@.len()
                &&& !is_word_text(guesses@[index as int]@)
                &&& forall|k: int| 0 <= k < index ==> is_word_text(#[trigger] guesses@[k]@)
            },
        },
{
    match prepare(dict, secret, guesses) {
        Ok((word, list)) => {
            proof {
                lemma_encoding_unique(word, word_of(secret@), secret@);
                assert forall|k: int| 0 <= k < list@.len() implies list@[k] == words_of(
                    guesses@,
                )[k] by {
                    assert(is_word_text(guesses@[k]@));
                    lemma_encoding_unique(list@[k], word_of(guesses@[k]@), guesses@[k]@);
                }
                assert(list@ =~= words_of(guesses@));
            }
            Ok(play(dict, &word, &list))
        },
        Err(e) => Err(e),
    }
}

} // verus!
