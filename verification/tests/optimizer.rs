use wordle_solver::constraints::Constraints;
use wordle_solver::feedback::evolve;
use wordle_solver::filter::reduce;
use wordle_solver::optimizer::{
    expected_reduction, first_least, optimal_guess, survivor_count, Reduction,
};
use wordle_solver::word::{string_to_u8, Word};

fn guesses_from(texts: &[&str]) -> Vec<Word> {
    texts.iter().map(|t| string_to_u8(t)).collect()
}

#[test]
fn survivors_are_summed_over_every_secret() {
    let pool = guesses_from(&["abcde", "abcdf", "xyzzy"]);
    let c = Constraints::full();
    // each secret is left alone with itself
    assert_eq!(survivor_count(&string_to_u8("abcde"), &pool, &c), 3);
    // `xyzzy` cannot tell `abcde` from `abcdf`: 2 + 2 + 1
    assert_eq!(survivor_count(&string_to_u8("xyzzy"), &pool, &c), 5);
    // a guess that tells nothing leaves all three, three times
    assert_eq!(survivor_count(&string_to_u8("qqqqq"), &pool, &c), 9);
}

#[test]
fn expected_reduction_is_candidates_less_average_survivors() {
    let list = guesses_from(&["abcde", "abcdf", "xyzzy"]);
    let c = Constraints::full();
    assert_eq!(
        expected_reduction(&string_to_u8("abcde"), &list, &c),
        Reduction { gain: 6, count: 3 }
    );
    assert_eq!(
        expected_reduction(&string_to_u8("xyzzy"), &list, &c),
        Reduction { gain: 4, count: 3 }
    );
    assert_eq!(
        expected_reduction(&string_to_u8("qqqqq"), &list, &c),
        Reduction { gain: 0, count: 3 }
    );
}

#[test]
fn expected_reduction_counts_candidates_only() {
    let list = guesses_from(&["abcde", "abcdf", "xyzzy"]);
    // after `xyzzy` against `abcde` two candidates are left
    let c = evolve(&Constraints::full(), &string_to_u8("abcde"), &string_to_u8("xyzzy"));
    assert_eq!(
        expected_reduction(&string_to_u8("abcde"), &list, &c),
        Reduction { gain: 2, count: 2 }
    );
    assert_eq!(
        expected_reduction(&string_to_u8("xyzzy"), &list, &c),
        Reduction { gain: 0, count: 2 }
    );
}

#[test]
fn single_candidate_cannot_be_reduced() {
    let list = guesses_from(&["abcde", "abcdf", "xyzzy"]);
    let secret = string_to_u8("xyzzy");
    let c = evolve(&Constraints::full(), &secret, &string_to_u8("abcde"));
    assert_eq!(reduce(&list, &c), vec![secret]);
    for guess in &list {
        assert_eq!(expected_reduction(guess, &list, &c), Reduction { gain: 0, count: 1 });
    }
}

#[test]
fn expected_reduction_stays_in_range() {
    let list = guesses_from(&["bight", "eight", "fight", "light", "might", "night", "wight"]);
    let c = Constraints::full();
    for guess in list.iter().chain(guesses_from(&["qqqqq", "thing"]).iter()) {
        let r = expected_reduction(guess, &list, &c);
        assert_eq!(r.count, 7);
        assert!(r.gain <= 7 * 7 - 7);
    }
}

#[test]
fn no_candidate_gives_an_empty_fraction() {
    let list = guesses_from(&["abcde"]);
    let c = evolve(&Constraints::full(), &string_to_u8("xyzzy"), &string_to_u8("abcde"));
    assert_eq!(
        expected_reduction(&string_to_u8("abcde"), &list, &c),
        Reduction { gain: 0, count: 0 }
    );
}

#[test]
fn first_least_prefers_the_earliest_index() {
    assert_eq!(first_least(&vec![3, 1, 1]), 1);
    assert_eq!(first_least(&vec![5, 5, 5]), 0);
    assert_eq!(first_least(&vec![9, 8, 7, 7, 8]), 2);
    assert_eq!(first_least(&vec![4]), 0);
}

#[test]
fn optimal_guess_takes_the_greatest_expected_reduction() {
    let list = guesses_from(&["qqqqq", "zzzza", "zzzzb"]);
    let c = Constraints::full();
    assert_eq!(expected_reduction(&list[0], &list, &c), Reduction { gain: 4, count: 3 });
    assert_eq!(expected_reduction(&list[1], &list, &c), Reduction { gain: 6, count: 3 });
    assert_eq!(expected_reduction(&list[2], &list, &c), Reduction { gain: 6, count: 3 });
    assert_eq!(optimal_guess(&list, &c), string_to_u8("zzzza"));
}

#[test]
fn ties_go_to_the_word_that_stands_first() {
    let c = Constraints::full();
    let forward = guesses_from(&["abcde", "abcdf", "xyzzy"]);
    assert_eq!(optimal_guess(&forward, &c), string_to_u8("abcde"));
    let backward = guesses_from(&["xyzzy", "abcdf", "abcde"]);
    assert_eq!(optimal_guess(&backward, &c), string_to_u8("abcdf"));
}

#[test]
fn optimal_guess_is_the_same_on_every_run() {
    let list = guesses_from(&[
        "bight", "eight", "fight", "light", "might", "night", "right", "sight", "tight", "wight",
    ]);
    let c = Constraints::full();
    let first = optimal_guess(&list, &c);
    assert_eq!(first, string_to_u8("bight"));
    for _ in 0..20 {
        assert_eq!(optimal_guess(&list, &c), first);
    }
}

#[test]
fn eliminated_word_may_still_be_the_best_probe() {
    let list = guesses_from(&["aaaab", "aaaac", "aaaad", "aaaae", "qqbcd"]);
    // `q` is struck, so `qqbcd` is no candidate any more
    let c = evolve(&Constraints::full(), &string_to_u8("aaaab"), &string_to_u8("qzzzz"));
    assert_eq!(reduce(&list, &c), guesses_from(&["aaaab", "aaaac", "aaaad", "aaaae"]));
    // a candidate tells itself from the rest: 1 + 3 + 3 + 3 survivors
    assert_eq!(expected_reduction(&list[0], &list, &c), Reduction { gain: 6, count: 4 });
    // the probe strikes two words or hits the last letter: 2 + 2 + 1 + 1 survivors
    assert_eq!(expected_reduction(&list[4], &list, &c), Reduction { gain: 10, count: 4 });
    assert_eq!(optimal_guess(&list, &c), string_to_u8("qqbcd"));
}
