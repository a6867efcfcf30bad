use wordle_solver::constraints::Constraints;
use wordle_solver::feedback::evolve;
use wordle_solver::filter::{reduce, reduce_len};
use wordle_solver::word::{string_to_u8, Word};

fn word_list(texts: &[&str]) -> Vec<Word> {
    texts.iter().map(|t| string_to_u8(t)).collect()
}

#[test]
fn full_constraints_keep_every_word() {
    let list = word_list(&["crane", "slate", "abcde"]);
    assert_eq!(reduce(&list, &Constraints::full()), list);
    assert_eq!(reduce_len(&list, &Constraints::full()), 3);
}

#[test]
fn empty_list_has_no_candidates() {
    let list: Vec<Word> = Vec::new();
    assert_eq!(reduce(&list, &Constraints::full()), list);
    assert_eq!(reduce_len(&list, &Constraints::full()), 0);
}

#[test]
fn candidates_keep_the_order_of_the_list() {
    let list = word_list(&["xyzzy", "abcdf", "mmmmm", "abcde", "xxxxx"]);
    // strike `m` everywhere
    let c = evolve(&Constraints::full(), &string_to_u8("abcde"), &string_to_u8("mmmmm"));
    assert_eq!(reduce(&list, &c), word_list(&["xyzzy", "abcdf", "abcde", "xxxxx"]));
}

#[test]
fn word_is_kept_exactly_if_every_letter_is_allowed() {
    let list = word_list(&["abcde", "abcdf", "ebcda", "xyzzy", "aaaaa"]);
    let c = evolve(&Constraints::full(), &string_to_u8("abcde"), &string_to_u8("ebcdx"));
    let kept = reduce(&list, &c);
    for w in &list {
        let allowed = (0..5).all(|i| c.permits(i, w[i]));
        assert_eq!(kept.contains(w), allowed);
        assert_eq!(c.admits(w), allowed);
    }
    assert_eq!(kept, word_list(&["abcde", "abcdf"]));
}

#[test]
fn repeated_words_are_kept_as_often_as_they_stand() {
    let list = word_list(&["abcde", "xyzzy", "abcde"]);
    let c = evolve(&Constraints::full(), &string_to_u8("abcde"), &string_to_u8("abcde"));
    assert_eq!(reduce(&list, &c), word_list(&["abcde", "abcde"]));
    assert_eq!(reduce_len(&list, &c), 2);
}

#[test]
fn word_with_a_letter_out_of_range_is_no_candidate() {
    let list: Vec<Word> = vec![[0, 1, 2, 3, 26], [0, 1, 2, 3, 4]];
    assert_eq!(reduce(&list, &Constraints::full()), vec![[0, 1, 2, 3, 4]]);
    assert_eq!(reduce_len(&list, &Constraints::full()), 1);
}

#[test]
fn count_is_the_length_of_the_filtered_list() {
    let list = word_list(&["bight", "eight", "fight", "light", "might", "night", "wight"]);
    let secret = string_to_u8("wight");
    let mut c = Constraints::full();
    for guess in ["bight", "thing", "might"] {
        c = evolve(&c, &secret, &string_to_u8(guess));
        assert_eq!(reduce_len(&list, &c), reduce(&list, &c).len());
    }
    // `b`, `n` and `m` are struck
    assert_eq!(reduce_len(&list, &c), 4);
}
