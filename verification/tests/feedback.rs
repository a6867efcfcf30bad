use wordle_solver::constraints::Constraints;
use wordle_solver::feedback::{evolve, has_letter};
use wordle_solver::filter::{reduce, reduce_len};
use wordle_solver::word::{string_to_u8, u8_to_string, Word};

fn encode_all(texts: &[&str]) -> Vec<Word> {
    texts.iter().map(|t| string_to_u8(t)).collect()
}

fn letters_at(c: &Constraints, pos: usize) -> Vec<u8> {
    (0u8..26).filter(|&a| c.permits(pos, a)).collect()
}

#[test]
fn full_constraints_permit_everything() {
    let c = Constraints::full();
    for pos in 0..5 {
        assert_eq!(letters_at(&c, pos).len(), 26);
    }
    assert!(!c.permits(0, 26));
    assert!(c.admits(&string_to_u8("xyzzy")));
    assert!(!c.admits(&[0, 1, 2, 3, 26]));
}

#[test]
fn has_letter_looks_at_every_position() {
    let w = string_to_u8("abcde");
    assert!(has_letter(&w, 0));
    assert!(has_letter(&w, 4));
    assert!(!has_letter(&w, 5));
}

#[test]
fn hit_collapses_the_position() {
    let after = evolve(&Constraints::full(), &string_to_u8("abcde"), &string_to_u8("axxxx"));
    assert_eq!(letters_at(&after, 0), vec![0]);
    // the hit says nothing about the other positions
    assert!(after.permits(1, 0));
    assert!(after.permits(4, 0));
}

#[test]
fn absent_letter_goes_from_every_position() {
    let x = 23;
    let after = evolve(&Constraints::full(), &string_to_u8("abcde"), &string_to_u8("xbcde"));
    for pos in 0..5 {
        assert!(!after.permits(pos, x));
    }
    assert_eq!(letters_at(&after, 0).len(), 25);
}

#[test]
fn misplaced_letter_goes_from_its_position_only() {
    let e = 4;
    let after = evolve(&Constraints::full(), &string_to_u8("abcde"), &string_to_u8("ebcdx"));
    assert!(!after.permits(0, e));
    assert!(after.permits(4, e));
    assert_eq!(letters_at(&after, 1), vec![1]);
    assert_eq!(letters_at(&after, 2), vec![2]);
    assert_eq!(letters_at(&after, 3), vec![3]);
    // position 4: `x` is absent, everything else stays
    assert_eq!(letters_at(&after, 4).len(), 25);
    assert!(!after.permits(4, 23));
}

#[test]
fn absent_letter_does_not_disturb_a_hit() {
    // `z` is struck everywhere, yet position 4 is the secret's letter alone
    let after = evolve(&Constraints::full(), &string_to_u8("abcde"), &string_to_u8("zzzze"));
    assert_eq!(letters_at(&after, 4), vec![4]);
    for pos in 0..4 {
        assert!(!after.permits(pos, 25));
        assert_eq!(letters_at(&after, pos).len(), 25);
    }
}

#[test]
fn evolve_leaves_its_argument_alone() {
    let before = Constraints::full();
    let _ = evolve(&before, &string_to_u8("abcde"), &string_to_u8("xyzzy"));
    assert_eq!(before.grid, [[true; 5]; 26]);
}

#[test]
fn feedback_never_widens_a_position() {
    let secret = string_to_u8("crane");
    let mut c = Constraints::full();
    for guess in ["slate", "crown", "nacre", "crane", "zzzzz"] {
        let next = evolve(&c, &secret, &string_to_u8(guess));
        for pos in 0..5 {
            for a in 0u8..26 {
                assert!(!next.permits(pos, a) || c.permits(pos, a));
            }
        }
        c = next;
    }
}

#[test]
fn hit_on_a_lost_letter_brings_it_back() {
    let mut c = Constraints::full();
    c.grid[0][0] = false;
    let secret = string_to_u8("abcde");
    assert!(!c.admits(&secret));
    let after = evolve(&c, &secret, &secret);
    assert!(after.permits(0, 0));
}

#[test]
fn guessing_the_secret_leaves_only_the_secret() {
    let dictionary = encode_all(&["abcde", "abcdf", "crane", "xyzzy"]);
    let secret = string_to_u8("crane");
    let after = evolve(&Constraints::full(), &secret, &secret);
    assert_eq!(reduce(&dictionary, &after), vec![secret]);
    for pos in 0..5 {
        assert_eq!(letters_at(&after, pos), vec![secret[pos]]);
    }
}

#[test]
fn secret_survives_its_own_feedback() {
    let dictionary = encode_all(&["bight", "eight", "fight", "light", "might", "night", "wight"]);
    let secret = string_to_u8("wight");
    let mut c = Constraints::full();
    for guess in ["bight", "thing", "might", "eight", "night", "fight", "light"] {
        c = evolve(&c, &secret, &string_to_u8(guess));
        assert!(c.admits(&secret));
        assert!(reduce(&dictionary, &c).contains(&secret));
    }
    assert_eq!(reduce(&dictionary, &c), vec![secret]);
}

#[test]
fn near_miss_leaves_only_the_secret() {
    let dictionary = encode_all(&["abcde", "abcdf", "xyzzy"]);
    let secret = string_to_u8("abcde");
    let guess = string_to_u8("abcdf");
    let after = evolve(&Constraints::full(), &secret, &guess);
    for pos in 0..4 {
        assert_eq!(letters_at(&after, pos), vec![secret[pos]]);
    }
    assert!(!after.permits(4, 5));
    assert!(after.permits(4, 4));
    let left = reduce(&dictionary, &after);
    assert_eq!(left, vec![secret]);
    assert_eq!(reduce_len(&dictionary, &after), 1);
    assert_eq!(u8_to_string(&left[0]), "abcde");
}
