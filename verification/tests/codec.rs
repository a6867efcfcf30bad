use wordle_solver::word::{is_valid_word, parse_word, string_to_u8, u8_to_string};

#[test]
fn encodes_letters_as_alphabet_indices() {
    assert_eq!(string_to_u8("abcde"), [0, 1, 2, 3, 4]);
    assert_eq!(string_to_u8("zzzzz"), [25, 25, 25, 25, 25]);
    assert_eq!(string_to_u8("crane"), [2, 17, 0, 13, 4]);
}

#[test]
fn decodes_alphabet_indices_as_letters() {
    assert_eq!(u8_to_string(&[0, 1, 2, 3, 4]), "abcde");
    assert_eq!(u8_to_string(&[25, 24, 23, 0, 12]), "zyxam");
}

#[test]
fn text_survives_a_round_trip() {
    for text in ["abcde", "xyzzy", "crane", "aaaaa", "zzzzz"] {
        assert_eq!(u8_to_string(&string_to_u8(text)), text);
    }
}

#[test]
fn word_survives_a_round_trip() {
    let word = [7, 4, 11, 11, 14];
    assert_eq!(string_to_u8(&u8_to_string(&word)), word);
}

#[test]
fn parse_accepts_five_lower_case_letters() {
    assert_eq!(parse_word("hello"), Some([7, 4, 11, 11, 14]));
}

#[test]
fn parse_rejects_wrong_lengths() {
    assert_eq!(parse_word(""), None);
    assert_eq!(parse_word("abcd"), None);
    assert_eq!(parse_word("abcdef"), None);
}

#[test]
fn parse_rejects_what_is_no_lower_case_letter() {
    assert_eq!(parse_word("Hello"), None);
    assert_eq!(parse_word("he1lo"), None);
    assert_eq!(parse_word("he lo"), None);
    assert_eq!(parse_word("h\u{e9}llo"), None);
    assert_eq!(parse_word("abc`e"), None);
    assert_eq!(parse_word("abc{e"), None);
}

#[test]
fn validity_is_a_bound_on_every_letter() {
    assert!(is_valid_word(&[0, 25, 13, 7, 1]));
    assert!(!is_valid_word(&[0, 26, 13, 7, 1]));
    assert!(!is_valid_word(&[0, 1, 2, 3, 255]));
}
