//! Words and their text form.
//!
//! A word is five letters, each held as its index in the alphabet
//! (`0` for `a` up to `25` for `z`).

use vstd::prelude::*;

verus! {

/// Five letter indices.
pub type Word = [u8; 5];

/// Every letter of `w` is an index into the alphabet.
pub open spec fn valid_word(w: Word) -> bool {
    forall|i: int| 0 <= i < 5 ==> w[i] < 26
}

/// Every word of `words` is valid.
pub open spec fn valid_words(words: Seq<Word>) -> bool {
    forall|k: int| 0 <= k < words.len() ==> valid_word(#[trigger] words[k])
}

/// `c` is one of the lower-case letters `a` to `z`.
pub open spec fn is_letter(c: char) -> bool {
    'a' <= c <= 'z'
}

/// `text` is the text form of some word: five lower-case letters.
pub open spec fn is_word_text(text: Seq<char>) -> bool {
    &&& text.len() == 5
    &&& forall|i: int| 0 <= i < 5 ==> is_letter(#[trigger] text[i])
}

/// Alphabet index of the letter `c`.
pub open spec fn letter_index(c: char) -> u8
    recommends
        is_letter(c),
{
    (c as u32 - 'a' as u32) as u8
}

/// The letter with alphabet index `b`.
pub open spec fn letter_char(b: u8) -> char
    recommends
        b < 26,
{
    ((b + 97) as u8) as char
}

/// `w` holds, position by position, the alphabet indices of `text`.
pub open spec fn encodes(w: Word, text: Seq<char>) -> bool {
    &&& text.len() == 5
    &&& forall|i: int| 0 <= i < 5 ==> w[i] == letter_index(#[trigger] text[i])
}

/// The text form of `w`.
pub open spec fn word_text(w: Word) -> Seq<char> {
    Seq::new(5, |i: int| letter_char(w[i]))
}

/// Tells whether every letter of `w` is below 26.
pub fn is_valid_word(w: &Word) -> (ok: bool)
    ensures
        ok == valid_word(*w),
{
    let mut i: usize = 0;
    while i < 5
        invariant
            i <= 5,
            forall|k: int| 0 <= k < i ==> w[k] < 26,
        decreases 5 - i,
    {
        if w[i] >= 26 {
            return false;
        }
        i += 1;
    }
    true
}

/// Encodes five lower-case letters as a word.
pub fn string_to_u8(word: &str) -> (arr: Word)
    requires
        is_word_text(word@),
    ensures
        valid_word(arr),
        encodes(arr, word@),
{
    let mut arr: Word = [0u8; 5];
    let mut i: usize = 0;
    while i < 5
        invariant
            i <= 5,
            is_word_text(word@),
            forall|k: int| 0 <= k < i ==> arr[k] == letter_index(#[trigger] word@[k]),
            forall|k: int| 0 <= k < i ==> arr[k] < 26,
        decreases 5 - i,
    {
        let c: char = word.get_char(i);
        arr[i] = ((c as u32) - ('a' as u32)) as u8;
        i += 1;
    }
    arr
}

/// Encodes `text` as a word if it is five lower-case letters.
pub fn parse_word(text: &str) -> (parsed: Option<Word>)
    ensures
        parsed is Some <==> is_word_text(text@),
        parsed matches Some(w) ==> valid_word(w) && encodes(w, text@),
{
    if text.unicode_len() != 5 {
        return None;
    }
    let mut i: usize = 0;
    while i < 5
        invariant
            i <= 5,
            text@.len() == 5,
            forall|k: int| 0 <= k < i ==> is_letter(#[trigger] text@[k]),
        decreases 5 - i,
    {
        let c: char = text.get_char(i);
        if !('a' <= c && c <= 'z') {
            return None;
        }
        i += 1;
    }
    Some(string_to_u8(text))
}

/// `String::push` of the standard library: the character is appended at the
/// end of the string and nothing else changes.
pub assume_specification[ String::push ](s: &mut String, ch: char)
    ensures
        final(s)@ == old(s)@.push(ch),
;

/// Writes a word out as five lower-case letters.
pub fn u8_to_string(word: &Word) -> (text: String)
    requires
        valid_word(*word),
    ensures
        text@ == word_text(*word),
{
    let mut text = String::new();
    let mut i: usize = 0;
    while i < 5
        invariant
            i <= 5,
            valid_word(*word),
            text@.len() == i,
            forall|k: int| 0 <= k < i ==> text@[k] == letter_char(word[k]),
        decreases 5 - i,
    {
        let b: u8 = word[i];
        text.push((b + 97u8) as char);
        i += 1;
    }
    assert(text@ =~= word_text(*word));
    text
}

/// The text form of a valid word is five lower-case letters, and encoding
/// them gives the word back.
pub proof fn lemma_text_of_word(w: Word)
    requires
        valid_word(w),
    ensures
        is_word_text(word_text(w)),
        encodes(w, word_text(w)),
{
    assert forall|i: int| 0 <= i < 5 implies is_letter(#[trigger] word_text(w)[i])
        && w[i] == letter_index(word_text(w)[i]) by {
        assert(w[i] < 26);
    }
}

/// A word that encodes five lower-case letters is valid, and its text form
/// is those letters.
pub proof fn lemma_word_of_text(w: Word, text: Seq<char>)
    requires
        is_word_text(text),
        encodes(w, text),
    ensures
        valid_word(w),
        word_text(w) == text,
{
    assert forall|i: int| 0 <= i < 5 implies #[trigger] w[i] < 26 by {
        assert(is_letter(text[i]));
    }
    assert forall|i: int| 0 <= i < 5 implies letter_char(w[i]) == #[trigger] text[i] by {
        assert(is_letter(text[i]));
    }
    assert(word_text(w) =~= text);
}

/// A text has at most one encoding.
pub proof fn lemma_encoding_unique(w1: Word, w2: Word, text: Seq<char>)
    requires
        encodes(w1, text),
        encodes(w2, text),
    ensures
        w1 == w2,
{
    assert forall|i: int| 0 <= i < 5 implies w1[i] == w2[i] by {
        assert(w1[i] == letter_index(text[i]));
    }
    assert(w1 =~= w2);
}

} // verus!
