use wordle_solver::dictionary::Dictionary;
use wordle_solver::word::{string_to_u8, Word};
use wordle_solver::wordlist::{byte_is_space, line_end, load, parse_line, LoadError};

fn listed(texts: &[&str]) -> Vec<Word> {
    texts.iter().map(|t| string_to_u8(t)).collect()
}

fn loaded(text: &str) -> Result<Vec<Word>, LoadError> {
    load(text.as_bytes()).map(|d: Dictionary| d.words)
}

#[test]
fn loads_one_word_per_line() {
    assert_eq!(loaded("crane\nslate\n"), Ok(listed(&["crane", "slate"])));
}

#[test]
fn last_line_needs_no_line_feed() {
    assert_eq!(loaded("crane\nslate"), Ok(listed(&["crane", "slate"])));
    assert_eq!(loaded("crane"), Ok(listed(&["crane"])));
}

#[test]
fn words_come_out_in_alphabetical_order() {
    assert_eq!(loaded("zebra\ncrane\naback\n"), Ok(listed(&["aback", "crane", "zebra"])));
}

#[test]
fn repeated_words_are_loaded_once() {
    assert_eq!(loaded("crane\nslate\ncrane\n"), Ok(listed(&["crane", "slate"])));
}

#[test]
fn upper_case_is_folded() {
    assert_eq!(loaded("CRANE\nSlate\ncrane\n"), Ok(listed(&["crane", "slate"])));
}

#[test]
fn white_space_around_a_word_is_dropped() {
    assert_eq!(loaded("  crane\t\r\n\tslate \r\n"), Ok(listed(&["crane", "slate"])));
}

#[test]
fn empty_text_holds_no_dictionary() {
    assert_eq!(loaded(""), Err(LoadError::Empty));
}

#[test]
fn blank_line_is_refused() {
    assert_eq!(loaded("\n"), Err(LoadError::BadLine { line: 0 }));
    assert_eq!(loaded("crane\n\nslate\n"), Err(LoadError::BadLine { line: 1 }));
    assert_eq!(loaded("crane\n   \n"), Err(LoadError::BadLine { line: 1 }));
}

#[test]
fn line_of_the_wrong_length_is_refused() {
    assert_eq!(loaded("crane\nhi\nslate\n"), Err(LoadError::BadLine { line: 1 }));
    assert_eq!(loaded("cranes\n"), Err(LoadError::BadLine { line: 0 }));
    assert_eq!(loaded("crane\nslate\nabcd"), Err(LoadError::BadLine { line: 2 }));
}

#[test]
fn line_with_anything_but_letters_is_refused() {
    assert_eq!(loaded("cr4ne\n"), Err(LoadError::BadLine { line: 0 }));
    assert_eq!(loaded("cr ne\n"), Err(LoadError::BadLine { line: 0 }));
    assert_eq!(loaded("crane slate\n"), Err(LoadError::BadLine { line: 0 }));
    assert_eq!(loaded("crane\ncran\u{e9}\n"), Err(LoadError::BadLine { line: 1 }));
}

#[test]
fn first_bad_line_is_reported() {
    assert_eq!(loaded("crane\nx\ny\n"), Err(LoadError::BadLine { line: 1 }));
}

#[test]
fn line_ends_at_the_next_line_feed() {
    let text = b"ab\ncd";
    assert_eq!(line_end(text, 0), 2);
    assert_eq!(line_end(text, 2), 2);
    assert_eq!(line_end(text, 3), 5);
    assert_eq!(line_end(text, 5), 5);
}

#[test]
fn parse_line_reads_a_part_of_the_text() {
    let text = b"xx Crane \nslate";
    assert_eq!(parse_line(text, 2, 9), Some(string_to_u8("crane")));
    assert_eq!(parse_line(text, 10, 15), Some(string_to_u8("slate")));
    assert_eq!(parse_line(text, 0, 9), None);
    assert_eq!(parse_line(text, 3, 7), None);
    assert_eq!(parse_line(text, 4, 4), None);
}

#[test]
fn white_space_is_blank_and_tab_to_carriage_return() {
    for b in [b' ', b'\t', b'\n', 11, 12, b'\r'] {
        assert!(byte_is_space(b));
    }
    for b in [0, 8, 14, 31, 33, b'a', b'Z', 0xa0, 255] {
        assert!(!byte_is_space(b));
    }
}
