use wordgames::dictionary::{read_words, split_lines};
use wordgames::text::{letters_of, lower_case, same_text, string_of, to_lower};

fn strings(words: &[&str]) -> Vec<String> {
    words.iter().map(|w| w.to_string()).collect()
}

#[test]
fn words_are_read_one_per_line() {
    assert_eq!(read_words("face\nebad\n"), strings(&["face", "ebad"]));
}

#[test]
fn words_are_lower_cased() {
    assert_eq!(read_words("Face\nEBAD\nmiXed\n"), strings(&["face", "ebad", "mixed"]));
}

#[test]
fn last_line_needs_no_line_break() {
    assert_eq!(read_words("face\nebad"), strings(&["face", "ebad"]));
    assert_eq!(read_words("face"), strings(&["face"]));
}

#[test]
fn empty_text_has_no_words() {
    assert_eq!(read_words(""), strings(&[]));
}

#[test]
fn empty_lines_are_kept() {
    assert_eq!(read_words("\n"), strings(&[""]));
    assert_eq!(read_words("a\n\nb\n"), strings(&["a", "", "b"]));
    assert_eq!(read_words("\n\n"), strings(&["", ""]));
    assert_eq!(read_words("\na"), strings(&["", "a"]));
}

#[test]
fn carriage_return_stays_in_the_word() {
    assert_eq!(read_words("ab\r\ncd\r\n"), strings(&["ab\r", "cd\r"]));
}

#[test]
fn lines_agree_with_split_terminator() {
    for text in ["", "\n", "a", "a\n", "a\nb", "a\n\nb\n", "\n\na", "one\ntwo\nthree\n\n"] {
        let expected: Vec<String> = text.split_terminator("\n").map(|l| l.to_string()).collect();
        assert_eq!(split_lines(text), expected);
    }
}

#[test]
fn lines_keep_their_case() {
    assert_eq!(split_lines("Ab\nCD"), strings(&["Ab", "CD"]));
}

#[test]
fn lower_case_changes_ascii_capitals_only() {
    assert_eq!(to_lower('A'), 'a');
    assert_eq!(to_lower('Z'), 'z');
    assert_eq!(to_lower('m'), 'm');
    assert_eq!(to_lower('@'), '@');
    assert_eq!(to_lower('['), '[');
    assert_eq!(to_lower('É'), 'É');
    assert_eq!(lower_case("HeLLo, WÖRLD!"), "hello, wÖrld!");
    for c in ['A', 'q', 'Z', '0', 'É', 'ß', '\n'] {
        assert_eq!(to_lower(c), c.to_ascii_lowercase());
    }
}

#[test]
fn letters_and_strings_convert_both_ways() {
    assert_eq!(letters_of("héllo"), vec!['h', 'é', 'l', 'l', 'o']);
    assert_eq!(string_of(&vec!['h', 'é', 'y']), "héy");
    assert_eq!(string_of(&letters_of("round trip")), "round trip");
    assert_eq!(letters_of(""), Vec::<char>::new());
}

#[test]
fn same_text_compares_letter_by_letter() {
    assert!(same_text("abc", "abc"));
    assert!(same_text("", ""));
    assert!(!same_text("abc", "abd"));
    assert!(!same_text("abc", "ab"));
    assert!(!same_text("abc", "ABC"));
}
