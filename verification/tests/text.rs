use ondevice_ai::cli::{accepts_piped, text_source, TextSource};
use ondevice_ai::text::{is_blank, is_whitespace, same_text, split_preserve_whitespace};

#[test]
fn is_whitespace_agrees_with_std_for_every_char() {
    let mut u: u32 = 0;
    while u <= 0x10FFFF {
        if let Some(c) = char::from_u32(u) {
            assert_eq!(is_whitespace(c), c.is_whitespace(), "char {:x}", u);
        }
        u += 1;
    }
}

#[test]
fn split_keeps_each_space_and_each_word() {
    let parts = split_preserve_whitespace("You said: hi.\n\n- Clean UI");
    assert_eq!(parts, vec!["You", " ", "said:", " ", "hi.", "\n", "\n", "-", " ", "Clean", " ", "UI"]);
}

#[test]
fn split_of_nothing_is_nothing() {
    assert!(split_preserve_whitespace("").is_empty());
}

#[test]
fn split_of_spaces_is_one_piece_each() {
    assert_eq!(split_preserve_whitespace("  \t"), vec![" ", " ", "\t"]);
}

#[test]
fn split_keeps_leading_and_trailing_space() {
    assert_eq!(split_preserve_whitespace(" a b "), vec![" ", "a", " ", "b", " "]);
}

#[test]
fn split_of_one_word_is_the_word() {
    assert_eq!(split_preserve_whitespace("word"), vec!["word"]);
}

#[test]
fn split_handles_wide_characters() {
    assert_eq!(
        split_preserve_whitespace("日本語\u{3000}😀 é"),
        vec!["日本語", "\u{3000}", "😀", " ", "é"]
    );
}

#[test]
fn split_pieces_join_to_the_text() {
    for text in ["", " ", "a", "a b", "  a\t\tb\n", "naïve café\u{a0}日本語 😀 "] {
        assert_eq!(split_preserve_whitespace(text).concat(), text);
    }
}

#[test]
fn same_text_compares_contents() {
    assert!(same_text("", ""));
    assert!(same_text("user", "user"));
    assert!(!same_text("user", "User"));
    assert!(!same_text("user", "users"));
    assert!(!same_text("é", "e"));
    assert!(same_text("日本語", "日本語"));
}

#[test]
fn blank_texts() {
    assert!(is_blank(""));
    assert!(is_blank(" \n\t\u{3000}"));
    assert!(!is_blank(" x "));
    assert!(!is_blank("\u{200b}"));
}

#[test]
fn text_comes_from_the_argument_first() {
    assert_eq!(text_source("some text", true), TextSource::Argument);
    assert_eq!(text_source("some text", false), TextSource::Argument);
}

#[test]
fn text_comes_from_the_file_next() {
    assert_eq!(text_source("", true), TextSource::File);
}

#[test]
fn text_comes_from_stdin_last() {
    assert_eq!(text_source("", false), TextSource::Stdin);
}

#[test]
fn piped_text_must_hold_something() {
    assert!(!accepts_piped(""));
    assert!(!accepts_piped("  \n"));
    assert!(accepts_piped(" a\n"));
}
