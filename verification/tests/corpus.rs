use mocktree::corpus::{lines, wordlist, WORDS};
use std::collections::HashSet;

#[test]
fn lines_of_empty_text() {
    assert_eq!(lines(""), Vec::<&str>::new());
}

#[test]
fn lines_without_final_line_feed() {
    assert_eq!(lines("apple"), vec!["apple"]);
    assert_eq!(lines("apple\nbanana"), vec!["apple", "banana"]);
}

#[test]
fn lines_with_final_line_feed() {
    assert_eq!(lines("apple\n"), vec!["apple"]);
    assert_eq!(lines("apple\nbanana\n"), vec!["apple", "banana"]);
}

#[test]
fn lines_keep_empty_lines() {
    assert_eq!(lines("\n"), vec![""]);
    assert_eq!(lines("\n\n"), vec!["", ""]);
    assert_eq!(lines("apple\n\nbanana"), vec!["apple", "", "banana"]);
    assert_eq!(lines("\napple"), vec!["", "apple"]);
}

#[test]
fn lines_drop_carriage_return_before_line_feed() {
    assert_eq!(lines("apple\r\nbanana\r\n"), vec!["apple", "banana"]);
    assert_eq!(lines("\r\n"), vec![""]);
    assert_eq!(lines("apple\r\r\n"), vec!["apple\r"]);
}

#[test]
fn lines_keep_other_carriage_returns() {
    assert_eq!(lines("apple\r"), vec!["apple\r"]);
    assert_eq!(lines("ap\rple\nbanana\r"), vec!["ap\rple", "banana\r"]);
    assert_eq!(lines("\r"), vec!["\r"]);
}

#[test]
fn lines_count_characters_not_bytes() {
    assert_eq!(lines("señor\nüber\r\n日本語"), vec!["señor", "über", "日本語"]);
}

#[test]
fn lines_agree_with_std() {
    let texts = [
        "",
        "a",
        "a\n",
        "\n",
        "\r",
        "\r\n",
        "\n\r",
        "a\nb",
        "a\r\nb",
        "a\rb\n",
        "a\n\n\nb\n",
        "one\r\n\r\ntwo\r",
        "é\r\n\u{1F600}\n",
        WORDS,
    ];
    for text in texts {
        let expected: Vec<&str> = text.lines().collect();
        assert_eq!(lines(text), expected);
    }
}

#[test]
fn wordlist_is_the_lines_of_the_corpus() {
    let expected: Vec<&str> = WORDS.lines().collect();
    assert_eq!(wordlist(), expected);
}

#[test]
fn wordlist_size_and_ends() {
    let words = wordlist();
    assert_eq!(words.len(), 144);
    assert_eq!(words[0], "acorn");
    assert_eq!(words[1], "almond");
    assert_eq!(words[143], "zephyr");
}

#[test]
fn wordlist_holds_no_word_twice() {
    let words = wordlist();
    let distinct: HashSet<&str> = words.iter().copied().collect();
    assert_eq!(distinct.len(), words.len());
}

#[test]
fn wordlist_words_are_plain() {
    for word in wordlist() {
        assert!(!word.is_empty());
        assert!(word.chars().all(|c| c.is_ascii_lowercase()));
    }
}
