use mini_grep::{contains, split_first_line};

#[test]
fn contains_finds_runs_of_characters() {
    assert!(contains("hello world", "lo w"));
    assert!(contains("hello world", "hello"));
    assert!(contains("hello world", "world"));
    assert!(contains("hello world", "hello world"));
    assert!(!contains("hello world", "hello world!"));
    assert!(!contains("hello world", "wold"));
    assert!(!contains("hello", "Hello"));
}

#[test]
fn contains_finds_the_empty_text_everywhere() {
    assert!(contains("", ""));
    assert!(contains("abc", ""));
    assert!(!contains("", "a"));
}

#[test]
fn contains_finds_a_late_match_after_a_partial_one() {
    assert!(contains("aaab", "aab"));
    assert!(contains("abababc", "ababc"));
    assert!(!contains("ababab", "ababc"));
}

#[test]
fn contains_agrees_with_the_standard_library() {
    let texts = ["", "a", "ab", "ba", "aab", "żółw", "ółw", "ż", "€uro", "x€", "\u{1F600}", "a\u{1F600}b", "€"];
    for haystack in texts {
        for needle in texts {
            assert_eq!(
                haystack.contains(needle),
                contains(haystack, needle),
                "{:?} in {:?}",
                needle,
                haystack
            );
        }
    }
}

#[test]
fn first_line_of_an_empty_text_is_none() {
    assert_eq!(None, split_first_line(""));
}

#[test]
fn first_line_ends_at_the_line_feed() {
    assert_eq!(Some(("one", "two\nthree")), split_first_line("one\ntwo\nthree"));
    assert_eq!(Some(("one", "")), split_first_line("one\n"));
    assert_eq!(Some(("", "")), split_first_line("\n"));
    assert_eq!(Some(("", "\n")), split_first_line("\n\n"));
}

#[test]
fn first_line_without_line_ending_is_the_text() {
    assert_eq!(Some(("one", "")), split_first_line("one"));
    assert_eq!(Some(("one\r", "")), split_first_line("one\r"));
}

#[test]
fn first_line_loses_one_carriage_return() {
    assert_eq!(Some(("one", "two")), split_first_line("one\r\ntwo"));
    assert_eq!(Some(("one\r", "two")), split_first_line("one\r\r\ntwo"));
    assert_eq!(Some(("", "two")), split_first_line("\r\ntwo"));
    assert_eq!(Some(("żółw", "€")), split_first_line("żółw\r\n€"));
}

