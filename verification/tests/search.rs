use mini_grep::{search, search_case_insensitive};

#[test]
fn case_insensitive() {
    let query = "rUst";
    let contents = "\
Rust:
rust-LOud, liker, love.
Pick three.";

    assert_eq!(
        vec!["Rust:", "rust-LOud, liker, love."],
        search_case_insensitive(query, contents)
    );
}

#[test]
fn case_sensitive() {
    let query = "like";
    let contents = "\
Rust:
loud, liker, love.
Pick three.";

    assert_eq!(vec!["loud, liker, love."], search(query, contents));
}

#[test]
fn case_sensitive_passes_over_other_case() {
    let contents = "Rust:\nrust-LOud, liker, love.\nPick three.";
    assert_eq!(vec!["Rust:"], search("Rust", contents));
    assert_eq!(vec!["rust-LOud, liker, love."], search("rust", contents));
    assert_eq!(Vec::<&str>::new(), search("rUst", contents));
}

#[test]
fn every_line_found_contains_the_query() {
    let contents = "alpha beta\ngamma\nbeta\n\nalphabet soup\nBETA\n";
    let found = search("beta", contents);
    assert_eq!(vec!["alpha beta", "beta"], found);
    for line in &found {
        assert!(line.contains("beta"));
    }
    let expected: Vec<&str> = contents.lines().filter(|line| line.contains("beta")).collect();
    assert_eq!(expected, found);
}

#[test]
fn lines_keep_their_order_and_their_number() {
    let contents = "b1\na\nb2\nb1\na\nb1";
    assert_eq!(vec!["b1", "b2", "b1", "b1"], search("b", contents));
    assert_eq!(vec!["a", "a"], search("a", contents));
}

#[test]
fn a_line_with_several_hits_comes_once() {
    assert_eq!(vec!["aaaa"], search("a", "aaaa\nbbbb"));
    assert_eq!(vec!["abcabc"], search("abc", "abcabc"));
}

#[test]
fn ignoring_case_returns_lines_as_written() {
    let contents = "Straße\nSTRASSE\nÄPFEL und Birnen\näpfel\nnothing";
    assert_eq!(vec!["ÄPFEL und Birnen", "äpfel"], search_case_insensitive("Äpfel", contents));
    assert_eq!(vec!["ÄPFEL und Birnen", "äpfel"], search_case_insensitive("äPFEL", contents));
    assert_eq!(vec!["STRASSE"], search_case_insensitive("strasse", contents));
}

#[test]
fn ignoring_case_agrees_with_lowercase_forms() {
    let contents = "The Quick\nbrown FOX\njumps over\nthe lazy dog\nΟΔΥΣΣΕΥΣ\nОдин";
    for query in ["the", "THE", "o", "O", "σ", "Σ", "оДИН", "x", ""] {
        let lowered = query.to_lowercase();
        let expected: Vec<&str> =
            contents.lines().filter(|line| line.to_lowercase().contains(&lowered)).collect();
        assert_eq!(expected, search_case_insensitive(query, contents), "query {:?}", query);
    }
}

#[test]
fn searching_twice_gives_the_same() {
    let contents = "one\ntwo\nthree\nTwo more\n";
    assert_eq!(search("two", contents), search("two", contents));
    assert_eq!(search_case_insensitive("two", contents), search_case_insensitive("two", contents));
    assert_eq!(vec!["two"], search("two", contents));
    assert_eq!(vec!["two", "Two more"], search_case_insensitive("two", contents));
}

#[test]
fn empty_query_returns_all_lines() {
    let contents = "first\n\nthird line\r\nfourth";
    let all = vec!["first", "", "third line", "fourth"];
    assert_eq!(all, search("", contents));
    assert_eq!(all, search_case_insensitive("", contents));
}

#[test]
fn empty_contents_have_no_lines() {
    assert_eq!(Vec::<&str>::new(), search("", ""));
    assert_eq!(Vec::<&str>::new(), search("a", ""));
    assert_eq!(Vec::<&str>::new(), search_case_insensitive("", ""));
}

#[test]
fn final_line_ending_adds_no_line() {
    assert_eq!(vec!["a", "b"], search("", "a\nb\n"));
    assert_eq!(vec!["a", "b"], search("", "a\nb"));
    assert_eq!(vec![""], search("", "\n"));
    assert_eq!(vec!["", ""], search("", "\n\n"));
    assert_eq!(vec!["a", "", "b"], search("", "a\n\nb"));
}

#[test]
fn carriage_return_belongs_to_the_line_ending_only_before_a_line_feed() {
    assert_eq!(vec!["a", "b"], search("", "a\r\nb\r\n"));
    assert_eq!(vec!["a\r"], search("", "a\r"));
    assert_eq!(vec!["a\rb", "c\r"], search("", "a\rb\nc\r"));
    assert_eq!(vec!["a\r", "b"], search("", "a\r\r\nb"));
    assert_eq!(vec!["foo", "bar", "", "baz\r"], search("", "foo\nbar\n\r\nbaz\r"));
    assert_eq!(Vec::<&str>::new(), search("\r", "a\r\nb\r\n"));
}

#[test]
fn lines_are_those_of_the_standard_library() {
    let texts = [
        "",
        "\n",
        "\r",
        "\r\n",
        "\n\r",
        "a",
        "a\n",
        "a\r\n",
        "a\n\nb\n",
        "żółw\r\nÄ\n\u{1F600}\r\n\r\n€\r",
        "no line ending at all",
        "\n\n\n",
        "x\r\r\n\ry\n",
    ];
    for text in texts {
        let expected: Vec<&str> = text.lines().collect();
        assert_eq!(expected, search("", text), "text {:?}", text);
    }
}

#[test]
fn query_longer_than_every_line_matches_nothing() {
    assert_eq!(Vec::<&str>::new(), search("abcd", "abc\nbcd\nab\n"));
    assert_eq!(Vec::<&str>::new(), search_case_insensitive("abcd", "abc\nbcd\nab\n"));
}

#[test]
fn query_equal_to_a_line_matches_that_line() {
    assert_eq!(vec!["abc"], search("abc", "ab\nabc\nbc"));
    assert_eq!(vec!["abc", "ABC"], search_case_insensitive("aBc", "ab\nabc\nABC"));
}

#[test]
fn query_never_reaches_over_a_line_ending() {
    assert_eq!(Vec::<&str>::new(), search("a\nb", "a\nb"));
    assert_eq!(Vec::<&str>::new(), search("ab", "a\nb"));
    assert_eq!(Vec::<&str>::new(), search("\n", "a\nb\n"));
}

#[test]
fn lines_found_are_views_into_the_contents() {
    let contents = String::from("zero\none two\nthree");
    let found = search("two", &contents);
    assert_eq!(1, found.len());
    let start = contents.as_ptr() as usize;
    let line = found[0].as_ptr() as usize;
    assert_eq!(start + 5, line);
    assert_eq!(7, found[0].len());
}
