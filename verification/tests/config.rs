use mini_grep::{run, Config, MissingArgument};

fn tokens(words: &[&str]) -> Vec<String> {
    words.iter().map(|word| word.to_string()).collect()
}

#[test]
fn build_takes_query_and_file_path() {
    let config = Config::build(&tokens(&["minigrep", "needle", "haystack.txt"]), None).unwrap();
    assert_eq!("needle", config.query);
    assert_eq!("haystack.txt", config.file_path);
    assert!(!config.ignore_case);
}

#[test]
fn build_without_file_path_names_the_file_path() {
    let built = Config::build(&tokens(&["minigrep", "needle"]), None);
    assert_eq!(MissingArgument::FilePath, built.unwrap_err());
    let built = Config::build(&tokens(&["minigrep", "needle"]), Some("1"));
    assert_eq!(MissingArgument::FilePath, built.unwrap_err());
}

#[test]
fn build_without_query_names_the_query() {
    assert_eq!(MissingArgument::Query, Config::build(&tokens(&["minigrep"]), None).unwrap_err());
    assert_eq!(MissingArgument::Query, Config::build(&[], None).unwrap_err());
}

#[test]
fn build_with_empty_flag_ignores_case() {
    let config = Config::build(&tokens(&["minigrep", "needle", "haystack.txt"]), Some("")).unwrap();
    assert!(config.ignore_case);
    assert_eq!("needle", config.query);
    assert_eq!("haystack.txt", config.file_path);
}

#[test]
fn build_with_any_flag_value_ignores_case() {
    for value in ["1", "0", "false", "no", " "] {
        let config = Config::build(&tokens(&["minigrep", "q", "f"]), Some(value)).unwrap();
        assert!(config.ignore_case);
    }
}

#[test]
fn build_skips_the_program_name_and_passes_over_further_tokens() {
    let config = Config::build(&tokens(&["a", "b", "c", "d", "e"]), None).unwrap();
    assert_eq!("b", config.query);
    assert_eq!("c", config.file_path);
}

#[test]
fn build_accepts_an_empty_query_and_any_path() {
    let config = Config::build(&tokens(&["minigrep", "", "/no/such/file"]), None).unwrap();
    assert_eq!("", config.query);
    assert_eq!("/no/such/file", config.file_path);
}

#[test]
fn missing_argument_messages() {
    assert_eq!("Did not get a query string!", MissingArgument::Query.message());
    assert_eq!("Did not get a file path!", MissingArgument::FilePath.message());
}

#[test]
fn run_searches_as_the_config_says() {
    let contents = "Rust:\nrust-LOud, liker, love.\nPick three.";
    let exact = Config::build(&tokens(&["minigrep", "rUst", "poem.txt"]), None).unwrap();
    assert_eq!(Vec::<&str>::new(), run(&exact, contents));
    let folded = Config::build(&tokens(&["minigrep", "rUst", "poem.txt"]), Some("")).unwrap();
    assert_eq!(vec!["Rust:", "rust-LOud, liker, love."], run(&folded, contents));
    let like = Config::build(&tokens(&["minigrep", "like", "poem.txt"]), None).unwrap();
    assert_eq!(vec!["rust-LOud, liker, love."], run(&like, contents));
}
