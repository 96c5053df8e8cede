use treeview::search::{filter_by_keys, find_word, first_match, ignore_case_search, normal_search};

const POEM: &str = "Rust:\nsafe, fast, productive.\nPick three.\nTrust me.";

#[test]
fn case_sensitive_lines() {
    assert_eq!(normal_search("duct", POEM), vec!["safe, fast, productive."]);
    assert_eq!(normal_search("rust", POEM), vec!["Trust me."]);
    assert_eq!(normal_search("RUST", POEM), Vec::<String>::new());
    assert_eq!(normal_search("", "a\nb"), vec!["a", "b"]);
}

#[test]
fn case_insensitive_lines() {
    assert_eq!(ignore_case_search("rUsT", POEM), vec!["Rust:", "Trust me."]);
    assert_eq!(ignore_case_search("PICK", POEM), vec!["Pick three."]);
}

#[test]
fn keys_select_lines() {
    let lines = vec!["one".to_string(), "two".to_string(), "three".to_string()];
    let keys = vec!["x".to_string(), "yx".to_string(), "z".to_string()];
    assert_eq!(filter_by_keys(&lines, &keys, "x"), vec!["one", "two"]);
}

#[test]
fn word_positions() {
    assert_eq!(find_word("fast", "safe,  fast, productive."), 1);
    assert_eq!(find_word("duct", "safe, fast, productive."), 2);
    assert_eq!(find_word("zzz", "safe, fast"), 0);
    let words = vec!["ab".to_string(), "cd".to_string()];
    assert_eq!(first_match(&words, "d"), 1);
}
