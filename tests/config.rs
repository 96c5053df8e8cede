use treeview::config::Config;

fn args(list: &[&str]) -> Vec<String> {
    list.iter().map(|s| s.to_string()).collect()
}

#[test]
fn too_few_arguments() {
    let r = Config::build(&args(&["prog", "-q", "x", "-p"]));
    assert_eq!(r.unwrap_err(), "not enough arguments");
}

#[test]
fn query_path_and_case() {
    let c = Config::build(&args(&["prog", "-p", "poem.txt", "-q", "to", "--ignore-case"])).unwrap();
    assert_eq!(c.query, "to");
    assert_eq!(c.file_path, "poem.txt");
    assert!(c.ignore_case);
}

#[test]
fn later_flag_wins_and_case_default() {
    let c = Config::build(&args(&["prog", "-q", "a", "-q", "b", "-p", "f"])).unwrap();
    assert_eq!(c.query, "b");
    assert_eq!(c.file_path, "f");
    assert!(!c.ignore_case);
}
