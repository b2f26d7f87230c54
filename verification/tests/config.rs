use minigrep::run;
use minigrep::Config;

fn args(list: &[&str]) -> Vec<String> {
    list.iter().map(|a| a.to_string()).collect()
}

#[test]
fn missing_query_is_reported() {
    let result = Config::new(args(&["minigrep"]), false);
    assert_eq!(Err("Didn't get a query string"), result.map(|_| ()));
}

#[test]
fn missing_filename_is_reported() {
    let result = Config::new(args(&["minigrep", "duct"]), false);
    assert_eq!(Err("Didn't get a file name"), result.map(|_| ()));
}

#[test]
fn arguments_resolve_into_a_config() {
    let config = Config::new(args(&["minigrep", "duct", "poem.txt"]), false).unwrap();
    assert_eq!("duct", config.query);
    assert_eq!("poem.txt", config.filename);
    assert!(config.case_sensitive);
}

#[test]
fn environment_toggle_disables_case_sensitivity() {
    let config = Config::new(args(&["minigrep", "duct", "poem.txt"]), true).unwrap();
    assert!(!config.case_sensitive);
}

#[test]
fn extra_arguments_are_ignored() {
    let config = Config::new(args(&["minigrep", "duct", "poem.txt", "extra"]), false).unwrap();
    assert_eq!("duct", config.query);
    assert_eq!("poem.txt", config.filename);
}

#[test]
fn run_respects_the_case_toggle() {
    let contents = "\
Rust:
safe, fast, productive.
Pick three.
Trust me.";

    let sensitive = Config::new(args(&["minigrep", "rUsT", "poem.txt"]), false).unwrap();
    assert_eq!(Vec::<&str>::new(), run(&sensitive, contents));

    let insensitive = Config::new(args(&["minigrep", "rUsT", "poem.txt"]), true).unwrap();
    assert_eq!(vec!["Rust:", "Trust me."], run(&insensitive, contents));
}
