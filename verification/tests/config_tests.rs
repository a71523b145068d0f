use mygrep::Config;

fn args(tokens: &[&str]) -> Vec<String> {
    tokens.iter().map(|t| String::from(*t)).collect()
}

#[test]
fn not_enough_arguments() {
    let a = args(&["prog"]);
    assert_eq!(Config::new(&a).err(), Some("not enough arguments"));
    let a = args(&["prog", "q"]);
    assert_eq!(Config::new(&a).err(), Some("not enough arguments"));
}

#[test]
fn too_many_arguments() {
    let a = args(&["prog", "q", "file.txt", "-s", "extra"]);
    assert_eq!(Config::new(&a).err(), Some("too many arguments"));
}

#[test]
fn wrong_flag() {
    let a = args(&["prog", "q", "file.txt", "-x"]);
    assert_eq!(Config::new(&a).err(), Some("wrong flag"));
    let a = args(&["prog", "q", "file.txt", "s"]);
    assert_eq!(Config::new(&a).err(), Some("wrong flag"));
    let a = args(&["prog", "q", "file.txt", "-ss"]);
    assert_eq!(Config::new(&a).err(), Some("wrong flag"));
}

#[test]
fn dash_s_turns_case_sensitivity_on() {
    let a = args(&["prog", "q", "file.txt", "-s"]);
    let config = Config::new(&a).unwrap();
    assert_eq!(config.query, "q");
    assert_eq!(config.fname, "file.txt");
    assert!(config.case_sensitive);
}

#[test]
fn three_arguments_default_to_case_insensitive() {
    let a = args(&["prog", "needle", "haystack.txt"]);
    let config = Config::new(&a).unwrap();
    assert_eq!(config.query, "needle");
    assert_eq!(config.fname, "haystack.txt");
    assert!(!config.case_sensitive);
}
