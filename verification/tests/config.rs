use mygrep::Config;

fn tokens(ts: &[&str]) -> Vec<String> {
    ts.iter().map(|t| t.to_string()).collect()
}

#[test]
fn too_few_tokens_is_an_error() {
    assert_eq!(Err("not enough arguments"), Config::new(tokens(&[])).map(|_| ()));
    assert_eq!(
        Err("not enough arguments"),
        Config::new(tokens(&["less"])).map(|_| ())
    );
}

#[test]
fn two_tokens_leave_both_flags_off() {
    let config = Config::new(tokens(&["less", "notes.txt"])).unwrap();
    assert_eq!("less", config.target);
    assert_eq!("notes.txt", config.file_path);
    assert!(!config.show_line_number);
    assert!(!config.ignore_case);
}

#[test]
fn flags_are_found_anywhere_in_the_token_list() {
    let config = Config::new(tokens(&["-n", "less", "notes.txt"])).unwrap();
    assert_eq!("-n", config.target);
    assert_eq!("less", config.file_path);
    assert!(config.show_line_number);
    assert!(!config.ignore_case);

    let config = Config::new(tokens(&["less", "notes.txt", "-i", "-n"])).unwrap();
    assert_eq!("less", config.target);
    assert_eq!("notes.txt", config.file_path);
    assert!(config.show_line_number);
    assert!(config.ignore_case);
}

#[test]
fn near_flags_do_not_count() {
    let config = Config::new(tokens(&["less", "notes.txt", "-ni", "--n"])).unwrap();
    assert!(!config.show_line_number);
    assert!(!config.ignore_case);
}
