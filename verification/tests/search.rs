use mygrep::search;

#[test]
fn case_sensitive() {
    let target = "less";
    let contents = "\
export EDITOR=nvim
export VISUAL=nvim
export PAGER=less";
    assert_eq!(
        vec![(3, "export PAGER=less")],
        search(target, contents, false)
    );
    let target = "nvim";
    assert_eq!(
        vec![(1, "export EDITOR=nvim"), (2, "export VISUAL=nvim")],
        search(target, contents, false)
    );
}

#[test]
fn ignore_case() {
    let target = "LeSs";
    let contents = "\
export EDITOR=nvim
export VISUAL=nvim
export PAGER=less";
    assert_eq!(
        vec![(3, "export PAGER=less")],
        search(target, contents, true)
    );
}

#[test]
fn case_sensitive_mismatch_is_empty() {
    let contents = "\
export EDITOR=nvim
export VISUAL=nvim
export PAGER=less";
    assert_eq!(Vec::<(usize, &str)>::new(), search("LeSs", contents, false));
}

#[test]
fn empty_contents_yield_no_matches() {
    assert_eq!(Vec::<(usize, &str)>::new(), search("less", "", false));
    assert_eq!(Vec::<(usize, &str)>::new(), search("less", "", true));
}

#[test]
fn lone_newline_has_one_empty_line() {
    // A single terminator makes one empty line, which no non-empty
    // target matches.
    assert_eq!(Vec::<(usize, &str)>::new(), search("less", "\n", false));
    assert_eq!(vec![(1, "")], search("", "\n", false));
}

#[test]
fn empty_target_matches_every_line() {
    let contents = "alpha\nbeta\ngamma";
    assert_eq!(
        vec![(1, "alpha"), (2, "beta"), (3, "gamma")],
        search("", contents, false)
    );
}

#[test]
fn search_is_pure() {
    let contents = "one\ntwo\nthree\ntwenty-two";
    let first = search("tw", contents, false);
    let second = search("tw", contents, false);
    assert_eq!(first, second);
    assert_eq!(vec![(2, "two"), (4, "twenty-two")], first);
}

#[test]
fn case_insensitive_results_include_case_sensitive_ones() {
    let contents = "Mixed CASE line\nmixed case line\nother";
    let strict = search("case", contents, false);
    let relaxed = search("case", contents, true);
    assert_eq!(vec![(2, "mixed case line")], strict);
    assert_eq!(vec![(1, "Mixed CASE line"), (2, "mixed case line")], relaxed);
    for m in strict {
        assert!(relaxed.contains(&m));
    }
}

#[test]
fn trailing_terminator_adds_no_line() {
    assert_eq!(vec![(1, "less is more")], search("less", "less is more\n", false));
}

#[test]
fn crlf_terminators_are_stripped() {
    let contents = "export PAGER=less\r\nexport EDITOR=nvim\r\n";
    assert_eq!(vec![(1, "export PAGER=less")], search("less", contents, false));
    assert_eq!(vec![(2, "export EDITOR=nvim")], search("nvim", contents, false));
}

#[test]
fn line_numbers_are_positions() {
    let contents = "a\nxa\nb\nxa";
    let found = search("a", contents, false);
    assert_eq!(vec![(1, "a"), (2, "xa"), (4, "xa")], found);
    let lines: Vec<&str> = mygrep::split_lines(contents);
    for (n, text) in found {
        assert_eq!(lines[n - 1], text);
    }
}

#[test]
fn split_lines_follows_the_terminators() {
    assert_eq!(Vec::<&str>::new(), mygrep::split_lines(""));
    assert_eq!(vec!["a", "b"], mygrep::split_lines("a\nb"));
    assert_eq!(vec!["a", "b"], mygrep::split_lines("a\nb\n"));
    assert_eq!(vec!["a", "", "b"], mygrep::split_lines("a\n\nb"));
    assert_eq!(vec!["a\r"], mygrep::split_lines("a\r"));
}

#[test]
fn line_contains_applies_the_case_rule() {
    assert!(mygrep::line_contains("export PAGER=less", "less", false));
    assert!(!mygrep::line_contains("export PAGER=less", "LeSs", false));
    assert!(mygrep::line_contains("export PAGER=less", "LeSs", true));
    assert!(mygrep::line_contains("anything", "", false));
    assert!(!mygrep::line_contains("short", "much too long", false));
}
