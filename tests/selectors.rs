use lax::{
    apply_menu_answer, join_path_text, keep_entry, parse_pattern, parse_selector_list, repository_step,
    transform_path, trim_whitespace, RootSearch,
    parse_selectors, LaxError, Selector, SelectorGroup,
};

fn abc() -> Vec<String> {
    vec!["a".to_string(), "b".to_string(), "c".to_string()]
}

fn select(raw: &str, paths: &[String]) -> Result<Vec<String>, LaxError> {
    parse_selectors(raw).unwrap().select(paths)
}

#[test]
fn negative_selectors_count_from_the_back() {
    assert_eq!(select("-1", &abc()).unwrap(), vec!["c"]);
    assert_eq!(select("-3", &abc()).unwrap(), vec!["a"]);
    assert_eq!(select("l", &abc()).unwrap(), vec!["c"]);
}

#[test]
fn selector_past_the_end_is_out_of_range() {
    assert!(matches!(
        select("4", &abc()),
        Err(LaxError::SelectorOutOfRange { from_back: false, offset: 3 })
    ));
    assert!(matches!(
        select("-4", &abc()),
        Err(LaxError::SelectorOutOfRange { from_back: true, offset: 3 })
    ));
    assert!(matches!(
        select("1,5,/(", &abc()),
        Err(LaxError::SelectorOutOfRange { from_back: false, offset: 4 })
    ));
}

#[test]
fn zero_selector_is_rejected() {
    for raw in ["0", "-0", "00", "1,0", "a,-000"] {
        assert!(matches!(
            parse_selectors(raw),
            Err(LaxError::SelectorsAreOneIndexed)
        ));
    }
}

#[test]
fn malformed_selector_tokens() {
    for raw in ["", "x", "1,,2", "+1", "1a", "-", "9223372036854775808"] {
        assert!(matches!(
            parse_selectors(raw),
            Err(LaxError::InvalidSelector(_))
        ));
    }
    match parse_selectors("1,zz,0") {
        Err(LaxError::InvalidSelector(t)) => assert_eq!(t, "zz"),
        other => panic!("unexpected {:?}", other),
    }
}

#[test]
fn largest_integer_selectors() {
    assert_eq!(
        parse_selector_list("9223372036854775807").unwrap().selectors,
        vec![Selector::FromFront(9223372036854775806)]
    );
    assert_eq!(
        parse_selector_list("-9223372036854775808").unwrap().selectors,
        vec![Selector::FromBack(9223372036854775807)]
    );
}

#[test]
fn selector_string_is_trimmed() {
    assert_eq!(
        parse_selectors(" 2,-1 \n").unwrap().selectors,
        vec![Selector::FromFront(1), Selector::FromBack(0)]
    );
    assert!(matches!(
        parse_selector_list(" 2"),
        Err(LaxError::InvalidSelector(_))
    ));
}

#[test]
fn regex_selector_keeps_order_and_repeats_are_kept() {
    let paths: Vec<String> = vec!["ab".into(), "cd".into(), "abc".into()];
    assert_eq!(
        parse_selectors("/^ab").unwrap().selectors,
        vec![Selector::Regex("^ab".to_string())]
    );
    assert_eq!(select("/^ab", &paths).unwrap(), vec!["ab", "abc"]);
    assert_eq!(select("1,1", &paths).unwrap(), vec!["ab", "ab"]);
    assert_eq!(select("a,-1", &paths).unwrap(), vec!["ab", "cd", "abc", "abc"]);
    assert!(matches!(select("/(", &paths), Err(LaxError::RegexError(_))));
}

#[test]
fn selecting_from_nothing_fails() {
    assert!(matches!(
        select("a", &[]),
        Err(LaxError::EmptyCandidateList)
    ));
}

#[test]
fn highest_index_of_groups() {
    assert_eq!(parse_selectors("1,3,2").unwrap().highest_index(), Some(2));
    assert_eq!(parse_selectors("1,-1").unwrap().highest_index(), None);
    assert_eq!(parse_selectors("1,a").unwrap().highest_index(), None);
    assert_eq!(parse_selectors("/x").unwrap().highest_index(), None);
    let empty = SelectorGroup { selectors: vec![] };
    assert_eq!(empty.highest_index(), Some(0));
}

#[test]
fn menu_answers() {
    assert_eq!(apply_menu_answer(&abc(), "2\n").unwrap(), vec!["b"]);
    assert_eq!(apply_menu_answer(&abc(), "a").unwrap(), vec!["a", "b", "c"]);
    assert!(apply_menu_answer(&abc(), "q\n").is_err());
    assert!(apply_menu_answer(&abc(), "7").is_err());
}

#[test]
fn pattern_modifiers() {
    assert_eq!(
        parse_pattern("@\\%x").unwrap(),
        (false, ".", "%x", None)
    );
    assert_eq!(parse_pattern("@%").unwrap(), (true, ".", "", None));
    assert_eq!(
        parse_pattern("@%src/**/^-1").unwrap(),
        (true, "src", "*/", Some("-1"))
    );
    assert_eq!(parse_pattern("@/**/").unwrap(), (false, "/", "*/", None));
    assert!(matches!(parse_pattern("@"), Err(LaxError::MalformedPattern(_))));
    assert!(matches!(
        parse_pattern("@x^1^2"),
        Err(LaxError::MalformedPattern(_))
    ));
}

#[test]
fn hidden_names() {
    assert!(!keep_entry(Some(".git"), 1, false));
    assert!(keep_entry(Some(".git"), 1, true));
    assert!(keep_entry(Some(".git"), 0, false));
    assert!(keep_entry(Some("."), 1, false));
    assert!(keep_entry(Some(".."), 1, false));
    assert!(keep_entry(Some("src"), 3, false));
    assert!(keep_entry(None, 1, false));
}

#[test]
fn joining_paths() {
    assert_eq!(join_path_text("/repo", "src"), "/repo/src");
    assert_eq!(join_path_text("/repo/", "src"), "/repo/src");
    assert_eq!(join_path_text("/repo", "/abs"), "/abs");
    assert_eq!(join_path_text("", "src"), "src");
}

#[test]
fn transforming_single_paths() {
    assert_eq!(transform_path("some/dir", true).unwrap(), "some/dir");
    assert_eq!(transform_path("./src/lib.rs", false).unwrap(), "./src");
    assert_eq!(transform_path("/etc/hosts", false).unwrap(), "/etc");
    match transform_path("foo", false) {
        Err(LaxError::NoParentDirectory(p)) => assert_eq!(p, "foo"),
        other => panic!("unexpected {:?}", other),
    }
    assert!(matches!(
        transform_path("/", false),
        Err(LaxError::NoParentDirectory(_))
    ));
}

#[test]
fn repository_search_steps() {
    assert_eq!(repository_step("/a/b", true, false), RootSearch::Found);
    assert_eq!(repository_step("/a/b", false, true), RootSearch::Found);
    assert_eq!(
        repository_step("/a/b", false, false),
        RootSearch::Up("/a".to_string())
    );
    assert_eq!(repository_step("/", false, false), RootSearch::Exhausted);
}

#[test]
fn white_space_is_trimmed_at_both_ends_only() {
    assert_eq!(trim_whitespace("  a b\t\n"), "a b");
    assert_eq!(trim_whitespace("\u{3000}x\u{85}"), "x");
    assert_eq!(trim_whitespace("x"), "x");
    assert_eq!(trim_whitespace(" \n "), "");
}
