use lax::{
    parse_pattern, parse_selectors, repository_root, Config, Expander, LaxError, Selector,
    SelectorMenu,
};
use tempfile::{Builder, TempDir};

struct NoChoice;

impl SelectorMenu for NoChoice {
    fn pick(&self, _paths: &[String]) -> Vec<String> {
        panic!("Oh god a choice!")
    }
}

fn setup() -> Expander<NoChoice> {
    Expander {
        config: Config::default(),
        selector_menu: NoChoice,
    }
}

/// Builds a tree of empty files in a fresh temporary directory.
fn tree(paths: &[&str]) -> TempDir {
    let root = Builder::new().prefix("laxtree").tempdir().unwrap();
    let mut made: Vec<String> = Vec::new();
    for path in paths {
        let parts: Vec<&str> = path.split('/').collect();
        let mut dir = root.path().to_path_buf();
        let mut so_far = String::new();
        for (i, part) in parts.iter().enumerate() {
            if part.is_empty() {
                continue;
            }
            so_far.push_str(part);
            so_far.push('/');
            let last = i + 1 == parts.len();
            if last {
                Builder::new()
                    .prefix(part)
                    .rand_bytes(0)
                    .keep(true)
                    .tempfile_in(&dir)
                    .unwrap();
            } else if !made.contains(&so_far) {
                Builder::new()
                    .prefix(part)
                    .rand_bytes(0)
                    .keep(true)
                    .tempdir_in(&dir)
                    .unwrap();
                made.push(so_far.clone());
            }
            dir.push(part);
        }
    }
    root
}

/// `pattern` with its search rooted in `root` rather than in the working directory.
fn at(root: &TempDir, pattern: &str) -> String {
    let base = root.path().to_str().unwrap();
    let rest = &pattern[1..];
    if rest.contains("/**/") {
        format!("@{}/{}", base, rest)
    } else {
        format!("@{}/**/{}", base, rest)
    }
}

/// A result `./path` of a search in the working directory, as found in `root`.
fn under(root: &TempDir, path: &str) -> String {
    format!("{}/{}", root.path().to_str().unwrap(), &path[2..])
}

/// The project layout the searches below expect.
fn project() -> TempDir {
    tree(&[
        "src/lib.rs",
        "src/main.rs",
        "src/errors.rs",
        "tests/foobar/foo",
        "tests/test.rs",
        "target/debug/deps/liblax.rlib",
        "target/debug/deps/lax.d",
    ])
}

fn expand(exp: &Expander<NoChoice>, pattern: &str) -> Result<Vec<String>, LaxError> {
    exp.expand_arguments(&[pattern.to_string()])
}

#[test]
fn basic() {
    let root = project();
    let exp = setup();

    let arguments = vec![at(&root, "@foo")];
    let expanded = exp.expand_arguments(&arguments).unwrap();
    assert_eq!(expanded, vec![under(&root, "./tests/foobar/foo")]);
}

#[test]
fn selector_parsing() {
    assert_eq!(
        parse_selectors("1,1,l,a,1,33").unwrap().selectors,
        vec![
            Selector::FromFront(0),
            Selector::FromFront(0),
            Selector::FromBack(0),
            Selector::All,
            Selector::FromFront(0),
            Selector::FromFront(32),
        ]
    );
}

#[test]
fn pattern_parsing() {
    let res = parse_pattern("@fish").unwrap();
    assert_eq!(res, (false, ".", "fish", None));

    let res = parse_pattern("@fish^tail").unwrap();
    assert_eq!(res, (false, ".", "fish", Some("tail")));

    let res = parse_pattern("@%head/**/fish^tail").unwrap();
    assert_eq!(res, (true, "head", "fish", Some("tail")));

    let res = parse_pattern("@/**/fish").unwrap();
    assert_eq!(res, (false, "/", "fish", None));

    let res = parse_pattern("@//**/fish").unwrap();
    assert_eq!(res, (false, "/", "fish", None));

    let res = parse_pattern("@./**/fish").unwrap();
    assert_eq!(res, (false, ".", "fish", None));

    let res = parse_pattern("@head/**/fish/**/tail").unwrap();
    assert_eq!(res, (false, "head", "fish/**/tail", None));

    let res = parse_pattern("@head/**/").unwrap();
    assert_eq!(res, (false, "head", "*/", None));
}

// '/' implies matching only directories
#[test]
fn imply_directory_matching() {
    let root = project();
    let exp = setup();
    let arguments = vec![at(&root, "@fo*/^a")];
    let expanded = exp.expand_arguments(&arguments).unwrap();
    assert_eq!(expanded.len(), 1);
    assert_eq!(expanded.first().unwrap(), &under(&root, "./tests/foobar/"));
}

#[test]
fn transform_file_to_parent() {
    let mut exp = setup();
    exp.config.transform_files_to_dirs = true;
    let arguments = vec!["@src/*.rs^1".to_string()];
    let expanded = exp.expand_arguments(&arguments).unwrap();
    assert_eq!(expanded.len(), 1);
    assert_eq!(expanded.first().unwrap(), "./src");
}

#[test]
fn expand_with_all_selector() {
    let exp = setup();

    let arguments = vec!["@*.rs^a".to_string()];
    let expanded = exp.expand_arguments(&arguments).unwrap();
    assert!(expanded.len() > 2);
}

#[test]
fn expand_with_last_selector() {
    let exp = setup();

    let arguments = vec!["@*.rs^l".to_string()];
    let expanded = exp.expand_arguments(&arguments).unwrap();
    assert_eq!(expanded.len(), 1);
}

#[test]
fn expand_with_single_selector() {
    let exp = setup();

    let arguments = vec!["@*.rs^1".to_string()];
    let expanded = exp.expand_arguments(&arguments).unwrap();
    assert_eq!(expanded.len(), 1);
}

#[test]
fn search() {
    let exp = setup();

    let arguments = vec!["@*.rs^/nothingmatchesthis".to_string()];
    let expanded = exp.expand_arguments(&arguments).unwrap();
    assert_eq!(expanded.len(), 0);
}

#[test]
fn globbing() {
    let root = project();
    let exp = setup();
    let patterns_with_many_matches = ["@*.rs^a", "@src/*.rs^a", "@src/../**/*.rs^a"];

    for pattern in &patterns_with_many_matches {
        let arguments = vec![at(&root, pattern)];
        let expanded = exp.expand_arguments(&arguments).unwrap();
        assert!(expanded.len() > 2);
    }

    let patterns_with_one_matches = ["@src/main.rs^a", "@foobar/foo^a", "@tests/**/foo^a"];

    for pattern in &patterns_with_one_matches {
        let arguments = vec![at(&root, pattern)];
        let expanded = exp.expand_arguments(&arguments).unwrap();
        assert_eq!(expanded.len(), 1);
    }
}

// A glob without a separator must not match inside a directory whose name it prefixes.
#[test]
fn dont_match_with_parent_directory() {
    let root = project();
    let exp = setup();

    let arguments = vec![at(&root, "@deps*^a")];
    let expanded = exp.expand_arguments(&arguments).unwrap();
    assert!(expanded.len() < 4);
    assert!(!expanded.is_empty());
}

#[test]
fn one_match_needs_no_menu() {
    let root = project();
    let exp = setup();
    assert_eq!(
        expand(&exp, &at(&root, "@tests/**/foo")).unwrap(),
        vec![under(&root, "./tests/foobar/foo")]
    );
}

#[test]
fn no_match_is_entity_not_found() {
    let exp = setup();
    match expand(&exp, "@no_such_file_anywhere_here.xyz") {
        Err(LaxError::EntityNotFound(p)) => assert_eq!(p, "@no_such_file_anywhere_here.xyz"),
        other => panic!("unexpected {:?}", other),
    }
}

#[test]
fn directory_glob_with_directories_disabled() {
    let mut exp = setup();
    exp.config.match_with_dirs = false;
    assert!(matches!(
        expand(&exp, "@fo*/"),
        Err(LaxError::DirectoriesDisabled)
    ));
}

#[test]
fn arguments_without_patterns_stay() {
    let exp = setup();
    let args: Vec<String> = vec!["ls".into(), "-la".into(), "a@b".into(), "".into()];
    assert_eq!(exp.expand_arguments(&args).unwrap(), args);
    let again = exp.expand_arguments(&args).unwrap();
    assert_eq!(exp.expand_arguments(&again).unwrap(), again);
}

#[test]
fn escaped_arobase_is_literal() {
    let exp = setup();
    let args = vec!["\\@foo".to_string()];
    assert_eq!(exp.expand_arguments(&args).unwrap(), vec!["@foo"]);
}

#[test]
fn patterns_and_literals_keep_their_order() {
    let root = project();
    let exp = setup();
    let args: Vec<String> = vec!["cat".into(), at(&root, "@foobar/foo"), "\\@x".into()];
    assert_eq!(
        exp.expand_arguments(&args).unwrap(),
        vec!["cat".to_string(), under(&root, "./tests/foobar/foo"), "@x".to_string()]
    );
}

#[test]
fn front_selectors_agree_with_full_walk() {
    let exp = setup();
    let all = expand(&exp, "@*.rs^a").unwrap();
    assert!(all.len() > 2);
    assert_eq!(expand(&exp, "@*.rs^1").unwrap(), vec![all[0].clone()]);
    assert_eq!(
        expand(&exp, "@*.rs^2,1,2").unwrap(),
        vec![all[1].clone(), all[0].clone(), all[1].clone()]
    );
    assert_eq!(
        expand(&exp, "@*.rs^-1").unwrap(),
        vec![all[all.len() - 1].clone()]
    );
}

#[test]
fn malformed_patterns() {
    let exp = setup();
    assert!(matches!(expand(&exp, "@"), Err(LaxError::MalformedPattern(_))));
    assert!(matches!(
        expand(&exp, "@a^1^2"),
        Err(LaxError::MalformedPattern(_))
    ));
    assert!(matches!(expand(&exp, "@^1"), Err(LaxError::EmptyGlob)));
}

#[test]
fn missing_entry_point() {
    let exp = setup();
    assert!(matches!(
        expand(&exp, "@no_such_directory_here/**/x"),
        Err(LaxError::NoSuchEntryPoint(_))
    ));
}

#[test]
fn bad_glob() {
    let exp = setup();
    assert!(matches!(expand(&exp, "@a["), Err(LaxError::GlobError(_))));
}

#[test]
fn bad_selectors_in_pattern() {
    let exp = setup();
    match expand(&exp, "@*.rs^x") {
        Err(LaxError::InvalidSelector(s)) => assert_eq!(s, "x"),
        other => panic!("unexpected {:?}", other),
    }
    assert!(matches!(
        expand(&exp, "@*.rs^0"),
        Err(LaxError::SelectorsAreOneIndexed)
    ));
    assert!(matches!(
        expand(&exp, "@*.rs^99999"),
        Err(LaxError::SelectorOutOfRange { from_back: false, offset: 99998 })
    ));
    assert!(matches!(
        expand(&exp, "@*.rs^/("),
        Err(LaxError::RegexError(_))
    ));
}

#[test]
fn hidden_entries_are_searched_only_when_asked() {
    let root = tree(&["tests/.hidden/inside_hidden", "tests/seen"]);
    let mut exp = setup();
    assert!(matches!(
        expand(&exp, &at(&root, "@inside_hidden")),
        Err(LaxError::EntityNotFound(_))
    ));
    assert_eq!(
        expand(&exp, &at(&root, "@seen")).unwrap(),
        vec![under(&root, "./tests/seen")]
    );
    exp.config.search_hidden = true;
    assert_eq!(
        expand(&exp, &at(&root, "@inside_hidden")).unwrap(),
        vec![under(&root, "./tests/.hidden/inside_hidden")]
    );
}

#[test]
fn tilde_names_the_home_directory() {
    let exp = setup();
    match expand(&exp, "@~/no_such_directory_below_home/**/x") {
        Err(LaxError::NoSuchEntryPoint(p)) => {
            assert!(!p.starts_with('~'));
            assert!(p.ends_with("/no_such_directory_below_home"));
        }
        other => panic!("unexpected {:?}", other),
    }
}

struct LastChoice;

impl SelectorMenu for LastChoice {
    fn pick(&self, paths: &[String]) -> Vec<String> {
        vec![paths[paths.len() - 1].clone()]
    }
}

#[test]
fn several_matches_go_to_the_menu() {
    let root = project();
    let exp = Expander {
        config: Config::default(),
        selector_menu: LastChoice,
    };
    let all = exp
        .expand_arguments(&[at(&root, "@src/*.rs^a")])
        .unwrap();
    assert_eq!(all.len(), 3);
    assert_eq!(
        exp.expand_arguments(&[at(&root, "@src/*.rs")]).unwrap(),
        vec![all[2].clone()]
    );
    assert_eq!(
        exp.expand_arguments(&[at(&root, "@src/main.rs")]).unwrap(),
        vec![under(&root, "./src/main.rs")]
    );
}

#[test]
fn repository_root_is_the_nearest_marked_ancestor() {
    let root = tree(&["proj/.git/HEAD", "proj/sub/deeper/x", "proj/sub/.svn/entries"]);
    let base = root.path().to_str().unwrap().to_string();
    assert_eq!(
        repository_root(format!("{}/proj/sub/deeper", base)).unwrap(),
        format!("{}/proj/sub", base)
    );
    assert_eq!(
        repository_root(format!("{}/proj", base)).unwrap(),
        format!("{}/proj", base)
    );
}

#[test]
fn bare_file_name_has_no_parent_to_stand_for_it() {
    let mut exp = setup();
    exp.config.transform_files_to_dirs = true;
    match exp.apply_post_transforms(vec!["no_such_file_here.txt".to_string()]) {
        Err(LaxError::NoParentDirectory(p)) => assert_eq!(p, "no_such_file_here.txt"),
        other => panic!("unexpected {:?}", other),
    }
    exp.config.transform_files_to_dirs = false;
    assert_eq!(
        exp.apply_post_transforms(vec!["no_such_file_here.txt".to_string()])
            .unwrap(),
        vec!["no_such_file_here.txt"]
    );
}

#[test]
fn parent_transform_keeps_directories() {
    let root = project();
    let mut exp = setup();
    exp.config.transform_files_to_dirs = true;
    let dir = under(&root, "./src");
    let file = under(&root, "./src/lib.rs");
    let once = exp
        .apply_post_transforms(vec![dir.clone(), file])
        .unwrap();
    assert_eq!(once, vec![dir.clone(), dir.clone()]);
    assert_eq!(exp.apply_post_transforms(once.clone()).unwrap(), once);
}

#[test]
fn deeply_nested_glob_fails_without_panicking() {
    let exp = setup();
    let pattern = format!("@{}a{}", "{".repeat(300), "}".repeat(300));
    assert!(matches!(expand(&exp, &pattern), Err(LaxError::GlobError(_))));
}

#[test]
fn entry_point_inside_a_hidden_directory_is_searched() {
    let root = tree(&[".github/workflows/ci.yml", "visible/ci.yml"]);
    let exp = setup();
    let base = root.path().to_str().unwrap();
    assert_eq!(
        expand(&exp, &format!("@{}/.github/**/*.yml", base)).unwrap(),
        vec![format!("{}/.github/workflows/ci.yml", base)]
    );
    assert_eq!(
        expand(&exp, &format!("@{}/**/*.yml", base)).unwrap(),
        vec![format!("{}/visible/ci.yml", base)]
    );
}
