use source_strip::selector::{
    comes_before, default_omit_patterns, fits, fits_any, insert_ordered, ConfigurationError,
    Pattern, Selection,
};

fn name(s: &str) -> Pattern {
    Pattern::Name(s.to_string())
}

fn prefix(s: &str) -> Pattern {
    Pattern::Prefix(s.to_string())
}

fn extension(s: &str) -> Pattern {
    Pattern::Extension(s.to_string())
}

#[test]
fn patterns_fit_names() {
    assert!(fits(&name("a.rs"), "a.rs"));
    assert!(!fits(&name("a.rs"), "a.rsx"));
    assert!(!fits(&name("a.rs"), "xa.rs"));
    assert!(!fits(&name("a.rs"), "a.r"));
    assert!(fits(&name(""), ""));
    assert!(fits(&prefix("_OLD_"), "_OLD_main.rs"));
    assert!(fits(&prefix("_OLD_"), "_OLD_"));
    assert!(!fits(&prefix("_OLD_"), "_OLD"));
    assert!(!fits(&prefix("_OLD_"), "x_OLD_"));
    assert!(fits(&prefix(""), "anything"));
    assert!(fits(&extension("rs"), "main.rs"));
    assert!(fits(&extension("rs"), ".rs"));
    assert!(!fits(&extension("rs"), "rs"));
    assert!(!fits(&extension("rs"), "mainrs"));
    assert!(!fits(&extension("rs"), "main.rs.bak"));
    assert!(!fits(&extension("rs"), "main.RS"));
    assert!(fits(&extension(""), "trailing."));
    assert!(fits(&extension("é"), "x.é"));
}

#[test]
fn any_of_the_patterns_may_fit() {
    let patterns = vec![name("Cargo.toml"), extension("rs")];
    assert!(fits_any(&patterns, "lib.rs"));
    assert!(fits_any(&patterns, "Cargo.toml"));
    assert!(!fits_any(&patterns, "Cargo.lock"));
    assert!(!fits_any(&Vec::new(), "lib.rs"));
}

#[test]
fn default_patterns_omit_two_prefixes() {
    assert_eq!(default_omit_patterns(), vec![prefix("_SKIP_"), prefix("_OLD_")]);
}

#[test]
fn accept_and_omit_exclude_each_other() {
    let mut s = Selection::new();
    assert_eq!(s.accept(extension("rs")), Ok(()));
    assert_eq!(s.omit(name("target")), Ok(()));
    let before = s.clone();
    assert_eq!(s.prepare(default_omit_patterns()), Err(ConfigurationError::AcceptAndOmit));
    assert_eq!(s, before);
    assert!(!s.is_prepared());
}

#[test]
fn default_patterns_join_the_patterns_to_omit() {
    let mut s = Selection::new();
    s.omit(name("target")).unwrap();
    assert!(s.lists("_OLD_a.rs", false));
    assert_eq!(s.prepare(default_omit_patterns()), Ok(()));
    assert!(s.is_prepared());
    assert!(!s.lists("_OLD_a.rs", false));
    assert!(!s.lists("_SKIP_a.rs", false));
    assert!(!s.lists("target", false));
    assert!(s.lists("a.rs", false));
    assert!(s.lists("a.txt", false));
}

#[test]
fn default_patterns_stay_out_where_names_are_accepted() {
    let mut s = Selection::new();
    s.accept(extension("rs")).unwrap();
    assert_eq!(s.prepare(default_omit_patterns()), Ok(()));
    assert!(s.lists("_OLD_a.rs", false));
    assert!(s.lists("a.rs", false));
    assert!(!s.lists("a.txt", false));
}

#[test]
fn prepared_selection_takes_no_changes() {
    let mut s = Selection::new();
    s.with_recurse(true).unwrap();
    s.prepare(Vec::new()).unwrap();
    let before = s.clone();
    let refused = Err(ConfigurationError::AlreadyPrepared);
    assert_eq!(s.with_recurse(false), refused);
    assert_eq!(s.with_directories(true), refused);
    assert_eq!(s.accept(extension("rs")), refused);
    assert_eq!(s.omit(name("x")), refused);
    assert_eq!(s.prepare(default_omit_patterns()), refused);
    assert_eq!(s, before);
    assert!(s.descends("src"));
    assert!(s.lists("_OLD_x", false));
}

#[test]
fn directories_are_listed_only_on_request() {
    let mut s = Selection::new();
    assert!(!s.lists("src", true));
    assert!(s.lists("src", false));
    s.with_directories(true).unwrap();
    assert!(s.lists("src", true));
    s.omit(prefix("s")).unwrap();
    assert!(!s.lists("src", true));
    assert!(s.lists("lib", true));
}

#[test]
fn walk_descends_only_on_request() {
    let mut s = Selection::new();
    assert!(!s.descends("src"));
    s.with_recurse(true).unwrap();
    assert!(s.descends("src"));
    s.omit(name("target")).unwrap();
    assert!(!s.descends("target"));
    assert!(s.descends("src"));
}

#[test]
fn accepted_names_never_keep_the_walk_out_of_a_directory() {
    let mut s = Selection::new();
    s.with_recurse(true).unwrap();
    s.with_directories(true).unwrap();
    s.accept(extension("rs")).unwrap();
    assert!(s.descends("src"));
    assert!(!s.lists("src", true));
    assert!(s.lists("gen.rs", true));
    assert!(s.lists("main.rs", false));
}

#[test]
fn order_of_paths_is_that_of_their_characters() {
    let paths = ["", "a", "a/b", "a/b.rs", "a/c", "ab", "b", "B", "é", "e", "a\u{10000}", "a\u{ffff}", "a/", "a.b"];
    for a in paths {
        for b in paths {
            assert_eq!(comes_before(a, b), a < b, "{:?} {:?}", a, b);
        }
    }
}

#[test]
fn paths_are_put_in_order() {
    let mut files: Vec<String> = Vec::new();
    for path in ["src/b.rs", "src/a.rs", "Cargo.toml", "src/a/z.rs", "src", "src/a.rs", "a"] {
        insert_ordered(&mut files, path.to_string());
    }
    assert_eq!(
        files,
        vec!["Cargo.toml", "a", "src", "src/a.rs", "src/a.rs", "src/a/z.rs", "src/b.rs"]
    );
    let mut sorted = files.clone();
    sorted.sort();
    assert_eq!(files, sorted);
}

#[test]
fn a_path_goes_before_the_first_that_comes_after_it() {
    let mut files = vec!["c".to_string(), "a".to_string(), "d".to_string()];
    insert_ordered(&mut files, "b".to_string());
    assert_eq!(files, vec!["b", "c", "a", "d"]);
    insert_ordered(&mut files, "z".to_string());
    assert_eq!(files, vec!["b", "c", "a", "d", "z"]);
}
