use lang_parsing_substrate::path_ignore::PathIgnore;

#[test]
fn matches_recursive_glob() {
    let ignore = PathIgnore::new(&["vendor/**", "third_party/**"]).unwrap();
    assert!(ignore.is_ignored("vendor/lib/foo.c"));
    assert!(ignore.is_ignored("third_party/x.rs"));
    assert!(!ignore.is_ignored("src/main.rs"));
}

#[test]
fn empty_ignore_matches_nothing() {
    let ignore = PathIgnore::empty();
    assert!(!ignore.is_ignored("vendor/lib/foo.c"));
}

#[test]
fn invalid_glob_is_an_error() {
    assert!(PathIgnore::new(&["["]).is_err());
}

