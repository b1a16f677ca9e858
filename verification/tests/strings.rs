use paraexec::strutil::contains_char;
use paraexec::strutil::ends_with_char;
use paraexec::strutil::find_char;
use paraexec::strutil::str_eq;
use paraexec::strutil::strip_trailing_run;

#[test]
fn str_eq_matches_rust_equality() {
    assert!(str_eq("", ""));
    assert!(str_eq("abc", "abc"));
    assert!(!str_eq("abc", "abd"));
    assert!(!str_eq("abc", "ab"));
    assert!(str_eq("naïve", "naïve"));
}

#[test]
fn contains_char_finds_needle() {
    assert!(contains_char("A=1", '='));
    assert!(!contains_char("A1", '='));
    assert!(!contains_char("", '='));
}

#[test]
fn find_char_returns_first_occurrence() {
    assert_eq!(find_char("a=b=c", '='), Some(1));
    assert_eq!(find_char("abc", '='), None);
    assert_eq!(find_char("=x", '='), Some(0));
}

#[test]
fn ends_with_char_checks_last() {
    assert!(ends_with_char("web/", '/'));
    assert!(!ends_with_char("web", '/'));
    assert!(!ends_with_char("", '/'));
}

#[test]
fn strip_trailing_removes_whole_run() {
    assert_eq!(strip_trailing_run("name//", '/'), "name");
    assert_eq!(strip_trailing_run("name", '/'), "name");
    assert_eq!(strip_trailing_run("///", '/'), "");
    assert_eq!(strip_trailing_run("a/b/", '/'), "a/b");
}
