use trashd::glob::simple_glob_match;

#[test]
fn glob_wildcard_all() {
    assert!(simple_glob_match("*", "anything"));
}

#[test]
fn glob_suffix() {
    assert!(simple_glob_match("*.py", "script.py"));
    assert!(!simple_glob_match("*.py", "script.rs"));
}

#[test]
fn glob_prefix() {
    assert!(simple_glob_match("test*", "test_file.txt"));
    assert!(!simple_glob_match("test*", "my_test.txt"));
}

#[test]
fn glob_infix() {
    assert!(simple_glob_match("a*z", "abcz"));
    assert!(!simple_glob_match("a*z", "abcy"));
}

#[test]
fn glob_infix_short_text_no_false_positive() {
    assert!(!simple_glob_match("ab*ab", "ab"));
    assert!(simple_glob_match("ab*ab", "abXab"));
}

#[test]
fn glob_exact() {
    assert!(simple_glob_match("foo.txt", "foo.txt"));
    assert!(!simple_glob_match("foo.txt", "bar.txt"));
}

#[test]
fn glob_multi_wildcard() {
    assert!(simple_glob_match("*.py*", "script.py"));
    assert!(simple_glob_match("*.py*", "script.pyc"));
    assert!(!simple_glob_match("*.py*", "script.rs"));
}

#[test]
fn glob_backtracks() {
    assert!(!simple_glob_match("abc*b*bc", "abc"));
    assert!(simple_glob_match("abc*b*bc", "abcXbYbc"));
    assert!(simple_glob_match("*a*b", "xaxaxb"));
}

#[test]
fn glob_single_and_classes() {
    assert!(simple_glob_match("file?.txt", "file1.txt"));
    assert!(!simple_glob_match("file?.txt", "file.txt"));
    assert!(simple_glob_match("[a-c]x", "bx"));
    assert!(!simple_glob_match("[a-c]x", "dx"));
    assert!(simple_glob_match("[!a-c]x", "dx"));
    assert!(!simple_glob_match("[!a-c]x", "ax"));
}

#[test]
fn glob_literal_is_itself() {
    assert!(simple_glob_match("", ""));
    assert!(!simple_glob_match("", "a"));
    assert!(simple_glob_match("\u{65e5}*", "\u{65e5}\u{672c}"));
}
