//! Words for a remote shell.

use tomo::quote::{shell_line, shell_quote};

#[test]
fn plain_word() {
    assert_eq!(shell_quote("hello"), "'hello'");
}

#[test]
fn empty_is_empty_string_literal() {
    assert_eq!(shell_quote(""), "''");
}

#[test]
fn spaces() {
    assert_eq!(shell_quote("/srv/my project"), "'/srv/my project'");
}

#[test]
fn single_quote_embedded() {
    assert_eq!(shell_quote("it's a trap"), r"'it'\''s a trap'");
}

#[test]
fn hostile_metacharacters() {
    // None of these may escape the quotes.
    let hostile = "$(rm -rf /); `reboot` & echo \"pwned\" | tee /etc/x #\n$HOME";
    let quoted = shell_quote(hostile);
    assert!(quoted.starts_with('\''));
    assert!(quoted.ends_with('\''));
    // The only unescaped `'` characters are the wrapping ones; there are no
    // single quotes in the hostile string, so exactly two remain.
    assert_eq!(quoted.matches('\'').count(), 2);
}

#[test]
fn many_single_quotes() {
    assert_eq!(shell_quote("''"), r"''\'''\'''");
}

#[test]
fn line_joins_words() {
    assert_eq!(
        shell_line(&["cd", &shell_quote("/a b"), "&&", "exec", &shell_quote("x")]),
        "cd '/a b' && exec 'x'"
    );
}

#[test]
fn a_backslash_stays() {
    assert_eq!(shell_quote("a\\b'c"), "'a\\b'\\''c'");
}
