//! Remote paths with a tilde.

use tomo::remotepath::expand_remote_tilde;
use tomo::transport::TransportError;

#[test]
fn bare_tilde_is_home() {
    assert_eq!(expand_remote_tilde("~", "/home/dev").unwrap(), "/home/dev");
    // Trailing slash on home is trimmed.
    assert_eq!(expand_remote_tilde("~", "/home/dev/").unwrap(), "/home/dev");
}

#[test]
fn tilde_slash_joins_remainder() {
    assert_eq!(
        expand_remote_tilde("~/proj", "/home/dev").unwrap(),
        "/home/dev/proj"
    );
    assert_eq!(
        expand_remote_tilde("~/a/b/c", "/home/dev/").unwrap(),
        "/home/dev/a/b/c"
    );
}

#[test]
fn non_tilde_paths_are_unchanged() {
    assert_eq!(
        expand_remote_tilde("/srv/x", "/home/dev").unwrap(),
        "/srv/x"
    );
    assert_eq!(
        expand_remote_tilde("relative/dir", "/home/dev").unwrap(),
        "relative/dir"
    );
    // A tilde that is not leading is not special.
    assert_eq!(
        expand_remote_tilde("/srv/~cache", "/home/dev").unwrap(),
        "/srv/~cache"
    );
}

#[test]
fn tilde_user_form_is_rejected() {
    let err = expand_remote_tilde("~bob/proj", "/home/dev").unwrap_err();
    assert!(matches!(err, TransportError::RemotePath { .. }));
}

#[test]
fn expanding_twice_changes_nothing() {
    let once = expand_remote_tilde("~/a", "/home/dev/").unwrap();
    assert_eq!(expand_remote_tilde(&once, "/home/dev/").unwrap(), once);
}

#[test]
fn the_rejected_path_is_named() {
    match expand_remote_tilde("~bob", "/home/dev").unwrap_err() {
        TransportError::RemotePath { path, .. } => assert_eq!(path, "~bob"),
        other => panic!("wrong error: {other:?}"),
    }
}
