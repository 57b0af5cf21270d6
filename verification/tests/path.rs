//! Paths within the tree.

use tomo::path::{PathError, RelPath};


#[test]
fn accepts_simple_paths() {
    for ok in [
        "a",
        "a/b",
        "src/main.rs",
        "a/b/c/d.txt",
        ".tomofoo",
        "a/.tomo",
    ] {
        assert!(RelPath::new(ok).is_ok(), "should accept {ok:?}");
    }
}

#[test]
fn path_rejects_empty() {
    assert_eq!(RelPath::new(""), Err(PathError::Empty));
}

#[test]
fn rejects_absolute() {
    assert_eq!(RelPath::new("/etc/passwd"), Err(PathError::Absolute));
    assert_eq!(RelPath::new("/"), Err(PathError::Absolute));
}

#[test]
fn rejects_trailing_slash() {
    assert_eq!(RelPath::new("a/b/"), Err(PathError::TrailingSlash));
    assert_eq!(RelPath::new("a/"), Err(PathError::TrailingSlash));
}

#[test]
fn rejects_backslash() {
    assert_eq!(RelPath::new("a\\b"), Err(PathError::Backslash));
}

#[test]
fn rejects_nul() {
    assert_eq!(RelPath::new("a\0b"), Err(PathError::NulByte));
}

#[test]
fn rejects_empty_component() {
    assert_eq!(RelPath::new("a//b"), Err(PathError::EmptyComponent));
}

#[test]
fn rejects_dot_components() {
    assert_eq!(RelPath::new("."), Err(PathError::DotComponent));
    assert_eq!(RelPath::new(".."), Err(PathError::DotComponent));
    assert_eq!(RelPath::new("a/./b"), Err(PathError::DotComponent));
    assert_eq!(RelPath::new("a/../b"), Err(PathError::DotComponent));
    assert_eq!(RelPath::new("../b"), Err(PathError::DotComponent));
}

#[test]
fn rejects_dot_tomo_first_component() {
    assert_eq!(RelPath::new(".tomo"), Err(PathError::ReservedTomo));
    assert_eq!(RelPath::new(".tomo/state.db"), Err(PathError::ReservedTomo));
    assert_eq!(RelPath::new(".tomo/bin/tomo"), Err(PathError::ReservedTomo));
}

#[test]
fn accessors() {
    let p = RelPath::new("src/a/main.rs").unwrap();
    assert_eq!(p.as_str(), "src/a/main.rs");
    assert_eq!(p.file_name(), "main.rs");
    assert_eq!(p.components(), ["src", "a", "main.rs"]);
    let single = RelPath::new("README").unwrap();
    assert_eq!(single.file_name(), "README");
}

#[test]
fn conversion_round_trip() {
    for s in ["a", "src/main.rs", "a/.tomo", "\u{e9}/x y"] {
        let p = RelPath::new(s).unwrap();
        let back = RelPath::new(&p.clone().into_string()).unwrap();
        assert_eq!(p, back);
        assert!(p.same(&back));
    }
}

#[test]
fn every_rejection_has_a_message() {
    assert_eq!(
        RelPath::new("a//b").unwrap_err().message(),
        PathError::EmptyComponent.message()
    );
    for e in [
        PathError::Empty,
        PathError::Absolute,
        PathError::TrailingSlash,
        PathError::Backslash,
        PathError::NulByte,
        PathError::EmptyComponent,
        PathError::DotComponent,
        PathError::ReservedTomo,
    ] {
        assert!(!e.message().is_empty());
    }
}
