//! Where the binary to push comes from.

use tomo::binsource::{binary_for_triple, parse_artifact, plan_binary};
use tomo::transport::TransportError;
use tomo::triple;

#[test]
fn exact_match_no_substitution() {
    let plan =
        plan_binary(triple::X86_64_LINUX_MUSL, triple::X86_64_LINUX_MUSL, false).unwrap();
    assert!(!plan.dev_substitution);
}

#[test]
fn dev_gnu_serves_musl() {
    let plan =
        plan_binary(triple::X86_64_LINUX_MUSL, "x86_64-unknown-linux-gnu", true).unwrap();
    assert!(plan.dev_substitution);
}

#[test]
fn release_gnu_refuses_musl() {
    let err =
        plan_binary(triple::X86_64_LINUX_MUSL, "x86_64-unknown-linux-gnu", false).unwrap_err();
    assert!(matches!(err, TransportError::UnsupportedTarget { .. }));
}

#[test]
fn different_arch_always_refused() {
    assert!(plan_binary(triple::AARCH64_LINUX_MUSL, "x86_64-unknown-linux-gnu", true).is_err());
}

#[test]
fn different_os_refused() {
    assert!(plan_binary(triple::X86_64_DARWIN, "x86_64-unknown-linux-gnu", true).is_err());
}

#[test]
fn the_running_binary_serves_its_own_system() {
    let src = binary_for_triple(
        triple::X86_64_LINUX_MUSL,
        triple::X86_64_LINUX_MUSL,
        false,
        vec![1, 2, 3],
    )
    .unwrap();
    assert_eq!(src.bytes, vec![1, 2, 3]);
    assert!(!src.dev_substitution);
}

#[test]
fn artifact_names_are_read() {
    assert_eq!(
        parse_artifact("tomo-1.2.3-rc1-x86_64-unknown-linux-musl"),
        Some(("1.2.3-rc1".to_owned(), triple::X86_64_LINUX_MUSL))
    );
    assert_eq!(parse_artifact("tomo-1.2.3"), None);
    assert_eq!(parse_artifact("other-1-aarch64-apple-darwin"), None);
}

#[test]
fn triples_without_a_known_shape_are_never_substituted() {
    assert!(plan_binary("foo", "bar", true).is_err());
    assert!(plan_binary("foo", "x86_64-unknown-linux-gnu", true).is_err());
    assert!(!plan_binary("foo", "foo", true).unwrap().dev_substitution);
}
