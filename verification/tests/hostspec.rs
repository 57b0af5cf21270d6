//! Targets as they are typed.

use tomo::hostspec::{split_target_path, HostSpec};
use tomo::transport::TransportError;

#[test]
fn plain_host() {
    let s = HostSpec::parse("build-server").unwrap();
    assert_eq!(s.user, None);
    assert_eq!(s.host, "build-server");
    assert_eq!(s.port, 22);
}

#[test]
fn user_and_host() {
    let s = HostSpec::parse("jake@localhost").unwrap();
    assert_eq!(s.user.as_deref(), Some("jake"));
    assert_eq!(s.host, "localhost");
    assert_eq!(s.port, 22);
}

#[test]
fn user_host_port() {
    let s = HostSpec::parse("root@10.0.0.5:2222").unwrap();
    assert_eq!(s.user.as_deref(), Some("root"));
    assert_eq!(s.host, "10.0.0.5");
    assert_eq!(s.port, 2222);
}

#[test]
fn host_port_no_user() {
    let s = HostSpec::parse("example.com:22").unwrap();
    assert_eq!(s.user, None);
    assert_eq!(s.host, "example.com");
    assert_eq!(s.port, 22);
}

#[test]
fn bracketed_ipv6_no_port() {
    let s = HostSpec::parse("user@[fe80::1]").unwrap();
    assert_eq!(s.host, "fe80::1");
    assert_eq!(s.port, 22);
}

#[test]
fn bracketed_ipv6_with_port() {
    let s = HostSpec::parse("[::1]:2200").unwrap();
    assert_eq!(s.host, "::1");
    assert_eq!(s.port, 2200);
}

#[test]
fn bare_ipv6_is_host_only() {
    // Unbracketed IPv6 cannot carry a port; the whole thing is the host.
    let s = HostSpec::parse("fe80::1").unwrap();
    assert_eq!(s.host, "fe80::1");
    assert_eq!(s.port, 22);
}

#[test]
fn user_fallback() {
    let s = HostSpec::parse("host").unwrap();
    assert_eq!(s.user_or("me"), "me");
    let s2 = HostSpec::parse("you@host").unwrap();
    assert_eq!(s2.user_or("me"), "you");
}

#[test]
fn hostspec_rejects_empty() {
    assert!(HostSpec::parse("").is_err());
    assert!(HostSpec::parse("   ").is_err());
}

#[test]
fn rejects_empty_user() {
    assert!(HostSpec::parse("@host").is_err());
}

#[test]
fn rejects_double_at() {
    assert!(HostSpec::parse("a@b@host").is_err());
}

#[test]
fn rejects_bad_port() {
    assert!(HostSpec::parse("host:0").is_err());
    assert!(HostSpec::parse("host:70000").is_err());
    assert!(HostSpec::parse("host:abc").is_err());
}

#[test]
fn rejects_unterminated_bracket() {
    assert!(HostSpec::parse("[::1").is_err());
}

// ---- split_target_path (rsync-style host:path) -----------------------

#[test]
fn split_plain_host_path() {
    assert_eq!(
        split_target_path("host:/srv/app"),
        Some(("host", "/srv/app"))
    );
    assert_eq!(
        split_target_path("dev@box:~/proj"),
        Some(("dev@box", "~/proj"))
    );
}

#[test]
fn split_first_colon_only() {
    // Only the FIRST outside-bracket colon splits; later colons stay in path.
    assert_eq!(
        split_target_path("host:/srv:weird"),
        Some(("host", "/srv:weird"))
    );
}

#[test]
fn split_ipv6_bracket_safe() {
    assert_eq!(split_target_path("[::1]:/srv"), Some(("[::1]", "/srv")));
    assert_eq!(
        split_target_path("user@[fe80::1]:~/p"),
        Some(("user@[fe80::1]", "~/p"))
    );
    // A bracketed literal with no trailing path → no outside-bracket colon.
    assert_eq!(split_target_path("[fe80::1]"), None);
}

#[test]
fn split_no_colon_is_none() {
    assert_eq!(split_target_path("user@host"), None);
    assert_eq!(split_target_path("host"), None);
}

#[test]
fn split_empty_path_reported() {
    assert_eq!(split_target_path("host:"), Some(("host", "")));
}

#[test]
fn a_rejected_target_is_named_with_the_reason() {
    match HostSpec::parse("a@b@host").unwrap_err() {
        TransportError::HostSpec { target, .. } => assert_eq!(target, "a@b@host"),
        other => panic!("wrong error: {other:?}"),
    }
}

#[test]
fn address_for_dialling() {
    let s = HostSpec::parse("root@10.0.0.5:2222").unwrap();
    assert_eq!(s.host_port(), "10.0.0.5:2222");
}

#[test]
fn what_is_split_rejoins() {
    for arg in ["host:/srv", "[::1]:/srv:x", "a@b:", ":x"] {
        if let Some((host, path)) = split_target_path(arg) {
            assert_eq!(format!("{host}:{path}"), arg);
        }
    }
}
