//! Which system the remote is.

use tomo::remote::{detect_triple, forced_triple, ExecOutput};
use tomo::transport::TransportError;
use tomo::triple::{
    arch_os, parse_uname, uname_to_triple, AARCH64_DARWIN, AARCH64_LINUX_MUSL, SUPPORTED,
    X86_64_DARWIN, X86_64_LINUX_MUSL,
};

#[test]
fn linux_x86_64() {
    assert_eq!(
        uname_to_triple("Linux", "x86_64").unwrap(),
        X86_64_LINUX_MUSL
    );
}

#[test]
fn linux_arm() {
    assert_eq!(
        uname_to_triple("Linux", "aarch64").unwrap(),
        AARCH64_LINUX_MUSL
    );
    assert_eq!(
        uname_to_triple("Linux", "arm64").unwrap(),
        AARCH64_LINUX_MUSL
    );
}

#[test]
fn darwin() {
    assert_eq!(uname_to_triple("Darwin", "x86_64").unwrap(), X86_64_DARWIN);
    assert_eq!(uname_to_triple("Darwin", "arm64").unwrap(), AARCH64_DARWIN);
}

#[test]
fn case_and_whitespace_insensitive() {
    assert_eq!(
        uname_to_triple(" linux\n", " X86_64 ").unwrap(),
        X86_64_LINUX_MUSL
    );
}

#[test]
fn unsupported_os() {
    let err = uname_to_triple("FreeBSD", "amd64").unwrap_err();
    match err {
        TransportError::UnsupportedTarget { detected, .. } => {
            assert!(detected.contains("FreeBSD"));
        }
        other => panic!("wrong error: {other:?}"),
    }
}

#[test]
fn unsupported_arch() {
    assert!(uname_to_triple("Linux", "riscv64").is_err());
}

#[test]
fn parse_uname_ok() {
    assert_eq!(
        parse_uname("Linux x86_64\n").unwrap(),
        ("Linux".to_owned(), "x86_64".to_owned())
    );
}

#[test]
fn parse_uname_bad() {
    assert!(parse_uname("Linux").is_err());
    assert!(parse_uname("").is_err());
}

#[test]
fn arch_os_collapses_env() {
    assert_eq!(
        arch_os("x86_64-unknown-linux-gnu"),
        Some(("x86_64", "linux"))
    );
    assert_eq!(
        arch_os("x86_64-unknown-linux-musl"),
        Some(("x86_64", "linux"))
    );
    assert_eq!(arch_os("aarch64-apple-darwin"), Some(("aarch64", "darwin")));
}

fn answer(code: i32, stdout: &str, stderr: &str) -> ExecOutput {
    ExecOutput {
        code,
        stdout: stdout.as_bytes().to_vec(),
        stderr: stderr.as_bytes().to_vec(),
    }
}

#[test]
fn the_answer_of_the_remote_is_read() {
    assert_eq!(
        detect_triple("h", &answer(0, "Linux x86_64\n", "")).unwrap(),
        X86_64_LINUX_MUSL
    );
    assert_eq!(
        detect_triple("h", &answer(0, "Plan9 mips", "")).unwrap_err(),
        TransportError::UnsupportedTarget {
            detected: "Plan9 mips".to_owned(),
            supported: SUPPORTED.join(", "),
        }
    );
    assert_eq!(
        detect_triple("h", &answer(127, "", "no uname")).unwrap_err(),
        TransportError::RemoteCommand {
            cmd: "uname -s -m".to_owned(),
            host: "h".to_owned(),
            detail: "exit 127: no uname".to_owned(),
        }
    );
    assert_eq!(
        detect_triple("h", &answer(-1, "", "\u{e9}")).unwrap_err().message(),
        "remote command `uname -s -m` failed on h: exit -1: \u{e9}"
    );
}

#[test]
fn a_forced_system_has_to_be_one_that_can_be_served() {
    assert_eq!(forced_triple(AARCH64_DARWIN).unwrap(), AARCH64_DARWIN);
    match forced_triple("sparc").unwrap_err() {
        TransportError::UnsupportedTarget { detected, .. } => assert_eq!(
            detected,
            "sparc (forced via TOMO_TEST_FORCE_REMOTE_TRIPLE)"
        ),
        other => panic!("wrong error: {other:?}"),
    }
}

#[test]
fn what_is_mapped_can_be_served() {
    for os in ["Linux", "Darwin"] {
        for arch in ["x86_64", "amd64", "arm64", "aarch64"] {
            assert!(SUPPORTED.contains(&uname_to_triple(os, arch).unwrap()));
        }
    }
}

#[test]
fn more_than_two_words_are_no_system() {
    let said = "Linux x86_64 GNU/Linux\n";
    match parse_uname(said).unwrap_err() {
        TransportError::UnsupportedTarget { detected, .. } => {
            assert_eq!(detected, "Linux x86_64 GNU/Linux");
        }
        other => panic!("unexpected: {other:?}"),
    }
    let out = ExecOutput {
        code: 0,
        stdout: said.as_bytes().to_vec(),
        stderr: Vec::new(),
    };
    assert!(detect_triple("box", &out).is_err());
}
