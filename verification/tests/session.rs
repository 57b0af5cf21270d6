//! Opening a connection, step by step.

use tomo::hostkeys::{connect_error, hop_label, HostKeyVerdict};
use tomo::routes::SshConfig;
use tomo::session::{
    config_path, hop_at, next_connect, resolve_route, settle_identity, AgentOutcome, ConnectEvent,
    ConnectStep, KeyOutcome, Login, LoginStep, SignOutcome, SshOpts,
};
use tomo::sshconfig::ResolvedRoute;
use tomo::transport::TransportError;

fn opts() -> SshOpts {
    SshOpts::new("/home/u", "me")
}

fn route(cfg: &str, target: &str) -> ResolvedRoute {
    resolve_route(target, &opts(), &SshConfig::parse(cfg)).unwrap()
}

#[test]
fn defaults_lie_below_the_home_directory() {
    let o = opts();
    assert_eq!(o.default_user, "me");
    assert_eq!(o.home, "/home/u");
    assert_eq!(o.known_hosts, "/home/u/.ssh/known_hosts");
    assert_eq!(
        o.identity_files,
        vec!["/home/u/.ssh/id_ed25519", "/home/u/.ssh/id_rsa"]
    );
    assert_eq!(o.connect_timeout, 20);
    assert_eq!(config_path("/home/u", None), "/home/u/.ssh/config");
    assert_eq!(config_path("/home/u", Some("/x".to_owned())), "/x");
}

#[test]
fn an_unusable_route_is_an_error() {
    let cfg = SshConfig::parse("Host a\n  ProxyJump a\n");
    assert_eq!(
        resolve_route("a", &opts(), &cfg).unwrap_err(),
        TransportError::ProxyJump {
            target: "a".to_owned(),
            reason: "ProxyJump chain cycles back to \"a\"".to_owned(),
        }
    );
}

fn refused(reason: &str, verdict: HostKeyVerdict) -> ConnectEvent {
    ConnectEvent::Refused {
        reason: reason.to_owned(),
        verdict,
    }
}

#[test]
fn a_chain_is_gone_through_in_order() {
    let r = route("Host dst\n  ProxyJump a,bob@b\n", "dst");
    let o = opts();
    let mut step = ConnectStep::Dial;
    let mut users = Vec::new();
    for expected in ["a", "b", "dst"] {
        if let ConnectStep::Tunnel { hop } = step {
            assert_eq!(hop_at(&r, hop).alias, expected);
            step = next_connect(&r, &o, step, ConnectEvent::Opened);
            assert!(matches!(step, ConnectStep::Handshake { .. }));
        }
        step = next_connect(&r, &o, step, ConnectEvent::Joined);
        match &step {
            ConnectStep::Authenticate { hop, user } => {
                assert_eq!(hop_at(&r, *hop).alias, expected);
                users.push(user.clone());
            }
            other => panic!("wrong step: {other:?}"),
        }
        step = next_connect(&r, &o, step, ConnectEvent::LoggedIn);
    }
    assert!(matches!(step, ConnectStep::Connected));
    assert_eq!(users, vec!["me", "bob", "me"]);
}

#[test]
fn failures_name_the_hop() {
    let o = opts();
    let direct = route("", "dst:2200");
    let failed = next_connect(
        &direct,
        &o,
        ConnectStep::Dial,
        refused("no route", HostKeyVerdict::Pending),
    );
    match failed {
        ConnectStep::Failed(e) => assert_eq!(
            e,
            TransportError::Connect {
                host: "dst:2200".to_owned(),
                source: "no route".to_owned()
            }
        ),
        other => panic!("wrong step: {other:?}"),
    }
    let jump = route("Host dst\n  ProxyJump a\nHost a\n  HostName 10.0.0.1\n", "dst");
    let label = "a (10.0.0.1:22)";
    assert_eq!(hop_label(hop_at(&jump, 0)), label);
    match next_connect(
        &jump,
        &o,
        ConnectStep::Dial,
        ConnectEvent::TimedOut {
            reason: "timeout".to_owned(),
        },
    ) {
        ConnectStep::Failed(e) => {
            assert_eq!(e, connect_error(hop_at(&jump, 0), false, "timeout"));
            assert_eq!(
                e,
                TransportError::JumpConnect {
                    hop: label.to_owned(),
                    reason: "timeout".to_owned()
                }
            );
        }
        other => panic!("wrong step: {other:?}"),
    }
    match next_connect(
        &jump,
        &o,
        ConnectStep::Tunnel { hop: 1 },
        refused("denied", HostKeyVerdict::Pending),
    ) {
        ConnectStep::Failed(e) => assert_eq!(
            e,
            TransportError::JumpConnect {
                hop: "dst (dst:22)".to_owned(),
                reason: "opening tunnel through the previous hop: denied".to_owned()
            }
        ),
        other => panic!("wrong step: {other:?}"),
    }
    // A rejected key counts before any other reason.
    match next_connect(
        &jump,
        &o,
        ConnectStep::Handshake { hop: 1 },
        refused(
            "closed",
            HostKeyVerdict::Mismatch {
                host: "dst".to_owned(),
                line: 2,
            },
        ),
    ) {
        ConnectStep::Failed(e) => assert_eq!(
            e,
            TransportError::HostKeyMismatch {
                host: "dst".to_owned(),
                line: 2
            }
        ),
        other => panic!("wrong step: {other:?}"),
    }
}

#[test]
fn a_login_tries_the_agent_then_each_key_file_once() {
    let r = route(
        "Host dst\n  IdentityFile ~/.ssh/id_rsa\n  IdentityFile ~/.ssh/extra\n",
        "dst",
    );
    let (mut login, first) = Login::start(&r.target, "me", &opts());
    assert!(matches!(first, LoginStep::Agent));
    assert_eq!(
        login.identities,
        vec![
            "/home/u/.ssh/id_ed25519",
            "/home/u/.ssh/id_rsa",
            "/home/u/.ssh/extra"
        ]
    );
    let step = login.after_agent(AgentOutcome::NoneAccepted);
    assert!(matches!(step, LoginStep::Key(ref p) if p == "/home/u/.ssh/id_ed25519"));
    let step = login.after_key(KeyOutcome::Absent);
    assert!(matches!(step, LoginStep::Key(ref p) if p == "/home/u/.ssh/id_rsa"));
    let step = login.after_key(KeyOutcome::Rejected);
    assert!(matches!(step, LoginStep::Key(ref p) if p == "/home/u/.ssh/extra"));
    match login.after_key(KeyOutcome::Unusable("bad header".to_owned())) {
        LoginStep::Failed(e) => assert_eq!(
            e,
            TransportError::AuthFailed {
                user: "me".to_owned(),
                host: "dst".to_owned(),
                detail: "ssh-agent (no identity accepted); /home/u/.ssh/id_rsa (rejected); \
                         /home/u/.ssh/extra (unusable: bad header; passphrase-encrypted keys \
                         are not supported yet)"
                    .to_owned(),
            }
        ),
        other => panic!("wrong step: {other:?}"),
    }
}

#[test]
fn a_login_ends_with_the_first_key_that_is_accepted() {
    let r = route("Host dst\n  IdentitiesOnly yes\n", "dst");
    let (mut login, first) = Login::start(&r.target, "me", &opts());
    assert!(matches!(first, LoginStep::Key(_)));
    assert_eq!(
        login.tried,
        vec!["ssh-agent (skipped: IdentitiesOnly yes)"]
    );
    let step = login.after_key(KeyOutcome::Failed("lost".to_owned()));
    assert!(matches!(step, LoginStep::Key(_)));
    assert_eq!(login.tried[1], "/home/u/.ssh/id_ed25519 (lost)");
    assert!(matches!(
        login.after_key(KeyOutcome::Accepted),
        LoginStep::LoggedIn
    ));
}

#[test]
fn what_the_agent_says_is_told() {
    let r = route("", "dst");
    for (outcome, said) in [
        (AgentOutcome::NoSocket, "ssh-agent (no SSH_AUTH_SOCK)"),
        (
            AgentOutcome::ConnectFailed("x".to_owned()),
            "ssh-agent (connect: x)",
        ),
        (
            AgentOutcome::ListFailed("x".to_owned()),
            "ssh-agent (request identities: x)",
        ),
        (
            AgentOutcome::SignFailed("x".to_owned()),
            "ssh-agent (sign: x)",
        ),
    ] {
        let (mut login, _) = Login::start(&r.target, "me", &opts());
        login.after_agent(outcome);
        assert_eq!(login.tried, vec![said]);
    }
    let (mut login, _) = Login::start(&r.target, "me", &opts());
    assert!(matches!(
        login.after_agent(AgentOutcome::Accepted),
        LoginStep::LoggedIn
    ));
    assert!(settle_identity(SignOutcome::Rejected).is_none());
    assert!(matches!(
        settle_identity(SignOutcome::Accepted),
        Some(AgentOutcome::Accepted)
    ));
    assert!(matches!(
        settle_identity(SignOutcome::Failed("x".to_owned())),
        Some(AgentOutcome::SignFailed(_))
    ));
}
