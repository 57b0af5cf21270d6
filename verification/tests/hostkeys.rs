//! Host keys: lookup, policy and algorithms.

use russh::keys::PublicKey;
use tomo::hostkeys::{
    aggregate_lookup, build_handler, decide_host_key, host_key_error, lookup_host_key, lookup_key,
    FileCheck, HostKeyDecision, KnownHostsLookup, RejectReason,
};
use tomo::keyalgos::{
    known_key_algos, known_key_algos_form, leading_key_algos, preferred_key_order,
};
use tomo::routes::SshConfig;
use tomo::sshconfig::ResolvedEndpoint;
use tomo::sshhost::StrictHostKey;
use tomo::transport::TransportError;

// Public keys as `ssh-keygen` writes them.
const ED: &str =
    "ssh-ed25519 AAAAC3NzaC1lZDI1NTE5AAAAIFIbuJpjslAel+fV5WBhVIXjkRGmo9U3eZxBDW6Ff2Dg";
// A different Ed25519 key.
const ED2: &str =
    "ssh-ed25519 AAAAC3NzaC1lZDI1NTE5AAAAIKMEgocw2CgPF9xKhgwL9rfVv91/qTbNSOUUE7L3Ri4K";
const EC: &str = "ecdsa-sha2-nistp256 AAAAE2VjZHNhLXNoYTItbmlzdHAyNTYAAAAIbmlzdHAyNTYAAABBBPe9y855GQ2U52Qm5YNs4cfa+PZuLqlKzbEUjBIXZSVCdfAZ+soW+5Vm2xSBv2alitoMyodYLNx/6XCNvAB0Pio=";
const RSA: &str = "ssh-rsa AAAAB3NzaC1yc2EAAAADAQABAAABAQCv6IlflkBEkXVD45GTTEGr0BgEPIb2wXUwdUrFJTJpCCT1NZwmFk6tqXlG1k2ktrqqzQr0G2sHrPpjgtM1v9YlcNqJRxJFzBVmRWiL52XbqoIwCrdMWhC4uY5XSsSiiTxMO8kzghbkuh/XFMMmZbRfRLHtXY9TH3js6KH9WJTN6fv4XY2wEOBE4E2Ljd5ikoYBRHBl6KRQnSCBgvQJ9EDMqYDkFC2S2RAuDvA+UIsFg90B7iCxFUIhEUCU4PvHfFCbuQhtCcM9C0hu1R4+CCO8lfU1LaQZqWbEYOgRqr4TIqi/FxTDPdQjpOzGNrAopE2pww09ALFHpUYJVRShJ9NF";

fn changed(line: usize) -> KnownHostsLookup {
    KnownHostsLookup::Changed { line }
}

#[test]
fn known_key_always_accepted() {
    for strict in [
        StrictHostKey::Yes,
        StrictHostKey::No,
        StrictHostKey::AcceptNew,
    ] {
        assert_eq!(
            decide_host_key(&KnownHostsLookup::Match, strict),
            HostKeyDecision::Accept
        );
    }
}

#[test]
fn unknown_key_policy() {
    assert_eq!(
        decide_host_key(&KnownHostsLookup::NotFound, StrictHostKey::Yes),
        HostKeyDecision::Reject(RejectReason::Unknown)
    );
    assert_eq!(
        decide_host_key(&KnownHostsLookup::NotFound, StrictHostKey::No),
        HostKeyDecision::Accept
    );
    assert_eq!(
        decide_host_key(&KnownHostsLookup::NotFound, StrictHostKey::AcceptNew),
        HostKeyDecision::AcceptAndRecord
    );
}

#[test]
fn changed_key_policy() {
    // Only `no` tolerates a changed key; yes/accept-new both reject it.
    assert_eq!(
        decide_host_key(&changed(7), StrictHostKey::No),
        HostKeyDecision::Accept
    );
    assert_eq!(
        decide_host_key(&changed(7), StrictHostKey::Yes),
        HostKeyDecision::Reject(RejectReason::Changed { line: 7 })
    );
    assert_eq!(
        decide_host_key(&changed(7), StrictHostKey::AcceptNew),
        HostKeyDecision::Reject(RejectReason::Changed { line: 7 })
    );
}

#[test]
fn read_error_policy() {
    let err = KnownHostsLookup::ReadError {
        reason: "boom".to_owned(),
    };
    assert_eq!(
        decide_host_key(&err, StrictHostKey::No),
        HostKeyDecision::Accept
    );
    assert!(matches!(
        decide_host_key(&err, StrictHostKey::Yes),
        HostKeyDecision::Reject(RejectReason::ReadError { .. })
    ));
}

#[test]
fn lookup_key_names_both_forms_for_non_default_port() {
    assert_eq!(lookup_key("p1", 22), "p1");
    assert_eq!(lookup_key("p1", 25601), "[p1]:25601 (and p1 without port)");
}

// ---- looking a key up ----------------------------------------------------

/// What a file that records these keys for the host says of a key.
fn check(recorded: &[&str], key: &str) -> FileCheck {
    let key = PublicKey::from_openssh(key).unwrap();
    for (i, r) in recorded.iter().enumerate() {
        let r = PublicKey::from_openssh(r).unwrap();
        if r.algorithm() == key.algorithm() {
            return if r == key {
                FileCheck::Match
            } else {
                FileCheck::Changed { line: i + 1 }
            };
        }
    }
    FileCheck::NotFound
}

#[test]
fn fallback_plain_entry_matches_non_default_port() {
    // A plain `testhost` entry authenticates a testhost:25601 connection via
    // the port-less fallback, with the compat flag set.
    let (outcome, without_port) = lookup_host_key(25601, &vec![check(&[], ED)], &vec![check(&[ED], ED)]);
    assert_eq!(outcome, KnownHostsLookup::Match);
    assert!(
        without_port,
        "should have matched via the port-less fallback"
    );
}

#[test]
fn fallback_plain_entry_wrong_key_is_mismatch() {
    // A plain entry whose recorded key differs participates fully as a
    // mismatch, not silently ignored.
    let (outcome, without_port) =
        lookup_host_key(25601, &vec![check(&[], ED2)], &vec![check(&[ED], ED2)]);
    assert!(matches!(outcome, KnownHostsLookup::Changed { .. }));
    assert!(!without_port);
}

#[test]
fn fallback_port_form_takes_precedence_over_plain() {
    // Both a matching [host]:port entry and a *conflicting* plain entry: the
    // port-form Match wins and no fallback is consulted.
    let (outcome, without_port) =
        lookup_host_key(25601, &vec![check(&[ED], ED)], &vec![check(&[ED2], ED)]);
    assert_eq!(outcome, KnownHostsLookup::Match);
    assert!(
        !without_port,
        "port-form match must not set the fallback flag"
    );
}

#[test]
fn fallback_not_applied_for_port_22() {
    // Port 22 is already the plain form; a genuinely-unknown key stays
    // NotFound with no second lookup.
    let (outcome, without_port) =
        lookup_host_key(22, &vec![check(&[], ED)], &vec![FileCheck::Match]);
    assert_eq!(outcome, KnownHostsLookup::NotFound);
    assert!(!without_port);
}

#[test]
fn fallback_unknown_when_neither_form_present() {
    let (outcome, without_port) =
        lookup_host_key(25601, &vec![check(&[], ED)], &vec![check(&[], ED)]);
    assert_eq!(outcome, KnownHostsLookup::NotFound);
    assert!(!without_port);
}

#[test]
fn the_strongest_signal_counts() {
    let unread = FileCheck::ReadError {
        reason: "boom".to_owned(),
    };
    let changed = FileCheck::Changed { line: 3 };
    assert_eq!(
        aggregate_lookup(&vec![unread.clone(), changed.clone(), FileCheck::Match]),
        KnownHostsLookup::Match
    );
    assert_eq!(
        aggregate_lookup(&vec![
            unread.clone(),
            changed,
            FileCheck::Changed { line: 9 }
        ]),
        KnownHostsLookup::Changed { line: 3 }
    );
    assert_eq!(
        aggregate_lookup(&vec![FileCheck::NotFound, unread]),
        KnownHostsLookup::ReadError {
            reason: "boom".to_owned()
        }
    );
    assert_eq!(aggregate_lookup(&vec![]), KnownHostsLookup::NotFound);
}

// ---- algorithms ----------------------------------------------------------

/// The algorithms of these keys, by name.
fn algos(keys: &[&str]) -> Vec<String> {
    keys.iter()
        .map(|k| PublicKey::from_openssh(k).unwrap().algorithm().as_str().to_owned())
        .collect()
}

fn names(l: &[&str]) -> Vec<String> {
    l.iter().map(|s| (*s).to_owned()).collect()
}

fn ec256() -> String {
    "ecdsa-sha2-nistp256".to_owned()
}

#[test]
fn algos_plain_ed25519() {
    assert_eq!(
        known_key_algos(22, &vec![algos(&[ED])], &vec![]),
        names(&["ssh-ed25519"])
    );
}

#[test]
fn algos_multiple_types_in_order() {
    assert_eq!(
        known_key_algos(22, &vec![algos(&[ED, EC])], &vec![]),
        names(&["ssh-ed25519", "ecdsa-sha2-nistp256"])
    );
}

#[test]
fn algos_ssh_rsa_expands_to_rsa_family() {
    assert_eq!(
        known_key_algos(22, &vec![algos(&[RSA])], &vec![]),
        names(&["rsa-sha2-512", "rsa-sha2-256", "ssh-rsa"])
    );
}

#[test]
fn algos_no_match_is_empty() {
    assert!(known_key_algos(22, &vec![algos(&[])], &vec![]).is_empty());
    // Also empty without any file.
    assert!(known_key_algos(22, &vec![], &vec![]).is_empty());
}

#[test]
fn algos_dedup_across_lines() {
    assert_eq!(
        known_key_algos(22, &vec![algos(&[ED, ED])], &vec![]),
        names(&["ssh-ed25519"])
    );
    assert_eq!(
        known_key_algos_form(&vec![algos(&[ED]), algos(&[RSA, ED]), algos(&[RSA])]),
        names(&["ssh-ed25519", "rsa-sha2-512", "rsa-sha2-256", "ssh-rsa"])
    );
}

#[test]
fn algos_plain_entry_found_for_non_default_port_via_fallback() {
    // A plain entry contributes its types to a non-22 lookup through the
    // port-less fallback (so negotiation is still biased correctly).
    let plain = vec![algos(&[EC])];
    assert_eq!(known_key_algos(25601, &vec![algos(&[])], &plain), vec![ec256()]);
    assert_eq!(known_key_algos(22, &plain, &plain), vec![ec256()]);
}

#[test]
fn nothing_recorded_leads_where_any_key_is_accepted() {
    let recorded = vec![algos(&[EC])];
    assert!(leading_key_algos(StrictHostKey::No, 22, &recorded, &recorded).is_empty());
    for strict in [StrictHostKey::Yes, StrictHostKey::AcceptNew] {
        assert_eq!(leading_key_algos(strict, 22, &recorded, &vec![]), vec![ec256()]);
        assert_eq!(leading_key_algos(strict, 2200, &vec![], &recorded), vec![ec256()]);
    }
}

#[test]
fn preferred_order_puts_known_first_then_defaults() {
    // ecdsa-only recorded: ecdsa-nistp256 leads; the rest of the default
    // set follows, and nothing is dropped.
    let ordered = preferred_key_order(&vec![ec256()]);
    assert_eq!(ordered.first(), Some(&ec256()));
    assert!(ordered.contains(&"ssh-ed25519".to_owned()));
    assert_eq!(ordered.len(), russh::Preferred::DEFAULT.key.len());
    // Empty: the untouched default order.
    let defaults: Vec<String> = russh::Preferred::DEFAULT
        .key
        .iter()
        .map(|a| a.as_str().to_owned())
        .collect();
    assert_eq!(preferred_key_order(&vec![]), defaults);
}

// ---- what a check comes to -------------------------------------------------

fn target(cfg: &str) -> ResolvedEndpoint {
    SshConfig::parse(cfg).resolve_route("box", "/h", 22).unwrap().target
}

#[test]
fn a_rejected_key_is_an_error() {
    let check = build_handler(&target("Port 2222\n"));
    assert_eq!(
        check.lookup_display,
        "/h/.ssh/known_hosts, /h/.ssh/known_hosts2, /etc/ssh/ssh_known_hosts, /etc/ssh/ssh_known_hosts2"
    );
    let j = check.check_server_key(&vec![FileCheck::NotFound], &vec![FileCheck::NotFound]);
    assert!(!j.accept);
    assert_eq!(
        host_key_error(&j.verdict),
        Some(TransportError::HostKeyUnknown {
            lookup: "[box]:2222 (and box without port)".to_owned(),
            host: "box".to_owned(),
            files: check.lookup_display.clone(),
        })
    );
    let j = check.check_server_key(&vec![FileCheck::Changed { line: 4 }], &vec![FileCheck::Match]);
    assert_eq!(
        host_key_error(&j.verdict),
        Some(TransportError::HostKeyMismatch {
            host: "box".to_owned(),
            line: 4
        })
    );
    let unread = FileCheck::ReadError {
        reason: "boom".to_owned(),
    };
    let j = check.check_server_key(&vec![unread], &vec![]);
    assert_eq!(
        host_key_error(&j.verdict),
        Some(TransportError::KnownHosts {
            host: "box".to_owned(),
            reason: "boom".to_owned()
        })
    );
}

#[test]
fn accepted_keys_are_noted_where_they_are_not_pinned() {
    let plain = build_handler(&target(""));
    let j = plain.check_server_key(&vec![FileCheck::Match], &vec![]);
    assert!(j.accept);
    assert_eq!(j.note, None);
    assert_eq!(host_key_error(&j.verdict), None);

    let port = build_handler(&target("Port 2222\n"));
    let j = port.check_server_key(&vec![], &vec![FileCheck::Match]);
    assert_eq!(
        j.note.as_deref(),
        Some("using known_hosts entry for box without a port (OpenSSH compat)")
    );

    let open = build_handler(&target("StrictHostKeyChecking no\n"));
    let j = open.check_server_key(&vec![FileCheck::Changed { line: 1 }], &vec![]);
    assert!(j.accept);
    assert_eq!(
        j.note.as_deref(),
        Some("accepting unverified host key for box (StrictHostKeyChecking no)")
    );
    assert_eq!(j.record, None);
}

#[test]
fn new_keys_are_recorded_where_there_is_a_file() {
    let check = build_handler(&target("StrictHostKeyChecking accept-new\n"));
    let j = check.check_server_key(&vec![FileCheck::NotFound], &vec![]);
    assert!(j.accept);
    assert_eq!(j.record.as_deref(), Some("/h/.ssh/known_hosts"));
    assert_eq!(j.note, None);
    assert_eq!(
        check.recorded("/h/.ssh/known_hosts", None),
        "recorded new host key for box in /h/.ssh/known_hosts (accept-new)"
    );
    assert_eq!(
        check.recorded("/h/.ssh/known_hosts", Some("full".to_owned())),
        "could not record host key for box: full"
    );
    let null = build_handler(&target(
        "StrictHostKeyChecking accept-new\nUserKnownHostsFile /dev/null\n",
    ));
    let j = null.check_server_key(&vec![], &vec![]);
    assert_eq!(j.record, None);
    assert_eq!(
        j.note.as_deref(),
        Some("accepting new host key for box (not recorded: known_hosts is /dev/null)")
    );
}
