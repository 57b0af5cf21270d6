//! Which binary the remote gets.

use tomo::bootstrap::{
    binary_name, binary_rel_path, decide, effective_local_version, next_step, pushed_report,
    BootstrapDecision, BootstrapReport, BootstrapStep,
};

const T: &str = "x86_64-unknown-linux-musl";

#[test]
fn names() {
    assert_eq!(
        binary_name("0.0.1", T),
        "tomo-0.0.1-x86_64-unknown-linux-musl"
    );
    assert_eq!(
        binary_rel_path("0.0.1", T),
        ".tomo/bin/tomo-0.0.1-x86_64-unknown-linux-musl"
    );
}

#[test]
fn empty_dir_pushes() {
    let d = decide(&[], "0.0.1", T);
    assert_eq!(
        d,
        BootstrapDecision::Push {
            name: binary_name("0.0.1", T),
            stale: vec![],
        }
    );
}

#[test]
fn exact_match_reuses() {
    let entries = vec![binary_name("0.0.1", T)];
    let d = decide(&entries, "0.0.1", T);
    assert!(matches!(d, BootstrapDecision::Reuse { ref stale, .. } if stale.is_empty()));
}

#[test]
fn version_mismatch_pushes_and_marks_old_stale() {
    let entries = vec![binary_name("0.0.0", T)];
    let d = decide(&entries, "0.0.1", T);
    match d {
        BootstrapDecision::Push { name, stale } => {
            assert_eq!(name, binary_name("0.0.1", T));
            assert_eq!(stale, vec![binary_name("0.0.0", T)]);
        }
        BootstrapDecision::Reuse { .. } => panic!("expected Push, got Reuse"),
    }
}

#[test]
fn reuse_still_prunes_older_siblings() {
    let entries = vec![binary_name("0.0.1", T), binary_name("0.0.0", T)];
    let d = decide(&entries, "0.0.1", T);
    match d {
        BootstrapDecision::Reuse { name, stale } => {
            assert_eq!(name, binary_name("0.0.1", T));
            assert_eq!(stale, vec![binary_name("0.0.0", T)]);
        }
        BootstrapDecision::Push { .. } => panic!("expected Reuse, got Push"),
    }
}

#[test]
fn other_triple_binaries_are_left_untouched() {
    let other = "aarch64-apple-darwin";
    let entries = vec![binary_name("0.0.0", other), binary_name("0.0.1", other)];
    let d = decide(&entries, "0.0.1", T);
    // We want a musl binary; the darwin ones are neither reused nor pruned.
    assert_eq!(
        d,
        BootstrapDecision::Push {
            name: binary_name("0.0.1", T),
            stale: vec![],
        }
    );
}

#[test]
fn the_forced_version_counts() {
    assert_eq!(effective_local_version("0.1.0", None), "0.1.0");
    assert_eq!(
        effective_local_version("0.1.0", Some("9.9.9".to_owned())),
        "9.9.9"
    );
}

#[test]
fn a_binary_that_is_there_is_kept_unless_a_push_is_forced() {
    let entries = vec![binary_name("0.0.1", T), binary_name("0.0.0", T)];
    match next_step(&entries, "/srv/p", "0.0.1", T, false) {
        BootstrapStep::Keep { prune, report } => {
            assert_eq!(
                prune,
                vec![format!("/srv/p/.tomo/bin/{}", binary_name("0.0.0", T))]
            );
            assert_eq!(report.binary_rel(), binary_rel_path("0.0.1", T));
            assert_eq!(report.triple(), T);
            assert!(matches!(report, BootstrapReport::Reused { .. }));
        }
        other => panic!("wrong step: {other:?}"),
    }
    match next_step(&entries, "/srv/p", "0.0.1", T, true) {
        BootstrapStep::Push { name, prune } => {
            assert_eq!(name, binary_name("0.0.1", T));
            assert_eq!(prune.len(), 1);
        }
        other => panic!("wrong step: {other:?}"),
    }
}

#[test]
fn a_push_is_reported() {
    assert_eq!(
        pushed_report("0.0.1", T, 7, true),
        BootstrapReport::Pushed {
            triple: T.to_owned(),
            version: "0.0.1".to_owned(),
            binary_rel: binary_rel_path("0.0.1", T),
            bytes: 7,
            dev_substitution: true,
        }
    );
}

#[test]
fn files_that_are_no_binaries_stay() {
    let entries = vec!["notes.txt".to_owned(), "tomo-0.0.0".to_owned()];
    match decide(&entries, "0.0.1", T) {
        BootstrapDecision::Push { stale, .. } => assert!(stale.is_empty()),
        BootstrapDecision::Reuse { .. } => panic!("nothing to reuse"),
    }
}

#[test]
fn a_name_without_room_for_a_version_stays() {
    let entries = vec![format!("tomo-{T}"), format!("tomo--{T}")];
    match decide(&entries, "0.0.1", T) {
        BootstrapDecision::Push { stale, .. } => assert_eq!(stale, vec![format!("tomo--{T}")]),
        BootstrapDecision::Reuse { .. } => panic!("nothing to reuse"),
    }
}
