//! Classification of paths by a configuration.

use tomo::config::{
    default_ignore_rules, is_tomo_internal, Classification, Config, ConfigError, Direction,
    History, HistoryMode, ModeText, PathClass, RawConfig, Remote, Rule, Sync,
    DEFAULT_IGNORE_PATTERNS,
};

/// The sections of a document.
fn sections(doc: &str) -> RawConfig {
    let value: toml::Value = toml::from_str(doc).unwrap();
    let mut raw = RawConfig::default();
    if let Some(mode) = value.get("history").and_then(|h| h.get("mode")) {
        let written = match mode.as_str() {
            Some(name) => ModeText::Named(name.to_owned()),
            None => ModeText::Interval {
                interval_ms: mode["interval_ms"].as_integer().unwrap() as u64,
            },
        };
        raw.history = History {
            mode: HistoryMode::read(written).unwrap(),
        };
    }
    if let Some(b) = value.get("sync").and_then(|s| s.get("default_ignores")) {
        raw.sync = Sync {
            default_ignores: b.as_bool().unwrap(),
        };
    }
    if let Some(r) = value.get("remote") {
        raw.remote = Some(Remote {
            host: r["host"].as_str().unwrap().to_owned(),
            path: r["path"].as_str().unwrap().to_owned(),
            identity: r.get("identity").map(|i| i.as_str().unwrap().to_owned()),
        });
    }
    if let Some(rules) = value.get("rules") {
        for rule in rules.as_array().unwrap() {
            raw.rules.push(Rule {
                pattern: rule["pattern"].as_str().unwrap().to_owned(),
                class: match rule["class"].as_str().unwrap() {
                    "ignored" => PathClass::Ignored,
                    "synced+unversioned" => PathClass::SyncedUnversioned,
                    _ => PathClass::SyncedVersioned,
                },
                direction: match rule.get("direction").and_then(|d| d.as_str()) {
                    Some("push") => Direction::Push,
                    Some("pull") => Direction::Pull,
                    _ => Direction::Both,
                },
            });
        }
    }
    raw
}

fn read(doc: &str) -> Result<Config, ConfigError> {
    Config::from_raw(sections(doc), None)
}

// ---- is_tomo_internal edge cases -------------------------------------

#[test]
fn tomo_internal_matches_dir_and_descendants() {
    assert!(is_tomo_internal(".tomo"));
    assert!(is_tomo_internal(".tomo/x"));
    assert!(is_tomo_internal(".tomo/db/history.sqlite"));
    assert!(is_tomo_internal(".tomo/"));
}

#[test]
fn tomo_internal_rejects_lookalikes_and_nested() {
    assert!(!is_tomo_internal(".tomodachi"));
    assert!(!is_tomo_internal("a/.tomo")); // only the first component counts
    assert!(!is_tomo_internal("a/.tomo/x"));
    assert!(!is_tomo_internal("src/main.rs"));
    assert!(!is_tomo_internal(""));
    assert!(!is_tomo_internal(".tomoo/x"));
}

// ---- parsing ---------------------------------------------------------

#[test]
fn empty_document_equals_default() {
    let cfg = read("").unwrap();
    let def = Config::default();
    assert_eq!(cfg.history, def.history);
    assert_eq!(cfg.remote, def.remote);
    assert_eq!(cfg.rules, def.rules);
    assert_eq!(cfg.history.mode, HistoryMode::Adaptive);
    assert!(cfg.remote.is_none());
    assert!(cfg.rules.is_empty());
}

#[test]
fn full_example_parses() {
    let cfg = read(
        r#"
        [history]
        mode = { interval_ms = 5000 }

        [remote]
        host = "user@build-server"
        path = "/srv/projects/tomo"

        [[rules]]
        pattern = "target/"
        class = "ignored"

        [[rules]]
        pattern = "**/*.log"
        class = "ignored"

        [[rules]]
        pattern = "dist/**"
        class = "synced+unversioned"
        direction = "pull"

        [[rules]]
        pattern = "scripts/**"
        class = "synced+versioned"
        direction = "push"
        "#,
    )
    .unwrap();

    assert_eq!(
        cfg.history.mode,
        HistoryMode::Interval { interval_ms: 5000 }
    );
    let remote = cfg.remote.as_ref().unwrap();
    assert_eq!(remote.host, "user@build-server");
    assert_eq!(remote.path, "/srv/projects/tomo");
    assert_eq!(cfg.rules.len(), 4);
    assert_eq!(cfg.rules[0].direction, Direction::Both); // defaulted
    assert_eq!(cfg.rules[2].direction, Direction::Pull);
}

#[test]
fn history_mode_named_variants() {
    for (text, expected) in [
        ("adaptive", HistoryMode::Adaptive),
        ("every-change", HistoryMode::EveryChange),
        ("off", HistoryMode::Off),
    ] {
        let doc = format!("[history]\nmode = \"{text}\"\n");
        let cfg = read(&doc).unwrap();
        assert_eq!(cfg.history.mode, expected);
    }
}

#[test]
fn history_mode_interval_variant() {
    let cfg = read("[history]\nmode = { interval_ms = 250 }\n").unwrap();
    assert_eq!(cfg.history.mode, HistoryMode::Interval { interval_ms: 250 });
}

#[test]
fn absent_history_section_defaults_to_adaptive() {
    let cfg = read("[remote]\nhost = \"h\"\npath = \"/p\"\n").unwrap();
    assert_eq!(cfg.history.mode, HistoryMode::Adaptive);
}

#[test]
fn bad_glob_is_glob_error() {
    // An unterminated character class is an invalid glob.
    let err = read("[[rules]]\npattern = \"a[bc\"\nclass = \"ignored\"\n")
        .unwrap_err();
    match err {
        ConfigError::Glob { pattern, .. } => assert_eq!(pattern, "a[bc"),
        other => panic!("expected Glob error, got {other:?}"),
    }
}

// ---- classification / precedence -------------------------------------

#[test]
fn unmatched_path_gets_default_class() {
    let cfg = Config::default();
    let c = cfg.classify("src/main.rs");
    assert_eq!(c.class, PathClass::SyncedVersioned);
    assert_eq!(c.direction, Direction::Both);
}

#[test]
fn last_matching_rule_wins() {
    let cfg = read(
        r#"
        [[rules]]
        pattern = "logs/**"
        class = "synced+versioned"

        [[rules]]
        pattern = "logs/**"
        class = "ignored"
        "#,
    )
    .unwrap();
    assert_eq!(cfg.classify("logs/today.log").class, PathClass::Ignored);
}

#[test]
fn later_narrower_rule_overrides_earlier_broad_rule() {
    let cfg = read(
        r#"
        [[rules]]
        pattern = "build/**"
        class = "ignored"

        [[rules]]
        pattern = "build/keep/**"
        class = "synced+versioned"
        direction = "push"
        "#,
    )
    .unwrap();
    assert_eq!(cfg.classify("build/tmp/x.o").class, PathClass::Ignored);
    let keep = cfg.classify("build/keep/artifact.bin");
    assert_eq!(keep.class, PathClass::SyncedVersioned);
    assert_eq!(keep.direction, Direction::Push);
}

#[test]
fn trailing_slash_pattern_is_auto_expanded() {
    let cfg = read("[[rules]]\npattern = \"target/\"\nclass = \"ignored\"\n")
        .unwrap();
    assert_eq!(cfg.classify("target/debug/app").class, PathClass::Ignored);
    assert_eq!(cfg.classify("target/a/b/c").class, PathClass::Ignored);
}

#[test]
fn star_does_not_cross_slash_but_doublestar_does() {
    let cfg = read(
        r#"
        [[rules]]
        pattern = "*.log"
        class = "ignored"
        "#,
    )
    .unwrap();
    // top-level match
    assert_eq!(cfg.classify("server.log").class, PathClass::Ignored);
    // nested does NOT match a root-anchored single-star pattern
    assert_eq!(
        cfg.classify("sub/server.log").class,
        PathClass::SyncedVersioned
    );
}

#[test]
fn direction_defaults_to_both() {
    let cfg =
        read("[[rules]]\npattern = \"a/**\"\nclass = \"ignored\"\n").unwrap();
    assert_eq!(cfg.rules[0].direction, Direction::Both);
}

// ---- built-in default editor-temp ignores ---------------------------

#[test]
fn default_ignores_classify_editor_temps_as_ignored() {
    let cfg = Config::default();
    // One representative path per built-in pattern, at the root and nested.
    for p in [
        "main.rs.swp",
        "src/main.rs.swp",
        "a.swx",
        "deep/dir/a.swx",
        ".main.rs.swp", // .*.sw? (dot-prefixed vim swap)
        "src/.main.rs.swo",
        "notes.txt~",
        "src/notes.txt~",
        ".#lockfile",
        "src/.#lockfile",
        "#autosave#",
        "src/#autosave#",
        "4913",
        "src/4913",
    ] {
        assert_eq!(
            cfg.classify(p).class,
            PathClass::Ignored,
            "expected {p} to be ignored by the built-in default rules"
        );
    }
    // A perfectly ordinary source file is untouched by the defaults.
    assert_eq!(
        cfg.classify("src/main.rs").class,
        PathClass::SyncedVersioned
    );
    // `.rules` stays the USER rule list (empty here) — defaults are internal.
    assert!(cfg.rules.is_empty());
}

#[test]
fn user_rule_overrides_a_default_ignore() {
    // A user rule re-including *.swp must win over the built-in default
    // (last match wins; defaults sit earliest).
    let cfg = read(
        r#"
        [[rules]]
        pattern = "**/*.swp"
        class = "synced+versioned"
        "#,
    )
    .unwrap();
    assert_eq!(cfg.classify("a.swp").class, PathClass::SyncedVersioned);
    assert_eq!(cfg.classify("src/a.swp").class, PathClass::SyncedVersioned);
    // A different editor-temp pattern the user did NOT override stays ignored.
    assert_eq!(cfg.classify("a.swx").class, PathClass::Ignored);
}

#[test]
fn default_ignores_classify_git_metadata_as_ignored() {
    let cfg = Config::default();
    // Root repo (.git as a directory) and everything under it.
    for p in [
        ".git",
        ".git/HEAD",
        ".git/config",
        ".git/objects/ab/cdef",
        ".git/refs/heads/main",
    ] {
        assert_eq!(
            cfg.classify(p).class,
            PathClass::Ignored,
            "expected {p} to be ignored by the built-in .git default rule"
        );
    }
    // A nested repo / submodule anywhere in the tree.
    for p in [
        "vendor/lib/.git",           // .git FILE in a submodule/worktree
        "vendor/lib/.git/HEAD",      // its contents
        "a/b/c/.git/objects/pack/x", // deeply nested repo
    ] {
        assert_eq!(
            cfg.classify(p).class,
            PathClass::Ignored,
            "expected nested {p} to be ignored by the built-in .git default rule"
        );
    }
    // Lookalikes are NOT git metadata and stay synced.
    assert_eq!(cfg.classify(".gitignore").class, PathClass::SyncedVersioned);
    assert_eq!(
        cfg.classify(".gitattributes").class,
        PathClass::SyncedVersioned
    );
    assert_eq!(
        cfg.classify("src/.gitkeep").class,
        PathClass::SyncedVersioned
    );
}

#[test]
fn default_ignores_classify_os_turds_and_db_sidecars() {
    let cfg = Config::default();
    // OS metadata files, at the root and nested.
    for p in [
        ".DS_Store",
        "src/.DS_Store",
        "Thumbs.db",
        "assets/Thumbs.db",
    ] {
        assert_eq!(
            cfg.classify(p).class,
            PathClass::Ignored,
            "expected OS turd {p} to be ignored by default"
        );
    }
    // SQLite / *.db sidecars, at the root and nested. Anchored to the two
    // main-file stems, so all six spellings are covered.
    for p in [
        "app.sqlite-wal",
        "app.sqlite-shm",
        "app.sqlite-journal",
        "data/app.sqlite-wal",
        "cache.db-wal",
        "cache.db-shm",
        "cache.db-journal",
        "var/cache.db-journal",
    ] {
        assert_eq!(
            cfg.classify(p).class,
            PathClass::Ignored,
            "expected DB sidecar {p} to be ignored by default"
        );
    }
    // The main database files themselves are NOT ignored — only the transient
    // sidecars are (the user still chooses whether to sync a live DB).
    assert_eq!(cfg.classify("app.sqlite").class, PathClass::SyncedVersioned);
    assert_eq!(cfg.classify("cache.db").class, PathClass::SyncedVersioned);
    // A bare `*-journal` that is NOT a sqlite/db journal is ordinary content:
    // the anchored patterns must not swallow it (that breadth is exactly what
    // we avoided).
    assert_eq!(
        cfg.classify("changes-journal").class,
        PathClass::SyncedVersioned
    );
    assert_eq!(
        cfg.classify("logs/travel-journal").class,
        PathClass::SyncedVersioned
    );
}

#[test]
fn default_ignores_classify_dependency_and_cache_trees() {
    let cfg = Config::default();
    // For every new dependency/environment/cache tree: the bare directory
    // AND its contents, at the project root AND nested — exercising both
    // patterns of each two-pattern pair.
    for p in [
        // JS dependencies
        "node_modules",
        "node_modules/react/index.js",
        "app/node_modules",
        "app/node_modules/react/index.js",
        // Python virtualenvs (dot + bare spellings)
        ".venv",
        ".venv/bin/python",
        "svc/.venv",
        "svc/.venv/bin/python",
        "venv",
        "venv/bin/activate",
        "svc/venv/lib/site.py",
        // Python tool caches
        "__pycache__",
        "__pycache__/mod.cpython-312.pyc",
        "pkg/__pycache__/mod.pyc",
        ".pytest_cache",
        ".pytest_cache/v/cache/lastfailed",
        "tests/.pytest_cache/README.md",
        ".mypy_cache",
        ".mypy_cache/3.12/mod.data.json",
        "pkg/.mypy_cache/x",
        ".ruff_cache",
        ".ruff_cache/0.4.0/abc",
        "pkg/.ruff_cache/x",
        // Terraform working dir
        ".terraform",
        ".terraform/providers/registry/x",
        "infra/.terraform/plugins/y",
        // IDE / editor project dirs
        ".idea",
        ".idea/workspace.xml",
        "svc/.idea/modules.xml",
        ".vscode",
        ".vscode/settings.json",
        "app/.vscode/launch.json",
        ".vs",
        ".vs/slnx.sqlite",
        "win/.vs/ProjectSettings.json",
        ".fleet",
        ".fleet/settings.json",
        ".zed",
        ".zed/settings.json",
        "crate/.zed/tasks.json",
        // Sublime's per-user workspace file (root + nested)
        "proj.sublime-workspace",
        "sub/dir/x.sublime-workspace",
    ] {
        assert_eq!(
            cfg.classify(p).class,
            PathClass::Ignored,
            "expected {p} to be ignored by the built-in dependency/cache default rules"
        );
    }
    // Near-misses: a component that merely *contains* or *prefixes* a default
    // token is ordinary content — the anchored patterns match a whole path
    // component only, never a substring.
    for p in [
        "node_modules_backup",         // dir name is a superstring of node_modules
        "node_modules_backup/file.js", // …and its contents
        "my.venv/x",                   // component `my.venv`, not `.venv`
        "venvs/x",                     // `venvs` != `venv`
        "src/venv.py",                 // a FILE named venv.py, not a venv dir
        ".terraformrc",                // the CLI config file, not the `.terraform` dir
        "notes/__pycache__notes.txt",  // not the `__pycache__` component
        "ideas/pitch.md",              // `ideas` != `.idea`
        "src/model.vs",                // a FILE named model.vs, not the `.vs` dir
        ".ideas/x",                    // `.ideas` != `.idea`
        "proj.sublime-project",        // the SHAREABLE Sublime half stays synced
    ] {
        assert_eq!(
            cfg.classify(p).class,
            PathClass::SyncedVersioned,
            "expected near-miss {p} to stay synced (not swallowed by a default)"
        );
    }
}

#[test]
fn user_rule_can_reinclude_node_modules_tree() {
    // Re-including a default-ignored TREE takes two rules (git-style, last
    // match wins): one to un-ignore the directory so a scan descends into
    // it, one for its contents.
    let cfg = read(
        r#"
        [[rules]]
        pattern = "node_modules"
        class = "synced+versioned"

        [[rules]]
        pattern = "node_modules/**"
        class = "synced+versioned"
        "#,
    )
    .unwrap();
    assert_eq!(
        cfg.classify("node_modules").class,
        PathClass::SyncedVersioned
    );
    assert_eq!(
        cfg.classify("node_modules/react/index.js").class,
        PathClass::SyncedVersioned
    );
    // A sibling default the user did NOT override stays ignored.
    assert_eq!(
        cfg.classify("app/.venv/bin/python").class,
        PathClass::Ignored
    );
    assert_eq!(cfg.classify("__pycache__/x.pyc").class, PathClass::Ignored);
}

#[test]
fn user_rule_can_reinclude_vscode_tree() {
    // A team that checks .vscode into the repo and wants it synced opts back
    // in with the same two-rule pair as any default-ignored tree.
    let cfg = read(
        r#"
        [[rules]]
        pattern = ".vscode"
        class = "synced+versioned"

        [[rules]]
        pattern = ".vscode/**"
        class = "synced+versioned"
        "#,
    )
    .unwrap();
    assert_eq!(cfg.classify(".vscode").class, PathClass::SyncedVersioned);
    assert_eq!(
        cfg.classify(".vscode/launch.json").class,
        PathClass::SyncedVersioned
    );
    // A sibling IDE default the user did NOT override stays ignored.
    assert_eq!(
        cfg.classify(".idea/workspace.xml").class,
        PathClass::Ignored
    );
}

#[test]
fn user_rule_overrides_a_db_sidecar_default() {
    // A user who genuinely wants a sidecar synced can re-include it.
    let cfg = read(
        r#"
        [[rules]]
        pattern = "**/*.db-wal"
        class = "synced+versioned"
        "#,
    )
    .unwrap();
    assert_eq!(cfg.classify("x.db-wal").class, PathClass::SyncedVersioned);
    // A sibling default the user did NOT override stays ignored.
    assert_eq!(cfg.classify("x.db-shm").class, PathClass::Ignored);
    assert_eq!(cfg.classify(".DS_Store").class, PathClass::Ignored);
}

#[test]
fn user_rule_can_reinclude_git_tree() {
    // A user who explicitly wants their .git tree synced can override the
    // built-in default (last match wins).
    let cfg = read(
        r#"
        [[rules]]
        pattern = ".git/**"
        class = "synced+versioned"
        "#,
    )
    .unwrap();
    // Contents are re-included by the override…
    assert_eq!(cfg.classify(".git/HEAD").class, PathClass::SyncedVersioned);
    assert_eq!(
        cfg.classify(".git/refs/heads/main").class,
        PathClass::SyncedVersioned
    );
    // …while an unrelated nested repo the user did NOT override stays ignored.
    assert_eq!(cfg.classify("vendor/.git/HEAD").class, PathClass::Ignored);
}

#[test]
fn default_ignores_false_restores_old_behavior() {
    let cfg = read("[sync]\ndefault_ignores = false\n").unwrap();
    assert!(!cfg.sync.default_ignores);
    // With the defaults disabled, an editor temp is an ordinary synced file.
    assert_eq!(cfg.classify("a.swp").class, PathClass::SyncedVersioned);
    assert_eq!(cfg.classify("4913").class, PathClass::SyncedVersioned);
    assert_eq!(cfg.classify("notes.txt~").class, PathClass::SyncedVersioned);
    // …and so is a .git tree.
    assert_eq!(cfg.classify(".git/HEAD").class, PathClass::SyncedVersioned);
    // …and so are the dependency/environment/cache trees — everything the
    // built-ins added is restored to ordinary synced content.
    assert_eq!(
        cfg.classify("node_modules/react/index.js").class,
        PathClass::SyncedVersioned
    );
    assert_eq!(
        cfg.classify(".venv/bin/python").class,
        PathClass::SyncedVersioned
    );
    assert_eq!(
        cfg.classify("__pycache__/m.pyc").class,
        PathClass::SyncedVersioned
    );
    assert_eq!(
        cfg.classify(".terraform/providers/x").class,
        PathClass::SyncedVersioned
    );
    // …and so are the IDE/editor project dirs and Sublime's workspace file.
    assert_eq!(
        cfg.classify(".idea/workspace.xml").class,
        PathClass::SyncedVersioned
    );
    assert_eq!(
        cfg.classify(".vscode/settings.json").class,
        PathClass::SyncedVersioned
    );
    assert_eq!(
        cfg.classify("proj.sublime-workspace").class,
        PathClass::SyncedVersioned
    );
}

#[test]
fn sync_defaults_to_enabled_when_section_absent() {
    let cfg = read("").unwrap();
    assert!(cfg.sync.default_ignores);
    assert_eq!(cfg.classify("x.swp").class, PathClass::Ignored);
}

// ---- .tomo supremacy -------------------------------------------------

#[test]
fn tomo_dir_is_ignored_even_without_rules() {
    let cfg = Config::default();
    assert_eq!(cfg.classify(".tomo").class, PathClass::Ignored);
    assert_eq!(cfg.classify(".tomo/db/x").class, PathClass::Ignored);
}

#[test]
fn user_rule_cannot_make_tomo_synced() {
    // A hostile rule trying to sync + version .tomo/** must have no effect.
    let cfg = read(
        r#"
        [[rules]]
        pattern = ".tomo/**"
        class = "synced+versioned"
        direction = "both"

        [[rules]]
        pattern = ".tomo"
        class = "synced+unversioned"
        "#,
    )
    .unwrap();
    assert_eq!(cfg.classify(".tomo").class, PathClass::Ignored);
    assert_eq!(
        cfg.classify(".tomo/db/history.sqlite").class,
        PathClass::Ignored
    );
    assert_eq!(cfg.classify(".tomo/config.toml").class, PathClass::Ignored);
}

// ---- more ------------------------------------------------------------------

#[test]
fn a_bad_glob_is_named_with_its_file() {
    let raw = RawConfig {
        rules: vec![Rule {
            pattern: "a[bc".to_owned(),
            class: PathClass::Ignored,
            direction: Direction::Both,
        }],
        ..RawConfig::default()
    };
    match Config::from_raw(raw, Some("/p/.tomo/config.toml".to_owned())).unwrap_err() {
        ConfigError::Glob {
            location, pattern, ..
        } => {
            assert_eq!(pattern, "a[bc");
            assert_eq!(location.as_deref(), Some("/p/.tomo/config.toml"));
        }
        other => panic!("wrong error: {other:?}"),
    }
}

#[test]
fn an_unknown_mode_is_refused() {
    assert!(HistoryMode::read(ModeText::Named("sometimes".to_owned())).is_err());
    assert_eq!(
        HistoryMode::read(ModeText::Interval { interval_ms: 9 }),
        Ok(HistoryMode::Interval { interval_ms: 9 })
    );
}

#[test]
fn a_rule_decides_the_direction_too() {
    let cfg = read("[[rules]]\npattern = \"d/**\"\nclass = \"synced+unversioned\"\ndirection = \"pull\"\n")
        .unwrap();
    assert_eq!(
        cfg.classify("d/x"),
        Classification {
            class: PathClass::SyncedUnversioned,
            direction: Direction::Pull,
        }
    );
}

#[test]
fn the_defaults_are_rules_that_ignore() {
    let rules = default_ignore_rules();
    assert_eq!(rules.len(), DEFAULT_IGNORE_PATTERNS.len());
    for (r, p) in rules.iter().zip(DEFAULT_IGNORE_PATTERNS) {
        assert_eq!(r.pattern, p);
        assert_eq!(r.class, PathClass::Ignored);
        assert_eq!(r.direction, Direction::Both);
    }
}

#[test]
fn errors_name_the_file() {
    let e = ConfigError::Read {
        path: "/p/config.toml".to_owned(),
        source: "denied".to_owned(),
    };
    assert!(e.message().contains("/p/config.toml"));
    let e = ConfigError::Parse {
        location: Some("/p/config.toml".to_owned()),
        source: "bad".to_owned(),
    };
    assert!(e.message().contains("/p/config.toml"));
}

#[test]
fn a_clone_classifies_alike() {
    let mut raw = RawConfig::default();
    raw.remote = Some(Remote {
        host: "me@box".to_owned(),
        path: "/srv".to_owned(),
        identity: Some("key".to_owned()),
    });
    raw.rules.push(Rule {
        pattern: "secret/".to_owned(),
        class: PathClass::Ignored,
        direction: Direction::Push,
    });
    let config = Config::from_raw(raw, None).unwrap();
    let copy = config.clone();
    assert_eq!(copy.rules, config.rules);
    assert_eq!(copy.remote, config.remote);
    for path in ["secret/a", "src/main.rs", "a.swp", ".tomo/db"] {
        assert_eq!(copy.classify(path), config.classify(path));
    }
    assert_eq!(copy.classify("secret/a").class, PathClass::Ignored);
    assert_eq!(copy.classify("src/main.rs").class, PathClass::SyncedVersioned);
}
