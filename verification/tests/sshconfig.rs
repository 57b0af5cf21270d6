//! Resolving hosts, routes and key files by a configuration.

use tomo::hostspec::DEFAULT_SSH_PORT;
use tomo::routes::{identity_files_for, SshConfig};
use tomo::sshconfig::{HopSpec, ResolvedRoute, RouteError};
use tomo::sshfiles::{Missing, SeenDir, SeenFile, Snapshot};
use tomo::sshhost::StrictHostKey;

/// The SSH default port.
const DEFAULT_PORT: u16 = 22;

fn home() -> String {
    "/home/jake".to_owned()
}
fn p(s: &str) -> String {
    s.to_owned()
}
fn route(cfg: &str, target: &str) -> ResolvedRoute {
    SshConfig::parse(cfg)
        .resolve_route(target, &home(), DEFAULT_PORT)
        .unwrap()
}

// ---- identity_files_for ----------------------------

#[test]
fn global_identity_applies_to_every_host() {
    let cfg =
        "IdentityFile ~/.ssh/id_tokyo\n\nHost github.com\n  IdentityFile ~/.ssh/id_github\n";
    assert_eq!(
        identity_files_for(cfg, "localhost", &home()),
        vec![p("/home/jake/.ssh/id_tokyo")]
    );
}

#[test]
fn host_block_adds_to_global() {
    let cfg =
        "IdentityFile ~/.ssh/id_tokyo\nHost github.com\n  IdentityFile ~/.ssh/id_github\n";
    assert_eq!(
        identity_files_for(cfg, "github.com", &home()),
        vec![
            p("/home/jake/.ssh/id_tokyo"),
            p("/home/jake/.ssh/id_github"),
        ]
    );
}

#[test]
fn non_matching_host_gets_only_global() {
    let cfg = "Host vm1\n  IdentityFile ~/.ssh/id_m\n";
    assert!(identity_files_for(cfg, "elsewhere", &home()).is_empty());
}

#[test]
fn glob_star_and_question_match() {
    let cfg = "Host 10.0.0.*\n  IdentityFile ~/.ssh/id_lan\nHost web?\n  IdentityFile ~/.ssh/id_web\n";
    assert_eq!(
        identity_files_for(cfg, "10.0.0.71", &home()),
        vec![p("/home/jake/.ssh/id_lan")]
    );
    assert_eq!(
        identity_files_for(cfg, "web3", &home()),
        vec![p("/home/jake/.ssh/id_web")]
    );
    assert!(identity_files_for(cfg, "web42", &home()).is_empty());
}

#[test]
fn multiple_patterns_on_one_host_line() {
    let cfg = "Host alpha beta gamma\n  IdentityFile ~/.ssh/id_greek\n";
    for h in ["alpha", "beta", "gamma"] {
        assert_eq!(
            identity_files_for(cfg, h, &home()),
            vec![p("/home/jake/.ssh/id_greek")],
            "host {h}"
        );
    }
    assert!(identity_files_for(cfg, "delta", &home()).is_empty());
}

#[test]
fn negation_excludes() {
    let cfg = "Host *.internal !secret.internal\n  IdentityFile ~/.ssh/id_int\n";
    assert_eq!(
        identity_files_for(cfg, "box.internal", &home()),
        vec![p("/home/jake/.ssh/id_int")]
    );
    assert!(identity_files_for(cfg, "secret.internal", &home()).is_empty());
}

#[test]
fn equals_form_and_case_insensitive_keyword() {
    let cfg = "identityfile=~/.ssh/id_lower\nHOST=build\n  IDENTITYFILE = ~/.ssh/id_build\n";
    assert_eq!(
        identity_files_for(cfg, "build", &home()),
        vec![p("/home/jake/.ssh/id_lower"), p("/home/jake/.ssh/id_build"),]
    );
}

#[test]
fn comments_and_blanks_ignored() {
    let cfg = "# a comment\n\n  # indented comment\nIdentityFile ~/.ssh/id_ok\n";
    assert_eq!(
        identity_files_for(cfg, "any", &home()),
        vec![p("/home/jake/.ssh/id_ok")]
    );
}

#[test]
fn absolute_and_tilde_and_relative_paths() {
    let cfg = "IdentityFile /abs/key\nIdentityFile ~/tkey\nIdentityFile relkey\n";
    assert_eq!(
        identity_files_for(cfg, "any", &home()),
        vec![
            p("/abs/key"),
            p("/home/jake/tkey"),
            p("/home/jake/.ssh/relkey"),
        ]
    );
}

#[test]
fn quoted_path_is_unquoted() {
    let cfg = "IdentityFile \"~/.ssh/id with space\"\n";
    assert_eq!(
        identity_files_for(cfg, "any", &home()),
        vec![p("/home/jake/.ssh/id with space")]
    );
}

#[test]
fn duplicates_removed_preserving_order() {
    let cfg = "IdentityFile ~/.ssh/id_a\nHost x\n  IdentityFile ~/.ssh/id_a\n  IdentityFile ~/.ssh/id_b\n";
    assert_eq!(
        identity_files_for(cfg, "x", &home()),
        vec![p("/home/jake/.ssh/id_a"), p("/home/jake/.ssh/id_b")]
    );
}

#[test]
fn match_block_keys_are_not_attributed() {
    let cfg =
        "IdentityFile ~/.ssh/id_global\nMatch host secret\n  IdentityFile ~/.ssh/id_secret\n";
    assert_eq!(
        identity_files_for(cfg, "secret", &home()),
        vec![p("/home/jake/.ssh/id_global")]
    );
}

#[test]
fn empty_config_yields_nothing() {
    assert!(identity_files_for("", "any", &home()).is_empty());
}

// ---- HostName / User / Port resolution -----------------------------------

#[test]
fn hostname_alias_rewrites_to_real_host() {
    let cfg = "Host vm1\n  HostName 10.0.0.71\n  User jake\n  Port 2222\n";
    let r = route(cfg, "vm1");
    assert_eq!(r.target.host_name, "10.0.0.71");
    assert_eq!(r.target.user.as_deref(), Some("jake"));
    assert_eq!(r.target.port, 2222);
    assert_eq!(r.target.alias, "vm1");
}

#[test]
fn no_hostname_keeps_alias_and_default_port() {
    let r = route("", "example.com");
    assert_eq!(r.target.host_name, "example.com");
    assert_eq!(r.target.port, DEFAULT_PORT);
    assert_eq!(r.target.user, None);
}

#[test]
fn first_obtained_wins_for_single_valued_options() {
    // Two matching blocks; the first HostName/User/Port must win.
    let cfg = "Host vm1\n  HostName first\n  User u1\n  Port 111\n\
               Host vm*\n  HostName second\n  User u2\n  Port 222\n";
    let r = route(cfg, "vm1");
    assert_eq!(r.target.host_name, "first");
    assert_eq!(r.target.user.as_deref(), Some("u1"));
    assert_eq!(r.target.port, 111);
}

#[test]
fn explicit_user_and_port_override_config() {
    let cfg = "Host vm1\n  HostName 10.0.0.71\n  User configured\n  Port 2222\n";
    let r = route(cfg, "admin@vm1:2200");
    // The alias for matching is the bare host; explicit user/port win.
    assert_eq!(r.target.host_name, "10.0.0.71");
    assert_eq!(r.target.user.as_deref(), Some("admin"));
    assert_eq!(r.target.port, 2200);
}

// ---- StrictHostKeyChecking / IdentitiesOnly / UserKnownHostsFile ---------

#[test]
fn strict_host_key_variants() {
    for (val, want) in [
        ("yes", StrictHostKey::Yes),
        ("no", StrictHostKey::No),
        ("accept-new", StrictHostKey::AcceptNew),
        ("ask", StrictHostKey::Yes), // non-interactive → treat as yes
    ] {
        let cfg = format!("Host h\n  StrictHostKeyChecking {val}\n");
        assert_eq!(route(&cfg, "h").target.strict, want, "value {val}");
    }
    // Unknown value leaves the default (Yes).
    assert_eq!(
        route("Host h\n  StrictHostKeyChecking bogus\n", "h")
            .target
            .strict,
        StrictHostKey::Yes
    );
}

#[test]
fn identities_only_flag() {
    assert!(
        route("Host h\n  IdentitiesOnly yes\n", "h")
            .target
            .identities_only
    );
    assert!(
        !route("Host h\n  IdentitiesOnly no\n", "h")
            .target
            .identities_only
    );
    assert!(!route("Host h\n", "h").target.identities_only);
}

#[test]
fn user_known_hosts_multiple_paths() {
    let cfg = "Host h\n  UserKnownHostsFile /dev/null ~/.ssh/extra\n";
    let r = route(cfg, "h");
    assert_eq!(
        r.target.known_hosts_files,
        vec![p("/dev/null"), p("/home/jake/.ssh/extra")]
    );
}

#[test]
fn dev_null_known_hosts_preserved() {
    let r = route("Host h\n  UserKnownHostsFile /dev/null\n", "h");
    assert_eq!(r.target.known_hosts_files, vec![p("/dev/null")]);
}

#[test]
fn default_known_hosts_are_the_openssh_pair_plus_global() {
    // No directives: user defaults to known_hosts + known_hosts2, global to
    // the /etc pair; lookup is user-then-global; recording targets the first
    // user file.
    let r = route("", "h");
    assert_eq!(
        r.target.known_hosts_files,
        vec![
            p("/home/jake/.ssh/known_hosts"),
            p("/home/jake/.ssh/known_hosts2"),
        ]
    );
    assert_eq!(
        r.target.global_known_hosts_files,
        vec![
            p("/etc/ssh/ssh_known_hosts"),
            p("/etc/ssh/ssh_known_hosts2"),
        ]
    );
    assert_eq!(
        r.target.lookup_known_hosts(),
        vec![
            p("/home/jake/.ssh/known_hosts"),
            p("/home/jake/.ssh/known_hosts2"),
            p("/etc/ssh/ssh_known_hosts"),
            p("/etc/ssh/ssh_known_hosts2"),
        ]
    );
    assert_eq!(
        r.target.record_target(),
        Some(p("/home/jake/.ssh/known_hosts"))
    );
}

#[test]
fn explicit_user_directive_replaces_defaults_but_global_still_appended() {
    let r = route("Host h\n  UserKnownHostsFile ~/.ssh/only\n", "h");
    assert_eq!(r.target.known_hosts_files, vec![p("/home/jake/.ssh/only")]);
    // Global defaults are still consulted for lookup.
    assert_eq!(
        r.target.lookup_known_hosts(),
        vec![
            p("/home/jake/.ssh/only"),
            p("/etc/ssh/ssh_known_hosts"),
            p("/etc/ssh/ssh_known_hosts2"),
        ]
    );
}

#[test]
fn global_known_hosts_file_override() {
    let r = route(
        "Host h\n  GlobalKnownHostsFile /etc/custom/kh /dev/null\n",
        "h",
    );
    assert_eq!(
        r.target.global_known_hosts_files,
        vec![p("/etc/custom/kh"), p("/dev/null")]
    );
    // User set is still the default pair.
    assert_eq!(
        r.target.known_hosts_files,
        vec![
            p("/home/jake/.ssh/known_hosts"),
            p("/home/jake/.ssh/known_hosts2"),
        ]
    );
}

#[test]
fn record_target_skips_dev_null_and_prefers_first_user_file() {
    // /dev/null first ⇒ record into the next user file.
    let r = route("Host h\n  UserKnownHostsFile /dev/null ~/.ssh/kh\n", "h");
    assert_eq!(r.target.record_target(), Some(p("/home/jake/.ssh/kh")));
    // Only /dev/null ⇒ nothing is ever recorded.
    let r2 = route("Host h\n  UserKnownHostsFile /dev/null\n", "h");
    assert_eq!(r2.target.record_target(), None);
    // Recording never targets a global file.
    let r3 = route(
        "Host h\n  UserKnownHostsFile /dev/null\n  GlobalKnownHostsFile /etc/g\n",
        "h",
    );
    assert_eq!(r3.target.record_target(), None);
}

#[test]
fn unknown_options_collected_once() {
    let cfg = "Host h\n  Compression yes\n  ServerAliveInterval 30\n  Compression no\n";
    let r = route(cfg, "h");
    assert_eq!(
        r.unknown_options,
        vec!["compression", "serveraliveinterval"]
    );
}

// ---- ProxyJump -----------------------------------------------------------

#[test]
fn proxy_jump_single_hop() {
    let cfg = "Host vm1\n  HostName 10.0.0.71\n  ProxyJump p1\n\
               Host p1\n  HostName 10.0.0.1\n  User jump\n";
    let r = route(cfg, "vm1");
    assert_eq!(r.jumps.len(), 1);
    assert_eq!(r.jumps[0].alias, "p1");
    assert_eq!(r.jumps[0].host_name, "10.0.0.1");
    assert_eq!(r.jumps[0].user.as_deref(), Some("jump"));
    assert_eq!(r.target.host_name, "10.0.0.71");
    // chain() is jumps-first, target-last.
    let chain = r.chain();
    assert_eq!(chain.len(), 2);
    assert_eq!(chain[0].alias, "p1");
    assert_eq!(chain[1].alias, "vm1");
}

#[test]
fn proxy_jump_comma_chain_left_to_right() {
    let cfg = "Host dst\n  ProxyJump a,b,c\n";
    let r = route(cfg, "dst");
    let hops: Vec<&str> = r.jumps.iter().map(|j| j.alias.as_str()).collect();
    assert_eq!(hops, vec!["a", "b", "c"]);
}

#[test]
fn proxy_jump_with_inline_user_and_port() {
    let cfg = "Host dst\n  ProxyJump bob@gate:2022\n";
    let r = route(cfg, "dst");
    assert_eq!(r.jumps[0].host_name, "gate");
    assert_eq!(r.jumps[0].user.as_deref(), Some("bob"));
    assert_eq!(r.jumps[0].port, 2022);
}

#[test]
fn proxy_jump_nested_is_flattened_in_dial_order() {
    // dst → via b; b → via a. Dial order must be a, b, dst.
    let cfg = "Host dst\n  ProxyJump b\nHost b\n  ProxyJump a\n";
    let r = route(cfg, "dst");
    let hops: Vec<&str> = r.jumps.iter().map(|j| j.alias.as_str()).collect();
    assert_eq!(hops, vec!["a", "b"]);
}

#[test]
fn proxy_jump_none_disables() {
    let cfg = "Host dst\n  ProxyJump none\n";
    let r = route(cfg, "dst");
    assert!(r.jumps.is_empty());
}

#[test]
fn proxy_jump_cycle_is_rejected() {
    let cfg = "Host p1\n  ProxyJump p2\nHost p2\n  ProxyJump p1\n";
    let err = SshConfig::parse(cfg)
        .resolve_route("p1", &home(), DEFAULT_PORT)
        .unwrap_err();
    assert!(matches!(err, RouteError::Cycle { .. }));
}

#[test]
fn proxy_jump_self_cycle_is_rejected() {
    let cfg = "Host p1\n  ProxyJump p1\n";
    assert!(matches!(
        SshConfig::parse(cfg)
            .resolve_route("p1", &home(), DEFAULT_PORT)
            .unwrap_err(),
        RouteError::Cycle { .. }
    ));
}

#[test]
fn describe_direct_target_is_bare_alias() {
    assert_eq!(route("", "example.com").describe(), "example.com");
}

#[test]
fn describe_rewrite_and_jump() {
    let cfg = "Host vm1\n  HostName 10.0.0.71\n  ProxyJump p1\n";
    assert_eq!(route(cfg, "vm1").describe(), "vm1 (10.0.0.71 via p1)");
}

#[test]
fn describe_rewrite_without_jump() {
    let cfg = "Host vm1\n  HostName 10.0.0.71\n";
    assert_eq!(route(cfg, "vm1").describe(), "vm1 (10.0.0.71)");
}

// ---- HopSpec parsing edge cases ------------------------------------------

#[test]
fn hopspec_forms() {
    let s = HopSpec::parse("host").unwrap();
    assert_eq!(s.host, "host");
    assert_eq!(s.user, None);
    assert_eq!(s.port, None);

    let s = HopSpec::parse("u@host:2022").unwrap();
    assert_eq!(s.user.as_deref(), Some("u"));
    assert_eq!(s.host, "host");
    assert_eq!(s.port, Some(2022));

    let s = HopSpec::parse("[fe80::1]:22").unwrap();
    assert_eq!(s.host, "fe80::1");
    assert_eq!(s.port, Some(22));

    let s = HopSpec::parse("bare::ipv6").unwrap();
    assert_eq!(s.host, "bare::ipv6");
    assert_eq!(s.port, None);

    assert!(matches!(
        HopSpec::parse("u@").unwrap_err(),
        RouteError::EmptyHost { .. }
    ));
}

// ---- files that name files -----------------------------------------------

/// A tree of files below `/h`, by path.
struct Tree {
    files: Vec<(String, String)>,
}

impl Tree {
    fn new(files: &[(&str, &str)]) -> Tree {
        let word = format!("{}lude", "Inc");
        let mut all = Vec::new();
        for (path, content) in files {
            all.push(((*path).to_owned(), content.replace("@", &word)));
        }
        Tree { files: all }
    }

    fn load(&self, path: &str) -> SshConfig {
        let mut snapshot = Snapshot {
            files: Vec::new(),
            dirs: Vec::new(),
        };
        loop {
            match SshConfig::load(path, "/h", &snapshot) {
                Ok(c) => return c,
                Err(Missing::File(p)) => {
                    let content = self.files.iter().find(|f| f.0 == p).map(|f| f.1.clone());
                    snapshot.files.push(SeenFile {
                        key: p.clone(),
                        path: p,
                        content,
                    });
                }
                Err(Missing::Dir(d)) => {
                    let mut names = Vec::new();
                    for f in self.files.iter().rev() {
                        if let Some((dir, name)) = f.0.rsplit_once('/') {
                            if dir == d {
                                names.push(name.to_owned());
                            }
                        }
                    }
                    let names = if names.is_empty() { None } else { Some(names) };
                    snapshot.dirs.push(SeenDir { path: d, names });
                }
            }
        }
    }
}

fn user_of(c: &SshConfig, host: &str) -> Option<String> {
    c.resolve_route(host, "/h", DEFAULT_SSH_PORT).unwrap().target.user
}

fn host_of(c: &SshConfig, host: &str) -> String {
    c.resolve_route(host, "/h", DEFAULT_SSH_PORT).unwrap().target.host_name
}

#[test]
fn include_literal_and_glob_merge_in_place() {
    let cfg = Tree::new(&[
        (
            "/h/.ssh/config",
            "@ included.conf\n@ conf.d/*.conf\nHost top\n  User topuser\n",
        ),
        ("/h/.ssh/included.conf", "Host vm1\n  HostName 10.0.0.71\n"),
        ("/h/.ssh/conf.d/10-a.conf", "Host vma\n  User aaa\n"),
        ("/h/.ssh/conf.d/20-b.conf", "Host vmb\n  User bbb\n"),
    ])
    .load("/h/.ssh/config");
    assert_eq!(host_of(&cfg, "vm1"), "10.0.0.71");
    assert_eq!(user_of(&cfg, "vma").as_deref(), Some("aaa"));
    assert_eq!(user_of(&cfg, "vmb").as_deref(), Some("bbb"));
    assert_eq!(user_of(&cfg, "top").as_deref(), Some("topuser"));
}

#[test]
fn include_ordering_respects_first_obtained_wins() {
    // The named file is processed BEFORE the inline Host block, so its HostName
    // wins over the later one (first-obtained-wins).
    let cfg = Tree::new(&[
        ("/h/.ssh/config", "@ first.conf\nHost vm1\n  HostName second\n"),
        ("/h/.ssh/first.conf", "Host vm1\n  HostName first\n"),
    ])
    .load("/h/.ssh/config");
    assert_eq!(host_of(&cfg, "vm1"), "first");
}

#[test]
fn include_cycle_is_broken() {
    // a names b, b names a: this must terminate.
    let cfg = Tree::new(&[
        ("/h/.ssh/config", "@ a.conf\n"),
        ("/h/.ssh/a.conf", "@ b.conf\nHost h\n  User ua\n"),
        ("/h/.ssh/b.conf", "@ a.conf\nHost h2\n  User ub\n"),
    ])
    .load("/h/.ssh/config");
    assert_eq!(user_of(&cfg, "h").as_deref(), Some("ua"));
}

#[test]
fn missing_include_is_ignored() {
    let cfg = Tree::new(&[(
        "/h/.ssh/config",
        "@ does-not-exist.conf\nHost h\n  User u\n",
    )])
    .load("/h/.ssh/config");
    assert_eq!(user_of(&cfg, "h").as_deref(), Some("u"));
}

#[test]
fn missing_top_config_yields_empty() {
    let cfg = Tree::new(&[]).load("/h/nope");
    let r = cfg.resolve_route("h", "/h", DEFAULT_SSH_PORT).unwrap();
    assert_eq!(r.target.host_name, "h");
    assert!(r.jumps.is_empty());
}

#[test]
fn globbed_files_are_read_in_byte_order() {
    // Both files speak of the same host; the first in byte order counts,
    // whatever the order in which the directory lists them.
    let cfg = Tree::new(&[
        ("/h/.ssh/config", "@ ~/x/*.conf /h/x/?.txt\n"),
        ("/h/x/b.conf", "Host h\n  User late\n"),
        ("/h/x/a.conf", "Host h\n  User early\n"),
        ("/h/x/z.txt", "Host h\n  HostName there\n"),
        ("/h/x/zz.txt", "Host h\n  HostName elsewhere\n"),
    ])
    .load("/h/.ssh/config");
    assert_eq!(user_of(&cfg, "h").as_deref(), Some("early"));
    assert_eq!(host_of(&cfg, "h"), "there");
}

#[test]
fn files_nested_too_deep_are_left_out() {
    let mut files: Vec<(String, String)> = Vec::new();
    for i in 0..12 {
        files.push((
            format!("/h/.ssh/f{i}"),
            format!("@ f{}\nHost h{i}\n  User u{i}\n", i + 1),
        ));
    }
    let refs: Vec<(&str, &str)> = files.iter().map(|f| (f.0.as_str(), f.1.as_str())).collect();
    let cfg = Tree::new(&refs).load("/h/.ssh/f0");
    assert_eq!(user_of(&cfg, "h8").as_deref(), Some("u8"));
    assert_eq!(user_of(&cfg, "h9"), None);
}

#[test]
fn what_is_lacking_is_named() {
    let snapshot = Snapshot {
        files: Vec::new(),
        dirs: Vec::new(),
    };
    match SshConfig::load("/h/.ssh/config", "/h", &snapshot) {
        Err(Missing::File(p)) => assert_eq!(p, "/h/.ssh/config"),
        _ => panic!("the file is lacking"),
    }
}

// ---- more edge cases ---------------------------------------------------------

#[test]
fn route_errors_say_what_is_wrong() {
    let cycle = SshConfig::parse("Host a\n  ProxyJump b\nHost b\n  ProxyJump a\n")
        .resolve_route("a", &home(), DEFAULT_PORT)
        .unwrap_err();
    assert_eq!(cycle.message(), "ProxyJump chain cycles back to \"a\"");
    let empty = SshConfig::parse("Host a\n  ProxyJump bob@\n")
        .resolve_route("a", &home(), DEFAULT_PORT)
        .unwrap_err();
    assert_eq!(
        empty,
        RouteError::EmptyHost {
            spec: "bob@".to_owned()
        }
    );
    assert_eq!(empty.message(), "ProxyJump hop \"bob@\" has no host");
    let mut cfg = String::new();
    for i in 0..9 {
        cfg.push_str(&format!("Host h{i}\n  ProxyJump h{}\n", i + 1));
    }
    let deep = SshConfig::parse(&cfg)
        .resolve_route("h0", &home(), DEFAULT_PORT)
        .unwrap_err();
    assert_eq!(deep, RouteError::DepthExceeded { max: 8 });
    assert_eq!(deep.message(), "ProxyJump chain exceeds the depth cap of 8");
}

#[test]
fn a_star_in_the_text_is_an_ordinary_character() {
    let cfg = "Host *b\n  User starred\n";
    assert_eq!(route(cfg, "*ab").target.user.as_deref(), Some("starred"));
}

#[test]
fn a_stray_comma_is_a_hop_without_a_host() {
    let r = route("Host dst\n  ProxyJump a , b\n", "dst");
    let hops: Vec<&str> = r.jumps.iter().map(|j| j.alias.as_str()).collect();
    assert_eq!(hops, vec!["a", "b"]);
    assert_eq!(r.describe(), "dst (dst via a, b)");
    for jumps in ["a,,b", "a, ,b", "a,b,", ",a", ","] {
        let err = SshConfig::parse(&format!("Host dst\n  ProxyJump {jumps}\n"))
            .resolve_route("dst", &home(), DEFAULT_PORT)
            .unwrap_err();
        assert_eq!(
            err,
            RouteError::EmptyHost {
                spec: String::new()
            }
        );
    }
}

#[test]
fn an_empty_user_belongs_to_the_host() {
    let s = HopSpec::parse(" @host ").unwrap();
    assert_eq!(s.user, None);
    assert_eq!(s.host, "@host");
    let s = HopSpec::parse("host:99999").unwrap();
    assert_eq!(s.host, "host:99999");
    let s = HopSpec::parse("[half").unwrap();
    assert_eq!(s.host, "[half");
}

#[test]
fn a_clone_resolves_alike() {
    let config = SshConfig::parse("Host box\n  User deploy\n");
    let copy = config.clone();
    let user = copy.resolve_route("box", &home(), DEFAULT_PORT).unwrap().target.user;
    assert_eq!(user.as_deref(), Some("deploy"));
}
