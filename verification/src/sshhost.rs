//! What an `ssh_config` says of one host.

use crate::hostspec;
use crate::sshlines;
use crate::sshlines::{Line, LineModel};
use crate::text;
use crate::words;
use vstd::prelude::*;

verus! {

/// The policy on host keys.
#[derive(Debug, Clone, Copy, PartialEq, Eq, Structural)]
pub enum StrictHostKey {
    /// Reject unknown and changed keys.
    Yes,
    /// Accept any key and never record it.
    No,
    /// Accept and record an unknown key, but reject a changed one.
    AcceptNew,
}

impl Default for StrictHostKey {
    fn default() -> (s: Self)
        ensures
            s == StrictHostKey::Yes,
    {
        StrictHostKey::Yes
    }
}

/// The policy that an argument names. `ask` is `yes`, as nobody can be asked.
pub open spec fn strict_of(arg: Seq<char>) -> Option<StrictHostKey> {
    let a = words::lowered(text::trim(arg));
    if a == "yes"@ || a == "ask"@ {
        Some(StrictHostKey::Yes)
    } else if a == "no"@ || a == "off"@ {
        Some(StrictHostKey::No)
    } else if a == "accept-new"@ {
        Some(StrictHostKey::AcceptNew)
    } else {
        None
    }
}

impl StrictHostKey {
    /// The policy that an argument names, if it names one.
    pub fn parse(arg: &[char]) -> (r: Option<StrictHostKey>)
        ensures
            r == strict_of(arg@),
    {
        let t = text::trim_chars(arg);
        let a = words::lower_chars(t.as_slice());
        if text::reads(a.as_slice(), "yes") || text::reads(a.as_slice(), "ask") {
            Some(StrictHostKey::Yes)
        } else if text::reads(a.as_slice(), "no") || text::reads(a.as_slice(), "off") {
            Some(StrictHostKey::No)
        } else if text::reads(a.as_slice(), "accept-new") {
            Some(StrictHostKey::AcceptNew)
        } else {
            None
        }
    }
}

// ---- directives of one host ------------------------------------------------
/// The directives that apply to one host, before paths are expanded.
#[derive(Debug)]
pub struct RawHostConfig {
    /// The real host name.
    pub host_name: Option<String>,
    /// The login user.
    pub user: Option<String>,
    /// The port.
    pub port: Option<u16>,
    /// The key files, in order.
    pub identity_files: Vec<String>,
    /// Whether only these key files are offered.
    pub identities_only: Option<bool>,
    /// The policy on host keys.
    pub strict: Option<StrictHostKey>,
    /// The user's files of known hosts.
    pub known_hosts: Option<Vec<String>>,
    /// The system's files of known hosts.
    pub global_known_hosts: Option<Vec<String>>,
    /// The hosts to jump through.
    pub proxy_jump: Option<String>,
    /// The keywords that mean nothing here, each once.
    pub unknown: Vec<String>,
}

/// The directives that apply to one host, as a mathematical value.
#[verifier::ext_equal]
pub ghost struct RawModel {
    /// The real host name.
    pub host_name: Option<Seq<char>>,
    /// The login user.
    pub user: Option<Seq<char>>,
    /// The port.
    pub port: Option<u16>,
    /// The key files, in order.
    pub identity_files: Seq<Seq<char>>,
    /// Whether only these key files are offered.
    pub identities_only: Option<bool>,
    /// The policy on host keys.
    pub strict: Option<StrictHostKey>,
    /// The user's files of known hosts.
    pub known_hosts: Option<Seq<Seq<char>>>,
    /// The system's files of known hosts.
    pub global_known_hosts: Option<Seq<Seq<char>>>,
    /// The hosts to jump through.
    pub proxy_jump: Option<Seq<char>>,
    /// The keywords that mean nothing here, each once.
    pub unknown: Seq<Seq<char>>,
}

/// Optional texts by their views.
pub open spec fn optional_strings(v: Option<Vec<String>>) -> Option<Seq<Seq<char>>> {
    match v {
        Some(l) => Some(text::strings(l@)),
        None => None,
    }
}

impl View for RawHostConfig {
    type V = RawModel;

    open spec fn view(&self) -> RawModel {
        RawModel {
            host_name: hostspec::optional_text(self.host_name),
            user: hostspec::optional_text(self.user),
            port: self.port,
            identity_files: text::strings(self.identity_files@),
            identities_only: self.identities_only,
            strict: self.strict,
            known_hosts: optional_strings(self.known_hosts),
            global_known_hosts: optional_strings(self.global_known_hosts),
            proxy_jump: hostspec::optional_text(self.proxy_jump),
            unknown: text::strings(self.unknown@),
        }
    }
}

/// No directive.
pub open spec fn no_directives() -> RawModel {
    RawModel {
        host_name: None,
        user: None,
        port: None,
        identity_files: seq![],
        identities_only: None,
        strict: None,
        known_hosts: None,
        global_known_hosts: None,
        proxy_jump: None,
        unknown: seq![],
    }
}

/// The first value stays.
pub open spec fn first<T>(old: Option<T>, new: Option<T>) -> Option<T> {
    if old is Some {
        old
    } else {
        new
    }
}

/// A port that an argument names and that is not 0.
pub open spec fn real_port(arg: Seq<char>) -> Option<u16> {
    match words::number16(text::trim(arg)) {
        Some(p) => if p != 0 {
            Some(p)
        } else {
            None
        },
        None => None,
    }
}

/// The argument, without white space and quotes around it.
pub open spec fn bare(arg: Seq<char>) -> Seq<char> {
    sshlines::unquoted(text::trim(arg))
}

/// The directives with one more: key files accumulate, and of anything else the
/// first value stays. A keyword that means nothing is listed once.
pub open spec fn applied(r: RawModel, name: Seq<char>, arg: Seq<char>) -> RawModel {
    if name == "hostname"@ {
        RawModel { host_name: first(r.host_name, Some(bare(arg))), ..r }
    } else if name == "user"@ {
        RawModel { user: first(r.user, Some(bare(arg))), ..r }
    } else if name == "port"@ {
        RawModel { port: first(r.port, real_port(arg)), ..r }
    } else if name == "identityfile"@ {
        RawModel { identity_files: r.identity_files + sshlines::args(arg), ..r }
    } else if name == "identitiesonly"@ {
        RawModel {
            identities_only: first(
                r.identities_only,
                Some(words::lowered(text::trim(arg)) == "yes"@),
            ),
            ..r
        }
    } else if name == "stricthostkeychecking"@ {
        RawModel { strict: first(r.strict, strict_of(arg)), ..r }
    } else if name == "userknownhostsfile"@ {
        RawModel { known_hosts: first(r.known_hosts, Some(sshlines::args(arg))), ..r }
    } else if name == "globalknownhostsfile"@ {
        RawModel { global_known_hosts: first(r.global_known_hosts, Some(sshlines::args(arg))), ..r }
    } else if name == "proxyjump"@ {
        RawModel { proxy_jump: first(r.proxy_jump, Some(text::trim(arg))), ..r }
    } else if r.unknown.contains(name) {
        r
    } else {
        RawModel { unknown: r.unknown.push(name), ..r }
    }
}

fn bare_text(arg: &str) -> (s: String)
    ensures
        s@ == bare(arg@),
{
    let chars = text::chars_of(arg);
    let t = text::trim_chars(chars.as_slice());
    let u = sshlines::unquote(t.as_slice());
    text::string_of(u.as_slice())
}

fn args_of(arg: &str) -> (l: Vec<String>)
    ensures
        text::strings(l@) == sshlines::args(arg@),
{
    let chars = text::chars_of(arg);
    sshlines::split_args(chars.as_slice())
}

/// Append the texts of `more` to `l`.
fn append_strings(l: &mut Vec<String>, more: &Vec<String>)
    ensures
        text::strings(final(l)@) == text::strings(old(l)@) + text::strings(more@),
{
    let ghost start = text::strings(l@);
    let ghost model = text::strings(more@);
    let mut i: usize = 0;
    assert(start + model.take(0) =~= start);
    while i < more.len()
        invariant
            i <= more@.len(),
            model == text::strings(more@),
            text::strings(l@) == start + model.take(i as int),
        decreases more@.len() - i,
    {
        let ghost before = text::strings(l@);
        l.push(more[i].as_str().to_owned());
        i = i + 1;
        proof {
            assert(text::strings(l@) =~= before.push(more@[i - 1]@));
            assert(model.take(i as int) =~= model.take(i - 1).push(model[i - 1]));
            assert(text::strings(l@) =~= start + model.take(i as int));
        }
    }
    assert(model.take(i as int) =~= model);
}

impl RawHostConfig {
    /// No directive.
    pub fn new() -> (r: Self)
        ensures
            r@ == no_directives(),
    {
        let r = RawHostConfig {
            host_name: None,
            user: None,
            port: None,
            identity_files: Vec::new(),
            identities_only: None,
            strict: None,
            known_hosts: None,
            global_known_hosts: None,
            proxy_jump: None,
            unknown: Vec::new(),
        };
        assert(r@ =~= no_directives());
        r
    }

    /// Fold one directive in.
    pub fn apply(&mut self, name: &str, arg: &str)
        ensures
            final(self)@ == applied(old(self)@, name@, arg@),
    {
        let chars = text::chars_of(arg);
        let word = text::trim_chars(chars.as_slice());
        if text::same_text(name, "hostname") {
            if self.host_name.is_none() {
                self.host_name = Some(bare_text(arg));
            }
        } else if text::same_text(name, "user") {
            if self.user.is_none() {
                self.user = Some(bare_text(arg));
            }
        } else if text::same_text(name, "port") {
            if self.port.is_none() {
                match words::parse_u16(word.as_slice()) {
                    Some(p) => {
                        if p != 0 {
                            self.port = Some(p);
                        }
                    },
                    None => {},
                }
            }
        } else if text::same_text(name, "identityfile") {
            let more = args_of(arg);
            append_strings(&mut self.identity_files, &more);
        } else if text::same_text(name, "identitiesonly") {
            if self.identities_only.is_none() {
                let w = words::lower_chars(word.as_slice());
                self.identities_only = Some(text::reads(w.as_slice(), "yes"));
            }
        } else if text::same_text(name, "stricthostkeychecking") {
            if self.strict.is_none() {
                self.strict = StrictHostKey::parse(chars.as_slice());
            }
        } else if text::same_text(name, "userknownhostsfile") {
            if self.known_hosts.is_none() {
                self.known_hosts = Some(args_of(arg));
            }
        } else if text::same_text(name, "globalknownhostsfile") {
            if self.global_known_hosts.is_none() {
                self.global_known_hosts = Some(args_of(arg));
            }
        } else if text::same_text(name, "proxyjump") {
            if self.proxy_jump.is_none() {
                self.proxy_jump = Some(text::string_of(word.as_slice()));
            }
        } else if !words::lists_text(&self.unknown, name) {
            let ghost before = text::strings(self.unknown@);
            self.unknown.push(name.to_owned());
            assert(text::strings(self.unknown@) =~= before.push(name@));
        }
        assert(self@ =~= applied(old(self)@, name@, arg@));
    }
}

/// What the lines say of a host: whether what follows applies to it, and the
/// directives so far. What comes before the first block applies to every host; a
/// host block applies to the hosts that its patterns mean; a match block never
/// applies.
pub open spec fn folded(lines: Seq<LineModel>, host: Seq<char>) -> (bool, RawModel)
    decreases lines.len(),
{
    if lines.len() == 0 {
        (true, no_directives())
    } else {
        let (active, raw) = folded(lines.drop_last(), host);
        match lines.last() {
            LineModel::Host(patterns) => (sshlines::host_meant(patterns, host), raw),
            LineModel::Match => (false, raw),
            LineModel::Keyword { name, args } => if active {
                (active, applied(raw, name, args))
            } else {
                (active, raw)
            },
        }
    }
}

/// The directives that apply to a host.
pub fn resolve_raw(lines: &Vec<Line>, host: &str) -> (raw: RawHostConfig)
    ensures
        raw@ == folded(sshlines::line_models(lines@), host@).1,
{
    let ghost model = sshlines::line_models(lines@);
    let name = text::chars_of(host);
    let mut active = true;
    let mut raw = RawHostConfig::new();
    let mut i: usize = 0;
    assert(model.take(0) =~= Seq::<LineModel>::empty());
    while i < lines.len()
        invariant
            i <= lines@.len(),
            name@ == host@,
            model == sshlines::line_models(lines@),
            (active, raw@) == folded(model.take(i as int), host@),
        decreases lines@.len() - i,
    {
        proof {
            assert(model.take(i + 1).drop_last() =~= model.take(i as int));
            assert(model.take(i + 1).last() == lines@[i as int]@);
        }
        match &lines[i] {
            Line::Host(patterns) => {
                let p = text::chars_of(patterns.as_str());
                active = sshlines::host_matches(p.as_slice(), name.as_slice());
            },
            Line::Match => {
                active = false;
            },
            Line::Keyword { name: keyword, args } => {
                if active {
                    raw.apply(keyword.as_str(), args.as_str());
                }
            },
        }
        i = i + 1;
    }
    assert(model.take(i as int) =~= model);
    raw
}

} // verus!
