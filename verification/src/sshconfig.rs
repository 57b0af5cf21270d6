//! Resolving a target through an `ssh_config`: where and how to connect.
//!
//! The configuration rewrites an alias to a real host, names users, ports, key
//! files and files of known hosts, sets the policy on host keys, and may send the
//! connection through jump hosts. Of a directive that is given more than once the
//! first counts; key files accumulate.

use crate::filepath;
use crate::hostspec;
use crate::sshhost;
use crate::sshhost::{RawHostConfig, RawModel, StrictHostKey};
use crate::sshlines;
use crate::text;
use crate::words;
use vstd::prelude::*;

verus! {

/// The system's files of known hosts, where none are named.
pub const DEFAULT_GLOBAL_KNOWN_HOSTS: [&'static str; 2] = [
    "/etc/ssh/ssh_known_hosts",
    "/etc/ssh/ssh_known_hosts2",
];

/// How deep chains of jump hosts, and of files that name files, may go.
pub const MAX_DEPTH: usize = 8;

// ---- endpoints -------------------------------------------------------------
/// One hop of a route, with every directive that applies to it decided.
#[derive(Debug, Clone, PartialEq, Eq)]
pub struct ResolvedEndpoint {
    /// The name that the user or a jump gave.
    pub alias: String,
    /// The host to connect to.
    pub host_name: String,
    /// The port.
    pub port: u16,
    /// The login user, if one is named.
    pub user: Option<String>,
    /// The key files, in order.
    pub identity_files: Vec<String>,
    /// Whether the agent's keys are not offered.
    pub identities_only: bool,
    /// The policy on host keys.
    pub strict: StrictHostKey,
    /// The user's files of known hosts, which new keys are recorded in.
    pub known_hosts_files: Vec<String>,
    /// The system's files of known hosts, which are only read.
    pub global_known_hosts_files: Vec<String>,
}

/// A hop as a mathematical value.
#[verifier::ext_equal]
pub ghost struct EndpointModel {
    /// The name that the user or a jump gave.
    pub alias: Seq<char>,
    /// The host to connect to.
    pub host_name: Seq<char>,
    /// The port.
    pub port: u16,
    /// The login user, if one is named.
    pub user: Option<Seq<char>>,
    /// The key files, in order.
    pub identity_files: Seq<Seq<char>>,
    /// Whether the agent's keys are not offered.
    pub identities_only: bool,
    /// The policy on host keys.
    pub strict: StrictHostKey,
    /// The user's files of known hosts.
    pub known_hosts_files: Seq<Seq<char>>,
    /// The system's files of known hosts.
    pub global_known_hosts_files: Seq<Seq<char>>,
}

impl View for ResolvedEndpoint {
    type V = EndpointModel;

    open spec fn view(&self) -> EndpointModel {
        EndpointModel {
            alias: self.alias@,
            host_name: self.host_name@,
            port: self.port,
            user: hostspec::optional_text(self.user),
            identity_files: text::strings(self.identity_files@),
            identities_only: self.identities_only,
            strict: self.strict,
            known_hosts_files: text::strings(self.known_hosts_files@),
            global_known_hosts_files: text::strings(self.global_known_hosts_files@),
        }
    }
}

/// The hops by their views.
pub open spec fn endpoints(l: Seq<ResolvedEndpoint>) -> Seq<EndpointModel> {
    Seq::new(l.len(), |i: int| l[i]@)
}

/// The first file that is not `/dev/null`.
pub open spec fn record_file(files: Seq<Seq<char>>, i: int) -> Option<Seq<char>>
    decreases files.len() - i,
{
    if i < 0 || i >= files.len() {
        None
    } else if files[i] != "/dev/null"@ {
        Some(files[i])
    } else {
        record_file(files, i + 1)
    }
}

impl ResolvedEndpoint {
    /// Every file of known hosts that is consulted: the user's, then the
    /// system's.
    pub fn lookup_known_hosts(&self) -> (files: Vec<String>)
        ensures
            text::strings(files@) == self@.known_hosts_files + self@.global_known_hosts_files,
    {
        let mut files = words::copy_strings(&self.known_hosts_files);
        let ghost start = text::strings(files@);
        let ghost model = text::strings(self.global_known_hosts_files@);
        let mut i: usize = 0;
        assert(start + model.take(0) =~= start);
        while i < self.global_known_hosts_files.len()
            invariant
                i <= self.global_known_hosts_files@.len(),
                model == text::strings(self.global_known_hosts_files@),
                text::strings(files@) == start + model.take(i as int),
            decreases self.global_known_hosts_files@.len() - i,
        {
            let ghost before = text::strings(files@);
            files.push(self.global_known_hosts_files[i].as_str().to_owned());
            i = i + 1;
            proof {
                assert(text::strings(files@) =~= before.push(model[i - 1]));
                assert(model.take(i as int) =~= model.take(i - 1).push(model[i - 1]));
                assert(text::strings(files@) =~= start + model.take(i as int));
            }
        }
        assert(model.take(i as int) =~= model);
        files
    }

    /// The file that a new key is recorded in: the user's first one that is not
    /// `/dev/null`, if there is one.
    pub fn record_target(&self) -> (r: Option<String>)
        ensures
            hostspec::optional_text(r) == record_file(self@.known_hosts_files, 0),
    {
        let ghost model = self@.known_hosts_files;
        let mut i: usize = 0;
        while i < self.known_hosts_files.len()
            invariant
                i <= self.known_hosts_files@.len(),
                model == text::strings(self.known_hosts_files@),
                record_file(model, 0) == record_file(model, i as int),
            decreases self.known_hosts_files@.len() - i,
        {
            assert(model[i as int] == self.known_hosts_files@[i as int]@);
            if !text::same_text(self.known_hosts_files[i].as_str(), "/dev/null") {
                return Some(self.known_hosts_files[i].as_str().to_owned());
            }
            i = i + 1;
        }
        None
    }
}

// ---- routes ----------------------------------------------------------------
/// A route to a target: the jump hosts in the order in which they are connected
/// to, and the target.
#[derive(Debug, Clone, PartialEq, Eq)]
pub struct ResolvedRoute {
    /// The jump hosts.
    pub jumps: Vec<ResolvedEndpoint>,
    /// The target.
    pub target: ResolvedEndpoint,
    /// The keywords that meant nothing, each once.
    pub unknown_options: Vec<String>,
}

/// The jump hosts' names with commas between.
pub open spec fn aliases(jumps: Seq<EndpointModel>) -> Seq<Seq<char>> {
    Seq::new(jumps.len(), |i: int| jumps[i].alias)
}

/// A short description of a route: the target's alias, and where it leads, if
/// that is elsewhere or through jump hosts.
pub open spec fn description(jumps: Seq<EndpointModel>, target: EndpointModel) -> Seq<char> {
    if target.host_name == target.alias && jumps.len() == 0 {
        target.alias
    } else if jumps.len() == 0 {
        target.alias + " ("@ + target.host_name + ")"@
    } else {
        target.alias + " ("@ + target.host_name + " via "@ + text::join(aliases(jumps), ", "@)
            + ")"@
    }
}

impl ResolvedRoute {
    /// The whole chain: the jump hosts, then the target.
    pub fn chain(&self) -> (l: Vec<&ResolvedEndpoint>)
        ensures
            l@.len() == self.jumps@.len() + 1,
            forall|i: int| 0 <= i < self.jumps@.len() ==> *(#[trigger] l@[i]) == self.jumps@[i],
            *l@[self.jumps@.len() as int] == self.target,
    {
        let mut l: Vec<&ResolvedEndpoint> = Vec::new();
        let mut i: usize = 0;
        while i < self.jumps.len()
            invariant
                i <= self.jumps@.len(),
                l@.len() == i,
                forall|j: int| 0 <= j < i ==> *(#[trigger] l@[j]) == self.jumps@[j],
            decreases self.jumps@.len() - i,
        {
            l.push(&self.jumps[i]);
            i = i + 1;
        }
        l.push(&self.target);
        l
    }

    /// A short description of the route, for messages.
    pub fn describe(&self) -> (s: String)
        ensures
            s@ == description(endpoints(self.jumps@), self.target@),
    {
        let rewritten = !text::same_text(
            self.target.host_name.as_str(),
            self.target.alias.as_str(),
        );
        if !rewritten && self.jumps.len() == 0 {
            return self.target.alias.as_str().to_owned();
        }
        let mut v = text::chars_of(self.target.alias.as_str());
        text::push_text(&mut v, " (");
        text::push_text(&mut v, self.target.host_name.as_str());
        if self.jumps.len() > 0 {
            let mut names: Vec<String> = Vec::new();
            let mut i: usize = 0;
            while i < self.jumps.len()
                invariant
                    i <= self.jumps@.len(),
                    names@.len() == i,
                    forall|j: int| 0 <= j < i ==> (#[trigger] names@[j])@ == self.jumps@[j].alias@,
                decreases self.jumps@.len() - i,
            {
                names.push(self.jumps[i].alias.as_str().to_owned());
                i = i + 1;
            }
            assert(text::strings(names@) =~= aliases(endpoints(self.jumps@)));
            text::push_text(&mut v, " via ");
            let list = words::join_strings(&names, ", ");
            text::push_text(&mut v, list.as_str());
        }
        text::push_text(&mut v, ")");
        text::string_of(v.as_slice())
    }
}

/// Why a route cannot be built.
#[derive(Debug, Clone, PartialEq, Eq)]
pub enum RouteError {
    /// A chain of jump hosts comes back to a host.
    Cycle {
        /// The host.
        alias: String,
    },
    /// A chain of jump hosts is too deep.
    DepthExceeded {
        /// How deep it may be.
        max: usize,
    },
    /// A hop has no host, as in `user@` or at a stray comma.
    EmptyHost {
        /// The hop as it is written.
        spec: String,
    },
}

/// Why a route cannot be built, as a mathematical value.
pub ghost enum RouteFault {
    /// A chain of jump hosts comes back to a host.
    Cycle { alias: Seq<char> },
    /// A chain of jump hosts is too deep.
    DepthExceeded { max: usize },
    /// A hop has no host, as in `user@` or at a stray comma.
    EmptyHost { spec: Seq<char> },
}

impl View for RouteError {
    type V = RouteFault;

    open spec fn view(&self) -> RouteFault {
        match *self {
            RouteError::Cycle { alias } => RouteFault::Cycle { alias: alias@ },
            RouteError::DepthExceeded { max } => RouteFault::DepthExceeded { max },
            RouteError::EmptyHost { spec } => RouteFault::EmptyHost { spec: spec@ },
        }
    }
}

impl RouteFault {
    /// What the error says.
    pub open spec fn text(self) -> Seq<char> {
        match self {
            RouteFault::Cycle { alias } => "ProxyJump chain cycles back to "@ + text::debug_text(
                alias,
            ),
            RouteFault::DepthExceeded { max } => "ProxyJump chain exceeds the depth cap of "@
                + text::decimal(max as nat),
            RouteFault::EmptyHost { spec } => "ProxyJump hop "@ + text::debug_text(spec)
                + " has no host"@,
        }
    }
}

impl RouteError {
    /// The message of this error.
    pub fn message(&self) -> (m: String)
        ensures
            m@ == self@.text(),
    {
        let mut v: Vec<char> = Vec::new();
        match self {
            RouteError::Cycle { alias } => {
                text::push_text(&mut v, "ProxyJump chain cycles back to ");
                let q = text::quoted(alias.as_str());
                text::push_text(&mut v, q.as_str());
            },
            RouteError::DepthExceeded { max } => {
                text::push_text(&mut v, "ProxyJump chain exceeds the depth cap of ");
                let n = text::decimal_of(*max as u64);
                text::push_all(&mut v, n.as_slice());
            },
            RouteError::EmptyHost { spec } => {
                text::push_text(&mut v, "ProxyJump hop ");
                let q = text::quoted(spec.as_str());
                text::push_text(&mut v, q.as_str());
                text::push_text(&mut v, " has no host");
            },
        }
        assert(v@ =~= self@.text());
        text::string_of(v.as_slice())
    }
}

// ---- hops ------------------------------------------------------------------
/// A hop as it is written: `[user@]host[:port]`.
#[derive(Debug, PartialEq, Eq)]
pub struct HopSpec {
    /// The user, if one is written.
    pub user: Option<String>,
    /// The host.
    pub host: String,
    /// The port, if one is written.
    pub port: Option<u16>,
}

/// A hop as it is written, as a mathematical value.
#[verifier::ext_equal]
pub ghost struct HopModel {
    /// The user, if one is written.
    pub user: Option<Seq<char>>,
    /// The host.
    pub host: Seq<char>,
    /// The port, if one is written.
    pub port: Option<u16>,
}

impl View for HopSpec {
    type V = HopModel;

    open spec fn view(&self) -> HopModel {
        HopModel { user: hostspec::optional_text(self.user), host: self.host@, port: self.port }
    }
}

/// The host and the port of `host[:port]`. A host in brackets may hold colons; a
/// port that is no number counts as no port after brackets, and as part of the
/// host elsewhere.
pub open spec fn hop_host(rest: Seq<char>) -> (Seq<char>, Option<u16>) {
    if rest.len() > 0 && rest[0] == '[' {
        let close = text::find(rest, ']', 1);
        if close >= rest.len() {
            (rest, None)
        } else {
            let after = rest.skip(close + 1);
            (
                rest.subrange(1, close),
                if after.len() > 0 && after[0] == ':' {
                    words::number16(after.skip(1))
                } else {
                    None
                },
            )
        }
    } else {
        let at = hostspec::rfind(rest, ':', rest.len() as int);
        if at < 0 || rest.take(at).contains(':') || words::number16(rest.skip(at + 1)) is None {
            (rest, None)
        } else {
            (rest.take(at), words::number16(rest.skip(at + 1)))
        }
    }
}

/// What a hop stands for; `None` where it has no host. An empty user counts as
/// part of the host.
pub open spec fn hop_of(spec_text: Seq<char>) -> Option<HopModel> {
    let s = text::trim(spec_text);
    let at = text::find(s, '@', 0);
    let named = 0 < at && at < s.len();
    let (host, port) = hop_host(
        if named {
            s.skip(at + 1)
        } else {
            s
        },
    );
    if host.len() == 0 {
        None
    } else {
        Some(
            HopModel {
                user: if named {
                    Some(s.take(at))
                } else {
                    None
                },
                host,
                port,
            },
        )
    }
}

fn read_hop_host(rest: &[char]) -> (r: (Vec<char>, Option<u16>))
    ensures
        (r.0@, r.1) == hop_host(rest@),
{
    let whole = text::slice_of(rest, 0, rest.len());
    assert(whole@ =~= rest@);
    if rest.len() > 0 && rest[0] == '[' {
        let close: usize = text::find_char(rest, ']', 1);
        if close >= rest.len() {
            return (whole, None);
        }
        let addr = text::slice_of(rest, 1, close);
        let after = text::slice_of(rest, close + 1, rest.len());
        assert(after@ =~= rest@.skip(close + 1));
        if after.len() > 0 && after[0] == ':' {
            let digits = text::slice_of(after.as_slice(), 1, after.len());
            assert(digits@ =~= after@.skip(1));
            return (addr, words::parse_u16(digits.as_slice()));
        }
        return (addr, None);
    }
    match hostspec::rfind_char(rest, ':') {
        None => (whole, None),
        Some(at) => {
            let front = text::slice_of(rest, 0, at);
            assert(front@ =~= rest@.take(at as int));
            let digits = text::slice_of(rest, at + 1, rest.len());
            assert(digits@ =~= rest@.skip(at + 1));
            let port = words::parse_u16(digits.as_slice());
            if text::contains_char(front.as_slice(), ':') || port.is_none() {
                (whole, None)
            } else {
                (front, port)
            }
        },
    }
}

impl HopSpec {
    /// Read a hop. The error is that it has no host.
    pub fn parse(spec_text: &str) -> (r: Result<HopSpec, RouteError>)
        ensures
            match r {
                Ok(h) => hop_of(spec_text@) == Some(h@),
                Err(e) => hop_of(spec_text@) is None && e@ == (RouteFault::EmptyHost {
                    spec: text::trim(spec_text@),
                }),
            },
    {
        let chars = text::chars_of(spec_text);
        let s = text::trim_chars(chars.as_slice());
        let at: usize = text::find_char(s.as_slice(), '@', 0);
        let named = 0 < at && at < s.len();
        let from: usize = if named {
            at + 1
        } else {
            0
        };
        let rest = text::slice_of(s.as_slice(), from, s.len());
        proof {
            if named {
                assert(rest@ =~= s@.skip(at + 1));
            } else {
                assert(rest@ =~= s@);
            }
        }
        let (host, port) = read_hop_host(rest.as_slice());
        if host.len() == 0 {
            return Err(RouteError::EmptyHost { spec: text::string_of(s.as_slice()) });
        }
        let user: Option<String> = if named {
            let name = text::slice_of(s.as_slice(), 0, at);
            assert(name@ =~= s@.take(at as int));
            Some(text::string_of(name.as_slice()))
        } else {
            None
        };
        Ok(HopSpec { user, host: text::string_of(host.as_slice()), port })
    }
}

/// The path arguments, without quotes and expanded.
pub open spec fn all_expanded(l: Seq<Seq<char>>, home: Seq<char>) -> Seq<Seq<char>> {
    Seq::new(l.len(), |i: int| filepath::expanded(sshlines::unquoted(l[i]), home))
}

/// The user's files of known hosts, where none are named.
pub open spec fn default_known_hosts(home: Seq<char>) -> Seq<Seq<char>> {
    let dir = filepath::joined(home, ".ssh"@);
    seq![filepath::joined(dir, "known_hosts"@), filepath::joined(dir, "known_hosts2"@)]
}

/// The system's files of known hosts, where none are named.
pub open spec fn default_global_known_hosts() -> Seq<Seq<char>> {
    seq!["/etc/ssh/ssh_known_hosts"@, "/etc/ssh/ssh_known_hosts2"@]
}

/// The key files, expanded, each once.
pub open spec fn key_files(l: Seq<Seq<char>>, home: Seq<char>) -> Seq<Seq<char>> {
    filepath::with_paths(seq![], all_expanded(l, home))
}

/// A value, or a fallback.
pub open spec fn or_else<T>(v: Option<T>, fallback: T) -> T {
    match v {
        Some(x) => x,
        None => fallback,
    }
}

/// The hop that the directives of a host make of what is written: a user or a
/// port that is written counts before one that is configured.
pub open spec fn endpoint_of(
    raw: RawModel,
    hop: HopModel,
    home: Seq<char>,
    default_port: u16,
) -> EndpointModel {
    EndpointModel {
        alias: hop.host,
        host_name: or_else(raw.host_name, hop.host),
        port: or_else(hop.port, or_else(raw.port, default_port)),
        user: sshhost::first(hop.user, raw.user),
        identity_files: key_files(raw.identity_files, home),
        identities_only: or_else(raw.identities_only, false),
        strict: or_else(raw.strict, StrictHostKey::Yes),
        known_hosts_files: match raw.known_hosts {
            Some(l) => all_expanded(l, home),
            None => default_known_hosts(home),
        },
        global_known_hosts_files: match raw.global_known_hosts {
            Some(l) => all_expanded(l, home),
            None => default_global_known_hosts(),
        },
    }
}

fn expand_one(arg: &str, home: &str) -> (p: String)
    ensures
        p@ == filepath::expanded(sshlines::unquoted(arg@), home@),
{
    let chars = text::chars_of(arg);
    let u = sshlines::unquote(chars.as_slice());
    filepath::expand_path(u.as_slice(), home)
}

fn expand_all(l: &Vec<String>, home: &str) -> (r: Vec<String>)
    ensures
        text::strings(r@) == all_expanded(text::strings(l@), home@),
{
    let mut r: Vec<String> = Vec::new();
    let mut i: usize = 0;
    while i < l.len()
        invariant
            i <= l@.len(),
            r@.len() == i,
            forall|j: int|
                0 <= j < i ==> (#[trigger] r@[j])@ == filepath::expanded(
                    sshlines::unquoted(l@[j]@),
                    home@,
                ),
        decreases l@.len() - i,
    {
        r.push(expand_one(l[i].as_str(), home));
        i = i + 1;
    }
    assert(text::strings(r@) =~= all_expanded(text::strings(l@), home@));
    r
}

/// The key files, expanded, each once.
pub fn collect_key_files(l: &Vec<String>, home: &str) -> (r: Vec<String>)
    ensures
        text::strings(r@) == key_files(text::strings(l@), home@),
{
    let ghost model = all_expanded(text::strings(l@), home@);
    let mut r: Vec<String> = Vec::new();
    let mut i: usize = 0;
    assert(model.take(0) =~= Seq::<Seq<char>>::empty());
    assert(text::strings(r@) =~= Seq::<Seq<char>>::empty());
    while i < l.len()
        invariant
            i <= l@.len(),
            model == all_expanded(text::strings(l@), home@),
            text::strings(r@) == filepath::with_paths(seq![], model.take(i as int)),
        decreases l@.len() - i,
    {
        let p = expand_one(l[i].as_str(), home);
        proof {
            assert(model.take(i + 1).drop_last() =~= model.take(i as int));
            assert(model.take(i + 1).last() == p@);
        }
        filepath::add_path(&mut r, p);
        i = i + 1;
    }
    assert(model.take(i as int) =~= model);
    r
}

impl RawHostConfig {
    /// The hop that these directives make of what is written.
    pub fn into_endpoint(self, hop: &HopSpec, home: &str, default_port: u16) -> (e:
        ResolvedEndpoint)
        ensures
            e@ == endpoint_of(self@, hop@, home@, default_port),
    {
        let identity_files = collect_key_files(&self.identity_files, home);
        let known_hosts_files: Vec<String> = match &self.known_hosts {
            Some(l) => expand_all(l, home),
            None => {
                let dir_name = text::chars_of(".ssh");
                let one = text::chars_of("known_hosts");
                let two = text::chars_of("known_hosts2");
                let dir = filepath::join_path(home, dir_name.as_slice());
                let mut l: Vec<String> = Vec::new();
                l.push(filepath::join_path(dir.as_str(), one.as_slice()));
                l.push(filepath::join_path(dir.as_str(), two.as_slice()));
                assert(text::strings(l@) =~= default_known_hosts(home@));
                l
            },
        };
        let global_known_hosts_files: Vec<String> = match &self.global_known_hosts {
            Some(l) => expand_all(l, home),
            None => {
                let names = DEFAULT_GLOBAL_KNOWN_HOSTS;
                let mut l: Vec<String> = Vec::new();
                l.push(names[0].to_owned());
                l.push(names[1].to_owned());
                assert(text::strings(l@) =~= default_global_known_hosts());
                l
            },
        };
        let user = match &hop.user {
            Some(u) => Some(u.as_str().to_owned()),
            None => self.user,
        };
        let port: u16 = match hop.port {
            Some(p) => p,
            None => match self.port {
                Some(p) => p,
                None => default_port,
            },
        };
        let host_name = match self.host_name {
            Some(n) => n,
            None => hop.host.as_str().to_owned(),
        };
        let identities_only = match self.identities_only {
            Some(b) => b,
            None => false,
        };
        let strict = match self.strict {
            Some(s) => s,
            None => StrictHostKey::Yes,
        };
        ResolvedEndpoint {
            alias: hop.host.as_str().to_owned(),
            host_name,
            port,
            user,
            identity_files,
            identities_only,
            strict,
            known_hosts_files,
            global_known_hosts_files,
        }
    }
}

} // verus!
