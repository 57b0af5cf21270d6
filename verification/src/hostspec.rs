//! Parsing of `user@host[:port]` targets.

use crate::text;
use crate::transport::{TransportError, Trouble};
use crate::words;
use vstd::prelude::*;

verus! {

/// The default port.
pub const DEFAULT_SSH_PORT: u16 = 22;

/// A parsed target.
#[derive(Debug, Clone, PartialEq, Eq)]
pub struct HostSpec {
    /// The login user, if the target names one.
    pub user: Option<String>,
    /// The host name or address.
    pub host: String,
    /// The port.
    pub port: u16,
}

/// A target as a mathematical value.
#[verifier::ext_equal]
pub ghost struct TargetModel {
    /// The login user, if the target names one.
    pub user: Option<Seq<char>>,
    /// The host name or address.
    pub host: Seq<char>,
    /// The port.
    pub port: u16,
}

/// An optional text by its view.
pub open spec fn optional_text(s: Option<String>) -> Option<Seq<char>> {
    match s {
        Some(t) => Some(t@),
        None => None,
    }
}

impl View for HostSpec {
    type V = TargetModel;

    open spec fn view(&self) -> TargetModel {
        TargetModel { user: optional_text(self.user), host: self.host@, port: self.port }
    }
}

/// The port that a text stands for, or why it is none.
pub open spec fn port_of(s: Seq<char>) -> Result<u16, Seq<char>> {
    match words::number16(s) {
        Some(p) => if p == 0 {
            Err("port 0 is not valid"@)
        } else {
            Ok(p)
        },
        None => Err("port is not a valid number in 1..=65535"@),
    }
}

/// The last position of `c` in `s` before `n`, or -1.
pub open spec fn rfind(s: Seq<char>, c: char, n: int) -> int
    decreases n,
{
    if n <= 0 {
        -1
    } else if s[n - 1] == c {
        n - 1
    } else {
        rfind(s, c, n - 1)
    }
}

/// The host and the port of `host[:port]`, or what is wrong. A host in brackets
/// may hold colons; outside brackets more than one colon means that there is no
/// port.
pub open spec fn host_port_of(s: Seq<char>) -> Result<(Seq<char>, u16), Seq<char>> {
    if s.len() > 0 && s[0] == '[' {
        let close = text::find(s, ']', 1);
        if close >= s.len() {
            Err("unterminated '[' in IPv6 literal"@)
        } else {
            let addr = s.subrange(1, close);
            let after = s.skip(close + 1);
            if after.len() == 0 {
                Ok((addr, DEFAULT_SSH_PORT))
            } else if after[0] == ':' {
                match port_of(after.skip(1)) {
                    Ok(p) => Ok((addr, p)),
                    Err(e) => Err(e),
                }
            } else {
                Err("trailing characters after ']'"@)
            }
        }
    } else {
        let at = rfind(s, ':', s.len() as int);
        if at < 0 || s.take(at).contains(':') {
            Ok((s, DEFAULT_SSH_PORT))
        } else {
            match port_of(s.skip(at + 1)) {
                Ok(p) => Ok((s.take(at), p)),
                Err(e) => Err(e),
            }
        }
    }
}

/// The target with an optional user, or what is wrong.
pub open spec fn with_user(user: Option<Seq<char>>, rest: Seq<char>) -> Result<
    TargetModel,
    Seq<char>,
> {
    match host_port_of(rest) {
        Err(e) => Err(e),
        Ok((host, port)) => if host.len() == 0 {
            Err("empty host"@)
        } else {
            Ok(TargetModel { user, host, port })
        },
    }
}

/// What a target stands for, or what is wrong with it.
pub open spec fn target_of(target: Seq<char>) -> Result<TargetModel, Seq<char>> {
    let s = text::trim(target);
    if s.len() == 0 {
        Err("empty target"@)
    } else {
        let at = text::find(s, '@', 0);
        if at >= s.len() {
            with_user(None, s)
        } else if at == 0 {
            Err("empty user before '@'"@)
        } else if s.skip(at + 1).contains('@') {
            Err("more than one '@'"@)
        } else {
            with_user(Some(s.take(at)), s.skip(at + 1))
        }
    }
}

fn read_port(s: &[char]) -> (r: Result<u16, &'static str>)
    ensures
        match r {
            Ok(p) => port_of(s@) == Ok::<u16, Seq<char>>(p),
            Err(e) => port_of(s@) == Err::<u16, Seq<char>>(e@),
        },
{
    match words::parse_u16(s) {
        Some(p) => if p == 0 {
            Err("port 0 is not valid")
        } else {
            Ok(p)
        },
        None => Err("port is not a valid number in 1..=65535"),
    }
}

/// The last position of `c` in `s`, if it occurs.
pub fn rfind_char(s: &[char], c: char) -> (r: Option<usize>)
    ensures
        match r {
            Some(i) => i < s@.len() && s@[i as int] == c && rfind(s@, c, s@.len() as int) == i,
            None => rfind(s@, c, s@.len() as int) == -1,
        },
{
    let mut i: usize = s.len();
    while 0 < i
        invariant
            i <= s@.len(),
            rfind(s@, c, s@.len() as int) == rfind(s@, c, i as int),
        decreases i,
    {
        i = i - 1;
        if s[i] == c {
            return Some(i);
        }
    }
    None
}

/// Split `host[:port]`.
fn split_host_port(s: &[char]) -> (r: Result<(Vec<char>, u16), &'static str>)
    ensures
        match r {
            Ok((h, p)) => host_port_of(s@) == Ok::<(Seq<char>, u16), Seq<char>>((h@, p)),
            Err(e) => host_port_of(s@) == Err::<(Seq<char>, u16), Seq<char>>(e@),
        },
{
    if s.len() > 0 && s[0] == '[' {
        let close: usize = text::find_char(s, ']', 1);
        if close >= s.len() {
            return Err("unterminated '[' in IPv6 literal");
        }
        let addr = text::slice_of(s, 1, close);
        let after = text::slice_of(s, close + 1, s.len());
        assert(after@ =~= s@.skip(close + 1));
        if after.len() == 0 {
            return Ok((addr, DEFAULT_SSH_PORT));
        }
        if after[0] == ':' {
            let digits = text::slice_of(after.as_slice(), 1, after.len());
            assert(digits@ =~= after@.skip(1));
            return match read_port(digits.as_slice()) {
                Ok(p) => Ok((addr, p)),
                Err(e) => Err(e),
            };
        }
        return Err("trailing characters after ']'");
    }
    match rfind_char(s, ':') {
        Some(at) => {
            let front = text::slice_of(s, 0, at);
            assert(front@ =~= s@.take(at as int));
            if text::contains_char(front.as_slice(), ':') {
                let all = text::slice_of(s, 0, s.len());
                assert(all@ =~= s@);
                return Ok((all, DEFAULT_SSH_PORT));
            }
            let digits = text::slice_of(s, at + 1, s.len());
            assert(digits@ =~= s@.skip(at + 1));
            match read_port(digits.as_slice()) {
                Ok(p) => Ok((front, p)),
                Err(e) => Err(e),
            }
        },
        None => {
            let all = text::slice_of(s, 0, s.len());
            assert(all@ =~= s@);
            Ok((all, DEFAULT_SSH_PORT))
        },
    }
}

impl HostSpec {
    /// Parse `user@host[:port]`.
    ///
    /// At most one `@` may occur, and the user before it must not be empty. A
    /// trailing `:port` sets the port. An IPv6 address must stand in brackets to
    /// carry a port. The host must not be empty.
    pub fn parse(target: &str) -> (r: Result<HostSpec, TransportError>)
        ensures
            match r {
                Ok(h) => target_of(target@) == Ok::<TargetModel, Seq<char>>(h@),
                Err(e) => target_of(target@) is Err && e@ == (Trouble::HostSpec {
                    target: target@,
                    reason: target_of(target@)->Err_0,
                }),
            },
    {
        match Self::parse_parts(target) {
            Ok(h) => Ok(h),
            Err(reason) => Err(
                TransportError::HostSpec { target: target.to_owned(), reason: reason.to_owned() },
            ),
        }
    }

    fn parse_parts(target: &str) -> (r: Result<HostSpec, &'static str>)
        ensures
            match r {
                Ok(h) => target_of(target@) == Ok::<TargetModel, Seq<char>>(h@),
                Err(e) => target_of(target@) == Err::<TargetModel, Seq<char>>(e@),
            },
    {
        let chars = text::chars_of(target);
        let s = text::trim_chars(chars.as_slice());
        if s.len() == 0 {
            return Err("empty target");
        }
        let at: usize = text::find_char(s.as_slice(), '@', 0);
        let mut user: Option<String> = None;
        let mut from: usize = 0;
        if at < s.len() {
            if at == 0 {
                return Err("empty user before '@'");
            }
            from = at + 1;
            let name = text::slice_of(s.as_slice(), 0, at);
            assert(name@ =~= s@.take(at as int));
            user = Some(text::string_of(name.as_slice()));
        }
        let rest = text::slice_of(s.as_slice(), from, s.len());
        proof {
            if at < s@.len() {
                assert(rest@ =~= s@.skip(at + 1));
            } else {
                assert(rest@ =~= s@);
            }
        }
        if at < s.len() && text::contains_char(rest.as_slice(), '@') {
            return Err("more than one '@'");
        }
        let (host, port) = match split_host_port(rest.as_slice()) {
            Ok(x) => x,
            Err(e) => {
                return Err(e);
            },
        };
        if host.len() == 0 {
            return Err("empty host");
        }
        Ok(HostSpec { user, host: text::string_of(host.as_slice()), port })
    }

    /// The user to log in as, given a fallback.
    pub fn user_or<'a>(&'a self, fallback: &'a str) -> (u: &'a str)
        ensures
            u@ == (match self.user {
                Some(n) => n@,
                None => fallback@,
            }),
    {
        match &self.user {
            Some(n) => n.as_str(),
            None => fallback,
        }
    }

    /// The `host:port` text.
    pub fn host_port(&self) -> (s: String)
        ensures
            s@ == self.host@ + ":"@ + text::decimal(self.port as nat),
    {
        let mut v = text::chars_of(self.host.as_str());
        text::push_text(&mut v, ":");
        let n = text::decimal_of(self.port as u64);
        text::push_all(&mut v, n.as_slice());
        text::string_of(v.as_slice())
    }
}

// ---- targets with a path ---------------------------------------------------
/// The first colon outside brackets at or after `i`, where `depth` brackets are
/// open, or the length.
pub open spec fn outer_colon(s: Seq<char>, i: int, depth: nat) -> int
    decreases s.len() - i,
{
    if i < 0 || i >= s.len() {
        s.len() as int
    } else if s[i] == '[' {
        outer_colon(s, i + 1, depth + 1)
    } else if s[i] == ']' {
        outer_colon(
            s,
            i + 1,
            if depth > 0 {
                (depth - 1) as nat
            } else {
                0
            },
        )
    } else if s[i] == ':' && depth == 0 {
        i
    } else {
        outer_colon(s, i + 1, depth)
    }
}

/// Split `[user@]host:path` at the first colon outside brackets; `None` where
/// there is none.
pub fn split_target_path(arg: &str) -> (r: Option<(&str, &str)>)
    ensures
        match r {
            Some((target, path)) => {
                let at = outer_colon(arg@, 0, 0);
                &&& 0 <= at < arg@.len()
                &&& target@ == arg@.take(at)
                &&& path@ == arg@.skip(at + 1)
            },
            None => outer_colon(arg@, 0, 0) == arg@.len(),
        },
{
    let s = text::chars_of(arg);
    let mut depth: usize = 0;
    let mut i: usize = 0;
    while i < s.len()
        invariant
            i <= s@.len(),
            s@ == arg@,
            depth <= i,
            outer_colon(arg@, 0, 0) == outer_colon(arg@, i as int, depth as nat),
        decreases s@.len() - i,
    {
        let c = s[i];
        if c == '[' {
            depth = depth + 1;
        } else if c == ']' {
            if depth > 0 {
                depth = depth - 1;
            }
        } else if c == ':' && depth == 0 {
            assert(arg@.subrange(0, i as int) =~= arg@.take(i as int));
            assert(arg@.subrange(i + 1, arg@.len() as int) =~= arg@.skip(i + 1));
            return Some((arg.substring_char(0, i), arg.substring_char(i + 1, s.len())));
        }
        i = i + 1;
    }
    None
}

/// Law: the parts of a split, with a colon between them, are what was split.
pub proof fn a_split_target_rejoins(arg: Seq<char>)
    requires
        0 <= outer_colon(arg, 0, 0) < arg.len(),
    ensures
        arg.take(outer_colon(arg, 0, 0)) + seq![':'] + arg.skip(outer_colon(arg, 0, 0) + 1) == arg,
{
    colon_found(arg, 0, 0);
    let at = outer_colon(arg, 0, 0);
    assert(arg.take(at) + seq![':'] + arg.skip(at + 1) =~= arg);
}

proof fn colon_found(s: Seq<char>, i: int, depth: nat)
    requires
        0 <= i <= s.len(),
    ensures
        outer_colon(s, i, depth) < s.len() ==> s[outer_colon(s, i, depth)] == ':',
    decreases s.len() - i,
{
    if i < s.len() {
        if s[i] == '[' {
            colon_found(s, i + 1, depth + 1);
        } else if s[i] == ']' {
            colon_found(
                s,
                i + 1,
                if depth > 0 {
                    (depth - 1) as nat
                } else {
                    0
                },
            );
        } else if s[i] != ':' || depth != 0 {
            colon_found(s, i + 1, depth);
        }
    }
}

/// Law: a parsed target has a host, and a port that is not 0; a user that it
/// names is not empty.
pub proof fn parsed_targets_are_complete(target: Seq<char>)
    requires
        target_of(target) is Ok,
    ensures
        target_of(target)->Ok_0.host.len() > 0,
        target_of(target)->Ok_0.port > 0,
        target_of(target)->Ok_0.user is Some ==> (target_of(target)->Ok_0.user->Some_0).len() > 0,
{
    text::find_spec(text::trim(target), '@', 0);
}

} // verus!
