//! What can go wrong with the connection to the peer.

use crate::text;
use vstd::prelude::*;

verus! {

/// Anything that can go wrong in establishing or using the connection.
#[derive(Debug, Clone, PartialEq, Eq)]
pub enum TransportError {
    /// The `user@host[:port]` target could not be parsed.
    HostSpec {
        /// The offending target.
        target: String,
        /// Why it was rejected.
        reason: String,
    },
    /// The connection to the host could not be opened.
    Connect {
        /// The `host:port` that was dialled.
        host: String,
        /// What went wrong.
        source: String,
    },
    /// The server's host key is in none of the consulted files.
    HostKeyUnknown {
        /// What was looked up.
        lookup: String,
        /// The host whose key is unknown.
        host: String,
        /// The consulted files.
        files: String,
    },
    /// The server's host key is not the recorded one.
    HostKeyMismatch {
        /// The host whose key changed.
        host: String,
        /// The line that no longer matches.
        line: usize,
    },
    /// The recorded keys could not be read.
    KnownHosts {
        /// The host being verified.
        host: String,
        /// What went wrong.
        reason: String,
    },
    /// Every authentication method was tried without success.
    AuthFailed {
        /// The user.
        user: String,
        /// The host.
        host: String,
        /// What was tried and why each failed.
        detail: String,
    },
    /// A private key file cannot be used.
    KeyFile {
        /// The key file.
        path: String,
        /// Why it cannot be used.
        reason: String,
    },
    /// A remote command failed.
    RemoteCommand {
        /// The command.
        cmd: String,
        /// The host that it ran on.
        host: String,
        /// Exit status or what it said.
        detail: String,
    },
    /// There is no binary for the remote system.
    UnsupportedTarget {
        /// What the remote system reported.
        detected: String,
        /// The systems that can be served.
        supported: String,
    },
    /// A file operation on the remote failed.
    Sftp {
        /// The operation.
        op: String,
        /// The remote path.
        path: String,
        /// The host.
        host: String,
        /// What went wrong.
        reason: String,
    },
    /// The pushed binary is not what was sent.
    Integrity {
        /// The host.
        host: String,
        /// The digest of what was sent.
        expected: String,
        /// The digest of what arrived.
        actual: String,
    },
    /// The local binary to push is not available.
    LocalBinary {
        /// Why it is not available.
        reason: String,
    },
    /// The remote process could not be started.
    Spawn {
        /// The host.
        host: String,
        /// What went wrong.
        reason: String,
    },
    /// The runtime that drives the connection could not be created.
    Runtime {
        /// What went wrong.
        source: String,
    },
    /// The chain of jump hosts is unusable.
    ProxyJump {
        /// The target whose route could not be resolved.
        target: String,
        /// Why the route is unusable.
        reason: String,
    },
    /// A jump host could not be reached.
    JumpConnect {
        /// The failing hop.
        hop: String,
        /// What went wrong.
        reason: String,
    },
    /// A remote path cannot be rewritten.
    RemotePath {
        /// The path.
        path: String,
        /// Why it cannot be rewritten.
        reason: String,
    },
}

/// An error as a mathematical value.
#[allow(inconsistent_fields)]
pub ghost enum Trouble {
    /// The target could not be parsed.
    HostSpec { target: Seq<char>, reason: Seq<char> },
    /// The connection could not be opened.
    Connect { host: Seq<char>, source: Seq<char> },
    /// The host key is in none of the consulted files.
    HostKeyUnknown { lookup: Seq<char>, host: Seq<char>, files: Seq<char> },
    /// The host key is not the recorded one.
    HostKeyMismatch { host: Seq<char>, line: usize },
    /// The recorded keys could not be read.
    KnownHosts { host: Seq<char>, reason: Seq<char> },
    /// Every authentication method was tried without success.
    AuthFailed { user: Seq<char>, host: Seq<char>, detail: Seq<char> },
    /// A private key file cannot be used.
    KeyFile { path: Seq<char>, reason: Seq<char> },
    /// A remote command failed.
    RemoteCommand { cmd: Seq<char>, host: Seq<char>, detail: Seq<char> },
    /// There is no binary for the remote system.
    UnsupportedTarget { detected: Seq<char>, supported: Seq<char> },
    /// A file operation on the remote failed.
    Sftp { op: Seq<char>, path: Seq<char>, host: Seq<char>, reason: Seq<char> },
    /// The pushed binary is not what was sent.
    Integrity { host: Seq<char>, expected: Seq<char>, actual: Seq<char> },
    /// The local binary is not available.
    LocalBinary { reason: Seq<char> },
    /// The remote process could not be started.
    Spawn { host: Seq<char>, reason: Seq<char> },
    /// The runtime could not be created.
    Runtime { source: Seq<char> },
    /// The chain of jump hosts is unusable.
    ProxyJump { target: Seq<char>, reason: Seq<char> },
    /// A jump host could not be reached.
    JumpConnect { hop: Seq<char>, reason: Seq<char> },
    /// A remote path cannot be rewritten.
    RemotePath { path: Seq<char>, reason: Seq<char> },
}

impl View for TransportError {
    type V = Trouble;

    open spec fn view(&self) -> Trouble {
        match *self {
            TransportError::HostSpec { target, reason } => Trouble::HostSpec {
                target: target@,
                reason: reason@,
            },
            TransportError::Connect { host, source } => Trouble::Connect {
                host: host@,
                source: source@,
            },
            TransportError::HostKeyUnknown { lookup, host, files } => Trouble::HostKeyUnknown {
                lookup: lookup@,
                host: host@,
                files: files@,
            },
            TransportError::HostKeyMismatch { host, line } => Trouble::HostKeyMismatch {
                host: host@,
                line,
            },
            TransportError::KnownHosts { host, reason } => Trouble::KnownHosts {
                host: host@,
                reason: reason@,
            },
            TransportError::AuthFailed { user, host, detail } => Trouble::AuthFailed {
                user: user@,
                host: host@,
                detail: detail@,
            },
            TransportError::KeyFile { path, reason } => Trouble::KeyFile {
                path: path@,
                reason: reason@,
            },
            TransportError::RemoteCommand { cmd, host, detail } => Trouble::RemoteCommand {
                cmd: cmd@,
                host: host@,
                detail: detail@,
            },
            TransportError::UnsupportedTarget { detected, supported } =>
                Trouble::UnsupportedTarget { detected: detected@, supported: supported@ },
            TransportError::Sftp { op, path, host, reason } => Trouble::Sftp {
                op: op@,
                path: path@,
                host: host@,
                reason: reason@,
            },
            TransportError::Integrity { host, expected, actual } => Trouble::Integrity {
                host: host@,
                expected: expected@,
                actual: actual@,
            },
            TransportError::LocalBinary { reason } => Trouble::LocalBinary { reason: reason@ },
            TransportError::Spawn { host, reason } => Trouble::Spawn {
                host: host@,
                reason: reason@,
            },
            TransportError::Runtime { source } => Trouble::Runtime { source: source@ },
            TransportError::ProxyJump { target, reason } => Trouble::ProxyJump {
                target: target@,
                reason: reason@,
            },
            TransportError::JumpConnect { hop, reason } => Trouble::JumpConnect {
                hop: hop@,
                reason: reason@,
            },
            TransportError::RemotePath { path, reason } => Trouble::RemotePath {
                path: path@,
                reason: reason@,
            },
        }
    }
}

impl Trouble {
    /// What the error says.
    pub open spec fn text(self) -> Seq<char> {
        match self {
            Trouble::HostSpec { target, reason } => "invalid ssh target "@ + text::debug_text(
                target,
            ) + ": "@ + reason,
            Trouble::Connect { host, source } => "cannot connect to "@ + host + ": "@ + source,
            Trouble::HostKeyUnknown { lookup, host, files } => "host key for "@ + host
                + " is not in known_hosts — connect once with `ssh "@ + host
                + "` to record it, then retry"@,
            Trouble::HostKeyMismatch { host, line } => "host key for "@ + host
                + " does not match known_hosts line "@ + text::decimal(line as nat)
                + " — if the server was legitimately rebuilt, remove that line and re-verify"@,
            Trouble::KnownHosts { host, reason } => "reading known_hosts for "@ + host + ": "@
                + reason,
            Trouble::AuthFailed { user, host, detail } => "authentication failed for "@ + user
                + "@"@ + host + ": "@ + detail,
            Trouble::KeyFile { path, reason } => "cannot use key "@ + path + ": "@ + reason,
            Trouble::RemoteCommand { cmd, host, detail } => "remote command `"@ + cmd
                + "` failed on "@ + host + ": "@ + detail,
            Trouble::UnsupportedTarget { detected, supported } =>
                "unsupported remote target: uname reported "@ + text::debug_text(detected)
                    + ", which Tomo has no binary for (supported: "@ + supported
                    + "). No external downloads are ever attempted."@,
            Trouble::Sftp { op, path, host, reason } => "sftp "@ + op + " "@ + text::debug_text(
                path,
            ) + " on "@ + host + ": "@ + reason,
            Trouble::Integrity { host, expected, actual } =>
                "integrity check failed for pushed binary on "@ + host + ": expected "@ + expected
                    + ", remote reported "@ + actual,
            Trouble::LocalBinary { reason } => "locating the local binary to push: "@ + reason,
            Trouble::Spawn { host, reason } => "spawning remote `serve --stdio` on "@ + host
                + ": "@ + reason,
            Trouble::Runtime { source } => "initializing the transport runtime: "@ + source,
            Trouble::ProxyJump { target, reason } => "ssh config proxy jump for "@
                + text::debug_text(target) + ": "@ + reason,
            Trouble::JumpConnect { hop, reason } => "cannot reach ssh jump host "@ + hop + ": "@
                + reason,
            Trouble::RemotePath { path, reason } => "remote path "@ + text::debug_text(path)
                + ": "@ + reason,
        }
    }
}

fn push_quoted(v: &mut Vec<char>, s: &str)
    ensures
        final(v)@ == old(v)@ + text::debug_text(s@),
{
    let q = text::quoted(s);
    text::push_text(v, q.as_str());
}

/// `a`, `b`, `c` and `d` one after the other.
fn four(a: &str, b: &str, c: &str, d: &str) -> (s: String)
    ensures
        s@ == a@ + b@ + c@ + d@,
{
    let mut v = text::chars_of(a);
    text::push_text(&mut v, b);
    text::push_text(&mut v, c);
    text::push_text(&mut v, d);
    text::string_of(v.as_slice())
}

impl TransportError {
    /// The message of this error.
    pub fn message(&self) -> (m: String)
        ensures
            m@ == self@.text(),
    {
        match self {
            TransportError::HostSpec { target, reason } => {
                let q = text::quoted(target.as_str());
                four("invalid ssh target ", q.as_str(), ": ", reason.as_str())
            },
            TransportError::Connect { host, source } => four(
                "cannot connect to ",
                host.as_str(),
                ": ",
                source.as_str(),
            ),
            TransportError::KnownHosts { host, reason } => four(
                "reading known_hosts for ",
                host.as_str(),
                ": ",
                reason.as_str(),
            ),
            TransportError::KeyFile { path, reason } => four(
                "cannot use key ",
                path.as_str(),
                ": ",
                reason.as_str(),
            ),
            TransportError::Spawn { host, reason } => four(
                "spawning remote `serve --stdio` on ",
                host.as_str(),
                ": ",
                reason.as_str(),
            ),
            TransportError::ProxyJump { target, reason } => {
                let q = text::quoted(target.as_str());
                four("ssh config proxy jump for ", q.as_str(), ": ", reason.as_str())
            },
            TransportError::JumpConnect { hop, reason } => four(
                "cannot reach ssh jump host ",
                hop.as_str(),
                ": ",
                reason.as_str(),
            ),
            TransportError::RemotePath { path, reason } => {
                let q = text::quoted(path.as_str());
                four("remote path ", q.as_str(), ": ", reason.as_str())
            },
            _ => self.longer_message(),
        }
    }

    /// The message of an error that takes more than four parts, or fewer.
    fn longer_message(&self) -> (m: String)
        ensures
            !(self@ is HostSpec || self@ is Connect || self@ is KnownHosts || self@ is KeyFile
                || self@ is Spawn || self@ is ProxyJump || self@ is JumpConnect
                || self@ is RemotePath) ==> m@ == self@.text(),
    {
        let mut v: Vec<char> = Vec::new();
        match self {
            TransportError::HostKeyUnknown { lookup: _, host, files: _ } => {
                text::push_text(&mut v, "host key for ");
                text::push_text(&mut v, host.as_str());
                text::push_text(&mut v, " is not in known_hosts — connect once with `ssh ");
                text::push_text(&mut v, host.as_str());
                text::push_text(&mut v, "` to record it, then retry");
                assert(v@ =~= self@.text());
            },
            TransportError::HostKeyMismatch { host, line } => {
                text::push_text(&mut v, "host key for ");
                text::push_text(&mut v, host.as_str());
                text::push_text(&mut v, " does not match known_hosts line ");
                let n = text::decimal_of(*line as u64);
                text::push_all(&mut v, n.as_slice());
                text::push_text(
                    &mut v,
                    " — if the server was legitimately rebuilt, remove that line and re-verify",
                );
                assert(v@ =~= self@.text());
            },
            TransportError::AuthFailed { user, host, detail } => {
                text::push_text(&mut v, "authentication failed for ");
                text::push_text(&mut v, user.as_str());
                text::push_text(&mut v, "@");
                text::push_text(&mut v, host.as_str());
                text::push_text(&mut v, ": ");
                text::push_text(&mut v, detail.as_str());
                assert(v@ =~= self@.text());
            },
            TransportError::RemoteCommand { cmd, host, detail } => {
                text::push_text(&mut v, "remote command `");
                text::push_text(&mut v, cmd.as_str());
                text::push_text(&mut v, "` failed on ");
                text::push_text(&mut v, host.as_str());
                text::push_text(&mut v, ": ");
                text::push_text(&mut v, detail.as_str());
                assert(v@ =~= self@.text());
            },
            TransportError::UnsupportedTarget { detected, supported } => {
                text::push_text(&mut v, "unsupported remote target: uname reported ");
                push_quoted(&mut v, detected.as_str());
                text::push_text(&mut v, ", which Tomo has no binary for (supported: ");
                text::push_text(&mut v, supported.as_str());
                text::push_text(&mut v, "). No external downloads are ever attempted.");
                assert(v@ =~= self@.text());
            },
            TransportError::Sftp { op, path, host, reason } => {
                text::push_text(&mut v, "sftp ");
                text::push_text(&mut v, op.as_str());
                text::push_text(&mut v, " ");
                push_quoted(&mut v, path.as_str());
                text::push_text(&mut v, " on ");
                text::push_text(&mut v, host.as_str());
                text::push_text(&mut v, ": ");
                text::push_text(&mut v, reason.as_str());
                assert(v@ =~= self@.text());
            },
            TransportError::Integrity { host, expected, actual } => {
                text::push_text(&mut v, "integrity check failed for pushed binary on ");
                text::push_text(&mut v, host.as_str());
                text::push_text(&mut v, ": expected ");
                text::push_text(&mut v, expected.as_str());
                text::push_text(&mut v, ", remote reported ");
                text::push_text(&mut v, actual.as_str());
                assert(v@ =~= self@.text());
            },
            TransportError::LocalBinary { reason } => {
                text::push_text(&mut v, "locating the local binary to push: ");
                text::push_text(&mut v, reason.as_str());
                assert(v@ =~= self@.text());
            },
            TransportError::Runtime { source } => {
                text::push_text(&mut v, "initializing the transport runtime: ");
                text::push_text(&mut v, source.as_str());
                assert(v@ =~= self@.text());
            },
            _ => {},
        }
        text::string_of(v.as_slice())
    }
}

} // verus!
