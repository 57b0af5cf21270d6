//! Host keys: what the recorded keys say of a server's key, and what the policy
//! makes of it.
//!
//! Reading the files of known hosts is left to the caller, which says of each
//! file what it found.

use crate::hostspec;
use crate::sshconfig::{EndpointModel, ResolvedEndpoint};
use crate::sshhost::StrictHostKey;
use crate::text;
use crate::transport::{TransportError, Trouble};
use crate::words;
use vstd::prelude::*;

verus! {

// ---- looking a key up ------------------------------------------------------
/// What one file of known hosts says of a key.
#[derive(Debug, Clone, PartialEq, Eq)]
pub enum FileCheck {
    /// It records the key.
    Match,
    /// It does not record the host.
    NotFound,
    /// It records the host with another key.
    Changed {
        /// The line that does.
        line: usize,
    },
    /// It cannot be read.
    ReadError {
        /// Why not.
        reason: String,
    },
}

/// What the files of known hosts say of a key.
#[derive(Debug, Clone, PartialEq, Eq)]
pub enum KnownHostsLookup {
    /// The key is recorded.
    Match,
    /// The host is not recorded.
    NotFound,
    /// The host is recorded with another key.
    Changed {
        /// The line that does.
        line: usize,
    },
    /// A file cannot be read.
    ReadError {
        /// Why not.
        reason: String,
    },
}

/// What is said of a key, as a mathematical value.
pub ghost enum LookupModel {
    /// The key is recorded.
    Match,
    /// The host is not recorded.
    NotFound,
    /// The host is recorded with another key.
    Changed { line: usize },
    /// A file cannot be read.
    ReadError { reason: Seq<char> },
}

impl View for FileCheck {
    type V = LookupModel;

    open spec fn view(&self) -> LookupModel {
        match *self {
            FileCheck::Match => LookupModel::Match,
            FileCheck::NotFound => LookupModel::NotFound,
            FileCheck::Changed { line } => LookupModel::Changed { line },
            FileCheck::ReadError { reason } => LookupModel::ReadError { reason: reason@ },
        }
    }
}

impl View for KnownHostsLookup {
    type V = LookupModel;

    open spec fn view(&self) -> LookupModel {
        match *self {
            KnownHostsLookup::Match => LookupModel::Match,
            KnownHostsLookup::NotFound => LookupModel::NotFound,
            KnownHostsLookup::Changed { line } => LookupModel::Changed { line },
            KnownHostsLookup::ReadError { reason } => LookupModel::ReadError { reason: reason@ },
        }
    }
}

/// What the files say, each by its view.
pub open spec fn checks(l: Seq<FileCheck>) -> Seq<LookupModel> {
    Seq::new(l.len(), |i: int| l[i]@)
}

/// The first of the files that has another key, from position `i` on.
pub open spec fn first_changed(l: Seq<LookupModel>, i: int) -> Option<usize>
    decreases l.len() - i,
{
    if i < 0 || i >= l.len() {
        None
    } else {
        match l[i] {
            LookupModel::Changed { line } => Some(line),
            _ => first_changed(l, i + 1),
        }
    }
}

/// The first of the files that cannot be read, from position `i` on.
pub open spec fn first_unread(l: Seq<LookupModel>, i: int) -> Option<Seq<char>>
    decreases l.len() - i,
{
    if i < 0 || i >= l.len() {
        None
    } else {
        match l[i] {
            LookupModel::ReadError { reason } => Some(reason),
            _ => first_unread(l, i + 1),
        }
    }
}

/// What all the files say together: a recorded key counts before anything, then
/// another key, then a file that cannot be read.
pub open spec fn aggregated(l: Seq<LookupModel>) -> LookupModel {
    if l.contains(LookupModel::Match) {
        LookupModel::Match
    } else {
        match first_changed(l, 0) {
            Some(line) => LookupModel::Changed { line },
            None => match first_unread(l, 0) {
                Some(reason) => LookupModel::ReadError { reason },
                None => LookupModel::NotFound,
            },
        }
    }
}

/// What all the files say together.
pub fn aggregate_lookup(found: &Vec<FileCheck>) -> (r: KnownHostsLookup)
    ensures
        r@ == aggregated(checks(found@)),
{
    let ghost model = checks(found@);
    let mut changed: Option<usize> = None;
    let mut unread: Option<String> = None;
    let mut i: usize = 0;
    while i < found.len()
        invariant
            i <= found@.len(),
            model == checks(found@),
            forall|j: int| 0 <= j < i ==> (#[trigger] model[j]) != LookupModel::Match,
            first_changed(model, 0) == (match changed {
                Some(line) => Some(line),
                None => first_changed(model, i as int),
            }),
            first_unread(model, 0) == (match unread {
                Some(reason) => Some(reason@),
                None => first_unread(model, i as int),
            }),
        decreases found@.len() - i,
    {
        assert(model[i as int] == found@[i as int]@);
        match &found[i] {
            FileCheck::Match => {
                assert(model.contains(LookupModel::Match));
                return KnownHostsLookup::Match;
            },
            FileCheck::NotFound => {},
            FileCheck::Changed { line } => {
                if changed.is_none() {
                    changed = Some(*line);
                }
            },
            FileCheck::ReadError { reason } => {
                if unread.is_none() {
                    unread = Some(reason.as_str().to_owned());
                }
            },
        }
        i = i + 1;
    }
    assert(!model.contains(LookupModel::Match));
    match changed {
        Some(line) => KnownHostsLookup::Changed { line },
        None => match unread {
            Some(reason) => KnownHostsLookup::ReadError { reason },
            None => KnownHostsLookup::NotFound,
        },
    }
}

/// What is said of a key that was looked up with the port and, where the port is
/// not the default one and that found nothing, without it; and whether it was
/// found without it. A file that cannot be read then says nothing.
pub open spec fn looked_up(port: u16, with_port: LookupModel, plain: LookupModel) -> (
    LookupModel,
    bool,
) {
    if port != hostspec::DEFAULT_SSH_PORT && with_port is NotFound {
        match plain {
            LookupModel::Match => (LookupModel::Match, true),
            LookupModel::Changed { line } => (LookupModel::Changed { line }, false),
            _ => (with_port, false),
        }
    } else {
        (with_port, false)
    }
}

/// What the files say of a key: `with_port` is what each says of the host with its
/// port, and `plain` what each says of the host alone.
pub fn lookup_host_key(port: u16, with_port: &Vec<FileCheck>, plain: &Vec<FileCheck>) -> (r: (
    KnownHostsLookup,
    bool,
))
    ensures
        (r.0@, r.1) == looked_up(port, aggregated(checks(with_port@)), aggregated(checks(plain@))),
{
    let primary = aggregate_lookup(with_port);
    if port != hostspec::DEFAULT_SSH_PORT && matches!(primary, KnownHostsLookup::NotFound) {
        match aggregate_lookup(plain) {
            KnownHostsLookup::Match => {
                return (KnownHostsLookup::Match, true);
            },
            KnownHostsLookup::Changed { line } => {
                return (KnownHostsLookup::Changed { line }, false);
            },
            _ => {},
        }
    }
    (primary, false)
}

// ---- the policy ------------------------------------------------------------
/// Why a key is rejected.
#[derive(Debug, Clone, PartialEq, Eq)]
pub enum RejectReason {
    /// The host is not recorded.
    Unknown,
    /// The host is recorded with another key.
    Changed {
        /// The line that does.
        line: usize,
    },
    /// A file cannot be read.
    ReadError {
        /// Why not.
        reason: String,
    },
}

/// What to do about a key.
#[derive(Debug, Clone, PartialEq, Eq)]
pub enum HostKeyDecision {
    /// Accept it.
    Accept,
    /// Accept and record it.
    AcceptAndRecord,
    /// Reject it.
    Reject(RejectReason),
}

/// What to do about a key, as a mathematical value.
pub ghost enum DecisionModel {
    /// Accept it.
    Accept,
    /// Accept and record it.
    AcceptAndRecord,
    /// Reject it, for what was found.
    Reject(LookupModel),
}

impl View for HostKeyDecision {
    type V = DecisionModel;

    open spec fn view(&self) -> DecisionModel {
        match *self {
            HostKeyDecision::Accept => DecisionModel::Accept,
            HostKeyDecision::AcceptAndRecord => DecisionModel::AcceptAndRecord,
            HostKeyDecision::Reject(r) => DecisionModel::Reject(
                match r {
                    RejectReason::Unknown => LookupModel::NotFound,
                    RejectReason::Changed { line } => LookupModel::Changed { line },
                    RejectReason::ReadError { reason } => LookupModel::ReadError {
                        reason: reason@,
                    },
                },
            ),
        }
    }
}

/// What the policy makes of what was found: a recorded key is accepted, and so is
/// anything under `no`. An unknown key is recorded under `accept-new`. Anything
/// else is rejected.
pub open spec fn decided(found: LookupModel, strict: StrictHostKey) -> DecisionModel {
    if found is Match || strict == StrictHostKey::No {
        DecisionModel::Accept
    } else if found is NotFound && strict == StrictHostKey::AcceptNew {
        DecisionModel::AcceptAndRecord
    } else {
        DecisionModel::Reject(found)
    }
}

/// What the policy makes of what was found.
pub fn decide_host_key(lookup: &KnownHostsLookup, strict: StrictHostKey) -> (d: HostKeyDecision)
    ensures
        d@ == decided(lookup@, strict),
{
    match lookup {
        KnownHostsLookup::Match => HostKeyDecision::Accept,
        KnownHostsLookup::NotFound => match strict {
            StrictHostKey::No => HostKeyDecision::Accept,
            StrictHostKey::AcceptNew => HostKeyDecision::AcceptAndRecord,
            StrictHostKey::Yes => HostKeyDecision::Reject(RejectReason::Unknown),
        },
        KnownHostsLookup::Changed { line } => match strict {
            StrictHostKey::No => HostKeyDecision::Accept,
            _ => HostKeyDecision::Reject(RejectReason::Changed { line: *line }),
        },
        KnownHostsLookup::ReadError { reason } => match strict {
            StrictHostKey::No => HostKeyDecision::Accept,
            _ => HostKeyDecision::Reject(
                RejectReason::ReadError { reason: reason.as_str().to_owned() },
            ),
        },
    }
}

/// A changed key is accepted under no policy but `no`.
pub proof fn a_changed_key_is_rejected(line: usize, strict: StrictHostKey)
    ensures
        decided(LookupModel::Changed { line }, strict) is Accept <==> strict == StrictHostKey::No,
        !(decided(LookupModel::Changed { line }, strict) is AcceptAndRecord),
{
}

/// A key is recorded only where no file has the host, with the port or without
/// it.
pub proof fn only_unknown_keys_are_recorded(
    port: u16,
    with_port: Seq<LookupModel>,
    plain: Seq<LookupModel>,
    strict: StrictHostKey,
)
    ensures
        decided(looked_up(port, aggregated(with_port), aggregated(plain)).0, strict)
            is AcceptAndRecord ==> {
            &&& strict == StrictHostKey::AcceptNew
            &&& forall|i: int|
                0 <= i < with_port.len() ==> (#[trigger] with_port[i]) == LookupModel::NotFound
            &&& port != hostspec::DEFAULT_SSH_PORT ==> forall|i: int|
                0 <= i < plain.len() ==> !((#[trigger] plain[i]) is Match) && !(plain[i] is Changed)
        },
{
    assert forall|i: int| 0 <= i < with_port.len() && aggregated(with_port) is NotFound implies (
    #[trigger] with_port[i]) == LookupModel::NotFound by {
        nothing_found(with_port, i);
    }
    assert forall|i: int|
        0 <= i < plain.len() && !(aggregated(plain) is Match) && !(aggregated(plain)
            is Changed) implies !((#[trigger] plain[i]) is Match) && !(plain[i] is Changed) by {
        if plain[i] is Match {
            assert(plain[i] == LookupModel::Match);
            assert(plain.contains(LookupModel::Match));
        }
        found_from(plain, 0, i);
    }
}

proof fn nothing_found(l: Seq<LookupModel>, i: int)
    requires
        0 <= i < l.len(),
        aggregated(l) is NotFound,
    ensures
        l[i] == LookupModel::NotFound,
{
    if l[i] is Match {
        assert(l[i] == LookupModel::Match);
        assert(l.contains(LookupModel::Match));
    }
    found_from(l, 0, i);
}

proof fn found_from(l: Seq<LookupModel>, from: int, i: int)
    requires
        0 <= from <= i < l.len(),
    ensures
        l[i] is Changed ==> first_changed(l, from) is Some,
        l[i] is ReadError ==> first_unread(l, from) is Some,
    decreases i - from,
{
    if from < i {
        found_from(l, from + 1, i);
    }
}

// ---- one hop's check -------------------------------------------------------
/// What one hop's host key is checked by.
#[derive(Debug)]
pub struct HostKeyCheck {
    /// The host.
    pub host: String,
    /// The port.
    pub port: u16,
    /// The consulted files, for the message.
    pub lookup_display: String,
    /// The policy.
    pub strict: StrictHostKey,
    /// The file that new keys are recorded in, if there is one.
    pub record_target: Option<String>,
}

/// What one hop's host key is checked by, as a mathematical value.
#[verifier::ext_equal]
pub ghost struct CheckModel {
    /// The host.
    pub host: Seq<char>,
    /// The port.
    pub port: u16,
    /// The consulted files, for the message.
    pub lookup_display: Seq<char>,
    /// The policy.
    pub strict: StrictHostKey,
    /// The file that new keys are recorded in, if there is one.
    pub record_target: Option<Seq<char>>,
}

impl View for HostKeyCheck {
    type V = CheckModel;

    open spec fn view(&self) -> CheckModel {
        CheckModel {
            host: self.host@,
            port: self.port,
            lookup_display: self.lookup_display@,
            strict: self.strict,
            record_target: hostspec::optional_text(self.record_target),
        }
    }
}

/// The check of a hop: all its files are consulted, and a new key is recorded in
/// the user's first one that can hold it.
pub open spec fn check_of(e: EndpointModel) -> CheckModel {
    CheckModel {
        host: e.host_name,
        port: e.port,
        lookup_display: text::join(e.known_hosts_files + e.global_known_hosts_files, ", "@),
        strict: e.strict,
        record_target: crate::sshconfig::record_file(e.known_hosts_files, 0),
    }
}

/// The check of a hop.
pub fn build_handler(ep: &ResolvedEndpoint) -> (c: HostKeyCheck)
    ensures
        c@ == check_of(ep@),
{
    let files = ep.lookup_known_hosts();
    HostKeyCheck {
        host: ep.host_name.as_str().to_owned(),
        port: ep.port,
        lookup_display: words::join_strings(&files, ", "),
        strict: ep.strict,
        record_target: ep.record_target(),
    }
}

/// What is looked up for a host: its name, or its name with the port in brackets
/// and its name alone.
pub open spec fn key_of(host: Seq<char>, port: u16) -> Seq<char> {
    if port == hostspec::DEFAULT_SSH_PORT {
        host
    } else {
        "["@ + host + "]:"@ + text::decimal(port as nat) + " (and "@ + host + " without port)"@
    }
}

/// What is looked up for a host, for the message.
pub fn lookup_key(host: &str, port: u16) -> (s: String)
    ensures
        s@ == key_of(host@, port),
{
    if port == hostspec::DEFAULT_SSH_PORT {
        return host.to_owned();
    }
    let mut v = text::chars_of("[");
    text::push_text(&mut v, host);
    text::push_text(&mut v, "]:");
    let n = text::decimal_of(port as u64);
    text::push_all(&mut v, n.as_slice());
    text::push_text(&mut v, " (and ");
    text::push_text(&mut v, host);
    text::push_text(&mut v, " without port)");
    text::string_of(v.as_slice())
}

/// How a check of a host key came out.
#[derive(Debug, Clone, PartialEq, Eq)]
pub enum HostKeyVerdict {
    /// No key was checked yet.
    Pending,
    /// The key was accepted.
    Accepted,
    /// The host is not recorded.
    Unknown {
        /// What was looked up.
        lookup: String,
        /// The host.
        host: String,
        /// The consulted files.
        files: String,
    },
    /// The host is recorded with another key.
    Mismatch {
        /// The host.
        host: String,
        /// The line that does.
        line: usize,
    },
    /// A file cannot be read.
    ReadError {
        /// The host.
        host: String,
        /// Why not.
        reason: String,
    },
}

impl HostKeyVerdict {
    /// The error that a verdict stands for, if it is one.
    pub open spec fn trouble(self) -> Option<Trouble> {
        match self {
            HostKeyVerdict::Pending => None,
            HostKeyVerdict::Accepted => None,
            HostKeyVerdict::Unknown { lookup, host, files } => Some(
                Trouble::HostKeyUnknown { lookup: lookup@, host: host@, files: files@ },
            ),
            HostKeyVerdict::Mismatch { host, line } => Some(
                Trouble::HostKeyMismatch { host: host@, line },
            ),
            HostKeyVerdict::ReadError { host, reason } => Some(
                Trouble::KnownHosts { host: host@, reason: reason@ },
            ),
        }
    }
}

/// The error that a verdict stands for, if it is one.
pub fn host_key_error(verdict: &HostKeyVerdict) -> (e: Option<TransportError>)
    ensures
        match e {
            Some(x) => verdict.trouble() == Some(x@),
            None => verdict.trouble() is None,
        },
{
    match verdict {
        HostKeyVerdict::Unknown { lookup, host, files } => Some(
            TransportError::HostKeyUnknown {
                lookup: lookup.as_str().to_owned(),
                host: host.as_str().to_owned(),
                files: files.as_str().to_owned(),
            },
        ),
        HostKeyVerdict::Mismatch { host, line } => Some(
            TransportError::HostKeyMismatch { host: host.as_str().to_owned(), line: *line },
        ),
        HostKeyVerdict::ReadError { host, reason } => Some(
            TransportError::KnownHosts {
                host: host.as_str().to_owned(),
                reason: reason.as_str().to_owned(),
            },
        ),
        HostKeyVerdict::Pending => None,
        HostKeyVerdict::Accepted => None,
    }
}

/// What a check of a server's key comes to.
#[derive(Debug)]
pub struct KeyJudgement {
    /// The verdict.
    pub verdict: HostKeyVerdict,
    /// Whether the key is accepted.
    pub accept: bool,
    /// What the user is told, if anything.
    pub note: Option<String>,
    /// The file that the key is to be recorded in, if it is.
    pub record: Option<String>,
}

/// The verdict on a rejected key, as an error.
pub open spec fn rejection(c: CheckModel, found: LookupModel) -> Trouble {
    match found {
        LookupModel::Changed { line } => Trouble::HostKeyMismatch { host: c.host, line },
        LookupModel::ReadError { reason } => Trouble::KnownHosts { host: c.host, reason },
        _ => Trouble::HostKeyUnknown {
            lookup: key_of(c.host, c.port),
            host: c.host,
            files: c.lookup_display,
        },
    }
}

/// What the user is told of a key that is accepted and not recorded.
pub open spec fn acceptance_note(c: CheckModel, found: LookupModel, without_port: bool) -> Option<
    Seq<char>,
> {
    if found is Match {
        if without_port {
            Some(
                "using known_hosts entry for "@ + c.host + " without a port (OpenSSH compat)"@,
            )
        } else {
            None
        }
    } else {
        Some(
            "accepting unverified host key for "@ + c.host + " (StrictHostKeyChecking no)"@,
        )
    }
}

/// What a judgement is, given what was found.
pub open spec fn judged(
    c: CheckModel,
    found: LookupModel,
    without_port: bool,
    j: KeyJudgement,
) -> bool {
    match decided(found, c.strict) {
        DecisionModel::Accept => {
            &&& j.accept
            &&& j.verdict is Accepted
            &&& j.record is None
            &&& hostspec::optional_text(j.note) == acceptance_note(c, found, without_port)
        },
        DecisionModel::AcceptAndRecord => {
            &&& j.accept
            &&& j.verdict is Accepted
            &&& hostspec::optional_text(j.record) == c.record_target
            &&& hostspec::optional_text(j.note) == (match c.record_target {
                Some(_) => None,
                None => Some(
                    "accepting new host key for "@ + c.host
                        + " (not recorded: known_hosts is /dev/null)"@,
                ),
            })
        },
        DecisionModel::Reject(why) => {
            &&& !j.accept
            &&& j.verdict.trouble() == Some(rejection(c, why))
            &&& j.record is None
            &&& j.note is None
        },
    }
}

/// What the user is told once a key was to be recorded in `path`.
pub open spec fn recording_note(
    c: CheckModel,
    path: Seq<char>,
    failure: Option<Seq<char>>,
) -> Seq<char> {
    match failure {
        None => "recorded new host key for "@ + c.host + " in "@ + path + " (accept-new)"@,
        Some(e) => "could not record host key for "@ + c.host + ": "@ + e,
    }
}

impl HostKeyCheck {
    /// Judge a server's key by what was found of it.
    pub fn judge(&self, lookup: &KnownHostsLookup, without_port: bool) -> (j: KeyJudgement)
        ensures
            judged(self@, lookup@, without_port, j),
    {
        match decide_host_key(lookup, self.strict) {
            HostKeyDecision::Accept => {
                let note = match lookup {
                    KnownHostsLookup::Match => {
                        if without_port {
                            Some(
                                text::three(
                                    "using known_hosts entry for ",
                                    self.host.as_str(),
                                    " without a port (OpenSSH compat)",
                                ),
                            )
                        } else {
                            None
                        }
                    },
                    _ => Some(
                        text::three(
                            "accepting unverified host key for ",
                            self.host.as_str(),
                            " (StrictHostKeyChecking no)",
                        ),
                    ),
                };
                KeyJudgement { verdict: HostKeyVerdict::Accepted, accept: true, note, record: None }
            },
            HostKeyDecision::AcceptAndRecord => match &self.record_target {
                Some(path) => KeyJudgement {
                    verdict: HostKeyVerdict::Accepted,
                    accept: true,
                    note: None,
                    record: Some(path.as_str().to_owned()),
                },
                None => KeyJudgement {
                    verdict: HostKeyVerdict::Accepted,
                    accept: true,
                    note: Some(
                        text::three(
                            "accepting new host key for ",
                            self.host.as_str(),
                            " (not recorded: known_hosts is /dev/null)",
                        ),
                    ),
                    record: None,
                },
            },
            HostKeyDecision::Reject(why) => {
                let verdict = match why {
                    RejectReason::Unknown => HostKeyVerdict::Unknown {
                        lookup: lookup_key(self.host.as_str(), self.port),
                        host: self.host.as_str().to_owned(),
                        files: self.lookup_display.as_str().to_owned(),
                    },
                    RejectReason::Changed { line } => HostKeyVerdict::Mismatch {
                        host: self.host.as_str().to_owned(),
                        line,
                    },
                    RejectReason::ReadError { reason } => HostKeyVerdict::ReadError {
                        host: self.host.as_str().to_owned(),
                        reason,
                    },
                };
                KeyJudgement { verdict, accept: false, note: None, record: None }
            },
        }
    }

    /// Judge a server's key by what each file says of it, with the host's port and
    /// without it.
    pub fn check_server_key(&self, with_port: &Vec<FileCheck>, plain: &Vec<FileCheck>) -> (j:
        KeyJudgement)
        ensures
            ({
                let found = looked_up(
                    self@.port,
                    aggregated(checks(with_port@)),
                    aggregated(checks(plain@)),
                );
                judged(self@, found.0, found.1, j)
            }),
    {
        let (lookup, without_port) = lookup_host_key(self.port, with_port, plain);
        self.judge(&lookup, without_port)
    }

    /// What the user is told once the key was to be recorded in `path`: `failure`
    /// is why it could not be.
    pub fn recorded(&self, path: &str, failure: Option<String>) -> (s: String)
        ensures
            s@ == recording_note(self@, path@, hostspec::optional_text(failure)),
    {
        let mut v: Vec<char> = Vec::new();
        match failure {
            None => {
                text::push_text(&mut v, "recorded new host key for ");
                text::push_text(&mut v, self.host.as_str());
                text::push_text(&mut v, " in ");
                text::push_text(&mut v, path);
                text::push_text(&mut v, " (accept-new)");
            },
            Some(e) => {
                text::push_text(&mut v, "could not record host key for ");
                text::push_text(&mut v, self.host.as_str());
                text::push_text(&mut v, ": ");
                text::push_text(&mut v, e.as_str());
            },
        }
        assert(v@ =~= recording_note(self@, path@, hostspec::optional_text(failure)));
        text::string_of(v.as_slice())
    }
}

// ---- hops in messages ------------------------------------------------------
/// A hop in a message.
pub open spec fn label_of(e: EndpointModel) -> Seq<char> {
    e.alias + " ("@ + e.host_name + ":"@ + text::decimal(e.port as nat) + ")"@
}

/// A hop in a message: `alias (host:port)`.
pub fn hop_label(ep: &ResolvedEndpoint) -> (s: String)
    ensures
        s@ == label_of(ep@),
{
    let mut v = text::chars_of(ep.alias.as_str());
    text::push_text(&mut v, " (");
    text::push_text(&mut v, ep.host_name.as_str());
    text::push_text(&mut v, ":");
    let n = text::decimal_of(ep.port as u64);
    text::push_all(&mut v, n.as_slice());
    text::push_text(&mut v, ")");
    text::string_of(v.as_slice())
}

/// The error that the first hop was not reached: it names the address where the
/// hop is the target, and the hop where it is a jump host.
pub open spec fn connect_trouble(e: EndpointModel, is_target: bool, reason: Seq<char>) -> Trouble {
    if is_target {
        Trouble::Connect {
            host: e.host_name + ":"@ + text::decimal(e.port as nat),
            source: reason,
        }
    } else {
        Trouble::JumpConnect { hop: label_of(e), reason }
    }
}

/// The error that the first hop was not reached.
pub fn connect_error(ep: &ResolvedEndpoint, is_target: bool, reason: &str) -> (e: TransportError)
    ensures
        e@ == connect_trouble(ep@, is_target, reason@),
{
    if is_target {
        let mut v = text::chars_of(ep.host_name.as_str());
        text::push_text(&mut v, ":");
        let n = text::decimal_of(ep.port as u64);
        text::push_all(&mut v, n.as_slice());
        TransportError::Connect {
            host: text::string_of(v.as_slice()),
            source: reason.to_owned(),
        }
    } else {
        TransportError::JumpConnect { hop: hop_label(ep), reason: reason.to_owned() }
    }
}

} // verus!
