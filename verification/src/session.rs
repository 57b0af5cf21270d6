//! Opening a connection: from a target to a route, hop by hop along the route,
//! and logging in at each hop.
//!
//! The decisions stand here. Whoever drives the connection performs each step and
//! says how it came out.

use crate::filepath;
use crate::hostkeys;
use crate::hostkeys::HostKeyVerdict;
use crate::hostspec;
use crate::routes;
use crate::routes::SshConfig;
use crate::sshconfig;
use crate::sshconfig::{EndpointModel, ResolvedEndpoint, ResolvedRoute};
use crate::text;
use crate::transport::{TransportError, Trouble};
use crate::words;
use vstd::prelude::*;

verus! {

// ---- options ---------------------------------------------------------------
/// What a connection is opened with where neither the target nor the
/// configuration says otherwise.
#[derive(Debug, Clone)]
pub struct SshOpts {
    /// The login user.
    pub default_user: String,
    /// The user's home directory.
    pub home: String,
    /// The file of known hosts.
    pub known_hosts: String,
    /// The key files, tried in order after the agent.
    pub identity_files: Vec<String>,
    /// How many seconds to wait for a connection.
    pub connect_timeout: u64,
}

/// A path below the user's `.ssh` directory.
pub open spec fn in_ssh_dir(home: Seq<char>, name: Seq<char>) -> Seq<char> {
    filepath::joined(filepath::joined(home, ".ssh"@), name)
}

fn ssh_path(home: &str, name: &str) -> (p: String)
    ensures
        p@ == in_ssh_dir(home@, name@),
{
    let dir = text::chars_of(".ssh");
    let file = text::chars_of(name);
    let base = filepath::join_path(home, dir.as_slice());
    filepath::join_path(base.as_str(), file.as_slice())
}

impl SshOpts {
    /// The defaults below the user's `.ssh` directory.
    pub fn new(home: &str, user: &str) -> (o: SshOpts)
        ensures
            o.default_user@ == user@,
            o.home@ == home@,
            o.known_hosts@ == in_ssh_dir(home@, "known_hosts"@),
            text::strings(o.identity_files@) == seq![
                in_ssh_dir(home@, "id_ed25519"@),
                in_ssh_dir(home@, "id_rsa"@),
            ],
            o.connect_timeout == 20,
    {
        let mut identity_files: Vec<String> = Vec::new();
        identity_files.push(ssh_path(home, "id_ed25519"));
        identity_files.push(ssh_path(home, "id_rsa"));
        let o = SshOpts {
            default_user: user.to_owned(),
            home: home.to_owned(),
            known_hosts: ssh_path(home, "known_hosts"),
            identity_files,
            connect_timeout: 20,
        };
        proof {
            assert(text::strings(o.identity_files@) =~= seq![
                in_ssh_dir(home@, "id_ed25519"@),
                in_ssh_dir(home@, "id_rsa"@),
            ]);
        }
        o
    }
}

/// The configuration to read: the one that is forced, or the user's.
pub fn config_path(home: &str, forced: Option<String>) -> (p: String)
    ensures
        p@ == (match forced {
            Some(f) => f@,
            None => in_ssh_dir(home@, "config"@),
        }),
{
    match forced {
        Some(f) => f,
        None => ssh_path(home, "config"),
    }
}

/// Resolve a target by a configuration. An unusable chain of jump hosts is an
/// error that says why.
pub fn resolve_route(target: &str, opts: &SshOpts, config: &SshConfig) -> (r: Result<
    ResolvedRoute,
    TransportError,
>)
    ensures
        match r {
            Ok(route) => match routes::route_of(
                config@,
                target@,
                opts.home@,
                hostspec::DEFAULT_SSH_PORT,
            ) {
                Ok((endpoint, gathered)) => {
                    &&& route.target@ == endpoint
                    &&& sshconfig::endpoints(route.jumps@) == gathered.jumps
                    &&& text::strings(route.unknown_options@) == gathered.unknown
                },
                Err(_) => false,
            },
            Err(e) => match routes::route_of(
                config@,
                target@,
                opts.home@,
                hostspec::DEFAULT_SSH_PORT,
            ) {
                Ok(_) => false,
                Err(why) => e@ == (Trouble::ProxyJump { target: target@, reason: why.text() }),
            },
        },
{
    match config.resolve_route(target, opts.home.as_str(), hostspec::DEFAULT_SSH_PORT) {
        Ok(route) => Ok(route),
        Err(e) => Err(
            TransportError::ProxyJump { target: target.to_owned(), reason: e.message() },
        ),
    }
}

// ---- hop by hop ------------------------------------------------------------
/// What is to be done next on the way along a route.
#[derive(Debug)]
pub enum ConnectStep {
    /// Connect to the first hop directly.
    Dial,
    /// Open a tunnel to a hop through the one before it.
    Tunnel {
        /// The hop.
        hop: usize,
    },
    /// Start a session with a hop over the tunnel.
    Handshake {
        /// The hop.
        hop: usize,
    },
    /// Log in at a hop.
    Authenticate {
        /// The hop.
        hop: usize,
        /// The user.
        user: String,
    },
    /// Nothing: the target is reached.
    Connected,
    /// Nothing: the target cannot be reached.
    Failed(TransportError),
}

/// How a step came out.
#[derive(Debug)]
pub enum ConnectEvent {
    /// The tunnel is open.
    Opened,
    /// The session has started.
    Joined,
    /// The step failed, and the check of the host key came out like this.
    Refused {
        /// Why it failed.
        reason: String,
        /// How the check came out.
        verdict: HostKeyVerdict,
    },
    /// The step took too long.
    TimedOut {
        /// What that is called.
        reason: String,
    },
    /// The login succeeded.
    LoggedIn,
    /// The login failed.
    LoginFailed(TransportError),
}

/// What is to be done next, as a mathematical value.
pub ghost enum StepModel {
    /// Connect to the first hop directly.
    Dial,
    /// Open a tunnel to a hop.
    Tunnel { hop: int },
    /// Start a session with a hop.
    Handshake { hop: int },
    /// Log in at a hop.
    Authenticate { hop: int, user: Seq<char> },
    /// The target is reached.
    Connected,
    /// The target cannot be reached.
    Failed(Trouble),
}

/// How a step came out, as a mathematical value.
pub ghost enum EventModel {
    /// The tunnel is open.
    Opened,
    /// The session has started.
    Joined,
    /// The step failed.
    Refused { reason: Seq<char>, verdict: Option<Trouble> },
    /// The step took too long.
    TimedOut { reason: Seq<char> },
    /// The login succeeded.
    LoggedIn,
    /// The login failed.
    LoginFailed(Trouble),
}

impl View for ConnectStep {
    type V = StepModel;

    open spec fn view(&self) -> StepModel {
        match *self {
            ConnectStep::Dial => StepModel::Dial,
            ConnectStep::Tunnel { hop } => StepModel::Tunnel { hop: hop as int },
            ConnectStep::Handshake { hop } => StepModel::Handshake { hop: hop as int },
            ConnectStep::Authenticate { hop, user } => StepModel::Authenticate {
                hop: hop as int,
                user: user@,
            },
            ConnectStep::Connected => StepModel::Connected,
            ConnectStep::Failed(e) => StepModel::Failed(e@),
        }
    }
}

impl View for ConnectEvent {
    type V = EventModel;

    open spec fn view(&self) -> EventModel {
        match *self {
            ConnectEvent::Opened => EventModel::Opened,
            ConnectEvent::Joined => EventModel::Joined,
            ConnectEvent::Refused { reason, verdict } => EventModel::Refused {
                reason: reason@,
                verdict: verdict.trouble(),
            },
            ConnectEvent::TimedOut { reason } => EventModel::TimedOut { reason: reason@ },
            ConnectEvent::LoggedIn => EventModel::LoggedIn,
            ConnectEvent::LoginFailed(e) => EventModel::LoginFailed(e@),
        }
    }
}

/// The hops of a route: the jump hosts, then the target.
pub open spec fn hops_of(route: ResolvedRoute) -> Seq<EndpointModel> {
    sshconfig::endpoints(route.jumps@).push(route.target@)
}

/// The user to log in as at a hop.
pub open spec fn user_at(hop: EndpointModel, default_user: Seq<char>) -> Seq<char> {
    sshconfig::or_else(hop.user, default_user)
}

/// The step that follows, given how the last one came out. A host key that was
/// rejected counts before any other reason.
pub open spec fn step_after(
    hops: Seq<EndpointModel>,
    default_user: Seq<char>,
    step: StepModel,
    event: EventModel,
) -> StepModel {
    match step {
        StepModel::Dial => match event {
            EventModel::Joined => StepModel::Authenticate {
                hop: 0,
                user: user_at(hops[0], default_user),
            },
            EventModel::Refused { reason, verdict } => StepModel::Failed(
                match verdict {
                    Some(e) => e,
                    None => hostkeys::connect_trouble(hops[0], hops.len() == 1, reason),
                },
            ),
            EventModel::TimedOut { reason } => StepModel::Failed(
                hostkeys::connect_trouble(hops[0], hops.len() == 1, reason),
            ),
            _ => step,
        },
        StepModel::Tunnel { hop } => match event {
            EventModel::Opened => StepModel::Handshake { hop },
            EventModel::Refused { reason, .. } => StepModel::Failed(
                Trouble::JumpConnect {
                    hop: hostkeys::label_of(hops[hop]),
                    reason: "opening tunnel through the previous hop: "@ + reason,
                },
            ),
            _ => step,
        },
        StepModel::Handshake { hop } => match event {
            EventModel::Joined => StepModel::Authenticate {
                hop,
                user: user_at(hops[hop], default_user),
            },
            EventModel::Refused { reason, verdict } => StepModel::Failed(
                match verdict {
                    Some(e) => e,
                    None => Trouble::JumpConnect { hop: hostkeys::label_of(hops[hop]), reason },
                },
            ),
            _ => step,
        },
        StepModel::Authenticate { hop, .. } => match event {
            EventModel::LoggedIn => if hop + 1 < hops.len() {
                StepModel::Tunnel { hop: hop + 1 }
            } else {
                StepModel::Connected
            },
            EventModel::LoginFailed(e) => StepModel::Failed(e),
            _ => step,
        },
        StepModel::Connected => step,
        StepModel::Failed(_) => step,
    }
}

/// The hop that a step is at lies on the route. The first hop is dialled, so a
/// tunnel leads to a later one.
pub open spec fn on_route(step: StepModel, n: nat) -> bool {
    match step {
        StepModel::Tunnel { hop } => 0 < hop < n,
        StepModel::Handshake { hop } => 0 < hop < n,
        StepModel::Authenticate { hop, .. } => 0 <= hop < n,
        _ => true,
    }
}

/// A hop of a route.
pub fn hop_at(route: &ResolvedRoute, hop: usize) -> (ep: &ResolvedEndpoint)
    requires
        hop <= route.jumps@.len(),
    ensures
        ep@ == hops_of(*route)[hop as int],
{
    if hop < route.jumps.len() {
        &route.jumps[hop]
    } else {
        &route.target
    }
}

fn login_user(ep: &ResolvedEndpoint, default_user: &str) -> (u: String)
    ensures
        u@ == user_at(ep@, default_user@),
{
    match &ep.user {
        Some(u) => u.as_str().to_owned(),
        None => default_user.to_owned(),
    }
}

/// The step that follows, given how the last one came out.
pub fn next_connect(
    route: &ResolvedRoute,
    opts: &SshOpts,
    step: ConnectStep,
    event: ConnectEvent,
) -> (next: ConnectStep)
    requires
        on_route(step@, hops_of(*route).len()),
    ensures
        next@ == step_after(hops_of(*route), opts.default_user@, step@, event@),
        on_route(next@, hops_of(*route).len()),
{
    match step {
        ConnectStep::Dial => match event {
            ConnectEvent::Joined => {
                let ep = hop_at(route, 0);
                ConnectStep::Authenticate {
                    hop: 0,
                    user: login_user(ep, opts.default_user.as_str()),
                }
            },
            ConnectEvent::Refused { reason, verdict } => {
                match hostkeys::host_key_error(&verdict) {
                    Some(e) => ConnectStep::Failed(e),
                    None => ConnectStep::Failed(
                        hostkeys::connect_error(
                            hop_at(route, 0),
                            route.jumps.len() == 0,
                            reason.as_str(),
                        ),
                    ),
                }
            },
            ConnectEvent::TimedOut { reason } => ConnectStep::Failed(
                hostkeys::connect_error(
                    hop_at(route, 0),
                    route.jumps.len() == 0,
                    reason.as_str(),
                ),
            ),
            _ => ConnectStep::Dial,
        },
        ConnectStep::Tunnel { hop } => match event {
            ConnectEvent::Opened => ConnectStep::Handshake { hop },
            ConnectEvent::Refused { reason, .. } => {
                let mut v = text::chars_of("opening tunnel through the previous hop: ");
                text::push_text(&mut v, reason.as_str());
                ConnectStep::Failed(
                    TransportError::JumpConnect {
                        hop: hostkeys::hop_label(hop_at(route, hop)),
                        reason: text::string_of(v.as_slice()),
                    },
                )
            },
            _ => ConnectStep::Tunnel { hop },
        },
        ConnectStep::Handshake { hop } => match event {
            ConnectEvent::Joined => ConnectStep::Authenticate {
                hop,
                user: login_user(hop_at(route, hop), opts.default_user.as_str()),
            },
            ConnectEvent::Refused { reason, verdict } => {
                match hostkeys::host_key_error(&verdict) {
                    Some(e) => ConnectStep::Failed(e),
                    None => ConnectStep::Failed(
                        TransportError::JumpConnect {
                            hop: hostkeys::hop_label(hop_at(route, hop)),
                            reason,
                        },
                    ),
                }
            },
            _ => ConnectStep::Handshake { hop },
        },
        ConnectStep::Authenticate { hop, user } => match event {
            ConnectEvent::LoggedIn => if hop < route.jumps.len() {
                ConnectStep::Tunnel { hop: hop + 1 }
            } else {
                ConnectStep::Connected
            },
            ConnectEvent::LoginFailed(e) => ConnectStep::Failed(e),
            _ => ConnectStep::Authenticate { hop, user },
        },
        ConnectStep::Connected => ConnectStep::Connected,
        ConnectStep::Failed(e) => ConnectStep::Failed(e),
    }
}

/// How many hops have been logged in at.
pub open spec fn logins(step: StepModel, n: nat) -> int {
    match step {
        StepModel::Dial => 0,
        StepModel::Tunnel { hop } => hop,
        StepModel::Handshake { hop } => hop,
        StepModel::Authenticate { hop, .. } => hop,
        StepModel::Connected => n as int,
        StepModel::Failed(_) => 0,
    }
}

/// The steps from the first one on, given how each came out.
pub open spec fn steps_after(
    hops: Seq<EndpointModel>,
    default_user: Seq<char>,
    events: Seq<EventModel>,
) -> StepModel
    decreases events.len(),
{
    if events.len() == 0 {
        StepModel::Dial
    } else {
        step_after(
            hops,
            default_user,
            steps_after(hops, default_user, events.drop_last()),
            events.last(),
        )
    }
}

/// The logins that succeeded, in order: at which hop, and as which user.
pub open spec fn logins_made(
    hops: Seq<EndpointModel>,
    default_user: Seq<char>,
    events: Seq<EventModel>,
) -> Seq<(int, Seq<char>)>
    decreases events.len(),
{
    if events.len() == 0 {
        seq![]
    } else {
        let made = logins_made(hops, default_user, events.drop_last());
        match steps_after(hops, default_user, events.drop_last()) {
            StepModel::Authenticate { hop, user } => if events.last() is LoggedIn {
                made.push((hop, user))
            } else {
                made
            },
            _ => made,
        }
    }
}

/// A login at each of the first `n` hops, one after the other, each as the user of its
/// hop.
pub open spec fn logins_due(
    hops: Seq<EndpointModel>,
    default_user: Seq<char>,
    n: nat,
) -> Seq<(int, Seq<char>)> {
    Seq::new(n, |k: int| (k, user_at(hops[k], default_user)))
}

proof fn logins_keep_the_order(
    hops: Seq<EndpointModel>,
    default_user: Seq<char>,
    events: Seq<EventModel>,
)
    requires
        hops.len() > 0,
    ensures
        ({
            let step = steps_after(hops, default_user, events);
            let made = logins_made(hops, default_user, events);
            &&& on_route(step, hops.len())
            &&& step matches StepModel::Authenticate { hop, user } ==> user == user_at(
                hops[hop],
                default_user,
            )
            &&& made.len() <= hops.len()
            &&& made == logins_due(hops, default_user, made.len())
            &&& !(step is Failed) ==> made.len() == logins(step, hops.len())
        }),
    decreases events.len(),
{
    let made = logins_made(hops, default_user, events);
    if events.len() > 0 {
        logins_keep_the_order(hops, default_user, events.drop_last());
        let before = logins_made(hops, default_user, events.drop_last());
        if made != before {
            assert(logins_due(hops, default_user, made.len()) =~= logins_due(
                hops,
                default_user,
                before.len(),
            ).push(made.last()));
        }
    } else {
        assert(made =~= logins_due(hops, default_user, 0));
    }
}

/// Law: the hops are logged in at in the order of the route, each once and as its own
/// user, whatever happens on the way.
pub proof fn hops_are_logged_in_at_in_order(
    hops: Seq<EndpointModel>,
    default_user: Seq<char>,
    events: Seq<EventModel>,
)
    requires
        hops.len() > 0,
    ensures
        ({
            let n = logins_made(hops, default_user, events).len();
            &&& n <= hops.len()
            &&& logins_made(hops, default_user, events) == logins_due(hops, default_user, n)
        }),
{
    logins_keep_the_order(hops, default_user, events);
}

/// Law: the target is reached only after a login at every hop of the route: hop by hop,
/// and at each as its user.
pub proof fn every_hop_is_logged_in_at(
    hops: Seq<EndpointModel>,
    default_user: Seq<char>,
    events: Seq<EventModel>,
)
    requires
        hops.len() > 0,
        steps_after(hops, default_user, events) is Connected,
    ensures
        logins_made(hops, default_user, events) == logins_due(hops, default_user, hops.len()),
{
    logins_keep_the_order(hops, default_user, events);
}

/// The events of a connection in which nothing goes wrong, up to the login at hop
/// `i`.
pub open spec fn good_events(i: nat) -> Seq<EventModel>
    decreases i,
{
    if i == 0 {
        seq![EventModel::Joined, EventModel::LoggedIn]
    } else {
        good_events((i - 1) as nat) + seq![
            EventModel::Opened,
            EventModel::Joined,
            EventModel::LoggedIn,
        ]
    }
}

/// Law: where nothing goes wrong, the hops are gone through in order and the target is
/// reached.
pub proof fn a_good_connection_arrives(
    hops: Seq<EndpointModel>,
    default_user: Seq<char>,
    i: nat,
)
    requires
        i < hops.len(),
    ensures
        steps_after(hops, default_user, good_events(i)) == (if i + 1 < hops.len() {
            StepModel::Tunnel { hop: i as int + 1 }
        } else {
            StepModel::Connected
        }),
    decreases i,
{
    if i == 0 {
        let all = good_events(0);
        let one = seq![EventModel::Joined];
        assert(all.drop_last() =~= one);
        assert(one.drop_last() =~= Seq::<EventModel>::empty());
        assert(steps_after(hops, default_user, one.drop_last()) == StepModel::Dial);
        assert(steps_after(hops, default_user, one) is Authenticate);
    } else {
        a_good_connection_arrives(hops, default_user, (i - 1) as nat);
        let before = good_events((i - 1) as nat);
        let one = before.push(EventModel::Opened);
        let two = one.push(EventModel::Joined);
        let three = two.push(EventModel::LoggedIn);
        assert(good_events(i) =~= three);
        assert(three.drop_last() =~= two);
        assert(two.drop_last() =~= one);
        assert(one.drop_last() =~= before);
        assert(steps_after(hops, default_user, one) == (StepModel::Handshake { hop: i as int }));
        assert(steps_after(hops, default_user, two) is Authenticate);
    }
}

// ---- logging in ------------------------------------------------------------
/// How the agent came out.
#[derive(Debug)]
pub enum AgentOutcome {
    /// One of its keys was accepted.
    Accepted,
    /// None of its keys was accepted.
    NoneAccepted,
    /// There is none.
    NoSocket,
    /// It cannot be reached.
    ConnectFailed(String),
    /// It does not list its keys.
    ListFailed(String),
    /// It does not sign.
    SignFailed(String),
}

/// How one of the agent's keys came out.
#[derive(Debug)]
pub enum SignOutcome {
    /// It was accepted.
    Accepted,
    /// It was rejected.
    Rejected,
    /// The agent does not sign.
    Failed(String),
}

/// How a key file came out.
#[derive(Debug)]
pub enum KeyOutcome {
    /// There is no such file.
    Absent,
    /// The key was accepted.
    Accepted,
    /// The key was rejected.
    Rejected,
    /// The login failed otherwise.
    Failed(String),
    /// The file cannot be used.
    Unusable(String),
}

/// What is to be done next to log in.
#[derive(Debug)]
pub enum LoginStep {
    /// Try the agent's keys.
    Agent,
    /// Try a key file.
    Key(String),
    /// Nothing: the login succeeded.
    LoggedIn,
    /// Nothing: there is nothing left to try.
    Failed(TransportError),
}

/// What is to be done next to log in, as a mathematical value.
pub ghost enum LoginStepModel {
    /// Try the agent's keys.
    Agent,
    /// Try a key file.
    Key(Seq<char>),
    /// The login succeeded.
    LoggedIn,
    /// There is nothing left to try.
    Failed(Trouble),
}

impl View for LoginStep {
    type V = LoginStepModel;

    open spec fn view(&self) -> LoginStepModel {
        match *self {
            LoginStep::Agent => LoginStepModel::Agent,
            LoginStep::Key(p) => LoginStepModel::Key(p@),
            LoginStep::LoggedIn => LoginStepModel::LoggedIn,
            LoginStep::Failed(e) => LoginStepModel::Failed(e@),
        }
    }
}

/// What one key of the agent decides: the next one is tried where it was rejected.
pub fn settle_identity(outcome: SignOutcome) -> (r: Option<AgentOutcome>)
    ensures
        match outcome {
            SignOutcome::Accepted => r == Some(AgentOutcome::Accepted),
            SignOutcome::Rejected => r is None,
            SignOutcome::Failed(e) => r == Some(AgentOutcome::SignFailed(e)),
        },
{
    match outcome {
        SignOutcome::Accepted => Some(AgentOutcome::Accepted),
        SignOutcome::Rejected => None,
        SignOutcome::Failed(e) => Some(AgentOutcome::SignFailed(e)),
    }
}

/// A login at one hop.
#[derive(Debug)]
pub struct Login {
    /// The user.
    pub user: String,
    /// The host.
    pub host: String,
    /// The key files to try.
    pub identities: Vec<String>,
    /// How many of them have been tried.
    pub at: usize,
    /// What has been tried, and why each failed.
    pub tried: Vec<String>,
}

/// A login at one hop, as a mathematical value.
#[verifier::ext_equal]
pub ghost struct LoginModel {
    /// The user.
    pub user: Seq<char>,
    /// The host.
    pub host: Seq<char>,
    /// The key files to try.
    pub identities: Seq<Seq<char>>,
    /// How many of them have been tried.
    pub at: int,
    /// What has been tried, and why each failed.
    pub tried: Seq<Seq<char>>,
}

impl View for Login {
    type V = LoginModel;

    open spec fn view(&self) -> LoginModel {
        LoginModel {
            user: self.user@,
            host: self.host@,
            identities: text::strings(self.identities@),
            at: self.at as int,
            tried: text::strings(self.tried@),
        }
    }
}

/// The key files to try at a hop: the caller's, then the configured ones, each
/// once.
pub open spec fn identities_of(own: Seq<Seq<char>>, hop: EndpointModel) -> Seq<Seq<char>> {
    filepath::with_paths(filepath::with_paths(seq![], own), hop.identity_files)
}

/// What is said of the agent where it did not help.
pub open spec fn agent_text(outcome: AgentOutcome) -> Seq<char> {
    match outcome {
        AgentOutcome::Accepted => seq![],
        AgentOutcome::NoneAccepted => "ssh-agent (no identity accepted)"@,
        AgentOutcome::NoSocket => "ssh-agent (no SSH_AUTH_SOCK)"@,
        AgentOutcome::ConnectFailed(e) => "ssh-agent (connect: "@ + e@ + ")"@,
        AgentOutcome::ListFailed(e) => "ssh-agent (request identities: "@ + e@ + ")"@,
        AgentOutcome::SignFailed(e) => "ssh-agent (sign: "@ + e@ + ")"@,
    }
}

/// What is said of a key file that did not help; nothing where it is absent.
pub open spec fn key_text(path: Seq<char>, outcome: KeyOutcome) -> Option<Seq<char>> {
    match outcome {
        KeyOutcome::Absent => None,
        KeyOutcome::Accepted => None,
        KeyOutcome::Rejected => Some(path + " (rejected)"@),
        KeyOutcome::Failed(e) => Some(path + " ("@ + e@ + ")"@),
        KeyOutcome::Unusable(e) => Some(
            path + " (unusable: "@ + e@
                + "; passphrase-encrypted keys are not supported yet)"@,
        ),
    }
}

/// The step that follows where the login has not succeeded: the next key file, or
/// a failure that names what was tried.
pub open spec fn next_key(m: LoginModel) -> LoginStepModel {
    if m.at < m.identities.len() {
        LoginStepModel::Key(m.identities[m.at])
    } else {
        LoginStepModel::Failed(
            Trouble::AuthFailed {
                user: m.user,
                host: m.host,
                detail: text::join(m.tried, "; "@),
            },
        )
    }
}

/// The login as it begins, before the agent is tried.
pub open spec fn login_of(own: Seq<Seq<char>>, hop: EndpointModel, user: Seq<char>) -> LoginModel {
    LoginModel {
        user,
        host: hop.host_name,
        identities: identities_of(own, hop),
        at: 0,
        tried: if hop.identities_only {
            seq!["ssh-agent (skipped: IdentitiesOnly yes)"@]
        } else {
            seq![]
        },
    }
}

fn add_paths(l: &mut Vec<String>, more: &Vec<String>)
    ensures
        text::strings(final(l)@) == filepath::with_paths(
            text::strings(old(l)@),
            text::strings(more@),
        ),
{
    let ghost start = text::strings(l@);
    let ghost model = text::strings(more@);
    let mut i: usize = 0;
    assert(model.take(0) =~= Seq::<Seq<char>>::empty());
    while i < more.len()
        invariant
            i <= more@.len(),
            model == text::strings(more@),
            text::strings(l@) == filepath::with_paths(start, model.take(i as int)),
        decreases more@.len() - i,
    {
        proof {
            assert(model.take(i + 1).drop_last() =~= model.take(i as int));
            assert(model.take(i + 1).last() == more@[i as int]@);
        }
        filepath::add_path(l, more[i].as_str().to_owned());
        i = i + 1;
    }
    assert(model.take(i as int) =~= model);
}

impl Login {
    /// Begin to log in at a hop: with the agent, unless the hop's own keys alone
    /// are to be offered.
    pub fn start(ep: &ResolvedEndpoint, user: &str, opts: &SshOpts) -> (r: (Login, LoginStep))
        ensures
            r.0@ == login_of(text::strings(opts.identity_files@), ep@, user@),
            r.1@ == (if ep@.identities_only {
                next_key(r.0@)
            } else {
                LoginStepModel::Agent
            }),
    {
        let mut identities: Vec<String> = Vec::new();
        assert(text::strings(identities@) =~= Seq::<Seq<char>>::empty());
        add_paths(&mut identities, &opts.identity_files);
        add_paths(&mut identities, &ep.identity_files);
        let mut tried: Vec<String> = Vec::new();
        if ep.identities_only {
            tried.push("ssh-agent (skipped: IdentitiesOnly yes)".to_owned());
        }
        let login = Login {
            user: user.to_owned(),
            host: ep.host_name.as_str().to_owned(),
            identities,
            at: 0,
            tried,
        };
        assert(login@ =~= login_of(text::strings(opts.identity_files@), ep@, user@));
        let step = if ep.identities_only {
            login.next_step()
        } else {
            LoginStep::Agent
        };
        (login, step)
    }

    fn next_step(&self) -> (s: LoginStep)
        ensures
            s@ == next_key(self@),
    {
        if self.at < self.identities.len() {
            LoginStep::Key(self.identities[self.at].as_str().to_owned())
        } else {
            LoginStep::Failed(
                TransportError::AuthFailed {
                    user: self.user.as_str().to_owned(),
                    host: self.host.as_str().to_owned(),
                    detail: words::join_strings(&self.tried, "; "),
                },
            )
        }
    }

    /// What follows once the agent was tried.
    pub fn after_agent(&mut self, outcome: AgentOutcome) -> (s: LoginStep)
        ensures
            match outcome {
                AgentOutcome::Accepted => s@ is LoggedIn && final(self)@ == old(self)@,
                _ => {
                    &&& final(self)@ == (LoginModel {
                        tried: old(self)@.tried.push(agent_text(outcome)),
                        ..old(self)@
                    })
                    &&& s@ == next_key(final(self)@)
                },
            },
    {
        let said = match outcome {
            AgentOutcome::Accepted => {
                return LoginStep::LoggedIn;
            },
            AgentOutcome::NoneAccepted => "ssh-agent (no identity accepted)".to_owned(),
            AgentOutcome::NoSocket => "ssh-agent (no SSH_AUTH_SOCK)".to_owned(),
            AgentOutcome::ConnectFailed(e) => text::three("ssh-agent (connect: ", e.as_str(), ")"),
            AgentOutcome::ListFailed(e) => text::three(
                "ssh-agent (request identities: ",
                e.as_str(),
                ")",
            ),
            AgentOutcome::SignFailed(e) => text::three("ssh-agent (sign: ", e.as_str(), ")"),
        };
        let ghost before = self@;
        self.tried.push(said);
        proof {
            assert(text::strings(self.tried@) =~= before.tried.push(said@));
            assert(self@ =~= (LoginModel { tried: before.tried.push(said@), ..before }));
        }
        self.next_step()
    }

    /// What follows once the key file that was to be tried was tried.
    pub fn after_key(&mut self, outcome: KeyOutcome) -> (s: LoginStep)
        requires
            old(self)@.at < old(self)@.identities.len(),
        ensures
            match outcome {
                KeyOutcome::Accepted => s@ is LoggedIn && final(self)@ == old(self)@,
                _ => {
                    &&& final(self)@ == (LoginModel {
                        at: old(self)@.at + 1,
                        tried: match key_text(
                            old(self)@.identities[old(self)@.at],
                            outcome,
                        ) {
                            Some(t) => old(self)@.tried.push(t),
                            None => old(self)@.tried,
                        },
                        ..old(self)@
                    })
                    &&& s@ == next_key(final(self)@)
                },
            },
    {
        let ghost before = self@;
        let total: usize = self.identities.len();
        assert(self.at < total);
        let path = self.identities[self.at].as_str().to_owned();
        assert(path@ == before.identities[before.at]);
        let said: Option<String> = match outcome {
            KeyOutcome::Absent => None,
            KeyOutcome::Accepted => {
                return LoginStep::LoggedIn;
            },
            KeyOutcome::Rejected => Some(text::three(path.as_str(), " (rejected)", "")),
            KeyOutcome::Failed(e) => {
                let front = text::three(path.as_str(), " (", e.as_str());
                Some(text::three(front.as_str(), ")", ""))
            },
            KeyOutcome::Unusable(e) => {
                let front = text::three(path.as_str(), " (unusable: ", e.as_str());
                Some(
                    text::three(
                        front.as_str(),
                        "; passphrase-encrypted keys are not supported yet)",
                        "",
                    ),
                )
            },
        };
        proof {
            reveal_strlit("");
            if said is Some {
                assert(said->0@ =~= key_text(path@, outcome).unwrap());
            }
        }
        match said {
            None => {},
            Some(t) => {
                let ghost tv = t@;
                self.tried.push(t);
                assert(text::strings(self.tried@) =~= before.tried.push(tv));
            },
        }
        self.at = self.at + 1;
        self.next_step()
    }
}

/// Each key file is tried at most once: no two that are tried name the same file.
pub proof fn keys_are_tried_once(own: Seq<Seq<char>>, hop: EndpointModel)
    ensures
        forall|i: int, j: int|
            0 <= i < j < identities_of(own, hop).len() ==> !filepath::same_path(
                #[trigger] identities_of(own, hop)[i],
                #[trigger] identities_of(own, hop)[j],
            ),
{
    filepath::paths_stay_distinct(seq![], own);
    filepath::paths_stay_distinct(filepath::with_paths(seq![], own), hop.identity_files);
}

} // verus!
