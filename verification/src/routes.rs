//! Routes through jump hosts.
//!
//! A configuration may send a connection to a host through others, each of them
//! named as `[user@]host[:port]` and resolved by the same configuration. The jump
//! hosts of a route stand in the order in which they are connected to: before a
//! host, those that it is reached through.

use crate::hostspec;
use crate::sshconfig;
use crate::sshconfig::{EndpointModel, HopSpec, ResolvedEndpoint, ResolvedRoute, RouteError, RouteFault};
use crate::sshhost;
use crate::sshlines;
use crate::sshlines::{Line, LineModel};
use crate::text;
use crate::words;
use vstd::prelude::*;

verus! {

/// A configuration: its lines in order.
#[derive(Debug, Clone)]
pub struct SshConfig {
    /// The lines.
    pub lines: Vec<Line>,
}

impl View for SshConfig {
    type V = Seq<LineModel>;

    open spec fn view(&self) -> Seq<LineModel> {
        sshlines::line_models(self.lines@)
    }
}

impl Default for SshConfig {
    fn default() -> (c: Self)
        ensures
            c@ == Seq::<LineModel>::empty(),
    {
        let c = SshConfig { lines: Vec::new() };
        assert(c@ =~= Seq::<LineModel>::empty());
        c
    }
}

// ---- the chain of hops -----------------------------------------------------
/// What has been gathered of a route so far.
#[verifier::ext_equal]
pub ghost struct ChainModel {
    /// The jump hosts, in the order in which they are connected to.
    pub jumps: Seq<EndpointModel>,
    /// The hosts that were met.
    pub visited: Seq<Seq<char>>,
    /// The keywords that meant nothing, each once.
    pub unknown: Seq<Seq<char>>,
}

/// The hops that are named: what stands between commas, trimmed. Where nothing
/// is left of one, as at a stray comma, it is a hop without a host.
pub open spec fn hops_named(parts: Seq<Seq<char>>) -> Seq<Seq<char>> {
    parts.map_values(|p: Seq<char>| text::trim(p))
}

/// The hops that a host is reached through: none where none are named, or where
/// the word `none` stands.
pub open spec fn hops_before(proxy_jump: Option<Seq<char>>) -> Seq<Seq<char>> {
    match proxy_jump {
        Some(p) => if words::lowered(p) == "none"@ {
            seq![]
        } else {
            hops_named(text::split(p, ','))
        },
        None => seq![],
    }
}

/// One hop, and what has been gathered when those before it have been resolved.
/// It fails where the chain is too deep, the hop has no host, or its host was met
/// before.
pub open spec fn chain_of(
    lines: Seq<LineModel>,
    hop_text: Seq<char>,
    home: Seq<char>,
    default_port: u16,
    st: ChainModel,
    depth: int,
) -> Result<(EndpointModel, ChainModel), RouteFault>
    decreases sshconfig::MAX_DEPTH - depth, 1int, 0int,
{
    if depth >= sshconfig::MAX_DEPTH {
        Err(RouteFault::DepthExceeded { max: sshconfig::MAX_DEPTH })
    } else {
        match sshconfig::hop_of(hop_text) {
            None => Err(RouteFault::EmptyHost { spec: text::trim(hop_text) }),
            Some(hop) => if st.visited.contains(hop.host) {
                Err(RouteFault::Cycle { alias: hop.host })
            } else {
                let raw = sshhost::folded(lines, hop.host).1;
                let met = ChainModel {
                    jumps: st.jumps,
                    visited: st.visited.push(hop.host),
                    unknown: words::extended(st.unknown, raw.unknown),
                };
                match hops_of(
                    lines,
                    hops_before(raw.proxy_jump),
                    home,
                    default_port,
                    met,
                    depth,
                ) {
                    Err(e) => Err(e),
                    Ok(gathered) => Ok(
                        (sshconfig::endpoint_of(raw, hop, home, default_port), gathered),
                    ),
                }
            },
        }
    }
}

/// What has been gathered when these hops have been resolved in order.
pub open spec fn hops_of(
    lines: Seq<LineModel>,
    hops: Seq<Seq<char>>,
    home: Seq<char>,
    default_port: u16,
    st: ChainModel,
    depth: int,
) -> Result<ChainModel, RouteFault>
    decreases sshconfig::MAX_DEPTH - depth, 0int, hops.len(),
{
    if hops.len() == 0 || depth >= sshconfig::MAX_DEPTH {
        Ok(st)
    } else {
        match hops_of(lines, hops.drop_last(), home, default_port, st, depth) {
            Err(e) => Err(e),
            Ok(before) => match chain_of(
                lines,
                hops.last(),
                home,
                default_port,
                before,
                depth + 1,
            ) {
                Err(e) => Err(e),
                Ok((endpoint, after)) => Ok(
                    ChainModel { jumps: after.jumps.push(endpoint), ..after },
                ),
            },
        }
    }
}

/// Nothing gathered.
pub open spec fn nothing_met() -> ChainModel {
    ChainModel { jumps: seq![], visited: seq![], unknown: seq![] }
}

/// The route to a target.
pub open spec fn route_of(
    lines: Seq<LineModel>,
    target: Seq<char>,
    home: Seq<char>,
    default_port: u16,
) -> Result<(EndpointModel, ChainModel), RouteFault> {
    chain_of(lines, target, home, default_port, nothing_met(), 0)
}

/// What has been gathered of a route so far.
struct Chain {
    jumps: Vec<ResolvedEndpoint>,
    visited: Vec<String>,
    unknown: Vec<String>,
}

impl Chain {
    spec fn model(&self) -> ChainModel {
        ChainModel {
            jumps: sshconfig::endpoints(self.jumps@),
            visited: text::strings(self.visited@),
            unknown: text::strings(self.unknown@),
        }
    }
}

/// The hops that a host is reached through.
fn read_hops_before(proxy_jump: &Option<String>) -> (hops: Vec<String>)
    ensures
        text::strings(hops@) == hops_before(hostspec::optional_text(*proxy_jump)),
{
    let mut hops: Vec<String> = Vec::new();
    assert(text::strings(hops@) =~= Seq::<Seq<char>>::empty());
    match proxy_jump {
        None => {},
        Some(p) => {
            let chars = text::chars_of(p.as_str());
            let word = words::lower_chars(chars.as_slice());
            if !text::reads(word.as_slice(), "none") {
                let parts = text::split_chars(chars.as_slice(), ',');
                let mut i: usize = 0;
                while i < parts.len()
                    invariant
                        i <= parts@.len(),
                        hops@.len() == i,
                        forall|j: int|
                            0 <= j < i ==> (#[trigger] hops@[j])@ == text::trim(parts@[j]@),
                    decreases parts@.len() - i,
                {
                    let part = text::trim_chars(parts[i].as_slice());
                    hops.push(text::string_of(part.as_slice()));
                    i = i + 1;
                }
                assert(text::strings(hops@) =~= hops_named(text::texts(parts@)));
            }
        },
    }
    hops
}

impl SshConfig {
    /// Read a configuration. Files that it names are left out.
    pub fn parse(content: &str) -> (c: SshConfig)
        ensures
            c@ == sshlines::lines_of(text::split(content@, '\n')),
    {
        SshConfig { lines: sshlines::parse_lines(content) }
    }

    /// Resolve one hop, after those that it is reached through.
    fn build_chain(
        &self,
        hop_text: &str,
        home: &str,
        default_port: u16,
        chain: &mut Chain,
        depth: usize,
    ) -> (r: Result<ResolvedEndpoint, RouteError>)
        requires
            depth <= sshconfig::MAX_DEPTH,
        ensures
            match r {
                Ok(e) => chain_of(
                    self@,
                    hop_text@,
                    home@,
                    default_port,
                    old(chain).model(),
                    depth as int,
                ) == Ok::<(EndpointModel, ChainModel), RouteFault>((e@, final(chain).model())),
                Err(e) => chain_of(
                    self@,
                    hop_text@,
                    home@,
                    default_port,
                    old(chain).model(),
                    depth as int,
                ) == Err::<(EndpointModel, ChainModel), RouteFault>(e@),
            },
        decreases sshconfig::MAX_DEPTH - depth,
    {
        let ghost start = chain.model();
        if depth >= sshconfig::MAX_DEPTH {
            return Err(RouteError::DepthExceeded { max: sshconfig::MAX_DEPTH });
        }
        let hop = match HopSpec::parse(hop_text) {
            Ok(h) => h,
            Err(e) => {
                return Err(e);
            },
        };
        if words::lists_text(&chain.visited, hop.host.as_str()) {
            return Err(RouteError::Cycle { alias: hop.host });
        }
        chain.visited.push(hop.host.as_str().to_owned());
        let raw = sshhost::resolve_raw(&self.lines, hop.host.as_str());
        words::add_texts(&mut chain.unknown, &raw.unknown);
        let hops = read_hops_before(&raw.proxy_jump);
        let ghost met = chain.model();
        let ghost model = text::strings(hops@);
        let ghost expected = ChainModel {
            jumps: start.jumps,
            visited: start.visited.push(hop@.host),
            unknown: words::extended(start.unknown, raw@.unknown),
        };
        proof {
            assert(text::strings(chain.visited@) =~= start.visited.push(hop@.host));
            assert(met =~= expected);
            assert(model.take(0) =~= Seq::<Seq<char>>::empty());
        }
        let mut i: usize = 0;
        while i < hops.len()
            invariant
                i <= hops@.len(),
                depth < sshconfig::MAX_DEPTH,
                start == old(chain).model(),
                model == text::strings(hops@),
                hops_of(self@, model.take(i as int), home@, default_port, met, depth as int)
                    == Ok::<ChainModel, RouteFault>(chain.model()),
                chain_of(self@, hop_text@, home@, default_port, start, depth as int)
                    == (match hops_of(self@, model, home@, default_port, met, depth as int) {
                    Err(e) => Err(e),
                    Ok(gathered) => Ok(
                        (sshconfig::endpoint_of(raw@, hop@, home@, default_port), gathered),
                    ),
                }),
            decreases hops@.len() - i,
        {
            proof {
                assert(model.take(i + 1).drop_last() =~= model.take(i as int));
                assert(model.take(i + 1).last() == hops@[i as int]@);
            }
            match self.build_chain(hops[i].as_str(), home, default_port, chain, depth + 1) {
                Ok(jump) => {
                    let ghost before = chain.model();
                    chain.jumps.push(jump);
                    proof {
                        assert(chain.model() =~= (ChainModel {
                            jumps: before.jumps.push(jump@),
                            ..before
                        }));
                    }
                },
                Err(e) => {
                    proof {
                        first_failure_decides(
                            self@,
                            model,
                            i as int + 1,
                            home@,
                            default_port,
                            met,
                            depth as int,
                        );
                    }
                    return Err(e);
                },
            }
            i = i + 1;
        }
        assert(model.take(i as int) =~= model);
        Ok(raw.into_endpoint(&hop, home, default_port))
    }

    /// Resolve a target into a route. It fails where the chain of jump hosts comes
    /// back to a host, is too deep, or names a hop without a host.
    pub fn resolve_route(&self, target: &str, home: &str, default_port: u16) -> (r: Result<
        ResolvedRoute,
        RouteError,
    >)
        ensures
            match r {
                Ok(route) => match route_of(self@, target@, home@, default_port) {
                    Ok((endpoint, gathered)) => {
                        &&& route.target@ == endpoint
                        &&& sshconfig::endpoints(route.jumps@) == gathered.jumps
                        &&& text::strings(route.unknown_options@) == gathered.unknown
                    },
                    Err(_) => false,
                },
                Err(e) => route_of(self@, target@, home@, default_port) == Err::<
                    (EndpointModel, ChainModel),
                    RouteFault,
                >(e@),
            },
    {
        let mut chain = Chain { jumps: Vec::new(), visited: Vec::new(), unknown: Vec::new() };
        assert(chain.model() =~= nothing_met());
        match self.build_chain(target, home, default_port, &mut chain, 0) {
            Ok(endpoint) => Ok(
                ResolvedRoute {
                    jumps: chain.jumps,
                    target: endpoint,
                    unknown_options: chain.unknown,
                },
            ),
            Err(e) => Err(e),
        }
    }
}

/// A failure among the first hops is the failure of all of them.
proof fn first_failure_decides(
    lines: Seq<LineModel>,
    hops: Seq<Seq<char>>,
    n: int,
    home: Seq<char>,
    default_port: u16,
    st: ChainModel,
    depth: int,
)
    requires
        0 <= n <= hops.len(),
        hops_of(lines, hops.take(n), home, default_port, st, depth) is Err,
    ensures
        hops_of(lines, hops, home, default_port, st, depth) == hops_of(
            lines,
            hops.take(n),
            home,
            default_port,
            st,
            depth,
        ),
    decreases hops.len(),
{
    if n == hops.len() {
        assert(hops.take(n) =~= hops);
    } else {
        assert(hops.drop_last().take(n) =~= hops.take(n));
        first_failure_decides(lines, hops.drop_last(), n, home, default_port, st, depth);
    }
}

/// The key files that a configuration names for a host, in order, each once.
pub fn identity_files_for(content: &str, host: &str, home: &str) -> (r: Vec<String>)
    ensures
        text::strings(r@) == sshconfig::key_files(
            sshhost::folded(sshlines::lines_of(text::split(content@, '\n')), host@).1.identity_files,
            home@,
        ),
{
    let config = SshConfig::parse(content);
    let raw = sshhost::resolve_raw(&config.lines, host);
    sshconfig::collect_key_files(&raw.identity_files, home)
}

// ---- laws ------------------------------------------------------------------
/// No two jump hosts have the same name, and each was met.
pub open spec fn distinct_jumps(st: ChainModel) -> bool {
    &&& forall|i: int, j: int|
        0 <= i < j < st.jumps.len() ==> (#[trigger] st.jumps[i]).alias != (
        #[trigger] st.jumps[j]).alias
    &&& forall|i: int|
        0 <= i < st.jumps.len() ==> st.visited.contains((#[trigger] st.jumps[i]).alias)
}

/// `after` has more than `before`, and the jump hosts that it has more are none
/// that `before` had met.
pub open spec fn chain_grows(before: ChainModel, after: ChainModel) -> bool {
    &&& before.visited.is_prefix_of(after.visited)
    &&& before.jumps.is_prefix_of(after.jumps)
    &&& forall|i: int|
        before.jumps.len() <= i < after.jumps.len() ==> !before.visited.contains(
            (#[trigger] after.jumps[i]).alias,
        )
}

proof fn prefix_contains(a: Seq<Seq<char>>, b: Seq<Seq<char>>, x: Seq<char>)
    requires
        a.is_prefix_of(b),
        a.contains(x),
    ensures
        b.contains(x),
{
    let i = choose|i: int| 0 <= i < a.len() && a[i] == x;
    assert(b[i] == a[i]);
}

proof fn growth_chains(a: ChainModel, b: ChainModel, c: ChainModel)
    requires
        chain_grows(a, b),
        chain_grows(b, c),
    ensures
        chain_grows(a, c),
{
    assert forall|i: int| a.jumps.len() <= i < c.jumps.len() implies !a.visited.contains(
        (#[trigger] c.jumps[i]).alias,
    ) by {
        if i < b.jumps.len() {
            assert(c.jumps[i] == b.jumps[i]);
        } else if a.visited.contains(c.jumps[i].alias) {
            prefix_contains(a.visited, b.visited, c.jumps[i].alias);
        }
    }
}

proof fn chain_keeps_distinct(
    lines: Seq<LineModel>,
    hop_text: Seq<char>,
    home: Seq<char>,
    default_port: u16,
    st: ChainModel,
    depth: int,
)
    requires
        distinct_jumps(st),
    ensures
        match chain_of(lines, hop_text, home, default_port, st, depth) {
            Ok((e, after)) => {
                &&& distinct_jumps(after)
                &&& chain_grows(st, after)
                &&& !st.visited.contains(e.alias)
                &&& after.visited.contains(e.alias)
                &&& forall|i: int|
                    0 <= i < after.jumps.len() ==> (#[trigger] after.jumps[i]).alias != e.alias
            },
            Err(_) => true,
        },
    decreases sshconfig::MAX_DEPTH - depth, 1int, 0int,
{
    match chain_of(lines, hop_text, home, default_port, st, depth) {
        Err(_) => {},
        Ok((e, after)) => {
            let hop = sshconfig::hop_of(hop_text).unwrap();
            let raw = sshhost::folded(lines, hop.host).1;
            let met = ChainModel {
                jumps: st.jumps,
                visited: st.visited.push(hop.host),
                unknown: words::extended(st.unknown, raw.unknown),
            };
            assert(met.visited[st.visited.len() as int] == hop.host);
            assert(st.visited.is_prefix_of(met.visited));
            assert forall|i: int| 0 <= i < met.jumps.len() implies met.visited.contains(
                (#[trigger] met.jumps[i]).alias,
            ) by {
                prefix_contains(st.visited, met.visited, st.jumps[i].alias);
            }
            let hops = hops_before(raw.proxy_jump);
            hops_keep_distinct(lines, hops, home, default_port, met, depth);
            growth_chains(st, met, after);
            assert(met.visited.contains(hop.host));
            prefix_contains(met.visited, after.visited, hop.host);
            assert forall|i: int| 0 <= i < after.jumps.len() implies (
            #[trigger] after.jumps[i]).alias != hop.host by {
                if i < met.jumps.len() {
                    assert(after.jumps[i] == st.jumps[i]);
                    assert(st.visited.contains(st.jumps[i].alias));
                }
            }
        },
    }
}

proof fn hops_keep_distinct(
    lines: Seq<LineModel>,
    hops: Seq<Seq<char>>,
    home: Seq<char>,
    default_port: u16,
    st: ChainModel,
    depth: int,
)
    requires
        distinct_jumps(st),
    ensures
        match hops_of(lines, hops, home, default_port, st, depth) {
            Ok(after) => distinct_jumps(after) && chain_grows(st, after),
            Err(_) => true,
        },
    decreases sshconfig::MAX_DEPTH - depth, 0int, hops.len(),
{
    if hops.len() > 0 && depth < sshconfig::MAX_DEPTH {
        hops_keep_distinct(lines, hops.drop_last(), home, default_port, st, depth);
        match hops_of(lines, hops.drop_last(), home, default_port, st, depth) {
            Err(_) => {},
            Ok(before) => {
                chain_keeps_distinct(lines, hops.last(), home, default_port, before, depth + 1);
                match chain_of(lines, hops.last(), home, default_port, before, depth + 1) {
                    Err(_) => {},
                    Ok((e, mid)) => {
                        let after = ChainModel { jumps: mid.jumps.push(e), ..mid };
                        assert(chain_grows(before, after)) by {
                            assert(before.jumps.is_prefix_of(after.jumps));
                        }
                        growth_chains(st, before, after);
                    },
                }
            },
        }
    }
}

/// No host occurs twice on a route: not among the jump hosts, and the target is
/// none of them.
pub proof fn no_host_occurs_twice(
    lines: Seq<LineModel>,
    target: Seq<char>,
    home: Seq<char>,
    default_port: u16,
)
    ensures
        match route_of(lines, target, home, default_port) {
            Ok((endpoint, gathered)) => {
                &&& forall|i: int, j: int|
                    0 <= i < j < gathered.jumps.len() ==> (#[trigger] gathered.jumps[i]).alias != (
                    #[trigger] gathered.jumps[j]).alias
                &&& forall|i: int|
                    0 <= i < gathered.jumps.len() ==> (#[trigger] gathered.jumps[i]).alias
                        != endpoint.alias
            },
            Err(_) => true,
        },
{
    chain_keeps_distinct(lines, target, home, default_port, nothing_met(), 0);
}

/// A value that is set stays as it is.
pub open spec fn settled<T>(before: Option<T>, after: Option<T>) -> bool {
    before is Some ==> after == before
}

/// Of everything but key files the first value obtained counts: lines that come
/// later change no value that is set. Key files accumulate in order.
pub proof fn the_first_value_counts(
    lines: Seq<LineModel>,
    later: Seq<LineModel>,
    host: Seq<char>,
)
    ensures
        ({
            let before = sshhost::folded(lines, host).1;
            let after = sshhost::folded(lines + later, host).1;
            &&& settled(before.host_name, after.host_name)
            &&& settled(before.user, after.user)
            &&& settled(before.port, after.port)
            &&& settled(before.identities_only, after.identities_only)
            &&& settled(before.strict, after.strict)
            &&& settled(before.known_hosts, after.known_hosts)
            &&& settled(before.global_known_hosts, after.global_known_hosts)
            &&& settled(before.proxy_jump, after.proxy_jump)
            &&& before.identity_files.is_prefix_of(after.identity_files)
            &&& before.unknown.is_prefix_of(after.unknown)
        }),
    decreases later.len(),
{
    if later.len() == 0 {
        assert(lines + later =~= lines);
    } else {
        the_first_value_counts(lines, later.drop_last(), host);
        assert((lines + later).drop_last() =~= lines + later.drop_last());
        assert((lines + later).last() == later.last());
    }
}

/// A user and a port that are written in the target count before those of the
/// configuration.
pub proof fn what_is_written_counts_first(
    lines: Seq<LineModel>,
    target: Seq<char>,
    home: Seq<char>,
    default_port: u16,
)
    ensures
        match route_of(lines, target, home, default_port) {
            Ok((endpoint, _)) => match sshconfig::hop_of(target) {
                Some(hop) => {
                    &&& endpoint.alias == hop.host
                    &&& hop.user is Some ==> endpoint.user == hop.user
                    &&& hop.port is Some ==> Some(endpoint.port) == hop.port
                },
                None => false,
            },
            Err(_) => true,
        },
{
}

} // verus!
