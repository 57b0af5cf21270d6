//! Which binary can be pushed to a remote.

use crate::text;
use crate::transport::{TransportError, Trouble};
use crate::triple;
use crate::words;
use vstd::prelude::*;

verus! {

/// A binary that is ready to push.
#[derive(Debug, Clone, PartialEq, Eq)]
pub struct BinarySource {
    /// The triple that the binary will be named for.
    pub triple: String,
    /// The bytes of the binary.
    pub bytes: Vec<u8>,
    /// Whether it is for another C runtime than the one asked for.
    pub dev_substitution: bool,
}

/// How the running binary can serve a remote.
#[derive(Debug, Clone, Copy, PartialEq, Eq, Structural)]
pub struct BinaryPlan {
    /// Whether it is for another C runtime than the one asked for.
    pub dev_substitution: bool,
}

/// How a binary that was built for one triple can serve another: it is the same;
/// or, in a development build, processor and system are told by both triples and
/// are the same.
pub open spec fn plan_of(requested: Seq<char>, built_for: Seq<char>, dev_build: bool) -> Option<
    BinaryPlan,
> {
    if requested == built_for {
        Some(BinaryPlan { dev_substitution: false })
    } else if dev_build && triple::arch_os_of(requested) is Some && triple::arch_os_of(requested)
        == triple::arch_os_of(built_for) {
        Some(BinaryPlan { dev_substitution: true })
    } else {
        None
    }
}

/// Whether two triples tell processor and system, and they are the same.
fn same_arch_os(a: &str, b: &str) -> (r: bool)
    ensures
        r == (triple::arch_os_of(a@) is Some && triple::arch_os_of(a@) == triple::arch_os_of(b@)),
{
    match (triple::arch_os(a), triple::arch_os(b)) {
        (Some((x, o)), Some((y, p))) => text::same_text(x, y) && text::same_text(o, p),
        _ => false,
    }
}

/// Decide whether the running binary, which was built for `built_for`, can serve
/// a remote of the `requested` triple.
pub fn plan_binary(requested: &str, built_for: &str, dev_build: bool) -> (r: Result<
    BinaryPlan,
    TransportError,
>)
    ensures
        match r {
            Ok(p) => plan_of(requested@, built_for@, dev_build) == Some(p),
            Err(e) => plan_of(requested@, built_for@, dev_build) is None && e@ == (
            Trouble::UnsupportedTarget {
                detected: requested@,
                supported: triple::supported_text(),
            }),
        },
{
    if text::same_text(requested, built_for) {
        return Ok(BinaryPlan { dev_substitution: false });
    }
    if dev_build && same_arch_os(requested, built_for) {
        return Ok(BinaryPlan { dev_substitution: true });
    }
    Err(
        TransportError::UnsupportedTarget {
            detected: requested.to_owned(),
            supported: triple::supported_list(),
        },
    )
}

/// The binary to push, given the bytes of the running one.
///
/// The error is that it cannot serve the remote.
pub fn binary_for_triple(requested: &str, built_for: &str, dev_build: bool, exe: Vec<u8>) -> (r:
    Result<BinarySource, TransportError>)
    ensures
        match r {
            Ok(s) => {
                &&& plan_of(requested@, built_for@, dev_build) == Some(
                    BinaryPlan { dev_substitution: s.dev_substitution },
                )
                &&& s.triple@ == requested@
                &&& s.bytes == exe
            },
            Err(e) => plan_of(requested@, built_for@, dev_build) is None && e@ == (
            Trouble::UnsupportedTarget {
                detected: requested@,
                supported: triple::supported_text(),
            }),
        },
{
    match plan_binary(requested, built_for, dev_build) {
        Ok(plan) => Ok(
            BinarySource {
                triple: requested.to_owned(),
                bytes: exe,
                dev_substitution: plan.dev_substitution,
            },
        ),
        Err(e) => Err(e),
    }
}

/// Law: outside development builds only a binary for the very triple is pushed.
pub proof fn releases_are_strict(requested: Seq<char>, built_for: Seq<char>)
    ensures
        plan_of(requested, built_for, false) is Some ==> requested == built_for && !plan_of(
            requested,
            built_for,
            false,
        )->Some_0.dev_substitution,
{
}

// ---- names of release artifacts --------------------------------------------
/// The version and the position of the triple of an artifact name, among the
/// triples from `i` on.
pub open spec fn artifact_from(rest: Seq<char>, i: int) -> Option<(Seq<char>, int)>
    decreases triple::SUPPORTED@.len() - i,
{
    if i < 0 || i >= triple::SUPPORTED@.len() {
        None
    } else {
        let suffix = "-"@ + triple::SUPPORTED@[i]@;
        if words::ends(rest, suffix) && rest.len() > suffix.len() {
            Some((rest.take(rest.len() - suffix.len()), i))
        } else {
            artifact_from(rest, i + 1)
        }
    }
}

/// The version and the position of the triple of an artifact that is named
/// `tomo-<version>-<triple>`.
pub open spec fn artifact_of(name: Seq<char>) -> Option<(Seq<char>, int)> {
    if words::begins(name, "tomo-"@) {
        artifact_from(name.skip(5), 0)
    } else {
        None
    }
}

/// Take `tomo-<version>-<triple>` apart, for a triple that can be served and a
/// version that is not empty.
pub fn parse_artifact(name: &str) -> (r: Option<(String, &'static str)>)
    ensures
        match r {
            Some((version, t)) => {
                &&& artifact_of(name@) is Some
                &&& version@ == (artifact_of(name@)->Some_0).0
                &&& t@ == triple::SUPPORTED@[(artifact_of(name@)->Some_0).1]@
            },
            None => artifact_of(name@) is None,
        },
{
    let chars = text::chars_of(name);
    if !words::begins_with(chars.as_slice(), "tomo-") {
        return None;
    }
    proof {
        reveal_strlit("tomo-");
    }
    let rest = text::slice_of(chars.as_slice(), 5, chars.len());
    assert(rest@ =~= name@.skip(5));
    let all = triple::SUPPORTED;
    let mut i: usize = 0;
    while i < all.len()
        invariant
            i <= all@.len(),
            all == triple::SUPPORTED,
            artifact_from(rest@, 0) == artifact_from(rest@, i as int),
            artifact_of(name@) == artifact_from(rest@, 0),
        decreases all@.len() - i,
    {
        let mut suffix = text::chars_of("-");
        text::push_text(&mut suffix, all[i]);
        if words::ends_with(rest.as_slice(), suffix.as_slice()) && rest.len() > suffix.len() {
            let version = text::slice_of(rest.as_slice(), 0, rest.len() - suffix.len());
            assert(version@ =~= rest@.take(rest@.len() - suffix@.len()));
            return Some((text::string_of(version.as_slice()), all[i]));
        }
        i = i + 1;
    }
    None
}

/// Two suffixes of one text agree, counted from the end.
proof fn suffixes_agree(s: Seq<char>, p: Seq<char>, q: Seq<char>, back: int)
    requires
        words::ends(s, p),
        words::ends(s, q),
        0 < back <= p.len(),
        back <= q.len(),
    ensures
        p[p.len() - back] == q[q.len() - back],
{
    assert(s.skip(s.len() - p.len())[p.len() - back] == s[s.len() - back]);
    assert(s.skip(s.len() - q.len())[q.len() - back] == s[s.len() - back]);
}

/// No text ends in two of the triples, each after a dash.
pub proof fn triples_differ(s: Seq<char>, i: int, j: int)
    requires
        0 <= i < j < 4,
        words::ends(s, "-"@ + triple::SUPPORTED@[j]@),
    ensures
        !words::ends(s, "-"@ + triple::SUPPORTED@[i]@),
{
    reveal_strlit("-");
    reveal_strlit("x86_64-unknown-linux-musl");
    reveal_strlit("aarch64-unknown-linux-musl");
    reveal_strlit("x86_64-apple-darwin");
    reveal_strlit("aarch64-apple-darwin");
    let p = "-"@ + triple::SUPPORTED@[i]@;
    let q = "-"@ + triple::SUPPORTED@[j]@;
    assert(triple::SUPPORTED@[0]@ == triple::X86_64_LINUX_MUSL@);
    assert(triple::SUPPORTED@[1]@ == triple::AARCH64_LINUX_MUSL@);
    assert(triple::SUPPORTED@[2]@ == triple::X86_64_DARWIN@);
    assert(triple::SUPPORTED@[3]@ == triple::AARCH64_DARWIN@);
    if words::ends(s, p) {
        if i == 0 && j == 1 {
            suffixes_agree(s, p, q, 22);
        } else if i == 2 && j == 3 {
            suffixes_agree(s, p, q, 16);
        } else {
            suffixes_agree(s, p, q, 1);
        }
    }
}

/// Law: the name of a binary is taken apart into the version and the triple that
/// it was made of.
pub proof fn artifact_names_are_read_back(version: Seq<char>, k: int)
    requires
        version.len() > 0,
        0 <= k < triple::SUPPORTED@.len(),
    ensures
        artifact_of(crate::bootstrap::name_of(version, triple::SUPPORTED@[k]@)) == Some(
            (version, k),
        ),
{
    reveal_strlit("tomo-");
    reveal_strlit("-");
    let t = triple::SUPPORTED@[k]@;
    let name = crate::bootstrap::name_of(version, t);
    let rest = version + ("-"@ + t);
    assert(name.take(5) =~= "tomo-"@);
    assert(name.skip(5) =~= rest);
    assert(rest.skip(version.len() as int) =~= "-"@ + t);
    assert(rest.take(version.len() as int) =~= version);
    artifact_found(rest, version, k, 0);
}

proof fn artifact_found(rest: Seq<char>, version: Seq<char>, k: int, i: int)
    requires
        0 <= i <= k < 4,
        version.len() > 0,
        rest.len() == version.len() + ("-"@ + triple::SUPPORTED@[k]@).len(),
        words::ends(rest, "-"@ + triple::SUPPORTED@[k]@),
        rest.take(version.len() as int) == version,
    ensures
        artifact_from(rest, i) == Some((version, k)),
    decreases k - i,
{
    if i < k {
        triples_differ(rest, i, k);
        artifact_found(rest, version, k, i + 1);
    }
}

} // verus!
