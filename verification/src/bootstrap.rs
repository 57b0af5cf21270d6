//! Bringing the binary to the remote: names, what to keep and what to push, and
//! the commands that are run there.

use crate::bytes;
use crate::text;
use crate::triple;
use crate::words;
use vstd::prelude::*;

verus! {

/// The directory of pushed binaries, relative to the remote project root.
pub const REMOTE_BIN_DIR: &'static str = ".tomo/bin";

/// The name of a pushed binary.
pub open spec fn name_of(version: Seq<char>, triple: Seq<char>) -> Seq<char> {
    "tomo-"@ + version + "-"@ + triple
}

/// The name of a pushed binary: `tomo-<version>-<triple>`.
pub fn binary_name(version: &str, triple: &str) -> (s: String)
    ensures
        s@ == name_of(version@, triple@),
{
    let mut v = text::chars_of("tomo-");
    text::push_text(&mut v, version);
    text::push_text(&mut v, "-");
    text::push_text(&mut v, triple);
    text::string_of(v.as_slice())
}

/// `dir` and `name` with a slash between them.
pub open spec fn in_dir(dir: Seq<char>, name: Seq<char>) -> Seq<char> {
    dir + "/"@ + name
}

/// The path of `name` in `dir`.
pub fn path_in(dir: &str, name: &str) -> (s: String)
    ensures
        s@ == in_dir(dir@, name@),
{
    let mut v = text::chars_of(dir);
    text::push_text(&mut v, "/");
    text::push_text(&mut v, name);
    text::string_of(v.as_slice())
}

/// The path of a pushed binary, relative to the remote project root.
pub fn binary_rel_path(version: &str, triple: &str) -> (s: String)
    ensures
        s@ == in_dir(REMOTE_BIN_DIR@, name_of(version@, triple@)),
{
    let name = binary_name(version, triple);
    path_in(REMOTE_BIN_DIR, name.as_str())
}

/// The version to announce: the one that is forced, if there is one.
pub fn effective_local_version(base: &str, forced: Option<String>) -> (v: String)
    ensures
        v@ == (match forced {
            Some(f) => f@,
            None => base@,
        }),
{
    match forced {
        Some(f) => f,
        None => base.to_owned(),
    }
}

// ---- what to keep and what to push -----------------------------------------
/// What to do about the binaries on the remote.
#[derive(Debug, Clone, PartialEq, Eq)]
pub enum BootstrapDecision {
    /// The binary is there; reuse it.
    Reuse {
        /// The name of the binary.
        name: String,
        /// Other binaries for the same triple, to remove.
        stale: Vec<String>,
    },
    /// The binary is not there; push it.
    Push {
        /// The name of the binary.
        name: String,
        /// Other binaries for the same triple, to remove.
        stale: Vec<String>,
    },
}

impl BootstrapDecision {
    /// The name of the binary.
    pub open spec fn chosen(self) -> Seq<char> {
        match self {
            BootstrapDecision::Reuse { name, stale } => name@,
            BootstrapDecision::Push { name, stale } => name@,
        }
    }

    /// The binaries to remove.
    pub open spec fn removed(self) -> Seq<Seq<char>> {
        match self {
            BootstrapDecision::Reuse { name, stale } => text::strings(stale@),
            BootstrapDecision::Push { name, stale } => text::strings(stale@),
        }
    }
}

/// The entry is a binary of another version for the triple.
pub open spec fn is_stale(entry: Seq<char>, version: Seq<char>, triple: Seq<char>) -> bool {
    exists|other: Seq<char>| other != version && entry == #[trigger] name_of(other, triple)
}

/// The entry has the shape of a binary's name for the triple: the two ends of it,
/// and a version between them, which may be empty.
spec fn fits_triple(entry: Seq<char>, triple: Seq<char>) -> bool {
    &&& "tomo-"@.len() + ("-"@ + triple).len() <= entry.len()
    &&& words::begins(entry, "tomo-"@)
    &&& words::ends(entry, "-"@ + triple)
}

/// An entry of that shape that is not the wanted one is stale, and no other.
proof fn stale_by_shape(entry: Seq<char>, version: Seq<char>, triple: Seq<char>)
    ensures
        is_stale(entry, version, triple) == (fits_triple(entry, triple) && entry != name_of(
            version,
            triple,
        )),
{
    let front = "tomo-"@;
    let back = "-"@ + triple;
    if fits_triple(entry, triple) && entry != name_of(version, triple) {
        let other = entry.subrange(front.len() as int, entry.len() - back.len());
        assert forall|i: int| 0 <= i < entry.len() implies entry[i] == name_of(other, triple)[i] by {
            if i < front.len() {
                assert(entry[i] == entry.take(front.len() as int)[i]);
            } else if i >= entry.len() - back.len() {
                let j = i - (entry.len() - back.len());
                assert(entry[i] == entry.skip(entry.len() - back.len())[j]);
            }
        }
        assert(entry =~= name_of(other, triple));
    }
    if is_stale(entry, version, triple) {
        let other = choose|other: Seq<char>|
            other != version && entry == #[trigger] name_of(other, triple);
        let wanted = name_of(version, triple);
        assert(entry.take(front.len() as int) =~= front);
        assert(entry.skip(entry.len() - back.len()) =~= back);
        assert(entry.subrange(front.len() as int, entry.len() - back.len()) =~= other);
        assert(wanted.subrange(front.len() as int, wanted.len() - back.len()) =~= version);
    }
}

/// The stale entries, in order.
pub open spec fn stale_of(
    entries: Seq<Seq<char>>,
    version: Seq<char>,
    triple: Seq<char>,
) -> Seq<Seq<char>>
    decreases entries.len(),
{
    if entries.len() == 0 {
        seq![]
    } else {
        let before = stale_of(entries.drop_last(), version, triple);
        if is_stale(entries.last(), version, triple) {
            before.push(entries.last())
        } else {
            before
        }
    }
}

/// Decide whether the binary that is wanted is there, and which others for the
/// same triple to remove. Binaries for other triples stay untouched.
pub fn decide(remote_entries: &[String], version: &str, triple: &str) -> (d: BootstrapDecision)
    ensures
        d.chosen() == name_of(version@, triple@),
        d.removed() == stale_of(text::strings(remote_entries@), version@, triple@),
        d is Reuse == text::strings(remote_entries@).contains(name_of(version@, triple@)),
{
    let wanted = binary_name(version, triple);
    let mut suffix = text::chars_of("-");
    text::push_text(&mut suffix, triple);
    let wanted_chars = text::chars_of(wanted.as_str());
    let version_chars = text::chars_of(version);
    assert(wanted_chars@.len() == "tomo-"@.len() + version@.len() + suffix@.len());
    let shortest: usize = wanted_chars.len() - version_chars.len();
    let ghost entries = text::strings(remote_entries@);
    let mut present = false;
    let mut stale: Vec<String> = Vec::new();
    let mut i: usize = 0;
    assert(entries.take(0) =~= Seq::<Seq<char>>::empty());
    assert(text::strings(stale@) =~= Seq::<Seq<char>>::empty());
    while i < remote_entries.len()
        invariant
            i <= remote_entries@.len(),
            entries == text::strings(remote_entries@),
            wanted@ == name_of(version@, triple@),
            suffix@ == "-"@ + triple@,
            shortest == "tomo-"@.len() + suffix@.len(),
            text::strings(stale@) == stale_of(entries.take(i as int), version@, triple@),
            present == (exists|j: int| 0 <= j < i && #[trigger] entries[j] == wanted@),
        decreases remote_entries@.len() - i,
    {
        let ghost before = stale@;
        let entry = &remote_entries[i];
        assert(entries[i as int] == entry@);
        proof {
            assert(entries.take(i + 1).drop_last() =~= entries.take(i as int));
            assert(entries.take(i + 1).last() == entry@);
            stale_by_shape(entry@, version@, triple@);
        }
        let chars = text::chars_of(entry.as_str());
        if text::same_text(entry.as_str(), wanted.as_str()) {
            present = true;
        } else if chars.len() >= shortest && words::begins_with(chars.as_slice(), "tomo-")
            && words::ends_with(chars.as_slice(), suffix.as_slice()) {
            stale.push(entry.as_str().to_owned());
            assert(text::strings(stale@) =~= text::strings(before).push(entry@));
        }
        i = i + 1;
    }
    assert(entries.take(i as int) =~= entries);
    if present {
        BootstrapDecision::Reuse { name: wanted, stale }
    } else {
        BootstrapDecision::Push { name: wanted, stale }
    }
}

/// Law: only other binaries for the same triple are removed, never the one that
/// is wanted.
pub proof fn only_stale_binaries_are_removed(
    entries: Seq<Seq<char>>,
    version: Seq<char>,
    triple: Seq<char>,
    name: Seq<char>,
)
    requires
        stale_of(entries, version, triple).contains(name),
    ensures
        entries.contains(name),
        is_stale(name, version, triple),
        name != name_of(version, triple),
    decreases entries.len(),
{
    let l = stale_of(entries, version, triple);
    stale_by_shape(name, version, triple);
    if entries.len() > 0 {
        let p = entries.drop_last();
        let before = stale_of(p, version, triple);
        let k = l.index_of(name);
        if k < before.len() {
            assert(before[k] == name);
            only_stale_binaries_are_removed(p, version, triple, name);
            let j = p.index_of(name);
            assert(entries[j] == name);
        } else {
            assert(name == entries.last());
            assert(entries[entries.len() - 1] == name);
        }
    }
}

/// Law: every binary of another version for the same triple is removed.
pub proof fn every_other_version_is_removed(
    entries: Seq<Seq<char>>,
    version: Seq<char>,
    triple: Seq<char>,
    other: Seq<char>,
)
    requires
        entries.contains(name_of(other, triple)),
        other != version,
    ensures
        stale_of(entries, version, triple).contains(name_of(other, triple)),
    decreases entries.len(),
{
    let name = name_of(other, triple);
    let l = stale_of(entries, version, triple);
    let k = entries.index_of(name);
    let p = entries.drop_last();
    if k == entries.len() - 1 {
        assert(l.last() == name);
    } else {
        assert(p[k] == name);
        every_other_version_is_removed(p, version, triple, other);
        let j = stale_of(p, version, triple).index_of(name);
        assert(l[j] == name);
    }
}

/// The result of bringing the binary to the remote.
#[derive(Debug, Clone, PartialEq, Eq)]
pub enum BootstrapReport {
    /// The binary was there; nothing was transferred.
    Reused {
        /// The remote triple.
        triple: String,
        /// The version.
        version: String,
        /// The path of the binary, relative to the remote project root.
        binary_rel: String,
    },
    /// The binary was pushed and verified.
    Pushed {
        /// The remote triple.
        triple: String,
        /// The version.
        version: String,
        /// The path of the binary, relative to the remote project root.
        binary_rel: String,
        /// How many bytes were transferred.
        bytes: u64,
        /// Whether a binary for another C runtime was pushed.
        dev_substitution: bool,
    },
}

impl BootstrapReport {
    /// The path of the binary, relative to the remote project root.
    pub fn binary_rel(&self) -> (s: &str)
        ensures
            s@ == (match *self {
                BootstrapReport::Reused { triple, version, binary_rel } => binary_rel@,
                BootstrapReport::Pushed { triple, version, binary_rel, bytes, dev_substitution } =>
                    binary_rel@,
            }),
    {
        match self {
            BootstrapReport::Reused { triple: _, version: _, binary_rel } => binary_rel.as_str(),
            BootstrapReport::Pushed {
                triple: _,
                version: _,
                binary_rel,
                bytes: _,
                dev_substitution: _,
            } => binary_rel.as_str(),
        }
    }

    /// The remote triple.
    pub fn triple(&self) -> (s: &str)
        ensures
            s@ == (match *self {
                BootstrapReport::Reused { triple, version, binary_rel } => triple@,
                BootstrapReport::Pushed { triple, version, binary_rel, bytes, dev_substitution } =>
                    triple@,
            }),
    {
        match self {
            BootstrapReport::Reused { triple, version: _, binary_rel: _ } => triple.as_str(),
            BootstrapReport::Pushed {
                triple,
                version: _,
                binary_rel: _,
                bytes: _,
                dev_substitution: _,
            } => triple.as_str(),
        }
    }
}

/// What to do on the remote once its binaries are listed.
#[derive(Debug, Clone, PartialEq, Eq)]
pub enum BootstrapStep {
    /// Remove these files, and report.
    Keep {
        /// The files to remove.
        prune: Vec<String>,
        /// What to report.
        report: BootstrapReport,
    },
    /// Push the binary to this path, then remove these files.
    Push {
        /// The name of the binary.
        name: String,
        /// The files to remove afterwards.
        prune: Vec<String>,
    },
}

/// The names as paths in a directory.
pub open spec fn all_in_dir(dir: Seq<char>, names: Seq<Seq<char>>) -> Seq<Seq<char>> {
    Seq::new(names.len(), |i: int| in_dir(dir, names[i]))
}

/// The names as paths in a directory.
pub fn paths_in(dir: &str, names: &Vec<String>) -> (r: Vec<String>)
    ensures
        text::strings(r@) == all_in_dir(dir@, text::strings(names@)),
{
    let mut r: Vec<String> = Vec::new();
    let mut i: usize = 0;
    while i < names.len()
        invariant
            i <= names@.len(),
            r@.len() == i,
            forall|j: int| 0 <= j < i ==> (#[trigger] r@[j])@ == in_dir(dir@, names@[j]@),
        decreases names@.len() - i,
    {
        r.push(path_in(dir, names[i].as_str()));
        i = i + 1;
    }
    assert(text::strings(r@) =~= all_in_dir(dir@, text::strings(names@)));
    r
}

/// Decide what to do on the remote, given the names in its binary directory: the
/// binary is pushed where it is not there, and where that is forced.
pub fn next_step(
    remote_entries: &[String],
    remote_path: &str,
    version: &str,
    triple: &str,
    force_push: bool,
) -> (s: BootstrapStep)
    ensures
        ({
            let entries = text::strings(remote_entries@);
            let wanted = name_of(version@, triple@);
            let dir = in_dir(remote_path@, REMOTE_BIN_DIR@);
            let stale = all_in_dir(dir, stale_of(entries, version@, triple@));
            match s {
                BootstrapStep::Keep { prune, report } => {
                    &&& entries.contains(wanted)
                    &&& !force_push
                    &&& text::strings(prune@) == stale
                    &&& report is Reused
                    &&& report->Reused_triple@ == triple@
                    &&& report->Reused_version@ == version@
                    &&& report->Reused_binary_rel@ == in_dir(REMOTE_BIN_DIR@, wanted)
                },
                BootstrapStep::Push { name, prune } => {
                    &&& !entries.contains(wanted) || force_push
                    &&& name@ == wanted
                    &&& text::strings(prune@) == stale
                },
            }
        }),
{
    let dir = path_in(remote_path, REMOTE_BIN_DIR);
    match decide(remote_entries, version, triple) {
        BootstrapDecision::Reuse { name, stale } => {
            let prune = paths_in(dir.as_str(), &stale);
            if force_push {
                BootstrapStep::Push { name, prune }
            } else {
                let report = BootstrapReport::Reused {
                    triple: triple.to_owned(),
                    version: version.to_owned(),
                    binary_rel: path_in(REMOTE_BIN_DIR, name.as_str()),
                };
                BootstrapStep::Keep { prune, report }
            }
        },
        BootstrapDecision::Push { name, stale } => {
            let prune = paths_in(dir.as_str(), &stale);
            BootstrapStep::Push { name, prune }
        },
    }
}

/// What to report of a binary that was pushed.
pub fn pushed_report(version: &str, triple: &str, bytes: u64, dev_substitution: bool) -> (r:
    BootstrapReport)
    ensures
        r is Pushed,
        r->Pushed_triple@ == triple@,
        r->Pushed_version@ == version@,
        r->Pushed_binary_rel@ == in_dir(REMOTE_BIN_DIR@, name_of(version@, triple@)),
        r->Pushed_bytes == bytes,
        r->Pushed_dev_substitution == dev_substitution,
{
    BootstrapReport::Pushed {
        triple: triple.to_owned(),
        version: version.to_owned(),
        binary_rel: binary_rel_path(version, triple),
        bytes,
        dev_substitution,
    }
}

} // verus!
