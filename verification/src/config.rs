//! Configuration: path classes, glob rules, and the reserved `.tomo` directory.
//!
//! Every path belongs to one of three classes. The state directory `.tomo` and
//! everything below it is always ignored, whatever the rules say. Otherwise the
//! last rule that matches a path decides; built-in ignores for editor, tool and
//! version-control files come before the user's rules, so a user rule overrides
//! them. A path that no rule matches is synced and versioned.
//!
//! Patterns are matched against the whole path relative to the project root: `*`
//! and `?` stay within a component, `**` crosses directories, and a pattern that
//! ends in a slash stands for everything below that directory.

use crate::path;
use crate::text;
use globset::{GlobBuilder, GlobSet, GlobSetBuilder};
use vstd::prelude::*;

verus! {

/// Name of the per-project state directory.
pub const TOMO_DIR: &'static str = ".tomo";

/// Built-in glob patterns that are ignored by default.
///
/// They come before any user rule, so a user rule for the same path wins. Build
/// outputs (`target`, `build`, `dist`) and `.env` are deliberately not among
/// them.
pub const DEFAULT_IGNORE_PATTERNS: [&'static str; 44] = [
    "**/*.swp",
    "**/*.swx",
    "**/.*.sw?",
    "**/*~",
    "**/.#*",
    "**/#*#",
    "**/4913",
    "**/.DS_Store",
    "**/Thumbs.db",
    "**/*.sqlite-wal",
    "**/*.sqlite-shm",
    "**/*.sqlite-journal",
    "**/*.db-wal",
    "**/*.db-shm",
    "**/*.db-journal",
    "**/.git",
    "**/.git/**",
    "**/node_modules",
    "**/node_modules/**",
    "**/.venv",
    "**/.venv/**",
    "**/venv",
    "**/venv/**",
    "**/__pycache__",
    "**/__pycache__/**",
    "**/.pytest_cache",
    "**/.pytest_cache/**",
    "**/.mypy_cache",
    "**/.mypy_cache/**",
    "**/.ruff_cache",
    "**/.ruff_cache/**",
    "**/.terraform",
    "**/.terraform/**",
    "**/.idea",
    "**/.idea/**",
    "**/.vscode",
    "**/.vscode/**",
    "**/.vs",
    "**/.vs/**",
    "**/.fleet",
    "**/.fleet/**",
    "**/.zed",
    "**/.zed/**",
    "**/*.sublime-workspace",
];

/// One of the three path classes.
#[derive(Debug, Clone, Copy, PartialEq, Eq, Structural)]
pub enum PathClass {
    /// Synced between machines and captured in history.
    SyncedVersioned,
    /// Synced between machines but never versioned.
    SyncedUnversioned,
    /// Never synced and never versioned.
    Ignored,
}

impl Default for PathClass {
    fn default() -> (c: Self)
        ensures
            c == PathClass::SyncedVersioned,
    {
        PathClass::SyncedVersioned
    }
}

/// Sync direction that a rule applies to.
#[derive(Debug, Clone, Copy, PartialEq, Eq, Structural)]
pub enum Direction {
    /// Sync in both directions.
    Both,
    /// Local to remote only.
    Push,
    /// Remote to local only.
    Pull,
}

impl Default for Direction {
    fn default() -> (d: Self)
        ensures
            d == Direction::Both,
    {
        Direction::Both
    }
}

/// How history capture behaves.
#[derive(Debug, Clone, Copy, PartialEq, Eq, Structural)]
pub enum HistoryMode {
    /// Flush at once under light load, less often under pressure.
    Adaptive,
    /// Every change becomes its own version.
    EveryChange,
    /// No history capture.
    Off,
    /// One version per fixed interval.
    Interval {
        /// Flush interval in milliseconds.
        interval_ms: u64,
    },
}

impl Default for HistoryMode {
    fn default() -> (m: Self)
        ensures
            m == HistoryMode::Adaptive,
    {
        HistoryMode::Adaptive
    }
}

/// A history mode as it is written down: a name, or a table with an interval.
#[derive(Debug, Clone, PartialEq, Eq)]
pub enum ModeText {
    /// A name.
    Named(String),
    /// An interval.
    Interval {
        /// Flush interval in milliseconds.
        interval_ms: u64,
    },
}

/// The mode with a given name.
pub open spec fn mode_named(name: Seq<char>) -> Option<HistoryMode> {
    if name == "adaptive"@ {
        Some(HistoryMode::Adaptive)
    } else if name == "every-change"@ {
        Some(HistoryMode::EveryChange)
    } else if name == "off"@ {
        Some(HistoryMode::Off)
    } else {
        None
    }
}

impl HistoryMode {
    /// The mode that is written down, or the name that no mode has.
    pub fn read(written: ModeText) -> (r: Result<HistoryMode, String>)
        ensures
            match written {
                ModeText::Interval { interval_ms } => r == Ok::<HistoryMode, String>(
                    HistoryMode::Interval { interval_ms },
                ),
                ModeText::Named(name) => match mode_named(name@) {
                    Some(m) => r == Ok::<HistoryMode, String>(m),
                    None => r == Err::<HistoryMode, String>(name),
                },
            },
    {
        match written {
            ModeText::Interval { interval_ms } => Ok(HistoryMode::Interval { interval_ms }),
            ModeText::Named(name) => {
                if text::same_text(name.as_str(), "adaptive") {
                    Ok(HistoryMode::Adaptive)
                } else if text::same_text(name.as_str(), "every-change") {
                    Ok(HistoryMode::EveryChange)
                } else if text::same_text(name.as_str(), "off") {
                    Ok(HistoryMode::Off)
                } else {
                    Err(name)
                }
            },
        }
    }
}

/// The history section.
#[derive(Debug, Clone, Copy, PartialEq, Eq, Structural)]
pub struct History {
    /// History capture strategy.
    pub mode: HistoryMode,
}

impl Default for History {
    fn default() -> (h: Self)
        ensures
            h.mode == HistoryMode::Adaptive,
    {
        History { mode: HistoryMode::Adaptive }
    }
}

/// The sync section.
#[derive(Debug, Clone, Copy, PartialEq, Eq, Structural)]
pub struct Sync {
    /// Whether the built-in ignores ([`DEFAULT_IGNORE_PATTERNS`]) apply.
    pub default_ignores: bool,
}

impl Default for Sync {
    fn default() -> (s: Self)
        ensures
            s.default_ignores,
    {
        Sync { default_ignores: true }
    }
}

/// The remote section: the sync peer.
#[derive(Debug, Clone, PartialEq, Eq)]
pub struct Remote {
    /// SSH target (e.g. `user@host`).
    pub host: String,
    /// Project root on the peer.
    pub path: String,
    /// Explicit SSH private-key path, if any.
    pub identity: Option<String>,
}

/// A rule: a glob pattern bound to a class and a direction.
#[derive(Debug, Clone, PartialEq, Eq)]
pub struct Rule {
    /// Glob pattern, relative to the project root.
    pub pattern: String,
    /// Class of the paths that this rule matches.
    pub class: PathClass,
    /// Direction of the paths that this rule matches.
    pub direction: Direction,
}

/// A rule as a mathematical value.
#[verifier::ext_equal]
pub ghost struct RuleModel {
    /// Glob pattern.
    pub pattern: Seq<char>,
    /// Class of the paths that this rule matches.
    pub class: PathClass,
    /// Direction of the paths that this rule matches.
    pub direction: Direction,
}

impl View for Rule {
    type V = RuleModel;

    open spec fn view(&self) -> RuleModel {
        RuleModel { pattern: self.pattern@, class: self.class, direction: self.direction }
    }
}

/// The rules by their views.
pub open spec fn rule_models(rules: Seq<Rule>) -> Seq<RuleModel> {
    Seq::new(rules.len(), |i: int| rules[i]@)
}

/// The class and direction of a path.
#[derive(Debug, Clone, Copy, PartialEq, Eq, Structural)]
pub struct Classification {
    /// Resolved path class.
    pub class: PathClass,
    /// Resolved sync direction.
    pub direction: Direction,
}

/// A configuration document: its sections, before any pattern is compiled.
#[derive(Debug, Clone, PartialEq, Eq)]
pub struct RawConfig {
    /// The history section.
    pub history: History,
    /// The sync section.
    pub sync: Sync,
    /// The remote section, if there is one.
    pub remote: Option<Remote>,
    /// The rules in their order.
    pub rules: Vec<Rule>,
}

impl Default for RawConfig {
    fn default() -> (r: Self)
        ensures
            r.history.mode == HistoryMode::Adaptive,
            r.sync.default_ignores,
            r.remote is None,
            r.rules@ == Seq::<Rule>::empty(),
    {
        RawConfig {
            history: History::default(),
            sync: Sync::default(),
            remote: None,
            rules: Vec::new(),
        }
    }
}

// ---- errors ----------------------------------------------------------------
/// Why a configuration cannot be had.
#[derive(Debug, Clone, PartialEq, Eq)]
pub enum ConfigError {
    /// The file exists but could not be read.
    Read {
        /// The file.
        path: String,
        /// What went wrong.
        source: String,
    },
    /// The document is not one of this kind.
    Parse {
        /// The file that the document came from, if any.
        location: Option<String>,
        /// What went wrong.
        source: String,
    },
    /// A rule's pattern is no glob.
    Glob {
        /// The file that the pattern came from, if any.
        location: Option<String>,
        /// The pattern as it is written.
        pattern: String,
        /// What went wrong.
        source: String,
    },
}

/// The location as a suffix.
pub open spec fn location_text(location: Option<String>) -> Seq<char> {
    match location {
        Some(p) => " in "@ + p@,
        None => seq![],
    }
}

impl ConfigError {
    /// What the error says.
    pub open spec fn text(self) -> Seq<char> {
        match self {
            ConfigError::Read { path, source } => "failed to read config file "@ + path@ + ": "@
                + source@,
            ConfigError::Parse { location, source } => "invalid config"@ + location_text(location)
                + ": "@ + source@,
            ConfigError::Glob { location, pattern, source } => "invalid glob pattern "@
                + text::debug_text(pattern@) + location_text(location) + ": "@ + source@,
        }
    }

    /// The message of this error.
    pub fn message(&self) -> (m: String)
        ensures
            m@ == self.text(),
    {
        let mut v: Vec<char> = Vec::new();
        match self {
            ConfigError::Read { path, source } => {
                text::push_text(&mut v, "failed to read config file ");
                text::push_text(&mut v, path.as_str());
                text::push_text(&mut v, ": ");
                text::push_text(&mut v, source.as_str());
            },
            ConfigError::Parse { location, source } => {
                text::push_text(&mut v, "invalid config");
                push_location(&mut v, location);
                text::push_text(&mut v, ": ");
                text::push_text(&mut v, source.as_str());
            },
            ConfigError::Glob { location, pattern, source } => {
                text::push_text(&mut v, "invalid glob pattern ");
                let q = text::quoted(pattern.as_str());
                text::push_text(&mut v, q.as_str());
                push_location(&mut v, location);
                text::push_text(&mut v, ": ");
                text::push_text(&mut v, source.as_str());
            },
        }
        assert(v@ =~= self.text());
        text::string_of(v.as_slice())
    }
}

fn push_location(v: &mut Vec<char>, location: &Option<String>)
    ensures
        final(v)@ == old(v)@ + location_text(*location),
{
    match location {
        Some(p) => {
            text::push_text(v, " in ");
            text::push_text(v, p.as_str());
            assert(v@ =~= old(v)@ + location_text(*location));
        },
        None => {
            assert(v@ =~= old(v)@ + location_text(*location));
        },
    }
}

// ---- the state directory ---------------------------------------------------
/// The path is the state directory or lies below it: `.tomo` is its first
/// component.
pub open spec fn internal(p: Seq<char>) -> bool {
    p == TOMO_DIR@ || p.len() > TOMO_DIR@.len() && p.take(TOMO_DIR@.len() as int) == TOMO_DIR@
        && p[TOMO_DIR@.len() as int] == '/'
}

/// Whether `path` is the state directory or lies below it.
///
/// Only the first component counts: a `.tomo` further down is an ordinary path.
pub fn is_tomo_internal(path: &str) -> (b: bool)
    ensures
        b == internal(path@),
{
    let p = text::chars_of(path);
    let d = text::chars_of(TOMO_DIR);
    if p.len() < d.len() {
        return false;
    }
    let front = text::slice_of(p.as_slice(), 0, d.len());
    assert(front@ =~= path@.take(TOMO_DIR@.len() as int));
    if !text::same_chars(front.as_slice(), d.as_slice()) {
        proof {
            if path@ == TOMO_DIR@ {
                assert(path@.take(TOMO_DIR@.len() as int) =~= path@);
            }
        }
        return false;
    }
    if p.len() == d.len() {
        assert(path@.take(TOMO_DIR@.len() as int) =~= path@);
        return true;
    }
    p[d.len()] == '/'
}

/// Law: no repository path is the state directory or lies below it.
pub proof fn paths_are_not_internal(p: Seq<char>)
    requires
        path::is_path(p),
    ensures
        !internal(p),
{
    reveal_strlit(".tomo");
    assert(TOMO_DIR@ =~= path::tomo_dir());
    if internal(p) {
        let first = text::split(p, '/')[0];
        if p == TOMO_DIR@ {
            text::find_absent(p, '/', 0);
            assert(first =~= p.skip(0));
            assert(p.skip(0) =~= p);
        } else {
            assert forall|j: int| 0 <= j < 5 implies p[j] != '/' by {
                assert(p.take(5)[j] == path::tomo_dir()[j]);
            }
            text::find_at(p, '/', 0, 5);
            assert(first =~= p.subrange(0, 5));
            assert(p.subrange(0, 5) =~= p.take(5));
        }
    }
}

// ---- patterns --------------------------------------------------------------
/// What a pattern stands for: one that ends in a slash, everything below.
pub open spec fn expanded(p: Seq<char>) -> Seq<char> {
    if p.len() > 0 && p.last() == '/' {
        p + "**"@
    } else {
        p
    }
}

fn expand_pattern(pattern: &str) -> (e: String)
    ensures
        e@ == expanded(pattern@),
{
    let mut v = text::chars_of(pattern);
    if v.len() > 0 && v[v.len() - 1] == '/' {
        text::push_text(&mut v, "**");
    }
    text::string_of(v.as_slice())
}

/// The character means more than itself in a glob.
pub open spec fn wild(c: char) -> bool {
    c == '*' || c == '?' || c == '[' || c == ']' || c == '{' || c == '}' || c == ',' || c == '\\'
}

/// The pattern names a directory: it ends in a slash and has no wildcards.
pub open spec fn names_directory(p: Seq<char>) -> bool {
    p.len() > 0 && p.last() == '/' && forall|i: int| 0 <= i < p.len() ==> !wild(#[trigger] p[i])
}

/// The glob is the name of a directory and two stars.
pub open spec fn below_directory(g: Seq<char>) -> bool {
    g.len() > 2 && g[g.len() - 2] == '*' && g[g.len() - 1] == '*' && names_directory(
        g.take(g.len() - 2),
    )
}

/// A builder of matchers, as `globset` has it.
#[verifier::external_type_specification]
#[verifier::external_body]
pub struct ExGlobSetBuilder(GlobSetBuilder);

/// A compiled matcher, as `globset` has it.
#[verifier::external_type_specification]
#[verifier::external_body]
pub struct ExGlobSet(GlobSet);

/// The patterns that were added to a builder, in order.
pub uninterp spec fn patterns_added(b: GlobSetBuilder) -> Seq<Seq<char>>;

/// The patterns that a matcher was built of, in order.
pub uninterp spec fn patterns_built(s: GlobSet) -> Seq<Seq<char>>;

/// The text of the error, where a pattern is no glob.
pub uninterp spec fn glob_error(pattern: Seq<char>) -> Option<Seq<char>>;

/// The text of the error, where no matcher can be built of the patterns.
pub uninterp spec fn set_error(patterns: Seq<Seq<char>>) -> Option<Seq<char>>;

/// Whether a glob, in which `*` and `?` do not match a slash, matches a path.
pub uninterp spec fn glob_matches(pattern: Seq<char>, path: Seq<char>) -> bool;

/// `GlobSetBuilder::new`: a builder without patterns.
#[verifier::external_body]
fn start_set() -> (b: GlobSetBuilder)
    ensures
        patterns_added(b) == Seq::<Seq<char>>::empty(),
{
    GlobSetBuilder::new()
}

/// `GlobBuilder::build` with `literal_separator(true)`, and `GlobSetBuilder::add`
/// of the glob: the pattern becomes the last one, or, where it is no glob, the
/// builder is as it was and the error's text is returned. On Unix, where a
/// backslash is no separator, whether a pattern is a glob depends on it alone.
#[verifier::external_body]
fn add_pattern(b: &mut GlobSetBuilder, pattern: &str) -> (r: Result<(), String>)
    ensures
        match r {
            Ok(_) => glob_error(pattern@) is None && patterns_added(*final(b)) == patterns_added(
                *old(b),
            ).push(pattern@),
            Err(e) => glob_error(pattern@) == Some(e@) && *final(b) == *old(b),
        },
{
    let glob = GlobBuilder::new(pattern).literal_separator(true).build().map_err(|e| e.to_string())?;
    b.add(glob);
    Ok(())
}

/// `GlobSetBuilder::build`: a matcher of the patterns that were added, or the
/// text of the error.
#[verifier::external_body]
fn finish_set(b: &GlobSetBuilder) -> (r: Result<GlobSet, String>)
    ensures
        match r {
            Ok(s) => set_error(patterns_added(*b)) is None && patterns_built(s) == patterns_added(
                *b,
            ),
            Err(e) => set_error(patterns_added(*b)) == Some(e@),
        },
{
    b.build().map_err(|e| e.to_string())
}

/// `GlobSet::empty`: a matcher without patterns.
#[verifier::external_body]
fn empty_set() -> (s: GlobSet)
    ensures
        patterns_built(s) == Seq::<Seq<char>>::empty(),
{
    GlobSet::empty()
}

/// `GlobSet::matches`: the positions of all the patterns that match the path. On
/// Unix, whether a pattern matches a path depends on these two alone, and a literal
/// directory with two stars behind it matches the paths that begin with the directory.
#[verifier::external_body]
fn positions(s: &GlobSet, path: &str) -> (found: Vec<usize>)
    ensures
        forall|i: usize|
            #![trigger found@.contains(i)]
            #![trigger patterns_built(*s)[i as int]]
            found@.contains(i) == (i < patterns_built(*s).len() && glob_matches(
                patterns_built(*s)[i as int],
                path@,
            )),
        forall|i: usize|
            #![trigger found@.contains(i)]
            #![trigger patterns_built(*s)[i as int]]
            i < patterns_built(*s).len() && below_directory(patterns_built(*s)[i as int])
                ==> found@.contains(i) == patterns_built(*s)[i as int].take(
                patterns_built(*s)[i as int].len() - 2,
            ).is_prefix_of(path@),
{
    s.matches(path)
}

/// The `Clone` of `GlobSet`, which is derived: a matcher of the same patterns.
pub assume_specification[ <GlobSet as Clone>::clone ](s: &GlobSet) -> (c: GlobSet)
    ensures
        patterns_built(c) == patterns_built(*s),
;

// ---- rules in force --------------------------------------------------------
/// The built-in rules: every default pattern is ignored in both directions.
pub open spec fn default_rules() -> Seq<RuleModel> {
    Seq::new(
        DEFAULT_IGNORE_PATTERNS@.len(),
        |i: int|
            RuleModel {
                pattern: DEFAULT_IGNORE_PATTERNS@[i]@,
                class: PathClass::Ignored,
                direction: Direction::Both,
            },
    )
}

/// The built-in rules.
pub fn default_ignore_rules() -> (rules: Vec<Rule>)
    ensures
        rule_models(rules@) == default_rules(),
{
    let mut rules: Vec<Rule> = Vec::new();
    let patterns = DEFAULT_IGNORE_PATTERNS;
    let mut i: usize = 0;
    while i < patterns.len()
        invariant
            i <= patterns@.len(),
            patterns == DEFAULT_IGNORE_PATTERNS,
            rules@.len() == i,
            forall|j: int| 0 <= j < i ==> (#[trigger] rules@[j])@ == default_rules()[j],
        decreases patterns@.len() - i,
    {
        rules.push(
            Rule {
                pattern: patterns[i].to_owned(),
                class: PathClass::Ignored,
                direction: Direction::Both,
            },
        );
        i = i + 1;
    }
    assert(rule_models(rules@) =~= default_rules());
    rules
}

/// The rules that decide, in order: the built-in ones, where they apply, and then
/// the user's.
pub open spec fn rules_in_force(default_ignores: bool, rules: Seq<RuleModel>) -> Seq<RuleModel> {
    if default_ignores {
        default_rules() + rules
    } else {
        rules
    }
}

/// The patterns of the rules, as they are matched.
pub open spec fn matched_patterns(rules: Seq<RuleModel>) -> Seq<Seq<char>> {
    Seq::new(rules.len(), |i: int| expanded(rules[i].pattern))
}

/// The first pattern that is no glob, as it is written, and the text of the error.
pub open spec fn bad_pattern(rules: Seq<RuleModel>) -> Option<(Seq<char>, Seq<char>)>
    decreases rules.len(),
{
    if rules.len() == 0 {
        None
    } else {
        match bad_pattern(rules.drop_last()) {
            Some(b) => Some(b),
            None => match glob_error(expanded(rules.last().pattern)) {
                Some(e) => Some((rules.last().pattern, e)),
                None => None,
            },
        }
    }
}

/// Why the rules cannot be compiled, if they cannot: the offending pattern (empty,
/// where it is not one alone) and the text of the error.
pub open spec fn rules_fault(rules: Seq<RuleModel>) -> Option<(Seq<char>, Seq<char>)> {
    match bad_pattern(rules) {
        Some(b) => Some(b),
        None => match set_error(matched_patterns(rules)) {
            Some(e) => Some((seq![], e)),
            None => None,
        },
    }
}

/// What is wrong with a prefix is wrong with the whole.
proof fn bad_pattern_extends(rules: Seq<RuleModel>, k: int)
    requires
        0 <= k <= rules.len(),
        bad_pattern(rules.take(k)) is Some,
    ensures
        bad_pattern(rules) == bad_pattern(rules.take(k)),
    decreases rules.len() - k,
{
    if k < rules.len() {
        assert(rules.take(k + 1).drop_last() =~= rules.take(k));
        bad_pattern_extends(rules, k + 1);
    } else {
        assert(rules.take(k) =~= rules);
    }
}

fn compile(rules: &Vec<Rule>) -> (r: Result<GlobSet, (String, String)>)
    ensures
        match r {
            Ok(s) => rules_fault(rule_models(rules@)) is None && patterns_built(s)
                == matched_patterns(rule_models(rules@)),
            Err((pattern, e)) => rules_fault(rule_models(rules@)) == Some((pattern@, e@)),
        },
{
    let ghost rs = rule_models(rules@);
    let mut b = start_set();
    let mut i: usize = 0;
    assert(rs.take(0) =~= Seq::<RuleModel>::empty());
    assert(patterns_added(b) =~= matched_patterns(rs.take(0)));
    while i < rules.len()
        invariant
            i <= rules@.len(),
            rs == rule_models(rules@),
            bad_pattern(rs.take(i as int)) is None,
            patterns_added(b) == matched_patterns(rs.take(i as int)),
        decreases rules@.len() - i,
    {
        proof {
            assert(rs.take(i + 1).drop_last() =~= rs.take(i as int));
            assert(rs.take(i + 1).last() == rules@[i as int]@);
        }
        let pattern = expand_pattern(rules[i].pattern.as_str());
        let ghost before = patterns_added(b);
        match add_pattern(&mut b, pattern.as_str()) {
            Ok(_) => {
                assert(patterns_added(b) =~= matched_patterns(rs.take(i + 1)));
            },
            Err(e) => {
                proof {
                    bad_pattern_extends(rs, i + 1);
                }
                return Err((rules[i].pattern.as_str().to_owned(), e));
            },
        }
        i = i + 1;
    }
    assert(rs.take(i as int) =~= rs);
    match finish_set(&b) {
        Ok(s) => Ok(s),
        Err(e) => {
            let none = String::new();
            assert(none@ =~= Seq::<char>::empty());
            Err((none, e))
        },
    }
}

// ---- classification --------------------------------------------------------
/// The last rule that matches a path.
pub open spec fn last_match(rules: Seq<RuleModel>, path: Seq<char>) -> Option<RuleModel>
    decreases rules.len(),
{
    if rules.len() == 0 {
        None
    } else if glob_matches(expanded(rules.last().pattern), path) {
        Some(rules.last())
    } else {
        last_match(rules.drop_last(), path)
    }
}

/// The class and direction of a path under the rules: the state directory is
/// ignored; else the last rule that matches decides; else the path is synced and
/// versioned in both directions.
pub open spec fn classification(rules: Seq<RuleModel>, path: Seq<char>) -> Classification {
    if internal(path) {
        Classification { class: PathClass::Ignored, direction: Direction::Both }
    } else {
        match last_match(rules, path) {
            Some(r) => Classification { class: r.class, direction: r.direction },
            None => Classification { class: PathClass::SyncedVersioned, direction: Direction::Both },
        }
    }
}

/// The rules that decide, compiled.
#[derive(Debug)]
pub struct Matcher {
    effective: Vec<Rule>,
    rule_set: GlobSet,
}

/// A parsed and compiled configuration.
#[derive(Debug)]
pub struct Config {
    /// The history section.
    pub history: History,
    /// The sync section.
    pub sync: Sync,
    /// The remote section, if there is one.
    pub remote: Option<Remote>,
    /// The user's rules as they are written. Their order is significant.
    pub rules: Vec<Rule>,
    /// The rules that decide: the built-in ones where they are switched on, then the
    /// user's.
    pub matcher: Matcher,
}

/// The rules that match a path are found by their positions.
proof fn last_match_at(rules: Seq<RuleModel>, path: Seq<char>, k: int)
    requires
        -1 <= k < rules.len(),
        k >= 0 ==> glob_matches(expanded(rules[k].pattern), path),
        forall|i: int|
            k < i < rules.len() ==> !glob_matches(expanded((#[trigger] rules[i]).pattern), path),
    ensures
        last_match(rules, path) == (if k >= 0 {
            Some(rules[k])
        } else {
            None
        }),
    decreases rules.len(),
{
    if rules.len() > 0 && k < rules.len() - 1 {
        assert(!glob_matches(expanded(rules[rules.len() - 1].pattern), path));
        assert forall|i: int| k < i < rules.drop_last().len() implies !glob_matches(
            expanded((#[trigger] rules.drop_last()[i]).pattern),
            path,
        ) by {
            assert(rules.drop_last()[i] == rules[i]);
        }
        last_match_at(rules.drop_last(), path, k);
    }
}

fn copy_rules(rules: &Vec<Rule>) -> (r: Vec<Rule>)
    ensures
        rule_models(r@) == rule_models(rules@),
{
    let mut r: Vec<Rule> = Vec::new();
    let mut i: usize = 0;
    while i < rules.len()
        invariant
            i <= rules@.len(),
            r@.len() == i,
            forall|j: int| 0 <= j < i ==> (#[trigger] r@[j])@ == rules@[j]@,
        decreases rules@.len() - i,
    {
        r.push(
            Rule {
                pattern: rules[i].pattern.as_str().to_owned(),
                class: rules[i].class,
                direction: rules[i].direction,
            },
        );
        i = i + 1;
    }
    assert(rule_models(r@) =~= rule_models(rules@));
    r
}

impl Matcher {
    /// The rules, in order.
    pub closed spec fn rules(&self) -> Seq<RuleModel> {
        rule_models(self.effective@)
    }

    /// The set of globs is that of the rules.
    #[verifier::type_invariant]
    spec fn wf(&self) -> bool {
        patterns_built(self.rule_set) == matched_patterns(rule_models(self.effective@))
    }

    /// What the last rule that matches says of a path, if one matches.
    fn decide(&self, path: &str) -> (c: Option<Classification>)
        ensures
            c == (match last_match(self.rules(), path@) {
                Some(r) => Some(Classification { class: r.class, direction: r.direction }),
                None => None,
            }),
            forall|k: int|
                0 <= k < self.rules().len() && names_directory((#[trigger] self.rules()[k]).pattern)
                    ==> glob_matches(self.rules()[k].pattern + "**"@, path@)
                    == self.rules()[k].pattern.is_prefix_of(path@),
    {
        proof {
            use_type_invariant(self);
        }
        let ghost rules = self.rules();
        let total: usize = self.effective.len();
        let found = positions(&self.rule_set, path);
        let mut best: Option<usize> = None;
        let mut i: usize = 0;
        while i < found.len()
            invariant
                i <= found@.len(),
                match best {
                    Some(b) => found@.contains(b) && forall|j: int|
                        0 <= j < i ==> (#[trigger] found@[j]) <= b,
                    None => i == 0,
                },
            decreases found@.len() - i,
        {
            let at: usize = found[i];
            assert(found@.contains(at));
            match best {
                Some(b) => {
                    if at > b {
                        best = Some(at);
                    }
                },
                None => {
                    best = Some(at);
                },
            }
            i = i + 1;
        }
        proof {
            let k: int = match best {
                Some(b) => b as int,
                None => -1,
            };
            if best is Some {
                let b = best->Some_0;
                assert(b < patterns_built(self.rule_set).len());
                assert(patterns_built(self.rule_set)[b as int] == expanded(rules[b as int].pattern));
            }
            assert forall|j: int| k < j < rules.len() implies !glob_matches(
                expanded((#[trigger] rules[j]).pattern),
                path@,
            ) by {
                assert(patterns_built(self.rule_set)[j] == expanded(rules[j].pattern));
                assert(rules.len() == total);
                let u = j as usize;
                assert(patterns_built(self.rule_set)[u as int] == expanded(rules[j].pattern));
                if found@.contains(u) {
                    let x = found@.index_of(u);
                    assert(found@[x] == u);
                }
            }
            last_match_at(rules, path@, k);
            assert forall|k: int|
                0 <= k < rules.len() && names_directory((#[trigger] rules[k]).pattern) implies
                glob_matches(rules[k].pattern + "**"@, path@) == rules[k].pattern.is_prefix_of(
                path@,
            ) by {
                reveal_strlit("**");
                let g = rules[k].pattern + "**"@;
                let u = k as usize;
                assert(rules.len() == total);
                assert(patterns_built(self.rule_set)[u as int] == g);
                assert(g.take(g.len() - 2) =~= rules[k].pattern);
                assert(below_directory(g));
            }
        }
        match best {
            Some(b) => Some(
                Classification {
                    class: self.effective[b].class,
                    direction: self.effective[b].direction,
                },
            ),
            None => None,
        }
    }
}

impl Clone for Matcher {
    fn clone(&self) -> (c: Self)
        ensures
            c.rules() == self.rules(),
    {
        proof {
            use_type_invariant(self);
        }
        Matcher { effective: copy_rules(&self.effective), rule_set: self.rule_set.clone() }
    }
}

/// The texts of a remote section: host, path and key, if there is a section.
pub open spec fn remote_texts(r: Option<Remote>) -> Option<
    (Seq<char>, Seq<char>, Option<Seq<char>>),
> {
    match r {
        Some(x) => Some(
            (
                x.host@,
                x.path@,
                match x.identity {
                    Some(k) => Some(k@),
                    None => None,
                },
            ),
        ),
        None => None,
    }
}

impl Clone for Config {
    fn clone(&self) -> (c: Self)
        ensures
            c.history == self.history,
            c.sync == self.sync,
            remote_texts(c.remote) == remote_texts(self.remote),
            rule_models(c.rules@) == rule_models(self.rules@),
            c.in_force() == self.in_force(),
    {
        let remote = match &self.remote {
            Some(r) => {
                let identity = match &r.identity {
                    Some(k) => Some(k.as_str().to_owned()),
                    None => None,
                };
                Some(
                    Remote {
                        host: r.host.as_str().to_owned(),
                        path: r.path.as_str().to_owned(),
                        identity,
                    },
                )
            },
            None => None,
        };
        Config {
            history: self.history,
            sync: self.sync,
            remote,
            rules: copy_rules(&self.rules),
            matcher: self.matcher.clone(),
        }
    }
}

impl Config {
    /// The rules that decide, in order.
    pub open spec fn in_force(&self) -> Seq<RuleModel> {
        self.matcher.rules()
    }

    /// The sections as they were given.
    pub open spec fn sections(&self) -> RawConfig {
        RawConfig {
            history: self.history,
            sync: self.sync,
            remote: self.remote,
            rules: self.rules,
        }
    }

    /// Compile a document. `location` is the file that it came from.
    ///
    /// The error is that a pattern is no glob, or that no matcher can be built.
    pub fn from_raw(raw: RawConfig, location: Option<String>) -> (r: Result<Config, ConfigError>)
        ensures
            ({
                let rules = rules_in_force(raw.sync.default_ignores, rule_models(raw.rules@));
                match r {
                    Ok(c) => {
                        &&& rules_fault(rules) is None
                        &&& c.in_force() == rules
                        &&& c.sections() == raw
                    },
                    Err(e) => {
                        &&& e is Glob
                        &&& e->Glob_location == location
                        &&& rules_fault(rules) == Some((e->Glob_pattern@, e->Glob_source@))
                    },
                }
            }),
    {
        let mut effective: Vec<Rule> = if raw.sync.default_ignores {
            default_ignore_rules()
        } else {
            Vec::new()
        };
        let ghost start = rule_models(effective@);
        let ghost user = rule_models(raw.rules@);
        assert(!raw.sync.default_ignores ==> start =~= Seq::<RuleModel>::empty());
        let mut i: usize = 0;
        assert(rule_models(effective@) =~= start + user.take(0));
        while i < raw.rules.len()
            invariant
                i <= raw.rules@.len(),
                user == rule_models(raw.rules@),
                rule_models(effective@) == start + user.take(i as int),
            decreases raw.rules@.len() - i,
        {
            let ghost before = effective@;
            let rule = &raw.rules[i];
            let copy = Rule {
                pattern: rule.pattern.as_str().to_owned(),
                class: rule.class,
                direction: rule.direction,
            };
            assert(copy@ == user[i as int]);
            effective.push(copy);
            i = i + 1;
            proof {
                assert(rule_models(effective@) =~= rule_models(before).push(user[i - 1]));
                assert(user.take(i as int) =~= user.take(i - 1).push(user[i - 1]));
                assert(rule_models(effective@) =~= start + user.take(i as int));
            }
        }
        proof {
            assert(user.take(i as int) =~= user);
            assert(rule_models(effective@) =~= rules_in_force(raw.sync.default_ignores, user));
        }
        match compile(&effective) {
            Ok(rule_set) => Ok(
                Config {
                    history: raw.history,
                    sync: raw.sync,
                    remote: raw.remote,
                    rules: raw.rules,
                    matcher: Matcher { effective, rule_set },
                },
            ),
            Err((pattern, source)) => Err(ConfigError::Glob { location, pattern, source }),
        }
    }

    /// The class and direction of a path, which is relative to the project root
    /// and uses forward slashes.
    ///
    /// The last rule that matches decides; where it names a directory, it decides on
    /// the paths that begin with it, and on no others.
    pub fn classify(&self, path: &str) -> (c: Classification)
        ensures
            c == classification(self.in_force(), path@),
            !internal(path@) && self.in_force().len() > 0 && names_directory(
                self.in_force().last().pattern,
            ) ==> c == (if self.in_force().last().pattern.is_prefix_of(path@) {
                Classification {
                    class: self.in_force().last().class,
                    direction: self.in_force().last().direction,
                }
            } else {
                classification(self.in_force().drop_last(), path@)
            }),
    {
        let ghost rules = self.in_force();
        if is_tomo_internal(path) {
            return Classification { class: PathClass::Ignored, direction: Direction::Both };
        }
        let decided = self.matcher.decide(path);
        assert(rules.len() > 0 ==> rules[rules.len() - 1] == rules.last());
        match decided {
            Some(c) => c,
            None => Classification {
                class: PathClass::SyncedVersioned,
                direction: Direction::Both,
            },
        }
    }
}

impl Default for Config {
    /// The configuration of an empty document. Where no matcher can be built of
    /// the built-in rules, none is in force.
    fn default() -> (c: Self)
        ensures
            c.history.mode == HistoryMode::Adaptive,
            c.sync.default_ignores,
            c.remote is None,
            c.rules@ == Seq::<Rule>::empty(),
            c.in_force() == (if rules_fault(default_rules()) is None {
                default_rules()
            } else {
                seq![]
            }),
    {
        let raw = RawConfig::default();
        assert(rule_models(raw.rules@) =~= Seq::<RuleModel>::empty());
        assert(default_rules() + Seq::<RuleModel>::empty() =~= default_rules());
        match Config::from_raw(raw, None) {
            Ok(c) => c,
            Err(_) => {
                let effective: Vec<Rule> = Vec::new();
                assert(rule_models(effective@) =~= Seq::<RuleModel>::empty());
                assert(matched_patterns(rule_models(effective@)) =~= Seq::<Seq<char>>::empty());
                Config {
                    history: History::default(),
                    sync: Sync::default(),
                    remote: None,
                    rules: Vec::new(),
                    matcher: Matcher { effective, rule_set: empty_set() },
                }
            },
        }
    }
}

// ---- laws ------------------------------------------------------------------
/// Law: no rules can make the state directory, or anything below it, other than
/// ignored.
pub proof fn the_state_directory_is_ignored(rules: Seq<RuleModel>, path: Seq<char>)
    requires
        internal(path),
    ensures
        classification(rules, path).class == PathClass::Ignored,
{
}

/// Law: the last rule that matches wins, whatever comes before it; a rule that
/// does not match changes nothing.
pub proof fn the_last_match_wins(rules: Seq<RuleModel>, rule: RuleModel, path: Seq<char>)
    ensures
        !internal(path) && glob_matches(expanded(rule.pattern), path) ==> classification(
            rules.push(rule),
            path,
        ) == (Classification { class: rule.class, direction: rule.direction }),
        !glob_matches(expanded(rule.pattern), path) ==> classification(rules.push(rule), path)
            == classification(rules, path),
{
    assert(rules.push(rule).drop_last() =~= rules);
}

/// Law: where a user's rule matches, the built-in rules do not matter; where none
/// does, the built-in rules alone decide; and switched off, they do nothing.
pub proof fn user_rules_override_defaults(rules: Seq<RuleModel>, path: Seq<char>)
    ensures
        last_match(rules, path) is Some ==> classification(rules_in_force(true, rules), path)
            == classification(rules, path),
        last_match(rules, path) is None ==> classification(rules_in_force(true, rules), path)
            == classification(default_rules(), path),
        classification(rules_in_force(false, rules), path) == classification(rules, path),
{
    match_in_sum(default_rules(), rules, path);
}

proof fn match_in_sum(a: Seq<RuleModel>, b: Seq<RuleModel>, path: Seq<char>)
    ensures
        last_match(a + b, path) == (match last_match(b, path) {
            Some(r) => Some(r),
            None => last_match(a, path),
        }),
    decreases b.len(),
{
    if b.len() == 0 {
        assert(a + b =~= a);
    } else {
        assert((a + b).drop_last() =~= a + b.drop_last());
        assert((a + b).last() == b.last());
        match_in_sum(a, b.drop_last(), path);
    }
}

/// Law: a path that no rule matches is synced and versioned in both directions,
/// unless it lies in the state directory.
pub proof fn unmatched_paths_are_synced(rules: Seq<RuleModel>, path: Seq<char>)
    requires
        !internal(path),
        forall|i: int|
            0 <= i < rules.len() ==> !glob_matches(expanded((#[trigger] rules[i]).pattern), path),
    ensures
        classification(rules, path) == (Classification {
            class: PathClass::SyncedVersioned,
            direction: Direction::Both,
        }),
{
    last_match_at(rules, path, -1);
}

} // verus!
