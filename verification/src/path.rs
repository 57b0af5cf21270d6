//! Validated repository-relative paths.

use crate::text;
use vstd::prelude::*;

verus! {

/// Why a string was rejected as a [`RelPath`]; each variant names one rule.
#[derive(Debug, Clone, Copy, PartialEq, Eq, Structural)]
pub enum PathError {
    /// The path was the empty string.
    Empty,
    /// The path was absolute (began with `/`).
    Absolute,
    /// The path ended with a `/` (a trailing separator).
    TrailingSlash,
    /// The path contained a backslash (not a legal separator here).
    Backslash,
    /// The path contained a NUL byte.
    NulByte,
    /// The path contained an empty component (e.g. `a//b`).
    EmptyComponent,
    /// The path contained a `.` or `..` component.
    DotComponent,
    /// The path's first component is the reserved `.tomo` state directory.
    ReservedTomo,
}

impl PathError {
    /// What the error says of the path.
    pub open spec fn text(self) -> Seq<char> {
        match self {
            PathError::Empty => "path is empty"@,
            PathError::Absolute => "path is absolute (must be repo-relative)"@,
            PathError::TrailingSlash => "path has a trailing slash"@,
            PathError::Backslash => "path contains a backslash"@,
            PathError::NulByte => "path contains a NUL byte"@,
            PathError::EmptyComponent => "path contains an empty component"@,
            PathError::DotComponent => "path contains a '.' or '..' component"@,
            PathError::ReservedTomo => "path is inside the reserved .tomo directory"@,
        }
    }

    /// The message of this error.
    pub fn message(&self) -> (m: &'static str)
        ensures
            m@ == self.text(),
    {
        match self {
            PathError::Empty => "path is empty",
            PathError::Absolute => "path is absolute (must be repo-relative)",
            PathError::TrailingSlash => "path has a trailing slash",
            PathError::Backslash => "path contains a backslash",
            PathError::NulByte => "path contains a NUL byte",
            PathError::EmptyComponent => "path contains an empty component",
            PathError::DotComponent => "path contains a '.' or '..' component",
            PathError::ReservedTomo => "path is inside the reserved .tomo directory",
        }
    }
}

/// The name of the reserved state directory, `.tomo`.
pub open spec fn tomo_dir() -> Seq<char> {
    seq!['.', 't', 'o', 'm', 'o']
}

/// A component that stands for a directory relative to itself: `.` or `..`.
pub open spec fn is_dots(c: Seq<char>) -> bool {
    c == seq!['.'] || c == seq!['.', '.']
}

/// The rule that the first offending component from `i` on breaks.
pub open spec fn component_error(parts: Seq<Seq<char>>, i: int) -> Option<PathError>
    decreases parts.len() - i,
{
    if i >= parts.len() {
        None
    } else if parts[i].len() == 0 {
        Some(PathError::EmptyComponent)
    } else if is_dots(parts[i]) {
        Some(PathError::DotComponent)
    } else {
        component_error(parts, i + 1)
    }
}

/// The first rule that the text breaks, if it breaks one.
pub open spec fn path_error(s: Seq<char>) -> Option<PathError> {
    if s.len() == 0 {
        Some(PathError::Empty)
    } else if s.contains('\0') {
        Some(PathError::NulByte)
    } else if s.contains('\\') {
        Some(PathError::Backslash)
    } else if s.first() == '/' {
        Some(PathError::Absolute)
    } else if s.last() == '/' {
        Some(PathError::TrailingSlash)
    } else {
        match component_error(text::split(s, '/'), 0) {
            Some(e) => Some(e),
            None => if text::split(s, '/')[0] == tomo_dir() {
                Some(PathError::ReservedTomo)
            } else {
                None
            },
        }
    }
}

/// A text that breaks no rule.
pub open spec fn is_path(s: Seq<char>) -> bool {
    path_error(s) is None
}

/// The rule that the first offending component breaks.
fn check_components(parts: &Vec<Vec<char>>) -> (e: Option<PathError>)
    ensures
        e == component_error(text::texts(parts@), 0),
{
    let ghost model = text::texts(parts@);
    let mut i: usize = 0;
    while i < parts.len()
        invariant
            i <= parts@.len(),
            text::texts(parts@) == model,
            component_error(model, 0) == component_error(model, i as int),
        decreases parts@.len() - i,
    {
        let comp = &parts[i];
        assert(comp@ == model[i as int]);
        if comp.len() == 0 {
            return Some(PathError::EmptyComponent);
        }
        if comp.len() == 1 && comp[0] == '.' {
            assert(comp@ =~= seq!['.']);
            return Some(PathError::DotComponent);
        }
        if comp.len() == 2 && comp[0] == '.' && comp[1] == '.' {
            assert(comp@ =~= seq!['.', '.']);
            return Some(PathError::DotComponent);
        }
        i = i + 1;
    }
    None
}

/// The rule that `raw` breaks first.
fn check(raw: &[char]) -> (e: Option<PathError>)
    ensures
        e == path_error(raw@),
{
    if raw.len() == 0 {
        return Some(PathError::Empty);
    }
    if text::contains_char(raw, '\0') {
        return Some(PathError::NulByte);
    }
    if text::contains_char(raw, '\\') {
        return Some(PathError::Backslash);
    }
    if raw[0] == '/' {
        return Some(PathError::Absolute);
    }
    if raw[raw.len() - 1] == '/' {
        return Some(PathError::TrailingSlash);
    }
    let parts = text::split_chars(raw, '/');
    let bad = check_components(&parts);
    if bad.is_some() {
        return bad;
    }
    let first = &parts[0];
    assert(first@ == text::split(raw@, '/')[0]);
    if first.len() == 5 && first[0] == '.' && first[1] == 't' && first[2] == 'o' && first[3] == 'm'
        && first[4] == 'o' {
        assert(first@ =~= tomo_dir());
        return Some(PathError::ReservedTomo);
    }
    None
}

/// A validated, normalized, repository-relative path.
///
/// Every value is non-empty and relative, uses forward slashes only, holds no
/// NUL byte, no empty, `.` or `..` component, and never begins with the
/// reserved `.tomo` directory. Paths are ordered lexicographically.
#[derive(Debug, PartialEq, Eq, PartialOrd, Ord, Hash)]
pub struct RelPath(String);

impl View for RelPath {
    type V = Seq<char>;

    closed spec fn view(&self) -> Seq<char> {
        self.0@
    }
}

impl RelPath {
    /// Every path is a text that breaks no rule.
    #[verifier::type_invariant]
    pub open spec fn wf(self) -> bool {
        is_path(self@)
    }

    /// Validate `raw`; the error names the first rule that it breaks.
    pub fn new(raw: &str) -> (r: Result<RelPath, PathError>)
        ensures
            match path_error(raw@) {
                Some(e) => r == Err::<RelPath, PathError>(e),
                None => r is Ok && r->Ok_0@ == raw@,
            },
    {
        let chars = text::chars_of(raw);
        match check(chars.as_slice()) {
            Some(e) => Err(e),
            None => Ok(RelPath(raw.to_owned())),
        }
    }

    /// The path as text (forward-slash separated, no leading or trailing `/`).
    pub fn as_str(&self) -> (s: &str)
        ensures
            s@ == self@,
            is_path(s@),
    {
        proof {
            use_type_invariant(self);
        }
        self.0.as_str()
    }

    /// The path components in order. None is empty, `.` or `..`.
    pub fn components(&self) -> (parts: Vec<String>)
        ensures
            text::strings(parts@) == text::split(self@, '/'),
            parts@.len() >= 1,
            forall|i: int|
                0 <= i < parts@.len() ==> (#[trigger] parts@[i])@.len() > 0 && !is_dots(
                    parts@[i]@,
                ),
            parts@[0]@ != tomo_dir(),
    {
        proof {
            use_type_invariant(self);
        }
        let chars = text::chars_of(self.0.as_str());
        let pieces = text::split_chars(chars.as_slice(), '/');
        let mut parts: Vec<String> = Vec::new();
        let mut i: usize = 0;
        while i < pieces.len()
            invariant
                i <= pieces@.len(),
                parts@.len() == i,
                forall|j: int| 0 <= j < i ==> (#[trigger] parts@[j])@ == pieces@[j]@,
            decreases pieces@.len() - i,
        {
            parts.push(text::string_of(pieces[i].as_slice()));
            i = i + 1;
        }
        proof {
            assert(text::strings(parts@) =~= text::texts(pieces@));
            let model = text::split(self@, '/');
            sound_components(model, 0);
            assert forall|k: int| 0 <= k < parts@.len() implies (#[trigger] parts@[k])@.len() > 0
                && !is_dots(parts@[k]@) by {
                assert(parts@[k]@ == model[k]);
            }
            assert(parts@[0]@ == model[0]);
        }
        parts
    }

    /// The final path component (the file or directory name); never empty.
    pub fn file_name(&self) -> (name: &str)
        ensures
            name@ == text::split(self@, '/').last(),
            name@.len() > 0,
    {
        proof {
            use_type_invariant(self);
        }
        let chars = text::chars_of(self.0.as_str());
        let pieces = text::split_chars(chars.as_slice(), '/');
        let last = &pieces[pieces.len() - 1];
        let ghost model = text::split(self@, '/');
        proof {
            assert(last@ == model.last());
            last_piece_is_suffix(self@, '/', 0);
            sound_components(model, 0);
        }
        let from: usize = chars.len() - last.len();
        let name = self.0.as_str().substring_char(from, chars.len());
        proof {
            assert(self@.subrange(from as int, self@.len() as int) =~= self@.skip(from as int));
        }
        name
    }

    /// The text of the path.
    pub fn into_string(self) -> (s: String)
        ensures
            s@ == self@,
    {
        self.0
    }

    /// Whether two paths are the same.
    pub fn same(&self, other: &RelPath) -> (r: bool)
        ensures
            r == (self@ == other@),
    {
        self.0 == other.0
    }
}

/// Without a component error every component from `i` on is sound.
pub proof fn sound_components(parts: Seq<Seq<char>>, i: int)
    requires
        0 <= i,
        component_error(parts, i) is None,
    ensures
        forall|j: int| i <= j < parts.len() ==> (#[trigger] parts[j]).len() > 0 && !is_dots(parts[j]),
    decreases parts.len() - i,
{
    if i < parts.len() {
        sound_components(parts, i + 1);
    }
}

/// The last piece of a split is a suffix of the text.
pub proof fn last_piece_is_suffix(s: Seq<char>, sep: char, start: int)
    requires
        0 <= start <= s.len(),
    ensures
        text::split_from(s, sep, start).len() >= 1,
        text::split_from(s, sep, start).last().len() <= s.len() - start,
        text::split_from(s, sep, start).last() == s.skip(
            s.len() - text::split_from(s, sep, start).last().len(),
        ),
    decreases s.len() - start,
{
    text::find_spec(s, sep, start);
    let e = text::find(s, sep, start);
    if start >= s.len() || e >= s.len() || e < start {
        assert(text::split_from(s, sep, start) =~= seq![s.skip(start)]);
    } else {
        last_piece_is_suffix(s, sep, e + 1);
        let rest = text::split_from(s, sep, e + 1);
        assert((seq![s.subrange(start, e)] + rest).last() == rest.last());
    }
}

impl Clone for RelPath {
    fn clone(&self) -> (p: Self)
        ensures
            p@ == self@,
    {
        proof {
            use_type_invariant(self);
        }
        RelPath(self.0.clone())
    }
}

impl From<RelPath> for String {
    fn from(p: RelPath) -> (s: String) {
        p.0
    }
}

impl vstd::std_specs::convert::FromSpecImpl<RelPath> for String {
    open spec fn obeys_from_spec() -> bool {
        true
    }

    closed spec fn from_spec(p: RelPath) -> String {
        p.0
    }
}

impl TryFrom<String> for RelPath {
    type Error = PathError;

    fn try_from(s: String) -> (r: Result<RelPath, PathError>) {
        let chars = text::chars_of(s.as_str());
        match check(chars.as_slice()) {
            Some(e) => Err(e),
            None => Ok(RelPath(s)),
        }
    }
}

impl vstd::std_specs::convert::TryFromSpecImpl<String> for RelPath {
    open spec fn obeys_try_from_spec() -> bool {
        true
    }

    closed spec fn try_from_spec(s: String) -> Result<RelPath, PathError> {
        match path_error(s@) {
            Some(e) => Err(e),
            None => Ok(RelPath(s)),
        }
    }
}

/// Law: a path handed out as a string is accepted again, unchanged.
pub proof fn string_round_trip(p: RelPath)
    requires
        p.wf(),
    ensures
        <String as vstd::std_specs::convert::FromSpec<RelPath>>::from_spec(p)@ == p@,
        <RelPath as vstd::std_specs::convert::TryFromSpec<String>>::try_from_spec(
            <String as vstd::std_specs::convert::FromSpec<RelPath>>::from_spec(p),
        ) == Ok::<RelPath, PathError>(p),
{
}

/// Law: no path lies in the reserved state directory, names a directory
/// relative to itself, or is absolute.
pub proof fn paths_stay_inside(p: RelPath)
    requires
        p.wf(),
    ensures
        p@.len() > 0,
        p@.first() != '/',
        p@.last() != '/',
        !p@.contains('\\'),
        !p@.contains('\0'),
        text::split(p@, '/')[0] != tomo_dir(),
        forall|i: int|
            0 <= i < text::split(p@, '/').len() ==> (#[trigger] text::split(p@, '/')[i]).len() > 0
                && !is_dots(text::split(p@, '/')[i]),
{
    sound_components(text::split(p@, '/'), 0);
}

} // verus!
