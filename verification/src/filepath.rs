//! File paths as text, with forward slashes.

use crate::text;
use crate::words;
use vstd::prelude::*;

verus! {

/// `rest` below `base`: an absolute path stays as it is, any other is appended
/// with one slash between.
pub open spec fn joined(base: Seq<char>, rest: Seq<char>) -> Seq<char> {
    if rest.len() > 0 && rest[0] == '/' {
        rest
    } else if base.len() > 0 && base.last() != '/' {
        base + seq!['/'] + rest
    } else {
        base + rest
    }
}

/// `rest` below `base`.
pub fn join_path(base: &str, rest: &[char]) -> (p: String)
    ensures
        p@ == joined(base@, rest@),
{
    if rest.len() > 0 && rest[0] == '/' {
        return text::string_of(rest);
    }
    let mut v = text::chars_of(base);
    if v.len() > 0 && v[v.len() - 1] != '/' {
        v.push('/');
    }
    let ghost before = v@;
    text::push_all(&mut v, rest);
    assert(v@ =~= joined(base@, rest@));
    text::string_of(v.as_slice())
}

/// What a path argument stands for: `~` and `%d` are the home directory; an
/// absolute path stays as it is; any other lies in `.ssh` in the home directory.
pub open spec fn expanded(arg: Seq<char>, home: Seq<char>) -> Seq<char> {
    if words::begins(arg, "~/"@) {
        joined(home, arg.skip(2))
    } else if words::begins(arg, "%d/"@) {
        joined(home, arg.skip(3))
    } else if arg == "~"@ || arg == "%d"@ {
        home
    } else if arg.len() > 0 && arg[0] == '/' {
        arg
    } else {
        joined(joined(home, ".ssh"@), arg)
    }
}

/// What a path argument stands for.
pub fn expand_path(arg: &[char], home: &str) -> (p: String)
    ensures
        p@ == expanded(arg@, home@),
{
    proof {
        reveal_strlit("~/");
        reveal_strlit("%d/");
    }
    if words::begins_with(arg, "~/") {
        let rest = text::slice_of(arg, 2, arg.len());
        assert(rest@ =~= arg@.skip(2));
        return join_path(home, rest.as_slice());
    }
    if words::begins_with(arg, "%d/") {
        let rest = text::slice_of(arg, 3, arg.len());
        assert(rest@ =~= arg@.skip(3));
        return join_path(home, rest.as_slice());
    }
    if text::reads(arg, "~") || text::reads(arg, "%d") {
        return home.to_owned();
    }
    if arg.len() > 0 && arg[0] == '/' {
        return text::string_of(arg);
    }
    let dir = text::chars_of(".ssh");
    let base = join_path(home, dir.as_slice());
    join_path(base.as_str(), arg)
}

// ---- components ------------------------------------------------------------
/// The components of a path: what lies between slashes, without what is empty and
/// without `.`, which counts only at the start of a relative path.
pub open spec fn components_from(pieces: Seq<Seq<char>>, i: int) -> Seq<Seq<char>>
    decreases pieces.len() - i,
{
    if i < 0 || i >= pieces.len() {
        seq![]
    } else if pieces[i].len() == 0 || (pieces[i] == "."@ && i > 0) {
        components_from(pieces, i + 1)
    } else {
        seq![pieces[i]] + components_from(pieces, i + 1)
    }
}

/// The components of a path.
pub open spec fn components(p: Seq<char>) -> Seq<Seq<char>> {
    components_from(text::split(p, '/'), 0)
}

/// Two paths name the same file as far as their text tells: both are absolute or
/// neither is, and they have the same components.
pub open spec fn same_path(a: Seq<char>, b: Seq<char>) -> bool {
    (a.len() > 0 && a[0] == '/') == (b.len() > 0 && b[0] == '/') && components(a) == components(b)
}

/// The components of a path.
pub fn components_of(p: &[char]) -> (parts: Vec<Vec<char>>)
    ensures
        text::texts(parts@) == components(p@),
{
    let pieces = text::split_chars(p, '/');
    let ghost model = text::split(p@, '/');
    let mut parts: Vec<Vec<char>> = Vec::new();
    let mut i: usize = 0;
    assert(text::texts(parts@) + components_from(model, 0) =~= components_from(model, 0));
    while i < pieces.len()
        invariant
            i <= pieces@.len(),
            text::texts(pieces@) == model,
            components_from(model, 0) == text::texts(parts@) + components_from(model, i as int),
        decreases pieces@.len() - i,
    {
        let ghost before = parts@;
        let piece = &pieces[i];
        assert(piece@ == model[i as int]);
        if piece.len() != 0 && !(text::reads(piece.as_slice(), ".") && i > 0) {
            let copy = text::slice_of(piece.as_slice(), 0, piece.len());
            assert(copy@ =~= piece@);
            parts.push(copy);
            proof {
                assert(text::texts(parts@) =~= text::texts(before).push(copy@));
                assert(text::texts(before) + (seq![copy@] + components_from(model, i + 1))
                    =~= text::texts(parts@) + components_from(model, i + 1));
            }
        }
        i = i + 1;
    }
    assert(text::texts(parts@) + Seq::<Seq<char>>::empty() =~= text::texts(parts@));
    parts
}

fn same_parts(a: &Vec<Vec<char>>, b: &Vec<Vec<char>>) -> (r: bool)
    ensures
        r == (text::texts(a@) == text::texts(b@)),
{
    if a.len() != b.len() {
        assert(text::texts(a@).len() != text::texts(b@).len());
        return false;
    }
    let mut i: usize = 0;
    while i < a.len()
        invariant
            i <= a@.len(),
            a@.len() == b@.len(),
            forall|j: int| 0 <= j < i ==> (#[trigger] a@[j])@ == b@[j]@,
        decreases a@.len() - i,
    {
        if !text::same_chars(a[i].as_slice(), b[i].as_slice()) {
            proof {
                assert(text::texts(a@)[i as int] == a@[i as int]@);
                assert(text::texts(b@)[i as int] == b@[i as int]@);
            }
            return false;
        }
        i = i + 1;
    }
    assert(text::texts(a@) =~= text::texts(b@));
    true
}

/// Whether two paths name the same file as far as their text tells.
pub fn paths_equal(a: &str, b: &str) -> (r: bool)
    ensures
        r == same_path(a@, b@),
{
    let x = text::chars_of(a);
    let y = text::chars_of(b);
    let ax = x.len() > 0 && x[0] == '/';
    let ay = y.len() > 0 && y[0] == '/';
    let cx = components_of(x.as_slice());
    let cy = components_of(y.as_slice());
    ax == ay && same_parts(&cx, &cy)
}

/// The path is among the paths.
pub open spec fn lists_path(paths: Seq<Seq<char>>, p: Seq<char>) -> bool {
    exists|i: int| 0 <= i < paths.len() && same_path(#[trigger] paths[i], p)
}

/// Whether the path is among the paths.
pub fn has_path(paths: &Vec<String>, p: &str) -> (b: bool)
    ensures
        b == lists_path(text::strings(paths@), p@),
{
    let ghost model = text::strings(paths@);
    let mut i: usize = 0;
    while i < paths.len()
        invariant
            i <= paths@.len(),
            model == text::strings(paths@),
            forall|j: int| 0 <= j < i ==> !same_path(#[trigger] model[j], p@),
        decreases paths@.len() - i,
    {
        assert(model[i as int] == paths@[i as int]@);
        if paths_equal(paths[i].as_str(), p) {
            return true;
        }
        i = i + 1;
    }
    false
}

/// The paths, then each of `more` that is not among them yet.
pub open spec fn with_paths(paths: Seq<Seq<char>>, more: Seq<Seq<char>>) -> Seq<Seq<char>>
    decreases more.len(),
{
    if more.len() == 0 {
        paths
    } else {
        let before = with_paths(paths, more.drop_last());
        if lists_path(before, more.last()) {
            before
        } else {
            before.push(more.last())
        }
    }
}

/// Add the path, unless it is there.
pub fn add_path(paths: &mut Vec<String>, p: String)
    ensures
        text::strings(final(paths)@) == (if lists_path(text::strings(old(paths)@), p@) {
            text::strings(old(paths)@)
        } else {
            text::strings(old(paths)@).push(p@)
        }),
{
    let ghost before = paths@;
    if !has_path(paths, p.as_str()) {
        paths.push(p);
        assert(text::strings(paths@) =~= text::strings(before).push(p@));
    }
}

/// Law: the paths that were there stay, in order, and none is listed twice if none
/// was.
pub proof fn paths_stay_distinct(paths: Seq<Seq<char>>, more: Seq<Seq<char>>)
    requires
        forall|i: int, j: int|
            0 <= i < j < paths.len() ==> !same_path(#[trigger] paths[i], #[trigger] paths[j]),
    ensures
        paths.len() <= with_paths(paths, more).len(),
        with_paths(paths, more).take(paths.len() as int) == paths,
        forall|i: int, j: int|
            0 <= i < j < with_paths(paths, more).len() ==> !same_path(
                #[trigger] with_paths(paths, more)[i],
                #[trigger] with_paths(paths, more)[j],
            ),
    decreases more.len(),
{
    if more.len() > 0 {
        paths_stay_distinct(paths, more.drop_last());
        let before = with_paths(paths, more.drop_last());
        let after = with_paths(paths, more);
        if !lists_path(before, more.last()) {
            assert(after.take(paths.len() as int) =~= before.take(paths.len() as int));
            assert forall|i: int, j: int| 0 <= i < j < after.len() implies !same_path(
                #[trigger] after[i],
                #[trigger] after[j],
            ) by {
                assert(after[i] == before[i]);
                if j < before.len() {
                    assert(after[j] == before[j]);
                }
            }
        }
    } else {
        assert(paths.take(paths.len() as int) =~= paths);
    }
}

} // verus!
