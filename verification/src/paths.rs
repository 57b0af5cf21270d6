//! Laws of repository paths: which texts are paths, and what is wrong with the others.

use crate::path;
use crate::path::PathError;
use crate::text;
use crate::ways;
use vstd::prelude::*;

verus! {

/// The text names a file or a directory: it is not empty, is neither `.` nor `..`, and
/// holds no slash, backslash or NUL.
pub open spec fn a_name(c: Seq<char>) -> bool {
    &&& c.len() > 0
    &&& c != seq!['.']
    &&& c != seq!['.', '.']
    &&& forall|i: int| 0 <= i < c.len() ==> (#[trigger] c[i]) != '/' && c[i] != '\\' && c[i] != '\0'
}

/// The names are all names, and the first is not `.tomo`.
pub open spec fn names(parts: Seq<Seq<char>>) -> bool {
    &&& parts.len() > 0
    &&& forall|i: int| 0 <= i < parts.len() ==> a_name(#[trigger] parts[i])
    &&& parts[0] != seq!['.', 't', 'o', 'm', 'o']
}

proof fn joined_ends(parts: Seq<Seq<char>>)
    requires
        parts.len() > 0,
        forall|i: int| 0 <= i < parts.len() ==> a_name(#[trigger] parts[i]),
    ensures
        ({
            let s = text::join(parts, seq!['/']);
            &&& s.len() > 0
            &&& s.first() != '/'
            &&& s.last() != '/'
            &&& forall|i: int| 0 <= i < s.len() ==> (#[trigger] s[i]) != '\\' && s[i] != '\0'
        }),
    decreases parts.len(),
{
    let s = text::join(parts, seq!['/']);
    let last = parts.last();
    assert(a_name(parts[parts.len() - 1]));
    assert(last[last.len() - 1] != '/');
    if parts.len() == 1 {
        assert(s == parts[0]);
        assert(s[0] != '/');
    } else {
        let front = parts.drop_last();
        assert forall|i: int| 0 <= i < front.len() implies a_name(#[trigger] front[i]) by {
            assert(front[i] == parts[i]);
        }
        joined_ends(front);
        let f = text::join(front, seq!['/']);
        assert(s == f + seq!['/'] + last);
        assert(s[0] == f[0]);
        assert(s[s.len() - 1] == last[last.len() - 1]);
        assert forall|i: int| 0 <= i < s.len() implies (#[trigger] s[i]) != '\\' && s[i] != '\0' by {
            if i < f.len() {
                assert(s[i] == f[i]);
            } else if i > f.len() {
                assert(s[i] == last[i - f.len() - 1]);
            }
        }
    }
}

proof fn no_component_error(parts: Seq<Seq<char>>, i: int)
    requires
        0 <= i <= parts.len(),
        forall|k: int| i <= k < parts.len() ==> (#[trigger] parts[k]).len() > 0 && !path::is_dots(parts[k]),
    ensures
        path::component_error(parts, i) is None,
    decreases parts.len() - i,
{
    if i < parts.len() {
        no_component_error(parts, i + 1);
    }
}

/// Law: names with slashes between them are a path, and the path's components are these
/// names.
pub proof fn names_make_a_path(parts: Seq<Seq<char>>)
    requires
        names(parts),
    ensures
        path::is_path(text::join(parts, seq!['/'])),
        text::split(text::join(parts, seq!['/']), '/') == parts,
{
    let s = text::join(parts, seq!['/']);
    joined_ends(parts);
    assert forall|i: int, j: int|
        0 <= i < parts.len() && 0 <= j < parts[i].len() implies #[trigger] parts[i][j] != '/' by {
        assert(a_name(parts[i]));
    }
    ways::pieces_rejoin(parts, '/');
    assert(!s.contains('\0')) by {
        if s.contains('\0') {
            let i = s.index_of('\0');
            assert(s[i] != '\0');
        }
    }
    assert(!s.contains('\\')) by {
        if s.contains('\\') {
            let i = s.index_of('\\');
            assert(s[i] != '\\');
        }
    }
    assert forall|k: int| 0 <= k < parts.len() implies (#[trigger] parts[k]).len() > 0
        && !path::is_dots(parts[k]) by {
        assert(a_name(parts[k]));
    }
    no_component_error(parts, 0);
}

proof fn pieces_are_plain(s: Seq<char>, from: int, k: int, j: int)
    requires
        0 <= from <= s.len(),
        0 <= k < text::split_from(s, '/', from).len(),
        0 <= j < text::split_from(s, '/', from)[k].len(),
    ensures
        text::split_from(s, '/', from)[k][j] != '/',
        s.contains(text::split_from(s, '/', from)[k][j]),
    decreases s.len() - from,
{
    text::find_spec(s, '/', from);
    let e = text::find(s, '/', from);
    let l = text::split_from(s, '/', from);
    if from >= s.len() || e >= s.len() || e < from {
        assert(l[k] == s.skip(from));
        assert(l[k][j] == s[from + j]);
    } else {
        let rest = text::split_from(s, '/', e + 1);
        if k == 0 {
            assert(l[0] == s.subrange(from, e));
            assert(l[0][j] == s[from + j]);
        } else {
            assert(l[k] == rest[k - 1]);
            pieces_are_plain(s, e + 1, k - 1, j);
        }
    }
}

proof fn pieces_join(s: Seq<char>, from: int)
    requires
        0 <= from <= s.len(),
    ensures
        text::split_from(s, '/', from).len() > 0,
        text::join(text::split_from(s, '/', from), seq!['/']) == s.skip(from),
    decreases s.len() - from,
{
    text::find_spec(s, '/', from);
    let e = text::find(s, '/', from);
    if !(from >= s.len() || e >= s.len() || e < from) {
        pieces_join(s, e + 1);
        let rest = text::split_from(s, '/', e + 1);
        join_front(s.subrange(from, e), rest);
        assert(s.subrange(from, e) + seq!['/'] + s.skip(e + 1) =~= s.skip(from));
    }
}

proof fn join_front(f: Seq<char>, rest: Seq<Seq<char>>)
    requires
        rest.len() > 0,
    ensures
        text::join(seq![f] + rest, seq!['/']) == f + seq!['/'] + text::join(rest, seq!['/']),
    decreases rest.len(),
{
    let all = seq![f] + rest;
    assert(all.drop_last() =~= seq![f] + rest.drop_last());
    assert(all.last() == rest.last());
    if rest.len() == 1 {
        assert(all.drop_last() =~= seq![f]);
        assert(text::join(seq![f], seq!['/']) == f);
    } else {
        join_front(f, rest.drop_last());
        assert(text::join(all, seq!['/']) =~= f + seq!['/'] + text::join(rest, seq!['/']));
    }
}

/// Law: nothing else is a path: every path is names with slashes between them.
pub proof fn a_path_is_made_of_names(s: Seq<char>)
    requires
        path::is_path(s),
    ensures
        names(text::split(s, '/')),
        text::join(text::split(s, '/'), seq!['/']) == s,
{
    let parts = text::split(s, '/');
    pieces_join(s, 0);
    assert(s.skip(0) =~= s);
    path::sound_components(parts, 0);
    assert forall|k: int| 0 <= k < parts.len() implies a_name(#[trigger] parts[k]) by {
        assert(parts[k].len() > 0 && !path::is_dots(parts[k]));
        assert forall|j: int| 0 <= j < parts[k].len() implies (#[trigger] parts[k][j]) != '/'
            && parts[k][j] != '\\' && parts[k][j] != '\0' by {
            pieces_are_plain(s, 0, k, j);
        }
    }
}

proof fn first_component_error(parts: Seq<Seq<char>>, i: int, k: int)
    requires
        0 <= i <= k < parts.len(),
        parts[k].len() == 0 || path::is_dots(parts[k]),
        forall|j: int| i <= j < k ==> (#[trigger] parts[j]).len() > 0 && !path::is_dots(parts[j]),
    ensures
        path::component_error(parts, i) == Some(
            if parts[k].len() == 0 {
                PathError::EmptyComponent
            } else {
                PathError::DotComponent
            },
        ),
    decreases k - i,
{
    if i < k {
        first_component_error(parts, i + 1, k);
    }
}

/// Law: what is wrong with a text that is no path. Nothing at all comes first; then a NUL;
/// then a backslash; then a slash at the start; then one at the end.
pub proof fn what_is_wrong_with_the_text(s: Seq<char>)
    ensures
        path::path_error(s) == Some(PathError::Empty) <==> s.len() == 0,
        path::path_error(s) == Some(PathError::NulByte) <==> s.contains('\0'),
        path::path_error(s) == Some(PathError::Backslash) <==> s.contains('\\') && !s.contains('\0'),
        path::path_error(s) == Some(PathError::Absolute) <==> s.len() > 0 && s[0] == '/'
            && !s.contains('\\') && !s.contains('\0'),
        path::path_error(s) == Some(PathError::TrailingSlash) <==> s.len() > 0 && s[0] != '/' && s[
        s.len() - 1] == '/' && !s.contains('\\') && !s.contains('\0'),
{
    if s.contains('\0') {
        let i = s.index_of('\0');
        assert(s.len() > 0);
    }
    if s.contains('\\') {
        let i = s.index_of('\\');
        assert(s.len() > 0);
    }
    component_errors(text::split(s, '/'), 0);
}

proof fn component_errors(parts: Seq<Seq<char>>, i: int)
    requires
        0 <= i,
    ensures
        path::component_error(parts, i) is Some ==> path::component_error(parts, i) == Some(
            PathError::EmptyComponent,
        ) || path::component_error(parts, i) == Some(PathError::DotComponent),
    decreases parts.len() - i,
{
    if i < parts.len() {
        component_errors(parts, i + 1);
    }
}

/// Law: of the components, the first that is empty, `.` or `..` is reported.
pub proof fn what_is_wrong_with_the_components(s: Seq<char>, k: int)
    requires
        s.len() > 0,
        !s.contains('\0'),
        !s.contains('\\'),
        s[0] != '/',
        s[s.len() - 1] != '/',
        0 <= k < text::split(s, '/').len(),
        forall|j: int| 0 <= j < k ==> a_name(#[trigger] text::split(s, '/')[j]),
        !a_name(text::split(s, '/')[k]),
    ensures
        path::path_error(s) == Some(
            if text::split(s, '/')[k].len() == 0 {
                PathError::EmptyComponent
            } else {
                PathError::DotComponent
            },
        ),
{
    let parts = text::split(s, '/');
    assert forall|j: int| 0 <= j < parts[k].len() implies (#[trigger] parts[k][j]) != '/'
        && parts[k][j] != '\\' && parts[k][j] != '\0' by {
        pieces_are_plain(s, 0, k, j);
    }
    assert forall|j: int| 0 <= j < k implies (#[trigger] parts[j]).len() > 0 && !path::is_dots(
        parts[j],
    ) by {
        assert(a_name(parts[j]));
    }
    first_component_error(parts, 0, k);
}

/// Law: a text that is a path but for its first component being `.tomo` is refused as
/// reserved, and no other is.
pub proof fn the_state_directory_is_reserved(s: Seq<char>)
    ensures
        path::path_error(s) == Some(PathError::ReservedTomo) <==> {
            &&& text::split(s, '/')[0] == seq!['.', 't', 'o', 'm', 'o']
            &&& forall|k: int|
                0 <= k < text::split(s, '/').len() ==> a_name(#[trigger] text::split(s, '/')[k])
        },
{
    let parts = text::split(s, '/');
    pieces_join(s, 0);
    assert(s.skip(0) =~= s);
    component_errors(parts, 0);
    if path::path_error(s) == Some(PathError::ReservedTomo) {
        path::sound_components(parts, 0);
        assert forall|k: int| 0 <= k < parts.len() implies a_name(#[trigger] parts[k]) by {
            assert(parts[k].len() > 0 && !path::is_dots(parts[k]));
            assert forall|j: int| 0 <= j < parts[k].len() implies (#[trigger] parts[k][j]) != '/'
                && parts[k][j] != '\\' && parts[k][j] != '\0' by {
                pieces_are_plain(s, 0, k, j);
            }
        }
    }
    if parts[0] == seq!['.', 't', 'o', 'm', 'o'] && (forall|k: int|
        0 <= k < parts.len() ==> a_name(#[trigger] parts[k])) {
        joined_ends(parts);
        assert forall|k: int| 0 <= k < parts.len() implies (#[trigger] parts[k]).len() > 0
            && !path::is_dots(parts[k]) by {
            assert(a_name(parts[k]));
        }
        no_component_error(parts, 0);
        assert(!s.contains('\0')) by {
            if s.contains('\0') {
                let i = s.index_of('\0');
                assert(s[i] != '\0');
            }
        }
        assert(!s.contains('\\')) by {
            if s.contains('\\') {
                let i = s.index_of('\\');
                assert(s[i] != '\\');
            }
        }
    }
}

} // verus!
