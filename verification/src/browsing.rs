//! Laws of browsing the history: what is listed is what is recorded, all of it, and in
//! order.

use crate::history;
use crate::history::{ConflictModel, Fault, VersionId, VersionModel};
use crate::path;
use crate::queries;
use crate::queries::{ConflictView, PathModel};
use crate::reading;
use crate::reading::MetaModel;
use crate::store;
use vstd::prelude::*;

verus! {

// ---- the log of a path -----------------------------------------------------
/// The positions of the rows that a log lists.
proof fn log_positions(vs: Seq<VersionModel>, p: Seq<char>) -> (xs: Seq<int>)
    requires
        queries::log_of(vs, p) is Ok,
    ensures
        ({
            let l = queries::log_of(vs, p)->Ok_0;
            &&& xs.len() == l.len()
            &&& forall|i: int|
                0 <= i < xs.len() ==> 0 <= #[trigger] xs[i] < vs.len() && vs[xs[i]].path == p
                    && reading::meta_of(vs[xs[i]]) == Ok::<MetaModel, Fault>(l[i])
            &&& forall|i: int, j: int|
                0 <= i < j < xs.len() ==> #[trigger] xs[i] > #[trigger] xs[j]
            &&& forall|x: int|
                0 <= x < vs.len() && (#[trigger] vs[x]).path == p ==> xs.contains(x)
        }),
    decreases vs.len(),
{
    if vs.len() == 0 {
        Seq::<int>::empty()
    } else {
        let n = vs.len() - 1;
        let front = vs.drop_last();
        let ys = log_positions(front, p);
        let q = queries::log_of(front, p)->Ok_0;
        let l = queries::log_of(vs, p)->Ok_0;
        if vs.last().path != p {
            assert forall|i: int| 0 <= i < ys.len() implies 0 <= #[trigger] ys[i] < vs.len()
                && vs[ys[i]].path == p && reading::meta_of(vs[ys[i]]) == Ok::<MetaModel, Fault>(
                l[i],
            ) by {
                assert(front[ys[i]] == vs[ys[i]]);
            }
            assert forall|x: int| 0 <= x < vs.len() && (#[trigger] vs[x]).path == p implies
                ys.contains(x) by {
                assert(front[x] == vs[x]);
            }
            ys
        } else {
            let xs = seq![n] + ys;
            assert forall|i: int| 0 <= i < xs.len() implies 0 <= #[trigger] xs[i] < vs.len()
                && vs[xs[i]].path == p && reading::meta_of(vs[xs[i]]) == Ok::<MetaModel, Fault>(
                l[i],
            ) by {
                if i > 0 {
                    assert(xs[i] == ys[i - 1]);
                    assert(front[ys[i - 1]] == vs[ys[i - 1]]);
                    assert(l[i] == q[i - 1]);
                }
            }
            assert forall|i: int, j: int| 0 <= i < j < xs.len() implies #[trigger] xs[i]
                > #[trigger] xs[j] by {
                assert(xs[j] == ys[j - 1]);
                if i > 0 {
                    assert(xs[i] == ys[i - 1]);
                }
            }
            assert forall|x: int| 0 <= x < vs.len() && (#[trigger] vs[x]).path == p implies
                xs.contains(x) by {
                if x < n {
                    assert(front[x] == vs[x]);
                    let i = ys.index_of(x);
                    assert(xs[i + 1] == x);
                } else {
                    assert(xs[0] == x);
                }
            }
            xs
        }
    }
}

/// Law: a log leaves nothing out. Every version of the path is in it, present or gone,
/// and it is there as its row says.
pub proof fn a_log_is_complete(vs: Seq<VersionModel>, p: Seq<char>, x: int)
    requires
        0 <= x < vs.len(),
        vs[x].path == p,
        queries::log_of(vs, p) is Ok,
    ensures
        ({
            let l = queries::log_of(vs, p)->Ok_0;
            exists|i: int|
                0 <= i < l.len() && reading::meta_of(vs[x]) == Ok::<MetaModel, Fault>(
                    #[trigger] l[i],
                ) && l[i].id.0 == vs[x].id
        }),
{
    let xs = log_positions(vs, p);
    let i = xs.index_of(x);
    assert(vs[xs[i]] == vs[x]);
}

/// Law: a log can be had exactly where every row of the path can be read.
pub proof fn a_log_fails_only_on_unreadable_rows(vs: Seq<VersionModel>, p: Seq<char>)
    ensures
        queries::log_of(vs, p) is Ok <==> forall|x: int|
            0 <= x < vs.len() && (#[trigger] vs[x]).path == p ==> reading::meta_of(vs[x]) is Ok,
    decreases vs.len(),
{
    if vs.len() > 0 {
        let n = vs.len() - 1;
        let front = vs.drop_last();
        a_log_fails_only_on_unreadable_rows(front, p);
        assert(vs[n] == vs.last());
        assert(forall|x: int| 0 <= x < n ==> front[x] == #[trigger] vs[x]);
        if queries::log_of(vs, p) is Ok {
            assert(queries::log_of(front, p) is Ok);
            assert forall|x: int| 0 <= x < vs.len() && (#[trigger] vs[x]).path == p implies
                reading::meta_of(vs[x]) is Ok by {
                if x < n {
                    assert(front[x].path == p);
                }
            }
        }
        if forall|x: int|
            0 <= x < vs.len() && (#[trigger] vs[x]).path == p ==> reading::meta_of(vs[x]) is Ok {
            assert forall|x: int| 0 <= x < front.len() && (#[trigger] front[x]).path == p implies
                reading::meta_of(front[x]) is Ok by {
                assert(vs[x].path == p);
            }
        }
    }
}

/// Law: the newest version of a path is one of its versions, and none of them has a
/// greater identifier; a path without versions has none.
pub proof fn the_latest_version_is_the_newest(vs: Seq<VersionModel>, last: i64, p: Seq<char>)
    requires
        store::versions_ok(vs, last),
    ensures
        match queries::latest_of(vs, p) {
            Some(id) => {
                &&& exists|x: int|
                    0 <= x < vs.len() && (#[trigger] vs[x]).path == p && vs[x].id == id.0
                &&& forall|x: int|
                    0 <= x < vs.len() && (#[trigger] vs[x]).path == p ==> vs[x].id <= id.0
            },
            None => forall|x: int| 0 <= x < vs.len() ==> (#[trigger] vs[x]).path != p,
        },
    decreases vs.len(),
{
    if vs.len() > 0 {
        let n = vs.len() - 1;
        let front = vs.drop_last();
        assert(vs[n] == vs.last());
        assert(forall|x: int| 0 <= x < n ==> front[x] == #[trigger] vs[x]);
        assert(store::versions_ok(front, last)) by {
            assert forall|i: int, j: int| 0 <= i < j < front.len() implies (#[trigger] front[i]).id
                < (#[trigger] front[j]).id by {
                assert(vs[i].id < vs[j].id);
            }
            assert forall|i: int| 0 <= i < front.len() implies (#[trigger] front[i]).id
                <= last by {
                assert(vs[i].id <= last);
            }
        }
        the_latest_version_is_the_newest(front, last, p);
        if vs.last().path != p {
            match queries::latest_of(front, p) {
                Some(id) => {
                    let x = choose|x: int|
                        0 <= x < front.len() && (#[trigger] front[x]).path == p && front[x].id
                            == id.0;
                    assert(vs[x].path == p);
                    assert forall|x: int| 0 <= x < vs.len() && (#[trigger] vs[x]).path == p implies
                        vs[x].id <= id.0 by {
                        assert(front[x].path == p);
                    }
                },
                None => {
                    assert forall|x: int| 0 <= x < vs.len() implies (#[trigger] vs[x]).path
                        != p by {
                        if x < n {
                            assert(front[x].path != p);
                        }
                    }
                },
            }
        }
    }
}

// ---- recent versions -------------------------------------------------------
/// Law: the recent versions are the last rows, from the last one back, as many as are
/// asked for or as there are: whatever their paths and states, and none is left out.
pub proof fn recent_versions_are_the_last_rows(vs: Seq<VersionModel>, n: nat)
    requires
        queries::recent_of(vs, n) is Ok,
    ensures
        ({
            let l = queries::recent_of(vs, n)->Ok_0;
            &&& l.len() == (if n <= vs.len() {
                n
            } else {
                vs.len()
            })
            &&& forall|i: int|
                0 <= i < l.len() ==> (#[trigger] l[i]).0 == vs[vs.len() - 1 - i].path
                    && reading::meta_of(vs[vs.len() - 1 - i]) == Ok::<MetaModel, Fault>(l[i].1)
        }),
    decreases vs.len(),
{
    if vs.len() > 0 && n > 0 {
        let front = vs.drop_last();
        recent_versions_are_the_last_rows(front, (n - 1) as nat);
        let l = queries::recent_of(vs, n)->Ok_0;
        let q = queries::recent_of(front, (n - 1) as nat)->Ok_0;
        assert forall|i: int| 0 <= i < l.len() implies (#[trigger] l[i]).0 == vs[vs.len() - 1
            - i].path && reading::meta_of(vs[vs.len() - 1 - i]) == Ok::<MetaModel, Fault>(
            l[i].1,
        ) by {
            if i > 0 {
                assert(l[i] == q[i - 1]);
                assert(front[front.len() - 1 - (i - 1)] == vs[vs.len() - 1 - i]);
            }
        }
    }
}

/// Law: the recent versions can be had where all rows can be read.
pub proof fn recent_versions_can_be_had(vs: Seq<VersionModel>, n: nat)
    requires
        forall|x: int|
            0 <= x < vs.len() ==> path::path_error((#[trigger] vs[x]).path) is None
                && reading::meta_of(vs[x]) is Ok,
    ensures
        queries::recent_of(vs, n) is Ok,
    decreases vs.len(),
{
    if vs.len() > 0 && n > 0 {
        let front = vs.drop_last();
        assert forall|x: int| 0 <= x < front.len() implies path::path_error(
            (#[trigger] front[x]).path,
        ) is None && reading::meta_of(front[x]) is Ok by {
            assert(front[x] == vs[x]);
        }
        recent_versions_can_be_had(front, (n - 1) as nat);
        assert(vs[vs.len() - 1] == vs.last());
    }
}

// ---- paths with a history --------------------------------------------------
/// The versions of a path.
pub open spec fn versions_of(vs: Seq<VersionModel>, p: Seq<char>) -> Seq<VersionModel> {
    vs.filter(|v: VersionModel| v.path == p)
}

/// The paths that have a version.
pub open spec fn paths_in(vs: Seq<VersionModel>) -> Set<Seq<char>> {
    vs.map_values(|v: VersionModel| v.path).to_set()
}

/// The paths that are listed.
pub open spec fn listed_paths(l: Seq<PathModel>) -> Seq<Seq<char>> {
    l.map_values(|s: PathModel| s.path)
}

proof fn counted_versions(vs: Seq<VersionModel>, p: Seq<char>)
    ensures
        queries::count_of(vs, p) == versions_of(vs, p).len(),
    decreases vs.len(),
{
    reveal(Seq::filter);
    if vs.len() > 0 {
        counted_versions(vs.drop_last(), p);
    }
}

/// The positions of the rows that stand for the listed paths.
proof fn path_positions(vs: Seq<VersionModel>, k: int, n: nat) -> (xs: Seq<int>)
    requires
        0 <= k <= vs.len(),
        queries::paths_of(vs, k, n) is Ok,
    ensures
        ({
            let l = queries::paths_of(vs, k, n)->Ok_0;
            &&& xs.len() == l.len()
            &&& xs.len() <= n
            &&& forall|i: int|
                0 <= i < xs.len() ==> 0 <= #[trigger] xs[i] < k && queries::newest_of_path(
                    vs,
                    xs[i],
                ) && l[i] == (PathModel {
                    path: vs[xs[i]].path,
                    versions: queries::count_of(vs, vs[xs[i]].path),
                    last_version: VersionId(vs[xs[i]].id),
                    last_wall_ms: history::from_sql(vs[xs[i]].wall_ms),
                })
            &&& forall|i: int, j: int|
                0 <= i < j < xs.len() ==> #[trigger] xs[i] > #[trigger] xs[j]
            &&& forall|x: int|
                0 <= x < k && #[trigger] queries::newest_of_path(vs, x) ==> xs.contains(x) || (
                xs.len() == n && forall|i: int| 0 <= i < xs.len() ==> #[trigger] xs[i] > x)
        }),
    decreases k,
{
    if k <= 0 || n == 0 {
        Seq::<int>::empty()
    } else if !queries::newest_of_path(vs, k - 1) {
        path_positions(vs, k - 1, n)
    } else {
        let ys = path_positions(vs, k - 1, (n - 1) as nat);
        let xs = seq![k - 1] + ys;
        let l = queries::paths_of(vs, k, n)->Ok_0;
        let q = queries::paths_of(vs, k - 1, (n - 1) as nat)->Ok_0;
        assert forall|i: int| 0 <= i < xs.len() implies 0 <= #[trigger] xs[i] < k
            && queries::newest_of_path(vs, xs[i]) && l[i] == (PathModel {
            path: vs[xs[i]].path,
            versions: queries::count_of(vs, vs[xs[i]].path),
            last_version: VersionId(vs[xs[i]].id),
            last_wall_ms: history::from_sql(vs[xs[i]].wall_ms),
        }) by {
            if i > 0 {
                assert(xs[i] == ys[i - 1]);
                assert(l[i] == q[i - 1]);
            }
        }
        assert forall|i: int, j: int| 0 <= i < j < xs.len() implies #[trigger] xs[i]
            > #[trigger] xs[j] by {
            assert(xs[j] == ys[j - 1]);
            if i > 0 {
                assert(xs[i] == ys[i - 1]);
            }
        }
        assert forall|x: int|
            0 <= x < k && #[trigger] queries::newest_of_path(vs, x) implies xs.contains(x) || (
        xs.len() == n && forall|i: int| 0 <= i < xs.len() ==> #[trigger] xs[i] > x) by {
            if x == k - 1 {
                assert(xs[0] == x);
            } else if ys.contains(x) {
                let i = ys.index_of(x);
                assert(xs[i + 1] == x);
            } else {
                assert forall|i: int| 0 <= i < xs.len() implies #[trigger] xs[i] > x by {
                    if i > 0 {
                        assert(xs[i] == ys[i - 1]);
                    }
                }
            }
        }
        xs
    }
}

/// The newest row of the path of a row.
proof fn newest_row(vs: Seq<VersionModel>, x: int) -> (y: int)
    requires
        0 <= x < vs.len(),
    ensures
        x <= y < vs.len(),
        vs[y].path == vs[x].path,
        queries::newest_of_path(vs, y),
    decreases vs.len() - x,
{
    if queries::newest_of_path(vs, x) {
        x
    } else {
        let z = choose|z: int| x < z < vs.len() && (#[trigger] vs[z]).path == vs[x].path;
        newest_row(vs, z)
    }
}

/// Law: every path that has a version is listed, whatever its newest version is, where
/// the limit leaves room for all of them. Where it does not, the list is full, and a
/// path that is left out has no version as new as the newest one of any listed path.
pub proof fn every_path_with_history_is_listed(
    vs: Seq<VersionModel>,
    last: i64,
    n: nat,
    x: int,
)
    requires
        store::versions_ok(vs, last),
        queries::paths_of(vs, vs.len() as int, n) is Ok,
        0 <= x < vs.len(),
    ensures
        ({
            let l = queries::paths_of(vs, vs.len() as int, n)->Ok_0;
            &&& paths_in(vs).len() <= n ==> listed_paths(l).contains(vs[x].path)
            &&& !listed_paths(l).contains(vs[x].path) ==> l.len() == n && forall|i: int|
                0 <= i < l.len() ==> (#[trigger] l[i]).last_version.0 > vs[x].id
        }),
{
    let l = queries::paths_of(vs, vs.len() as int, n)->Ok_0;
    let xs = path_positions(vs, vs.len() as int, n);
    let y = newest_row(vs, x);
    let names = listed_paths(l);
    if xs.contains(y) {
        let i = xs.index_of(y);
        assert(names[i] == vs[x].path);
    } else {
        assert(xs.len() == n && forall|i: int| 0 <= i < xs.len() ==> #[trigger] xs[i] > y);
        assert forall|i: int| 0 <= i < l.len() implies (#[trigger] l[i]).last_version.0
            > vs[x].id by {
            assert(xs[i] > y);
            assert(vs[xs[i]].id == l[i].last_version.0);
            assert(vs[x].id < vs[xs[i]].id);
        }
    }
    if !names.contains(vs[x].path) {
        names_are_distinct(vs, n);
        names.unique_seq_to_set();
        let all = vs.map_values(|v: VersionModel| v.path);
        assert(all[x] == vs[x].path);
        vstd::seq_lib::seq_to_set_is_finite(all);
        assert forall|p: Seq<char>| names.to_set().contains(p) implies paths_in(vs).remove(
            vs[x].path,
        ).contains(p) by {
            let i = names.index_of(p);
            assert(all[xs[i]] == p);
        }
        vstd::set_lib::lemma_len_subset(names.to_set(), paths_in(vs).remove(vs[x].path));
    }
}

proof fn names_are_distinct(vs: Seq<VersionModel>, n: nat)
    requires
        queries::paths_of(vs, vs.len() as int, n) is Ok,
    ensures
        listed_paths(queries::paths_of(vs, vs.len() as int, n)->Ok_0).no_duplicates(),
{
    let l = queries::paths_of(vs, vs.len() as int, n)->Ok_0;
    let xs = path_positions(vs, vs.len() as int, n);
    let names = listed_paths(l);
    assert forall|i: int, j: int| 0 <= i < names.len() && 0 <= j < names.len() && i != j implies names[i]
        != names[j] by {
        let a = if i < j {
            i
        } else {
            j
        };
        let b = if i < j {
            j
        } else {
            i
        };
        assert(xs[a] > xs[b]);
        assert(queries::newest_of_path(vs, xs[b]));
        assert(vs[xs[a]].path != vs[xs[b]].path);
    }
}

/// Law: what is said of a listed path is true of it: how many versions it has, which of
/// them has the greatest identifier, and when that one was recorded. No path is listed
/// twice, and the one with the newest version comes first.
pub proof fn listed_paths_are_summed_up(vs: Seq<VersionModel>, last: i64, n: nat)
    requires
        store::versions_ok(vs, last),
        queries::paths_of(vs, vs.len() as int, n) is Ok,
    ensures
        ({
            let l = queries::paths_of(vs, vs.len() as int, n)->Ok_0;
            &&& l.len() <= n
            &&& listed_paths(l).no_duplicates()
            &&& forall|i: int, j: int|
                0 <= i < j < l.len() ==> (#[trigger] l[i]).last_version.0 > (
                #[trigger] l[j]).last_version.0
            &&& forall|i: int|
                0 <= i < l.len() ==> (#[trigger] l[i]).versions == versions_of(vs, l[i].path).len()
            &&& forall|i: int, x: int|
                0 <= i < l.len() && 0 <= x < vs.len() && (#[trigger] vs[x]).path == (
                #[trigger] l[i]).path ==> vs[x].id <= l[i].last_version.0
            &&& forall|i: int|
                0 <= i < l.len() ==> exists|x: int|
                    0 <= x < vs.len() && (#[trigger] vs[x]).path == (#[trigger] l[i]).path
                        && vs[x].id == l[i].last_version.0 && history::from_sql(vs[x].wall_ms)
                        == l[i].last_wall_ms
        }),
{
    let l = queries::paths_of(vs, vs.len() as int, n)->Ok_0;
    let xs = path_positions(vs, vs.len() as int, n);
    names_are_distinct(vs, n);
    assert forall|i: int, j: int| 0 <= i < j < l.len() implies (#[trigger] l[i]).last_version.0 > (
    #[trigger] l[j]).last_version.0 by {
        assert(xs[i] > xs[j]);
        assert(vs[xs[j]].id < vs[xs[i]].id);
    }
    assert forall|i: int| 0 <= i < l.len() implies (#[trigger] l[i]).versions == versions_of(
        vs,
        l[i].path,
    ).len() by {
        assert(0 <= xs[i] < vs.len());
        counted_versions(vs, l[i].path);
    }
    assert forall|i: int, x: int|
        0 <= i < l.len() && 0 <= x < vs.len() && (#[trigger] vs[x]).path == (
        #[trigger] l[i]).path implies vs[x].id <= l[i].last_version.0 by {
        assert(queries::newest_of_path(vs, xs[i]));
        if x > xs[i] {
            assert(vs[x].path != vs[xs[i]].path);
        } else if x < xs[i] {
            assert(vs[x].id < vs[xs[i]].id);
        }
    }
    assert forall|i: int| 0 <= i < l.len() implies exists|x: int|
        0 <= x < vs.len() && (#[trigger] vs[x]).path == (#[trigger] l[i]).path && vs[x].id
            == l[i].last_version.0 && history::from_sql(vs[x].wall_ms) == l[i].last_wall_ms by {
        assert(0 <= xs[i] < vs.len());
        assert(vs[xs[i]].path == l[i].path);
    }
}

/// Law: the list of paths can be had where every recorded path is a path.
pub proof fn paths_can_be_listed(vs: Seq<VersionModel>, k: int, n: nat)
    requires
        0 <= k <= vs.len(),
        forall|x: int| 0 <= x < vs.len() ==> path::path_error((#[trigger] vs[x]).path) is None,
    ensures
        queries::paths_of(vs, k, n) is Ok,
    decreases k,
{
    if k > 0 && n > 0 {
        paths_can_be_listed(vs, k - 1, n);
        paths_can_be_listed(vs, k - 1, (n - 1) as nat);
        assert(path::path_error(vs[k - 1].path) is None);
    }
}

// ---- content by its hash ---------------------------------------------------
/// Law: content is looked for by its hash among the versions that are present. It is
/// found exactly where one of them has the hash, and then in the newest such version.
pub proof fn content_is_found_by_hash(vs: Seq<VersionModel>, hash: Seq<u8>)
    ensures
        match queries::by_hash(vs, hash) {
            Some(k) => {
                &&& 0 <= k < vs.len()
                &&& vs[k].state == 1 && vs[k].content_hash == Some(hash)
                &&& forall|x: int|
                    k < x < vs.len() ==> !((#[trigger] vs[x]).state == 1 && vs[x].content_hash
                        == Some(hash))
            },
            None => forall|x: int|
                0 <= x < vs.len() ==> !((#[trigger] vs[x]).state == 1 && vs[x].content_hash == Some(
                    hash,
                )),
        },
    decreases vs.len(),
{
    if vs.len() > 0 {
        let n = vs.len() - 1;
        let front = vs.drop_last();
        content_is_found_by_hash(front, hash);
        assert(vs[n] == vs.last());
        assert(forall|x: int| 0 <= x < n ==> front[x] == #[trigger] vs[x]);
        if !(vs.last().state == 1 && vs.last().content_hash == Some(hash)) {
            match queries::by_hash(front, hash) {
                Some(k) => {
                    assert forall|x: int| k < x < vs.len() implies !((#[trigger] vs[x]).state == 1
                        && vs[x].content_hash == Some(hash)) by {
                        if x < n {
                            assert(!(front[x].state == 1 && front[x].content_hash == Some(hash)));
                        }
                    }
                },
                None => {
                    assert forall|x: int| 0 <= x < vs.len() implies !((#[trigger] vs[x]).state == 1
                        && vs[x].content_hash == Some(hash)) by {
                        if x < n {
                            assert(!(front[x].state == 1 && front[x].content_hash == Some(hash)));
                        }
                    }
                },
            }
        }
    }
}

// ---- conflicts -------------------------------------------------------------
/// What is listed of a conflict is what its row holds.
pub open spec fn shows(c: ConflictModel, v: ConflictView) -> bool {
    &&& v.id.0 == c.id
    &&& v.path == c.path
    &&& v.winner.0 == c.winner
    &&& v.loser.0 == c.loser
    &&& v.wall_ms == history::from_sql(c.wall_ms)
    &&& v.resolved == (c.resolved != 0)
}

/// Law: all conflicts are listed, row by row, each as its row says.
pub proof fn all_conflicts_are_listed(cs: Seq<ConflictModel>)
    requires
        queries::conflicts_of(cs, false) is Ok,
    ensures
        ({
            let l = queries::conflicts_of(cs, false)->Ok_0;
            &&& l.len() == cs.len()
            &&& forall|i: int| 0 <= i < cs.len() ==> shows(#[trigger] cs[i], l[i])
        }),
    decreases cs.len(),
{
    if cs.len() > 0 {
        let front = cs.drop_last();
        all_conflicts_are_listed(front);
        let l = queries::conflicts_of(cs, false)->Ok_0;
        let q = queries::conflicts_of(front, false)->Ok_0;
        assert forall|i: int| 0 <= i < cs.len() implies shows(#[trigger] cs[i], l[i]) by {
            if i < front.len() {
                assert(front[i] == cs[i]);
                assert(l[i] == q[i]);
            }
        }
    }
}

/// Law: the open conflicts are those of all conflicts that are not resolved, in the same
/// order.
pub proof fn open_conflicts_are_the_unresolved(cs: Seq<ConflictModel>)
    requires
        queries::conflicts_of(cs, false) is Ok,
    ensures
        queries::conflicts_of(cs, true) == Ok::<Seq<ConflictView>, Fault>(
            queries::conflicts_of(cs, false)->Ok_0.filter(|v: ConflictView| !v.resolved),
        ),
    decreases cs.len(),
{
    reveal(Seq::filter);
    if cs.len() > 0 {
        open_conflicts_are_the_unresolved(cs.drop_last());
        let l = queries::conflicts_of(cs, false)->Ok_0;
        let q = queries::conflicts_of(cs.drop_last(), false)->Ok_0;
        assert(l.drop_last() =~= q);
    }
}

/// Law: the conflicts can be listed where every path of theirs is a path.
pub proof fn conflicts_can_be_listed(cs: Seq<ConflictModel>, only: bool)
    requires
        forall|x: int| 0 <= x < cs.len() ==> path::path_error((#[trigger] cs[x]).path) is None,
    ensures
        queries::conflicts_of(cs, only) is Ok,
    decreases cs.len(),
{
    if cs.len() > 0 {
        let front = cs.drop_last();
        assert forall|x: int| 0 <= x < front.len() implies path::path_error(
            (#[trigger] front[x]).path,
        ) is None by {
            assert(front[x] == cs[x]);
        }
        conflicts_can_be_listed(front, only);
        assert(cs[cs.len() - 1] == cs.last());
    }
}

} // verus!
