//! Laws of the way to a peer: paths, jump hosts, logins and pushes.

use crate::bootstrap;
use crate::bytes;
use crate::digest;
use crate::directives;
use crate::filepath;
use crate::push::{Push, PushEvent, PushModel};
use crate::remote;
use crate::remote::ChannelMessage;
use crate::routes;
use crate::session;
use crate::session::{EventModel, StepModel};
use crate::sshconfig;
use crate::sshconfig::{EndpointModel, RouteFault};
use crate::sshhost;
use crate::sshlines::LineModel;
use crate::text;
use crate::transport::Trouble;
use crate::words;
use vstd::prelude::*;

verus! {

// ---- pieces of a text ------------------------------------------------------
/// The pieces of a text behind a front are those of the text alone.
pub proof fn split_shift(a: Seq<char>, b: Seq<char>, sep: char, i: int)
    requires
        0 <= i <= b.len(),
    ensures
        text::split_from(a + b, sep, a.len() + i) == text::split_from(b, sep, i),
    decreases b.len() - i,
{
    let s = a + b;
    text::find_spec(b, sep, i);
    text::find_spec(s, sep, a.len() + i);
    let x = text::find(b, sep, i);
    let y = text::find(s, sep, a.len() + i);
    assert(y == a.len() + x) by {
        if y < a.len() + x {
            assert(s[y] == b[y - a.len()]);
        }
        if a.len() + x < y {
            assert(s[a.len() + x] == b[x]);
        }
    }
    if i < b.len() && x < b.len() {
        split_shift(a, b, sep, x + 1);
        assert(s.subrange(a.len() + i, y) =~= b.subrange(i, x));
    } else {
        assert(s.skip(a.len() + i) =~= b.skip(i));
    }
}

/// Law: a text without the separator is the first piece of what it stands before.
pub proof fn a_piece_leads(f: Seq<char>, sep: char, rest: Seq<char>)
    requires
        forall|i: int| 0 <= i < f.len() ==> (#[trigger] f[i]) != sep,
    ensures
        text::split(f + seq![sep] + rest, sep) == seq![f] + text::split(rest, sep),
        text::split(rest, sep).len() > 0,
{
    let s = f + seq![sep] + rest;
    assert forall|j: int| 0 <= j < f.len() implies s[j] != sep by {
        assert(s[j] == f[j]);
    }
    text::find_at(s, sep, 0, f.len() as int);
    assert(s.subrange(0, f.len() as int) =~= f);
    assert(s =~= (f + seq![sep]) + rest);
    split_shift(f + seq![sep], rest, sep, 0);
}

/// Law: a text without the separator is its only piece.
pub proof fn a_piece_alone(f: Seq<char>, sep: char)
    requires
        forall|i: int| 0 <= i < f.len() ==> (#[trigger] f[i]) != sep,
    ensures
        text::split(f, sep) == seq![f],
{
    text::find_absent(f, sep, 0);
    assert(f.skip(0) =~= f);
}

/// Law: the pieces of two texts with the separator between them are those of the one and
/// those of the other.
pub proof fn pieces_of_both(a: Seq<char>, b: Seq<char>, sep: char)
    ensures
        text::split(a + seq![sep] + b, sep) == text::split(a, sep) + text::split(b, sep),
    decreases a.len(),
{
    text::find_spec(a, sep, 0);
    let e = text::find(a, sep, 0);
    if e >= a.len() {
        a_piece_alone(a, sep);
        a_piece_leads(a, sep, b);
    } else {
        let f = a.take(e);
        let r = a.skip(e + 1);
        assert(a =~= f + seq![sep] + r);
        assert forall|i: int| 0 <= i < f.len() implies (#[trigger] f[i]) != sep by {
            assert(f[i] == a[i]);
        }
        a_piece_leads(f, sep, r);
        assert(a + seq![sep] + b =~= f + seq![sep] + (r + seq![sep] + b));
        a_piece_leads(f, sep, r + seq![sep] + b);
        pieces_of_both(r, b, sep);
        assert(text::split(a + seq![sep] + b, sep) =~= text::split(a, sep) + text::split(b, sep));
    }
}

// ---- paths -----------------------------------------------------------------
/// Law: a path below a directory. An absolute path stays as it is; any other is put behind
/// the directory with one slash between, whether the directory ends in one or not.
pub proof fn a_path_below_a_directory(base: Seq<char>, rest: Seq<char>)
    requires
        base.len() > 0,
        base[base.len() - 1] != '/',
    ensures
        rest.len() > 0 && rest[0] == '/' ==> filepath::joined(base, rest) == rest,
        rest.len() == 0 || rest[0] != '/' ==> filepath::joined(base, rest) == base + seq!['/'] + rest,
        filepath::joined(base + seq!['/'], rest) == filepath::joined(base, rest),
{
    let b = base + seq!['/'];
    assert(b.last() == '/');
}

/// Law: what a path argument stands for. `~` and `%d` are the home directory, alone and
/// before a slash; an absolute path stays as it is; and any other lies in `.ssh` in the
/// home directory.
pub proof fn what_a_path_argument_stands_for(x: Seq<char>, home: Seq<char>)
    requires
        home.len() > 0,
        home[home.len() - 1] != '/',
    ensures
        filepath::expanded(seq!['~'], home) == home,
        filepath::expanded(seq!['%', 'd'], home) == home,
        x.len() == 0 || x[0] != '/' ==> {
            &&& filepath::expanded(seq!['~', '/'] + x, home) == home + seq!['/'] + x
            &&& filepath::expanded(seq!['%', 'd', '/'] + x, home) == home + seq!['/'] + x
        },
        x.len() > 0 && x[0] == '/' ==> filepath::expanded(x, home) == x,
        x.len() > 0 && x[0] != '/' && x[0] != '~' && x[0] != '%' ==> filepath::expanded(x, home)
            == filepath::expanded(seq!['~', '/', '.', 's', 's', 'h', '/'] + x, home),
{
    reveal_strlit("~/");
    reveal_strlit("%d/");
    reveal_strlit("~");
    reveal_strlit("%d");
    reveal_strlit(".ssh");
    assert(seq!['~'] =~= "~"@);
    assert(seq!['%', 'd'] =~= "%d"@);
    assert(!words::begins(seq!['~'], "~/"@));
    assert(!words::begins(seq!['~'], "%d/"@));
    assert(!words::begins(seq!['%', 'd'], "%d/"@));
    assert(!words::begins(seq!['%', 'd'], "~/"@)) by {
        if words::begins(seq!['%', 'd'], "~/"@) {
            assert(seq!['%', 'd'].take(2)[0] == "~/"@[0]);
        }
    }
    let p = seq!['~', '/'] + x;
    assert(p.take(2) =~= "~/"@);
    assert(p.skip(2) =~= x);
    let q = seq!['%', 'd', '/'] + x;
    assert(q.take(3) =~= "%d/"@);
    assert(q.skip(3) =~= x);
    assert(!words::begins(q, "~/"@)) by {
        if words::begins(q, "~/"@) {
            assert(q.take(2)[0] == "~/"@[0]);
        }
    }
    if x.len() > 0 && x[0] != '~' && x[0] != '%' {
        if words::begins(x, "~/"@) {
            assert(x.take(2)[0] == "~/"@[0]);
        }
        if words::begins(x, "%d/"@) {
            assert(x.take(3)[0] == "%d/"@[0]);
        }
        assert("~"@[0] != x[0] && "%d"@[0] != x[0]);
        if x[0] != '/' {
            let dir = seq!['.', 's', 's', 'h', '/'] + x;
            let r = seq!['~', '/', '.', 's', 's', 'h', '/'] + x;
            assert(r.take(2) =~= "~/"@);
            assert(r.skip(2) =~= dir);
            let ssh = home + seq!['/'] + ".ssh"@;
            assert(filepath::joined(home, ".ssh"@) =~= ssh);
            assert(ssh.last() == 'h');
            assert(filepath::joined(ssh, x) =~= home + seq!['/'] + dir);
        }
    }
}

/// The pieces behind the first that count.
spec fn later(pieces: Seq<Seq<char>>) -> Seq<Seq<char>>
    decreases pieces.len(),
{
    if pieces.len() == 0 {
        seq![]
    } else if pieces[0].len() == 0 || pieces[0] == "."@ {
        later(pieces.skip(1))
    } else {
        seq![pieces[0]] + later(pieces.skip(1))
    }
}

proof fn later_components(pieces: Seq<Seq<char>>, i: int)
    requires
        0 < i <= pieces.len(),
    ensures
        filepath::components_from(pieces, i) == later(pieces.skip(i)),
    decreases pieces.len() - i,
{
    if i < pieces.len() {
        later_components(pieces, i + 1);
        assert(pieces.skip(i)[0] == pieces[i]);
        assert(pieces.skip(i).skip(1) =~= pieces.skip(i + 1));
    }
}

proof fn components_of_both(p: Seq<Seq<char>>, q: Seq<Seq<char>>, i: int)
    requires
        0 <= i <= p.len(),
        p.len() > 0,
    ensures
        filepath::components_from(p + q, i) == filepath::components_from(p, i) + later(q),
    decreases p.len() - i,
{
    if i < p.len() {
        components_of_both(p, q, i + 1);
        assert((p + q)[i] == p[i]);
        assert(filepath::components_from(p + q, i) =~= filepath::components_from(p, i) + later(q));
    } else {
        later_components(p + q, i);
        assert((p + q).skip(i) =~= q);
        assert(filepath::components_from(p, i) + later(q) =~= later(q));
    }
}

/// Law: a doubled slash, a slash at the end, and a `.` between slashes do not make another
/// path.
pub proof fn slashes_and_dots_do_not_matter(a: Seq<char>, b: Seq<char>)
    requires
        a.len() > 0,
    ensures
        filepath::same_path(a + seq!['/'] + b, a + seq!['/', '/'] + b),
        filepath::same_path(a + seq!['/'] + b, a + seq!['/', '.', '/'] + b),
        filepath::same_path(a + seq!['/'], a),
{
    reveal_strlit(".");
    let none = Seq::<char>::empty();
    let dot = seq!['.'];
    assert(dot =~= "."@);
    let p = text::split(a, '/');
    let q = text::split(b, '/');
    a_piece_alone(none, '/');
    a_piece_alone(dot, '/');
    a_piece_leads(none, '/', a);
    pieces_nonempty(a);
    pieces_of_both(a, b, '/');
    components_of_both(p, q, 0);
    // A slash more.
    a_piece_leads(none, '/', b);
    let slashed = none + seq!['/'] + b;
    pieces_of_both(a, slashed, '/');
    assert(a + seq!['/'] + slashed =~= a + seq!['/', '/'] + b);
    components_of_both(p, seq![none] + q, 0);
    assert((seq![none] + q).skip(1) =~= q);
    // A dot.
    a_piece_leads(dot, '/', b);
    let dotted = dot + seq!['/'] + b;
    pieces_of_both(a, dotted, '/');
    assert(a + seq!['/'] + dotted =~= a + seq!['/', '.', '/'] + b);
    components_of_both(p, seq![dot] + q, 0);
    assert((seq![dot] + q).skip(1) =~= q);
    // A slash at the end.
    pieces_of_both(a, none, '/');
    assert(a + seq!['/'] + none =~= a + seq!['/']);
    components_of_both(p, seq![none], 0);
    assert(seq![none].skip(1) =~= Seq::<Seq<char>>::empty());
    assert(later(Seq::<Seq<char>>::empty()) =~= Seq::<Seq<char>>::empty());
    assert(later(seq![none]) =~= Seq::<Seq<char>>::empty());
    assert(filepath::components_from(p, 0) + Seq::<Seq<char>>::empty()
        =~= filepath::components_from(p, 0));
    assert((a + seq!['/'] + b)[0] == a[0] && (a + seq!['/', '/'] + b)[0] == a[0] && (a + seq![
        '/',
        '.',
        '/',
    ] + b)[0] == a[0] && (a + seq!['/'])[0] == a[0]);
}

proof fn pieces_nonempty(a: Seq<char>)
    ensures
        text::split(a, '/').len() > 0,
{
}

// ---- key files -------------------------------------------------------------
proof fn paths_are_listed(paths: Seq<Seq<char>>, more: Seq<Seq<char>>)
    ensures
        ({
            let all = filepath::with_paths(paths, more);
            &&& paths.is_prefix_of(all)
            &&& forall|i: int| 0 <= i < more.len() ==> filepath::lists_path(all, #[trigger] more[i])
            &&& forall|i: int| paths.len() <= i < all.len() ==> more.contains(#[trigger] all[i])
        }),
    decreases more.len(),
{
    if more.len() > 0 {
        let front = more.drop_last();
        let before = filepath::with_paths(paths, front);
        let all = filepath::with_paths(paths, more);
        paths_are_listed(paths, front);
        assert(forall|i: int| 0 <= i < before.len() ==> #[trigger] all[i] == before[i]);
        assert forall|i: int| 0 <= i < more.len() implies filepath::lists_path(
            all,
            #[trigger] more[i],
        ) by {
            if i < front.len() {
                assert(front[i] == more[i]);
                let k = choose|k: int|
                    0 <= k < before.len() && filepath::same_path(#[trigger] before[k], more[i]);
                assert(filepath::same_path(all[k], more[i]));
            } else if filepath::lists_path(before, more.last()) {
                let k = choose|k: int|
                    0 <= k < before.len() && filepath::same_path(#[trigger] before[k], more.last());
                assert(filepath::same_path(all[k], more.last()));
            } else {
                assert(filepath::same_path(all[before.len() as int], more.last()));
            }
        }
        assert forall|i: int| paths.len() <= i < all.len() implies more.contains(
            #[trigger] all[i],
        ) by {
            if i < before.len() {
                assert(front.contains(before[i]));
                let k = front.index_of(before[i]);
                assert(more[k] == all[i]);
            } else {
                assert(more[more.len() - 1] == all[i]);
            }
        }
        assert(paths.is_prefix_of(all)) by {
            assert(paths =~= all.subrange(0, paths.len() as int));
        }
    }
}

/// The first `n` of the list are some of the one, and the rest some of the other.
pub open spec fn parted(
    l: Seq<Seq<char>>,
    one: Seq<Seq<char>>,
    other: Seq<Seq<char>>,
    n: int,
) -> bool {
    &&& 0 <= n <= l.len()
    &&& forall|i: int| 0 <= i < n ==> one.contains(#[trigger] l[i])
    &&& forall|i: int| n <= i < l.len() ==> other.contains(#[trigger] l[i])
}

/// Law: every key file of the caller and every one that is configured for a hop is tried,
/// the caller's before the configured ones, and no other is.
pub proof fn every_key_file_is_tried(own: Seq<Seq<char>>, hop: EndpointModel)
    ensures
        ({
            let l = session::identities_of(own, hop);
            &&& forall|i: int| 0 <= i < own.len() ==> filepath::lists_path(l, #[trigger] own[i])
            &&& forall|i: int|
                0 <= i < hop.identity_files.len() ==> filepath::lists_path(
                    l,
                    #[trigger] hop.identity_files[i],
                )
            &&& exists|n: int| #[trigger] parted(l, own, hop.identity_files, n)
        }),
{
    let none = Seq::<Seq<char>>::empty();
    let first = filepath::with_paths(none, own);
    let l = session::identities_of(own, hop);
    paths_are_listed(none, own);
    paths_are_listed(first, hop.identity_files);
    assert forall|i: int| 0 <= i < own.len() implies filepath::lists_path(l, #[trigger] own[i]) by {
        let k = choose|k: int|
            0 <= k < first.len() && filepath::same_path(#[trigger] first[k], own[i]);
        assert(l[k] == first[k]);
    }
    let n = first.len() as int;
    assert forall|i: int| 0 <= i < n implies own.contains(#[trigger] l[i]) by {
        assert(l[i] == first[i]);
    }
    assert(parted(l, own, hop.identity_files, n));
}

// ---- jump hosts ------------------------------------------------------------
/// The hop as the configuration makes it.
pub open spec fn made(
    lines: Seq<LineModel>,
    hop: Seq<char>,
    home: Seq<char>,
    port: u16,
) -> EndpointModel {
    let h = sshconfig::hop_of(hop)->Some_0;
    sshconfig::endpoint_of(sshhost::folded(lines, h.host).1, h, home, port)
}

/// The host that a hop names.
pub open spec fn host_named(hop: Seq<char>) -> Seq<char> {
    sshconfig::hop_of(hop)->Some_0.host
}

/// The hop has a host, which is reached directly.
pub open spec fn direct(lines: Seq<LineModel>, hop: Seq<char>) -> bool {
    sshconfig::hop_of(hop) is Some && directives::value_in(
        sshhost::folded(lines, host_named(hop)).1,
        "proxyjump"@,
    ) is None
}

proof fn no_proxy_no_hops(lines: Seq<LineModel>, hop: Seq<char>)
    requires
        direct(lines, hop),
    ensures
        routes::hops_before(sshhost::folded(lines, host_named(hop)).1.proxy_jump) == Seq::<
            Seq<char>,
        >::empty(),
{
    reveal_strlit("proxyjump");
    reveal_strlit("hostname");
    reveal_strlit("user");
    reveal_strlit("port");
    reveal_strlit("identitiesonly");
    reveal_strlit("stricthostkeychecking");
    reveal_strlit("userknownhostsfile");
    reveal_strlit("globalknownhostsfile");
    assert("proxyjump"@.len() == 9 && "hostname"@.len() == 8 && "user"@.len() == 4
        && "port"@.len() == 4);
    assert("identitiesonly"@.len() == 14 && "stricthostkeychecking"@.len() == 21);
    assert("userknownhostsfile"@.len() == 18 && "globalknownhostsfile"@.len() == 20);
}

/// Law: a host for which no jump host is configured is reached directly, as it is
/// configured.
pub proof fn a_direct_host_has_no_jumps(
    lines: Seq<LineModel>,
    target: Seq<char>,
    home: Seq<char>,
    port: u16,
)
    requires
        direct(lines, target),
    ensures
        ({
            let r = routes::route_of(lines, target, home, port);
            &&& r is Ok
            &&& r->Ok_0.0 == made(lines, target, home, port)
            &&& r->Ok_0.1.jumps == Seq::<EndpointModel>::empty()
        }),
{
    no_proxy_no_hops(lines, target);
}

proof fn direct_hops_follow(
    lines: Seq<LineModel>,
    hops: Seq<Seq<char>>,
    home: Seq<char>,
    port: u16,
    st: routes::ChainModel,
)
    requires
        forall|i: int| 0 <= i < hops.len() ==> direct(lines, #[trigger] hops[i]),
        forall|i: int|
            0 <= i < hops.len() ==> !st.visited.contains(host_named(#[trigger] hops[i])),
        forall|i: int, j: int|
            0 <= i < j < hops.len() ==> host_named(#[trigger] hops[i]) != host_named(
                #[trigger] hops[j],
            ),
    ensures
        ({
            let r = routes::hops_of(lines, hops, home, port, st, 0);
            &&& r is Ok
            &&& r->Ok_0.jumps == st.jumps + hops.map_values(
                |h: Seq<char>| made(lines, h, home, port),
            )
            &&& r->Ok_0.visited == st.visited + hops.map_values(|h: Seq<char>| host_named(h))
        }),
    decreases hops.len(),
{
    let f = |h: Seq<char>| made(lines, h, home, port);
    let g = |h: Seq<char>| host_named(h);
    if hops.len() == 0 {
        assert(st.jumps + hops.map_values(f) =~= st.jumps);
        assert(st.visited + hops.map_values(g) =~= st.visited);
    } else {
        let front = hops.drop_last();
        let last = hops.last();
        assert(hops[hops.len() - 1] == last);
        assert(forall|i: int| 0 <= i < front.len() ==> #[trigger] front[i] == hops[i]);
        direct_hops_follow(lines, front, home, port, st);
        let before = routes::hops_of(lines, front, home, port, st, 0)->Ok_0;
        no_proxy_no_hops(lines, last);
        assert(!before.visited.contains(host_named(last))) by {
            if before.visited.contains(host_named(last)) {
                let k = before.visited.index_of(host_named(last));
                if k < st.visited.len() {
                    assert(st.visited[k] == host_named(last));
                } else {
                    let i = k - st.visited.len();
                    assert(before.visited[k] == front.map_values(g)[i]);
                    assert(host_named(hops[i]) == host_named(hops[hops.len() - 1]));
                }
            }
        }
        let one = routes::chain_of(lines, last, home, port, before, 1);
        assert(one is Ok);
        let after = routes::hops_of(lines, hops, home, port, st, 0)->Ok_0;
        assert(after.jumps =~= st.jumps + hops.map_values(f));
        assert(after.visited =~= st.visited + hops.map_values(g));
    }
}

/// Law: jump hosts are gone through in the order in which they are written: where the
/// configuration names jump hosts for the target, with commas between them, each of them
/// another host that is reached directly, the route leads through exactly these, in this
/// order, and to the target.
pub proof fn jump_hosts_are_taken_in_order(
    lines: Seq<LineModel>,
    target: Seq<char>,
    home: Seq<char>,
    port: u16,
    hops: Seq<Seq<char>>,
)
    requires
        sshconfig::hop_of(target) is Some,
        hops.len() > 0,
        forall|i: int| 0 <= i < hops.len() ==> direct(lines, #[trigger] hops[i]),
        forall|i: int| 0 <= i < hops.len() ==> host_named(#[trigger] hops[i]) != host_named(target),
        forall|i: int, j: int|
            0 <= i < j < hops.len() ==> host_named(#[trigger] hops[i]) != host_named(
                #[trigger] hops[j],
            ),
        forall|i: int, j: int|
            0 <= i < hops.len() && 0 <= j < hops[i].len() ==> #[trigger] hops[i][j] != ',',
        forall|i: int| 0 <= i < hops.len() ==> text::trim(#[trigger] hops[i]) == hops[i],
        sshhost::folded(lines, host_named(target)).1.proxy_jump == Some(
            text::join(hops, seq![',']),
        ),
        words::lowered(text::join(hops, seq![','])) != "none"@,
    ensures
        ({
            let r = routes::route_of(lines, target, home, port);
            &&& r is Ok
            &&& r->Ok_0.0 == made(lines, target, home, port)
            &&& r->Ok_0.1.jumps == hops.map_values(|h: Seq<char>| made(lines, h, home, port))
        }),
{
    let f = |h: Seq<char>| made(lines, h, home, port);
    pieces_rejoin(hops, ',');
    let raw = sshhost::folded(lines, host_named(target)).1;
    let named = routes::hops_named(text::split(text::join(hops, seq![',']), ','));
    assert(named =~= hops) by {
        assert forall|i: int| 0 <= i < hops.len() implies named[i] == hops[i] by {
            assert(text::trim(hops[i]) == hops[i]);
        }
    }
    let none = Seq::<Seq<char>>::empty();
    let met = routes::ChainModel {
        jumps: seq![],
        visited: none.push(host_named(target)),
        unknown: words::extended(seq![], raw.unknown),
    };
    assert forall|i: int| 0 <= i < hops.len() implies !met.visited.contains(
        host_named(#[trigger] hops[i]),
    ) by {
        assert(host_named(hops[i]) != host_named(target));
        if met.visited.contains(host_named(hops[i])) {
            let k = met.visited.index_of(host_named(hops[i]));
            assert(met.visited[k] == host_named(target));
        }
    }
    direct_hops_follow(lines, hops, home, port, met);
    assert(met.jumps + hops.map_values(f) =~= hops.map_values(f));
}

/// Law: a host for which the word `none` is configured, in any letter case, is reached
/// directly.
pub proof fn none_means_no_jump_hosts(
    lines: Seq<LineModel>,
    target: Seq<char>,
    home: Seq<char>,
    port: u16,
    word: Seq<char>,
)
    requires
        sshconfig::hop_of(target) is Some,
        sshhost::folded(lines, host_named(target)).1.proxy_jump == Some(word),
        word.len() == 4,
        word[0] == 'n' || word[0] == 'N',
        word[1] == 'o' || word[1] == 'O',
        word[2] == 'n' || word[2] == 'N',
        word[3] == 'e' || word[3] == 'E',
    ensures
        ({
            let r = routes::route_of(lines, target, home, port);
            &&& r is Ok
            &&& r->Ok_0.0 == made(lines, target, home, port)
            &&& r->Ok_0.1.jumps == Seq::<EndpointModel>::empty()
        }),
{
    reveal_strlit("none");
    let l = words::lowered(word);
    assert(words::lower('N') == 'n' && words::lower('O') == 'o' && words::lower('E') == 'e');
    assert(words::lower('n') == 'n' && words::lower('o') == 'o' && words::lower('e') == 'e');
    assert(l =~= "none"@);
}

/// Law: joining texts without the separator by it and taking the pieces gives the texts.
pub proof fn pieces_rejoin(parts: Seq<Seq<char>>, sep: char)
    requires
        parts.len() > 0,
        forall|i: int, j: int|
            0 <= i < parts.len() && 0 <= j < parts[i].len() ==> #[trigger] parts[i][j] != sep,
    ensures
        text::split(text::join(parts, seq![sep]), sep) == parts,
    decreases parts.len(),
{
    let last = parts.last();
    assert forall|j: int| 0 <= j < last.len() implies (#[trigger] last[j]) != sep by {
        assert(parts[parts.len() - 1][j] != sep);
    }
    a_piece_alone(last, sep);
    if parts.len() == 1 {
        assert(parts =~= seq![last]);
    } else {
        let front = parts.drop_last();
        assert forall|i: int, j: int|
            0 <= i < front.len() && 0 <= j < front[i].len() implies #[trigger] front[i][j] != sep by {
            assert(parts[i][j] != sep);
        }
        pieces_rejoin(front, sep);
        pieces_of_both(text::join(front, seq![sep]), last, sep);
        assert(front + seq![last] =~= parts);
    }
}

/// Law: a target that is to be reached through itself is refused.
pub proof fn no_host_is_its_own_jump_host(
    lines: Seq<LineModel>,
    target: Seq<char>,
    hop: Seq<char>,
    home: Seq<char>,
    port: u16,
)
    requires
        sshconfig::hop_of(target) is Some,
        sshconfig::hop_of(hop) is Some,
        host_named(hop) == host_named(target),
        routes::hops_before(sshhost::folded(lines, host_named(target)).1.proxy_jump) == seq![hop],
    ensures
        routes::route_of(lines, target, home, port) == Err::<
            (EndpointModel, routes::ChainModel),
            RouteFault,
        >(RouteFault::Cycle { alias: host_named(target) }),
{
    let raw = sshhost::folded(lines, host_named(target)).1;
    let none = Seq::<Seq<char>>::empty();
    let met = routes::ChainModel {
        jumps: seq![],
        visited: none.push(host_named(target)),
        unknown: words::extended(seq![], raw.unknown),
    };
    assert(met.visited[0] == host_named(target));
    assert(met.visited.contains(host_named(target)));
    let hops = seq![hop];
    assert(hops.drop_last() =~= none);
    assert(hops.last() == hop);
    assert(routes::hops_of(lines, none, home, port, met, 0) == Ok::<
        routes::ChainModel,
        RouteFault,
    >(met));
    assert(routes::chain_of(lines, hop, home, port, met, 1) is Err);
}

/// Law: what a hop is made of. Its name is what is written. The host is the configured
/// one, or what is written; the port is the written one, or the configured one, or the
/// default; the user is the written one, or the configured one, if there is one. Unless
/// they are configured, keys are not limited to the configured ones and host keys are
/// checked strictly.
pub proof fn what_a_hop_is_made_of(
    raw: sshhost::RawModel,
    hop: sshconfig::HopModel,
    home: Seq<char>,
    port: u16,
)
    ensures
        ({
            let e = sshconfig::endpoint_of(raw, hop, home, port);
            &&& e.alias == hop.host
            &&& raw.host_name is Some ==> e.host_name == raw.host_name->Some_0
            &&& raw.host_name is None ==> e.host_name == hop.host
            &&& hop.port is Some ==> e.port == hop.port->Some_0
            &&& hop.port is None && raw.port is Some ==> e.port == raw.port->Some_0
            &&& hop.port is None && raw.port is None ==> e.port == port
            &&& hop.user is Some ==> e.user == hop.user
            &&& hop.user is None ==> e.user == raw.user
            &&& e.identities_only == (raw.identities_only == Some(true))
            &&& raw.strict is Some ==> e.strict == raw.strict->Some_0
            &&& raw.strict is None ==> e.strict == sshhost::StrictHostKey::Yes
        }),
{
}

/// Law: which files of known hosts are consulted: the configured ones, each as a path
/// argument; or, where none are configured, the user's two in `.ssh` and the system's two.
pub proof fn which_known_hosts_are_consulted(
    raw: sshhost::RawModel,
    hop: sshconfig::HopModel,
    home: Seq<char>,
    port: u16,
    i: int,
)
    requires
        home.len() > 0,
        home[home.len() - 1] != '/',
    ensures
        ({
            let e = sshconfig::endpoint_of(raw, hop, home, port);
            &&& raw.known_hosts is Some ==> e.known_hosts_files.len() == raw.known_hosts->0.len()
            &&& raw.known_hosts is Some && 0 <= i < raw.known_hosts->0.len()
                && raw.known_hosts->0[i].len() > 0 && raw.known_hosts->0[i][0] == '/'
                ==> e.known_hosts_files[i] == raw.known_hosts->0[i]
            &&& raw.known_hosts is None ==> e.known_hosts_files == seq![
                home + "/.ssh/known_hosts"@,
                home + "/.ssh/known_hosts2"@,
            ]
            &&& raw.global_known_hosts is None ==> e.global_known_hosts_files == seq![
                "/etc/ssh/ssh_known_hosts"@,
                "/etc/ssh/ssh_known_hosts2"@,
            ]
        }),
{
    reveal_strlit(".ssh");
    reveal_strlit("known_hosts");
    reveal_strlit("known_hosts2");
    reveal_strlit("/.ssh/known_hosts");
    reveal_strlit("/.ssh/known_hosts2");
    reveal_strlit("~/");
    reveal_strlit("%d/");
    reveal_strlit("~");
    reveal_strlit("%d");
    let ssh = filepath::joined(home, ".ssh"@);
    assert(ssh =~= home + seq!['/'] + ".ssh"@);
    assert(ssh.last() == 'h');
    assert(filepath::joined(ssh, "known_hosts"@) =~= home + "/.ssh/known_hosts"@);
    assert(filepath::joined(ssh, "known_hosts2"@) =~= home + "/.ssh/known_hosts2"@);
    if raw.known_hosts is Some && 0 <= i < raw.known_hosts->0.len()
        && raw.known_hosts->0[i].len() > 0 && raw.known_hosts->0[i][0] == '/' {
        let x = raw.known_hosts->0[i];
        what_a_path_argument_stands_for(x, home);
        let e = sshconfig::endpoint_of(raw, hop, home, port);
        assert(e.known_hosts_files[i] == filepath::expanded(x, home));
    }
}

/// Law: a new host key is recorded in the first of the user's files that is not
/// `/dev/null`, and nowhere where there is none.
pub proof fn where_keys_are_recorded(files: Seq<Seq<char>>, k: int)
    requires
        0 <= k <= files.len(),
        forall|i: int| 0 <= i < k ==> #[trigger] files[i] == "/dev/null"@,
        k < files.len() ==> files[k] != "/dev/null"@,
    ensures
        sshconfig::record_file(files, 0) == if k < files.len() {
            Some(files[k])
        } else {
            None
        },
{
    record_file_from(files, 0, k);
}

proof fn record_file_from(files: Seq<Seq<char>>, i: int, k: int)
    requires
        0 <= i <= k <= files.len(),
        forall|j: int| i <= j < k ==> #[trigger] files[j] == "/dev/null"@,
        k < files.len() ==> files[k] != "/dev/null"@,
    ensures
        sshconfig::record_file(files, i) == if k < files.len() {
            Some(files[k])
        } else {
            None
        },
    decreases k - i,
{
    if i < k {
        record_file_from(files, i + 1, k);
    }
}

// ---- connecting ------------------------------------------------------------
/// Law: every login is as the user of its hop, or as the default user where the hop names
/// none, and the logins are at the hops one after the other from the first on.
pub proof fn every_login_is_as_its_user(
    hops: Seq<EndpointModel>,
    default_user: Seq<char>,
    events: Seq<EventModel>,
    k: int,
)
    requires
        hops.len() > 0,
        0 <= k < session::logins_made(hops, default_user, events).len(),
    ensures
        k < hops.len(),
        session::logins_made(hops, default_user, events)[k].0 == k,
        session::logins_made(hops, default_user, events)[k].1 == match hops[k].user {
            Some(u) => u,
            None => default_user,
        },
{
    session::hops_are_logged_in_at_in_order(hops, default_user, events);
}

/// Law: where the first hop cannot be reached, the error names the target's address if
/// that is the target, and the jump host if it is one.
pub proof fn what_was_not_reached(hops: Seq<EndpointModel>, user: Seq<char>, reason: Seq<char>)
    requires
        hops.len() > 0,
    ensures
        ({
            let next = session::step_after(
                hops,
                user,
                StepModel::Dial,
                EventModel::Refused { reason, verdict: None },
            );
            &&& next is Failed
            &&& hops.len() == 1 ==> next->Failed_0 is Connect
            &&& hops.len() > 1 ==> next->Failed_0 is JumpConnect
        }),
{
}

/// Law: a step that fails ends the connection. A host key that was rejected is the reason,
/// before any other; a login that failed is its own reason. What has ended stays so.
pub proof fn a_failed_step_ends_the_connection(
    hops: Seq<EndpointModel>,
    user: Seq<char>,
    step: StepModel,
    reason: Seq<char>,
    why: Trouble,
    event: EventModel,
)
    ensures
        step is Dial || step is Handshake ==> session::step_after(
            hops,
            user,
            step,
            EventModel::Refused { reason, verdict: Some(why) },
        ) == StepModel::Failed(why),
        step is Dial || step is Handshake || step is Tunnel ==> session::step_after(
            hops,
            user,
            step,
            EventModel::Refused { reason, verdict: None },
        ) is Failed,
        step is Dial ==> session::step_after(hops, user, step, EventModel::TimedOut { reason })
            is Failed,
        step is Authenticate ==> session::step_after(hops, user, step, EventModel::LoginFailed(why))
            == StepModel::Failed(why),
        step is Failed || step is Connected ==> session::step_after(hops, user, step, event) == step,
{
}

// ---- pushing ---------------------------------------------------------------
/// The text is a digest in hexadecimal.
pub open spec fn hexadecimal(d: Seq<char>) -> bool {
    d.len() == 64 && forall|i: int|
        0 <= i < d.len() ==> ('0' <= #[trigger] d[i] <= '9') || ('a' <= d[i] <= 'f') || ('A' <= d[i]
            <= 'F')
}

/// Law: the digest that a tool prints is read, whatever it prints behind it, and in lower
/// case.
pub proof fn a_printed_digest_is_read(d: Seq<char>, sep: char, rest: Seq<char>)
    requires
        hexadecimal(d),
        text::is_space(sep),
    ensures
        crate::push::printed_digest(d + seq![sep] + rest) == Some(words::lowered(d)),
        crate::push::printed_digest(d) == Some(words::lowered(d)),
{
    assert(directives::one_word(d)) by {
        assert forall|i: int| 0 <= i < d.len() implies !text::is_space(#[trigger] d[i]) by {
            assert(('0' <= d[i] <= '9') || ('a' <= d[i] <= 'f') || ('A' <= d[i] <= 'F'));
        }
    }
    directives::a_word_leads(d, sep, rest);
    let l = words::words(d + seq![sep] + rest);
    assert(l[0] == d);
    assert forall|i: int| 0 <= i < 64 implies crate::push::is_hex(#[trigger] d[i]) by {
        assert(('0' <= d[i] <= '9') || ('a' <= d[i] <= 'f') || ('A' <= d[i] <= 'F'));
    }
    assert(words::words(d)[0] == d);
}

/// Law: a push in which nothing goes wrong puts the binary in place: what was written is
/// made executable, its digest is asked for, and where that is the digest of what was
/// sent, it is renamed.
pub proof fn a_good_push_arrives(p: Push, ran: PushEvent, told: PushEvent)
    requires
        ran is Ran,
        ran->Ran_0.code == 0,
        told is Ran,
        told->Ran_0.code == 0,
        crate::push::printed_digest(text::lossy_text(told->Ran_0.stdout@)) == Some(p.expected@),
    ensures
        ({
            let chmod = crate::push::push_after(p, PushModel::Write(p.temp@), PushEvent::Completed);
            let hash = crate::push::push_after(p, chmod, ran);
            let rename = crate::push::push_after(p, hash, told);
            &&& chmod is Chmod
            &&& hash is Hash
            &&& rename == (PushModel::Rename { from: p.temp@, to: p.dest@ })
            &&& crate::push::push_after(p, rename, PushEvent::Completed) is Done
        }),
{
}

/// Law: where a tool is not there or prints no digest, the next is tried, and after the
/// last the binary is read back; it is renamed if and only if what is read back has the
/// digest of what was sent, and else it is removed.
pub proof fn a_push_is_verified_by_all_means(p: Push, tool: int, cmd: Seq<char>, event: PushEvent, back: Vec<u8>)
    requires
        0 <= tool < 2,
        event is Broke || (event is Ran && (event->Ran_0.code != 0 || crate::push::printed_digest(
            text::lossy_text(event->Ran_0.stdout@),
        ) is None)),
    ensures
        ({
            let next = crate::push::push_after(p, PushModel::Hash { tool, cmd }, event);
            let read = crate::push::push_after(p, PushModel::ReadBack(p.temp@), PushEvent::Read(back));
            &&& tool == 0 ==> next is Hash && next->Hash_tool == 1
            &&& tool == 1 ==> next == PushModel::ReadBack(p.temp@)
            &&& if bytes::hex_text(digest::sha256_of(back@)) == p.expected@ {
                read == (PushModel::Rename { from: p.temp@, to: p.dest@ })
            } else {
                read is Failed && read->Failed_remove == Some(p.temp@) && read->Failed_error
                    is Integrity
            }
        }),
{
}

/// Law: a digest that is not that of what was sent ends the push, and what was written is
/// removed.
pub proof fn a_wrong_digest_ends_the_push(p: Push, tool: int, cmd: Seq<char>, told: PushEvent)
    requires
        0 <= tool < 2,
        told is Ran,
        told->Ran_0.code == 0,
        crate::push::printed_digest(text::lossy_text(told->Ran_0.stdout@)) is Some,
        crate::push::printed_digest(text::lossy_text(told->Ran_0.stdout@)) != Some(p.expected@),
    ensures
        ({
            let next = crate::push::push_after(p, PushModel::Hash { tool, cmd }, told);
            &&& next is Failed
            &&& next->Failed_remove == Some(p.temp@)
            &&& next->Failed_error is Integrity
        }),
{
}

// ---- what a command leaves behind ------------------------------------------
/// Law: every message of a command counts: output and errors, which come by stream 1, in
/// their order, and the exit code that came last.
pub proof fn every_message_counts(l: Seq<ChannelMessage>, m: ChannelMessage)
    ensures
        ({
            let before = remote::collected(l);
            let after = remote::collected(l.push(m));
            &&& after.stdout == match m {
                ChannelMessage::Data(d) => before.stdout + d@,
                _ => before.stdout,
            }
            &&& after.stderr == match m {
                ChannelMessage::Extended { data, stream } => if stream == 1 {
                    before.stderr + data@
                } else {
                    before.stderr
                },
                _ => before.stderr,
            }
            &&& after.code == match m {
                ChannelMessage::Exit(code) => Some(code),
                _ => before.code,
            }
        }),
{
    remote::messages_add_up(l, m);
}

/// Law: what is kept of the error output is its end, all of it up to 16384 bytes.
pub proof fn the_end_of_the_errors_is_kept(s: Seq<u8>)
    ensures
        s.len() <= 16384 ==> remote::last_bytes(s) == s,
        s.len() > 16384 ==> remote::last_bytes(s).len() == 16384,
        remote::last_bytes(s).is_suffix_of(s),
{
    let t = remote::last_bytes(s);
    assert(t =~= s.subrange(s.len() - t.len(), s.len() as int));
}

// ---- directories -----------------------------------------------------------
/// Law: for a path to be there, the directories of all its fronts are made, outermost
/// first, and then the path itself.
pub proof fn directories_lead_to_the_path(parts: Seq<Seq<char>>, i: int)
    requires
        0 <= i < parts.len(),
        forall|k: int| 0 <= k < parts.len() ==> (#[trigger] parts[k]).len() > 0,
        forall|k: int, j: int|
            0 <= k < parts.len() && 0 <= j < parts[k].len() ==> #[trigger] parts[k][j] != '/',
    ensures
        ({
            let relative = text::join(parts, seq!['/']);
            let absolute = seq!['/'] + relative;
            &&& remote::fronts_of(relative).len() == parts.len()
            &&& remote::fronts_of(relative)[i] == text::join(parts.take(i + 1), seq!['/'])
            &&& remote::fronts_of(absolute).len() == parts.len()
            &&& remote::fronts_of(absolute)[i] == seq!['/'] + text::join(
                parts.take(i + 1),
                seq!['/'],
            )
        }),
{
    reveal_strlit("/");
    assert("/"@ =~= seq!['/']);
    let relative = text::join(parts, seq!['/']);
    let absolute = seq!['/'] + relative;
    let none = Seq::<char>::empty();
    pieces_rejoin(parts, '/');
    a_piece_leads(none, '/', relative);
    assert(none + seq!['/'] + relative =~= absolute);
    parts_stay(parts);
    parts_behind(parts);
    first_of_join(parts);
    assert(seq![none] + parts =~= text::split(absolute, '/'));
    assert(seq!['/'] + text::join(parts.take(i + 1), seq!['/']) =~= remote::front_of(
        absolute,
        i + 1,
    ));
    assert(Seq::<char>::empty() + text::join(parts.take(i + 1), seq!['/']) =~= text::join(
        parts.take(i + 1),
        seq!['/'],
    ));
}

proof fn first_of_join(parts: Seq<Seq<char>>)
    requires
        parts.len() > 0,
        parts[0].len() > 0,
    ensures
        text::join(parts, seq!['/']).len() > 0,
        text::join(parts, seq!['/'])[0] == parts[0][0],
    decreases parts.len(),
{
    if parts.len() > 1 {
        first_of_join(parts.drop_last());
    }
}

proof fn parts_stay(parts: Seq<Seq<char>>)
    requires
        forall|k: int| 0 <= k < parts.len() ==> (#[trigger] parts[k]).len() > 0,
    ensures
        remote::path_parts(parts) == parts,
    decreases parts.len(),
{
    if parts.len() > 0 {
        let front = parts.drop_last();
        assert forall|k: int| 0 <= k < front.len() implies (#[trigger] front[k]).len() > 0 by {
            assert(front[k] == parts[k]);
        }
        parts_stay(front);
        assert(parts[parts.len() - 1].len() > 0);
        assert(front.push(parts.last()) =~= parts);
    }
}

proof fn parts_behind(parts: Seq<Seq<char>>)
    requires
        forall|k: int| 0 <= k < parts.len() ==> (#[trigger] parts[k]).len() > 0,
    ensures
        remote::path_parts(seq![Seq::<char>::empty()] + parts) == parts,
    decreases parts.len(),
{
    let none = Seq::<char>::empty();
    let all = seq![none] + parts;
    if parts.len() > 0 {
        let front = parts.drop_last();
        assert forall|k: int| 0 <= k < front.len() implies (#[trigger] front[k]).len() > 0 by {
            assert(front[k] == parts[k]);
        }
        parts_behind(front);
        assert(all.drop_last() =~= seq![none] + front);
        assert(parts[parts.len() - 1].len() > 0);
        assert(all.last() == parts.last());
        assert(front.push(parts.last()) =~= parts);
    } else {
        assert(all =~= seq![none]);
        assert(all.last() == none);
        assert(all.drop_last() =~= parts);
        assert(remote::path_parts(all) == remote::path_parts(parts));
        assert(remote::path_parts(parts) =~= parts);
    }
}

/// Law: the name that a binary is written under is in the directory of binaries, and is
/// not the name that it is renamed to.
pub proof fn a_push_is_written_beside_its_place(
    dir: Seq<char>,
    name: Seq<char>,
    pid: u32,
    counter: u64,
)
    ensures
        ({
            let temp = crate::push::temp_path_of(dir, name, pid, counter);
            &&& bootstrap::in_dir(dir, Seq::<char>::empty()).is_prefix_of(temp)
            &&& temp != bootstrap::in_dir(dir, name)
        }),
{
    reveal_strlit("/.");
    reveal_strlit("/");
    reveal_strlit(".tmp.");
    reveal_strlit(".");
    let temp = crate::push::temp_path_of(dir, name, pid, counter);
    let front = bootstrap::in_dir(dir, Seq::<char>::empty());
    assert(front =~= temp.subrange(0, front.len() as int));
    assert(temp.len() > bootstrap::in_dir(dir, name).len());
}

} // verus!
