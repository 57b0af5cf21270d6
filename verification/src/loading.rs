//! Laws of loading an SSH configuration from its files.

use crate::filepath;
use crate::sshfiles;
use crate::sshfiles::{FileModel, LoadModel, MissingModel, SnapshotModel};
use crate::sshlines;
use crate::sshlines::{ItemModel, LineModel};
use crate::text;
use vstd::prelude::*;

verus! {

/// None of the lines names other files.
pub open spec fn self_contained(raws: Seq<Seq<char>>) -> bool {
    forall|i: int| 0 <= i < raws.len() ==> !(sshlines::item_of(#[trigger] raws[i]) is Files)
}

/// Law: every line of text that is a line of the configuration is there, in its place,
/// and no other.
pub proof fn lines_stay_in_order(a: Seq<Seq<char>>, raw: Seq<char>, b: Seq<Seq<char>>)
    ensures
        sshlines::lines_of(a + seq![raw] + b) == sshlines::lines_of(a) + (match sshlines::item_of(
            raw,
        ) {
            ItemModel::Line(l) => seq![l],
            _ => Seq::<LineModel>::empty(),
        }) + sshlines::lines_of(b),
        sshlines::lines_of(seq![]) == Seq::<LineModel>::empty(),
    decreases b.len(),
{
    let all = a + seq![raw] + b;
    if b.len() == 0 {
        assert(all.drop_last() =~= a);
        assert(all.last() == raw);
        assert(sshlines::lines_of(all) =~= sshlines::lines_of(a) + (match sshlines::item_of(raw) {
            ItemModel::Line(l) => seq![l],
            _ => Seq::<LineModel>::empty(),
        }) + sshlines::lines_of(b));
    } else {
        lines_stay_in_order(a, raw, b.drop_last());
        assert(all.drop_last() =~= a + seq![raw] + b.drop_last());
        assert(all.last() == b.last());
        assert(sshlines::lines_of(all) =~= sshlines::lines_of(a) + (match sshlines::item_of(raw) {
            ItemModel::Line(l) => seq![l],
            _ => Seq::<LineModel>::empty(),
        }) + sshlines::lines_of(b));
    }
}

proof fn texts_in_turn(
    snap: SnapshotModel,
    a: Seq<Seq<char>>,
    b: Seq<Seq<char>>,
    home: Seq<char>,
    st: LoadModel,
    depth: int,
)
    requires
        sshfiles::texts_loaded(snap, a, home, st, depth) is Ok,
    ensures
        sshfiles::texts_loaded(snap, a + b, home, st, depth) == sshfiles::texts_loaded(
            snap,
            b,
            home,
            sshfiles::texts_loaded(snap, a, home, st, depth)->Ok_0,
            depth,
        ),
    decreases b.len(),
{
    if b.len() == 0 {
        assert(a + b =~= a);
    } else {
        texts_in_turn(snap, a, b.drop_last(), home, st, depth);
        assert((a + b).drop_last() =~= a + b.drop_last());
        assert((a + b).last() == b.last());
    }
}

/// What a file that is named by a line adds to the lines: what it holds, unless it is the
/// file that names it, or cannot be read.
pub open spec fn added_by(naming: FileModel, named: FileModel) -> Seq<LineModel> {
    if filepath::same_path(naming.key, named.key) || named.content is None {
        seq![]
    } else {
        sshlines::lines_of(text::split(named.content->Some_0, '\n'))
    }
}

/// Law: the lines of a file that is named stand where it is named: behind the lines before
/// and before the lines behind. A file that names itself, or one that cannot be read, adds
/// none.
pub proof fn named_files_load_in_place(
    snap: SnapshotModel,
    path: Seq<char>,
    home: Seq<char>,
    a: Seq<Seq<char>>,
    line: Seq<char>,
    b: Seq<Seq<char>>,
    arg: Seq<char>,
    word: Seq<char>,
)
    requires
        sshfiles::file_at(snap.files, path, 0) is Some,
        sshfiles::file_at(snap.files, path, 0)->0.content is Some,
        text::split(sshfiles::file_at(snap.files, path, 0)->0.content->0, '\n') == a + seq![line]
            + b,
        self_contained(a),
        self_contained(b),
        sshlines::item_of(line) == ItemModel::Files(arg),
        sshlines::args(arg) == seq![word],
        !word.contains('*'),
        !word.contains('?'),
        sshfiles::file_at(snap.files, sshfiles::named_path(word, home), 0) is Some,
        ({
            let named = sshfiles::file_at(snap.files, sshfiles::named_path(word, home), 0)->0;
            named.content is Some ==> self_contained(text::split(named.content->0, '\n'))
        }),
    ensures
        ({
            let naming = sshfiles::file_at(snap.files, path, 0)->0;
            let named = sshfiles::file_at(snap.files, sshfiles::named_path(word, home), 0)->0;
            match sshfiles::file_loaded(snap, path, home, sshfiles::nothing_loaded(), 0) {
                Ok(st) => st.lines == sshlines::lines_of(a) + added_by(naming, named)
                    + sshlines::lines_of(b),
                Err(_) => false,
            }
        }),
{
    let naming = sshfiles::file_at(snap.files, path, 0)->0;
    let base = sshfiles::named_path(word, home);
    let named = sshfiles::file_at(snap.files, base, 0)->0;
    let none = Seq::<Seq<char>>::empty();
    let met = LoadModel { lines: seq![], visited: none.push(naming.key) };
    // The lines before.
    sshfiles::plain_texts_load_as_read(snap, a, home, met, 0);
    let first = LoadModel { lines: met.lines + sshlines::lines_of(a), ..met };
    texts_in_turn(snap, a, seq![line], home, met, 0);
    // The line that names the file.
    assert(seq![line].drop_last() =~= none);
    assert(sshfiles::texts_loaded(snap, none, home, first, 0) == Ok::<LoadModel, MissingModel>(
        first,
    ));
    assert(seq![word].drop_last() =~= none);
    assert(sshfiles::files_named(snap, none, home) == Ok::<Seq<Seq<char>>, MissingModel>(none));
    assert(none + seq![base] =~= seq![base]);
    assert(sshfiles::files_named(snap, seq![word], home) == Ok::<Seq<Seq<char>>, MissingModel>(
        seq![base],
    ));
    assert(seq![base].drop_last() =~= none);
    assert(sshfiles::files_loaded(snap, none, home, first, 0) == Ok::<LoadModel, MissingModel>(
        first,
    ));
    let loaded = sshfiles::file_loaded(snap, base, home, first, 1);
    assert(first.visited[0] == naming.key);
    assert(filepath::lists_path(first.visited, named.key) == filepath::same_path(
        naming.key,
        named.key,
    ));
    let inner = LoadModel { lines: first.lines, visited: first.visited.push(named.key) };
    if !filepath::same_path(naming.key, named.key) && named.content is Some {
        sshfiles::plain_texts_load_as_read(
            snap,
            text::split(named.content->0, '\n'),
            home,
            inner,
            1,
        );
    }
    assert(loaded is Ok);
    let second = loaded->Ok_0;
    assert(second.lines =~= sshlines::lines_of(a) + added_by(naming, named));
    assert(seq![base].last() == base && seq![line].last() == line);
    assert(sshfiles::files_loaded(snap, seq![base], home, first, 0) == loaded);
    assert(sshfiles::texts_loaded(snap, seq![line], home, first, 0) == Ok::<
        LoadModel,
        MissingModel,
    >(second));
    // The lines behind.
    assert(sshfiles::texts_loaded(snap, a + seq![line], home, met, 0) == Ok::<
        LoadModel,
        MissingModel,
    >(second));
    texts_in_turn(snap, a + seq![line], b, home, met, 0);
    sshfiles::plain_texts_load_as_read(snap, b, home, second, 0);
}

/// Law: what a word of such a line stands for: `~/` is the home directory, an absolute
/// path stays as it is, and any other path lies in `.ssh` in the home directory.
pub proof fn where_named_files_are(x: Seq<char>, home: Seq<char>)
    requires
        home.len() > 0,
        home[home.len() - 1] != '/',
        x.len() > 0,
    ensures
        x[0] != '/' ==> sshfiles::named_path(seq!['~', '/'] + x, home) == home + seq!['/'] + x,
        x[0] == '/' ==> sshfiles::named_path(x, home) == x,
        x[0] != '/' && x[0] != '~' ==> sshfiles::named_path(x, home) == home + seq![
            '/',
            '.',
            's',
            's',
            'h',
            '/',
        ] + x,
{
    reveal_strlit("~/");
    reveal_strlit("/");
    reveal_strlit(".ssh");
    let p = seq!['~', '/'] + x;
    assert(p.take(2) =~= "~/"@);
    assert(p.skip(2) =~= x);
    if x[0] != '~' && crate::words::begins(x, "~/"@) {
        assert(x.take(2)[0] == "~/"@[0]);
    }
    if x[0] == '/' {
        assert(x.take(1) =~= "/"@);
    } else if crate::words::begins(x, "/"@) {
        assert(x.take(1)[0] == "/"@[0]);
    }
    let ssh = home + seq!['/'] + ".ssh"@;
    assert(filepath::joined(home, ".ssh"@) =~= ssh);
    assert(ssh.last() == 'h');
    if x[0] != '/' && x[0] != '~' {
        assert(filepath::joined(ssh, x) =~= home + seq!['/', '.', 's', 's', 'h', '/'] + x);
    }
}

} // verus!
