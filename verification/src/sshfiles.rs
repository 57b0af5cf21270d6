//! Configurations that name other configurations.
//!
//! A line of a configuration may name further files, whose lines then stand in its
//! place. Reading files is left to the caller: [`load`] works on what has been
//! read so far and says what it still lacks. A file that cannot be read, that was
//! read before, or that is named too deep contributes nothing.

use crate::filepath;
use crate::hostspec;
use crate::order;
use crate::order::Rank;
use crate::routes::SshConfig;
use crate::sshconfig;
use crate::sshlines;
use crate::sshlines::{Item, ItemModel, Line, LineModel};
use crate::text;
use crate::wildcard;
use crate::words;
use vstd::prelude::*;

verus! {

// ---- what has been read ----------------------------------------------------
/// A file that was looked at.
pub struct SeenFile {
    /// The path by which it was named.
    pub path: String,
    /// The path that it is known by, or the one by which it was named where that
    /// cannot be told.
    pub key: String,
    /// Its text, unless it cannot be read.
    pub content: Option<String>,
}

/// A directory that was looked at.
pub struct SeenDir {
    /// The path by which it was named.
    pub path: String,
    /// The names of its entries, unless it cannot be read.
    pub names: Option<Vec<String>>,
}

/// What has been read so far.
pub struct Snapshot {
    /// The files.
    pub files: Vec<SeenFile>,
    /// The directories.
    pub dirs: Vec<SeenDir>,
}

/// A file that was looked at, as a mathematical value.
#[verifier::ext_equal]
pub ghost struct FileModel {
    /// The path by which it was named.
    pub path: Seq<char>,
    /// The path that it is known by.
    pub key: Seq<char>,
    /// Its text, unless it cannot be read.
    pub content: Option<Seq<char>>,
}

/// A directory that was looked at, as a mathematical value.
#[verifier::ext_equal]
pub ghost struct DirModel {
    /// The path by which it was named.
    pub path: Seq<char>,
    /// The names of its entries, unless it cannot be read.
    pub names: Option<Seq<Seq<char>>>,
}

/// What has been read so far, as a mathematical value.
#[verifier::ext_equal]
pub ghost struct SnapshotModel {
    /// The files.
    pub files: Seq<FileModel>,
    /// The directories.
    pub dirs: Seq<DirModel>,
}

impl View for SeenFile {
    type V = FileModel;

    open spec fn view(&self) -> FileModel {
        FileModel {
            path: self.path@,
            key: self.key@,
            content: hostspec::optional_text(self.content),
        }
    }
}

impl View for SeenDir {
    type V = DirModel;

    open spec fn view(&self) -> DirModel {
        DirModel {
            path: self.path@,
            names: match self.names {
                Some(l) => Some(text::strings(l@)),
                None => None,
            },
        }
    }
}

impl View for Snapshot {
    type V = SnapshotModel;

    open spec fn view(&self) -> SnapshotModel {
        SnapshotModel {
            files: Seq::new(self.files@.len(), |i: int| self.files@[i]@),
            dirs: Seq::new(self.dirs@.len(), |i: int| self.dirs@[i]@),
        }
    }
}

/// The first file of a path, from position `i` on.
pub open spec fn file_at(files: Seq<FileModel>, path: Seq<char>, i: int) -> Option<FileModel>
    decreases files.len() - i,
{
    if i < 0 || i >= files.len() {
        None
    } else if files[i].path == path {
        Some(files[i])
    } else {
        file_at(files, path, i + 1)
    }
}

/// The first directory of a path, from position `i` on.
pub open spec fn dir_at(dirs: Seq<DirModel>, path: Seq<char>, i: int) -> Option<DirModel>
    decreases dirs.len() - i,
{
    if i < 0 || i >= dirs.len() {
        None
    } else if dirs[i].path == path {
        Some(dirs[i])
    } else {
        dir_at(dirs, path, i + 1)
    }
}

/// What is lacking.
#[derive(Debug)]
pub enum Missing {
    /// A file.
    File(String),
    /// The names in a directory.
    Dir(String),
}

/// What is lacking, as a mathematical value.
pub ghost enum MissingModel {
    /// A file.
    File(Seq<char>),
    /// The names in a directory.
    Dir(Seq<char>),
}

impl View for Missing {
    type V = MissingModel;

    open spec fn view(&self) -> MissingModel {
        match *self {
            Missing::File(p) => MissingModel::File(p@),
            Missing::Dir(p) => MissingModel::Dir(p@),
        }
    }
}

fn find_file<'a>(snapshot: &'a Snapshot, path: &str) -> (r: Option<&'a SeenFile>)
    ensures
        match r {
            Some(f) => file_at(snapshot@.files, path@, 0) == Some(f@),
            None => file_at(snapshot@.files, path@, 0) is None,
        },
{
    let mut i: usize = 0;
    while i < snapshot.files.len()
        invariant
            i <= snapshot.files@.len(),
            file_at(snapshot@.files, path@, 0) == file_at(snapshot@.files, path@, i as int),
        decreases snapshot.files@.len() - i,
    {
        assert(snapshot@.files[i as int] == snapshot.files@[i as int]@);
        if text::same_text(snapshot.files[i].path.as_str(), path) {
            return Some(&snapshot.files[i]);
        }
        i = i + 1;
    }
    None
}

fn find_dir<'a>(snapshot: &'a Snapshot, path: &str) -> (r: Option<&'a SeenDir>)
    ensures
        match r {
            Some(f) => dir_at(snapshot@.dirs, path@, 0) == Some(f@),
            None => dir_at(snapshot@.dirs, path@, 0) is None,
        },
{
    let mut i: usize = 0;
    while i < snapshot.dirs.len()
        invariant
            i <= snapshot.dirs@.len(),
            dir_at(snapshot@.dirs, path@, 0) == dir_at(snapshot@.dirs, path@, i as int),
        decreases snapshot.dirs@.len() - i,
    {
        assert(snapshot@.dirs[i as int] == snapshot.dirs@[i as int]@);
        if text::same_text(snapshot.dirs[i].path.as_str(), path) {
            return Some(&snapshot.dirs[i]);
        }
        i = i + 1;
    }
    None
}

// ---- sorted names ----------------------------------------------------------
/// A list in order with a text put in its place.
pub open spec fn insert_text(l: Seq<Seq<char>>, s: Seq<char>) -> Seq<Seq<char>>
    decreases l.len(),
{
    if l.len() == 0 || !order::text_lt(s, l.last()) {
        l.push(s)
    } else {
        insert_text(l.drop_last(), s).push(l.last())
    }
}

/// The names that match a pattern, in byte order.
pub open spec fn matching(names: Seq<Seq<char>>, pattern: Seq<char>) -> Seq<Seq<char>>
    decreases names.len(),
{
    if names.len() == 0 {
        seq![]
    } else if wildcard::matches_pattern(pattern, names.last()) {
        insert_text(matching(names.drop_last(), pattern), names.last())
    } else {
        matching(names.drop_last(), pattern)
    }
}

fn insert_sorted(l: &mut Vec<String>, s: String)
    ensures
        text::strings(final(l)@) == insert_text(text::strings(old(l)@), s@),
{
    let ghost all = text::strings(l@);
    let mut at: usize = l.len();
    assert(all.take(at as int) =~= all);
    assert(insert_text(all, s@) + all.skip(at as int) =~= insert_text(all, s@));
    while at > 0 && matches!(order::compare_text(s.as_str(), l[at - 1].as_str()), Rank::Less)
        invariant
            at <= l@.len(),
            all == text::strings(l@),
            insert_text(all, s@) == insert_text(all.take(at as int), s@) + all.skip(at as int),
        decreases at,
    {
        proof {
            let part = all.take(at as int);
            assert(part.drop_last() =~= all.take(at - 1));
            assert(part.last() == l@[at - 1]@);
            assert(all.skip(at - 1) =~= seq![part.last()] + all.skip(at as int));
            assert(insert_text(all.take(at - 1), s@).push(part.last()) + all.skip(at as int)
                =~= insert_text(all.take(at - 1), s@) + all.skip(at - 1));
        }
        at = at - 1;
    }
    proof {
        let part = all.take(at as int);
        if at > 0 {
            assert(part.last() == l@[at - 1]@);
        }
        assert(insert_text(part, s@) == part.push(s@));
    }
    l.insert(at, s);
    proof {
        assert(text::strings(l@) =~= all.take(at as int).push(s@) + all.skip(at as int));
    }
}

// ---- the files that a line names -------------------------------------------
/// The path that a word of the line stands for, before wildcards are seen to.
pub open spec fn named_path(word: Seq<char>, home: Seq<char>) -> Seq<char> {
    if words::begins(word, "~/"@) {
        filepath::joined(home, word.skip(2))
    } else if words::begins(word, "/"@) {
        word
    } else {
        filepath::joined(filepath::joined(home, ".ssh"@), word)
    }
}

/// The path without its last component.
pub open spec fn folder_of(p: Seq<char>) -> Seq<char> {
    let comps = filepath::components(p).drop_last();
    (if p.len() > 0 && p[0] == '/' {
        seq!['/']
    } else {
        seq![]
    }) + text::join(comps, "/"@)
}

/// The last component of a path, unless it names no entry of a directory.
pub open spec fn entry_of(p: Seq<char>) -> Option<Seq<char>> {
    let comps = filepath::components(p);
    if comps.len() == 0 || comps.last() == ".."@ || comps.last() == "."@ {
        None
    } else {
        Some(comps.last())
    }
}

/// The files that one word names. A wildcard in its last component stands for the
/// entries of the directory that match, in byte order.
pub open spec fn files_of_word(snap: SnapshotModel, word: Seq<char>, home: Seq<char>) -> Result<
    Seq<Seq<char>>,
    MissingModel,
> {
    let base = named_path(word, home);
    if word.contains('*') || word.contains('?') {
        match entry_of(base) {
            None => Ok(seq![]),
            Some(pattern) => {
                let dir = folder_of(base);
                match dir_at(snap.dirs, dir, 0) {
                    None => Err(MissingModel::Dir(dir)),
                    Some(d) => match d.names {
                        None => Ok(seq![]),
                        Some(names) => {
                            let found = matching(names, pattern);
                            Ok(
                                Seq::new(
                                    found.len(),
                                    |i: int| filepath::joined(dir, found[i]),
                                ),
                            )
                        },
                    },
                }
            },
        }
    } else {
        Ok(seq![base])
    }
}

/// The files that the words of a line name, in order.
pub open spec fn files_named(
    snap: SnapshotModel,
    words: Seq<Seq<char>>,
    home: Seq<char>,
) -> Result<Seq<Seq<char>>, MissingModel>
    decreases words.len(),
{
    if words.len() == 0 {
        Ok(seq![])
    } else {
        match files_named(snap, words.drop_last(), home) {
            Err(m) => Err(m),
            Ok(before) => match files_of_word(snap, words.last(), home) {
                Err(m) => Err(m),
                Ok(more) => Ok(before + more),
            },
        }
    }
}

fn read_named_path(word: &[char], home: &str) -> (p: String)
    ensures
        p@ == named_path(word@, home@),
{
    if words::begins_with(word, "~/") {
        proof {
            reveal_strlit("~/");
        }
        let rest = text::slice_of(word, 2, word.len());
        assert(rest@ =~= word@.skip(2));
        filepath::join_path(home, rest.as_slice())
    } else if words::begins_with(word, "/") {
        text::string_of(word)
    } else {
        let dir = text::chars_of(".ssh");
        let base = filepath::join_path(home, dir.as_slice());
        filepath::join_path(base.as_str(), word)
    }
}

fn split_folder(p: &str) -> (r: (String, Option<Vec<char>>))
    ensures
        match entry_of(p@) {
            None => r.1 is None,
            Some(name) => r.0@ == folder_of(p@) && r.1 is Some && r.1->0@ == name,
        },
{
    let chars = text::chars_of(p);
    let mut comps = filepath::components_of(chars.as_slice());
    let ghost all = filepath::components(p@);
    match comps.pop() {
        None => (String::new(), None),
        Some(last) => {
            proof {
                assert(all.last() == last@);
                assert(text::texts(comps@) =~= all.drop_last());
            }
            if text::reads(last.as_slice(), "..") || text::reads(last.as_slice(), ".") {
                return (String::new(), None);
            }
            let mut v: Vec<char> = Vec::new();
            if chars.len() > 0 && chars[0] == '/' {
                v.push('/');
            }
            let ghost head = v@;
            let mut parts: Vec<String> = Vec::new();
            let mut i: usize = 0;
            while i < comps.len()
                invariant
                    i <= comps@.len(),
                    parts@.len() == i,
                    forall|j: int| 0 <= j < i ==> (#[trigger] parts@[j])@ == comps@[j]@,
                decreases comps@.len() - i,
            {
                parts.push(text::string_of(comps[i].as_slice()));
                i = i + 1;
            }
            assert(text::strings(parts@) =~= text::texts(comps@));
            let list = words::join_strings(&parts, "/");
            text::push_text(&mut v, list.as_str());
            proof {
                assert(head =~= (if p@.len() > 0 && p@[0] == '/' {
                    seq!['/']
                } else {
                    Seq::<char>::empty()
                }));
            }
            (text::string_of(v.as_slice()), Some(last))
        },
    }
}

fn read_matching(names: &Vec<String>, pattern: &[char]) -> (found: Vec<String>)
    ensures
        text::strings(found@) == matching(text::strings(names@), pattern@),
{
    let ghost model = text::strings(names@);
    let mut found: Vec<String> = Vec::new();
    let mut i: usize = 0;
    assert(model.take(0) =~= Seq::<Seq<char>>::empty());
    assert(text::strings(found@) =~= Seq::<Seq<char>>::empty());
    while i < names.len()
        invariant
            i <= names@.len(),
            model == text::strings(names@),
            text::strings(found@) == matching(model.take(i as int), pattern@),
        decreases names@.len() - i,
    {
        proof {
            assert(model.take(i + 1).drop_last() =~= model.take(i as int));
            assert(model.take(i + 1).last() == names@[i as int]@);
        }
        let name = text::chars_of(names[i].as_str());
        if wildcard::glob_match(pattern, name.as_slice()) {
            insert_sorted(&mut found, names[i].as_str().to_owned());
        }
        i = i + 1;
    }
    assert(model.take(i as int) =~= model);
    found
}

fn read_files_of_word(snapshot: &Snapshot, word: &str, home: &str) -> (r: Result<
    Vec<String>,
    Missing,
>)
    ensures
        match r {
            Ok(l) => files_of_word(snapshot@, word@, home@) == Ok::<Seq<Seq<char>>, MissingModel>(
                text::strings(l@),
            ),
            Err(m) => files_of_word(snapshot@, word@, home@) == Err::<Seq<Seq<char>>, MissingModel>(
                m@,
            ),
        },
{
    let chars = text::chars_of(word);
    let base = read_named_path(chars.as_slice(), home);
    let mut out: Vec<String> = Vec::new();
    assert(text::strings(out@) =~= Seq::<Seq<char>>::empty());
    if !text::contains_char(chars.as_slice(), '*') && !text::contains_char(chars.as_slice(), '?') {
        let ghost b = base@;
        out.push(base);
        assert(text::strings(out@) =~= seq![b]);
        return Ok(out);
    }
    let (dir, entry) = split_folder(base.as_str());
    match entry {
        None => Ok(out),
        Some(pattern) => {
            match find_dir(snapshot, dir.as_str()) {
                None => Err(Missing::Dir(dir)),
                Some(d) => match &d.names {
                    None => Ok(out),
                    Some(names) => {
                        let found = read_matching(names, pattern.as_slice());
                        let mut i: usize = 0;
                        while i < found.len()
                            invariant
                                i <= found@.len(),
                                out@.len() == i,
                                forall|j: int|
                                    0 <= j < i ==> (#[trigger] out@[j])@ == filepath::joined(
                                        dir@,
                                        found@[j]@,
                                    ),
                            decreases found@.len() - i,
                        {
                            let name = text::chars_of(found[i].as_str());
                            out.push(filepath::join_path(dir.as_str(), name.as_slice()));
                            i = i + 1;
                        }
                        proof {
                            let model = text::strings(found@);
                            assert(text::strings(out@) =~= Seq::new(
                                model.len(),
                                |k: int| filepath::joined(dir@, model[k]),
                            ));
                        }
                        Ok(out)
                    },
                },
            }
        },
    }
}

fn append_all(l: &mut Vec<String>, more: Vec<String>)
    ensures
        text::strings(final(l)@) == text::strings(old(l)@) + text::strings(more@),
{
    let ghost start = text::strings(l@);
    let mut rest = more;
    l.append(&mut rest);
    assert(text::strings(l@) =~= start + text::strings(more@));
}

/// The files that the argument of a line names, in order.
pub fn expand_files(snapshot: &Snapshot, arg: &str, home: &str) -> (r: Result<Vec<String>, Missing>)
    ensures
        match r {
            Ok(l) => files_named(snapshot@, sshlines::args(arg@), home@) == Ok::<
                Seq<Seq<char>>,
                MissingModel,
            >(text::strings(l@)),
            Err(m) => files_named(snapshot@, sshlines::args(arg@), home@) == Err::<
                Seq<Seq<char>>,
                MissingModel,
            >(m@),
        },
{
    let chars = text::chars_of(arg);
    let list = sshlines::split_args(chars.as_slice());
    let ghost model = text::strings(list@);
    let mut out: Vec<String> = Vec::new();
    let mut i: usize = 0;
    assert(model.take(0) =~= Seq::<Seq<char>>::empty());
    assert(text::strings(out@) =~= Seq::<Seq<char>>::empty());
    while i < list.len()
        invariant
            i <= list@.len(),
            model == text::strings(list@),
            model == sshlines::args(arg@),
            files_named(snapshot@, model.take(i as int), home@) == Ok::<
                Seq<Seq<char>>,
                MissingModel,
            >(text::strings(out@)),
        decreases list@.len() - i,
    {
        proof {
            assert(model.take(i + 1).drop_last() =~= model.take(i as int));
            assert(model.take(i + 1).last() == list@[i as int]@);
        }
        match read_files_of_word(snapshot, list[i].as_str(), home) {
            Err(m) => {
                proof {
                    what_lacks_first_decides(snapshot@, model, i as int + 1, home@);
                }
                return Err(m);
            },
            Ok(more) => {
                append_all(&mut out, more);
            },
        }
        i = i + 1;
    }
    assert(model.take(i as int) =~= model);
    Ok(out)
}

proof fn what_lacks_first_decides(
    snap: SnapshotModel,
    list: Seq<Seq<char>>,
    n: int,
    home: Seq<char>,
)
    requires
        0 <= n <= list.len(),
        files_named(snap, list.take(n), home) is Err,
    ensures
        files_named(snap, list, home) == files_named(snap, list.take(n), home),
    decreases list.len(),
{
    if n == list.len() {
        assert(list.take(n) =~= list);
    } else {
        assert(list.drop_last().take(n) =~= list.take(n));
        what_lacks_first_decides(snap, list.drop_last(), n, home);
    }
}

// ---- loading ---------------------------------------------------------------
/// What has been loaded so far.
#[verifier::ext_equal]
pub ghost struct LoadModel {
    /// The lines.
    pub lines: Seq<LineModel>,
    /// The paths that the files met are known by.
    pub visited: Seq<Seq<char>>,
}

/// What has been loaded once a file has been seen to. A file that is named too
/// deep, was met before or cannot be read adds no line.
pub open spec fn file_loaded(
    snap: SnapshotModel,
    path: Seq<char>,
    home: Seq<char>,
    st: LoadModel,
    depth: int,
) -> Result<LoadModel, MissingModel>
    decreases sshconfig::MAX_DEPTH + 1 - depth, 2int, 0int,
{
    if depth > sshconfig::MAX_DEPTH {
        Ok(st)
    } else {
        match file_at(snap.files, path, 0) {
            None => Err(MissingModel::File(path)),
            Some(f) => if filepath::lists_path(st.visited, f.key) {
                Ok(st)
            } else {
                let met = LoadModel { lines: st.lines, visited: st.visited.push(f.key) };
                match f.content {
                    None => Ok(met),
                    Some(content) => texts_loaded(snap, text::split(content, '\n'), home, met, depth),
                }
            },
        }
    }
}

/// What has been loaded once these lines of text have been seen to.
pub open spec fn texts_loaded(
    snap: SnapshotModel,
    raws: Seq<Seq<char>>,
    home: Seq<char>,
    st: LoadModel,
    depth: int,
) -> Result<LoadModel, MissingModel>
    decreases sshconfig::MAX_DEPTH + 1 - depth, 1int, raws.len(),
{
    if raws.len() == 0 {
        Ok(st)
    } else {
        match texts_loaded(snap, raws.drop_last(), home, st, depth) {
            Err(m) => Err(m),
            Ok(before) => match sshlines::item_of(raws.last()) {
                ItemModel::Nothing => Ok(before),
                ItemModel::Line(l) => Ok(LoadModel { lines: before.lines.push(l), ..before }),
                ItemModel::Files(arg) => match files_named(snap, sshlines::args(arg), home) {
                    Err(m) => Err(m),
                    Ok(paths) => files_loaded(snap, paths, home, before, depth),
                },
            },
        }
    }
}

/// What has been loaded once these files, named at a depth, have been seen to.
pub open spec fn files_loaded(
    snap: SnapshotModel,
    paths: Seq<Seq<char>>,
    home: Seq<char>,
    st: LoadModel,
    depth: int,
) -> Result<LoadModel, MissingModel>
    decreases sshconfig::MAX_DEPTH + 1 - depth, 0int, paths.len(),
{
    if paths.len() == 0 || depth > sshconfig::MAX_DEPTH {
        Ok(st)
    } else {
        match files_loaded(snap, paths.drop_last(), home, st, depth) {
            Err(m) => Err(m),
            Ok(before) => file_loaded(snap, paths.last(), home, before, depth + 1),
        }
    }
}

/// Nothing loaded.
pub open spec fn nothing_loaded() -> LoadModel {
    LoadModel { lines: seq![], visited: seq![] }
}

/// What has been loaded so far.
struct Loading {
    lines: Vec<Line>,
    visited: Vec<String>,
}

impl Loading {
    spec fn model(&self) -> LoadModel {
        LoadModel {
            lines: sshlines::line_models(self.lines@),
            visited: text::strings(self.visited@),
        }
    }

    fn load_file(&mut self, snapshot: &Snapshot, path: &str, home: &str, depth: usize) -> (r: Result<
        (),
        Missing,
    >)
        requires
            depth <= sshconfig::MAX_DEPTH + 1,
        ensures
            match r {
                Ok(_) => file_loaded(snapshot@, path@, home@, old(self).model(), depth as int)
                    == Ok::<LoadModel, MissingModel>(final(self).model()),
                Err(m) => file_loaded(snapshot@, path@, home@, old(self).model(), depth as int)
                    == Err::<LoadModel, MissingModel>(m@),
            },
        decreases sshconfig::MAX_DEPTH + 1 - depth, 2int,
    {
        if depth > sshconfig::MAX_DEPTH {
            return Ok(());
        }
        let file = match find_file(snapshot, path) {
            None => {
                return Err(Missing::File(path.to_owned()));
            },
            Some(f) => f,
        };
        if filepath::has_path(&self.visited, file.key.as_str()) {
            return Ok(());
        }
        let ghost start = self.model();
        self.visited.push(file.key.as_str().to_owned());
        proof {
            assert(text::strings(self.visited@) =~= start.visited.push(file@.key));
            assert(self.model() =~= (LoadModel {
                lines: start.lines,
                visited: start.visited.push(file@.key),
            }));
        }
        match &file.content {
            None => Ok(()),
            Some(content) => self.load_texts(snapshot, content.as_str(), home, depth),
        }
    }

    fn load_texts(&mut self, snapshot: &Snapshot, content: &str, home: &str, depth: usize) -> (r:
        Result<(), Missing>)
        requires
            depth <= sshconfig::MAX_DEPTH,
        ensures
            match r {
                Ok(_) => texts_loaded(
                    snapshot@,
                    text::split(content@, '\n'),
                    home@,
                    old(self).model(),
                    depth as int,
                ) == Ok::<LoadModel, MissingModel>(final(self).model()),
                Err(m) => texts_loaded(
                    snapshot@,
                    text::split(content@, '\n'),
                    home@,
                    old(self).model(),
                    depth as int,
                ) == Err::<LoadModel, MissingModel>(m@),
            },
        decreases sshconfig::MAX_DEPTH + 1 - depth, 1int,
    {
        let ghost start = self.model();
        let chars = text::chars_of(content);
        let raws = text::split_chars(chars.as_slice(), '\n');
        let ghost model = text::split(content@, '\n');
        let mut i: usize = 0;
        assert(model.take(0) =~= Seq::<Seq<char>>::empty());
        while i < raws.len()
            invariant
                i <= raws@.len(),
                depth <= sshconfig::MAX_DEPTH,
                model == text::split(content@, '\n'),
                text::texts(raws@) == model,
                start == old(self).model(),
                texts_loaded(snapshot@, model.take(i as int), home@, start, depth as int) == Ok::<
                    LoadModel,
                    MissingModel,
                >(self.model()),
            decreases raws@.len() - i,
        {
            proof {
                assert(model.take(i + 1).drop_last() =~= model.take(i as int));
                assert(model.take(i + 1).last() == raws@[i as int]@);
            }
            let ghost before = self.model();
            match sshlines::read_line(raws[i].as_slice()) {
                Item::Nothing => {},
                Item::Line(l) => {
                    self.lines.push(l);
                    proof {
                        assert(sshlines::line_models(self.lines@) =~= before.lines.push(l@));
                        assert(self.model() =~= (LoadModel {
                            lines: before.lines.push(l@),
                            ..before
                        }));
                    }
                },
                Item::Files(arg) => {
                    let list = text::string_of(arg.as_slice());
                    let ghost n: int = i as int + 1;
                    match expand_files(snapshot, list.as_str(), home) {
                        Err(m) => {
                            proof {
                                first_lack_decides(snapshot@, model, n, home@, start, depth as int);
                            }
                            return Err(m);
                        },
                        Ok(paths) => {
                            match self.load_files(snapshot, &paths, home, depth) {
                                Err(m) => {
                                    proof {
                                        first_lack_decides(
                                            snapshot@,
                                            model,
                                            n,
                                            home@,
                                            start,
                                            depth as int,
                                        );
                                    }
                                    return Err(m);
                                },
                                Ok(_) => {},
                            }
                        },
                    }
                },
            }
            i = i + 1;
        }
        assert(model.take(i as int) =~= model);
        Ok(())
    }

    fn load_files(&mut self, snapshot: &Snapshot, paths: &Vec<String>, home: &str, depth: usize)
        -> (r: Result<(), Missing>)
        requires
            depth <= sshconfig::MAX_DEPTH,
        ensures
            match r {
                Ok(_) => files_loaded(
                    snapshot@,
                    text::strings(paths@),
                    home@,
                    old(self).model(),
                    depth as int,
                ) == Ok::<LoadModel, MissingModel>(final(self).model()),
                Err(m) => files_loaded(
                    snapshot@,
                    text::strings(paths@),
                    home@,
                    old(self).model(),
                    depth as int,
                ) == Err::<LoadModel, MissingModel>(m@),
            },
        decreases sshconfig::MAX_DEPTH + 1 - depth, 0int,
    {
        let ghost start = self.model();
        let ghost model = text::strings(paths@);
        let mut i: usize = 0;
        assert(model.take(0) =~= Seq::<Seq<char>>::empty());
        while i < paths.len()
            invariant
                i <= paths@.len(),
                depth <= sshconfig::MAX_DEPTH,
                model == text::strings(paths@),
                start == old(self).model(),
                files_loaded(snapshot@, model.take(i as int), home@, start, depth as int) == Ok::<
                    LoadModel,
                    MissingModel,
                >(self.model()),
            decreases paths@.len() - i,
        {
            proof {
                assert(model.take(i + 1).drop_last() =~= model.take(i as int));
                assert(model.take(i + 1).last() == paths@[i as int]@);
            }
            match self.load_file(snapshot, paths[i].as_str(), home, depth + 1) {
                Err(m) => {
                    proof {
                        first_file_lack_decides(
                            snapshot@,
                            model,
                            i as int + 1,
                            home@,
                            start,
                            depth as int,
                        );
                    }
                    return Err(m);
                },
                Ok(_) => {},
            }
            i = i + 1;
        }
        assert(model.take(i as int) =~= model);
        Ok(())
    }
}

proof fn first_lack_decides(
    snap: SnapshotModel,
    raws: Seq<Seq<char>>,
    n: int,
    home: Seq<char>,
    st: LoadModel,
    depth: int,
)
    requires
        0 <= n <= raws.len(),
        texts_loaded(snap, raws.take(n), home, st, depth) is Err,
    ensures
        texts_loaded(snap, raws, home, st, depth) == texts_loaded(
            snap,
            raws.take(n),
            home,
            st,
            depth,
        ),
    decreases raws.len(),
{
    if n == raws.len() {
        assert(raws.take(n) =~= raws);
    } else {
        assert(raws.drop_last().take(n) =~= raws.take(n));
        first_lack_decides(snap, raws.drop_last(), n, home, st, depth);
    }
}

proof fn first_file_lack_decides(
    snap: SnapshotModel,
    paths: Seq<Seq<char>>,
    n: int,
    home: Seq<char>,
    st: LoadModel,
    depth: int,
)
    requires
        0 <= n <= paths.len(),
        files_loaded(snap, paths.take(n), home, st, depth) is Err,
    ensures
        files_loaded(snap, paths, home, st, depth) == files_loaded(
            snap,
            paths.take(n),
            home,
            st,
            depth,
        ),
    decreases paths.len(),
{
    if n == paths.len() {
        assert(paths.take(n) =~= paths);
    } else {
        assert(paths.drop_last().take(n) =~= paths.take(n));
        first_file_lack_decides(snap, paths.drop_last(), n, home, st, depth);
    }
}

impl SshConfig {
    /// The configuration of a file, with the lines of the files that it names in
    /// place, as far as what has been read tells; else what is lacking.
    pub fn load(path: &str, home: &str, snapshot: &Snapshot) -> (r: Result<SshConfig, Missing>)
        ensures
            match r {
                Ok(c) => match file_loaded(snapshot@, path@, home@, nothing_loaded(), 0) {
                    Ok(st) => c@ == st.lines,
                    Err(_) => false,
                },
                Err(m) => file_loaded(snapshot@, path@, home@, nothing_loaded(), 0) == Err::<
                    LoadModel,
                    MissingModel,
                >(m@),
            },
    {
        let mut st = Loading { lines: Vec::new(), visited: Vec::new() };
        assert(st.model() =~= nothing_loaded());
        match st.load_file(snapshot, path, home, 0) {
            Ok(_) => Ok(SshConfig { lines: st.lines }),
            Err(m) => Err(m),
        }
    }
}

// ---- laws ------------------------------------------------------------------
/// A text takes its place before a later one.
proof fn insertion_keeps_order(l: Seq<Seq<char>>, s: Seq<char>)
    requires
        forall|i: int, j: int|
            0 <= i < j < l.len() ==> !order::text_lt(#[trigger] l[j], #[trigger] l[i]),
    ensures
        ({
            let r = insert_text(l, s);
            &&& r.len() == l.len() + 1
            &&& r.to_multiset() == l.to_multiset().insert(s)
            &&& forall|i: int, j: int|
                0 <= i < j < r.len() ==> !order::text_lt(#[trigger] r[j], #[trigger] r[i])
        }),
    decreases l.len(),
{
    broadcast use vstd::seq_lib::group_to_multiset_ensures;

    if l.len() == 0 || !order::text_lt(s, l.last()) {
        let r = l.push(s);
        assert forall|i: int, j: int| 0 <= i < j < r.len() implies !order::text_lt(
            #[trigger] r[j],
            #[trigger] r[i],
        ) by {
            if j == l.len() && i < l.len() - 1 {
                order::text_order(s, l[i], l.last());
                if order::text_lt(s, l[i]) {
                    order::text_order(l.last(), l[i], s);
                    order::text_order(l[i], l.last(), s);
                    order::text_order(s, l[i], l.last());
                }
            }
        }
    } else {
        let front = l.drop_last();
        insertion_keeps_order(front, s);
        let q = insert_text(front, s);
        let r = q.push(l.last());
        assert(l =~= front.push(l.last()));
        assert forall|i: int, j: int| 0 <= i < j < r.len() implies !order::text_lt(
            #[trigger] r[j],
            #[trigger] r[i],
        ) by {
            if j == q.len() {
                assert(q.to_multiset().count(q[i]) > 0) by {
                    assert(q.contains(q[i]));
                }
                assert(front.to_multiset().insert(s).count(q[i]) > 0);
                if q[i] == s {
                    order::text_order(s, l.last(), s);
                } else {
                    assert(front.to_multiset().count(q[i]) > 0);
                    assert(front.contains(q[i]));
                    let k = choose|k: int| 0 <= k < front.len() && front[k] == q[i];
                    assert(l[k] == front[k]);
                }
            }
        }
        assert(r.to_multiset() =~= l.to_multiset().insert(s));
    }
}

/// The names that match a pattern.
pub open spec fn matched_only(names: Seq<Seq<char>>, pattern: Seq<char>) -> Seq<Seq<char>> {
    names.filter(|n: Seq<char>| wildcard::matches_pattern(pattern, n))
}

/// What a pattern finds is every name that matches it, as often as it occurs, in
/// byte order.
pub proof fn matches_come_in_order(names: Seq<Seq<char>>, pattern: Seq<char>)
    ensures
        matching(names, pattern).to_multiset() == matched_only(names, pattern).to_multiset(),
        forall|i: int, j: int|
            0 <= i < j < matching(names, pattern).len() ==> !order::text_lt(
                #[trigger] matching(names, pattern)[j],
                #[trigger] matching(names, pattern)[i],
            ),
    decreases names.len(),
{
    broadcast use vstd::seq_lib::group_to_multiset_ensures;

    reveal(Seq::filter);
    if names.len() > 0 {
        matches_come_in_order(names.drop_last(), pattern);
        if wildcard::matches_pattern(pattern, names.last()) {
            insertion_keeps_order(matching(names.drop_last(), pattern), names.last());
        }
    }
}

/// A configuration that names no other file loads as it is read.
pub proof fn plain_files_load_as_read(
    snap: SnapshotModel,
    path: Seq<char>,
    home: Seq<char>,
    content: Seq<char>,
)
    requires
        file_at(snap.files, path, 0) is Some,
        file_at(snap.files, path, 0)->0.content == Some(content),
        forall|i: int|
            0 <= i < text::split(content, '\n').len() ==> !(sshlines::item_of(
                #[trigger] text::split(content, '\n')[i],
            ) is Files),
    ensures
        match file_loaded(snap, path, home, nothing_loaded(), 0) {
            Ok(st) => st.lines == sshlines::lines_of(text::split(content, '\n')),
            Err(_) => false,
        },
{
    let key = file_at(snap.files, path, 0)->0.key;
    let met = LoadModel { lines: seq![], visited: Seq::<Seq<char>>::empty().push(key) };
    plain_texts_load_as_read(snap, text::split(content, '\n'), home, met, 0);
    assert(Seq::<LineModel>::empty() + sshlines::lines_of(text::split(content, '\n'))
        =~= sshlines::lines_of(text::split(content, '\n')));
}

/// Lines that name no other file load as they are read.
pub proof fn plain_texts_load_as_read(
    snap: SnapshotModel,
    raws: Seq<Seq<char>>,
    home: Seq<char>,
    st: LoadModel,
    depth: int,
)
    requires
        forall|i: int| 0 <= i < raws.len() ==> !(sshlines::item_of(#[trigger] raws[i]) is Files),
    ensures
        texts_loaded(snap, raws, home, st, depth) == Ok::<LoadModel, MissingModel>(
            LoadModel { lines: st.lines + sshlines::lines_of(raws), ..st },
        ),
    decreases raws.len(),
{
    if raws.len() == 0 {
        assert(st.lines + sshlines::lines_of(raws) =~= st.lines);
    } else {
        assert forall|i: int| 0 <= i < raws.drop_last().len() implies !(sshlines::item_of(
            #[trigger] raws.drop_last()[i],
        ) is Files) by {
            assert(raws.drop_last()[i] == raws[i]);
        }
        plain_texts_load_as_read(snap, raws.drop_last(), home, st, depth);
        let before = st.lines + sshlines::lines_of(raws.drop_last());
        assert(!(sshlines::item_of(raws[raws.len() - 1]) is Files));
        match sshlines::item_of(raws.last()) {
            ItemModel::Line(l) => {
                assert(before.push(l) =~= st.lines + sshlines::lines_of(raws));
            },
            _ => {},
        }
    }
}

} // verus!
