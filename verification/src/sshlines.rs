//! The lines of an `ssh_config` file.

use crate::text;
use crate::wildcard;
use crate::words;
use vstd::prelude::*;

verus! {

// ---- directives ------------------------------------------------------------
/// The first position of white space or an equals sign at or after `i`, or the
/// length.
pub open spec fn keyword_end(s: Seq<char>, i: int) -> int
    decreases s.len() - i,
{
    if 0 <= i < s.len() && !text::is_space(s[i]) && s[i] != '=' {
        keyword_end(s, i + 1)
    } else {
        i
    }
}

/// A text that begins with white space and perhaps an equals sign, without them.
pub open spec fn after_equals(s: Seq<char>) -> Seq<char> {
    let r = text::trim_start(s);
    if r.len() > 0 && r[0] == '=' {
        text::trim_start(r.skip(1))
    } else {
        r
    }
}

/// The keyword and the argument of a line: `Keyword value` or `Keyword=value`.
/// `None` for a blank line, a comment, and a line without a keyword or without an
/// argument.
pub open spec fn directive(line: Seq<char>) -> Option<(Seq<char>, Seq<char>)> {
    let s = text::trim(line);
    let e = keyword_end(s, 0);
    if s.len() == 0 || s[0] == '#' || e <= 0 || e >= s.len() {
        None
    } else {
        let rest = after_equals(s.skip(e));
        if rest.len() == 0 {
            None
        } else {
            Some((s.take(e), rest))
        }
    }
}

/// The keyword and the argument of a line.
pub fn split_directive(line: &[char]) -> (r: Option<(Vec<char>, Vec<char>)>)
    ensures
        match r {
            Some((k, a)) => directive(line@) == Some((k@, a@)),
            None => directive(line@) is None,
        },
{
    let s = text::trim_chars(line);
    if s.len() == 0 || s[0] == '#' {
        return None;
    }
    let mut e: usize = 0;
    while e < s.len() && !text::space(s[e]) && s[e] != '='
        invariant
            e <= s@.len(),
            keyword_end(s@, 0) == keyword_end(s@, e as int),
        decreases s@.len() - e,
    {
        e = e + 1;
    }
    if e == 0 || e >= s.len() {
        return None;
    }
    let keyword = text::slice_of(s.as_slice(), 0, e);
    assert(keyword@ =~= s@.take(e as int));
    let tail = text::slice_of(s.as_slice(), e, s.len());
    assert(tail@ =~= s@.skip(e as int));
    let mut rest = text::trim_start_chars(tail.as_slice());
    if rest.len() > 0 && rest[0] == '=' {
        let next = text::slice_of(rest.as_slice(), 1, rest.len());
        assert(next@ =~= rest@.skip(1));
        rest = text::trim_start_chars(next.as_slice());
    }
    if rest.len() == 0 {
        return None;
    }
    Some((keyword, rest))
}

// ---- arguments -------------------------------------------------------------
/// The arguments of `s` from `i` on, where `cur` was read of the current one,
/// inside quotes or not, and `started` says whether there is a current one. White
/// space outside quotes separates arguments; quotes are dropped.
pub open spec fn args_from(
    s: Seq<char>,
    i: int,
    cur: Seq<char>,
    quoted: bool,
    started: bool,
) -> Seq<Seq<char>>
    decreases s.len() - i,
{
    if i < 0 || i >= s.len() {
        if started {
            seq![cur]
        } else {
            seq![]
        }
    } else if s[i] == '"' {
        args_from(s, i + 1, cur, !quoted, true)
    } else if text::is_space(s[i]) && !quoted {
        if started {
            seq![cur] + args_from(s, i + 1, seq![], false, false)
        } else {
            args_from(s, i + 1, cur, false, false)
        }
    } else {
        args_from(s, i + 1, cur.push(s[i]), quoted, true)
    }
}

/// The arguments of `s`.
pub open spec fn args(s: Seq<char>) -> Seq<Seq<char>> {
    args_from(s, 0, seq![], false, false)
}

/// The arguments of `s`: white space separates them, and double quotes keep it.
pub fn split_args(s: &[char]) -> (out: Vec<String>)
    ensures
        text::strings(out@) == args(s@),
{
    let mut out: Vec<String> = Vec::new();
    let mut cur: Vec<char> = Vec::new();
    let mut quoted = false;
    let mut started = false;
    let mut i: usize = 0;
    assert(cur@ =~= Seq::<char>::empty());
    assert(text::strings(out@) + args(s@) =~= args(s@));
    while i < s.len()
        invariant
            i <= s@.len(),
            args(s@) == text::strings(out@) + args_from(s@, i as int, cur@, quoted, started),
        decreases s@.len() - i,
    {
        let c = s[i];
        if c == '"' {
            quoted = !quoted;
            started = true;
        } else if text::space(c) && !quoted {
            if started {
                let ghost before = text::strings(out@);
                let ghost word = cur@;
                out.push(text::string_of(cur.as_slice()));
                cur = Vec::new();
                started = false;
                proof {
                    assert(cur@ =~= Seq::<char>::empty());
                    assert(text::strings(out@) =~= before.push(word));
                    let rest = args_from(s@, i + 1, seq![], false, false);
                    assert(before + (seq![word] + rest) =~= text::strings(out@) + rest);
                }
            }
        } else {
            cur.push(c);
            started = true;
        }
        i = i + 1;
    }
    if started {
        let ghost before = text::strings(out@);
        out.push(text::string_of(cur.as_slice()));
        assert(text::strings(out@) =~= before + seq![cur@]);
    } else {
        assert(text::strings(out@) + Seq::<Seq<char>>::empty() =~= text::strings(out@));
    }
    out
}

/// `s` without one layer of double quotes around it.
pub open spec fn unquoted(s: Seq<char>) -> Seq<char> {
    if s.len() >= 2 && s[0] == '"' && s.last() == '"' {
        s.subrange(1, s.len() - 1)
    } else {
        s
    }
}

/// `s` without one layer of double quotes around it.
pub fn unquote(s: &[char]) -> (r: Vec<char>)
    ensures
        r@ == unquoted(s@),
{
    if s.len() >= 2 && s[0] == '"' && s[s.len() - 1] == '"' {
        text::slice_of(s, 1, s.len() - 1)
    } else {
        let r = text::slice_of(s, 0, s.len());
        assert(r@ =~= s@);
        r
    }
}

// ---- host patterns ---------------------------------------------------------
/// The pattern begins with an exclamation mark, and what follows matches.
pub open spec fn excludes(pattern: Seq<char>, host: Seq<char>) -> bool {
    pattern.len() > 0 && pattern[0] == '!' && wildcard::matches_pattern(pattern.skip(1), host)
}

/// The pattern does not begin with an exclamation mark, and matches.
pub open spec fn admits(pattern: Seq<char>, host: Seq<char>) -> bool {
    !(pattern.len() > 0 && pattern[0] == '!') && wildcard::matches_pattern(pattern, host)
}

/// A host is meant by a list of patterns: one admits it, and none excludes it.
pub open spec fn host_meant(patterns: Seq<char>, host: Seq<char>) -> bool {
    let ps = words::words(patterns);
    &&& exists|i: int| 0 <= i < ps.len() && admits(#[trigger] ps[i], host)
    &&& forall|i: int| 0 <= i < ps.len() ==> !excludes(#[trigger] ps[i], host)
}

/// Whether a host is meant by a list of patterns.
pub fn host_matches(patterns: &[char], host: &[char]) -> (b: bool)
    ensures
        b == host_meant(patterns@, host@),
{
    let parts = words::split_words(patterns);
    let ghost ps = words::words(patterns@);
    let mut positive = false;
    let mut i: usize = 0;
    while i < parts.len()
        invariant
            i <= parts@.len(),
            text::texts(parts@) == ps,
            ps == words::words(patterns@),
            positive == (exists|j: int| 0 <= j < i && admits(#[trigger] ps[j], host@)),
            forall|j: int| 0 <= j < i ==> !excludes(#[trigger] ps[j], host@),
        decreases parts@.len() - i,
    {
        let pat = &parts[i];
        assert(pat@ == ps[i as int]);
        if pat.len() > 0 && pat[0] == '!' {
            let neg = text::slice_of(pat.as_slice(), 1, pat.len());
            assert(neg@ =~= pat@.skip(1));
            if wildcard::glob_match(neg.as_slice(), host) {
                assert(excludes(ps[i as int], host@));
                return false;
            }
        } else if wildcard::glob_match(pat.as_slice(), host) {
            assert(admits(ps[i as int], host@));
            positive = true;
        }
        i = i + 1;
    }
    positive
}

// ---- lines -----------------------------------------------------------------
/// One line of a configuration.
#[derive(Debug, Clone, PartialEq, Eq)]
pub enum Line {
    /// The head of a host block, with its patterns.
    Host(String),
    /// The head of a match block, which never applies.
    Match,
    /// Any other directive: its keyword in lower case, and its argument.
    Keyword {
        /// The keyword.
        name: String,
        /// The argument.
        args: String,
    },
}

/// A line as a mathematical value.
#[allow(inconsistent_fields)]
pub ghost enum LineModel {
    /// The head of a host block.
    Host(Seq<char>),
    /// The head of a match block.
    Match,
    /// Any other directive.
    Keyword { name: Seq<char>, args: Seq<char> },
}

impl View for Line {
    type V = LineModel;

    open spec fn view(&self) -> LineModel {
        match *self {
            Line::Host(p) => LineModel::Host(p@),
            Line::Match => LineModel::Match,
            Line::Keyword { name, args } => LineModel::Keyword { name: name@, args: args@ },
        }
    }
}

/// The lines by their views.
pub open spec fn line_models(lines: Seq<Line>) -> Seq<LineModel> {
    Seq::new(lines.len(), |i: int| lines[i]@)
}

/// What a line of text stands for.
pub enum Item {
    /// A line of the configuration.
    Line(Line),
    /// Other files to read here, as they are named.
    Files(Vec<char>),
    /// Nothing.
    Nothing,
}

/// What a line of text stands for, as a mathematical value.
pub ghost enum ItemModel {
    /// A line of the configuration.
    Line(LineModel),
    /// Other files to read here.
    Files(Seq<char>),
    /// Nothing.
    Nothing,
}

impl View for Item {
    type V = ItemModel;

    open spec fn view(&self) -> ItemModel {
        match *self {
            Item::Line(l) => ItemModel::Line(l@),
            Item::Files(a) => ItemModel::Files(a@),
            Item::Nothing => ItemModel::Nothing,
        }
    }
}

/// The keyword that names other files.
pub open spec fn files_keyword() -> Seq<char> {
    seq!['i', 'n', 'c', 'l', 'u', 'd', 'e']
}

/// What a line of text stands for. Letter case of the keyword does not matter.
pub open spec fn item_of(raw: Seq<char>) -> ItemModel {
    match directive(raw) {
        None => ItemModel::Nothing,
        Some((k, a)) => {
            let name = words::lowered(k);
            if name == "host"@ {
                ItemModel::Line(LineModel::Host(a))
            } else if name == "match"@ {
                ItemModel::Line(LineModel::Match)
            } else if name == files_keyword() {
                ItemModel::Files(a)
            } else {
                ItemModel::Line(LineModel::Keyword { name, args: a })
            }
        },
    }
}

fn is_files_keyword(s: &[char]) -> (b: bool)
    ensures
        b == (s@ == files_keyword()),
{
    let b = s.len() == 7 && s[0] == 'i' && s[1] == 'n' && s[2] == 'c' && s[3] == 'l' && s[4] == 'u'
        && s[5] == 'd' && s[6] == 'e';
    assert(b ==> s@ =~= files_keyword());
    b
}

/// What a line of text stands for.
pub fn read_line(raw: &[char]) -> (item: Item)
    ensures
        item@ == item_of(raw@),
{
    match split_directive(raw) {
        None => Item::Nothing,
        Some((k, a)) => {
            let name = words::lower_chars(k.as_slice());
            if text::reads(name.as_slice(), "host") {
                Item::Line(Line::Host(text::string_of(a.as_slice())))
            } else if text::reads(name.as_slice(), "match") {
                Item::Line(Line::Match)
            } else if is_files_keyword(name.as_slice()) {
                Item::Files(a)
            } else {
                Item::Line(
                    Line::Keyword {
                        name: text::string_of(name.as_slice()),
                        args: text::string_of(a.as_slice()),
                    },
                )
            }
        },
    }
}

/// The lines of a configuration, given the lines of its text; other files are not
/// read.
pub open spec fn lines_of(raws: Seq<Seq<char>>) -> Seq<LineModel>
    decreases raws.len(),
{
    if raws.len() == 0 {
        seq![]
    } else {
        match item_of(raws.last()) {
            ItemModel::Line(l) => lines_of(raws.drop_last()).push(l),
            _ => lines_of(raws.drop_last()),
        }
    }
}

/// The lines of a configuration; other files are not read.
pub fn parse_lines(content: &str) -> (lines: Vec<Line>)
    ensures
        line_models(lines@) == lines_of(text::split(content@, '\n')),
{
    let chars = text::chars_of(content);
    let raws = text::split_chars(chars.as_slice(), '\n');
    let ghost model = text::split(content@, '\n');
    let mut lines: Vec<Line> = Vec::new();
    let mut i: usize = 0;
    assert(model.take(0) =~= Seq::<Seq<char>>::empty());
    assert(line_models(lines@) =~= Seq::<LineModel>::empty());
    while i < raws.len()
        invariant
            i <= raws@.len(),
            text::texts(raws@) == model,
            line_models(lines@) == lines_of(model.take(i as int)),
        decreases raws@.len() - i,
    {
        let ghost before = lines@;
        proof {
            assert(model.take(i + 1).drop_last() =~= model.take(i as int));
            assert(model.take(i + 1).last() == raws@[i as int]@);
        }
        match read_line(raws[i].as_slice()) {
            Item::Line(l) => {
                lines.push(l);
                assert(line_models(lines@) =~= line_models(before).push(l@));
            },
            _ => {},
        }
        i = i + 1;
    }
    assert(model.take(i as int) =~= model);
    lines
}

} // verus!
