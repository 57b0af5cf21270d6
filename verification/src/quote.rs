//! Quoting for the remote shell.

use crate::text;
use vstd::prelude::*;

verus! {

/// How a character is written between single quotes: a quote as `'\''`, any
/// other character as it is.
pub open spec fn escaped(c: char) -> Seq<char> {
    if c == '\'' {
        seq!['\'', '\\', '\'', '\'']
    } else {
        seq![c]
    }
}

/// The characters of `s`, each escaped.
pub open spec fn all_escaped(s: Seq<char>) -> Seq<char>
    decreases s.len(),
{
    if s.len() == 0 {
        seq![]
    } else {
        all_escaped(s.drop_last()) + escaped(s.last())
    }
}

/// `s` as one word of a shell command: between single quotes.
pub open spec fn quoted_word(s: Seq<char>) -> Seq<char> {
    seq!['\''] + all_escaped(s) + seq!['\'']
}

/// Quote `arg` for a POSIX shell: whatever it holds, it is one word.
pub fn shell_quote(arg: &str) -> (q: String)
    ensures
        q@ == quoted_word(arg@),
{
    let chars = text::chars_of(arg);
    let mut out = String::new();
    out.push('\'');
    let mut i: usize = 0;
    assert(arg@.take(0) =~= Seq::<char>::empty());
    assert(out@ =~= seq!['\''] + all_escaped(arg@.take(0)));
    while i < chars.len()
        invariant
            i <= chars@.len(),
            chars@ == arg@,
            out@ == seq!['\''] + all_escaped(arg@.take(i as int)),
        decreases chars@.len() - i,
    {
        let ghost before = out@;
        let c = chars[i];
        if c == '\'' {
            out.push('\'');
            out.push('\\');
            out.push('\'');
            out.push('\'');
        } else {
            out.push(c);
        }
        i = i + 1;
        proof {
            assert(arg@.take(i as int).drop_last() =~= arg@.take(i - 1));
            assert(out@ =~= before + escaped(c));
            assert(out@ =~= seq!['\''] + all_escaped(arg@.take(i as int)));
        }
    }
    out.push('\'');
    assert(arg@.take(i as int) =~= arg@);
    assert(out@ =~= quoted_word(arg@));
    out
}

/// The texts of a list of words.
pub open spec fn word_texts(words: Seq<&str>) -> Seq<Seq<char>> {
    Seq::new(words.len(), |i: int| words[i]@)
}

/// Join words that are quoted already, or need no quoting, by single spaces.
pub fn shell_line(words: &[&str]) -> (line: String)
    ensures
        line@ == text::join(word_texts(words@), seq![' ']),
{
    let ghost model = word_texts(words@);
    let mut v: Vec<char> = Vec::new();
    let mut i: usize = 0;
    assert(model.take(0) =~= Seq::<Seq<char>>::empty());
    while i < words.len()
        invariant
            i <= words@.len(),
            model == word_texts(words@),
            v@ == text::join(model.take(i as int), seq![' ']),
        decreases words@.len() - i,
    {
        let ghost before = v@;
        if i > 0 {
            v.push(' ');
        }
        text::push_text(&mut v, words[i]);
        proof {
            let t = model.take(i + 1);
            assert(t.drop_last() =~= model.take(i as int));
            assert(t.last() == words@[i as int]@);
            if i == 0 {
                assert(before =~= Seq::<char>::empty());
                assert(v@ =~= t[0]);
            } else {
                assert(v@ =~= before + seq![' '] + words@[i as int]@);
            }
        }
        i = i + 1;
    }
    assert(model.take(i as int) =~= model);
    text::string_of(v.as_slice())
}

// ---- how a shell reads it --------------------------------------------------
/// Whether a POSIX shell takes the character literally outside quotes.
pub open spec fn is_literal(c: char) -> bool {
    ||| 'a' <= c <= 'z'
    ||| 'A' <= c <= 'Z'
    ||| '0' <= c <= '9'
    ||| c == '/' || c == '.' || c == '-' || c == '_' || c == '+' || c == ',' || c == '@' || c == ':'
}

/// What a POSIX shell makes of `s` as one word, from position `i` on, inside
/// single quotes or outside: between single quotes every character stands for
/// itself, and outside them a backslash makes the next one literal. `None` where
/// the quotes are not closed or where something outside them is special.
pub open spec fn word_read(s: Seq<char>, i: int, inside: bool) -> Option<Seq<char>>
    decreases s.len() - i,
{
    if i < 0 || i >= s.len() {
        if inside {
            None
        } else {
            Some(seq![])
        }
    } else if inside {
        if s[i] == '\'' {
            word_read(s, i + 1, false)
        } else {
            with_front(s[i], word_read(s, i + 1, true))
        }
    } else if s[i] == '\'' {
        word_read(s, i + 1, true)
    } else if s[i] == '\\' {
        if i + 1 < s.len() && s[i + 1] != '\n' {
            with_front(s[i + 1], word_read(s, i + 2, false))
        } else {
            None
        }
    } else if is_literal(s[i]) {
        with_front(s[i], word_read(s, i + 1, false))
    } else {
        None
    }
}

/// A character and then what follows, if anything can be read there.
pub open spec fn with_front(c: char, rest: Option<Seq<char>>) -> Option<Seq<char>> {
    match rest {
        Some(r) => Some(seq![c] + r),
        None => None,
    }
}

/// Reading the escaped text from position `i` of what is quoted.
proof fn escaped_reads(a: Seq<char>, i: int)
    requires
        0 <= i <= a.len(),
    ensures
        word_read(quoted_word(a), 1 + all_escaped(a.take(i)).len() as int, true) == Some(a.skip(i)),
    decreases a.len() - i,
{
    let w = quoted_word(a);
    let at = 1 + all_escaped(a.take(i)).len() as int;
    if i == a.len() {
        assert(a.take(i) =~= a);
        assert(w[at] == '\'');
        assert(word_read(w, at + 1, false) == Some(Seq::<char>::empty()));
        assert(a.skip(i) =~= Seq::<char>::empty());
    } else {
        escaped_reads(a, i + 1);
        let c = a[i];
        let t = a.take(i + 1);
        assert(t.drop_last() =~= a.take(i));
        assert(all_escaped(t) =~= all_escaped(a.take(i)) + escaped(c));
        escaped_prefix(a, i + 1);
        let e = escaped(c);
        let next = at + e.len();
        assert forall|k: int| 0 <= k < e.len() implies #[trigger] w[at + k] == e[k] by {
            assert(all_escaped(a)[all_escaped(a.take(i)).len() + k] == all_escaped(t)[all_escaped(
                a.take(i),
            ).len() + k]);
        }
        assert(a.skip(i) =~= seq![c] + a.skip(i + 1));
        if c == '\'' {
            assert(w[at + 0] == '\'');
            assert(w[at + 1] == '\\');
            assert(w[at + 2] == '\'');
            assert(w[at + 3] == '\'');
            assert(word_read(w, at + 3, false) == word_read(w, at + 4, true));
            assert(word_read(w, at + 1, false) == with_front('\'', word_read(w, at + 3, false)));
            assert(word_read(w, at, true) == word_read(w, at + 1, false));
        } else {
            assert(w[at + 0] == c);
        }
    }
}

/// The escaped prefix is a prefix of what is escaped.
proof fn escaped_prefix(a: Seq<char>, i: int)
    requires
        0 <= i <= a.len(),
    ensures
        all_escaped(a.take(i)).len() <= all_escaped(a).len(),
        all_escaped(a).take(all_escaped(a.take(i)).len() as int) == all_escaped(a.take(i)),
    decreases a.len(),
{
    if i == a.len() {
        assert(a.take(i) =~= a);
        assert(all_escaped(a).take(all_escaped(a).len() as int) =~= all_escaped(a));
    } else {
        let p = a.drop_last();
        escaped_prefix(p, i);
        assert(p.take(i) =~= a.take(i));
        assert(all_escaped(a).take(all_escaped(a.take(i)).len() as int) =~= all_escaped(p).take(
            all_escaped(a.take(i)).len() as int,
        ));
    }
}

/// Law: a shell reads a quoted text as one word that is exactly the text.
pub proof fn quoting_is_read_back(a: Seq<char>)
    ensures
        word_read(quoted_word(a), 0, false) == Some(a),
{
    escaped_reads(a, 0);
    assert(a.take(0) =~= Seq::<char>::empty());
    assert(a.skip(0) =~= a);
    assert(quoted_word(a)[0] == '\'');
}

} // verus!
