//! Words, prefixes, letter case and numbers in text.

use crate::text;
use vstd::prelude::*;

verus! {

// ---- letter case -----------------------------------------------------------
/// The lower-case form of an ASCII letter; other characters as they are.
pub open spec fn lower(c: char) -> char {
    if 'A' <= c <= 'Z' {
        (c as u32 + 32) as char
    } else {
        c
    }
}

/// The text with its ASCII letters in lower case.
pub open spec fn lowered(s: Seq<char>) -> Seq<char> {
    Seq::new(s.len(), |i: int| lower(s[i]))
}

/// The lower-case form of an ASCII letter; other characters as they are.
pub fn lower_char(c: char) -> (r: char)
    ensures
        r == lower(c),
{
    if 'A' <= c && c <= 'Z' {
        let n: u8 = c as u8;
        (n + 32) as char
    } else {
        c
    }
}

/// The text with its ASCII letters in lower case.
pub fn lower_chars(s: &[char]) -> (r: Vec<char>)
    ensures
        r@ == lowered(s@),
{
    let mut r: Vec<char> = Vec::new();
    let mut i: usize = 0;
    while i < s.len()
        invariant
            i <= s@.len(),
            r@.len() == i,
            forall|j: int| 0 <= j < i ==> r@[j] == lower(s@[j]),
        decreases s@.len() - i,
    {
        r.push(lower_char(s[i]));
        i = i + 1;
    }
    assert(r@ =~= lowered(s@));
    r
}

// ---- prefixes and suffixes -------------------------------------------------
/// `s` begins with `p`.
pub open spec fn begins(s: Seq<char>, p: Seq<char>) -> bool {
    p.len() <= s.len() && s.take(p.len() as int) == p
}

/// `s` ends with `p`.
pub open spec fn ends(s: Seq<char>, p: Seq<char>) -> bool {
    p.len() <= s.len() && s.skip(s.len() - p.len()) == p
}

/// Whether `s` begins with `p`.
pub fn begins_with(s: &[char], p: &str) -> (b: bool)
    ensures
        b == begins(s@, p@),
{
    let q = text::chars_of(p);
    if q.len() > s.len() {
        return false;
    }
    let front = text::slice_of(s, 0, q.len());
    assert(front@ =~= s@.take(p@.len() as int));
    text::same_chars(front.as_slice(), q.as_slice())
}

/// Whether `s` ends with `p`.
pub fn ends_with(s: &[char], p: &[char]) -> (b: bool)
    ensures
        b == ends(s@, p@),
{
    if p.len() > s.len() {
        return false;
    }
    let back = text::slice_of(s, s.len() - p.len(), s.len());
    assert(back@ =~= s@.skip(s@.len() - p@.len()));
    text::same_chars(back.as_slice(), p)
}

// ---- words -----------------------------------------------------------------
/// The end of the word that goes on at `i`: the next white space, or the length.
pub open spec fn word_end(s: Seq<char>, i: int) -> int
    decreases s.len() - i,
{
    if 0 <= i < s.len() && !text::is_space(s[i]) {
        word_end(s, i + 1)
    } else {
        i
    }
}

/// Bounds of `word_end`.
pub proof fn word_end_bounds(s: Seq<char>, i: int)
    requires
        0 <= i <= s.len(),
    ensures
        i <= word_end(s, i) <= s.len(),
        forall|j: int| i <= j < word_end(s, i) ==> !text::is_space(#[trigger] s[j]),
        word_end(s, i) < s.len() ==> text::is_space(s[word_end(s, i)]),
    decreases s.len() - i,
{
    if i < s.len() && !text::is_space(s[i]) {
        word_end_bounds(s, i + 1);
    }
}

/// The words of `s` from `i` on: what white space separates.
pub open spec fn words_from(s: Seq<char>, i: int) -> Seq<Seq<char>>
    decreases s.len() - i,
{
    let a = text::first_word(s, i);
    let b = word_end(s, a);
    if 0 <= i <= a < b <= s.len() {
        seq![s.subrange(a, b)] + words_from(s, b)
    } else {
        seq![]
    }
}

/// The words of `s`: what white space separates.
pub open spec fn words(s: Seq<char>) -> Seq<Seq<char>> {
    words_from(s, 0)
}

/// The words of `s`.
pub fn split_words(s: &[char]) -> (parts: Vec<Vec<char>>)
    ensures
        text::texts(parts@) == words(s@),
{
    let mut parts: Vec<Vec<char>> = Vec::new();
    let mut i: usize = 0;
    assert(text::texts(parts@) + words_from(s@, 0) =~= words(s@));
    loop
        invariant
            i <= s@.len(),
            words(s@) == text::texts(parts@) + words_from(s@, i as int),
        decreases s@.len() - i,
    {
        let ghost start = i;
        let mut a: usize = i;
        while a < s.len() && text::space(s[a])
            invariant
                start <= a <= s@.len(),
                text::first_word(s@, start as int) == text::first_word(s@, a as int),
            decreases s@.len() - a,
        {
            a = a + 1;
        }
        let mut b: usize = a;
        while b < s.len() && !text::space(s[b])
            invariant
                a <= b <= s@.len(),
                word_end(s@, a as int) == word_end(s@, b as int),
            decreases s@.len() - b,
        {
            b = b + 1;
        }
        if a == b {
            assert(words_from(s@, start as int) =~= Seq::<Seq<char>>::empty());
            assert(words(s@) =~= text::texts(parts@));
            return parts;
        }
        let word = text::slice_of(s, a, b);
        let ghost before = text::texts(parts@);
        parts.push(word);
        assert(text::texts(parts@) =~= before.push(word@));
        assert(before + (seq![word@] + words_from(s@, b as int)) =~= text::texts(parts@)
            + words_from(s@, b as int));
        i = b;
    }
}

// ---- numbers ---------------------------------------------------------------
/// The value of a decimal digit.
pub open spec fn digit_value(c: char) -> Option<nat> {
    if '0' <= c <= '9' {
        Some((c as u32 - '0' as u32) as nat)
    } else {
        None
    }
}

/// The value of a decimal numeral; the empty text counts as 0.
pub open spec fn digits_value(s: Seq<char>) -> Option<nat>
    decreases s.len(),
{
    if s.len() == 0 {
        Some(0)
    } else {
        match (digits_value(s.drop_last()), digit_value(s.last())) {
            (Some(v), Some(d)) => Some(10 * v + d),
            _ => None,
        }
    }
}

/// The numeral proper: the text without a leading plus sign.
pub open spec fn unsigned(s: Seq<char>) -> Seq<char> {
    if s.len() > 0 && s[0] == '+' {
        s.skip(1)
    } else {
        s
    }
}

/// The 16-bit number that a text stands for: decimal digits, after a plus sign
/// perhaps.
pub open spec fn number16(s: Seq<char>) -> Option<u16> {
    let d = unsigned(s);
    if d.len() == 0 {
        None
    } else {
        match digits_value(d) {
            Some(v) => if v <= u16::MAX {
                Some(v as u16)
            } else {
                None
            },
            None => None,
        }
    }
}

/// A longer numeral has no smaller value.
proof fn digits_grow(s: Seq<char>, k: int)
    requires
        0 <= k <= s.len(),
    ensures
        digits_value(s.take(k)) is None ==> digits_value(s) is None,
        digits_value(s) is Some ==> digits_value(s.take(k)) is Some && digits_value(
            s.take(k),
        )->Some_0 <= digits_value(s)->Some_0,
    decreases s.len() - k,
{
    if k < s.len() {
        assert(s.take(k + 1).drop_last() =~= s.take(k));
        digits_grow(s, k + 1);
    } else {
        assert(s.take(k) =~= s);
    }
}

/// The 16-bit number that a text stands for.
pub fn parse_u16(s: &[char]) -> (r: Option<u16>)
    ensures
        r == number16(s@),
{
    let from: usize = if s.len() > 0 && s[0] == '+' {
        1
    } else {
        0
    };
    let d = text::slice_of(s, from, s.len());
    assert(d@ =~= unsigned(s@));
    if d.len() == 0 {
        return None;
    }
    let mut v: u32 = 0;
    let mut i: usize = 0;
    assert(d@.take(0) =~= Seq::<char>::empty());
    while i < d.len()
        invariant
            i <= d@.len(),
            d@ == unsigned(s@),
            v <= u16::MAX,
            digits_value(d@.take(i as int)) == Some(v as nat),
        decreases d@.len() - i,
    {
        let c = d[i];
        proof {
            assert(d@.take(i + 1).drop_last() =~= d@.take(i as int));
            digits_grow(d@, i + 1);
        }
        if c < '0' || '9' < c {
            return None;
        }
        v = 10 * v + (c as u32 - '0' as u32);
        if v > 65535 {
            return None;
        }
        i = i + 1;
    }
    assert(d@.take(i as int) =~= d@);
    Some(v as u16)
}

// ---- lists of texts --------------------------------------------------------
/// The texts with `sep` between each two of them.
pub fn join_strings(parts: &Vec<String>, sep: &str) -> (r: String)
    ensures
        r@ == text::join(text::strings(parts@), sep@),
{
    let ghost model = text::strings(parts@);
    let mut v: Vec<char> = Vec::new();
    let mut i: usize = 0;
    assert(model.take(0) =~= Seq::<Seq<char>>::empty());
    while i < parts.len()
        invariant
            i <= parts@.len(),
            model == text::strings(parts@),
            v@ == text::join(model.take(i as int), sep@),
        decreases parts@.len() - i,
    {
        let ghost before = v@;
        if i > 0 {
            text::push_text(&mut v, sep);
        }
        text::push_text(&mut v, parts[i].as_str());
        proof {
            let t = model.take(i + 1);
            assert(t.drop_last() =~= model.take(i as int));
            assert(t.last() == parts@[i as int]@);
            if i == 0 {
                assert(before =~= Seq::<char>::empty());
                assert(v@ =~= t[0]);
            } else {
                assert(v@ =~= before + sep@ + parts@[i as int]@);
            }
        }
        i = i + 1;
    }
    assert(model.take(i as int) =~= model);
    text::string_of(v.as_slice())
}

/// Whether `s` is one of the texts.
pub fn lists_text(parts: &Vec<String>, s: &str) -> (b: bool)
    ensures
        b == text::strings(parts@).contains(s@),
{
    let ghost model = text::strings(parts@);
    let mut i: usize = 0;
    while i < parts.len()
        invariant
            i <= parts@.len(),
            model == text::strings(parts@),
            forall|j: int| 0 <= j < i ==> model[j] != s@,
        decreases parts@.len() - i,
    {
        assert(model[i as int] == parts@[i as int]@);
        if text::same_text(parts[i].as_str(), s) {
            return true;
        }
        i = i + 1;
    }
    false
}

/// A copy of the texts.
pub fn copy_strings(parts: &Vec<String>) -> (r: Vec<String>)
    ensures
        text::strings(r@) == text::strings(parts@),
{
    let mut r: Vec<String> = Vec::new();
    let mut i: usize = 0;
    while i < parts.len()
        invariant
            i <= parts@.len(),
            r@.len() == i,
            forall|j: int| 0 <= j < i ==> (#[trigger] r@[j])@ == parts@[j]@,
        decreases parts@.len() - i,
    {
        r.push(parts[i].as_str().to_owned());
        i = i + 1;
    }
    assert(text::strings(r@) =~= text::strings(parts@));
    r
}

/// The list with those of `more` that it lacks, in order.
pub open spec fn extended(l: Seq<Seq<char>>, more: Seq<Seq<char>>) -> Seq<Seq<char>>
    decreases more.len(),
{
    if more.len() == 0 {
        l
    } else {
        let rest = extended(l, more.drop_last());
        if rest.contains(more.last()) {
            rest
        } else {
            rest.push(more.last())
        }
    }
}

/// Add a text that the list lacks.
pub fn add_text(l: &mut Vec<String>, name: &str)
    ensures
        text::strings(final(l)@) == extended(text::strings(old(l)@), seq![name@]),
{
    let ghost start = text::strings(l@);
    proof {
        let one = seq![name@];
        assert(one.drop_last() =~= Seq::<Seq<char>>::empty());
        assert(extended(start, one.drop_last()) == start);
    }
    if !lists_text(l, name) {
        l.push(name.to_owned());
        assert(text::strings(l@) =~= start.push(name@));
    }
}

/// Extending by one more is extending once more.
pub proof fn extended_in_turn(l: Seq<Seq<char>>, a: Seq<Seq<char>>, x: Seq<char>)
    ensures
        extended(l, a.push(x)) == extended(extended(l, a), seq![x]),
{
    let one = seq![x];
    assert(one.drop_last() =~= Seq::<Seq<char>>::empty());
    assert(extended(extended(l, a), one.drop_last()) == extended(l, a));
    assert(a.push(x).drop_last() =~= a);
}

/// Add those of `more` that the list lacks, in order.
pub fn add_texts(l: &mut Vec<String>, more: &Vec<String>)
    ensures
        text::strings(final(l)@) == extended(text::strings(old(l)@), text::strings(more@)),
{
    let ghost start = text::strings(l@);
    let ghost model = text::strings(more@);
    let mut i: usize = 0;
    assert(model.take(0) =~= Seq::<Seq<char>>::empty());
    while i < more.len()
        invariant
            i <= more@.len(),
            model == text::strings(more@),
            text::strings(l@) == extended(start, model.take(i as int)),
        decreases more@.len() - i,
    {
        proof {
            assert(model.take(i + 1).drop_last() =~= model.take(i as int));
            assert(model.take(i + 1).last() == more@[i as int]@);
        }
        let ghost before = text::strings(l@);
        if !lists_text(l, more[i].as_str()) {
            l.push(more[i].as_str().to_owned());
            assert(text::strings(l@) =~= before.push(more@[i as int]@));
        }
        i = i + 1;
    }
    assert(model.take(i as int) =~= model);
}

} // verus!
