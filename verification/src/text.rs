//! Character strings: splitting, trimming, joining and rendering numbers.
//!
//! Text is modelled as `Seq<char>`, the view of `str` and `String`.

use vstd::prelude::*;

verus! {

/// `String::push` appends one character to the end of the string.
pub assume_specification[ String::push ](s: &mut String, c: char)
    ensures
        final(s)@ == old(s)@.push(c),
;

/// The characters of a string.
pub fn chars_of(s: &str) -> (v: Vec<char>)
    ensures
        v@ == s@,
{
    let mut v: Vec<char> = Vec::new();
    for c in it: s.chars()
        invariant
            v@.len() == it.index(),
            it.seq() == s@,
            forall|i: int| 0 <= i < v@.len() ==> v@[i] == it.seq()[i],
    {
        v.push(c);
    }
    assert(v@ =~= s@);
    v
}

/// The string with the given characters.
pub fn string_of(v: &[char]) -> (s: String)
    ensures
        s@ == v@,
{
    let mut s = String::new();
    let mut i: usize = 0;
    while i < v.len()
        invariant
            i <= v.len(),
            s@ == v@.take(i as int),
        decreases v.len() - i,
    {
        s.push(v[i]);
        i = i + 1;
        assert(v@.take(i as int) =~= v@.take(i - 1).push(v@[i - 1]));
    }
    assert(v@.take(v@.len() as int) =~= v@);
    s
}

/// The texts held by a sequence of character vectors.
pub open spec fn texts(v: Seq<Vec<char>>) -> Seq<Seq<char>> {
    Seq::new(v.len(), |i: int| v[i]@)
}

/// The texts held by a sequence of strings.
pub open spec fn strings(v: Seq<String>) -> Seq<Seq<char>> {
    Seq::new(v.len(), |i: int| v[i]@)
}

/// The first position of `c` in `s` at or after `i`, or the length of `s`.
pub open spec fn find(s: Seq<char>, c: char, i: int) -> int
    decreases s.len() - i,
{
    if i >= s.len() {
        s.len() as int
    } else if s[i] == c {
        i
    } else {
        find(s, c, i + 1)
    }
}

/// What `find` returns: the first occurrence.
pub proof fn find_spec(s: Seq<char>, c: char, i: int)
    requires
        0 <= i <= s.len(),
    ensures
        i <= find(s, c, i) <= s.len(),
        find(s, c, i) < s.len() ==> s[find(s, c, i)] == c,
        forall|j: int| i <= j < find(s, c, i) ==> s[j] != c,
    decreases s.len() - i,
{
    if i < s.len() && s[i] != c {
        find_spec(s, c, i + 1);
    }
}

/// A character that `s` lacks from `i` on is found nowhere.
pub proof fn find_absent(s: Seq<char>, c: char, i: int)
    requires
        0 <= i <= s.len(),
        forall|j: int| i <= j < s.len() ==> s[j] != c,
    ensures
        find(s, c, i) == s.len(),
    decreases s.len() - i,
{
    if i < s.len() {
        find_absent(s, c, i + 1);
    }
}

/// The first occurrence is where `find` points.
pub proof fn find_at(s: Seq<char>, c: char, i: int, k: int)
    requires
        0 <= i <= k < s.len(),
        s[k] == c,
        forall|j: int| i <= j < k ==> s[j] != c,
    ensures
        find(s, c, i) == k,
    decreases k - i,
{
    if i < k {
        find_at(s, c, i + 1, k);
    }
}

/// The pieces of `s` from `start` on that lie between occurrences of `sep`.
pub open spec fn split_from(s: Seq<char>, sep: char, start: int) -> Seq<Seq<char>>
    decreases s.len() - start,
{
    let e = find(s, sep, start);
    if start >= s.len() || e >= s.len() || e < start {
        seq![s.skip(start)]
    } else {
        seq![s.subrange(start, e)] + split_from(s, sep, e + 1)
    }
}

/// The pieces of `s` between occurrences of `sep`; one more than there are
/// occurrences, so a text without `sep` is its own only piece.
pub open spec fn split(s: Seq<char>, sep: char) -> Seq<Seq<char>> {
    split_from(s, sep, 0)
}

/// The position of the first occurrence of `c` in `s`, or `s.len()`.
pub fn find_char(s: &[char], c: char, from: usize) -> (k: usize)
    requires
        from <= s@.len(),
    ensures
        k == find(s@, c, from as int),
        from <= k <= s@.len(),
{
    let mut i: usize = from;
    while i < s.len() && s[i] != c
        invariant
            from <= i <= s@.len(),
            find(s@, c, from as int) == find(s@, c, i as int),
        decreases s@.len() - i,
    {
        i = i + 1;
    }
    i
}

/// Whether `c` occurs in `s`.
pub fn contains_char(s: &[char], c: char) -> (b: bool)
    ensures
        b == s@.contains(c),
{
    let k: usize = find_char(s, c, 0);
    proof {
        find_spec(s@, c, 0);
    }
    if k < s.len() {
        assert(s@[k as int] == c);
        true
    } else {
        false
    }
}

/// A copy of the characters from `from` up to `to`.
pub fn slice_of(s: &[char], from: usize, to: usize) -> (v: Vec<char>)
    requires
        from <= to <= s@.len(),
    ensures
        v@ == s@.subrange(from as int, to as int),
{
    let mut v: Vec<char> = Vec::new();
    let mut i: usize = from;
    while i < to
        invariant
            from <= i <= to <= s@.len(),
            v@ == s@.subrange(from as int, i as int),
        decreases to - i,
    {
        v.push(s[i]);
        i = i + 1;
        assert(s@.subrange(from as int, i as int) =~= s@.subrange(from as int, i - 1).push(
            s@[i - 1],
        ));
    }
    v
}

/// Append the characters of `b` to `a`.
pub fn push_all(a: &mut Vec<char>, b: &[char])
    ensures
        final(a)@ == old(a)@ + b@,
{
    let mut i: usize = 0;
    while i < b.len()
        invariant
            i <= b@.len(),
            a@ == old(a)@ + b@.take(i as int),
        decreases b@.len() - i,
    {
        a.push(b[i]);
        i = i + 1;
        assert(b@.take(i as int) =~= b@.take(i - 1).push(b@[i - 1]));
        assert(a@ =~= old(a)@ + b@.take(i as int));
    }
    assert(b@.take(b@.len() as int) =~= b@);
}

/// Append the characters of `b` to `a`.
pub fn push_text(a: &mut Vec<char>, b: &str)
    ensures
        final(a)@ == old(a)@ + b@,
{
    let v = chars_of(b);
    push_all(a, v.as_slice());
}

/// Whether two character strings are the same.
pub fn same_chars(a: &[char], b: &[char]) -> (r: bool)
    ensures
        r == (a@ == b@),
{
    if a.len() != b.len() {
        return false;
    }
    let mut i: usize = 0;
    while i < a.len()
        invariant
            i <= a@.len(),
            a@.len() == b@.len(),
            forall|j: int| 0 <= j < i ==> a@[j] == b@[j],
        decreases a@.len() - i,
    {
        if a[i] != b[i] {
            return false;
        }
        i = i + 1;
    }
    assert(a@ =~= b@);
    true
}

/// Whether two strings are the same.
pub fn same_text(a: &str, b: &str) -> (r: bool)
    ensures
        r == (a@ == b@),
{
    let x = chars_of(a);
    let y = chars_of(b);
    same_chars(x.as_slice(), y.as_slice())
}

/// Whether `s` reads as the string `b`.
pub fn reads(s: &[char], b: &str) -> (r: bool)
    ensures
        r == (s@ == b@),
{
    let y = chars_of(b);
    same_chars(s, y.as_slice())
}

/// The pieces of `s` between occurrences of `sep`.
pub fn split_chars(s: &[char], sep: char) -> (parts: Vec<Vec<char>>)
    ensures
        texts(parts@) == split(s@, sep),
        parts@.len() >= 1,
{
    let mut parts: Vec<Vec<char>> = Vec::new();
    let mut start: usize = 0;
    loop
        invariant
            start <= s@.len(),
            split(s@, sep) == texts(parts@) + split_from(s@, sep, start as int),
        decreases s@.len() - start,
    {
        let e: usize = find_char(s, sep, start);
        let piece = slice_of(s, start, e);
        let ghost before = texts(parts@);
        parts.push(piece);
        assert(texts(parts@) =~= before.push(piece@));
        if e >= s.len() {
            assert(s@.subrange(start as int, e as int) =~= s@.skip(start as int));
            assert(texts(parts@) =~= before + seq![piece@]);
            return parts;
        }
        assert(before + (seq![piece@] + split_from(s@, sep, e + 1)) =~= texts(parts@)
            + split_from(s@, sep, e + 1));
        start = e + 1;
    }
}

/// The texts with `sep` between each two of them.
pub open spec fn join(parts: Seq<Seq<char>>, sep: Seq<char>) -> Seq<char>
    decreases parts.len(),
{
    if parts.len() == 0 {
        seq![]
    } else if parts.len() == 1 {
        parts[0]
    } else {
        join(parts.drop_last(), sep) + sep + parts.last()
    }
}

/// Whether `c` is white space (the Unicode `White_Space` property).
pub open spec fn is_space(c: char) -> bool {
    let n = c as u32;
    ||| 0x9 <= n <= 0xd
    ||| n == 0x20
    ||| n == 0x85
    ||| n == 0xa0
    ||| n == 0x1680
    ||| 0x2000 <= n <= 0x200a
    ||| n == 0x2028
    ||| n == 0x2029
    ||| n == 0x202f
    ||| n == 0x205f
    ||| n == 0x3000
}

/// Whether `c` is white space.
pub fn space(c: char) -> (b: bool)
    ensures
        b == is_space(c),
{
    let n: u32 = c as u32;
    (0x9 <= n && n <= 0xd) || n == 0x20 || n == 0x85 || n == 0xa0 || n == 0x1680 || (0x2000 <= n
        && n <= 0x200a) || n == 0x2028 || n == 0x2029 || n == 0x202f || n == 0x205f || n == 0x3000
}

/// The first position at or after `i` that holds no white space, or the length.
pub open spec fn first_word(s: Seq<char>, i: int) -> int
    decreases s.len() - i,
{
    if 0 <= i < s.len() && is_space(s[i]) {
        first_word(s, i + 1)
    } else {
        i
    }
}

/// The end of the last character before `j` that is no white space, but not
/// before `i`.
pub open spec fn last_word(s: Seq<char>, i: int, j: int) -> int
    decreases j - i,
{
    if i < j && is_space(s[j - 1]) {
        last_word(s, i, j - 1)
    } else {
        j
    }
}

/// `s` without its leading white space.
pub open spec fn trim_start(s: Seq<char>) -> Seq<char> {
    s.skip(first_word(s, 0))
}

/// `s` without its trailing white space.
pub open spec fn trim_end(s: Seq<char>) -> Seq<char> {
    s.take(last_word(s, 0, s.len() as int))
}

/// `s` without its leading and trailing white space.
pub open spec fn trim(s: Seq<char>) -> Seq<char> {
    trim_end(trim_start(s))
}

/// Bounds of `first_word`.
pub proof fn first_word_bounds(s: Seq<char>, i: int)
    requires
        0 <= i <= s.len(),
    ensures
        i <= first_word(s, i) <= s.len(),
        forall|j: int| i <= j < first_word(s, i) ==> is_space(s[j]),
        first_word(s, i) < s.len() ==> !is_space(s[first_word(s, i)]),
    decreases s.len() - i,
{
    if i < s.len() && is_space(s[i]) {
        first_word_bounds(s, i + 1);
    }
}

/// Bounds of `last_word`.
pub proof fn last_word_bounds(s: Seq<char>, i: int, j: int)
    requires
        0 <= i <= j <= s.len(),
    ensures
        i <= last_word(s, i, j) <= j,
        forall|k: int| last_word(s, i, j) <= k < j ==> is_space(s[k]),
        last_word(s, i, j) > i ==> !is_space(s[last_word(s, i, j) - 1]),
    decreases j - i,
{
    if i < j && is_space(s[j - 1]) {
        last_word_bounds(s, i, j - 1);
    }
}

/// `s` without its leading white space.
pub fn trim_start_chars(s: &[char]) -> (r: Vec<char>)
    ensures
        r@ == trim_start(s@),
{
    let mut i: usize = 0;
    while i < s.len() && space(s[i])
        invariant
            i <= s@.len(),
            first_word(s@, 0) == first_word(s@, i as int),
        decreases s@.len() - i,
    {
        i = i + 1;
    }
    let r = slice_of(s, i, s.len());
    assert(s@.subrange(i as int, s@.len() as int) =~= s@.skip(i as int));
    r
}

/// `s` without its trailing white space.
pub fn trim_end_chars(s: &[char]) -> (r: Vec<char>)
    ensures
        r@ == trim_end(s@),
{
    let mut j: usize = s.len();
    while 0 < j && space(s[j - 1])
        invariant
            j <= s@.len(),
            last_word(s@, 0, s@.len() as int) == last_word(s@, 0, j as int),
        decreases j,
    {
        j = j - 1;
    }
    let r = slice_of(s, 0, j);
    assert(s@.subrange(0, j as int) =~= s@.take(j as int));
    r
}

/// `s` without its leading and trailing white space.
pub fn trim_chars(s: &[char]) -> (r: Vec<char>)
    ensures
        r@ == trim(s@),
{
    let t = trim_start_chars(s);
    trim_end_chars(t.as_slice())
}

/// The decimal digit of `d`.
pub open spec fn digit(d: nat) -> char {
    if d == 0 {
        '0'
    } else if d == 1 {
        '1'
    } else if d == 2 {
        '2'
    } else if d == 3 {
        '3'
    } else if d == 4 {
        '4'
    } else if d == 5 {
        '5'
    } else if d == 6 {
        '6'
    } else if d == 7 {
        '7'
    } else if d == 8 {
        '8'
    } else {
        '9'
    }
}

/// The decimal digit of `d`.
pub fn digit_char(d: u64) -> (c: char)
    requires
        d < 10,
    ensures
        c == digit(d as nat),
{
    match d {
        0 => '0',
        1 => '1',
        2 => '2',
        3 => '3',
        4 => '4',
        5 => '5',
        6 => '6',
        7 => '7',
        8 => '8',
        _ => '9',
    }
}

/// The decimal numeral of `n`.
pub open spec fn decimal(n: nat) -> Seq<char>
    decreases n,
{
    if n < 10 {
        seq![digit(n)]
    } else {
        decimal(n / 10).push(digit(n % 10))
    }
}

/// The decimal numeral of `n`.
pub fn decimal_of(n: u64) -> (v: Vec<char>)
    ensures
        v@ == decimal(n as nat),
    decreases n,
{
    if n < 10 {
        let mut v: Vec<char> = Vec::new();
        v.push(digit_char(n));
        assert(v@ =~= seq![digit(n as nat)]);
        v
    } else {
        let mut v = decimal_of(n / 10);
        v.push(digit_char(n % 10));
        v
    }
}

/// The decimal numeral of `n`, with a minus sign where it is negative.
pub open spec fn integer(n: int) -> Seq<char> {
    if n < 0 {
        seq!['-'] + decimal((-n) as nat)
    } else {
        decimal(n as nat)
    }
}

/// The decimal numeral of `n`, with a minus sign where it is negative.
pub fn integer_of(n: i64) -> (v: Vec<char>)
    ensures
        v@ == integer(n as int),
{
    if n < 0 {
        let above: i64 = -(n + 1);
        let size: u64 = above as u64 + 1;
        let digits = decimal_of(size);
        let mut v: Vec<char> = Vec::new();
        v.push('-');
        push_all(&mut v, digits.as_slice());
        assert(v@ =~= seq!['-'] + decimal((-n) as nat));
        v
    } else {
        decimal_of(n as u64)
    }
}

/// How a text is written for debugging: quoted, with what is special escaped.
pub uninterp spec fn debug_text(s: Seq<char>) -> Seq<char>;

/// The `Debug` rendering of a string slice, as `format!` writes it: a function
/// of its characters alone.
#[verifier::external_body]
pub(crate) fn quoted(s: &str) -> (q: String)
    ensures
        q@ == debug_text(s@),
{
    format!("{s:?}")
}

/// Three texts in a row.
pub fn three(a: &str, b: &str, c: &str) -> (s: String)
    ensures
        s@ == a@ + b@ + c@,
{
    let mut v = chars_of(a);
    push_text(&mut v, b);
    push_text(&mut v, c);
    string_of(v.as_slice())
}

/// What `String::from_utf8_lossy` reads bytes as.
pub uninterp spec fn lossy_text(bytes: Seq<u8>) -> Seq<char>;

/// The text of bytes, read by `String::from_utf8_lossy`: what is no UTF-8 is
/// replaced, and bytes that are UTF-8 are read as they are.
#[verifier::external_body]
pub(crate) fn read_lossy(bytes: &[u8]) -> (s: String)
    ensures
        s@ == lossy_text(bytes@),
        vstd::utf8::valid_utf8(bytes@) ==> s@ == vstd::utf8::decode_utf8(bytes@),
{
    String::from_utf8_lossy(bytes).into_owned()
}

} // verus!
