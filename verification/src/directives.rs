//! Laws of the SSH configuration: what patterns match, how lines are read, and which
//! values count.

use crate::sshhost;
use crate::sshhost::{RawModel, StrictHostKey};
use crate::sshlines;
use crate::sshlines::LineModel;
use crate::targets;
use crate::text;
use crate::wildcard;
use crate::words;
use vstd::prelude::*;

verus! {

// ---- patterns --------------------------------------------------------------
proof fn pattern_shift(a: Seq<char>, b: Seq<char>, h: Seq<char>, q: int, t: int)
    requires
        0 <= q <= b.len(),
        0 <= t <= h.len(),
    ensures
        wildcard::fits(a + b, h, a.len() + q, t) == wildcard::fits(b, h, q, t),
    decreases (b.len() - q) + (h.len() - t),
{
    if q < b.len() {
        assert((a + b)[a.len() + q] == b[q]);
        pattern_shift(a, b, h, q + 1, t);
        if t < h.len() {
            pattern_shift(a, b, h, q, t + 1);
            pattern_shift(a, b, h, q + 1, t + 1);
        }
    }
}

proof fn text_shift(b: Seq<char>, h: Seq<char>, k: int, q: int, t: int)
    requires
        0 <= q <= b.len(),
        0 <= k <= h.len(),
        0 <= t <= h.len() - k,
    ensures
        wildcard::fits(b, h, q, k + t) == wildcard::fits(b, h.skip(k), q, t),
    decreases (b.len() - q) + (h.len() - k - t),
{
    if q < b.len() {
        text_shift(b, h, k, q + 1, t);
        if t < h.len() - k {
            assert(h.skip(k)[t] == h[k + t]);
            text_shift(b, h, k, q, t + 1);
            text_shift(b, h, k, q + 1, t + 1);
        }
    }
}

proof fn pattern_joins(a: Seq<char>, b: Seq<char>, h: Seq<char>, p: int, t: int, k: int)
    requires
        0 <= p <= a.len(),
        0 <= t <= k <= h.len(),
        wildcard::fits(a, h.take(k), p, t),
        wildcard::fits(b, h, 0, k),
    ensures
        wildcard::fits(a + b, h, p, t),
    decreases (a.len() - p) + (k - t),
{
    let g = h.take(k);
    if p == a.len() {
        pattern_shift(a, b, h, 0, t);
    } else {
        assert((a + b)[p] == a[p]);
        if a[p] == '*' {
            if wildcard::fits(a, g, p + 1, t) {
                pattern_joins(a, b, h, p + 1, t, k);
            } else {
                pattern_joins(a, b, h, p, t + 1, k);
            }
        } else {
            assert(g[t] == h[t]);
            pattern_joins(a, b, h, p + 1, t + 1, k);
        }
    }
}

proof fn pattern_parts(a: Seq<char>, b: Seq<char>, h: Seq<char>, p: int, t: int) -> (k: int)
    requires
        0 <= p <= a.len(),
        0 <= t <= h.len(),
        wildcard::fits(a + b, h, p, t),
    ensures
        t <= k <= h.len(),
        wildcard::fits(a, h.take(k), p, t),
        wildcard::fits(b, h, 0, k),
    decreases (a.len() - p) + (h.len() - t),
{
    if p == a.len() {
        pattern_shift(a, b, h, 0, t);
        t
    } else {
        assert((a + b)[p] == a[p]);
        if a[p] == '*' {
            if wildcard::fits(a + b, h, p + 1, t) {
                pattern_parts(a, b, h, p + 1, t)
            } else {
                pattern_parts(a, b, h, p, t + 1)
            }
        } else {
            let k = pattern_parts(a, b, h, p + 1, t + 1);
            assert(h.take(k)[t] == h[t]);
            k
        }
    }
}

/// Law: a pattern that is put together of two matches exactly the texts that are put
/// together of two which these match.
pub proof fn patterns_match_in_parts(a: Seq<char>, b: Seq<char>, s: Seq<char>)
    ensures
        wildcard::matches_pattern(a + b, s) <==> exists|k: int|
            0 <= k <= s.len() && wildcard::matches_pattern(a, #[trigger] s.take(k))
                && wildcard::matches_pattern(b, s.skip(k)),
{
    let la = words::lowered(a);
    let lb = words::lowered(b);
    let h = words::lowered(s);
    assert(words::lowered(a + b) =~= la + lb);
    if wildcard::matches_pattern(a + b, s) {
        let k = pattern_parts(la, lb, h, 0, 0);
        text_shift(lb, h, k, 0, 0);
        assert(words::lowered(s.take(k)) =~= h.take(k));
        assert(words::lowered(s.skip(k)) =~= h.skip(k));
    }
    if exists|k: int|
        0 <= k <= s.len() && wildcard::matches_pattern(a, #[trigger] s.take(k))
            && wildcard::matches_pattern(b, s.skip(k)) {
        let k = choose|k: int|
            0 <= k <= s.len() && wildcard::matches_pattern(a, #[trigger] s.take(k))
                && wildcard::matches_pattern(b, s.skip(k));
        assert(words::lowered(s.take(k)) =~= h.take(k));
        assert(words::lowered(s.skip(k)) =~= h.skip(k));
        text_shift(lb, h, k, 0, 0);
        pattern_joins(la, lb, h, 0, 0, k);
    }
}

/// Law: what the parts of a pattern match. A star matches every text; a question mark
/// every text of one character; any other character itself, in either letter case; the
/// empty pattern the empty text.
pub proof fn what_a_character_matches(c: char, s: Seq<char>)
    ensures
        wildcard::matches_pattern(seq!['*'], s),
        wildcard::matches_pattern(seq!['?'], s) <==> s.len() == 1,
        c != '*' && c != '?' ==> (wildcard::matches_pattern(seq![c], s) <==> s.len() == 1
            && words::lower(s[0]) == words::lower(c)),
        wildcard::matches_pattern(seq![], s) <==> s.len() == 0,
{
    let h = words::lowered(s);
    assert(words::lowered(seq!['*']) =~= seq!['*']);
    assert(words::lowered(seq!['?']) =~= seq!['?']);
    assert(words::lowered(seq![c]) =~= seq![words::lower(c)]);
    assert(words::lowered(Seq::<char>::empty()) =~= Seq::<char>::empty());
    star_matches(h, 0);
    if h.len() > 0 {
        assert(h[0] == words::lower(s[0]));
        assert(wildcard::fits(seq!['?'], h, 1, 1) == (h.len() == 1));
        assert(wildcard::fits(seq![words::lower(c)], h, 1, 1) == (h.len() == 1));
    }
    if c != '*' && c != '?' {
        letters_stay_letters(c);
    }
}

proof fn letters_stay_letters(c: char)
    requires
        c != '*',
        c != '?',
    ensures
        words::lower(c) != '*',
        words::lower(c) != '?',
{
}

proof fn star_matches(h: Seq<char>, t: int)
    requires
        0 <= t <= h.len(),
    ensures
        wildcard::fits(seq!['*'], h, 0, t),
    decreases h.len() - t,
{
    if t < h.len() {
        star_matches(h, t + 1);
    } else {
        assert(wildcard::fits(seq!['*'], h, 1, t));
    }
}

/// The text is one word.
pub open spec fn one_word(s: Seq<char>) -> bool {
    s.len() > 0 && forall|i: int| 0 <= i < s.len() ==> !text::is_space(#[trigger] s[i])
}

proof fn words_shift(a: Seq<char>, b: Seq<char>, i: int)
    requires
        0 <= i <= b.len(),
    ensures
        words::words_from(a + b, a.len() + i) == words::words_from(b, i),
    decreases b.len() - i,
{
    let s = a + b;
    text::first_word_bounds(b, i);
    text::first_word_bounds(s, a.len() + i);
    let x = text::first_word(b, i);
    let y = text::first_word(s, a.len() + i);
    assert(y == a.len() + x) by {
        if y < a.len() + x {
            assert(s[y] == b[y - a.len()]);
        }
        if a.len() + x < y {
            assert(s[a.len() + x] == b[x]);
        }
    }
    words::word_end_bounds(b, x);
    words::word_end_bounds(s, y);
    let u = words::word_end(b, x);
    let v = words::word_end(s, y);
    assert(v == a.len() + u) by {
        if v < a.len() + u {
            assert(s[v] == b[v - a.len()]);
        }
        if a.len() + u < v {
            assert(s[a.len() + u] == b[u]);
        }
    }
    if x < u {
        words_shift(a, b, u);
        assert(s.subrange(y, v) =~= b.subrange(x, u));
    }
}

/// Law: a word that stands before white space is the first of the words.
pub proof fn a_word_leads(w: Seq<char>, sep: char, rest: Seq<char>)
    requires
        one_word(w),
        text::is_space(sep),
    ensures
        words::words(w + seq![sep] + rest) == seq![w] + words::words(rest),
        words::words(w) == seq![w],
{
    let s = w + seq![sep] + rest;
    let n = w.len() as int;
    text::first_word_bounds(s, 0);
    text::first_word_bounds(w, 0);
    assert(s[0] == w[0]);
    words::word_end_bounds(s, 0);
    words::word_end_bounds(w, 0);
    let e = words::word_end(s, 0);
    assert(s[n] == sep);
    assert(e == n) by {
        if e < n {
            assert(s[e] == w[e]);
        }
        if n < e {
            assert(!text::is_space(s[n]));
        }
    }
    assert(s.subrange(0, n) =~= w);
    let f = words::word_end(w, 0);
    assert(f == n);
    assert(w.subrange(0, n) =~= w);
    text::first_word_bounds(w, n);
    assert(words::words_from(w, n) =~= Seq::<Seq<char>>::empty());
    assert(words::words(w) =~= seq![w]);
    // What comes behind the word begins with white space.
    text::first_word_bounds(s, n);
    text::first_word_bounds(s, n + 1);
    assert(text::first_word(s, n) == text::first_word(s, n + 1));
    assert(words::words_from(s, n) == words::words_from(s, n + 1));
    assert(s =~= (w + seq![sep]) + rest);
    words_shift(w + seq![sep], rest, 0);
}

/// A pattern of the list excludes the host.
pub open spec fn barred(patterns: Seq<char>, host: Seq<char>) -> bool {
    exists|i: int|
        0 <= i < words::words(patterns).len() && sshlines::excludes(
            #[trigger] words::words(patterns)[i],
            host,
        )
}

/// Law: which hosts a list of patterns means. One pattern means the hosts that it
/// matches, and none where an exclamation mark stands before it. In front of a list, a
/// pattern adds the hosts that it matches, but for those that the list excludes; and one
/// behind an exclamation mark takes the hosts that it matches away.
pub proof fn which_hosts_are_meant(
    pattern: Seq<char>,
    sep: char,
    others: Seq<char>,
    host: Seq<char>,
)
    requires
        one_word(pattern),
        pattern[0] != '!',
        text::is_space(sep),
    ensures
        sshlines::host_meant(pattern, host) == wildcard::matches_pattern(pattern, host),
        !sshlines::host_meant(seq!['!'] + pattern, host),
        sshlines::host_meant(pattern + seq![sep] + others, host) == (sshlines::host_meant(
            others,
            host,
        ) || (wildcard::matches_pattern(pattern, host) && !barred(others, host))),
        sshlines::host_meant(seq!['!'] + pattern + seq![sep] + others, host) == (
        sshlines::host_meant(others, host) && !wildcard::matches_pattern(pattern, host)),
        barred(pattern + seq![sep] + others, host) == barred(others, host),
        barred(seq!['!'] + pattern + seq![sep] + others, host) == (barred(others, host)
            || wildcard::matches_pattern(pattern, host)),
{
    let denied = seq!['!'] + pattern;
    assert(one_word(denied)) by {
        assert forall|i: int| 0 <= i < denied.len() implies !text::is_space(#[trigger] denied[i]) by {
            if i > 0 {
                assert(denied[i] == pattern[i - 1]);
            }
        }
    }
    assert(denied.skip(1) =~= pattern);
    a_word_leads(pattern, sep, others);
    a_word_leads(denied, sep, others);
    let ws = words::words(others);
    in_front(pattern, others, pattern + seq![sep] + others, host);
    in_front(denied, others, denied + seq![sep] + others, host);
    assert(seq![pattern][0] == pattern && seq![denied][0] == denied);
    assert(sshlines::host_meant(pattern, host) == wildcard::matches_pattern(pattern, host)) by {
        assert(words::words(pattern)[0] == pattern);
    }
    assert(!sshlines::host_meant(denied, host)) by {
        assert(words::words(denied)[0] == denied);
    }
}

proof fn in_front(w: Seq<char>, others: Seq<char>, all: Seq<char>, host: Seq<char>)
    requires
        words::words(all) == seq![w] + words::words(others),
    ensures
        barred(all, host) == (sshlines::excludes(w, host) || barred(others, host)),
        sshlines::host_meant(all, host) == ((sshlines::admits(w, host) || (exists|i: int|
            0 <= i < words::words(others).len() && sshlines::admits(
                #[trigger] words::words(others)[i],
                host,
            ))) && !barred(all, host)),
        sshlines::host_meant(others, host) == ((exists|i: int|
            0 <= i < words::words(others).len() && sshlines::admits(
                #[trigger] words::words(others)[i],
                host,
            )) && !barred(others, host)),
{
    let ws = words::words(others);
    let vs = words::words(all);
    assert(vs[0] == w);
    assert forall|i: int| 0 <= i < ws.len() implies #[trigger] ws[i] == vs[i + 1] by {}
    assert forall|i: int| 1 <= i < vs.len() implies #[trigger] vs[i] == ws[i - 1] by {}
    if exists|i: int| 0 <= i < ws.len() && sshlines::admits(#[trigger] ws[i], host) {
        let i = choose|i: int| 0 <= i < ws.len() && sshlines::admits(#[trigger] ws[i], host);
        assert(sshlines::admits(vs[i + 1], host));
    }
    if barred(others, host) {
        let i = choose|i: int| 0 <= i < ws.len() && sshlines::excludes(#[trigger] ws[i], host);
        assert(sshlines::excludes(vs[i + 1], host));
    }
    if exists|i: int| 0 <= i < vs.len() && sshlines::admits(#[trigger] vs[i], host) {
        let i = choose|i: int| 0 <= i < vs.len() && sshlines::admits(#[trigger] vs[i], host);
        if i > 0 {
            assert(sshlines::admits(ws[i - 1], host));
        }
    }
    if barred(all, host) {
        let i = choose|i: int| 0 <= i < vs.len() && sshlines::excludes(#[trigger] vs[i], host);
        if i > 0 {
            assert(sshlines::excludes(ws[i - 1], host));
        }
    }
}

// ---- lines -----------------------------------------------------------------
/// The text is a keyword: a word without an equals sign, and no comment.
pub open spec fn keyword(k: Seq<char>) -> bool {
    one_word(k) && k[0] != '#' && forall|i: int| 0 <= i < k.len() ==> (#[trigger] k[i]) != '='
}

proof fn keyword_ends(s: Seq<char>, n: int, i: int)
    requires
        0 <= i <= n < s.len(),
        forall|j: int| i <= j < n ==> !text::is_space(#[trigger] s[j]) && s[j] != '=',
        text::is_space(s[n]) || s[n] == '=',
    ensures
        sshlines::keyword_end(s, i) == n,
    decreases n - i,
{
    if i < n {
        keyword_ends(s, n, i + 1);
    }
}

proof fn blanks_in_front(g: Seq<char>, v: Seq<char>)
    requires
        targets::blank(g),
        targets::bare(v),
    ensures
        text::trim_start(g + v) == v,
{
    let t = g + v;
    text::first_word_bounds(t, 0);
    let f = text::first_word(t, 0);
    assert(t[g.len() as int] == v[0]);
    if f < g.len() {
        assert(t[f] == g[f]);
    }
    assert(t.skip(f) =~= v);
}

/// Law: a line is a keyword and its argument, with white space between them, or an equals
/// sign with white space on either side. White space around the line does not matter.
pub proof fn a_line_is_a_keyword_and_its_argument(
    before: Seq<char>,
    k: Seq<char>,
    gap: Seq<char>,
    more: Seq<char>,
    v: Seq<char>,
    after: Seq<char>,
)
    requires
        targets::blank(before),
        keyword(k),
        targets::blank(gap),
        targets::blank(more),
        targets::bare(v),
        targets::blank(after),
    ensures
        gap.len() > 0 && v[0] != '=' ==> sshlines::directive(before + (k + gap + v) + after) == Some(
            (k, v),
        ),
        sshlines::directive(before + (k + gap + seq!['='] + more + v) + after) == Some((k, v)),
{
    if gap.len() > 0 && v[0] != '=' {
        let s = k + gap + v;
        assert(s[0] == k[0] && s[s.len() - 1] == v[v.len() - 1]);
        targets::trimming_leaves_the_middle(before, s, after);
        let n = k.len() as int;
        assert forall|j: int| 0 <= j < n implies !text::is_space(#[trigger] s[j]) && s[j] != '=' by {
            assert(s[j] == k[j]);
        }
        assert(s[n] == gap[0]);
        keyword_ends(s, n, 0);
        assert(s.skip(n) =~= gap + v);
        assert(s.take(n) =~= k);
        blanks_in_front(gap, v);
    }
    let s = k + gap + seq!['='] + more + v;
    assert(s[0] == k[0] && s[s.len() - 1] == v[v.len() - 1]);
    targets::trimming_leaves_the_middle(before, s, after);
    let n = k.len() as int;
    assert forall|j: int| 0 <= j < n implies !text::is_space(#[trigger] s[j]) && s[j] != '=' by {
        assert(s[j] == k[j]);
    }
    if gap.len() > 0 {
        assert(s[n] == gap[0]);
    } else {
        assert(s[n] == '=');
    }
    keyword_ends(s, n, 0);
    let r = seq!['='] + more + v;
    assert(s.skip(n) =~= gap + r);
    assert(s.take(n) =~= k);
    assert(targets::bare(r)) by {
        assert(r[0] == '=' && r[r.len() - 1] == v[v.len() - 1]);
    }
    blanks_in_front(gap, r);
    assert(r.skip(1) =~= more + v);
    blanks_in_front(more, v);
}

/// Law: blank lines and comments say nothing.
pub proof fn comments_say_nothing(before: Seq<char>, s: Seq<char>, after: Seq<char>)
    requires
        targets::blank(before),
        targets::blank(after),
        s.len() == 0 || (targets::bare(s) && s[0] == '#'),
    ensures
        sshlines::item_of(before + s + after) == sshlines::ItemModel::Nothing,
{
    targets::trimming_leaves_the_middle(before, s, after);
}

// ---- arguments -------------------------------------------------------------
proof fn args_shift(
    a: Seq<char>,
    b: Seq<char>,
    i: int,
    cur: Seq<char>,
    quoted: bool,
    started: bool,
)
    requires
        0 <= i <= b.len(),
    ensures
        sshlines::args_from(a + b, a.len() + i, cur, quoted, started) == sshlines::args_from(
            b,
            i,
            cur,
            quoted,
            started,
        ),
    decreases b.len() - i,
{
    if i < b.len() {
        assert((a + b)[a.len() + i] == b[i]);
        args_shift(a, b, i + 1, cur, !quoted, true);
        args_shift(a, b, i + 1, seq![], false, false);
        args_shift(a, b, i + 1, cur, false, false);
        args_shift(a, b, i + 1, cur.push(b[i]), quoted, true);
    }
}

proof fn args_take(
    s: Seq<char>,
    i: int,
    j: int,
    cur: Seq<char>,
    quoted: bool,
    started: bool,
)
    requires
        0 <= i < j <= s.len(),
        forall|k: int|
            i <= k < j ==> (#[trigger] s[k]) != '"' && (quoted || !text::is_space(s[k])),
    ensures
        sshlines::args_from(s, i, cur, quoted, started) == sshlines::args_from(
            s,
            j,
            cur + s.subrange(i, j),
            quoted,
            true,
        ),
    decreases j - i,
{
    assert(s[i] != '"');
    let next = cur.push(s[i]);
    if i + 1 < j {
        args_take(s, i + 1, j, next, quoted, true);
        assert(next + s.subrange(i + 1, j) =~= cur + s.subrange(i, j));
    } else {
        assert(next =~= cur + s.subrange(i, j));
    }
}

/// Law: arguments are the words of a text; what stands between double quotes is one
/// argument, or part of one, with its white space.
pub proof fn arguments_are_words(w: Seq<char>, q: Seq<char>, sep: char, rest: Seq<char>)
    requires
        one_word(w),
        forall|i: int| 0 <= i < w.len() ==> (#[trigger] w[i]) != '"',
        forall|i: int| 0 <= i < q.len() ==> (#[trigger] q[i]) != '"',
        text::is_space(sep),
        sep != '"',
    ensures
        sshlines::args(w + (seq![sep] + rest)) == seq![w] + sshlines::args(rest),
        sshlines::args(w) == seq![w],
        sshlines::args(seq!['"'] + q + seq!['"'] + (seq![sep] + rest)) == seq![q] + sshlines::args(
            rest,
        ),
        sshlines::args(seq!['"'] + q + seq!['"']) == seq![q],
        sshlines::args(seq![sep] + rest) == sshlines::args(rest),
        sshlines::args(seq![]) == Seq::<Seq<char>>::empty(),
{
    let none = Seq::<char>::empty();
    let tail = seq![sep] + rest;
    // Behind a separator everything starts anew.
    args_shift(seq![sep], rest, 0, none, false, false);
    assert(tail[0] == sep);
    assert(sshlines::args(tail) == sshlines::args(rest));
    assert(sshlines::args_from(tail, 0, w, false, true) == seq![w] + sshlines::args(rest));
    assert(sshlines::args_from(tail, 0, q, false, true) == seq![q] + sshlines::args(rest));
    // A plain word.
    let n = w.len() as int;
    args_take(w, 0, n, none, false, false);
    assert(none + w.subrange(0, n) =~= w);
    assert(sshlines::args_from(w, n, w, false, true) =~= seq![w]);
    let s = w + tail;
    assert forall|k: int| 0 <= k < n implies (#[trigger] s[k]) != '"' && (false || !text::is_space(
        s[k],
    )) by {
        assert(s[k] == w[k]);
    }
    args_take(s, 0, n, none, false, false);
    assert(none + s.subrange(0, n) =~= w);
    args_shift(w, tail, 0, w, false, true);
    // A quoted argument.
    let body = seq!['"'] + q + seq!['"'];
    quoted_take(q, none);
    assert(body + none =~= body);
    assert(sshlines::args_from(none, 0, q, false, true) =~= seq![q]);
    quoted_take(q, tail);
}

proof fn quoted_take(q: Seq<char>, tail: Seq<char>)
    requires
        forall|i: int| 0 <= i < q.len() ==> (#[trigger] q[i]) != '"',
    ensures
        sshlines::args(seq!['"'] + q + seq!['"'] + tail) == sshlines::args_from(
            tail,
            0,
            q,
            false,
            true,
        ),
{
    let none = Seq::<char>::empty();
    let body = seq!['"'] + q + seq!['"'];
    let s = body + tail;
    let m = q.len() as int;
    assert(s[0] == '"');
    if m > 0 {
        assert forall|k: int| 1 <= k < m + 1 implies (#[trigger] s[k]) != '"' && (true
            || !text::is_space(s[k])) by {
            assert(s[k] == q[k - 1]);
        }
        args_take(s, 1, m + 1, none, true, true);
        assert(none + s.subrange(1, m + 1) =~= q);
        assert(sshlines::args_from(s, 1, none, true, true) == sshlines::args_from(
            s,
            m + 1,
            q,
            true,
            true,
        ));
    } else {
        assert(q =~= none);
    }
    assert(s[m + 1] == '"');
    assert(sshlines::args_from(s, m + 1, q, true, true) == sshlines::args_from(
        s,
        m + 2,
        q,
        false,
        true,
    ));
    args_shift(body, tail, 0, q, false, true);
}

/// Law: one layer of double quotes around a text is dropped, and nothing else.
pub proof fn one_layer_of_quotes_is_dropped(q: Seq<char>)
    ensures
        sshlines::unquoted(seq!['"'] + q + seq!['"']) == q,
        q.len() < 2 || q[0] != '"' || q[q.len() - 1] != '"' ==> sshlines::unquoted(q) == q,
{
    let s = seq!['"'] + q + seq!['"'];
    assert(s.subrange(1, s.len() - 1) =~= q);
    assert(s.last() == '"');
}

// ---- which values count ----------------------------------------------------
/// Whether the line at `i` applies to the host: it stands before all blocks, or in a host
/// block whose patterns mean the host.
pub open spec fn applies(lines: Seq<LineModel>, i: int, host: Seq<char>) -> bool
    decreases i,
{
    if i <= 0 || i > lines.len() {
        true
    } else {
        match lines[i - 1] {
            LineModel::Host(patterns) => sshlines::host_meant(patterns, host),
            LineModel::Match => false,
            LineModel::Keyword { .. } => applies(lines, i - 1, host),
        }
    }
}

proof fn applies_in_front(lines: Seq<LineModel>, i: int, host: Seq<char>)
    requires
        0 <= i < lines.len(),
    ensures
        applies(lines.drop_last(), i, host) == applies(lines, i, host),
    decreases i,
{
    if i > 0 {
        assert(lines.drop_last()[i - 1] == lines[i - 1]);
        applies_in_front(lines, i - 1, host);
    }
}

proof fn activity(lines: Seq<LineModel>, host: Seq<char>)
    ensures
        sshhost::folded(lines, host).0 == applies(lines, lines.len() as int, host),
    decreases lines.len(),
{
    if lines.len() > 0 {
        activity(lines.drop_last(), host);
        applies_in_front(lines, lines.len() - 1, host);
        assert(lines[lines.len() - 1] == lines.last());
    }
}

/// A value that a directive gives.
pub ghost enum Given {
    /// A text.
    Text(Seq<char>),
    /// Several texts.
    Texts(Seq<Seq<char>>),
    /// A port.
    Port(u16),
    /// Yes or no.
    Flag(bool),
    /// A policy on host keys.
    Policy(StrictHostKey),
}

/// What an argument gives for a keyword of which one value counts; `None` where it gives
/// nothing.
pub open spec fn gives(name: Seq<char>, arg: Seq<char>) -> Option<Given> {
    let word = text::trim(arg);
    if name == "hostname"@ || name == "user"@ {
        Some(Given::Text(sshlines::unquoted(word)))
    } else if name == "port"@ {
        match words::number16(word) {
            Some(p) => if p > 0 {
                Some(Given::Port(p))
            } else {
                None
            },
            None => None,
        }
    } else if name == "identitiesonly"@ {
        Some(Given::Flag(words::lowered(word) == "yes"@))
    } else if name == "stricthostkeychecking"@ {
        let w = words::lowered(word);
        if w == "accept-new"@ {
            Some(Given::Policy(StrictHostKey::AcceptNew))
        } else if w == "no"@ || w == "off"@ {
            Some(Given::Policy(StrictHostKey::No))
        } else if w == "yes"@ || w == "ask"@ {
            Some(Given::Policy(StrictHostKey::Yes))
        } else {
            None
        }
    } else if name == "userknownhostsfile"@ || name == "globalknownhostsfile"@ {
        Some(Given::Texts(sshlines::args(arg)))
    } else if name == "proxyjump"@ {
        Some(Given::Text(word))
    } else {
        None
    }
}

/// The value that the directives hold for a keyword.
pub open spec fn value_in(r: RawModel, name: Seq<char>) -> Option<Given> {
    if name == "hostname"@ {
        option_of(r.host_name)
    } else if name == "user"@ {
        option_of(r.user)
    } else if name == "port"@ {
        match r.port {
            Some(p) => Some(Given::Port(p)),
            None => None,
        }
    } else if name == "identitiesonly"@ {
        match r.identities_only {
            Some(b) => Some(Given::Flag(b)),
            None => None,
        }
    } else if name == "stricthostkeychecking"@ {
        match r.strict {
            Some(s) => Some(Given::Policy(s)),
            None => None,
        }
    } else if name == "userknownhostsfile"@ {
        match r.known_hosts {
            Some(l) => Some(Given::Texts(l)),
            None => None,
        }
    } else if name == "globalknownhostsfile"@ {
        match r.global_known_hosts {
            Some(l) => Some(Given::Texts(l)),
            None => None,
        }
    } else if name == "proxyjump"@ {
        option_of(r.proxy_jump)
    } else {
        None
    }
}

/// A text that is there.
pub open spec fn option_of(s: Option<Seq<char>>) -> Option<Given> {
    match s {
        Some(t) => Some(Given::Text(t)),
        None => None,
    }
}

/// The line at `i` applies to the host and gives a value for the keyword.
pub open spec fn speaks(lines: Seq<LineModel>, i: int, host: Seq<char>, name: Seq<char>) -> bool {
    &&& 0 <= i < lines.len()
    &&& applies(lines, i, host)
    &&& match lines[i] {
        LineModel::Keyword { name: n, args } => n == name && gives(name, args) is Some,
        _ => false,
    }
}

/// Names of keywords are told apart.
proof fn keywords_differ()
    ensures
        "hostname"@ != "user"@,
        "hostname"@ != "port"@,
        "hostname"@ != "proxyjump"@,
        "hostname"@ != "identityfile"@,
        "user"@ != "port"@,
        "user"@ != "proxyjump"@,
        "user"@ != "identityfile"@,
        "port"@ != "proxyjump"@,
        "port"@ != "identityfile"@,
        "proxyjump"@ != "identityfile"@,
        "identitiesonly"@ != "identityfile"@,
        "identitiesonly"@ != "hostname"@,
        "identitiesonly"@ != "user"@,
        "identitiesonly"@ != "port"@,
        "identitiesonly"@ != "proxyjump"@,
        "stricthostkeychecking"@ != "identityfile"@,
        "userknownhostsfile"@ != "identityfile"@,
        "globalknownhostsfile"@ != "identityfile"@,
        "yes"@ != "no"@,
        "yes"@ != "off"@,
        "yes"@ != "accept-new"@,
        "ask"@ != "no"@,
        "ask"@ != "off"@,
        "ask"@ != "accept-new"@,
        "no"@ != "accept-new"@,
        "off"@ != "accept-new"@,
{
    reveal_strlit("hostname");
    assert("hostname"@.len() == 8);
    reveal_strlit("user");
    assert("user"@.len() == 4);
    reveal_strlit("port");
    assert("port"@.len() == 4);
    reveal_strlit("proxyjump");
    assert("proxyjump"@.len() == 9);
    reveal_strlit("identityfile");
    assert("identityfile"@.len() == 12);
    reveal_strlit("identitiesonly");
    assert("identitiesonly"@.len() == 14);
    reveal_strlit("stricthostkeychecking");
    assert("stricthostkeychecking"@.len() == 21);
    reveal_strlit("userknownhostsfile");
    assert("userknownhostsfile"@.len() == 18);
    reveal_strlit("globalknownhostsfile");
    assert("globalknownhostsfile"@.len() == 20);
    reveal_strlit("yes");
    assert("yes"@.len() == 3);
    reveal_strlit("no");
    assert("no"@.len() == 2);
    reveal_strlit("off");
    assert("off"@.len() == 3);
    reveal_strlit("ask");
    assert("ask"@.len() == 3);
    reveal_strlit("accept-new");
    assert("accept-new"@.len() == 10);
    assert("user"@[0] != "port"@[0]);
    assert("yes"@[0] != "off"@[0]);
    assert("ask"@[0] != "off"@[0]);
}

proof fn one_more_line(r: RawModel, name: Seq<char>, n: Seq<char>, arg: Seq<char>)
    ensures
        value_in(sshhost::applied(r, n, arg), name) == if value_in(r, name) is Some || n != name {
            value_in(r, name)
        } else {
            gives(name, arg)
        },
{
    keywords_differ();
}

/// Law: of every value that a host has, the first that a line gives counts: of the lines
/// before all blocks and in the blocks that mean the host. Where no such line gives one,
/// there is none.
pub proof fn the_first_line_that_speaks_counts(
    lines: Seq<LineModel>,
    host: Seq<char>,
    name: Seq<char>,
    k: int,
)
    requires
        0 <= k <= lines.len(),
        k < lines.len() ==> speaks(lines, k, host, name),
        forall|i: int| 0 <= i < k ==> !speaks(lines, i, host, name),
    ensures
        value_in(sshhost::folded(lines, host).1, name) == if k < lines.len() {
            match lines[k] {
                LineModel::Keyword { args, .. } => gives(name, args),
                _ => None,
            }
        } else {
            None
        },
    decreases lines.len(),
{
    if lines.len() > 0 {
        let front = lines.drop_last();
        let last = lines.len() - 1;
        activity(front, host);
        applies_in_front(lines, last, host);
        assert forall|i: int| 0 <= i < last implies speaks(front, i, host, name) == speaks(
            lines,
            i,
            host,
            name,
        ) by {
            applies_in_front(lines, i, host);
        }
        let at = if k < last {
            k
        } else {
            last
        };
        assert forall|i: int| 0 <= i < at implies !speaks(front, i, host, name) by {
            assert(!speaks(lines, i, host, name));
        }
        the_first_line_that_speaks_counts(front, host, name, at);
        assert(lines[last] == lines.last());
        match lines.last() {
            LineModel::Keyword { name: n, args } => {
                one_more_line(sshhost::folded(front, host).1, name, n, args);
                if k < last {
                    match lines[k] {
                        LineModel::Keyword { args: given, .. } => {
                            assert(gives(name, given) is Some);
                        },
                        _ => {},
                    }
                } else if k == lines.len() {
                    assert(!speaks(lines, last, host, name));
                }
            },
            _ => {},
        }
    } else {
        keywords_differ();
    }
}

/// Law: key files accumulate: every line that applies adds its arguments behind those
/// that were there.
pub proof fn key_files_accumulate(lines: Seq<LineModel>, line: LineModel, host: Seq<char>)
    ensures
        ({
            let before = sshhost::folded(lines, host).1.identity_files;
            let after = sshhost::folded(lines.push(line), host).1.identity_files;
            match line {
                LineModel::Keyword { name, args } => after == if name == "identityfile"@ && applies(
                    lines,
                    lines.len() as int,
                    host,
                ) {
                    before + sshlines::args(args)
                } else {
                    before
                },
                _ => after == before,
            }
        }),
{
    keywords_differ();
    activity(lines, host);
    assert(lines.push(line).drop_last() =~= lines);
}

} // verus!
