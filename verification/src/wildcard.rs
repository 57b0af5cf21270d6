//! Patterns with `*` and `?`, as host patterns have them.

use crate::words;
use vstd::prelude::*;

verus! {

/// The pattern `n` from `p` on matches the text `h` from `t` on: `*` stands for
/// any run of characters, `?` for one, and any other character for itself.
pub open spec fn fits(n: Seq<char>, h: Seq<char>, p: int, t: int) -> bool
    decreases (n.len() - p) + (h.len() - t),
{
    if p < 0 || t < 0 || t > h.len() {
        false
    } else if p >= n.len() {
        t == h.len()
    } else if n[p] == '*' {
        fits(n, h, p + 1, t) || (t < h.len() && fits(n, h, p, t + 1))
    } else {
        t < h.len() && (n[p] == '?' || n[p] == h[t]) && fits(n, h, p + 1, t + 1)
    }
}

/// Whether a text matches a pattern; ASCII letter case does not matter.
pub open spec fn matches_pattern(pattern: Seq<char>, s: Seq<char>) -> bool {
    fits(words::lowered(pattern), words::lowered(s), 0, 0)
}

/// The pattern from `a` up to `b` holds no `*` and matches the text at `t`
/// character by character.
spec fn plain(n: Seq<char>, h: Seq<char>, a: int, b: int, t: int) -> bool {
    &&& 0 <= a <= b <= n.len()
    &&& 0 <= t
    &&& t + (b - a) <= h.len()
    &&& forall|k: int|
        a <= k < b ==> (#[trigger] n[k]) != '*' && (n[k] == '?' || n[k] == h[t + (k - a)])
}

/// A plain stretch that matches leaves the rest to be matched.
proof fn plain_fits(n: Seq<char>, h: Seq<char>, a: int, b: int, t: int)
    requires
        plain(n, h, a, b, t),
    ensures
        fits(n, h, a, t) == fits(n, h, b, t + (b - a)),
    decreases b - a,
{
    if a < b {
        assert(n[a] != '*');
        assert(plain(n, h, a + 1, b, t + 1)) by {
            assert forall|k: int| a + 1 <= k < b implies (#[trigger] n[k]) != '*' && (n[k] == '?'
                || n[k] == h[t + 1 + (k - (a + 1))]) by {
                assert(n[k] == '?' || n[k] == h[t + (k - a)]);
            }
        }
        plain_fits(n, h, a + 1, b, t + 1);
    }
}

/// A stretch without `*` takes as many characters as it has.
proof fn stretch_consumes(n: Seq<char>, h: Seq<char>, a: int, b: int, m: int)
    requires
        0 <= a <= b <= n.len(),
        forall|k: int| a <= k < b ==> (#[trigger] n[k]) != '*',
        fits(n, h, a, m),
    ensures
        m + (b - a) <= h.len(),
        fits(n, h, b, m + (b - a)),
    decreases b - a,
{
    if a < b {
        assert(n[a] != '*');
        stretch_consumes(n, h, a + 1, b, m + 1);
    }
}

/// What `*` matches later it matches earlier, too.
proof fn star_reaches(n: Seq<char>, h: Seq<char>, p: int, t: int, later: int)
    requires
        0 <= p < n.len(),
        n[p] == '*',
        0 <= t <= later,
        fits(n, h, p, later),
    ensures
        fits(n, h, p, t),
    decreases later - t,
{
    if t < later {
        assert(later <= h.len());
        star_reaches(n, h, p, t + 1, later);
    }
}

/// Where `*` at `p` matches from `t` on, what follows it matches from some later
/// position.
proof fn star_stops(n: Seq<char>, h: Seq<char>, p: int, t: int) -> (m: int)
    requires
        0 <= p < n.len(),
        n[p] == '*',
        fits(n, h, p, t),
    ensures
        t <= m <= h.len(),
        fits(n, h, p + 1, m),
    decreases h.len() - t,
{
    if fits(n, h, p + 1, t) {
        t
    } else {
        star_stops(n, h, p, t + 1)
    }
}

/// Past a plain stretch after a `*`, the match is decided by what follows the
/// stretch, if a `*` follows or the text is used up.
proof fn latest_star_decides(n: Seq<char>, h: Seq<char>, sp: int, mark: int, p: int, t: int)
    requires
        0 <= sp < p <= n.len(),
        n[sp] == '*',
        0 <= mark,
        t - mark == p - sp - 1,
        plain(n, h, sp + 1, p, mark),
        t == h.len() || (p < n.len() && n[p] == '*'),
    ensures
        fits(n, h, sp, mark) == fits(n, h, p, t),
{
    if fits(n, h, p, t) {
        plain_fits(n, h, sp + 1, p, mark);
    }
    if fits(n, h, sp, mark) {
        let m = star_stops(n, h, sp, mark);
        stretch_consumes(n, h, sp + 1, p, m);
        let later = m + (p - (sp + 1));
        if t < h.len() {
            star_reaches(n, h, p, t, later);
        }
    }
}

/// At the end of the text only stars may be left.
proof fn stars_left(n: Seq<char>, h: Seq<char>, p: int)
    requires
        0 <= p <= n.len(),
    ensures
        fits(n, h, p, h.len() as int) == (forall|k: int| p <= k < n.len() ==> n[k] == '*'),
    decreases n.len() - p,
{
    if p < n.len() {
        stars_left(n, h, p + 1);
        if n[p] == '*' {
            assert(fits(n, h, p, h.len() as int) == fits(n, h, p + 1, h.len() as int));
        }
    }
}

/// Whether `text` matches `pattern`, in which `*` stands for any run of characters
/// and `?` for one; ASCII letter case does not matter.
pub fn glob_match(pattern: &[char], s: &[char]) -> (b: bool)
    ensures
        b == matches_pattern(pattern@, s@),
{
    let needle = words::lower_chars(pattern);
    let hay = words::lower_chars(s);
    let ghost n = needle@;
    let ghost h = hay@;
    let mut p: usize = 0;
    let mut t: usize = 0;
    let mut star: Option<usize> = None;
    let mut mark: usize = 0;
    while t < hay.len()
        invariant
            n == needle@,
            h == hay@,
            p <= n.len(),
            t <= h.len(),
            mark <= t,
            n == words::lowered(pattern@),
            h == words::lowered(s@),
            match star {
                None => fits(n, h, 0, 0) == fits(n, h, p as int, t as int),
                Some(sp) => {
                    &&& sp < p
                    &&& n[sp as int] == '*'
                    &&& t - mark == p - sp - 1
                    &&& plain(n, h, sp + 1, p as int, mark as int)
                    &&& fits(n, h, 0, 0) == fits(n, h, sp as int, mark as int)
                },
            },
        decreases
            n.len() - (match star {
                Some(sp) => sp as int,
                None => -1int,
            }),
            h.len() - mark,
            h.len() - t,
    {
        if p < needle.len() && needle[p] == '*' {
            proof {
                match star {
                    Some(sp) => {
                        latest_star_decides(
                            n,
                            h,
                            sp as int,
                            mark as int,
                            p as int,
                            t as int,
                        );
                    },
                    None => {},
                }
            }
            star = Some(p);
            mark = t;
            p = p + 1;
        } else if p < needle.len() && (needle[p] == '?' || needle[p] == hay[t]) {
            proof {
                match star {
                    Some(sp) => {
                        assert forall|k: int| sp + 1 <= k < p + 1 implies (#[trigger] n[k]) != '*'
                            && (n[k] == '?' || n[k] == h[mark + (k - (sp + 1))]) by {
                        }
                    },
                    None => {},
                }
            }
            p = p + 1;
            t = t + 1;
        } else {
            match star {
                Some(sp) => {
                    proof {
                        assert(!fits(n, h, p as int, t as int));
                        plain_fits(n, h, sp + 1, p as int, mark as int);
                    }
                    p = sp + 1;
                    mark = mark + 1;
                    t = mark;
                },
                None => {
                    return false;
                },
            }
        }
    }
    proof {
        match star {
            Some(sp) => {
                latest_star_decides(n, h, sp as int, mark as int, p as int, t as int);
            },
            None => {},
        }
        stars_left(n, h, p as int);
    }
    let ghost start = p;
    while p < needle.len() && needle[p] == '*'
        invariant
            start <= p <= needle@.len(),
            n == needle@,
            forall|k: int| start <= k < p ==> n[k] == '*',
        decreases needle@.len() - p,
    {
        p = p + 1;
    }
    p == needle.len()
}

} // verus!
