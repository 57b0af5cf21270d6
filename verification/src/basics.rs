//! Laws of what everything else is made of: clocks, digits and maps.

use crate::bytes;
use crate::clock;
use crate::clock::Causality;
use crate::pathmap;
use crate::targets;
use crate::text;
use crate::words;
use vstd::prelude::*;

verus! {

// ---- clocks ----------------------------------------------------------------
/// Law: how two clocks compare, counter by counter. They are equal where all counters
/// are; one is before the other where none of its counters is larger and one is smaller;
/// and they are concurrent where each has a counter that is larger than the other's.
pub proof fn clocks_compare_by_counters(a: Seq<(u64, u64)>, b: Seq<(u64, u64)>)
    ensures
        ({
            let behind = exists|r: u64| #[trigger] clock::count(a, r) < clock::count(b, r);
            let ahead = exists|r: u64| #[trigger] clock::count(a, r) > clock::count(b, r);
            clock::causality(a, b) == match (behind, ahead) {
                (false, false) => Causality::Equal,
                (true, false) => Causality::Before,
                (false, true) => Causality::After,
                (true, true) => Causality::Concurrent,
            }
        }),
{
    let behind = exists|r: u64| #[trigger] clock::count(a, r) < clock::count(b, r);
    let ahead = exists|r: u64| #[trigger] clock::count(a, r) > clock::count(b, r);
    assert(clock::leq(a, b) == !ahead);
    assert(clock::leq(b, a) == !behind) by {
        if behind {
            let r = choose|r: u64| #[trigger] clock::count(a, r) < clock::count(b, r);
            assert(clock::count(b, r) > clock::count(a, r));
        } else {
            assert forall|r: u64| #[trigger] clock::count(b, r) <= clock::count(a, r) by {
                assert(!(clock::count(a, r) < clock::count(b, r)));
            }
        }
    }
}

/// Law: a tick counts one event more of its replica, and no other counter changes.
pub proof fn a_tick_counts_one(t: Seq<(u64, u64)>, a: Seq<(u64, u64)>, r: u64, q: u64)
    requires
        clock::is_tick(t, a, r),
        clock::count(a, r) < u64::MAX,
    ensures
        clock::count(t, r) == clock::count(a, r) + 1,
        q != r ==> clock::count(t, q) == clock::count(a, q),
{
    assert(clock::counts(t).dom().contains(r));
    assert(clock::counts(t)[r] == clock::count(t, r));
    if q != r {
        assert(clock::counts(t).dom().contains(q) == clock::counts(a).dom().contains(q));
        if clock::mentions(a, q) {
            assert(clock::counts(t)[q] == clock::counts(a)[q]);
        }
    }
}

/// Law: a clock that is made of pairs has, for every replica, the counter of the last pair
/// that names it, and none for a replica that no pair names.
pub proof fn the_last_pair_of_a_replica_counts(pairs: Seq<(u64, u64)>, r: u64, k: int)
    requires
        -1 <= k < pairs.len(),
        k >= 0 ==> pairs[k].0 == r,
        forall|i: int| k < i < pairs.len() ==> (#[trigger] pairs[i]).0 != r,
    ensures
        clock::inserted(pairs).dom().contains(r) == (k >= 0),
        k >= 0 ==> clock::inserted(pairs)[r] == pairs[k].1,
    decreases pairs.len(),
{
    if pairs.len() > 0 && k < pairs.len() - 1 {
        let front = pairs.drop_last();
        assert(pairs[pairs.len() - 1].0 != r);
        assert forall|i: int| k < i < front.len() implies (#[trigger] front[i]).0 != r by {
            assert(front[i] == pairs[i]);
        }
        the_last_pair_of_a_replica_counts(front, r, k);
    }
}

/// Law: a map that is made of pairs has, for every path, the value of the last pair that
/// names it, and none for a path that no pair names.
pub proof fn the_last_pair_of_a_path_counts<V>(
    pairs: Seq<(Seq<char>, V)>,
    p: Seq<char>,
    k: int,
)
    requires
        -1 <= k < pairs.len(),
        k >= 0 ==> pairs[k].0 == p,
        forall|i: int| k < i < pairs.len() ==> (#[trigger] pairs[i]).0 != p,
    ensures
        pathmap::built(pairs).dom().contains(p) == (k >= 0),
        k >= 0 ==> pathmap::built(pairs)[p] == pairs[k].1,
    decreases pairs.len(),
{
    if pairs.len() > 0 && k < pairs.len() - 1 {
        let front = pairs.drop_last();
        assert(pairs[pairs.len() - 1].0 != p);
        assert forall|i: int| k < i < front.len() implies (#[trigger] front[i]).0 != p by {
            assert(front[i] == pairs[i]);
        }
        the_last_pair_of_a_path_counts(front, p, k);
    }
}

// ---- digits ----------------------------------------------------------------
/// The value of a lower-case hexadecimal digit; 16 for what is none.
pub open spec fn hex_value(c: char) -> int {
    if '0' <= c <= '9' {
        c as int - '0' as int
    } else if 'a' <= c <= 'f' {
        c as int - 'a' as int + 10
    } else {
        16
    }
}

/// Law: the hexadecimal text of bytes is two lower-case digits for each, of which the
/// first counts sixteenfold.
pub proof fn hexadecimal_is_two_digits_a_byte(s: Seq<u8>, i: int)
    requires
        0 <= i < s.len(),
    ensures
        bytes::hex_text(s).len() == 2 * s.len(),
        hex_value(bytes::hex_text(s)[2 * i]) < 16,
        hex_value(bytes::hex_text(s)[2 * i + 1]) < 16,
        16 * hex_value(bytes::hex_text(s)[2 * i]) + hex_value(bytes::hex_text(s)[2 * i + 1]) == s[i],
    decreases s.len(),
{
    let front = s.drop_last();
    hex_length(front);
    hex_length(s);
    let t = bytes::hex_text(s);
    if i < front.len() {
        hexadecimal_is_two_digits_a_byte(front, i);
        assert(t[2 * i] == bytes::hex_text(front)[2 * i]);
        assert(t[2 * i + 1] == bytes::hex_text(front)[2 * i + 1]);
    } else {
        let b = s.last();
        assert(t[2 * i] == bytes::hex_digit(b / 16));
        assert(t[2 * i + 1] == bytes::hex_digit(b % 16));
        digit_has_its_value(b / 16);
        digit_has_its_value(b % 16);
    }
}

proof fn digit_has_its_value(n: u8)
    requires
        n < 16,
    ensures
        hex_value(bytes::hex_digit(n)) == n,
{
}

proof fn hex_length(s: Seq<u8>)
    ensures
        bytes::hex_text(s).len() == 2 * s.len(),
    decreases s.len(),
{
    if s.len() > 0 {
        hex_length(s.drop_last());
    }
}

/// Law: the text of a number is its numeral, behind a minus sign where it is negative.
pub proof fn negative_numbers_have_a_sign(n: nat)
    ensures
        words::digits_value(text::integer(n as int)) == Some(n),
        n > 0 ==> text::integer(-(n as int))[0] == '-' && words::digits_value(
            text::integer(-(n as int)).skip(1),
        ) == Some(n),
{
    targets::numerals_are_read(n);
    if n > 0 {
        let t = text::integer(-(n as int));
        assert(t.skip(1) =~= text::decimal(n));
    }
}

} // verus!
