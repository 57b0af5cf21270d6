//! Lexicographic order over sequences of numbers.
//!
//! Paths, head encodings and winner ranks are all compared lexicographically;
//! this module states that order once, over `Seq<int>`, and proves that it is a
//! strict total order.

use vstd::prelude::*;

verus! {

/// The result of a three-way comparison.
#[derive(Debug, Clone, Copy, PartialEq, Eq, Structural)]
pub enum Rank {
    /// The left operand comes first.
    Less,
    /// Neither operand comes first.
    Same,
    /// The right operand comes first.
    Greater,
}

/// Lexicographic order of `a` and `b` from position `i` on.
pub open spec fn lex_from(a: Seq<int>, b: Seq<int>, i: nat) -> bool
    decreases a.len() - i,
{
    if i >= b.len() {
        false
    } else if i >= a.len() {
        true
    } else if a[i as int] != b[i as int] {
        a[i as int] < b[i as int]
    } else {
        lex_from(a, b, i + 1)
    }
}

/// `a` comes strictly before `b` in lexicographic order.
pub open spec fn lex_lt(a: Seq<int>, b: Seq<int>) -> bool {
    lex_from(a, b, 0)
}

/// The numbers of a byte string.
pub open spec fn byte_key(s: Seq<u8>) -> Seq<int> {
    Seq::new(s.len(), |i: int| s[i] as int)
}

/// `a` comes strictly before `b` as byte strings.
pub open spec fn bytes_lt(a: Seq<u8>, b: Seq<u8>) -> bool {
    lex_lt(byte_key(a), byte_key(b))
}

/// `a` comes strictly before `b` as texts: their UTF-8 encodings are compared.
pub open spec fn text_lt(a: Seq<char>, b: Seq<char>) -> bool {
    bytes_lt(vstd::utf8::encode_utf8(a), vstd::utf8::encode_utf8(b))
}

/// No sequence precedes itself.
pub proof fn lex_irreflexive(a: Seq<int>)
    ensures
        !lex_lt(a, a),
{
    lex_from_irreflexive(a, 0);
}

proof fn lex_from_irreflexive(a: Seq<int>, i: nat)
    ensures
        !lex_from(a, a, i),
    decreases a.len() - i,
{
    if i < a.len() {
        lex_from_irreflexive(a, i + 1);
    }
}

/// The order is transitive.
pub proof fn lex_transitive(a: Seq<int>, b: Seq<int>, c: Seq<int>)
    requires
        lex_lt(a, b),
        lex_lt(b, c),
    ensures
        lex_lt(a, c),
{
    lex_from_transitive(a, b, c, 0);
}

proof fn lex_from_transitive(a: Seq<int>, b: Seq<int>, c: Seq<int>, i: nat)
    requires
        lex_from(a, b, i),
        lex_from(b, c, i),
    ensures
        lex_from(a, c, i),
    decreases a.len() - i,
{
    if i < a.len() && i < b.len() && i < c.len() && a[i as int] == b[i as int] && b[i as int]
        == c[i as int] {
        lex_from_transitive(a, b, c, i + 1);
    }
}

/// Of two different sequences one precedes the other.
pub proof fn lex_total(a: Seq<int>, b: Seq<int>)
    ensures
        lex_lt(a, b) || lex_lt(b, a) || a == b,
{
    lex_from_total(a, b, 0);
    if !lex_lt(a, b) && !lex_lt(b, a) {
        assert(a =~= b);
    }
}

proof fn lex_from_total(a: Seq<int>, b: Seq<int>, i: nat)
    ensures
        lex_from(a, b, i) || lex_from(b, a, i) || (i >= a.len() && i >= b.len()) || (a.len()
            == b.len() && forall|j: int| i <= j < a.len() ==> a[j] == b[j]),
    decreases a.len() - i,
{
    if i < a.len() && i < b.len() && a[i as int] == b[i as int] {
        lex_from_total(a, b, i + 1);
    }
}

/// The first place where two sequences differ decides.
pub proof fn first_difference_decides(a: Seq<int>, b: Seq<int>, j: nat)
    requires
        j < a.len(),
        j < b.len(),
        forall|i: int| 0 <= i < j ==> a[i] == b[i],
        a[j as int] < b[j as int],
    ensures
        lex_lt(a, b),
{
    differs_from(a, b, 0, j);
}

proof fn differs_from(a: Seq<int>, b: Seq<int>, i: nat, j: nat)
    requires
        i <= j,
        j < a.len(),
        j < b.len(),
        forall|k: int| 0 <= k < j ==> a[k] == b[k],
        a[j as int] < b[j as int],
    ensures
        lex_from(a, b, i),
    decreases j - i,
{
    if i < j {
        differs_from(a, b, i + 1, j);
    }
}

/// The order is asymmetric.
pub proof fn lex_asymmetric(a: Seq<int>, b: Seq<int>)
    requires
        lex_lt(a, b),
    ensures
        !lex_lt(b, a),
{
    if lex_lt(b, a) {
        lex_transitive(a, b, a);
        lex_irreflexive(a);
    }
}

/// With leading parts of one length, the leading parts are compared first.
pub proof fn lex_concat(a: Seq<int>, b: Seq<int>, c: Seq<int>, d: Seq<int>)
    requires
        a.len() == b.len(),
    ensures
        lex_lt(a + c, b + d) <==> (lex_lt(a, b) || (a == b && lex_lt(c, d))),
{
    lex_concat_from(a, b, c, d, 0);
    lex_irreflexive(a);
}

proof fn lex_concat_from(a: Seq<int>, b: Seq<int>, c: Seq<int>, d: Seq<int>, i: nat)
    requires
        a.len() == b.len(),
        i <= a.len(),
        forall|j: int| 0 <= j < i ==> a[j] == b[j],
    ensures
        lex_from(a + c, b + d, i) <==> (lex_from(a, b, i) || (a == b && lex_lt(c, d))),
    decreases a.len() - i,
{
    if i == a.len() {
        assert(a =~= b);
        lex_shift(a, b, c, d, 0);
    } else {
        assert((a + c)[i as int] == a[i as int]);
        assert((b + d)[i as int] == b[i as int]);
        if a[i as int] == b[i as int] {
            lex_concat_from(a, b, c, d, i + 1);
        } else {
            assert(a != b);
        }
    }
}

proof fn lex_shift(a: Seq<int>, b: Seq<int>, c: Seq<int>, d: Seq<int>, i: nat)
    requires
        a.len() == b.len(),
    ensures
        lex_from(a + c, b + d, a.len() + i) == lex_from(c, d, i),
    decreases c.len() - i,
{
    if i < c.len() && i < d.len() {
        assert((a + c)[(a.len() + i) as int] == c[i as int]);
        assert((b + d)[(a.len() + i) as int] == d[i as int]);
        lex_shift(a, b, c, d, i + 1);
    }
}

/// Different byte strings have different keys.
pub proof fn byte_key_injective(a: Seq<u8>, b: Seq<u8>)
    requires
        byte_key(a) == byte_key(b),
    ensures
        a == b,
{
    assert(byte_key(a).len() == a.len() && byte_key(b).len() == b.len());
    assert forall|i: int| 0 <= i < a.len() implies a[i] == b[i] by {
        assert(byte_key(a)[i] == a[i] as int);
        assert(byte_key(b)[i] == b[i] as int);
    }
    assert(a =~= b);
}

/// Different texts have different UTF-8 encodings.
pub proof fn utf8_injective(a: Seq<char>, b: Seq<char>)
    requires
        vstd::utf8::encode_utf8(a) == vstd::utf8::encode_utf8(b),
    ensures
        a == b,
{
    vstd::utf8::encode_utf8_decode_utf8(a);
    vstd::utf8::encode_utf8_decode_utf8(b);
}

/// `bytes_lt` is a strict total order.
pub proof fn bytes_order(a: Seq<u8>, b: Seq<u8>, c: Seq<u8>)
    ensures
        !bytes_lt(a, a),
        bytes_lt(a, b) ==> !bytes_lt(b, a),
        bytes_lt(a, b) && bytes_lt(b, c) ==> bytes_lt(a, c),
        bytes_lt(a, b) || bytes_lt(b, a) || a == b,
{
    lex_irreflexive(byte_key(a));
    lex_total(byte_key(a), byte_key(b));
    if byte_key(a) == byte_key(b) {
        byte_key_injective(a, b);
    }
    if bytes_lt(a, b) {
        lex_asymmetric(byte_key(a), byte_key(b));
        if bytes_lt(b, c) {
            lex_transitive(byte_key(a), byte_key(b), byte_key(c));
        }
    }
}

/// `text_lt` is a strict total order.
pub proof fn text_order(a: Seq<char>, b: Seq<char>, c: Seq<char>)
    ensures
        !text_lt(a, a),
        text_lt(a, b) ==> !text_lt(b, a),
        text_lt(a, b) && text_lt(b, c) ==> text_lt(a, c),
        text_lt(a, b) || text_lt(b, a) || a == b,
{
    bytes_order(
        vstd::utf8::encode_utf8(a),
        vstd::utf8::encode_utf8(b),
        vstd::utf8::encode_utf8(c),
    );
    if vstd::utf8::encode_utf8(a) == vstd::utf8::encode_utf8(b) {
        utf8_injective(a, b);
    }
}

/// Three-way comparison of texts.
pub fn compare_text(a: &str, b: &str) -> (r: Rank)
    ensures
        r is Less <==> text_lt(a@, b@),
        r is Greater <==> text_lt(b@, a@),
        r is Same <==> a@ == b@,
{
    let r = compare_bytes(a.as_bytes(), b.as_bytes());
    proof {
        if r is Same {
            utf8_injective(a@, b@);
        }
    }
    r
}

/// Three-way comparison of byte strings.
pub fn compare_bytes(a: &[u8], b: &[u8]) -> (r: Rank)
    ensures
        r is Less <==> bytes_lt(a@, b@),
        r is Greater <==> bytes_lt(b@, a@),
        r is Same <==> a@ == b@,
{
    let ghost ka = byte_key(a@);
    let ghost kb = byte_key(b@);
    let mut i: usize = 0;
    while i < a.len() && i < b.len()
        invariant
            i <= a.len(),
            i <= b.len(),
            ka == byte_key(a@),
            kb == byte_key(b@),
            forall|j: int| 0 <= j < i ==> a@[j] == b@[j],
            lex_lt(ka, kb) == lex_from(ka, kb, i as nat),
            lex_lt(kb, ka) == lex_from(kb, ka, i as nat),
        decreases a.len() - i,
    {
        if a[i] < b[i] {
            assert(ka[i as int] < kb[i as int]);
            return Rank::Less;
        }
        if a[i] > b[i] {
            assert(ka[i as int] > kb[i as int]);
            return Rank::Greater;
        }
        assert(ka[i as int] == kb[i as int]);
        i = i + 1;
    }
    if a.len() < b.len() {
        Rank::Less
    } else if a.len() > b.len() {
        Rank::Greater
    } else {
        assert(a@ =~= b@);
        Rank::Same
    }
}

} // verus!
