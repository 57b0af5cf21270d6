//! Byte strings: appending, and little-endian integers.

use vstd::prelude::*;

verus! {

/// The eight little-endian bytes of `x`.
pub open spec fn le64(x: u64) -> Seq<u8> {
    vstd::bytes::spec_u64_to_le_bytes(x)
}

/// Little-endian encodings have eight bytes and differ for different numbers.
pub proof fn le64_injective(x: u64, y: u64)
    ensures
        le64(x).len() == 8,
        le64(x) == le64(y) ==> x == y,
{
    vstd::bytes::lemma_auto_spec_u64_to_from_le_bytes();
    assert(vstd::bytes::spec_u64_from_le_bytes(le64(x)) == x);
    assert(vstd::bytes::spec_u64_from_le_bytes(le64(y)) == y);
}

/// Equal concatenations whose leading parts have one length agree on both parts.
pub proof fn concat_injective(a: Seq<u8>, b: Seq<u8>, r: Seq<u8>, t: Seq<u8>)
    requires
        a + r == b + t,
        a.len() == b.len(),
    ensures
        a == b,
        r == t,
{
    assert(a =~= (a + r).take(a.len() as int));
    assert(b =~= (b + t).take(b.len() as int));
    assert(r =~= (a + r).skip(a.len() as int));
    assert(t =~= (b + t).skip(b.len() as int));
}

/// Append the bytes of `b` to `a`.
pub fn push_bytes(a: &mut Vec<u8>, b: &[u8])
    ensures
        final(a)@ == old(a)@ + b@,
{
    let mut i: usize = 0;
    while i < b.len()
        invariant
            i <= b@.len(),
            a@ == old(a)@ + b@.take(i as int),
        decreases b@.len() - i,
    {
        a.push(b[i]);
        i = i + 1;
        assert(b@.take(i as int) =~= b@.take(i - 1).push(b@[i - 1]));
        assert(a@ =~= old(a)@ + b@.take(i as int));
    }
    assert(b@.take(b@.len() as int) =~= b@);
}

/// Append the little-endian bytes of `x` to `a`.
pub fn push_le64(a: &mut Vec<u8>, x: u64)
    ensures
        final(a)@ == old(a)@ + le64(x),
{
    let b = vstd::bytes::u64_to_le_bytes(x);
    push_bytes(a, b.as_slice());
}

/// A copy of the bytes from `from` up to `to`.
pub fn copy_bytes(s: &[u8], from: usize, to: usize) -> (v: Vec<u8>)
    requires
        from <= to <= s@.len(),
    ensures
        v@ == s@.subrange(from as int, to as int),
{
    let mut v: Vec<u8> = Vec::new();
    let mut i: usize = from;
    while i < to
        invariant
            from <= i <= to <= s@.len(),
            v@ == s@.subrange(from as int, i as int),
        decreases to - i,
    {
        v.push(s[i]);
        i = i + 1;
        assert(s@.subrange(from as int, i as int) =~= s@.subrange(from as int, i - 1).push(
            s@[i - 1],
        ));
    }
    v
}

/// Whether two byte strings are the same.
pub fn same_bytes(a: &[u8], b: &[u8]) -> (r: bool)
    ensures
        r == (a@ == b@),
{
    if a.len() != b.len() {
        return false;
    }
    let mut i: usize = 0;
    while i < a.len()
        invariant
            i <= a@.len(),
            a@.len() == b@.len(),
            forall|j: int| 0 <= j < i ==> a@[j] == b@[j],
        decreases a@.len() - i,
    {
        if a[i] != b[i] {
            return false;
        }
        i = i + 1;
    }
    assert(a@ =~= b@);
    true
}

/// The lower-case hexadecimal digit of `n`.
pub open spec fn hex_digit(n: u8) -> char {
    if n == 0 {
        '0'
    } else if n == 1 {
        '1'
    } else if n == 2 {
        '2'
    } else if n == 3 {
        '3'
    } else if n == 4 {
        '4'
    } else if n == 5 {
        '5'
    } else if n == 6 {
        '6'
    } else if n == 7 {
        '7'
    } else if n == 8 {
        '8'
    } else if n == 9 {
        '9'
    } else if n == 10 {
        'a'
    } else if n == 11 {
        'b'
    } else if n == 12 {
        'c'
    } else if n == 13 {
        'd'
    } else if n == 14 {
        'e'
    } else {
        'f'
    }
}

fn hex_char(n: u8) -> (c: char)
    requires
        n < 16,
    ensures
        c == hex_digit(n),
{
    match n {
        0 => '0',
        1 => '1',
        2 => '2',
        3 => '3',
        4 => '4',
        5 => '5',
        6 => '6',
        7 => '7',
        8 => '8',
        9 => '9',
        10 => 'a',
        11 => 'b',
        12 => 'c',
        13 => 'd',
        14 => 'e',
        _ => 'f',
    }
}

/// Two lower-case hexadecimal digits per byte.
pub open spec fn hex_text(s: Seq<u8>) -> Seq<char>
    decreases s.len(),
{
    if s.len() == 0 {
        seq![]
    } else {
        hex_text(s.drop_last()) + seq![
            hex_digit(s.last() / 16),
            hex_digit(s.last() % 16),
        ]
    }
}

/// The bytes as lower-case hexadecimal text.
pub fn hex_of(s: &[u8]) -> (t: String)
    ensures
        t@ == hex_text(s@),
{
    let mut t = String::new();
    let mut i: usize = 0;
    assert(s@.take(0) =~= Seq::<u8>::empty());
    while i < s.len()
        invariant
            i <= s@.len(),
            t@ == hex_text(s@.take(i as int)),
        decreases s@.len() - i,
    {
        let ghost before = t@;
        t.push(hex_char(s[i] / 16));
        t.push(hex_char(s[i] % 16));
        i = i + 1;
        assert(s@.take(i as int).drop_last() =~= s@.take(i - 1));
        assert(t@ =~= hex_text(s@.take(i as int)));
    }
    assert(s@.take(i as int) =~= s@);
    t
}

/// The value of a hexadecimal digit is recovered from it.
pub proof fn hex_digit_injective(a: u8, b: u8)
    requires
        a < 16,
        b < 16,
        hex_digit(a) == hex_digit(b),
    ensures
        a == b,
{
}

/// Law: different byte strings have different hexadecimal texts, two characters
/// per byte.
pub proof fn hex_injective(a: Seq<u8>, b: Seq<u8>)
    ensures
        hex_text(a).len() == 2 * a.len(),
        hex_text(a) == hex_text(b) ==> a == b,
    decreases a.len(),
{
    if a.len() > 0 {
        hex_injective(a.drop_last(), if b.len() > 0 { b.drop_last() } else { b });
    }
    hex_len(b);
    if hex_text(a) == hex_text(b) {
        if a.len() > 0 {
            let x = hex_text(a.drop_last());
            let y = hex_text(b.drop_last());
            hex_len(b.drop_last());
            assert(x =~= hex_text(a).take(2 * (a.len() - 1)));
            assert(y =~= hex_text(b).take(2 * (b.len() - 1)));
            let n = hex_text(a).len();
            assert(hex_text(a)[n - 2] == hex_digit(a.last() / 16));
            assert(hex_text(a)[n - 1] == hex_digit(a.last() % 16));
            assert(hex_text(b)[n - 2] == hex_digit(b.last() / 16));
            assert(hex_text(b)[n - 1] == hex_digit(b.last() % 16));
            hex_digit_injective(a.last() / 16, b.last() / 16);
            hex_digit_injective(a.last() % 16, b.last() % 16);
            assert(a.last() == b.last());
            assert(a =~= a.drop_last().push(a.last()));
            assert(b =~= b.drop_last().push(b.last()));
        } else {
            assert(a =~= b);
        }
    }
}

proof fn hex_len(b: Seq<u8>)
    ensures
        hex_text(b).len() == 2 * b.len(),
    decreases b.len(),
{
    if b.len() > 0 {
        hex_len(b.drop_last());
    }
}

} // verus!
