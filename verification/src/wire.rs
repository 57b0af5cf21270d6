//! The leaves of the wire format: numbers, texts, byte strings, flags and
//! hashes, as `postcard` writes and reads them.
//!
//! A number is a base-128 varint, least significant group first; a text or byte
//! string is its length and then its bytes; a flag is one byte.

use crate::wireerror::WireError;
use vstd::prelude::*;

verus! {

/// The varint of `n`.
pub open spec fn varint(n: nat) -> Seq<u8>
    decreases n,
{
    if n < 128 {
        seq![n as u8]
    } else {
        seq![(n % 128 + 128) as u8] + varint(n / 128)
    }
}

/// Reading a varint of at most `max` bytes, the last of which is at most `last`:
/// the number and what follows it.
pub open spec fn read_varint(s: Seq<u8>, max: nat, last: nat) -> Result<(nat, Seq<u8>), WireError>
    decreases max,
{
    if max == 0 {
        Err(WireError::DeserializeBadVarint)
    } else if s.len() == 0 {
        Err(WireError::DeserializeUnexpectedEnd)
    } else if s[0] < 128 {
        if max == 1 && s[0] > last {
            Err(WireError::DeserializeBadVarint)
        } else {
            Ok((s[0] as nat, s.skip(1)))
        }
    } else {
        match read_varint(s.skip(1), (max - 1) as nat, last) {
            Ok((v, rest)) => Ok(((s[0] - 128 + 128 * v) as nat, rest)),
            Err(e) => Err(e),
        }
    }
}

/// Reading a 16-bit number.
pub open spec fn read_u16(s: Seq<u8>) -> Result<(nat, Seq<u8>), WireError> {
    read_varint(s, 3, 3)
}

/// Reading a 32-bit number.
pub open spec fn read_u32(s: Seq<u8>) -> Result<(nat, Seq<u8>), WireError> {
    read_varint(s, 5, 15)
}

/// Reading a 64-bit number.
pub open spec fn read_u64(s: Seq<u8>) -> Result<(nat, Seq<u8>), WireError> {
    read_varint(s, 10, 1)
}

/// Reading a length: a number as wide as the machine's addresses.
pub open spec fn read_len(s: Seq<u8>) -> Result<(nat, Seq<u8>), WireError> {
    if usize::BITS == 32 {
        read_u32(s)
    } else {
        read_u64(s)
    }
}

/// A byte string behind its length.
pub open spec fn blob(b: Seq<u8>) -> Seq<u8> {
    varint(b.len()) + b
}

/// Reading a byte string.
pub open spec fn read_blob(s: Seq<u8>) -> Result<(Seq<u8>, Seq<u8>), WireError> {
    match read_len(s) {
        Ok((n, rest)) => if n <= rest.len() {
            Ok((rest.take(n as int), rest.skip(n as int)))
        } else {
            Err(WireError::DeserializeUnexpectedEnd)
        },
        Err(e) => Err(e),
    }
}

/// A text as a byte string of UTF-8.
pub open spec fn text(t: Seq<char>) -> Seq<u8> {
    blob(vstd::utf8::encode_utf8(t))
}

/// Reading a text.
pub open spec fn read_text(s: Seq<u8>) -> Result<(Seq<char>, Seq<u8>), WireError> {
    match read_blob(s) {
        Ok((b, rest)) => if vstd::utf8::valid_utf8(b) {
            Ok((vstd::utf8::decode_utf8(b), rest))
        } else {
            Err(WireError::DeserializeBadUtf8)
        },
        Err(e) => Err(e),
    }
}

/// A flag as one byte.
pub open spec fn flag(b: bool) -> Seq<u8> {
    seq![if b { 1u8 } else { 0u8 }]
}

/// Reading a flag.
pub open spec fn read_flag(s: Seq<u8>) -> Result<(bool, Seq<u8>), WireError> {
    if s.len() == 0 {
        Err(WireError::DeserializeUnexpectedEnd)
    } else if s[0] > 1 {
        Err(WireError::DeserializeBadBool)
    } else {
        Ok((s[0] == 1, s.skip(1)))
    }
}

/// Reading the byte before an optional value: whether the value follows.
pub open spec fn read_present(s: Seq<u8>) -> Result<(bool, Seq<u8>), WireError> {
    if s.len() == 0 {
        Err(WireError::DeserializeUnexpectedEnd)
    } else if s[0] > 1 {
        Err(WireError::DeserializeBadOption)
    } else {
        Ok((s[0] == 1, s.skip(1)))
    }
}

/// Reading 32 bytes.
pub open spec fn read_hash(s: Seq<u8>) -> Result<(Seq<u8>, Seq<u8>), WireError> {
    if s.len() < 32 {
        Err(WireError::DeserializeUnexpectedEnd)
    } else {
        Ok((s.take(32), s.skip(32)))
    }
}

/// Reading `n` items, one after the other.
pub open spec fn read_many<T>(
    reader: spec_fn(Seq<u8>) -> Result<(T, Seq<u8>), WireError>,
    s: Seq<u8>,
    n: nat,
) -> Result<(Seq<T>, Seq<u8>), WireError>
    decreases n,
{
    if n == 0 {
        Ok((seq![], s))
    } else {
        match reader(s) {
            Err(e) => Err(e),
            Ok((x, r)) => prepend(seq![x], read_many(reader, r, (n - 1) as nat)),
        }
    }
}

/// The items `xs` in front of those that were read.
pub open spec fn prepend<T>(
    xs: Seq<T>,
    r: Result<(Seq<T>, Seq<u8>), WireError>,
) -> Result<(Seq<T>, Seq<u8>), WireError> {
    match r {
        Err(e) => Err(e),
        Ok((ys, rest)) => Ok((xs + ys, rest)),
    }
}

/// The items one after the other.
pub open spec fn many<T>(writer: spec_fn(T) -> Seq<u8>, xs: Seq<T>) -> Seq<u8>
    decreases xs.len(),
{
    if xs.len() == 0 {
        seq![]
    } else {
        writer(xs[0]) + many(writer, xs.skip(1))
    }
}

/// A list: the number of items, then the items.
pub open spec fn list<T>(writer: spec_fn(T) -> Seq<u8>, xs: Seq<T>) -> Seq<u8> {
    varint(xs.len()) + many(writer, xs)
}

/// Reading a list.
pub open spec fn read_list<T>(
    reader: spec_fn(Seq<u8>) -> Result<(T, Seq<u8>), WireError>,
    s: Seq<u8>,
) -> Result<(Seq<T>, Seq<u8>), WireError> {
    match read_len(s) {
        Ok((n, r)) => read_many(reader, r, n),
        Err(e) => Err(e),
    }
}

/// One more item at the end of those that were read.
pub proof fn read_step<T>(
    reader: spec_fn(Seq<u8>) -> Result<(T, Seq<u8>), WireError>,
    s: Seq<u8>,
    n: nat,
    done: Seq<T>,
)
    requires
        n > 0,
    ensures
        match reader(s) {
            Err(e) => prepend(done, read_many(reader, s, n)) == Err::<(Seq<T>, Seq<u8>), WireError>(
                e,
            ),
            Ok((x, r)) => prepend(done, read_many(reader, s, n)) == prepend(
                done.push(x),
                read_many(reader, r, (n - 1) as nat),
            ),
        },
{
    match reader(s) {
        Err(_) => {},
        Ok((x, r)) => {
            match read_many(reader, r, (n - 1) as nat) {
                Err(_) => {},
                Ok((ys, t)) => {
                    assert(done + (seq![x] + ys) =~= done.push(x) + ys);
                },
            }
        },
    }
}

/// One more item at the end of those that were written.
pub proof fn many_push<T>(writer: spec_fn(T) -> Seq<u8>, xs: Seq<T>, x: T)
    ensures
        many(writer, xs.push(x)) == many(writer, xs) + writer(x),
    decreases xs.len(),
{
    let all = xs.push(x);
    if xs.len() == 0 {
        assert(all.skip(1) =~= Seq::<T>::empty());
        assert(all[0] == x);
        assert(many(writer, all.skip(1)) =~= Seq::<u8>::empty());
        assert(many(writer, xs) =~= Seq::<u8>::empty());
        assert(many(writer, all) =~= many(writer, xs) + writer(x));
    } else {
        many_push(writer, xs.skip(1), x);
        assert(all.skip(1) =~= xs.skip(1).push(x));
        assert(all[0] == xs[0]);
        assert(many(writer, all) =~= many(writer, xs) + writer(x));
    }
}

/// Items that each can be read back can be read back together.
pub proof fn many_round_trip<T>(
    writer: spec_fn(T) -> Seq<u8>,
    reader: spec_fn(Seq<u8>) -> Result<(T, Seq<u8>), WireError>,
    xs: Seq<T>,
    rest: Seq<u8>,
)
    requires
        forall|i: int, r: Seq<u8>|
            0 <= i < xs.len() ==> #[trigger] reader(writer(xs[i]) + r) == Ok::<_, WireError>(
                (xs[i], r),
            ),
    ensures
        read_many(reader, many(writer, xs) + rest, xs.len()) == Ok::<_, WireError>((xs, rest)),
    decreases xs.len(),
{
    if xs.len() == 0 {
        assert(many(writer, xs) + rest =~= rest);
        assert(xs =~= Seq::<T>::empty());
    } else {
        let t = xs.skip(1);
        assert forall|i: int, r: Seq<u8>| 0 <= i < t.len() implies #[trigger] reader(
            writer(t[i]) + r,
        ) == Ok::<_, WireError>((t[i], r)) by {
            assert(t[i] == xs[i + 1]);
            assert(reader(writer(xs[i + 1]) + r) == Ok::<_, WireError>((xs[i + 1], r)));
        }
        many_round_trip(writer, reader, t, rest);
        assert(many(writer, xs) + rest =~= writer(xs[0]) + (many(writer, t) + rest));
        assert(reader(writer(xs[0]) + (many(writer, t) + rest)) == Ok::<_, WireError>(
            (xs[0], many(writer, t) + rest),
        ));
        assert(seq![xs[0]] + t =~= xs);
    }
}

/// A list of items that each can be read back can be read back.
pub proof fn list_round_trip<T>(
    writer: spec_fn(T) -> Seq<u8>,
    reader: spec_fn(Seq<u8>) -> Result<(T, Seq<u8>), WireError>,
    xs: Seq<T>,
    rest: Seq<u8>,
)
    requires
        xs.len() <= usize::MAX,
        forall|i: int, r: Seq<u8>|
            0 <= i < xs.len() ==> #[trigger] reader(writer(xs[i]) + r) == Ok::<_, WireError>(
                (xs[i], r),
            ),
    ensures
        read_list(reader, list(writer, xs) + rest) == Ok::<_, WireError>((xs, rest)),
{
    many_round_trip(writer, reader, xs, rest);
    len_round_trip(xs.len(), many(writer, xs) + rest);
    assert(list(writer, xs) + rest =~= varint(xs.len()) + (many(writer, xs) + rest));
}

/// `postcard::to_allocvec` of a `u64`: writing to a growing vector never fails,
/// and a number is written as its varint, whatever its width.
#[verifier::external_body]
pub(crate) fn put_number(n: u64) -> (b: Vec<u8>)
    ensures
        b@ == varint(n as nat),
{
    postcard::to_allocvec(&n).unwrap_or_default()
}

/// `postcard::to_allocvec` of a byte slice: its length as a varint, then its
/// bytes. Writing to a growing vector never fails.
#[verifier::external_body]
pub(crate) fn put_blob(s: &[u8]) -> (b: Vec<u8>)
    ensures
        b@ == blob(s@),
{
    postcard::to_allocvec(s).unwrap_or_default()
}

/// `postcard::to_allocvec` of a string: the length of its UTF-8 bytes as a
/// varint, then those bytes. Writing to a growing vector never fails.
#[verifier::external_body]
pub(crate) fn put_text(s: &str) -> (b: Vec<u8>)
    ensures
        b@ == text(s@),
{
    postcard::to_allocvec(s).unwrap_or_default()
}

/// `postcard::to_allocvec` of a `bool`: one byte, 1 or 0. Writing to a growing
/// vector never fails.
#[verifier::external_body]
pub(crate) fn put_flag(v: bool) -> (b: Vec<u8>)
    ensures
        b@ == flag(v),
{
    postcard::to_allocvec(&v).unwrap_or_default()
}

/// `postcard::take_from_bytes` of a `u16`: a varint of at most three bytes whose
/// third is at most 3. The error is `DeserializeUnexpectedEnd` where the bytes end
/// first, and `DeserializeBadVarint` otherwise.
#[verifier::external_body]
pub(crate) fn take_u16(s: &[u8]) -> (r: Result<(u16, &[u8]), WireError>)
    ensures
        match r {
            Ok((v, rest)) => read_u16(s@) == Ok::<_, WireError>((v as nat, rest@)),
            Err(e) => read_u16(s@) matches Err(f) && f == e,
        },
{
    match postcard::take_from_bytes::<u16>(s) {
        Ok(r) => Ok(r),
        Err(postcard::Error::DeserializeUnexpectedEnd) => Err(WireError::DeserializeUnexpectedEnd),
        Err(postcard::Error::DeserializeBadVarint) => Err(WireError::DeserializeBadVarint),
        Err(_) => Err(WireError::SerdeDeCustom),
    }
}

/// `postcard::take_from_bytes` of a `u32`: a varint of at most five bytes whose
/// fifth is at most 15. The error is `DeserializeUnexpectedEnd` where the bytes end
/// first, and `DeserializeBadVarint` otherwise.
#[verifier::external_body]
pub(crate) fn take_u32(s: &[u8]) -> (r: Result<(u32, &[u8]), WireError>)
    ensures
        match r {
            Ok((v, rest)) => read_u32(s@) == Ok::<_, WireError>((v as nat, rest@)),
            Err(e) => read_u32(s@) matches Err(f) && f == e,
        },
{
    match postcard::take_from_bytes::<u32>(s) {
        Ok(r) => Ok(r),
        Err(postcard::Error::DeserializeUnexpectedEnd) => Err(WireError::DeserializeUnexpectedEnd),
        Err(postcard::Error::DeserializeBadVarint) => Err(WireError::DeserializeBadVarint),
        Err(_) => Err(WireError::SerdeDeCustom),
    }
}

/// `postcard::take_from_bytes` of a `u64`: a varint of at most ten bytes whose
/// tenth is at most 1. The error is `DeserializeUnexpectedEnd` where the bytes end
/// first, and `DeserializeBadVarint` otherwise.
#[verifier::external_body]
pub(crate) fn take_u64(s: &[u8]) -> (r: Result<(u64, &[u8]), WireError>)
    ensures
        match r {
            Ok((v, rest)) => read_u64(s@) == Ok::<_, WireError>((v as nat, rest@)),
            Err(e) => read_u64(s@) matches Err(f) && f == e,
        },
{
    match postcard::take_from_bytes::<u64>(s) {
        Ok(r) => Ok(r),
        Err(postcard::Error::DeserializeUnexpectedEnd) => Err(WireError::DeserializeUnexpectedEnd),
        Err(postcard::Error::DeserializeBadVarint) => Err(WireError::DeserializeBadVarint),
        Err(_) => Err(WireError::SerdeDeCustom),
    }
}

/// `postcard::take_from_bytes` of a `Vec<u8>`: a length and as many bytes. The error
/// is that of the length where it cannot be read, and `DeserializeUnexpectedEnd` where
/// the bytes are fewer.
#[verifier::external_body]
pub(crate) fn take_blob(s: &[u8]) -> (r: Result<(Vec<u8>, &[u8]), WireError>)
    ensures
        match r {
            Ok((v, rest)) => read_blob(s@) == Ok::<_, WireError>((v@, rest@)),
            Err(e) => read_blob(s@) matches Err(f) && f == e,
        },
{
    match postcard::take_from_bytes::<Vec<u8>>(s) {
        Ok(r) => Ok(r),
        Err(postcard::Error::DeserializeUnexpectedEnd) => Err(WireError::DeserializeUnexpectedEnd),
        Err(postcard::Error::DeserializeBadVarint) => Err(WireError::DeserializeBadVarint),
        Err(_) => Err(WireError::SerdeDeCustom),
    }
}

/// `postcard::take_from_bytes` of a `String`: a length and as many bytes of UTF-8. The
/// error is that of the bytes where they cannot be read, and `DeserializeBadUtf8` where
/// they are not UTF-8.
#[verifier::external_body]
pub(crate) fn take_text(s: &[u8]) -> (r: Result<(String, &[u8]), WireError>)
    ensures
        match r {
            Ok((v, rest)) => read_text(s@) == Ok::<_, WireError>((v@, rest@)),
            Err(e) => read_text(s@) matches Err(f) && f == e,
        },
{
    match postcard::take_from_bytes::<String>(s) {
        Ok(r) => Ok(r),
        Err(postcard::Error::DeserializeUnexpectedEnd) => Err(WireError::DeserializeUnexpectedEnd),
        Err(postcard::Error::DeserializeBadVarint) => Err(WireError::DeserializeBadVarint),
        Err(postcard::Error::DeserializeBadUtf8) => Err(WireError::DeserializeBadUtf8),
        Err(_) => Err(WireError::SerdeDeCustom),
    }
}

/// `postcard::take_from_bytes` of a `bool`: one byte that is 0 or 1. The error is
/// `DeserializeUnexpectedEnd` where there is no byte, and `DeserializeBadBool` where it
/// is another.
#[verifier::external_body]
pub(crate) fn take_flag(s: &[u8]) -> (r: Result<(bool, &[u8]), WireError>)
    ensures
        match r {
            Ok((v, rest)) => read_flag(s@) == Ok::<_, WireError>((v, rest@)),
            Err(e) => read_flag(s@) matches Err(f) && f == e,
        },
{
    match postcard::take_from_bytes::<bool>(s) {
        Ok(r) => Ok(r),
        Err(postcard::Error::DeserializeUnexpectedEnd) => Err(WireError::DeserializeUnexpectedEnd),
        Err(postcard::Error::DeserializeBadBool) => Err(WireError::DeserializeBadBool),
        Err(_) => Err(WireError::SerdeDeCustom),
    }
}

/// `postcard::take_from_bytes` of an `Option<()>`: one byte that is 0 for none and 1
/// for some, and nothing behind it. The error is `DeserializeUnexpectedEnd` where there
/// is no byte, and `DeserializeBadOption` where it is another.
#[verifier::external_body]
pub(crate) fn take_present(s: &[u8]) -> (r: Result<(bool, &[u8]), WireError>)
    ensures
        match r {
            Ok((v, rest)) => read_present(s@) == Ok::<_, WireError>((v, rest@)),
            Err(e) => read_present(s@) matches Err(f) && f == e,
        },
{
    match postcard::take_from_bytes::<Option<()>>(s) {
        Ok((o, rest)) => Ok((o.is_some(), rest)),
        Err(postcard::Error::DeserializeUnexpectedEnd) => Err(WireError::DeserializeUnexpectedEnd),
        Err(postcard::Error::DeserializeBadOption) => Err(WireError::DeserializeBadOption),
        Err(_) => Err(WireError::SerdeDeCustom),
    }
}

/// `postcard::take_from_bytes` of a `[u8; 32]`: the next 32 bytes as they are. The
/// error is `DeserializeUnexpectedEnd`, where there are fewer.
#[verifier::external_body]
pub(crate) fn take_hash(s: &[u8]) -> (r: Result<([u8; 32], &[u8]), WireError>)
    ensures
        match r {
            Ok((v, rest)) => read_hash(s@) == Ok::<_, WireError>((v@, rest@)),
            Err(e) => read_hash(s@) matches Err(f) && f == e,
        },
{
    match postcard::take_from_bytes::<[u8; 32]>(s) {
        Ok(r) => Ok(r),
        Err(postcard::Error::DeserializeUnexpectedEnd) => Err(WireError::DeserializeUnexpectedEnd),
        Err(_) => Err(WireError::SerdeDeCustom),
    }
}

/// Read a length.
pub(crate) fn take_len(s: &[u8]) -> (r: Result<(usize, &[u8]), WireError>)
    ensures
        match r {
            Ok((v, rest)) => read_len(s@) == Ok::<_, WireError>((v as nat, rest@)),
            Err(e) => read_len(s@) matches Err(f) && f == e,
        },
{
    if usize::BITS == 32 {
        match take_u32(s) {
            Ok((v, rest)) => Ok((v as usize, rest)),
            Err(e) => Err(e),
        }
    } else {
        match take_u64(s) {
            Ok((v, rest)) => Ok((v as usize, rest)),
            Err(e) => Err(e),
        }
    }
}

// ---- what is written can be read ------------------------------------------
/// What fits into `k` full groups below a last byte of at most `last`.
spec fn limit(k: nat, last: nat) -> nat
    decreases k,
{
    if k == 0 {
        last + 1
    } else {
        128 * limit((k - 1) as nat, last)
    }
}

proof fn varint_read(n: nat, max: nat, last: nat, rest: Seq<u8>)
    requires
        max > 0,
        last < 128,
        n < limit((max - 1) as nat, last),
    ensures
        read_varint(varint(n) + rest, max, last) == Ok::<_, WireError>((n, rest)),
    decreases n,
{
    let s = varint(n) + rest;
    if n < 128 {
        assert(s[0] == n as u8);
        assert(s.skip(1) =~= rest);
    } else {
        let q = n / 128;
        varint_read(q, (max - 1) as nat, last, rest);
        assert(s[0] == (n % 128 + 128) as u8);
        assert(s.skip(1) =~= varint(q) + rest);
    }
}

/// A 64-bit number that was written can be read.
pub proof fn number_round_trip(n: nat, rest: Seq<u8>)
    requires
        n <= u64::MAX,
    ensures
        read_u64(varint(n) + rest) == Ok::<_, WireError>((n, rest)),
{
    reveal_with_fuel(limit, 10);
    varint_read(n, 10, 1, rest);
}

/// A 32-bit number that was written can be read.
pub proof fn number32_round_trip(n: nat, rest: Seq<u8>)
    requires
        n <= u32::MAX,
    ensures
        read_u32(varint(n) + rest) == Ok::<_, WireError>((n, rest)),
{
    reveal_with_fuel(limit, 5);
    varint_read(n, 5, 15, rest);
}

/// A 16-bit number that was written can be read.
pub proof fn number16_round_trip(n: nat, rest: Seq<u8>)
    requires
        n <= u16::MAX,
    ensures
        read_u16(varint(n) + rest) == Ok::<_, WireError>((n, rest)),
{
    reveal_with_fuel(limit, 3);
    varint_read(n, 3, 3, rest);
}

/// A length that was written can be read.
pub proof fn len_round_trip(n: nat, rest: Seq<u8>)
    requires
        n <= usize::MAX,
    ensures
        read_len(varint(n) + rest) == Ok::<_, WireError>((n, rest)),
{
    if usize::BITS == 32 {
        number32_round_trip(n, rest);
    } else {
        number_round_trip(n, rest);
    }
}

/// A byte string that was written can be read.
pub proof fn blob_round_trip(b: Seq<u8>, rest: Seq<u8>)
    requires
        b.len() <= usize::MAX,
    ensures
        read_blob(blob(b) + rest) == Ok::<_, WireError>((b, rest)),
{
    len_round_trip(b.len(), b + rest);
    assert(blob(b) + rest =~= varint(b.len()) + (b + rest));
    assert((b + rest).take(b.len() as int) =~= b);
    assert((b + rest).skip(b.len() as int) =~= rest);
}

/// A text that was written can be read.
pub proof fn text_round_trip(t: Seq<char>, rest: Seq<u8>)
    requires
        vstd::utf8::encode_utf8(t).len() <= usize::MAX,
    ensures
        read_text(text(t) + rest) == Ok::<_, WireError>((t, rest)),
{
    let b = vstd::utf8::encode_utf8(t);
    blob_round_trip(b, rest);
    vstd::utf8::encode_utf8_valid_utf8(t);
    vstd::utf8::encode_utf8_decode_utf8(t);
}

/// A flag that was written can be read.
pub proof fn flag_round_trip(b: bool, rest: Seq<u8>)
    ensures
        read_flag(flag(b) + rest) == Ok::<_, WireError>((b, rest)),
{
    let s = flag(b) + rest;
    assert(s[0] == flag(b)[0]);
    assert(s.skip(1) =~= rest);
}

/// The byte before an optional value that was written can be read.
pub proof fn present_round_trip(b: bool, rest: Seq<u8>)
    ensures
        read_present(flag(b) + rest) == Ok::<_, WireError>((b, rest)),
{
    let s = flag(b) + rest;
    assert(s[0] == flag(b)[0]);
    assert(s.skip(1) =~= rest);
}

/// A hash that was written can be read.
pub proof fn hash_round_trip(h: Seq<u8>, rest: Seq<u8>)
    requires
        h.len() == 32,
    ensures
        read_hash(h + rest) == Ok::<_, WireError>((h, rest)),
{
    assert((h + rest).take(32) =~= h);
    assert((h + rest).skip(32) =~= rest);
}

} // verus!
