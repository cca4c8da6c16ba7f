//! The bincode encoding (default options: varint lengths, little endian) of the
//! three kinds of value a family request is built from: strings, lengths and
//! flags, each with its reader and writer.

use bincode::Options;
use vstd::bytes::*;
use vstd::prelude::*;
use vstd::utf8::*;

verus! {

/// bincode's error (`bincode::ErrorKind`), carried as an opaque value: every
/// error from a reader here means the bytes hold no value of the kind read.
#[verifier::external_type_specification]
#[verifier::external_body]
pub struct ExErrorKind(bincode::ErrorKind);

/// The bytes of `n` in bincode's variable-length integer form.
pub open spec fn varint_bytes(n: u64) -> Seq<u8> {
    if n <= 250 {
        seq![n as u8]
    } else if n <= 0xffff {
        seq![251u8] + spec_u16_to_le_bytes(n as u16)
    } else if n <= 0xffff_ffff {
        seq![252u8] + spec_u32_to_le_bytes(n as u32)
    } else {
        seq![253u8] + spec_u64_to_le_bytes(n)
    }
}

/// What bincode reads as a variable-length integer at the start of `b`: the value
/// and the number of bytes it took, or `None` where `b` holds none.
pub open spec fn varint_read(b: Seq<u8>) -> Option<(u64, nat)> {
    if b.len() == 0 {
        None
    } else if b[0] <= 250 {
        Some((b[0] as u64, 1))
    } else if b[0] == 251 {
        if b.len() >= 3 {
            Some((spec_u16_from_le_bytes(b.subrange(1, 3)) as u64, 3))
        } else {
            None
        }
    } else if b[0] == 252 {
        if b.len() >= 5 {
            Some((spec_u32_from_le_bytes(b.subrange(1, 5)) as u64, 5))
        } else {
            None
        }
    } else if b[0] == 253 {
        if b.len() >= 9 {
            Some((spec_u64_from_le_bytes(b.subrange(1, 9)), 9))
        } else {
            None
        }
    } else {
        None
    }
}

/// A length as bincode writes it.
pub open spec fn len_bytes(n: usize) -> Seq<u8> {
    varint_bytes(n as u64)
}

/// A length as bincode reads it: a variable-length integer that fits in `usize`.
pub open spec fn len_read(b: Seq<u8>) -> Option<(usize, nat)> {
    match varint_read(b) {
        Some((v, k)) => if v <= usize::MAX {
            Some((v as usize, k))
        } else {
            None
        },
        None => None,
    }
}

/// A string as bincode writes it: its UTF-8 length, then its UTF-8 bytes.
pub open spec fn str_bytes(s: Seq<char>) -> Seq<u8> {
    varint_bytes(encode_utf8(s).len() as u64) + encode_utf8(s)
}

/// A string as bincode reads it: a length, then that many bytes of valid UTF-8.
pub open spec fn str_read(b: Seq<u8>) -> Option<(Seq<char>, nat)> {
    match varint_read(b) {
        Some((len, k)) => if k + len <= b.len() && valid_utf8(b.subrange(k as int, k + len)) {
            Some((decode_utf8(b.subrange(k as int, k + len)), (k + len) as nat))
        } else {
            None
        },
        None => None,
    }
}

/// A flag as bincode writes it: one byte, 1 or 0.
pub open spec fn bool_bytes(v: bool) -> Seq<u8> {
    if v {
        seq![1u8]
    } else {
        seq![0u8]
    }
}

/// A flag as bincode reads it: a byte 0 or 1; any other byte is refused.
pub open spec fn bool_read(b: Seq<u8>) -> Option<(bool, nat)> {
    if b.len() == 0 {
        None
    } else if b[0] == 0 {
        Some((false, 1))
    } else if b[0] == 1 {
        Some((true, 1))
    } else {
        None
    }
}

/// `b` starts with all of `e`.
pub open spec fn starts_with(b: Seq<u8>, e: Seq<u8>) -> bool {
    e.len() <= b.len() && b.subrange(0, e.len() as int) == e
}

/// `b` is a strict prefix of `e`: `e` was cut short.
pub open spec fn cut_of(b: Seq<u8>, e: Seq<u8>) -> bool {
    b.len() < e.len() && b == e.subrange(0, b.len() as int)
}

/// Reading past a whole `e1 + e2` at `pos`: `e1` stands at `pos`, `e2` right after.
pub proof fn lemma_starts_split(b: Seq<u8>, pos: int, e1: Seq<u8>, e2: Seq<u8>)
    requires
        0 <= pos <= b.len(),
        starts_with(b.skip(pos), e1 + e2),
    ensures
        starts_with(b.skip(pos), e1),
        starts_with(b.skip(pos + e1.len()), e2),
{
    let r = b.skip(pos);
    let e = e1 + e2;
    assert forall|i: int| 0 <= i < e.len() implies r[i] == e[i] by {
        assert(r.subrange(0, e.len() as int)[i] == r[i]);
    }
    assert(r.subrange(0, e1.len() as int) =~= e1);
    let r2 = b.skip(pos + e1.len());
    assert forall|i: int| 0 <= i < e2.len() implies r2[i] == e2[i] by {
        assert(r2[i] == r[i + e1.len()]);
        assert(e[i + e1.len()] == e2[i]);
    }
    assert(r2.subrange(0, e2.len() as int) =~= e2);
}

/// Where `e1 + e2` is cut short at `pos`, either `e1` is cut short, or `e1` is
/// whole and `e2` is cut short.
pub proof fn lemma_cut_split(b: Seq<u8>, pos: int, e1: Seq<u8>, e2: Seq<u8>)
    requires
        0 <= pos <= b.len(),
        cut_of(b.skip(pos), e1 + e2),
    ensures
        cut_of(b.skip(pos), e1) || (starts_with(b.skip(pos), e1) && cut_of(
            b.skip(pos + e1.len()),
            e2,
        )),
{
    let r = b.skip(pos);
    if r.len() < e1.len() {
        assert(r =~= e1.subrange(0, r.len() as int)) by {
            assert(r =~= (e1 + e2).subrange(0, r.len() as int));
        }
    } else {
        assert(r.subrange(0, e1.len() as int) =~= e1) by {
            assert(r.subrange(0, e1.len() as int) =~= (e1 + e2).subrange(0, e1.len() as int));
        }
        let r2 = b.skip(pos + e1.len());
        assert forall|i: int| 0 <= i < r2.len() implies r2[i] == e2[i] by {
            assert(r2[i] == r[i + e1.len()]);
            assert(r[i + e1.len()] == (e1 + e2).subrange(0, r.len() as int)[i + e1.len()]);
        }
        assert(r2 =~= e2.subrange(0, r2.len() as int));
    }
}

/// A read takes no more bytes than there are.
pub proof fn lemma_reads_within(b: Seq<u8>)
    ensures
        varint_read(b) matches Some((_, n)) ==> n <= b.len(),
        len_read(b) matches Some((_, n)) ==> n <= b.len(),
        str_read(b) matches Some((_, n)) ==> n <= b.len(),
        bool_read(b) matches Some((_, n)) ==> n <= b.len(),
{
}

/// A variable-length integer reads back as the value it was written from,
/// whatever follows it.
pub proof fn lemma_varint_read(n: u64, b: Seq<u8>)
    requires
        starts_with(b, varint_bytes(n)),
    ensures
        varint_read(b) == Some((n, varint_bytes(n).len())),
{
    lemma_auto_spec_u16_to_from_le_bytes();
    lemma_auto_spec_u32_to_from_le_bytes();
    lemma_auto_spec_u64_to_from_le_bytes();
    let e = varint_bytes(n);
    assert(b[0] == e[0]);
    if n <= 250 {
    } else if n <= 0xffff {
        assert(b.subrange(1, 3) =~= e.subrange(1, 3));
        assert(e.subrange(1, 3) =~= spec_u16_to_le_bytes(n as u16));
    } else if n <= 0xffff_ffff {
        assert(b.subrange(1, 5) =~= e.subrange(1, 5));
        assert(e.subrange(1, 5) =~= spec_u32_to_le_bytes(n as u32));
    } else {
        assert(b.subrange(1, 9) =~= e.subrange(1, 9));
        assert(e.subrange(1, 9) =~= spec_u64_to_le_bytes(n));
    }
}

/// A variable-length integer cut short reads as nothing.
pub proof fn lemma_varint_cut(n: u64, b: Seq<u8>)
    requires
        cut_of(b, varint_bytes(n)),
    ensures
        varint_read(b) is None,
{
    lemma_auto_spec_u16_to_from_le_bytes();
    lemma_auto_spec_u32_to_from_le_bytes();
    lemma_auto_spec_u64_to_from_le_bytes();
    if b.len() > 0 {
        assert(b[0] == varint_bytes(n)[0]);
    }
}

pub proof fn lemma_len_read(n: usize, b: Seq<u8>)
    requires
        starts_with(b, len_bytes(n)),
    ensures
        len_read(b) == Some((n, len_bytes(n).len())),
{
    lemma_varint_read(n as u64, b);
}

pub proof fn lemma_len_cut(n: usize, b: Seq<u8>)
    requires
        cut_of(b, len_bytes(n)),
    ensures
        len_read(b) is None,
{
    lemma_varint_cut(n as u64, b);
}

/// A string reads back as the string it was written from, whatever follows it.
pub proof fn lemma_str_read(s: Seq<char>, b: Seq<u8>)
    requires
        starts_with(b, str_bytes(s)),
        encode_utf8(s).len() <= u64::MAX,
    ensures
        str_read(b) == Some((s, str_bytes(s).len())),
{
    let u = encode_utf8(s);
    let h = varint_bytes(u.len() as u64);
    assert(b.subrange(0, h.len() as int) =~= h) by {
        assert(b.subrange(0, h.len() as int) =~= str_bytes(s).subrange(0, h.len() as int));
    }
    lemma_varint_read(u.len() as u64, b);
    assert(b.subrange(h.len() as int, (h.len() + u.len()) as int) =~= u) by {
        assert(b.subrange(h.len() as int, (h.len() + u.len()) as int) =~= str_bytes(s).subrange(
            h.len() as int,
            (h.len() + u.len()) as int,
        ));
    }
    encode_utf8_valid_utf8(s);
    encode_utf8_decode_utf8(s);
}

/// A string cut short reads as nothing.
pub proof fn lemma_str_cut(s: Seq<char>, b: Seq<u8>)
    requires
        cut_of(b, str_bytes(s)),
        encode_utf8(s).len() <= u64::MAX,
    ensures
        str_read(b) is None,
{
    let u = encode_utf8(s);
    let h = varint_bytes(u.len() as u64);
    if b.len() < h.len() {
        assert(b =~= h.subrange(0, b.len() as int)) by {
            assert(b =~= str_bytes(s).subrange(0, b.len() as int));
        }
        lemma_varint_cut(u.len() as u64, b);
    } else {
        assert(b.subrange(0, h.len() as int) =~= h) by {
            assert(b.subrange(0, h.len() as int) =~= str_bytes(s).subrange(0, h.len() as int));
        }
        lemma_varint_read(u.len() as u64, b);
    }
}

pub proof fn lemma_bool_read(v: bool, b: Seq<u8>)
    requires
        starts_with(b, bool_bytes(v)),
    ensures
        bool_read(b) == Some((v, 1nat)),
{
    assert(b[0] == bool_bytes(v)[0]);
}

/// Writes `s` as bincode does.
///
/// Relies on bincode's `Options::serialize_into` with `DefaultOptions`: a `String`
/// is written as its UTF-8 length (variable-length integer) and its UTF-8 bytes;
/// writing into a `Vec<u8>` with no size limit does not fail.
#[verifier::external_body]
pub(crate) fn write_string(out: &mut Vec<u8>, s: &String) -> (r: Result<(), Box<bincode::ErrorKind>>)
    ensures
        r is Ok,
        final(out)@ == old(out)@ + str_bytes(s@),
{
    bincode::DefaultOptions::new().serialize_into(out, s)
}

/// Writes the length `n` as bincode does.
///
/// Relies on bincode's `Options::serialize_into` with `DefaultOptions`: a `usize`
/// is written as a variable-length integer; writing into a `Vec<u8>` with no size
/// limit does not fail.
#[verifier::external_body]
pub(crate) fn write_len(out: &mut Vec<u8>, n: usize) -> (r: Result<(), Box<bincode::ErrorKind>>)
    ensures
        r is Ok,
        final(out)@ == old(out)@ + len_bytes(n),
{
    bincode::DefaultOptions::new().serialize_into(out, &n)
}

/// Writes the flag `v` as bincode does.
///
/// Relies on bincode's `Options::serialize_into` with `DefaultOptions`: a `bool`
/// is one byte, 1 or 0; writing into a `Vec<u8>` with no size limit does not fail.
#[verifier::external_body]
pub(crate) fn write_bool(out: &mut Vec<u8>, v: bool) -> (r: Result<(), Box<bincode::ErrorKind>>)
    ensures
        r is Ok,
        final(out)@ == old(out)@ + bool_bytes(v),
{
    bincode::DefaultOptions::new().serialize_into(out, &v)
}

/// Reads a string at `pos`, with the number of bytes it took.
///
/// Relies on bincode's `Options::deserialize_from` with `DefaultOptions` on a
/// cursor over `bytes[pos..]`: a `String` is a variable-length length, then that
/// many bytes, which must be valid UTF-8. The size limit (the bytes that are
/// there) turns a length past the end into an error before anything is allocated.
#[verifier::external_body]
pub(crate) fn read_string(bytes: &[u8], pos: usize) -> (r: Result<(String, usize), Box<bincode::ErrorKind>>)
    requires
        pos <= bytes@.len(),
    ensures
        match r {
            Ok((s, n)) => str_read(bytes@.skip(pos as int)) == Some((s@, n as nat)),
            Err(_) => str_read(bytes@.skip(pos as int)) is None,
        },
{
    let rest = &bytes[pos..];
    let mut cursor = std::io::Cursor::new(rest);
    match bincode::DefaultOptions::new().with_limit(rest.len() as u64).deserialize_from(&mut cursor) {
        Ok(s) => Ok((s, cursor.position() as usize)),
        Err(e) => Err(e),
    }
}

/// Reads a length at `pos`, with the number of bytes it took.
///
/// Relies on bincode's `Options::deserialize_from` with `DefaultOptions` on a
/// cursor over `bytes[pos..]`: a `usize` is a variable-length integer (first byte
/// up to 250: the value; 251, 252, 253: a little-endian `u16`, `u32`, `u64`
/// follows; 254, 255: an error), refused where it does not fit in `usize`.
#[verifier::external_body]
pub(crate) fn read_len(bytes: &[u8], pos: usize) -> (r: Result<(usize, usize), Box<bincode::ErrorKind>>)
    requires
        pos <= bytes@.len(),
    ensures
        match r {
            Ok((v, n)) => len_read(bytes@.skip(pos as int)) == Some((v, n as nat)),
            Err(_) => len_read(bytes@.skip(pos as int)) is None,
        },
{
    let rest = &bytes[pos..];
    let mut cursor = std::io::Cursor::new(rest);
    match bincode::DefaultOptions::new().with_limit(rest.len() as u64).deserialize_from(&mut cursor) {
        Ok(v) => Ok((v, cursor.position() as usize)),
        Err(e) => Err(e),
    }
}

/// Reads a flag at `pos`, with the number of bytes it took.
///
/// Relies on bincode's `Options::deserialize_from` with `DefaultOptions` on a
/// cursor over `bytes[pos..]`: a `bool` is one byte, 0 or 1; any other byte is an
/// error (`InvalidBoolEncoding`).
#[verifier::external_body]
pub(crate) fn read_bool(bytes: &[u8], pos: usize) -> (r: Result<(bool, usize), Box<bincode::ErrorKind>>)
    requires
        pos <= bytes@.len(),
    ensures
        match r {
            Ok((v, n)) => bool_read(bytes@.skip(pos as int)) == Some((v, n as nat)),
            Err(_) => bool_read(bytes@.skip(pos as int)) is None,
        },
{
    let rest = &bytes[pos..];
    let mut cursor = std::io::Cursor::new(rest);
    match bincode::DefaultOptions::new().with_limit(rest.len() as u64).deserialize_from(&mut cursor) {
        Ok(v) => Ok((v, cursor.position() as usize)),
        Err(e) => Err(e),
    }
}

} // verus!
