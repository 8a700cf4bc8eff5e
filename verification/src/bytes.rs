//! Little-endian primitives of the NBS byte format: fixed-width integers,
//! booleans, length-prefixed Windows-1252 strings and jump counters.

use crate::error::{Error, Result};
use vstd::prelude::*;

verus! {

// Encodings
//
// ++++++++++++============++++++++++++============++++++++++++============

/// A `u16` as two little-endian bytes.
pub open spec fn le16(v: u16) -> Seq<u8> {
    seq![(v % 256) as u8, (v / 256) as u8]
}

/// A `u32` as four little-endian bytes.
pub open spec fn le32(v: u32) -> Seq<u8> {
    seq![(v % 256) as u8, ((v / 256) % 256) as u8, ((v / 65536) % 256) as u8, (v / 16777216) as u8]
}

/// An `i16` as two little-endian two's complement bytes.
pub open spec fn le16_signed(v: i16) -> Seq<u8> {
    le16(if v < 0 { (v + 65536) as u16 } else { v as u16 })
}

/// A boolean as one byte.
pub open spec fn byte_of_bool(v: bool) -> u8 {
    if v { 1 } else { 0 }
}

/// The `u16` stored little-endian at `p`.
pub open spec fn u16_at(b: Seq<u8>, p: int) -> u16 {
    (b[p] + 256 * b[p + 1]) as u16
}

/// The `u32` stored little-endian at `p`.
pub open spec fn u32_at(b: Seq<u8>, p: int) -> u32 {
    (b[p] + 256 * b[p + 1] + 65536 * b[p + 2] + 16777216 * b[p + 3]) as u32
}

/// The `i16` stored little-endian at `p`.
pub open spec fn i16_at(b: Seq<u8>, p: int) -> i16 {
    let u = u16_at(b, p);
    if u >= 32768 { (u - 65536) as i16 } else { u as i16 }
}

/// `b` holds `e` at `p`.
pub open spec fn holds_at(b: Seq<u8>, p: int, e: Seq<u8>) -> bool {
    0 <= p && p + e.len() <= b.len() && b.subrange(p, p + e.len()) == e
}

/// What the Windows-1252 decoder of `encoding_rs` makes of `bytes`.
pub uninterp spec fn windows_1252_decode(bytes: Seq<u8>) -> Seq<char>;

/// What the Windows-1252 encoder of `encoding_rs` makes of `text`.
pub uninterp spec fn windows_1252_encode(text: Seq<char>) -> Seq<u8>;

/// Every character of `s` is ASCII.
pub open spec fn ascii_chars(s: Seq<char>) -> bool {
    forall|i: int| 0 <= i < s.len() ==> (#[trigger] s[i] as u32) < 128
}

/// The bytes of the ASCII characters of `s`.
pub open spec fn ascii_bytes_of(s: Seq<char>) -> Seq<u8> {
    Seq::new(s.len(), |i: int| s[i] as u8)
}

/// Largest text length handed to the encoder.
pub open spec fn text_fits(s: Seq<char>) -> bool {
    s.len() <= usize::MAX / 64
}

/// The bytes a string field is written as: at most `u32::MAX` bytes of its
/// encoding.
pub open spec fn string_payload(s: Seq<char>) -> Seq<u8> {
    let e = windows_1252_encode(s);
    if e.len() > u32::MAX { e.take(u32::MAX as int) } else { e }
}

/// A length-prefixed string field.
pub open spec fn string_field(s: Seq<char>) -> Seq<u8> {
    le32(string_payload(s).len() as u32) + string_payload(s)
}

/// A jump counter: a positive jump saturated at `u16::MAX`, or 0 for none.
pub open spec fn jump_field(j: u32) -> Seq<u8> {
    le16(if j > u16::MAX { u16::MAX } else { j as u16 })
}

// Outside calls
//
// ++++++++++++============++++++++++++============++++++++++++============

/// Decodes Windows-1252 bytes with `encoding_rs::WINDOWS_1252.decode`
/// (which sniffs a byte order mark first). Claimed: the result is the named
/// decoding of the bytes, and ASCII-only input comes out unchanged, as the
/// crate documents for ASCII-compatible encodings.
#[verifier::external_body]
fn decode_1252(bytes: &[u8]) -> (r: String)
    requires
        bytes@.len() <= usize::MAX / 4,
    ensures
        r@ == windows_1252_decode(bytes@),
        (forall|i: int| 0 <= i < bytes@.len() ==> #[trigger] bytes@[i] < 128) ==> r@ == Seq::new(
            bytes@.len(),
            |i: int| bytes@[i] as char,
        ),
{
    let (text, _, _) = encoding_rs::WINDOWS_1252.decode(bytes);
    text.into_owned()
}

/// Encodes text as Windows-1252 with `encoding_rs::WINDOWS_1252.encode`
/// (unmappable characters become numeric character references). Claimed:
/// the result is the named encoding of the text, and ASCII-only text comes
/// out as its own bytes, as the crate documents for ASCII-compatible
/// encodings.
#[verifier::external_body]
fn encode_1252(text: &str) -> (r: Vec<u8>)
    requires
        text_fits(text@),
    ensures
        r@ == windows_1252_encode(text@),
        ascii_chars(text@) ==> r@ == ascii_bytes_of(text@),
{
    let (bytes, _, _) = encoding_rs::WINDOWS_1252.encode(text);
    bytes.into_owned()
}

/// The error `read_exact` reports on input that ends too early:
/// `std::io::Error::from(std::io::ErrorKind::UnexpectedEof)`. Nothing is
/// claimed of the value.
#[verifier::external_body]
fn unexpected_eof() -> std::io::Error {
    std::io::Error::from(std::io::ErrorKind::UnexpectedEof)
}

/// The error for input that ends too early.
pub fn truncated() -> (r: Error)
    ensures
        r is Io,
{
    Error::Io(unexpected_eof())
}

// Reading
//
// ++++++++++++============++++++++++++============++++++++++++============

/// Reads one byte.
pub fn read_u8(b: &[u8], pos: &mut usize) -> (r: Result<u8>)
    ensures
        r is Ok <==> *old(pos) + 1 <= b@.len(),
        r is Err ==> r->Err_0 is Io,
        r matches Ok(v) ==> v == b@[*old(pos) as int] && *final(pos) == *old(pos) + 1,
{
    if *pos < b.len() {
        let v = b[*pos];
        *pos = *pos + 1;
        Ok(v)
    } else {
        Err(truncated())
    }
}

/// Reads a boolean: the byte 1 is true, any other false.
pub fn read_bool(b: &[u8], pos: &mut usize) -> (r: Result<bool>)
    ensures
        r is Ok <==> *old(pos) + 1 <= b@.len(),
        r is Err ==> r->Err_0 is Io,
        r matches Ok(v) ==> v == (b@[*old(pos) as int] == 1) && *final(pos) == *old(pos) + 1,
{
    let v = read_u8(b, pos)?;
    Ok(v == 1)
}

/// Reads a little-endian `u16`.
pub fn read_u16(b: &[u8], pos: &mut usize) -> (r: Result<u16>)
    ensures
        r is Ok <==> *old(pos) + 2 <= b@.len(),
        r is Err ==> r->Err_0 is Io,
        r matches Ok(v) ==> v == u16_at(b@, *old(pos) as int) && *final(pos) == *old(pos) + 2,
{
    if b.len() >= 2 && *pos <= b.len() - 2 {
        let v = b[*pos] as u16 + 256 * (b[*pos + 1] as u16);
        *pos = *pos + 2;
        Ok(v)
    } else {
        Err(truncated())
    }
}

/// Reads a little-endian `i16`.
pub fn read_i16(b: &[u8], pos: &mut usize) -> (r: Result<i16>)
    ensures
        r is Ok <==> *old(pos) + 2 <= b@.len(),
        r is Err ==> r->Err_0 is Io,
        r matches Ok(v) ==> v == i16_at(b@, *old(pos) as int) && *final(pos) == *old(pos) + 2,
{
    let u = read_u16(b, pos)?;
    if u >= 32768 {
        Ok((u as i32 - 65536) as i16)
    } else {
        Ok(u as i16)
    }
}

/// Reads a little-endian `u32`.
pub fn read_u32(b: &[u8], pos: &mut usize) -> (r: Result<u32>)
    ensures
        r is Ok <==> *old(pos) + 4 <= b@.len(),
        r is Err ==> r->Err_0 is Io,
        r matches Ok(v) ==> v == u32_at(b@, *old(pos) as int) && *final(pos) == *old(pos) + 4,
{
    if b.len() >= 4 && *pos <= b.len() - 4 {
        let p = *pos;
        let v = b[p] as u32 + 256 * (b[p + 1] as u32) + 65536 * (b[p + 2] as u32) + 16777216 * (b[p + 3] as u32);
        *pos = p + 4;
        Ok(v)
    } else {
        Err(truncated())
    }
}

/// Reads a length-prefixed Windows-1252 string.
pub fn read_string(b: &[u8], pos: &mut usize) -> (r: Result<String>)
    requires
        b@.len() <= usize::MAX / 4,
    ensures
        r is Ok <==> *old(pos) + 4 <= b@.len() && *old(pos) + 4 + u32_at(b@, *old(pos) as int) <= b@.len(),
        r is Err ==> r->Err_0 is Io,
        r matches Ok(s) ==> ({
            let n = u32_at(b@, *old(pos) as int) as int;
            &&& s@ == windows_1252_decode(b@.subrange(*old(pos) + 4, *old(pos) + 4 + n))
            &&& *final(pos) == *old(pos) + 4 + n
        }),
{
    let len = read_u32(b, pos)?;
    let start = *pos;
    if (len as usize) <= b.len() - start {
        let end = start + len as usize;
        let text = decode_1252(&b[start..end]);
        *pos = end;
        Ok(text)
    } else {
        Err(truncated())
    }
}

/// Reads a jump counter: `None` for 0.
pub fn read_jump(b: &[u8], pos: &mut usize) -> (r: Result<Option<u32>>)
    ensures
        r is Ok <==> *old(pos) + 2 <= b@.len(),
        r is Err ==> r->Err_0 is Io,
        r matches Ok(j) ==> *final(pos) == *old(pos) + 2 && j == (if u16_at(b@, *old(pos) as int) == 0 {
            None
        } else {
            Some(u16_at(b@, *old(pos) as int) as u32)
        }),
{
    let v = read_u16(b, pos)?;
    if v == 0 {
        Ok(None)
    } else {
        Ok(Some(v as u32))
    }
}

// Writing
//
// ++++++++++++============++++++++++++============++++++++++++============

/// Writes one byte.
pub fn write_u8(out: &mut Vec<u8>, v: u8)
    ensures
        final(out)@ == old(out)@.push(v),
{
    out.push(v);
}

/// Writes a boolean as 1 or 0.
pub fn write_bool(out: &mut Vec<u8>, v: bool)
    ensures
        final(out)@ == old(out)@.push(byte_of_bool(v)),
{
    out.push(if v { 1 } else { 0 });
}

/// Writes a little-endian `u16`.
pub fn write_u16(out: &mut Vec<u8>, v: u16)
    ensures
        final(out)@ == old(out)@ + le16(v),
{
    out.push((v % 256) as u8);
    out.push((v / 256) as u8);
    proof {
        assert(final(out)@ =~= old(out)@ + le16(v));
    }
}

/// Writes a little-endian `i16`.
pub fn write_i16(out: &mut Vec<u8>, v: i16)
    ensures
        final(out)@ == old(out)@ + le16_signed(v),
{
    let u: u16 = if v < 0 { (v as i32 + 65536) as u16 } else { v as u16 };
    write_u16(out, u);
}

/// Writes a little-endian `u32`.
pub fn write_u32(out: &mut Vec<u8>, v: u32)
    ensures
        final(out)@ == old(out)@ + le32(v),
{
    out.push((v % 256) as u8);
    out.push(((v / 256) % 256) as u8);
    out.push(((v / 65536) % 256) as u8);
    out.push((v / 16777216) as u8);
    proof {
        assert(final(out)@ =~= old(out)@ + le32(v));
    }
}

/// Writes a length-prefixed Windows-1252 string; an encoding longer than
/// `u32::MAX` bytes is cut to that length.
pub fn write_string(out: &mut Vec<u8>, s: &str)
    requires
        text_fits(s@),
    ensures
        final(out)@ == old(out)@ + string_field(s@),
{
    let bytes = encode_1252(s);
    let n: u32 = if bytes.len() > 4294967295 { 4294967295 } else { bytes.len() as u32 };
    write_u32(out, n);
    let ghost start = out@;
    let mut i: usize = 0;
    while i < n as usize
        invariant
            n as int == string_payload(s@).len(),
            bytes@ == windows_1252_encode(s@),
            n <= bytes@.len(),
            i <= n,
            out@ == start + bytes@.take(i as int),
        decreases n - i,
    {
        out.push(bytes[i]);
        i = i + 1;
        proof {
            assert(out@ =~= start + bytes@.take(i as int));
        }
    }
    proof {
        assert(bytes@.take(n as int) =~= string_payload(s@));
        assert(final(out)@ =~= old(out)@ + string_field(s@));
    }
}

/// Writes a jump counter: the jump saturated at `u16::MAX`, or 0 for none.
pub fn write_jump(out: &mut Vec<u8>, j: u32)
    ensures
        final(out)@ == old(out)@ + jump_field(j),
{
    let v: u16 = if j > 65535 { 65535 } else { j as u16 };
    write_u16(out, v);
}

// Laws
//
// ++++++++++++============++++++++++++============++++++++++++============

/// A written `u16` reads back.
pub proof fn lemma_u16_roundtrip(b: Seq<u8>, p: int, v: u16)
    requires
        holds_at(b, p, le16(v)),
    ensures
        u16_at(b, p) == v,
{
    assert(b[p] == le16(v)[0] && b[p + 1] == le16(v)[1]);
}

/// A written `u32` reads back.
pub proof fn lemma_u32_roundtrip(b: Seq<u8>, p: int, v: u32)
    requires
        holds_at(b, p, le32(v)),
    ensures
        u32_at(b, p) == v,
{
    assert(b[p] == le32(v)[0] && b[p + 1] == le32(v)[1] && b[p + 2] == le32(v)[2] && b[p + 3] == le32(v)[3]);
}

/// A written `i16` reads back.
pub proof fn lemma_i16_roundtrip(b: Seq<u8>, p: int, v: i16)
    requires
        holds_at(b, p, le16_signed(v)),
    ensures
        i16_at(b, p) == v,
{
    lemma_u16_roundtrip(b, p, if v < 0 { (v + 65536) as u16 } else { v as u16 });
}

/// A part of a held sequence is held at its offset.
pub proof fn lemma_holds_concat(b: Seq<u8>, p: int, x: Seq<u8>, y: Seq<u8>)
    requires
        holds_at(b, p, x + y),
    ensures
        holds_at(b, p, x),
        holds_at(b, p + x.len(), y),
{
    let w = b.subrange(p, p + (x + y).len());
    assert forall|i: int| 0 <= i < x.len() implies b.subrange(p, p + x.len())[i] == x[i] by {
        assert(w[i] == (x + y)[i]);
    }
    assert forall|i: int| 0 <= i < y.len() implies b.subrange(p + x.len(), p + x.len() + y.len())[i] == y[i] by {
        assert(w[x.len() + i] == (x + y)[x.len() + i]);
    }
    assert(b.subrange(p, p + x.len()) =~= x);
    assert(b.subrange(p + x.len(), p + x.len() + y.len()) =~= y);
}

/// A written string field reads back as the decoding of the written
/// payload.
pub proof fn lemma_string_roundtrip(b: Seq<u8>, q: int, s: Seq<char>)
    requires
        holds_at(b, q, string_field(s)),
    ensures
        u32_at(b, q) == string_payload(s).len(),
        q + 4 + string_payload(s).len() <= b.len(),
        b.subrange(q + 4, q + 4 + string_payload(s).len()) == string_payload(s),
{
    lemma_holds_concat(b, q, le32(string_payload(s).len() as u32), string_payload(s));
    lemma_u32_roundtrip(b, q, string_payload(s).len() as u32);
}

} // verus!
