//! The primitives of the binary formats.
//!
//! Integers are fixed-width and little-endian, booleans are one byte that
//! is 0 or 1, and a text is its UTF-8 bytes after their count as a 64-bit
//! integer. Every primitive comes as a pair of spec functions, one that
//! serializes a value and one that parses the front of a byte string, and
//! as a pair of executable functions that compute them.

use vstd::bytes::*;
use vstd::prelude::*;
use vstd::slice::*;
use vstd::string::*;
use vstd::utf8::*;

verus! {

/// A byte as one byte.
pub open spec fn ser_u8(x: u8) -> Seq<u8> {
    seq![x]
}

/// A byte from the front of a byte string, and the bytes after it.
pub open spec fn parse_u8(b: Seq<u8>) -> Option<(u8, Seq<u8>)> {
    if b.len() >= 1 {
        Some((b[0], b.skip(1)))
    } else {
        None
    }
}

/// A boolean as bytes.
pub open spec fn ser_bool(x: bool) -> Seq<u8> {
    seq![if x { 1u8 } else { 0u8 }]
}

/// A boolean from the front of a byte string, and the bytes after it.
pub open spec fn parse_bool(b: Seq<u8>) -> Option<(bool, Seq<u8>)> {
    if b.len() >= 1 && b[0] <= 1 {
        Some((b[0] == 1, b.skip(1)))
    } else {
        None
    }
}

/// A 16-bit integer as bytes.
pub open spec fn ser_u16(x: u16) -> Seq<u8> {
    spec_u16_to_le_bytes(x)
}

/// A 16-bit integer from the front of a byte string, and the bytes after
/// it.
pub open spec fn parse_u16(b: Seq<u8>) -> Option<(u16, Seq<u8>)> {
    if b.len() >= 2 {
        Some((spec_u16_from_le_bytes(b.subrange(0, 2)), b.skip(2)))
    } else {
        None
    }
}

/// A 32-bit integer as bytes.
pub open spec fn ser_u32(x: u32) -> Seq<u8> {
    spec_u32_to_le_bytes(x)
}

/// A 32-bit integer from the front of a byte string, and the bytes after
/// it.
pub open spec fn parse_u32(b: Seq<u8>) -> Option<(u32, Seq<u8>)> {
    if b.len() >= 4 {
        Some((spec_u32_from_le_bytes(b.subrange(0, 4)), b.skip(4)))
    } else {
        None
    }
}

/// A 64-bit integer as bytes.
pub open spec fn ser_u64(x: u64) -> Seq<u8> {
    spec_u64_to_le_bytes(x)
}

/// A 64-bit integer from the front of a byte string, and the bytes after
/// it.
pub open spec fn parse_u64(b: Seq<u8>) -> Option<(u64, Seq<u8>)> {
    if b.len() >= 8 {
        Some((spec_u64_from_le_bytes(b.subrange(0, 8)), b.skip(8)))
    } else {
        None
    }
}

/// A 128-bit integer as bytes.
pub open spec fn ser_u128(x: u128) -> Seq<u8> {
    spec_u128_to_le_bytes(x)
}

/// A 128-bit integer from the front of a byte string, and the bytes after
/// it.
pub open spec fn parse_u128(b: Seq<u8>) -> Option<(u128, Seq<u8>)> {
    if b.len() >= 16 {
        Some((spec_u128_from_le_bytes(b.subrange(0, 16)), b.skip(16)))
    } else {
        None
    }
}

/// A byte string after its length.
#[verifier::opaque]
pub open spec fn ser_blob(x: Seq<u8>) -> Seq<u8> {
    ser_u64(x.len() as u64) + x
}

/// A byte string with its length from the front of a byte string, and the
/// bytes after it.
#[verifier::opaque]
pub open spec fn parse_blob(b: Seq<u8>) -> Option<(Seq<u8>, Seq<u8>)> {
    match parse_u64(b) {
        Some((n, r)) => if n <= r.len() {
            Some((r.subrange(0, n as int), r.skip(n as int)))
        } else {
            None
        },
        None => None,
    }
}

/// A text as the blob of its UTF-8 bytes.
#[verifier::opaque]
pub open spec fn ser_text(x: Seq<char>) -> Seq<u8> {
    ser_blob(encode_utf8(x))
}

/// A text from the front of a byte string, and the bytes after it.
#[verifier::opaque]
pub open spec fn parse_text(b: Seq<u8>) -> Option<(Seq<char>, Seq<u8>)> {
    match parse_blob(b) {
        Some((raw, r)) => if valid_utf8(raw) {
            Some((decode_utf8(raw), r))
        } else {
            None
        },
        None => None,
    }
}

/// A text whose UTF-8 bytes can be counted in 64 bits.
pub open spec fn text_fits(x: Seq<char>) -> bool {
    encode_utf8(x).len() <= u64::MAX
}

/// Concatenation may be regrouped.
pub proof fn lemma_regroup(a: Seq<u8>, b: Seq<u8>, c: Seq<u8>)
    ensures
        (a + b) + c == a + (b + c),
{
    assert((a + b) + c =~= a + (b + c));
}

/// Parsing what was serialized gives the value back and leaves what
/// followed it.
pub proof fn lemma_parse_ser_u8(x: u8, rest: Seq<u8>)
    ensures
        parse_u8(ser_u8(x) + rest) == Some((x, rest)),
{
    assert((ser_u8(x) + rest).skip(1) =~= rest);
}

/// Parsing the bytes of a boolean gives it back and leaves what followed.
pub proof fn lemma_parse_ser_bool(x: bool, rest: Seq<u8>)
    ensures
        parse_bool(ser_bool(x) + rest) == Some((x, rest)),
{
    assert((ser_bool(x) + rest).skip(1) =~= rest);
}

/// Parsing the bytes of a 16-bit integer gives it back and leaves what
/// followed.
pub proof fn lemma_parse_ser_u16(x: u16, rest: Seq<u8>)
    ensures
        ser_u16(x).len() == 2,
        parse_u16(ser_u16(x) + rest) == Some((x, rest)),
{
    lemma_auto_spec_u16_to_from_le_bytes();
    assert((ser_u16(x) + rest).subrange(0, 2) =~= ser_u16(x));
    assert((ser_u16(x) + rest).skip(2) =~= rest);
}

/// Parsing the bytes of a 32-bit integer gives it back and leaves what
/// followed.
pub proof fn lemma_parse_ser_u32(x: u32, rest: Seq<u8>)
    ensures
        ser_u32(x).len() == 4,
        parse_u32(ser_u32(x) + rest) == Some((x, rest)),
{
    lemma_auto_spec_u32_to_from_le_bytes();
    assert((ser_u32(x) + rest).subrange(0, 4) =~= ser_u32(x));
    assert((ser_u32(x) + rest).skip(4) =~= rest);
}

/// Parsing the bytes of a 64-bit integer gives it back and leaves what
/// followed.
pub proof fn lemma_parse_ser_u64(x: u64, rest: Seq<u8>)
    ensures
        ser_u64(x).len() == 8,
        parse_u64(ser_u64(x) + rest) == Some((x, rest)),
{
    lemma_auto_spec_u64_to_from_le_bytes();
    assert((ser_u64(x) + rest).subrange(0, 8) =~= ser_u64(x));
    assert((ser_u64(x) + rest).skip(8) =~= rest);
}

/// Parsing the bytes of a 128-bit integer gives it back and leaves what
/// followed.
pub proof fn lemma_parse_ser_u128(x: u128, rest: Seq<u8>)
    ensures
        ser_u128(x).len() == 16,
        parse_u128(ser_u128(x) + rest) == Some((x, rest)),
{
    lemma_auto_spec_u128_to_from_le_bytes();
    assert((ser_u128(x) + rest).subrange(0, 16) =~= ser_u128(x));
    assert((ser_u128(x) + rest).skip(16) =~= rest);
}

/// Parsing the bytes of a byte string with its length gives it back and
/// leaves what followed.
pub proof fn lemma_parse_ser_blob(x: Seq<u8>, rest: Seq<u8>)
    requires
        x.len() <= u64::MAX,
    ensures
        parse_blob(ser_blob(x) + rest) == Some((x, rest)),
{
    reveal(ser_blob);
    reveal(parse_blob);
    let n = x.len() as u64;
    lemma_parse_ser_u64(n, x + rest);
    assert(ser_blob(x) + rest =~= ser_u64(n) + (x + rest));
    assert((x + rest).subrange(0, n as int) =~= x);
    assert((x + rest).skip(n as int) =~= rest);
}

/// Parsing the bytes of a text gives it back and leaves what followed.
pub proof fn lemma_parse_ser_text(x: Seq<char>, rest: Seq<u8>)
    requires
        text_fits(x),
    ensures
        parse_text(ser_text(x) + rest) == Some((x, rest)),
{
    reveal(ser_text);
    reveal(parse_text);
    lemma_parse_ser_blob(encode_utf8(x), rest);
    encode_utf8_valid_utf8(x);
    encode_utf8_decode_utf8(x);
}

/// What parses was serialized: the parsed front of a byte string is the
/// serialization of the value that came out.
pub proof fn lemma_ser_parse_u8(b: Seq<u8>)
    requires
        parse_u8(b) is Some,
    ensures
        b == ser_u8(parse_u8(b).unwrap().0) + parse_u8(b).unwrap().1,
{
    assert(b =~= seq![b[0]] + b.skip(1));
}

/// What parses as a boolean is the bytes of what comes out.
pub proof fn lemma_ser_parse_bool(b: Seq<u8>)
    requires
        parse_bool(b) is Some,
    ensures
        b == ser_bool(parse_bool(b).unwrap().0) + parse_bool(b).unwrap().1,
{
    assert(b =~= seq![b[0]] + b.skip(1));
}

/// What parses as a 16-bit integer is the bytes of what comes out.
pub proof fn lemma_ser_parse_u16(b: Seq<u8>)
    requires
        parse_u16(b) is Some,
    ensures
        b == ser_u16(parse_u16(b).unwrap().0) + parse_u16(b).unwrap().1,
{
    lemma_auto_spec_u16_to_from_le_bytes();
    assert(b =~= b.subrange(0, 2) + b.skip(2));
}

/// What parses as a 32-bit integer is the bytes of what comes out.
pub proof fn lemma_ser_parse_u32(b: Seq<u8>)
    requires
        parse_u32(b) is Some,
    ensures
        b == ser_u32(parse_u32(b).unwrap().0) + parse_u32(b).unwrap().1,
{
    lemma_auto_spec_u32_to_from_le_bytes();
    assert(b =~= b.subrange(0, 4) + b.skip(4));
}

/// What parses as a 64-bit integer is the bytes of what comes out.
pub proof fn lemma_ser_parse_u64(b: Seq<u8>)
    requires
        parse_u64(b) is Some,
    ensures
        b == ser_u64(parse_u64(b).unwrap().0) + parse_u64(b).unwrap().1,
{
    lemma_auto_spec_u64_to_from_le_bytes();
    assert(b =~= b.subrange(0, 8) + b.skip(8));
}

/// What parses as a 128-bit integer is the bytes of what comes out.
pub proof fn lemma_ser_parse_u128(b: Seq<u8>)
    requires
        parse_u128(b) is Some,
    ensures
        b == ser_u128(parse_u128(b).unwrap().0) + parse_u128(b).unwrap().1,
{
    lemma_auto_spec_u128_to_from_le_bytes();
    assert(b =~= b.subrange(0, 16) + b.skip(16));
}

/// What parses as a byte string with its length is the bytes of what comes
/// out.
pub proof fn lemma_ser_parse_blob(b: Seq<u8>)
    requires
        parse_blob(b) is Some,
    ensures
        b == ser_blob(parse_blob(b).unwrap().0) + parse_blob(b).unwrap().1,
{
    reveal(ser_blob);
    reveal(parse_blob);
    lemma_ser_parse_u64(b);
    let (n, r) = parse_u64(b).unwrap();
    assert(r =~= r.subrange(0, n as int) + r.skip(n as int));
    assert(b =~= ser_u64(n) + r.subrange(0, n as int) + r.skip(n as int));
}

/// What parses as a text is the bytes of what comes out.
pub proof fn lemma_ser_parse_text(b: Seq<u8>)
    requires
        parse_text(b) is Some,
    ensures
        b == ser_text(parse_text(b).unwrap().0) + parse_text(b).unwrap().1,
        text_fits(parse_text(b).unwrap().0),
{
    reveal(ser_text);
    reveal(parse_text);
    reveal(parse_blob);
    lemma_ser_parse_blob(b);
    decode_utf8_encode_utf8(parse_blob(b).unwrap().0);
}

/// Appends a byte.
pub fn write_u8(out: &mut Vec<u8>, x: u8)
    ensures
        final(out)@ == old(out)@ + ser_u8(x),
{
    out.push(x);
    assert(out@ =~= old(out)@ + ser_u8(x));
}

/// Appends a boolean.
pub fn write_bool(out: &mut Vec<u8>, x: bool)
    ensures
        final(out)@ == old(out)@ + ser_bool(x),
{
    out.push(if x { 1u8 } else { 0u8 });
    assert(out@ =~= old(out)@ + ser_bool(x));
}

/// Appends a 16-bit integer.
pub fn write_u16(out: &mut Vec<u8>, x: u16)
    ensures
        final(out)@ == old(out)@ + ser_u16(x),
{
    let mut bytes = u16_to_le_bytes(x);
    out.append(&mut bytes);
}

/// Appends a 32-bit integer.
pub fn write_u32(out: &mut Vec<u8>, x: u32)
    ensures
        final(out)@ == old(out)@ + ser_u32(x),
{
    let mut bytes = u32_to_le_bytes(x);
    out.append(&mut bytes);
}

/// Appends a 64-bit integer.
pub fn write_u64(out: &mut Vec<u8>, x: u64)
    ensures
        final(out)@ == old(out)@ + ser_u64(x),
{
    let mut bytes = u64_to_le_bytes(x);
    out.append(&mut bytes);
}

/// Appends a 128-bit integer.
pub fn write_u128(out: &mut Vec<u8>, x: u128)
    ensures
        final(out)@ == old(out)@ + ser_u128(x),
{
    let mut bytes = u128_to_le_bytes(x);
    out.append(&mut bytes);
}

/// Appends a byte string with its length.
pub fn write_blob(out: &mut Vec<u8>, x: &[u8])
    ensures
        final(out)@ == old(out)@ + ser_blob(x@),
{
    proof {
        reveal(ser_blob);
    }
    write_u64(out, x.len() as u64);
    let mut bytes = slice_to_vec(x);
    out.append(&mut bytes);
    assert(out@ =~= old(out)@ + ser_blob(x@));
}

/// Appends a text.
pub fn write_text(out: &mut Vec<u8>, x: &str)
    ensures
        final(out)@ == old(out)@ + ser_text(x@),
        text_fits(x@),
{
    proof {
        reveal(ser_text);
    }
    let bytes = x.as_bytes();
    assert(bytes@.len() == bytes.len());
    write_blob(out, bytes);
}

/// Turns UTF-8 bytes into the text they encode, with `String::from_utf8`.
///
/// Trusted: the standard library accepts exactly the valid encodings and
/// hands back the text whose encoding the bytes are.
#[verifier::external_body]
pub(crate) fn text_from_utf8(bytes: Vec<u8>) -> (text: Option<String>)
    ensures
        text is Some <==> valid_utf8(bytes@),
        text is Some ==> text.unwrap()@ == decode_utf8(bytes@),
{
    String::from_utf8(bytes).ok()
}

/// Reads a byte from `buf` at `at` and says where it ends.
pub fn read_u8(buf: &[u8], at: usize) -> (r: Option<(u8, usize)>)
    requires
        at <= buf.len(),
    ensures
        r is Some <==> parse_u8(buf@.skip(at as int)) is Some,
        r is Some ==> at <= r.unwrap().1 <= buf.len() && parse_u8(buf@.skip(at as int)) == Some(
            (r.unwrap().0, buf@.skip(r.unwrap().1 as int)),
        ),
{
    if buf.len() - at < 1 {
        return None;
    }
    assert(buf@.skip(at as int).skip(1) =~= buf@.skip(at + 1));
    Some((buf[at], at + 1))
}

/// Reads a boolean from `buf` at `at` and says where it ends.
pub fn read_bool(buf: &[u8], at: usize) -> (r: Option<(bool, usize)>)
    requires
        at <= buf.len(),
    ensures
        r is Some <==> parse_bool(buf@.skip(at as int)) is Some,
        r is Some ==> at <= r.unwrap().1 <= buf.len() && parse_bool(buf@.skip(at as int)) == Some(
            (r.unwrap().0, buf@.skip(r.unwrap().1 as int)),
        ),
{
    if buf.len() - at < 1 || buf[at] > 1 {
        return None;
    }
    assert(buf@.skip(at as int).skip(1) =~= buf@.skip(at + 1));
    Some((buf[at] == 1, at + 1))
}

/// Reads a 16-bit integer from `buf` at `at` and says where it ends.
pub fn read_u16(buf: &[u8], at: usize) -> (r: Option<(u16, usize)>)
    requires
        at <= buf.len(),
    ensures
        r is Some <==> parse_u16(buf@.skip(at as int)) is Some,
        r is Some ==> at <= r.unwrap().1 <= buf.len() && parse_u16(buf@.skip(at as int)) == Some(
            (r.unwrap().0, buf@.skip(r.unwrap().1 as int)),
        ),
{
    if buf.len() - at < 2 {
        return None;
    }
    assert(buf@.skip(at as int).subrange(0, 2) =~= buf@.subrange(at as int, at + 2));
    assert(buf@.skip(at as int).skip(2) =~= buf@.skip(at + 2));
    Some((u16_from_le_bytes(slice_subrange(buf, at, at + 2)), at + 2))
}

/// Reads a 32-bit integer from `buf` at `at` and says where it ends.
pub fn read_u32(buf: &[u8], at: usize) -> (r: Option<(u32, usize)>)
    requires
        at <= buf.len(),
    ensures
        r is Some <==> parse_u32(buf@.skip(at as int)) is Some,
        r is Some ==> at <= r.unwrap().1 <= buf.len() && parse_u32(buf@.skip(at as int)) == Some(
            (r.unwrap().0, buf@.skip(r.unwrap().1 as int)),
        ),
{
    if buf.len() - at < 4 {
        return None;
    }
    assert(buf@.skip(at as int).subrange(0, 4) =~= buf@.subrange(at as int, at + 4));
    assert(buf@.skip(at as int).skip(4) =~= buf@.skip(at + 4));
    Some((u32_from_le_bytes(slice_subrange(buf, at, at + 4)), at + 4))
}

/// Reads a 64-bit integer from `buf` at `at` and says where it ends.
pub fn read_u64(buf: &[u8], at: usize) -> (r: Option<(u64, usize)>)
    requires
        at <= buf.len(),
    ensures
        r is Some <==> parse_u64(buf@.skip(at as int)) is Some,
        r is Some ==> at <= r.unwrap().1 <= buf.len() && parse_u64(buf@.skip(at as int)) == Some(
            (r.unwrap().0, buf@.skip(r.unwrap().1 as int)),
        ),
{
    if buf.len() - at < 8 {
        return None;
    }
    assert(buf@.skip(at as int).subrange(0, 8) =~= buf@.subrange(at as int, at + 8));
    assert(buf@.skip(at as int).skip(8) =~= buf@.skip(at + 8));
    Some((u64_from_le_bytes(slice_subrange(buf, at, at + 8)), at + 8))
}

/// Reads a 128-bit integer from `buf` at `at` and says where it ends.
pub fn read_u128(buf: &[u8], at: usize) -> (r: Option<(u128, usize)>)
    requires
        at <= buf.len(),
    ensures
        r is Some <==> parse_u128(buf@.skip(at as int)) is Some,
        r is Some ==> at <= r.unwrap().1 <= buf.len() && parse_u128(buf@.skip(at as int)) == Some(
            (r.unwrap().0, buf@.skip(r.unwrap().1 as int)),
        ),
{
    if buf.len() - at < 16 {
        return None;
    }
    assert(buf@.skip(at as int).subrange(0, 16) =~= buf@.subrange(at as int, at + 16));
    assert(buf@.skip(at as int).skip(16) =~= buf@.skip(at + 16));
    Some((u128_from_le_bytes(slice_subrange(buf, at, at + 16)), at + 16))
}

/// Reads a byte string with its length from `buf` at `at` and says where it
/// ends.
pub fn read_blob(buf: &[u8], at: usize) -> (r: Option<(Vec<u8>, usize)>)
    requires
        at <= buf.len(),
    ensures
        r is Some <==> parse_blob(buf@.skip(at as int)) is Some,
        r is Some ==> at <= r.unwrap().1 <= buf.len() && parse_blob(buf@.skip(at as int)) == Some(
            (r.unwrap().0@, buf@.skip(r.unwrap().1 as int)),
        ),
{
    proof {
        reveal(parse_blob);
    }
    let (n, start) = match read_u64(buf, at) {
        Some(pair) => pair,
        None => { return None; },
    };
    if n > (buf.len() - start) as u64 {
        return None;
    }
    let end: usize = start + n as usize;
    assert(buf@.skip(start as int).subrange(0, n as int) =~= buf@.subrange(
        start as int,
        end as int,
    ));
    assert(buf@.skip(start as int).skip(n as int) =~= buf@.skip(end as int));
    Some((slice_to_vec(slice_subrange(buf, start, end)), end))
}

/// Reads a text from `buf` at `at` and says where it ends.
pub fn read_text(buf: &[u8], at: usize) -> (r: Option<(String, usize)>)
    requires
        at <= buf.len(),
    ensures
        r is Some <==> parse_text(buf@.skip(at as int)) is Some,
        r is Some ==> at <= r.unwrap().1 <= buf.len() && parse_text(buf@.skip(at as int)) == Some(
            (r.unwrap().0@, buf@.skip(r.unwrap().1 as int)),
        ),
{
    proof {
        reveal(parse_text);
    }
    let (raw, next) = match read_blob(buf, at) {
        Some(pair) => pair,
        None => { return None; },
    };
    match text_from_utf8(raw) {
        Some(text) => Some((text, next)),
        None => None,
    }
}

} // verus!
