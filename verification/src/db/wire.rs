use vstd::bytes::{
    lemma_auto_spec_u16_to_from_le_bytes, lemma_auto_spec_u64_to_from_le_bytes,
    spec_u16_from_le_bytes, spec_u16_to_le_bytes, spec_u64_from_le_bytes, spec_u64_to_le_bytes,
};
use vstd::prelude::*;
use vstd::slice::slice_subrange;
use vstd::string::StringSliceAdditionalSpecFns;
use vstd::utf8::{
    decode_utf8, encode_utf8, encode_utf8_decode_utf8, encode_utf8_valid_utf8, valid_utf8,
};

verus! {

/// The bytes that stand for a 64-bit number: eight, the lowest first.
pub open spec fn enc_u64(x: u64) -> Seq<u8> {
    spec_u64_to_le_bytes(x)
}

/// The bytes that stand for a 16-bit number: two, the lower first.
pub open spec fn enc_u16(x: u16) -> Seq<u8> {
    spec_u16_to_le_bytes(x)
}

/// The bytes that stand for a text: the number of the bytes of its UTF-8
/// form, then those bytes.
pub open spec fn enc_text(s: Seq<char>) -> Seq<u8> {
    enc_u64(encode_utf8(s).len() as u64) + encode_utf8(s)
}

/// Reads a 64-bit number from the front of `b`: the number and the bytes
/// that follow it, and nothing where `b` has fewer than eight bytes.
pub open spec fn dec_u64(b: Seq<u8>) -> Option<(u64, Seq<u8>)> {
    if b.len() >= 8 {
        Some((spec_u64_from_le_bytes(b.subrange(0, 8)), b.skip(8)))
    } else {
        None
    }
}

/// Reads a 16-bit number from the front of `b`.
pub open spec fn dec_u16(b: Seq<u8>) -> Option<(u16, Seq<u8>)> {
    if b.len() >= 2 {
        Some((spec_u16_from_le_bytes(b.subrange(0, 2)), b.skip(2)))
    } else {
        None
    }
}

/// Reads one byte from the front of `b`.
pub open spec fn dec_u8(b: Seq<u8>) -> Option<(u8, Seq<u8>)> {
    if b.len() >= 1 {
        Some((b[0], b.skip(1)))
    } else {
        None
    }
}

/// Reads a count from the front of `b`: a 64-bit number that is a `usize`.
pub open spec fn dec_count(b: Seq<u8>) -> Option<(usize, Seq<u8>)> {
    match dec_u64(b) {
        Some((x, rest)) => if x <= usize::MAX {
            Some((x as usize, rest))
        } else {
            None
        },
        None => None,
    }
}

/// Reads a text from the front of `b`: its length, then as many bytes,
/// which must be well-formed UTF-8.
pub open spec fn dec_text(b: Seq<u8>) -> Option<(Seq<char>, Seq<u8>)> {
    match dec_u64(b) {
        Some((n, rest)) => if n <= rest.len() && valid_utf8(rest.subrange(0, n as int)) {
            Some((decode_utf8(rest.subrange(0, n as int)), rest.skip(n as int)))
        } else {
            None
        },
        None => None,
    }
}

/// A 64-bit number is read back from its bytes.
pub proof fn lemma_u64_round(x: u64, tail: Seq<u8>)
    ensures
        enc_u64(x).len() == 8,
        dec_u64(enc_u64(x) + tail) == Some((x, tail)),
{
    lemma_auto_spec_u64_to_from_le_bytes();
    let b = enc_u64(x) + tail;
    assert(b.subrange(0, 8) =~= enc_u64(x));
    assert(b.skip(8) =~= tail);
}

/// A 16-bit number is read back from its bytes.
pub proof fn lemma_u16_round(x: u16, tail: Seq<u8>)
    ensures
        enc_u16(x).len() == 2,
        dec_u16(enc_u16(x) + tail) == Some((x, tail)),
{
    lemma_auto_spec_u16_to_from_le_bytes();
    let b = enc_u16(x) + tail;
    assert(b.subrange(0, 2) =~= enc_u16(x));
    assert(b.skip(2) =~= tail);
}

/// A count is read back from its bytes.
pub proof fn lemma_count_round(x: usize, tail: Seq<u8>)
    ensures
        dec_count(enc_u64(x as u64) + tail) == Some((x, tail)),
{
    lemma_u64_round(x as u64, tail);
}

/// A text whose UTF-8 form has a length that fits in 64 bits is read back
/// from its bytes.
pub proof fn lemma_text_round(s: Seq<char>, tail: Seq<u8>)
    requires
        encode_utf8(s).len() <= u64::MAX,
    ensures
        dec_text(enc_text(s) + tail) == Some((s, tail)),
{
    let body = encode_utf8(s);
    let n = body.len() as u64;
    lemma_u64_round(n, body + tail);
    assert(enc_text(s) + tail =~= enc_u64(n) + (body + tail));
    assert((body + tail).subrange(0, n as int) =~= body);
    assert((body + tail).skip(n as int) =~= tail);
    encode_utf8_valid_utf8(s);
    encode_utf8_decode_utf8(s);
}

/// A 64-bit number that is read from bytes is read from them whatever
/// follows them.
pub proof fn lemma_u64_more(b: Seq<u8>, ext: Seq<u8>)
    requires
        dec_u64(b) is Some,
    ensures
        dec_u64(b + ext) == Some((dec_u64(b).unwrap().0, dec_u64(b).unwrap().1 + ext)),
{
    assert((b + ext).subrange(0, 8) =~= b.subrange(0, 8));
    assert((b + ext).skip(8) =~= b.skip(8) + ext);
}

/// A 16-bit number that is read from bytes is read from them whatever
/// follows them.
pub proof fn lemma_u16_more(b: Seq<u8>, ext: Seq<u8>)
    requires
        dec_u16(b) is Some,
    ensures
        dec_u16(b + ext) == Some((dec_u16(b).unwrap().0, dec_u16(b).unwrap().1 + ext)),
{
    assert((b + ext).subrange(0, 2) =~= b.subrange(0, 2));
    assert((b + ext).skip(2) =~= b.skip(2) + ext);
}

/// A byte that is read from bytes is read from them whatever follows them.
pub proof fn lemma_u8_more(b: Seq<u8>, ext: Seq<u8>)
    requires
        dec_u8(b) is Some,
    ensures
        dec_u8(b + ext) == Some((dec_u8(b).unwrap().0, dec_u8(b).unwrap().1 + ext)),
{
    assert((b + ext).skip(1) =~= b.skip(1) + ext);
}

/// A count that is read from bytes is read from them whatever follows them.
pub proof fn lemma_count_more(b: Seq<u8>, ext: Seq<u8>)
    requires
        dec_count(b) is Some,
    ensures
        dec_count(b + ext) == Some((dec_count(b).unwrap().0, dec_count(b).unwrap().1 + ext)),
{
    lemma_u64_more(b, ext);
}

/// A text that is read from bytes is read from them whatever follows them.
pub proof fn lemma_text_more(b: Seq<u8>, ext: Seq<u8>)
    requires
        dec_text(b) is Some,
    ensures
        dec_text(b + ext) == Some((dec_text(b).unwrap().0, dec_text(b).unwrap().1 + ext)),
{
    lemma_u64_more(b, ext);
    let (n, rest) = dec_u64(b)->0;
    assert((rest + ext).subrange(0, n as int) =~= rest.subrange(0, n as int));
    assert((rest + ext).skip(n as int) =~= rest.skip(n as int) + ext);
}

/// Calls `bincode::serialize` on a `u64`. With the options that the call
/// fixes the bytes are the eight bytes of the number, the lowest first; the
/// write goes to a vector and does not fail.
#[verifier::external_body]
fn u64_image(x: u64) -> (out: Vec<u8>)
    ensures
        out@ == enc_u64(x),
{
    match bincode::serialize(&x) {
        Ok(bytes) => bytes,
        Err(_) => Vec::new(),
    }
}

/// Calls `bincode::serialize` on a `u16`: the two bytes of the number, the
/// lower first.
#[verifier::external_body]
fn u16_image(x: u16) -> (out: Vec<u8>)
    ensures
        out@ == enc_u16(x),
{
    match bincode::serialize(&x) {
        Ok(bytes) => bytes,
        Err(_) => Vec::new(),
    }
}

/// Calls `bincode::serialize` on a string slice: the number of its bytes
/// as a `u64`, then the bytes.
#[verifier::external_body]
fn text_image(s: &str) -> (out: Vec<u8>)
    ensures
        out@ == enc_text(s@),
{
    match bincode::serialize(s) {
        Ok(bytes) => bytes,
        Err(_) => Vec::new(),
    }
}

/// Calls `bincode::deserialize` for a `u64`: the number that the first
/// eight bytes stand for, whatever follows them, and nothing where there
/// are fewer.
#[verifier::external_body]
fn u64_of_image(bytes: &[u8]) -> (out: Option<u64>)
    ensures
        out == match dec_u64(bytes@) {
            Some((x, rest)) => Some(x),
            None => None,
        },
{
    bincode::deserialize::<u64>(bytes).ok()
}

/// Calls `bincode::deserialize` for a `u16`: the number that the first two
/// bytes stand for, and nothing where there are fewer.
#[verifier::external_body]
fn u16_of_image(bytes: &[u8]) -> (out: Option<u16>)
    ensures
        out == match dec_u16(bytes@) {
            Some((x, rest)) => Some(x),
            None => None,
        },
{
    bincode::deserialize::<u16>(bytes).ok()
}

/// Calls `bincode::deserialize` for a `String`: it reads a length, takes as
/// many of the bytes that follow, and fails where there are fewer or where
/// they are not well-formed UTF-8.
#[verifier::external_body]
fn text_of_image(bytes: &[u8]) -> (out: Option<String>)
    ensures
        match out {
            Some(s) => dec_text(bytes@) matches Some((text, rest)) && s@ == text,
            None => dec_text(bytes@) is None,
        },
{
    bincode::deserialize::<String>(bytes).ok()
}

/// Appends the bytes of `x` to `out`.
pub fn put_u64(out: &mut Vec<u8>, x: u64)
    ensures
        final(out)@ == old(out)@ + enc_u64(x),
{
    let mut bytes = u64_image(x);
    out.append(&mut bytes);
}

/// Appends the bytes of `x` to `out`.
pub fn put_u16(out: &mut Vec<u8>, x: u16)
    ensures
        final(out)@ == old(out)@ + enc_u16(x),
{
    let mut bytes = u16_image(x);
    out.append(&mut bytes);
}

/// Appends the bytes of the count `x` to `out`.
pub fn put_count(out: &mut Vec<u8>, x: usize)
    ensures
        final(out)@ == old(out)@ + enc_u64(x as u64),
{
    put_u64(out, x as u64);
}

/// Appends the bytes of the text `s` to `out`.
pub fn put_text(out: &mut Vec<u8>, s: &str)
    ensures
        final(out)@ == old(out)@ + enc_text(s@),
{
    let mut bytes = text_image(s);
    out.append(&mut bytes);
}

/// Reads a 64-bit number at `pos`. Returns it with the place behind it.
pub fn take_u64(bytes: &[u8], pos: usize) -> (out: Option<(u64, usize)>)
    requires
        pos <= bytes.len(),
    ensures
        match out {
            Some((x, next)) => pos <= next <= bytes.len() && dec_u64(bytes@.skip(pos as int))
                == Some((x, bytes@.skip(next as int))),
            None => dec_u64(bytes@.skip(pos as int)) is None,
        },
{
    let rest = slice_subrange(bytes, pos, bytes.len());
    assert(rest@ =~= bytes@.skip(pos as int));
    match u64_of_image(rest) {
        Some(x) => {
            assert(bytes@.skip(pos as int).skip(8) =~= bytes@.skip(pos + 8));
            Some((x, pos + 8))
        },
        None => None,
    }
}

/// Reads a 16-bit number at `pos`. Returns it with the place behind it.
pub fn take_u16(bytes: &[u8], pos: usize) -> (out: Option<(u16, usize)>)
    requires
        pos <= bytes.len(),
    ensures
        match out {
            Some((x, next)) => pos <= next <= bytes.len() && dec_u16(bytes@.skip(pos as int))
                == Some((x, bytes@.skip(next as int))),
            None => dec_u16(bytes@.skip(pos as int)) is None,
        },
{
    let rest = slice_subrange(bytes, pos, bytes.len());
    assert(rest@ =~= bytes@.skip(pos as int));
    match u16_of_image(rest) {
        Some(x) => {
            assert(bytes@.skip(pos as int).skip(2) =~= bytes@.skip(pos + 2));
            Some((x, pos + 2))
        },
        None => None,
    }
}

/// Reads one byte at `pos`. Returns it with the place behind it.
pub fn take_u8(bytes: &[u8], pos: usize) -> (out: Option<(u8, usize)>)
    requires
        pos <= bytes.len(),
    ensures
        match out {
            Some((x, next)) => pos <= next <= bytes.len() && dec_u8(bytes@.skip(pos as int))
                == Some((x, bytes@.skip(next as int))),
            None => dec_u8(bytes@.skip(pos as int)) is None,
        },
{
    if pos < bytes.len() {
        assert(bytes@.skip(pos as int).skip(1) =~= bytes@.skip(pos + 1));
        Some((bytes[pos], pos + 1))
    } else {
        None
    }
}

/// Reads a count at `pos`. Returns it with the place behind it.
pub fn take_count(bytes: &[u8], pos: usize) -> (out: Option<(usize, usize)>)
    requires
        pos <= bytes.len(),
    ensures
        match out {
            Some((x, next)) => pos <= next <= bytes.len() && dec_count(bytes@.skip(pos as int))
                == Some((x, bytes@.skip(next as int))),
            None => dec_count(bytes@.skip(pos as int)) is None,
        },
{
    match take_u64(bytes, pos) {
        Some((x, next)) => {
            if x <= usize::MAX as u64 {
                Some((x as usize, next))
            } else {
                None
            }
        },
        None => None,
    }
}

/// Reads a text at `pos`. Returns it with the place behind it.
pub fn take_text(bytes: &[u8], pos: usize) -> (out: Option<(String, usize)>)
    requires
        pos <= bytes.len(),
    ensures
        match out {
            Some((s, next)) => pos <= next <= bytes.len() && dec_text(bytes@.skip(pos as int))
                == Some((s@, bytes@.skip(next as int))),
            None => dec_text(bytes@.skip(pos as int)) is None,
        },
{
    let rest = slice_subrange(bytes, pos, bytes.len());
    assert(rest@ =~= bytes@.skip(pos as int));
    match take_u64(bytes, pos) {
        None => None,
        Some((n, body)) => {
            let left = bytes.len() - body;
            assert(bytes@.skip(body as int).len() == left);
            if n > left as u64 {
                return None;
            }
            match text_of_image(rest) {
                Some(s) => {
                    assert(bytes@.skip(body as int).skip(n as int) =~= bytes@.skip(body + n));
                    Some((s, body + n as usize))
                },
                None => None,
            }
        },
    }
}

} // verus!
