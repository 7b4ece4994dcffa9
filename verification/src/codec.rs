//! Byte-level primitives of the wire encoding.
//!
//! Every multi-byte integer travels big-endian; a byte string travels as
//! a 4-byte big-endian length followed by the raw bytes. Each primitive
//! comes as a spec-level encoder and parser, an executable writer and
//! reader proved against them, and a round-trip lemma: parsing what was
//! encoded, with any suffix behind it, yields the value back and
//! consumes exactly the encoding.

use vstd::prelude::*;

verus! {

/// Why a byte slice failed to decode: it does not hold a complete,
/// well-formed encoding of a message.
#[derive(Clone, Copy, Debug, PartialEq, Eq, Structural)]
pub enum DecodeError {
    MalformedMessage,
}

/// Why a message failed to encode: some contained byte string or
/// collection does not fit the 32-bit length field.
#[derive(Clone, Copy, Debug, PartialEq, Eq, Structural)]
pub enum EncodeError {
    Oversized,
}

/// Byte-string payloads and counts must fit the 4-byte length field.
pub const MAX_LEN: u64 = 0xFFFF_FFFF;

// ---------------------------------------------------------------------
// Spec encoders.

/// A single byte.
pub open spec fn enc_u8(x: u8) -> Seq<u8> {
    seq![x]
}

/// Four bytes, big-endian.
pub open spec fn enc_u32(x: u32) -> Seq<u8> {
    seq![(x >> 24) as u8, (x >> 16) as u8, (x >> 8) as u8, x as u8]
}

/// Eight bytes, big-endian.
pub open spec fn enc_u64(x: u64) -> Seq<u8> {
    seq![
        (x >> 56) as u8,
        (x >> 48) as u8,
        (x >> 40) as u8,
        (x >> 32) as u8,
        (x >> 24) as u8,
        (x >> 16) as u8,
        (x >> 8) as u8,
        x as u8,
    ]
}

/// Eight bytes, big-endian, two's complement.
pub open spec fn enc_i64(x: i64) -> Seq<u8> {
    enc_u64(x as u64)
}

/// Length-prefixed raw bytes.
pub open spec fn enc_bytes(b: Seq<u8>) -> Seq<u8>
    recommends
        b.len() <= MAX_LEN,
{
    enc_u32(b.len() as u32) + b
}

// ---------------------------------------------------------------------
// Spec parsers. Each consumes from the front of the sequence and
// returns the value together with the bytes that remain behind it.

/// Reads one byte.
pub open spec fn parse_u8(s: Seq<u8>) -> Option<(u8, Seq<u8>)> {
    if s.len() >= 1 {
        Some((s[0], s.skip(1)))
    } else {
        None
    }
}

/// Reads four bytes, big-endian.
pub open spec fn parse_u32(s: Seq<u8>) -> Option<(u32, Seq<u8>)> {
    if s.len() >= 4 {
        Some((u32_of_be(s[0], s[1], s[2], s[3]), s.skip(4)))
    } else {
        None
    }
}

/// Reads eight bytes, big-endian.
pub open spec fn parse_u64(s: Seq<u8>) -> Option<(u64, Seq<u8>)> {
    if s.len() >= 8 {
        Some((u64_of_be(s[0], s[1], s[2], s[3], s[4], s[5], s[6], s[7]), s.skip(8)))
    } else {
        None
    }
}

/// Reads eight bytes, big-endian, two's complement.
pub open spec fn parse_i64(s: Seq<u8>) -> Option<(i64, Seq<u8>)> {
    match parse_u64(s) {
        Some((v, r)) => Some((v as i64, r)),
        None => None,
    }
}

/// Reads a length-prefixed byte string.
pub open spec fn parse_bytes(s: Seq<u8>) -> Option<(Seq<u8>, Seq<u8>)> {
    match parse_u32(s) {
        Some((n, s1)) => {
            if s1.len() >= n as int {
                Some((s1.take(n as int), s1.skip(n as int)))
            } else {
                None
            }
        },
        None => None,
    }
}

/// The 32-bit value that four big-endian bytes denote.
pub open spec fn u32_of_be(b0: u8, b1: u8, b2: u8, b3: u8) -> u32 {
    ((b0 as u32) << 24) | ((b1 as u32) << 16) | ((b2 as u32) << 8) | (b3 as u32)
}

/// The 64-bit value that eight big-endian bytes denote.
pub open spec fn u64_of_be(
    b0: u8,
    b1: u8,
    b2: u8,
    b3: u8,
    b4: u8,
    b5: u8,
    b6: u8,
    b7: u8,
) -> u64 {
    ((b0 as u64) << 56) | ((b1 as u64) << 48) | ((b2 as u64) << 40) | ((b3 as u64) << 32)
        | ((b4 as u64) << 24) | ((b5 as u64) << 16) | ((b6 as u64) << 8) | (b7 as u64)
}

// ---------------------------------------------------------------------
// Round-trip lemmas.

/// Splitting a concatenation right after its first part leaves its
/// second part.
pub proof fn lemma_concat_skip(a: Seq<u8>, b: Seq<u8>)
    ensures
        (a + b).skip(a.len() as int) == b,
{
    assert((a + b).skip(a.len() as int) =~= b);
}

/// Concatenation is associative.
pub proof fn lemma_assoc(a: Seq<u8>, b: Seq<u8>, c: Seq<u8>)
    ensures
        (a + b) + c == a + (b + c),
{
    assert((a + b) + c =~= a + (b + c));
}

/// Skipping twice is skipping once by the sum.
pub proof fn lemma_skip_skip(s: Seq<u8>, a: int, b: int)
    requires
        0 <= a,
        0 <= b,
        a + b <= s.len(),
    ensures
        s.skip(a).skip(b) == s.skip(a + b),
{
    assert(s.skip(a).skip(b) =~= s.skip(a + b));
}

pub proof fn lemma_parse_u8(x: u8, rest: Seq<u8>)
    ensures
        parse_u8(enc_u8(x) + rest) == Some((x, rest)),
{
    let s = enc_u8(x) + rest;
    assert(s[0] == x);
    assert(s.skip(1) =~= rest);
}

pub proof fn lemma_parse_u32(x: u32, rest: Seq<u8>)
    ensures
        parse_u32(enc_u32(x) + rest) == Some((x, rest)),
{
    let s = enc_u32(x) + rest;
    assert(s.skip(4) =~= rest);
    assert(s[0] == (x >> 24) as u8);
    assert(s[1] == (x >> 16) as u8);
    assert(s[2] == (x >> 8) as u8);
    assert(s[3] == x as u8);
    assert(u32_of_be((x >> 24) as u8, (x >> 16) as u8, (x >> 8) as u8, x as u8) == x)
        by (bit_vector);
}

pub proof fn lemma_parse_u64(x: u64, rest: Seq<u8>)
    ensures
        parse_u64(enc_u64(x) + rest) == Some((x, rest)),
{
    let s = enc_u64(x) + rest;
    assert(s.skip(8) =~= rest);
    assert(s[0] == (x >> 56) as u8);
    assert(s[1] == (x >> 48) as u8);
    assert(s[2] == (x >> 40) as u8);
    assert(s[3] == (x >> 32) as u8);
    assert(s[4] == (x >> 24) as u8);
    assert(s[5] == (x >> 16) as u8);
    assert(s[6] == (x >> 8) as u8);
    assert(s[7] == x as u8);
    assert(u64_of_be(
        (x >> 56) as u8,
        (x >> 48) as u8,
        (x >> 40) as u8,
        (x >> 32) as u8,
        (x >> 24) as u8,
        (x >> 16) as u8,
        (x >> 8) as u8,
        x as u8,
    ) == x) by (bit_vector);
}

pub proof fn lemma_parse_i64(x: i64, rest: Seq<u8>)
    ensures
        parse_i64(enc_i64(x) + rest) == Some((x, rest)),
{
    lemma_parse_u64(x as u64, rest);
    assert(((x as u64) as i64) == x) by (bit_vector);
}

pub proof fn lemma_parse_bytes(b: Seq<u8>, rest: Seq<u8>)
    requires
        b.len() <= MAX_LEN,
    ensures
        parse_bytes(enc_bytes(b) + rest) == Some((b, rest)),
{
    let n = b.len() as u32;
    let s = enc_bytes(b) + rest;
    lemma_assoc(enc_u32(n), b, rest);
    lemma_parse_u32(n, b + rest);
    assert((b + rest).take(n as int) =~= b);
    lemma_concat_skip(b, rest);
}

// ---------------------------------------------------------------------
// Executable writers. Each appends the encoding of one value to an
// output buffer.

/// Appends one byte.
pub fn put_u8(out: &mut Vec<u8>, x: u8)
    ensures
        final(out)@ == old(out)@ + enc_u8(x),
{
    out.push(x);
    proof {
        assert(final(out)@ =~= old(out)@ + enc_u8(x));
    }
}

/// Appends four bytes, big-endian.
pub fn put_u32(out: &mut Vec<u8>, x: u32)
    ensures
        final(out)@ == old(out)@ + enc_u32(x),
{
    out.push(#[verifier::truncate] ((x >> 24) as u8));
    out.push(#[verifier::truncate] ((x >> 16) as u8));
    out.push(#[verifier::truncate] ((x >> 8) as u8));
    out.push(#[verifier::truncate] (x as u8));
    proof {
        assert(final(out)@ =~= old(out)@ + enc_u32(x));
    }
}

/// Appends eight bytes, big-endian.
pub fn put_u64(out: &mut Vec<u8>, x: u64)
    ensures
        final(out)@ == old(out)@ + enc_u64(x),
{
    out.push(#[verifier::truncate] ((x >> 56) as u8));
    out.push(#[verifier::truncate] ((x >> 48) as u8));
    out.push(#[verifier::truncate] ((x >> 40) as u8));
    out.push(#[verifier::truncate] ((x >> 32) as u8));
    out.push(#[verifier::truncate] ((x >> 24) as u8));
    out.push(#[verifier::truncate] ((x >> 16) as u8));
    out.push(#[verifier::truncate] ((x >> 8) as u8));
    out.push(#[verifier::truncate] (x as u8));
    proof {
        assert(final(out)@ =~= old(out)@ + enc_u64(x));
    }
}

/// Appends eight bytes, big-endian, two's complement.
pub fn put_i64(out: &mut Vec<u8>, x: i64)
    ensures
        final(out)@ == old(out)@ + enc_i64(x),
{
    put_u64(out, #[verifier::truncate] (x as u64));
}

/// Appends a length-prefixed byte string.
pub fn put_bytes(out: &mut Vec<u8>, b: &[u8])
    requires
        b@.len() <= MAX_LEN,
    ensures
        final(out)@ == old(out)@ + enc_bytes(b@),
{
    let ghost mid = old(out)@ + enc_u32(b@.len() as u32);
    put_u32(out, b.len() as u32);
    let mut i: usize = 0;
    while i < b.len()
        invariant
            i <= b@.len(),
            out@ =~= mid + b@.subrange(0, i as int),
        decreases b@.len() - i,
    {
        out.push(b[i]);
        i = i + 1;
    }
    proof {
        assert(out@ =~= old(out)@ + enc_bytes(b@));
    }
}

// ---------------------------------------------------------------------
// Executable readers. Each reads one value at a position of a buffer;
// the contract ties the outcome exactly to the spec parser applied to
// the rest of the buffer.

/// Reads one byte at `pos`.
pub fn take_u8(bytes: &[u8], pos: usize) -> (r: Option<(u8, usize)>)
    requires
        pos <= bytes@.len(),
    ensures
        match r {
            Some((v, np)) => {
                &&& pos < np <= bytes@.len()
                &&& parse_u8(bytes@.skip(pos as int)) == Some((v, bytes@.skip(np as int)))
            },
            None => parse_u8(bytes@.skip(pos as int)) is None,
        },
{
    if pos < bytes.len() {
        let v = bytes[pos];
        proof {
            assert(bytes@.skip(pos as int)[0] == bytes@[pos as int]);
            lemma_skip_skip(bytes@, pos as int, 1);
        }
        Some((v, pos + 1))
    } else {
        None
    }
}

/// Reads four big-endian bytes at `pos`.
pub fn take_u32(bytes: &[u8], pos: usize) -> (r: Option<(u32, usize)>)
    requires
        pos <= bytes@.len(),
    ensures
        match r {
            Some((v, np)) => {
                &&& pos < np <= bytes@.len()
                &&& parse_u32(bytes@.skip(pos as int)) == Some((v, bytes@.skip(np as int)))
            },
            None => parse_u32(bytes@.skip(pos as int)) is None,
        },
{
    if bytes.len() - pos >= 4 {
        let b0 = bytes[pos];
        let b1 = bytes[pos + 1];
        let b2 = bytes[pos + 2];
        let b3 = bytes[pos + 3];
        let v: u32 = ((b0 as u32) << 24) | ((b1 as u32) << 16) | ((b2 as u32) << 8) | (b3 as u32);
        proof {
            let t = bytes@.skip(pos as int);
            assert(t[0] == bytes@[pos as int]);
            assert(t[1] == bytes@[pos as int + 1]);
            assert(t[2] == bytes@[pos as int + 2]);
            assert(t[3] == bytes@[pos as int + 3]);
            lemma_skip_skip(bytes@, pos as int, 4);
        }
        Some((v, pos + 4))
    } else {
        None
    }
}

/// Reads eight big-endian bytes at `pos`.
pub fn take_u64(bytes: &[u8], pos: usize) -> (r: Option<(u64, usize)>)
    requires
        pos <= bytes@.len(),
    ensures
        match r {
            Some((v, np)) => {
                &&& pos < np <= bytes@.len()
                &&& parse_u64(bytes@.skip(pos as int)) == Some((v, bytes@.skip(np as int)))
            },
            None => parse_u64(bytes@.skip(pos as int)) is None,
        },
{
    if bytes.len() - pos >= 8 {
        let b0 = bytes[pos];
        let b1 = bytes[pos + 1];
        let b2 = bytes[pos + 2];
        let b3 = bytes[pos + 3];
        let b4 = bytes[pos + 4];
        let b5 = bytes[pos + 5];
        let b6 = bytes[pos + 6];
        let b7 = bytes[pos + 7];
        let v: u64 = ((b0 as u64) << 56) | ((b1 as u64) << 48) | ((b2 as u64) << 40)
            | ((b3 as u64) << 32) | ((b4 as u64) << 24) | ((b5 as u64) << 16)
            | ((b6 as u64) << 8) | (b7 as u64);
        proof {
            let t = bytes@.skip(pos as int);
            assert(t[0] == bytes@[pos as int]);
            assert(t[1] == bytes@[pos as int + 1]);
            assert(t[2] == bytes@[pos as int + 2]);
            assert(t[3] == bytes@[pos as int + 3]);
            assert(t[4] == bytes@[pos as int + 4]);
            assert(t[5] == bytes@[pos as int + 5]);
            assert(t[6] == bytes@[pos as int + 6]);
            assert(t[7] == bytes@[pos as int + 7]);
            lemma_skip_skip(bytes@, pos as int, 8);
        }
        Some((v, pos + 8))
    } else {
        None
    }
}

/// Reads eight big-endian bytes at `pos` as a signed value.
pub fn take_i64(bytes: &[u8], pos: usize) -> (r: Option<(i64, usize)>)
    requires
        pos <= bytes@.len(),
    ensures
        match r {
            Some((v, np)) => {
                &&& pos < np <= bytes@.len()
                &&& parse_i64(bytes@.skip(pos as int)) == Some((v, bytes@.skip(np as int)))
            },
            None => parse_i64(bytes@.skip(pos as int)) is None,
        },
{
    match take_u64(bytes, pos) {
        Some((v, np)) => Some((#[verifier::truncate] (v as i64), np)),
        None => None,
    }
}

/// Reads a length-prefixed byte string at `pos`, copying it out.
pub fn take_bytes(bytes: &[u8], pos: usize) -> (r: Option<(Vec<u8>, usize)>)
    requires
        pos <= bytes@.len(),
    ensures
        match r {
            Some((v, np)) => {
                &&& pos < np <= bytes@.len()
                &&& parse_bytes(bytes@.skip(pos as int)) == Some((v@, bytes@.skip(np as int)))
            },
            None => parse_bytes(bytes@.skip(pos as int)) is None,
        },
{
    match take_u32(bytes, pos) {
        Some((n, np)) => {
            let n = n as usize;
            let blen = bytes.len();
            if blen - np >= n {
                let mut v: Vec<u8> = Vec::new();
                let mut i: usize = 0;
                while i < n
                    invariant
                        np + n <= blen,
                        blen == bytes@.len(),
                        i <= n,
                        v@ =~= bytes@.subrange(np as int, np as int + i as int),
                    decreases n - i,
                {
                    v.push(bytes[np + i]);
                    i = i + 1;
                }
                proof {
                    let t = bytes@.skip(pos as int);
                    assert(v@ =~= bytes@.skip(np as int).take(n as int));
                    lemma_skip_skip(bytes@, np as int, n as int);
                }
                Some((v, np + n))
            } else {
                proof {
                    assert(bytes@.skip(np as int).len() < n as int);
                }
                None
            }
        },
        None => None,
    }
}

} // verus!
