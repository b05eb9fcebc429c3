use vstd::prelude::*;

use crate::com::ErrModel;
use crate::compress::lzf_unpacked;
use crate::num::{
    be_bytes, dec_text, le_bytes, lemma_be_bytes_len, lemma_be_bytes_val, lemma_le_bytes_len,
    lemma_le_bytes_val, lemma_pow256_small, pow256, sign16, sign32, sign8,
};
use crate::protocol::rdb::{
    bump, is_digit, len14_bytes, len32_bytes, len64_bytes, len6_bytes, magic, spec_decode,
    spec_enc_str_parse, spec_head_parse, spec_len_parse, spec_lzf_parse, spec_str_parse,
    DecRes, HeadParse, LenParse, ParserView, StrParse, StreamState,
};

verus! {

/// A length under 2^6 spelled in the 6-bit class decodes back to itself,
/// taking one byte, whatever follows it.
pub proof fn lemma_length_roundtrip_6(l: u64, rest: Seq<u8>)
    requires
        l < 64,
    ensures
        spec_len_parse(len6_bytes(l) + rest) == (LenParse::Literal { value: l, used: 1 }),
{
    reveal(spec_len_parse);
    let s = len6_bytes(l) + rest;
    assert(s[0] == l as u8);
}

/// A length under 2^14 spelled in the 14-bit class decodes back to itself,
/// taking two bytes.
pub proof fn lemma_length_roundtrip_14(l: u64, rest: Seq<u8>)
    requires
        l < 16384,
    ensures
        spec_len_parse(len14_bytes(l) + rest) == (LenParse::Literal { value: l, used: 2 }),
{
    reveal(spec_len_parse);
    let s = len14_bytes(l) + rest;
    assert(s[0] == (64 + l / 256) as u8);
    assert(s[1] == (l % 256) as u8);
    assert(l / 256 * 256 + l % 256 == l);
}

/// A length under 2^32 spelled in the 32-bit class decodes back to itself,
/// taking five bytes.
pub proof fn lemma_length_roundtrip_32(l: u64, rest: Seq<u8>)
    requires
        l < 0x1_0000_0000,
    ensures
        spec_len_parse(len32_bytes(l) + rest) == (LenParse::Literal { value: l, used: 5 }),
{
    reveal(spec_len_parse);
    lemma_pow256_small();
    lemma_be_bytes_len(l as nat, 4);
    lemma_be_bytes_val(l as nat, 4);
    let s = len32_bytes(l) + rest;
    assert(s[0] == 128u8);
    assert(s.subrange(1, 5) =~= be_bytes(l as nat, 4));
}

/// Any 64-bit length spelled in the 64-bit class decodes back to itself,
/// taking nine bytes.
pub proof fn lemma_length_roundtrip_64(l: u64, rest: Seq<u8>)
    ensures
        spec_len_parse(len64_bytes(l) + rest) == (LenParse::Literal { value: l, used: 9 }),
{
    reveal(spec_len_parse);
    lemma_pow256_small();
    lemma_be_bytes_len(l as nat, 8);
    lemma_be_bytes_val(l as nat, 8);
    let s = len64_bytes(l) + rest;
    assert(s[0] == 129u8);
    assert(s.subrange(1, 9) =~= be_bytes(l as nat, 8));
}

/// The wire byte of a signed 8-bit integer.
pub open spec fn byte_of_i8(i: int) -> u8 {
    if i < 0 {
        (i + 256) as u8
    } else {
        i as u8
    }
}

/// The unsigned 16-bit pattern of a signed 16-bit integer.
pub open spec fn u16_of(i: int) -> nat {
    if i < 0 {
        (i + 0x10000) as nat
    } else {
        i as nat
    }
}

/// The unsigned 32-bit pattern of a signed 32-bit integer.
pub open spec fn u32_of(i: int) -> nat {
    if i < 0 {
        (i + 0x1_0000_0000) as nat
    } else {
        i as nat
    }
}

/// An 8-bit integer-encoded string decodes to exactly the decimal text of
/// that integer.
pub proof fn lemma_int8_string_roundtrip(i: int, rest: Seq<u8>)
    requires
        -128 <= i <= 127,
    ensures
        spec_str_parse(seq![192u8, byte_of_i8(i)] + rest) == (StrParse::Bytes {
            value: dec_text(i),
            used: 2,
        }),
{
    reveal(spec_str_parse);
    reveal(spec_len_parse);
    reveal(spec_enc_str_parse);
    let s = seq![192u8, byte_of_i8(i)] + rest;
    assert(s[0] == 192u8);
    assert(s[1] == byte_of_i8(i));
    assert(sign8(byte_of_i8(i)) == i);
}

/// A 16-bit integer-encoded string decodes to exactly the decimal text of
/// that integer.
pub proof fn lemma_int16_string_roundtrip(i: int, rest: Seq<u8>)
    requires
        -0x8000 <= i < 0x8000,
    ensures
        spec_str_parse(seq![193u8] + le_bytes(u16_of(i), 2) + rest) == (StrParse::Bytes {
            value: dec_text(i),
            used: 3,
        }),
{
    reveal(spec_str_parse);
    reveal(spec_len_parse);
    reveal(spec_enc_str_parse);
    lemma_pow256_small();
    lemma_le_bytes_len(u16_of(i), 2);
    lemma_le_bytes_val(u16_of(i), 2);
    let s = seq![193u8] + le_bytes(u16_of(i), 2) + rest;
    assert(s[0] == 193u8);
    assert(s.subrange(1, 3) =~= le_bytes(u16_of(i), 2));
    assert(sign16(u16_of(i)) == i);
}

/// A 32-bit integer-encoded string decodes to exactly the decimal text of
/// that integer.
pub proof fn lemma_int32_string_roundtrip(i: int, rest: Seq<u8>)
    requires
        -0x8000_0000 <= i < 0x8000_0000,
    ensures
        spec_str_parse(seq![194u8] + le_bytes(u32_of(i), 4) + rest) == (StrParse::Bytes {
            value: dec_text(i),
            used: 5,
        }),
{
    reveal(spec_str_parse);
    reveal(spec_len_parse);
    reveal(spec_enc_str_parse);
    lemma_pow256_small();
    lemma_le_bytes_len(u32_of(i), 4);
    lemma_le_bytes_val(u32_of(i), 4);
    let s = seq![194u8] + le_bytes(u32_of(i), 4) + rest;
    assert(s[0] == 194u8);
    assert(s.subrange(1, 5) =~= le_bytes(u32_of(i), 4));
    assert(sign32(u32_of(i)) == i);
}

/// An LZF-encoded string whose two length fields have been decoded: a
/// compressed payload shorter than declared asks for more data (never a
/// failure), and a complete one decodes to exactly what the decompressor
/// yields for the payload and the declared length, or fails as a
/// compression failure.
pub proof fn lemma_lzf_string_decode(s: Seq<u8>, clen: u64, u1: usize, ulen: u64, u2: usize)
    requires
        s.len() >= 1,
        s[0] == 195,
        spec_len_parse(s.skip(1)) == (LenParse::Literal { value: clen, used: u1 }),
        spec_len_parse(s.skip(1 + u1)) == (LenParse::Literal { value: ulen, used: u2 }),
        ulen <= usize::MAX,
    ensures
        s.len() < 1 + u1 + u2 + clen ==> spec_str_parse(s) is More,
        s.len() >= 1 + u1 + u2 + clen ==> spec_str_parse(s) == ({
            let payload = s.subrange(1 + u1 + u2, 1 + u1 + u2 + clen);
            match lzf_unpacked(payload, ulen as nat) {
                Some(b) => if b.len() == ulen {
                    StrParse::Bytes { value: b, used: (1 + u1 + u2 + clen) as nat }
                } else {
                    StrParse::Fail { err: ErrModel::CompressionFailure }
                },
                None => StrParse::Fail { err: ErrModel::CompressionFailure },
            }
        }),
{
    reveal(spec_str_parse);
    reveal(spec_len_parse);
    reveal(spec_enc_str_parse);
    reveal(spec_lzf_parse);
}

/// The four decimal digits that spell a version in the header.
pub open spec fn version_digits(v: u64) -> Seq<u8>
    recommends
        v <= 9999,
{
    seq![
        (48 + v / 1000) as u8,
        (48 + (v / 100) % 10) as u8,
        (48 + (v / 10) % 10) as u8,
        (48 + v % 10) as u8,
    ]
}

/// Every well-formed header "REDIS" plus four digits is either accepted
/// with exactly that version (when it lies in [1, 9]) or rejected as a bad
/// version, never anything else.
pub proof fn lemma_header_parse(v: u64, rest: Seq<u8>)
    requires
        v <= 9999,
    ensures
        1 <= v <= 9 ==> spec_head_parse(magic() + version_digits(v) + rest) == (
        HeadParse::Accept { version: v }),
        !(1 <= v <= 9) ==> spec_head_parse(magic() + version_digits(v) + rest) == (
        HeadParse::BadVersion { version: v }),
{
    let s = magic() + version_digits(v) + rest;
    assert(s.subrange(0, 5) =~= magic());
    assert(s[5] == (48 + v / 1000) as u8);
    assert(s[6] == (48 + (v / 100) % 10) as u8);
    assert(s[7] == (48 + (v / 10) % 10) as u8);
    assert(s[8] == (48 + v % 10) as u8);
    assert(v == 10 * (v / 10) + v % 10);
    assert(v / 10 == 10 * (v / 100) + (v / 10) % 10);
    assert(v / 100 == 10 * (v / 1000) + (v / 100) % 10);
    assert((v / 1000) * 1000 + ((v / 100) % 10) * 100 + ((v / 10) % 10) * 10 + v % 10 == v);
}

/// At the head of a stream, a valid header is consumed whole (exactly nine
/// bytes) and fixes the version; a four-digit version outside [1, 9] is a
/// fatal bad-version error that consumes nothing.
pub proof fn lemma_header_decode(ctx: ParserView, v: u64, rest: Seq<u8>)
    requires
        ctx.state is AwaitingHeader,
        v <= 9999,
    ensures
        1 <= v <= 9 ==> spec_decode(ctx, magic() + version_digits(v) + rest) == bump(
            spec_decode(
                ParserView { state: StreamState::AwaitingBody, version: v, ..ctx },
                rest,
            ),
            9,
        ),
        !(1 <= v <= 9) ==> spec_decode(ctx, magic() + version_digits(v) + rest) == (
        DecRes::Fatal { err: ErrModel::BadVersion { version: v }, ctx, used: 0 }),
{
    reveal(spec_decode);
    lemma_header_parse(v, rest);
    let s = magic() + version_digits(v) + rest;
    assert(s.skip(9) =~= rest);
}

} // verus!
