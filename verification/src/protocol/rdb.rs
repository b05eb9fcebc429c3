use vstd::prelude::*;

use crate::buffer::Buffer;
use crate::com::{BeeError, ErrModel};
use crate::compress::{lzf_decompress, lzf_unpacked};
use crate::num::{
    be_bytes, be_val, dec_text, dec_text_i64, le_bytes, le_val, lemma_be_bytes_len,
    lemma_be_bytes_val, lemma_be_val_bound, lemma_le_bytes_len, lemma_le_bytes_val,
    lemma_le_val_bound, lemma_pow256_small, pow256, push_be_bytes, push_le_bytes, read_be,
    read_le, sign16, sign32, sign64, sign8,
};

verus! {

pub const RDB_OPCODE_MODULE_AUX: u8 = 247;

pub const RDB_OPCODE_IDLE: u8 = 248;

pub const RDB_OPCODE_FREQ: u8 = 249;

pub const RDB_OPCODE_AUX: u8 = 250;

pub const RDB_OPCODE_RESIZEDB: u8 = 251;

pub const RDB_OPCODE_EXPIRETIME_MS: u8 = 252;

pub const RDB_OPCODE_EXPIRETIME: u8 = 253;

pub const RDB_OPCODE_SELECTDB: u8 = 254;

pub const RDB_OPCODE_EOF: u8 = 255;

pub const RDB_TYPE_STRING: u8 = 0;

pub const RDB_TYPE_LIST: u8 = 1;

pub const RDB_TYPE_SET: u8 = 2;

pub const RDB_TYPE_ZSET: u8 = 3;

pub const RDB_TYPE_HASH: u8 = 4;

pub const RDB_TYPE_ZSET_2: u8 = 5;

pub const RDB_TYPE_MODULE: u8 = 6;

pub const RDB_TYPE_MODULE_2: u8 = 7;

pub const RDB_TYPE_HASH_ZIPMAP: u8 = 9;

pub const RDB_TYPE_LIST_ZIPLIST: u8 = 10;

pub const RDB_TYPE_SET_INTSET: u8 = 11;

pub const RDB_TYPE_ZSET_ZIPLIST: u8 = 12;

pub const RDB_TYPE_HASH_ZIPLIST: u8 = 13;

pub const RDB_TYPE_LIST_QUICKLIST: u8 = 14;

pub const RDB_TYPE_STREAM_LISTPACKS: u8 = 15;

pub const RDB_ENC_INT8: u8 = 0;

pub const RDB_ENC_INT16: u8 = 1;

pub const RDB_ENC_INT32: u8 = 2;

pub const RDB_ENC_LZF: u8 = 3;

/// Outcome of decoding one variable-width length field.
///
/// `Literal` carries the decoded length and how many bytes it occupied.
/// `Selector` says the byte is not a length but a special string-encoding
/// selector (its low six bits); the byte is not consumed. `BadClass` is a
/// byte that selects no known length class.
#[derive(Debug, PartialEq, Eq)]
pub enum LenParse {
    More,
    Literal { value: u64, used: usize },
    Selector { sel: u8 },
    BadClass,
}

/// The variable-width length encoding: the top two bits of the first byte
/// pick a class (6-bit immediate, 14-bit big-endian pair, marker bytes for
/// 32- and 64-bit big-endian fields, or a special string-encoding selector).
#[verifier::opaque]
pub open spec fn spec_len_parse(s: Seq<u8>) -> LenParse {
    if s.len() == 0 {
        LenParse::More
    } else {
        let b0 = s[0];
        if b0 < 64 {
            LenParse::Literal { value: b0 as u64, used: 1 }
        } else if b0 < 128 {
            if s.len() < 2 {
                LenParse::More
            } else {
                LenParse::Literal { value: (((b0 - 64) * 256 + s[1]) as u64), used: 2 }
            }
        } else if b0 == 128 {
            if s.len() < 5 {
                LenParse::More
            } else {
                LenParse::Literal { value: be_val(s.subrange(1, 5)) as u64, used: 5 }
            }
        } else if b0 == 129 {
            if s.len() < 9 {
                LenParse::More
            } else {
                LenParse::Literal { value: be_val(s.subrange(1, 9)) as u64, used: 9 }
            }
        } else if b0 < 192 {
            LenParse::BadClass
        } else {
            LenParse::Selector { sel: (b0 - 192) as u8 }
        }
    }
}

/// Decode the length field that starts at relative offset `at` of the
/// unread bytes, consuming nothing.
pub fn read_length_at(buf: &Buffer, at: usize) -> (r: LenParse)
    requires
        at <= buf.rem().len(),
    ensures
        r == spec_len_parse(buf.rem().skip(at as int)),
        r matches LenParse::Literal { value, used } ==> 1 <= used && at + used <= buf.rem().len(),
        !(r is More) ==> at < buf.rem().len(),
{
    let ghost s = buf.rem().skip(at as int);
    let avail = buf.remaining() - at;
    proof {
        reveal(spec_len_parse);
        assert(s.len() == avail);
    }
    if avail == 0 {
        return LenParse::More;
    }
    let b0 = buf.get(at);
    proof {
        assert(b0 == s[0]);
    }
    if b0 < 64 {
        LenParse::Literal { value: b0 as u64, used: 1 }
    } else if b0 < 128 {
        if avail < 2 {
            LenParse::More
        } else {
            let b1 = buf.get(at + 1);
            proof {
                assert(b1 == s[1]);
            }
            LenParse::Literal { value: ((b0 - 64) as u64) * 256 + (b1 as u64), used: 2 }
        }
    } else if b0 == 128 {
        if avail < 5 {
            LenParse::More
        } else {
            let bytes = buf.read_bytes(at + 1, 4);
            let v = read_be(&bytes, 0, 4);
            proof {
                assert(bytes@.subrange(0, 4) =~= bytes@);
                assert(bytes@ =~= s.subrange(1, 5));
            }
            LenParse::Literal { value: v, used: 5 }
        }
    } else if b0 == 129 {
        if avail < 9 {
            LenParse::More
        } else {
            let bytes = buf.read_bytes(at + 1, 8);
            let v = read_be(&bytes, 0, 8);
            proof {
                assert(bytes@.subrange(0, 8) =~= bytes@);
                assert(bytes@ =~= s.subrange(1, 9));
            }
            LenParse::Literal { value: v, used: 9 }
        }
    } else if b0 < 192 {
        LenParse::BadClass
    } else {
        LenParse::Selector { sel: b0 - 192 }
    }
}

/// The one-byte spelling of a length under 2^6.
pub open spec fn len6_bytes(l: u64) -> Seq<u8>
    recommends
        l < 64,
{
    seq![l as u8]
}

/// The two-byte spelling of a length under 2^14.
pub open spec fn len14_bytes(l: u64) -> Seq<u8>
    recommends
        l < 16384,
{
    seq![(64 + l / 256) as u8, (l % 256) as u8]
}

/// The five-byte spelling of a length under 2^32.
pub open spec fn len32_bytes(l: u64) -> Seq<u8>
    recommends
        l < 0x1_0000_0000,
{
    seq![128u8] + be_bytes(l as nat, 4)
}

/// The nine-byte spelling of any 64-bit length.
pub open spec fn len64_bytes(l: u64) -> Seq<u8> {
    seq![129u8] + be_bytes(l as nat, 8)
}

/// Outcome of decoding one string field, as a mathematical value.
pub enum StrParse {
    More,
    Bytes { value: Seq<u8>, used: nat },
    Fail { err: ErrModel },
}

/// An LZF-compressed string: after the selector byte come the compressed
/// length, the uncompressed length (both length-encoded), and exactly that
/// many compressed bytes, which must decompress to exactly the declared
/// uncompressed length.
#[verifier::opaque]
pub open spec fn spec_lzf_parse(s: Seq<u8>) -> StrParse {
    match spec_len_parse(s.skip(1)) {
        LenParse::More => StrParse::More,
        LenParse::Literal { value: clen, used: u1 } => match spec_len_parse(
            s.skip(1 + u1),
        ) {
            LenParse::More => StrParse::More,
            LenParse::Literal { value: ulen, used: u2 } => {
                if s.len() < 1 + u1 + u2 + clen {
                    StrParse::More
                } else {
                    let payload = s.subrange(1 + u1 + u2, 1 + u1 + u2 + clen);
                    if ulen > usize::MAX as u64 {
                        StrParse::Fail { err: ErrModel::CompressionFailure }
                    } else {
                        match lzf_unpacked(payload, ulen as nat) {
                            Some(b) => if b.len() == ulen {
                                StrParse::Bytes { value: b, used: (1 + u1 + u2 + clen) as nat }
                            } else {
                                StrParse::Fail { err: ErrModel::CompressionFailure }
                            },
                            None => StrParse::Fail { err: ErrModel::CompressionFailure },
                        }
                    }
                }
            },
            _ => StrParse::Fail { err: ErrModel::NotNumber },
        },
        _ => StrParse::Fail { err: ErrModel::NotNumber },
    }
}

/// A special-encoded string, by the selector's low six bits: a one, two or
/// four byte little-endian signed integer whose decimal text is the string's
/// value, or an LZF-compressed string.
#[verifier::opaque]
pub open spec fn spec_enc_str_parse(sel: u8, s: Seq<u8>) -> StrParse {
    if sel == 0 {
        if s.len() < 2 {
            StrParse::More
        } else {
            StrParse::Bytes { value: dec_text(sign8(s[1])), used: 2 }
        }
    } else if sel == 1 {
        if s.len() < 3 {
            StrParse::More
        } else {
            StrParse::Bytes { value: dec_text(sign16(le_val(s.subrange(1, 3)))), used: 3 }
        }
    } else if sel == 2 {
        if s.len() < 5 {
            StrParse::More
        } else {
            StrParse::Bytes { value: dec_text(sign32(le_val(s.subrange(1, 5)))), used: 5 }
        }
    } else if sel == 3 {
        spec_lzf_parse(s)
    } else {
        StrParse::Fail { err: ErrModel::InvalidEncodingSelector { selector: sel } }
    }
}

/// One string field: a literal length followed by that many raw bytes, or a
/// special encoding.
#[verifier::opaque]
pub open spec fn spec_str_parse(s: Seq<u8>) -> StrParse {
    match spec_len_parse(s) {
        LenParse::More => StrParse::More,
        LenParse::BadClass => StrParse::Fail { err: ErrModel::NotNumber },
        LenParse::Literal { value, used } => {
            if s.len() < used + value {
                StrParse::More
            } else {
                StrParse::Bytes {
                    value: s.subrange(used as int, used + value),
                    used: (used + value) as nat,
                }
            }
        },
        LenParse::Selector { sel } => spec_enc_str_parse(sel, s),
    }
}

/// Outcome of decoding one string field.
#[derive(Debug, PartialEq, Eq)]
pub enum StrRead {
    More,
    Bytes { value: Vec<u8>, used: usize },
    Fail { err: BeeError },
}

/// The mathematical image of a string decode outcome.
pub open spec fn str_read_model(r: StrRead) -> StrParse {
    match r {
        StrRead::More => StrParse::More,
        StrRead::Bytes { value, used } => StrParse::Bytes { value: value@, used: used as nat },
        StrRead::Fail { err } => StrParse::Fail { err: err@ },
    }
}

/// Decode the LZF-compressed string whose selector byte stands at relative
/// offset `at`, consuming nothing.
fn read_string_lzf_at(buf: &Buffer, at: usize) -> (r: StrRead)
    requires
        at < buf.rem().len(),
    ensures
        str_read_model(r) == spec_lzf_parse(buf.rem().skip(at as int)),
        r matches StrRead::Bytes { value, used } ==> 1 <= used && at + used <= buf.rem().len(),
{
    let ghost s = buf.rem().skip(at as int);
    let n = buf.remaining();
    proof {
        reveal(spec_lzf_parse);
        assert(s.skip(1) =~= buf.rem().skip(at + 1));
    }
    match read_length_at(buf, at + 1) {
        LenParse::More => StrRead::More,
        LenParse::Literal { value: clen, used: u1 } => {
            proof {
                assert(s.skip(1 + u1) =~= buf.rem().skip(at + 1 + u1));
            }
            match read_length_at(buf, at + 1 + u1) {
                LenParse::More => StrRead::More,
                LenParse::Literal { value: ulen, used: u2 } => {
                    let base = at + 1 + u1 + u2;
                    let avail = n - base;
                    if clen > avail as u64 {
                        StrRead::More
                    } else {
                        let cl = clen as usize;
                        let payload = buf.read_bytes(base, cl);
                        proof {
                            assert(payload@ =~= s.subrange(1 + u1 + u2, 1 + u1 + u2 + clen));
                        }
                        if ulen > usize::MAX as u64 {
                            StrRead::Fail { err: BeeError::CompressionFailure }
                        } else {
                            match lzf_decompress(&payload, ulen as usize) {
                                Some(v) => {
                                    if v.len() as u64 == ulen {
                                        StrRead::Bytes { value: v, used: 1 + u1 + u2 + cl }
                                    } else {
                                        StrRead::Fail { err: BeeError::CompressionFailure }
                                    }
                                },
                                None => StrRead::Fail { err: BeeError::CompressionFailure },
                            }
                        }
                    }
                },
                _ => StrRead::Fail { err: BeeError::NotNumber },
            }
        },
        _ => StrRead::Fail { err: BeeError::NotNumber },
    }
}

/// Decode the special-encoded string whose selector (low six bits `sel`)
/// stands at relative offset `at`, consuming nothing.
pub fn read_string_enc_at(buf: &Buffer, at: usize, sel: u8) -> (r: StrRead)
    requires
        at < buf.rem().len(),
    ensures
        str_read_model(r) == spec_enc_str_parse(sel, buf.rem().skip(at as int)),
        r matches StrRead::Bytes { value, used } ==> 1 <= used && at + used <= buf.rem().len(),
{
    let ghost s = buf.rem().skip(at as int);
    proof {
        reveal(spec_enc_str_parse);
    }
    let n = buf.remaining();
    let avail = n - at;
    if sel == RDB_ENC_INT8 {
        if avail < 2 {
            StrRead::More
        } else {
            let b = buf.get(at + 1);
            proof {
                assert(b == s[1]);
            }
            let v: i64 = if b >= 128 {
                (b as i64) - 256
            } else {
                b as i64
            };
            proof {
                assert(v as int == sign8(b));
            }
            StrRead::Bytes { value: dec_text_i64(v), used: 2 }
        }
    } else if sel == RDB_ENC_INT16 {
        if avail < 3 {
            StrRead::More
        } else {
            let bytes = buf.read_bytes(at + 1, 2);
            let u = read_le(&bytes, 0, 2);
            proof {
                assert(bytes@.subrange(0, 2) =~= bytes@);
                assert(bytes@ =~= s.subrange(1, 3));
                lemma_le_val_bound(bytes@);
                lemma_pow256_small();
            }
            let v: i64 = if u >= 0x8000 {
                (u as i64) - 0x10000
            } else {
                u as i64
            };
            proof {
                assert(v as int == sign16(le_val(s.subrange(1, 3))));
            }
            StrRead::Bytes { value: dec_text_i64(v), used: 3 }
        }
    } else if sel == RDB_ENC_INT32 {
        if avail < 5 {
            StrRead::More
        } else {
            let bytes = buf.read_bytes(at + 1, 4);
            let u = read_le(&bytes, 0, 4);
            proof {
                assert(bytes@.subrange(0, 4) =~= bytes@);
                assert(bytes@ =~= s.subrange(1, 5));
                lemma_le_val_bound(bytes@);
                lemma_pow256_small();
            }
            let v: i64 = if u >= 0x8000_0000 {
                (u as i64) - 0x1_0000_0000
            } else {
                u as i64
            };
            proof {
                assert(v as int == sign32(le_val(s.subrange(1, 5))));
            }
            StrRead::Bytes { value: dec_text_i64(v), used: 5 }
        }
    } else if sel == RDB_ENC_LZF {
        read_string_lzf_at(buf, at)
    } else {
        StrRead::Fail { err: BeeError::InvalidEncodingSelector { selector: sel } }
    }
}

/// Decode the string field that starts at relative offset `at` of the
/// unread bytes, consuming nothing.
pub fn read_string_at(buf: &Buffer, at: usize) -> (r: StrRead)
    requires
        at <= buf.rem().len(),
    ensures
        str_read_model(r) == spec_str_parse(buf.rem().skip(at as int)),
        r matches StrRead::Bytes { value, used } ==> 1 <= used && at + used <= buf.rem().len(),
{
    let ghost s = buf.rem().skip(at as int);
    proof {
        reveal(spec_str_parse);
    }
    let n = buf.remaining();
    match read_length_at(buf, at) {
        LenParse::More => StrRead::More,
        LenParse::BadClass => StrRead::Fail { err: BeeError::NotNumber },
        LenParse::Literal { value, used } => {
            let avail = n - at - used;
            if value > avail as u64 {
                StrRead::More
            } else {
                let vl = value as usize;
                let bytes = buf.read_bytes(at + used, vl);
                proof {
                    assert(bytes@ =~= s.subrange(used as int, used + value));
                }
                StrRead::Bytes { value: bytes, used: used + vl }
            }
        },
        LenParse::Selector { sel } => {
            proof {
                assert(s.len() > 0);
            }
            read_string_enc_at(buf, at, sel)
        },
    }
}

/// Outcome of decoding a run of items, as a mathematical value.
pub enum ItemsParse<T> {
    More,
    Fail { err: ErrModel },
    Done { items: Seq<T>, used: nat },
}

/// Prepend one decoded item (and the bytes it took) to a later outcome.
pub open spec fn items_prepend<T>(first: T, used0: nat, r: ItemsParse<T>) -> ItemsParse<T> {
    match r {
        ItemsParse::More => ItemsParse::More,
        ItemsParse::Fail { err } => ItemsParse::Fail { err },
        ItemsParse::Done { items, used } => ItemsParse::Done {
            items: seq![first] + items,
            used: used0 + used,
        },
    }
}

/// Prepend a run of already-decoded items to a later outcome.
pub open spec fn items_wrap<T>(pre: Seq<T>, used0: nat, r: ItemsParse<T>) -> ItemsParse<T> {
    match r {
        ItemsParse::More => ItemsParse::More,
        ItemsParse::Fail { err } => ItemsParse::Fail { err },
        ItemsParse::Done { items, used } => ItemsParse::Done {
            items: pre + items,
            used: used0 + used,
        },
    }
}

pub proof fn lemma_items_wrap_unit<T>(r: ItemsParse<T>)
    ensures
        items_wrap(Seq::<T>::empty(), 0, r) == r,
{
    match r {
        ItemsParse::Done { items, used } => {
            assert(Seq::<T>::empty() + items =~= items);
        },
        _ => {},
    }
}

pub proof fn lemma_items_wrap_step<T>(pre: Seq<T>, u0: nat, first: T, u1: nat, r: ItemsParse<T>)
    ensures
        items_wrap(pre, u0, items_prepend(first, u1, r)) == items_wrap(
            pre.push(first),
            u0 + u1,
            r,
        ),
{
    match r {
        ItemsParse::Done { items, used } => {
            assert(pre + (seq![first] + items) =~= pre.push(first) + items);
        },
        _ => {},
    }
}

/// `n` consecutive string fields.
pub open spec fn spec_n_strings(s: Seq<u8>, n: nat) -> ItemsParse<Seq<u8>>
    decreases n,
{
    if n == 0 {
        ItemsParse::Done { items: Seq::empty(), used: 0 }
    } else {
        match spec_str_parse(s) {
            StrParse::More => ItemsParse::More,
            StrParse::Fail { err } => ItemsParse::Fail { err },
            StrParse::Bytes { value, used } => items_prepend(
                value,
                used,
                spec_n_strings(s.skip(used as int), (n - 1) as nat),
            ),
        }
    }
}

/// `n` consecutive field/value string pairs.
pub open spec fn spec_n_kv(s: Seq<u8>, n: nat) -> ItemsParse<(Seq<u8>, Seq<u8>)>
    decreases n,
{
    if n == 0 {
        ItemsParse::Done { items: Seq::empty(), used: 0 }
    } else {
        match spec_str_parse(s) {
            StrParse::More => ItemsParse::More,
            StrParse::Fail { err } => ItemsParse::Fail { err },
            StrParse::Bytes { value: k, used: uk } => match spec_str_parse(s.skip(uk as int)) {
                StrParse::More => ItemsParse::More,
                StrParse::Fail { err } => ItemsParse::Fail { err },
                StrParse::Bytes { value: v, used: uv } => items_prepend(
                    (k, v),
                    uk + uv,
                    spec_n_kv(s.skip((uk + uv) as int), (n - 1) as nat),
                ),
            },
        }
    }
}

/// A textual sorted-set score: one length byte, with single-byte markers
/// for minus infinity, infinity and not-a-number, else that many bytes of
/// decimal text.
pub enum ScoreParse {
    More,
    Val { text: Seq<u8>, used: nat },
}

#[verifier::opaque]
pub open spec fn spec_score_parse(s: Seq<u8>) -> ScoreParse {
    if s.len() == 0 {
        ScoreParse::More
    } else {
        let b = s[0];
        if b == 255 {
            ScoreParse::Val { text: seq![45u8, 105u8, 110u8, 102u8], used: 1 }
        } else if b == 254 {
            ScoreParse::Val { text: seq![105u8, 110u8, 102u8], used: 1 }
        } else if b == 253 {
            ScoreParse::Val { text: seq![110u8, 97u8, 110u8], used: 1 }
        } else if s.len() < 1 + b {
            ScoreParse::More
        } else {
            ScoreParse::Val { text: s.subrange(1, 1 + b), used: (1 + b) as nat }
        }
    }
}

/// `n` consecutive member/score pairs with textual scores.
pub open spec fn spec_n_zpairs(s: Seq<u8>, n: nat) -> ItemsParse<(Seq<u8>, Seq<u8>)>
    decreases n,
{
    if n == 0 {
        ItemsParse::Done { items: Seq::empty(), used: 0 }
    } else {
        match spec_str_parse(s) {
            StrParse::More => ItemsParse::More,
            StrParse::Fail { err } => ItemsParse::Fail { err },
            StrParse::Bytes { value: m, used: um } => match spec_score_parse(s.skip(um as int)) {
                ScoreParse::More => ItemsParse::More,
                ScoreParse::Val { text, used: us } => items_prepend(
                    (m, text),
                    um + us,
                    spec_n_zpairs(s.skip((um + us) as int), (n - 1) as nat),
                ),
            },
        }
    }
}

/// `n` consecutive member/score pairs with raw 8-byte little-endian binary
/// scores, kept as their bit pattern.
pub open spec fn spec_n_z2pairs(s: Seq<u8>, n: nat) -> ItemsParse<(Seq<u8>, u64)>
    decreases n,
{
    if n == 0 {
        ItemsParse::Done { items: Seq::empty(), used: 0 }
    } else {
        match spec_str_parse(s) {
            StrParse::More => ItemsParse::More,
            StrParse::Fail { err } => ItemsParse::Fail { err },
            StrParse::Bytes { value: m, used: um } => {
                if s.len() < um + 8 {
                    ItemsParse::More
                } else {
                    items_prepend(
                        (m, le_val(s.subrange(um as int, um + 8 as int)) as u64),
                        um + 8,
                        spec_n_z2pairs(s.skip(um + 8 as int), (n - 1) as nat),
                    )
                }
            },
        }
    }
}

/// The signed element at index `i` of a packed integer set.
pub open spec fn intset_elem(blob: Seq<u8>, w: nat, i: int) -> int {
    let raw = le_val(blob.subrange(8 + w * i, 8 + w * i + w));
    if w == 2 {
        sign16(raw)
    } else if w == 4 {
        sign32(raw)
    } else {
        sign64(raw)
    }
}

/// A packed integer set: a 4-byte little-endian element width (2, 4 or 8),
/// a 4-byte little-endian element count, then that many little-endian
/// signed integers, each rendered as its decimal text. A blob whose header
/// does not describe its contents yields nothing.
pub open spec fn spec_intset(blob: Seq<u8>) -> Option<Seq<Seq<u8>>> {
    if blob.len() < 8 {
        None
    } else {
        let w = le_val(blob.subrange(0, 4));
        let n = le_val(blob.subrange(4, 8));
        if (w == 2 || w == 4 || w == 8) && blob.len() == 8 + n * w {
            Some(Seq::new(n, |i: int| dec_text(intset_elem(blob, w, i))))
        } else {
            None
        }
    }
}

/// A decoded value payload, as a mathematical value.
pub enum ValModel {
    Raw(Seq<u8>),
    List(Seq<Seq<u8>>),
    SetVal(Seq<Seq<u8>>),
    ZSet(Seq<(Seq<u8>, Seq<u8>)>),
    ZSet2(Seq<(Seq<u8>, u64)>),
    Hash(Seq<(Seq<u8>, Seq<u8>)>),
}

/// Outcome of decoding one value payload, as a mathematical value.
pub enum ObjParse {
    More,
    Fail { err: ErrModel },
    Done { val: ValModel, used: nat },
}

/// One value payload, dispatched on its type tag. Tags without a full
/// decoder here (modules, streams, the packed single-string container
/// formats) fail as unsupported rather than guessing a length.
#[verifier::opaque]
pub open spec fn spec_obj_parse(tag: u8, s: Seq<u8>) -> ObjParse {
    if tag == RDB_TYPE_STRING {
        match spec_str_parse(s) {
            StrParse::More => ObjParse::More,
            StrParse::Fail { err } => ObjParse::Fail { err },
            StrParse::Bytes { value, used } => ObjParse::Done { val: ValModel::Raw(value), used },
        }
    } else if tag == RDB_TYPE_LIST || tag == RDB_TYPE_SET {
        match spec_len_parse(s) {
            LenParse::More => ObjParse::More,
            LenParse::Literal { value: n, used: u } => match spec_n_strings(
                s.skip(u as int),
                n as nat,
            ) {
                ItemsParse::More => ObjParse::More,
                ItemsParse::Fail { err } => ObjParse::Fail { err },
                ItemsParse::Done { items, used: u2 } => ObjParse::Done {
                    val: if tag == RDB_TYPE_LIST {
                        ValModel::List(items)
                    } else {
                        ValModel::SetVal(items)
                    },
                    used: (u + u2) as nat,
                },
            },
            _ => ObjParse::Fail { err: ErrModel::NotNumber },
        }
    } else if tag == RDB_TYPE_ZSET {
        match spec_len_parse(s) {
            LenParse::More => ObjParse::More,
            LenParse::Literal { value: n, used: u } => match spec_n_zpairs(
                s.skip(u as int),
                n as nat,
            ) {
                ItemsParse::More => ObjParse::More,
                ItemsParse::Fail { err } => ObjParse::Fail { err },
                ItemsParse::Done { items, used: u2 } => ObjParse::Done {
                    val: ValModel::ZSet(items),
                    used: (u + u2) as nat,
                },
            },
            _ => ObjParse::Fail { err: ErrModel::NotNumber },
        }
    } else if tag == RDB_TYPE_ZSET_2 {
        match spec_len_parse(s) {
            LenParse::More => ObjParse::More,
            LenParse::Literal { value: n, used: u } => match spec_n_z2pairs(
                s.skip(u as int),
                n as nat,
            ) {
                ItemsParse::More => ObjParse::More,
                ItemsParse::Fail { err } => ObjParse::Fail { err },
                ItemsParse::Done { items, used: u2 } => ObjParse::Done {
                    val: ValModel::ZSet2(items),
                    used: (u + u2) as nat,
                },
            },
            _ => ObjParse::Fail { err: ErrModel::NotNumber },
        }
    } else if tag == RDB_TYPE_HASH {
        match spec_len_parse(s) {
            LenParse::More => ObjParse::More,
            LenParse::Literal { value: n, used: u } => match spec_n_kv(s.skip(u as int), n as nat) {
                ItemsParse::More => ObjParse::More,
                ItemsParse::Fail { err } => ObjParse::Fail { err },
                ItemsParse::Done { items, used: u2 } => ObjParse::Done {
                    val: ValModel::Hash(items),
                    used: (u + u2) as nat,
                },
            },
            _ => ObjParse::Fail { err: ErrModel::NotNumber },
        }
    } else if tag == RDB_TYPE_SET_INTSET {
        match spec_str_parse(s) {
            StrParse::More => ObjParse::More,
            StrParse::Fail { err } => ObjParse::Fail { err },
            StrParse::Bytes { value: blob, used } => match spec_intset(blob) {
                Some(items) => ObjParse::Done { val: ValModel::SetVal(items), used },
                None => ObjParse::Fail {
                    err: ErrModel::InvalidEncodingSelector {
                        selector: if blob.len() >= 1 {
                            blob[0]
                        } else {
                            0
                        },
                    },
                },
            },
        }
    } else {
        ObjParse::Fail { err: ErrModel::UnsupportedFeature { tag } }
    }
}

/// One member/score pair of a sorted set whose score is decimal text as
/// encoded (including "inf", "-inf" and "nan").
#[derive(Debug, PartialEq, Eq, Clone)]
pub struct ZSetPair {
    pub member: Vec<u8>,
    pub score: Vec<u8>,
}

/// One member/score pair of a sorted set whose score came as a raw 8-byte
/// little-endian binary value, kept as its bit pattern.
#[derive(Debug, PartialEq, Eq, Clone)]
pub struct ZSetPair2 {
    pub member: Vec<u8>,
    pub score_bits: u64,
}

/// A decoded value: a scalar byte string or one of the container kinds.
/// Collections keep the order and the duplicates of the source stream.
#[derive(Debug, PartialEq, Eq, Clone)]
pub enum RedisObject {
    Raw(Vec<u8>),
    List(Vec<Vec<u8>>),
    SetVal(Vec<Vec<u8>>),
    ZSet(Vec<ZSetPair>),
    ZSet2(Vec<ZSetPair2>),
    Hash(Vec<(Vec<u8>, Vec<u8>)>),
}

pub open spec fn bytes_view(s: Seq<Vec<u8>>) -> Seq<Seq<u8>> {
    s.map_values(|v: Vec<u8>| v@)
}

pub open spec fn zpairs_view(s: Seq<ZSetPair>) -> Seq<(Seq<u8>, Seq<u8>)> {
    s.map_values(|p: ZSetPair| (p.member@, p.score@))
}

pub open spec fn z2pairs_view(s: Seq<ZSetPair2>) -> Seq<(Seq<u8>, u64)> {
    s.map_values(|p: ZSetPair2| (p.member@, p.score_bits))
}

pub open spec fn kv_view(s: Seq<(Vec<u8>, Vec<u8>)>) -> Seq<(Seq<u8>, Seq<u8>)> {
    s.map_values(|p: (Vec<u8>, Vec<u8>)| (p.0@, p.1@))
}

impl View for RedisObject {
    type V = ValModel;

    open spec fn view(&self) -> ValModel {
        match self {
            RedisObject::Raw(v) => ValModel::Raw(v@),
            RedisObject::List(v) => ValModel::List(bytes_view(v@)),
            RedisObject::SetVal(v) => ValModel::SetVal(bytes_view(v@)),
            RedisObject::ZSet(v) => ValModel::ZSet(zpairs_view(v@)),
            RedisObject::ZSet2(v) => ValModel::ZSet2(z2pairs_view(v@)),
            RedisObject::Hash(v) => ValModel::Hash(kv_view(v@)),
        }
    }
}

/// Outcome of decoding a run of items.
#[derive(Debug, PartialEq, Eq)]
pub enum ItemsRead<T> {
    More,
    Fail { err: BeeError },
    Done { items: Vec<T>, used: usize },
}

pub open spec fn strs_read_model(r: ItemsRead<Vec<u8>>) -> ItemsParse<Seq<u8>> {
    match r {
        ItemsRead::More => ItemsParse::More,
        ItemsRead::Fail { err } => ItemsParse::Fail { err: err@ },
        ItemsRead::Done { items, used } => ItemsParse::Done {
            items: bytes_view(items@),
            used: used as nat,
        },
    }
}

pub open spec fn zp_read_model(r: ItemsRead<ZSetPair>) -> ItemsParse<(Seq<u8>, Seq<u8>)> {
    match r {
        ItemsRead::More => ItemsParse::More,
        ItemsRead::Fail { err } => ItemsParse::Fail { err: err@ },
        ItemsRead::Done { items, used } => ItemsParse::Done {
            items: zpairs_view(items@),
            used: used as nat,
        },
    }
}

pub open spec fn z2_read_model(r: ItemsRead<ZSetPair2>) -> ItemsParse<(Seq<u8>, u64)> {
    match r {
        ItemsRead::More => ItemsParse::More,
        ItemsRead::Fail { err } => ItemsParse::Fail { err: err@ },
        ItemsRead::Done { items, used } => ItemsParse::Done {
            items: z2pairs_view(items@),
            used: used as nat,
        },
    }
}

pub open spec fn kv_read_model(r: ItemsRead<(Vec<u8>, Vec<u8>)>) -> ItemsParse<(Seq<u8>, Seq<u8>)> {
    match r {
        ItemsRead::More => ItemsParse::More,
        ItemsRead::Fail { err } => ItemsParse::Fail { err: err@ },
        ItemsRead::Done { items, used } => ItemsParse::Done {
            items: kv_view(items@),
            used: used as nat,
        },
    }
}

/// Decode `n` consecutive string fields starting at relative offset `at`,
/// consuming nothing.
#[verifier::rlimit(100)]
pub fn read_n_strings(buf: &Buffer, at: usize, n: u64) -> (r: ItemsRead<Vec<u8>>)
    requires
        at <= buf.rem().len(),
    ensures
        strs_read_model(r) == spec_n_strings(buf.rem().skip(at as int), n as nat),
        r matches ItemsRead::Done { items, used } ==> at + used <= buf.rem().len(),
{
    let ghost s0 = buf.rem().skip(at as int);
    let total = buf.remaining();
    let mut items: Vec<Vec<u8>> = Vec::new();
    let mut used: usize = 0;
    let mut i: u64 = 0;
    proof {
        assert(bytes_view(items@) =~= Seq::<Seq<u8>>::empty());
        lemma_items_wrap_unit(spec_n_strings(s0, n as nat));
        assert(buf.rem().skip(at + used) =~= s0);
    }
    while i < n
        invariant
            i <= n,
            at + used <= total,
            total == buf.rem().len(),
            s0 == buf.rem().skip(at as int),
            spec_n_strings(s0, n as nat) == items_wrap(
                bytes_view(items@),
                used as nat,
                spec_n_strings(buf.rem().skip(at + used), (n - i) as nat),
            ),
        decreases n - i,
    {
        let ghost scur = buf.rem().skip(at + used);
        match read_string_at(buf, at + used) {
            StrRead::More => {
                proof {
                    assert(spec_n_strings(scur, (n - i) as nat) is More);
                }
                return ItemsRead::More;
            },
            StrRead::Fail { err } => {
                proof {
                    assert(spec_n_strings(scur, (n - i) as nat) == ItemsParse::<Seq<u8>>::Fail {
                        err: err@,
                    });
                }
                return ItemsRead::Fail { err };
            },
            StrRead::Bytes { value, used: u } => {
                proof {
                    assert(spec_str_parse(scur) == StrParse::Bytes {
                        value: value@,
                        used: u as nat,
                    });
                    assert(spec_n_strings(scur, (n - i) as nat) == items_prepend(
                        value@,
                        u as nat,
                        spec_n_strings(scur.skip(u as int), (n - i - 1) as nat),
                    ));
                    assert(scur.skip(u as int) =~= buf.rem().skip(at + used + u));
                    lemma_items_wrap_step(
                        bytes_view(items@),
                        used as nat,
                        value@,
                        u as nat,
                        spec_n_strings(buf.rem().skip(at + used + u), (n - i - 1) as nat),
                    );
                    assert(bytes_view(items@.push(value)) =~= bytes_view(items@).push(value@));
                }
                items.push(value);
                used = used + u;
                i = i + 1;
            },
        }
    }
    proof {
        assert(bytes_view(items@) + Seq::<Seq<u8>>::empty() =~= bytes_view(items@));
    }
    ItemsRead::Done { items, used }
}

/// Outcome of decoding one textual sorted-set score.
#[derive(Debug, PartialEq, Eq)]
pub enum ScoreRead {
    More,
    Val { text: Vec<u8>, used: usize },
}

pub open spec fn score_read_model(r: ScoreRead) -> ScoreParse {
    match r {
        ScoreRead::More => ScoreParse::More,
        ScoreRead::Val { text, used } => ScoreParse::Val { text: text@, used: used as nat },
    }
}

/// Decode the textual score field at relative offset `at`, consuming
/// nothing.
pub fn read_score_at(buf: &Buffer, at: usize) -> (r: ScoreRead)
    requires
        at <= buf.rem().len(),
    ensures
        score_read_model(r) == spec_score_parse(buf.rem().skip(at as int)),
        r matches ScoreRead::Val { text, used } ==> 1 <= used && at + used <= buf.rem().len(),
{
    let ghost s = buf.rem().skip(at as int);
    proof {
        reveal(spec_score_parse);
    }
    let n = buf.remaining();
    let avail = n - at;
    if avail == 0 {
        return ScoreRead::More;
    }
    let b = buf.get(at);
    proof {
        assert(b == s[0]);
    }
    if b == 255 {
        let mut t: Vec<u8> = Vec::new();
        t.push(45);
        t.push(105);
        t.push(110);
        t.push(102);
        proof {
            assert(t@ =~= seq![45u8, 105u8, 110u8, 102u8]);
        }
        ScoreRead::Val { text: t, used: 1 }
    } else if b == 254 {
        let mut t: Vec<u8> = Vec::new();
        t.push(105);
        t.push(110);
        t.push(102);
        proof {
            assert(t@ =~= seq![105u8, 110u8, 102u8]);
        }
        ScoreRead::Val { text: t, used: 1 }
    } else if b == 253 {
        let mut t: Vec<u8> = Vec::new();
        t.push(110);
        t.push(97);
        t.push(110);
        proof {
            assert(t@ =~= seq![110u8, 97u8, 110u8]);
        }
        ScoreRead::Val { text: t, used: 1 }
    } else {
        let bl = b as usize;
        if avail < 1 + bl {
            ScoreRead::More
        } else {
            let t = buf.read_bytes(at + 1, bl);
            proof {
                assert(t@ =~= s.subrange(1, 1 + b));
            }
            ScoreRead::Val { text: t, used: 1 + bl }
        }
    }
}

/// Decode `n` consecutive member/score pairs (textual scores) starting at
/// relative offset `at`, consuming nothing.
#[verifier::rlimit(100)]
pub fn read_n_zpairs(buf: &Buffer, at: usize, n: u64) -> (r: ItemsRead<ZSetPair>)
    requires
        at <= buf.rem().len(),
    ensures
        zp_read_model(r) == spec_n_zpairs(buf.rem().skip(at as int), n as nat),
        r matches ItemsRead::Done { items, used } ==> at + used <= buf.rem().len(),
{
    let ghost s0 = buf.rem().skip(at as int);
    let total = buf.remaining();
    let mut items: Vec<ZSetPair> = Vec::new();
    let mut used: usize = 0;
    let mut i: u64 = 0;
    proof {
        assert(zpairs_view(items@) =~= Seq::<(Seq<u8>, Seq<u8>)>::empty());
        lemma_items_wrap_unit(spec_n_zpairs(s0, n as nat));
        assert(buf.rem().skip(at + used) =~= s0);
    }
    while i < n
        invariant
            i <= n,
            at + used <= total,
            total == buf.rem().len(),
            s0 == buf.rem().skip(at as int),
            spec_n_zpairs(s0, n as nat) == items_wrap(
                zpairs_view(items@),
                used as nat,
                spec_n_zpairs(buf.rem().skip(at + used), (n - i) as nat),
            ),
        decreases n - i,
    {
        let ghost scur = buf.rem().skip(at + used);
        match read_string_at(buf, at + used) {
            StrRead::More => {
                proof {
                    assert(spec_n_zpairs(scur, (n - i) as nat) is More);
                }
                return ItemsRead::More;
            },
            StrRead::Fail { err } => {
                proof {
                    assert(spec_n_zpairs(scur, (n - i) as nat)
                        == ItemsParse::<(Seq<u8>, Seq<u8>)>::Fail { err: err@ });
                }
                return ItemsRead::Fail { err };
            },
            StrRead::Bytes { value: member, used: um } => {
                proof {
                    assert(spec_str_parse(scur) == StrParse::Bytes {
                        value: member@,
                        used: um as nat,
                    });
                    assert(scur.skip(um as int) =~= buf.rem().skip(at + used + um));
                }
                match read_score_at(buf, at + used + um) {
                    ScoreRead::More => {
                        proof {
                            assert(spec_n_zpairs(scur, (n - i) as nat) is More);
                        }
                        return ItemsRead::More;
                    },
                    ScoreRead::Val { text, used: us } => {
                        proof {
                            assert(spec_score_parse(scur.skip(um as int)) == ScoreParse::Val {
                                text: text@,
                                used: us as nat,
                            });
                            assert(spec_n_zpairs(scur, (n - i) as nat) == items_prepend(
                                (member@, text@),
                                (um + us) as nat,
                                spec_n_zpairs(
                                    scur.skip((um + us) as int),
                                    (n - i - 1) as nat,
                                ),
                            ));
                            assert(scur.skip(um + us) =~= buf.rem().skip(
                                at + used + um + us,
                            ));
                            lemma_items_wrap_step(
                                zpairs_view(items@),
                                used as nat,
                                (member@, text@),
                                (um + us) as nat,
                                spec_n_zpairs(
                                    buf.rem().skip(at + used + um + us),
                                    (n - i - 1) as nat,
                                ),
                            );
                        }
                        let pair = ZSetPair { member, score: text };
                        proof {
                            assert(zpairs_view(items@.push(pair)) =~= zpairs_view(
                                items@,
                            ).push((pair.member@, pair.score@)));
                        }
                        items.push(pair);
                        used = used + um + us;
                        i = i + 1;
                    },
                }
            },
        }
    }
    proof {
        assert(zpairs_view(items@) + Seq::<(Seq<u8>, Seq<u8>)>::empty() =~= zpairs_view(items@));
    }
    ItemsRead::Done { items, used }
}

/// Decode `n` consecutive member/score pairs (binary scores) starting at
/// relative offset `at`, consuming nothing.
#[verifier::rlimit(100)]
pub fn read_n_z2pairs(buf: &Buffer, at: usize, n: u64) -> (r: ItemsRead<ZSetPair2>)
    requires
        at <= buf.rem().len(),
    ensures
        z2_read_model(r) == spec_n_z2pairs(buf.rem().skip(at as int), n as nat),
        r matches ItemsRead::Done { items, used } ==> at + used <= buf.rem().len(),
{
    let ghost s0 = buf.rem().skip(at as int);
    let mut items: Vec<ZSetPair2> = Vec::new();
    let mut used: usize = 0;
    let mut i: u64 = 0;
    let total = buf.remaining();
    proof {
        assert(z2pairs_view(items@) =~= Seq::<(Seq<u8>, u64)>::empty());
        lemma_items_wrap_unit(spec_n_z2pairs(s0, n as nat));
        assert(buf.rem().skip(at + used) =~= s0);
    }
    while i < n
        invariant
            i <= n,
            at + used <= buf.rem().len(),
            total == buf.rem().len(),
            s0 == buf.rem().skip(at as int),
            spec_n_z2pairs(s0, n as nat) == items_wrap(
                z2pairs_view(items@),
                used as nat,
                spec_n_z2pairs(buf.rem().skip(at + used), (n - i) as nat),
            ),
        decreases n - i,
    {
        let ghost scur = buf.rem().skip(at + used);
        match read_string_at(buf, at + used) {
            StrRead::More => {
                proof {
                    assert(spec_n_z2pairs(scur, (n - i) as nat) is More);
                }
                return ItemsRead::More;
            },
            StrRead::Fail { err } => {
                proof {
                    assert(spec_n_z2pairs(scur, (n - i) as nat)
                        == ItemsParse::<(Seq<u8>, u64)>::Fail { err: err@ });
                }
                return ItemsRead::Fail { err };
            },
            StrRead::Bytes { value: member, used: um } => {
                proof {
                    assert(spec_str_parse(scur) == StrParse::Bytes {
                        value: member@,
                        used: um as nat,
                    });
                }
                if total - (at + used + um) < 8 {
                    proof {
                        assert(scur.len() < um + 8);
                        assert(spec_n_z2pairs(scur, (n - i) as nat) is More);
                    }
                    return ItemsRead::More;
                }
                let bytes = buf.read_bytes(at + used + um, 8);
                let bits = read_le(&bytes, 0, 8);
                proof {
                    assert(bytes@.subrange(0, 8) =~= bytes@);
                    assert(bytes@ =~= scur.subrange(um as int, um + 8));
                    lemma_le_val_bound(bytes@);
                    lemma_pow256_small();
                    assert(spec_n_z2pairs(scur, (n - i) as nat) == items_prepend(
                        (member@, le_val(scur.subrange(um as int, um + 8 as int)) as u64),
                        (um + 8) as nat,
                        spec_n_z2pairs(scur.skip(um + 8 as int), (n - i - 1) as nat),
                    ));
                    assert(scur.skip(um + 8) =~= buf.rem().skip(at + used + um + 8));
                    lemma_items_wrap_step(
                        z2pairs_view(items@),
                        used as nat,
                        (member@, bits),
                        (um + 8) as nat,
                        spec_n_z2pairs(buf.rem().skip(at + used + um + 8), (n - i - 1) as nat),
                    );
                }
                let pair = ZSetPair2 { member, score_bits: bits };
                proof {
                    assert(z2pairs_view(items@.push(pair)) =~= z2pairs_view(items@).push(
                        (pair.member@, pair.score_bits),
                    ));
                }
                items.push(pair);
                used = used + um + 8;
                i = i + 1;
            },
        }
    }
    proof {
        assert(z2pairs_view(items@) + Seq::<(Seq<u8>, u64)>::empty() =~= z2pairs_view(items@));
    }
    ItemsRead::Done { items, used }
}

/// Decode `n` consecutive field/value string pairs starting at relative
/// offset `at`, consuming nothing.
#[verifier::rlimit(100)]
pub fn read_n_kv(buf: &Buffer, at: usize, n: u64) -> (r: ItemsRead<(Vec<u8>, Vec<u8>)>)
    requires
        at <= buf.rem().len(),
    ensures
        kv_read_model(r) == spec_n_kv(buf.rem().skip(at as int), n as nat),
        r matches ItemsRead::Done { items, used } ==> at + used <= buf.rem().len(),
{
    let ghost s0 = buf.rem().skip(at as int);
    let total = buf.remaining();
    let mut items: Vec<(Vec<u8>, Vec<u8>)> = Vec::new();
    let mut used: usize = 0;
    let mut i: u64 = 0;
    proof {
        assert(kv_view(items@) =~= Seq::<(Seq<u8>, Seq<u8>)>::empty());
        lemma_items_wrap_unit(spec_n_kv(s0, n as nat));
        assert(buf.rem().skip(at + used) =~= s0);
    }
    while i < n
        invariant
            i <= n,
            at + used <= total,
            total == buf.rem().len(),
            s0 == buf.rem().skip(at as int),
            spec_n_kv(s0, n as nat) == items_wrap(
                kv_view(items@),
                used as nat,
                spec_n_kv(buf.rem().skip(at + used), (n - i) as nat),
            ),
        decreases n - i,
    {
        let ghost scur = buf.rem().skip(at + used);
        match read_string_at(buf, at + used) {
            StrRead::More => {
                proof {
                    assert(spec_n_kv(scur, (n - i) as nat) is More);
                }
                return ItemsRead::More;
            },
            StrRead::Fail { err } => {
                proof {
                    assert(spec_n_kv(scur, (n - i) as nat)
                        == ItemsParse::<(Seq<u8>, Seq<u8>)>::Fail { err: err@ });
                }
                return ItemsRead::Fail { err };
            },
            StrRead::Bytes { value: k, used: uk } => {
                proof {
                    assert(spec_str_parse(scur) == StrParse::Bytes {
                        value: k@,
                        used: uk as nat,
                    });
                    assert(scur.skip(uk as int) =~= buf.rem().skip(at + used + uk));
                }
                match read_string_at(buf, at + used + uk) {
                    StrRead::More => {
                        proof {
                            assert(spec_n_kv(scur, (n - i) as nat) is More);
                        }
                        return ItemsRead::More;
                    },
                    StrRead::Fail { err } => {
                        proof {
                            assert(spec_str_parse(scur.skip(uk as int))
                                == StrParse::Fail { err: err@ });
                            assert(spec_n_kv(scur, (n - i) as nat)
                                == ItemsParse::<(Seq<u8>, Seq<u8>)>::Fail { err: err@ });
                        }
                        return ItemsRead::Fail { err };
                    },
                    StrRead::Bytes { value: v, used: uv } => {
                        proof {
                            assert(spec_str_parse(scur.skip(uk as int)) == StrParse::Bytes {
                                value: v@,
                                used: uv as nat,
                            });
                            assert(spec_n_kv(scur, (n - i) as nat) == items_prepend(
                                (k@, v@),
                                (uk + uv) as nat,
                                spec_n_kv(scur.skip((uk + uv) as int), (n - i - 1) as nat),
                            ));
                            assert(scur.skip(uk + uv) =~= buf.rem().skip(
                                at + used + uk + uv,
                            ));
                            lemma_items_wrap_step(
                                kv_view(items@),
                                used as nat,
                                (k@, v@),
                                (uk + uv) as nat,
                                spec_n_kv(buf.rem().skip(at + used + uk + uv), (n - i - 1) as nat),
                            );
                        }
                        let pair = (k, v);
                        proof {
                            assert(kv_view(items@.push(pair)) =~= kv_view(items@).push(
                                (pair.0@, pair.1@),
                            ));
                        }
                        items.push(pair);
                        used = used + uk + uv;
                        i = i + 1;
                    },
                }
            },
        }
    }
    proof {
        assert(kv_view(items@) + Seq::<(Seq<u8>, Seq<u8>)>::empty() =~= kv_view(items@));
    }
    ItemsRead::Done { items, used }
}

/// Unpack a packed integer-set blob into its elements' decimal texts.
pub fn intset_items(blob: &Vec<u8>) -> (r: Option<Vec<Vec<u8>>>)
    ensures
        match r {
            Some(items) => spec_intset(blob@) == Some(bytes_view(items@)),
            None => spec_intset(blob@) is None,
        },
{
    let bl = blob.len();
    if bl < 8 {
        return None;
    }
    let w = read_le(blob, 0, 4);
    let cnt = read_le(blob, 4, 4);
    proof {
        lemma_le_val_bound(blob@.subrange(0, 4));
        lemma_le_val_bound(blob@.subrange(4, 8));
        lemma_pow256_small();
    }
    if !(w == 2 || w == 4 || w == 8) {
        return None;
    }
    proof {
        assert(cnt * w <= 0xFFFF_FFFF * 8) by (nonlinear_arith)
            requires
                cnt <= 0xFFFF_FFFF,
                w <= 8,
        ;
    }
    if (bl as u64) != 8 + cnt * w {
        return None;
    }
    let wu = w as usize;
    let cu = cnt as usize;
    let ghost target = Seq::new(cnt as nat, |j: int| dec_text(intset_elem(blob@, w as nat, j)));
    let mut items: Vec<Vec<u8>> = Vec::new();
    let mut i: usize = 0;
    while i < cu
        invariant
            i <= cu,
            cu == cnt,
            wu == w,
            wu == 2 || wu == 4 || wu == 8,
            8 + cnt * w == blob@.len(),
            blob@.len() <= usize::MAX,
            items@.len() == i,
            forall|j: int|
                0 <= j < i ==> items@[j]@ == dec_text(intset_elem(blob@, w as nat, j)),
        decreases cu - i,
    {
        proof {
            assert((i + 1) * wu <= cu * wu) by (nonlinear_arith)
                requires
                    i + 1 <= cu,
                    wu >= 0,
            ;
            assert(i * wu + wu == (i + 1) * wu) by (nonlinear_arith);
        }
        let off = 8 + i * wu;
        let u = read_le(blob, off, wu);
        proof {
            lemma_le_val_bound(blob@.subrange(off as int, off + wu));
            lemma_pow256_small();
        }
        proof {
            assert(off as int == 8 + (w as int) * (i as int)) by (nonlinear_arith)
                requires
                    off == 8 + i * wu,
                    wu == w,
            ;
            assert(blob@.subrange(off as int, off + wu) == blob@.subrange(
                8 + (w as int) * (i as int),
                8 + (w as int) * (i as int) + (w as int),
            ));
        }
        let v: i64 = if wu == 2 {
            if u >= 0x8000 {
                (u as i64) - 0x10000
            } else {
                u as i64
            }
        } else if wu == 4 {
            if u >= 0x8000_0000 {
                (u as i64) - 0x1_0000_0000
            } else {
                u as i64
            }
        } else {
            if u >= 0x8000_0000_0000_0000 {
                i64::MIN + ((u - 0x8000_0000_0000_0000) as i64)
            } else {
                u as i64
            }
        };
        proof {
            assert(v as int == intset_elem(blob@, w as nat, i as int));
        }
        items.push(dec_text_i64(v));
        i = i + 1;
    }
    proof {
        assert(bytes_view(items@) =~= target);
    }
    Some(items)
}

/// Outcome of decoding one value payload.
#[derive(Debug, PartialEq, Eq)]
pub enum ObjRead {
    More,
    Fail { err: BeeError },
    Done { val: RedisObject, used: usize },
}

pub open spec fn obj_read_model(r: ObjRead) -> ObjParse {
    match r {
        ObjRead::More => ObjParse::More,
        ObjRead::Fail { err } => ObjParse::Fail { err: err@ },
        ObjRead::Done { val, used } => ObjParse::Done { val: val@, used: used as nat },
    }
}

/// Decode the value payload for type tag `tag` starting at relative offset
/// `at`, consuming nothing.
#[verifier::rlimit(100)]
pub fn read_object_at(buf: &Buffer, at: usize, tag: u8) -> (r: ObjRead)
    requires
        at <= buf.rem().len(),
    ensures
        obj_read_model(r) == spec_obj_parse(tag, buf.rem().skip(at as int)),
        r matches ObjRead::Done { val, used } ==> at + used <= buf.rem().len(),
{
    let ghost s = buf.rem().skip(at as int);
    proof {
        reveal(spec_obj_parse);
    }
    let total = buf.remaining();
    if tag == RDB_TYPE_STRING {
        match read_string_at(buf, at) {
            StrRead::More => ObjRead::More,
            StrRead::Fail { err } => ObjRead::Fail { err },
            StrRead::Bytes { value, used } => ObjRead::Done { val: RedisObject::Raw(value), used },
        }
    } else if tag == RDB_TYPE_LIST || tag == RDB_TYPE_SET {
        match read_length_at(buf, at) {
            LenParse::More => ObjRead::More,
            LenParse::Literal { value: n, used: u } => {
                proof {
                    assert(s.skip(u as int) =~= buf.rem().skip(at + u));
                }
                match read_n_strings(buf, at + u, n) {
                    ItemsRead::More => ObjRead::More,
                    ItemsRead::Fail { err } => ObjRead::Fail { err },
                    ItemsRead::Done { items, used: u2 } => ObjRead::Done {
                        val: if tag == RDB_TYPE_LIST {
                            RedisObject::List(items)
                        } else {
                            RedisObject::SetVal(items)
                        },
                        used: u + u2,
                    },
                }
            },
            _ => ObjRead::Fail { err: BeeError::NotNumber },
        }
    } else if tag == RDB_TYPE_ZSET {
        match read_length_at(buf, at) {
            LenParse::More => ObjRead::More,
            LenParse::Literal { value: n, used: u } => {
                proof {
                    assert(s.skip(u as int) =~= buf.rem().skip(at + u));
                }
                match read_n_zpairs(buf, at + u, n) {
                    ItemsRead::More => ObjRead::More,
                    ItemsRead::Fail { err } => ObjRead::Fail { err },
                    ItemsRead::Done { items, used: u2 } => ObjRead::Done {
                        val: RedisObject::ZSet(items),
                        used: u + u2,
                    },
                }
            },
            _ => ObjRead::Fail { err: BeeError::NotNumber },
        }
    } else if tag == RDB_TYPE_ZSET_2 {
        match read_length_at(buf, at) {
            LenParse::More => ObjRead::More,
            LenParse::Literal { value: n, used: u } => {
                proof {
                    assert(s.skip(u as int) =~= buf.rem().skip(at + u));
                }
                match read_n_z2pairs(buf, at + u, n) {
                    ItemsRead::More => ObjRead::More,
                    ItemsRead::Fail { err } => ObjRead::Fail { err },
                    ItemsRead::Done { items, used: u2 } => ObjRead::Done {
                        val: RedisObject::ZSet2(items),
                        used: u + u2,
                    },
                }
            },
            _ => ObjRead::Fail { err: BeeError::NotNumber },
        }
    } else if tag == RDB_TYPE_HASH {
        match read_length_at(buf, at) {
            LenParse::More => ObjRead::More,
            LenParse::Literal { value: n, used: u } => {
                proof {
                    assert(s.skip(u as int) =~= buf.rem().skip(at + u));
                }
                match read_n_kv(buf, at + u, n) {
                    ItemsRead::More => ObjRead::More,
                    ItemsRead::Fail { err } => ObjRead::Fail { err },
                    ItemsRead::Done { items, used: u2 } => ObjRead::Done {
                        val: RedisObject::Hash(items),
                        used: u + u2,
                    },
                }
            },
            _ => ObjRead::Fail { err: BeeError::NotNumber },
        }
    } else if tag == RDB_TYPE_SET_INTSET {
        match read_string_at(buf, at) {
            StrRead::More => ObjRead::More,
            StrRead::Fail { err } => ObjRead::Fail { err },
            StrRead::Bytes { value: blob, used } => {
                match intset_items(&blob) {
                    Some(items) => ObjRead::Done { val: RedisObject::SetVal(items), used },
                    None => {
                        let selector = if blob.len() >= 1 {
                            blob[0]
                        } else {
                            0
                        };
                        ObjRead::Fail { err: BeeError::InvalidEncodingSelector { selector } }
                    },
                }
            },
        }
    } else {
        ObjRead::Fail { err: BeeError::UnsupportedFeature { tag } }
    }
}


/// Outcome of validating the stream header, as a mathematical value.
pub enum HeadParse {
    More,
    BadMagic { head: Seq<u8> },
    BadVersion { version: u64 },
    Accept { version: u64 },
}

/// The fixed five-byte magic literal that opens every stream.
pub open spec fn magic() -> Seq<u8> {
    seq![82u8, 69u8, 68u8, 73u8, 83u8]
}

pub open spec fn is_digit(b: u8) -> bool {
    48 <= b && b <= 57
}

/// The nine-byte header: the magic literal then four decimal digits giving
/// the format version, which must lie in [1, 9]. A header whose version
/// characters are not digits is rejected as version 0.
pub open spec fn spec_head_parse(s: Seq<u8>) -> HeadParse {
    if s.len() < 9 {
        HeadParse::More
    } else if s.subrange(0, 5) != magic() {
        HeadParse::BadMagic { head: s.subrange(0, 5) }
    } else if !(is_digit(s[5]) && is_digit(s[6]) && is_digit(s[7]) && is_digit(s[8])) {
        HeadParse::BadVersion { version: 0 }
    } else {
        let v = (((s[5] - 48) * 1000 + (s[6] - 48) * 100 + (s[7] - 48) * 10 + (s[8] - 48)) as u64);
        if 1 <= v && v <= 9 {
            HeadParse::Accept { version: v }
        } else {
            HeadParse::BadVersion { version: v }
        }
    }
}

/// Outcome of validating the stream header.
#[derive(Debug, PartialEq, Eq)]
pub enum HeadRead {
    More,
    BadMagic { head: Vec<u8> },
    BadVersion { version: u64 },
    Accept { version: u64 },
}

pub open spec fn head_read_model(r: HeadRead) -> HeadParse {
    match r {
        HeadRead::More => HeadParse::More,
        HeadRead::BadMagic { head } => HeadParse::BadMagic { head: head@ },
        HeadRead::BadVersion { version } => HeadParse::BadVersion { version },
        HeadRead::Accept { version } => HeadParse::Accept { version },
    }
}

/// Validate the header at the front of the unread bytes, consuming
/// nothing.
pub fn read_head_at(buf: &Buffer) -> (r: HeadRead)
    ensures
        head_read_model(r) == spec_head_parse(buf.rem()),
        r matches HeadRead::Accept { version } ==> 9 <= buf.rem().len() && 1 <= version <= 9,
{
    let ghost s = buf.rem();
    let n = buf.remaining();
    if n < 9 {
        return HeadRead::More;
    }
    let m0 = buf.get(0);
    let m1 = buf.get(1);
    let m2 = buf.get(2);
    let m3 = buf.get(3);
    let m4 = buf.get(4);
    proof {
        assert(s.subrange(0, 5)[0] == m0);
        assert(s.subrange(0, 5)[1] == m1);
        assert(s.subrange(0, 5)[2] == m2);
        assert(s.subrange(0, 5)[3] == m3);
        assert(s.subrange(0, 5)[4] == m4);
    }
    if !(m0 == 82 && m1 == 69 && m2 == 68 && m3 == 73 && m4 == 83) {
        let head = buf.read_bytes(0, 5);
        proof {
            assert(s.subrange(0, 5) != magic());
        }
        return HeadRead::BadMagic { head };
    }
    proof {
        assert(s.subrange(0, 5) =~= magic());
    }
    let d0 = buf.get(5);
    let d1 = buf.get(6);
    let d2 = buf.get(7);
    let d3 = buf.get(8);
    if !(48 <= d0 && d0 <= 57 && 48 <= d1 && d1 <= 57 && 48 <= d2 && d2 <= 57 && 48 <= d3 && d3
        <= 57) {
        return HeadRead::BadVersion { version: 0 };
    }
    let v: u64 = ((d0 - 48) as u64) * 1000 + ((d1 - 48) as u64) * 100 + ((d2 - 48) as u64) * 10 + (
    (d3 - 48) as u64);
    if 1 <= v && v <= 9 {
        HeadRead::Accept { version: v }
    } else {
        HeadRead::BadVersion { version: v }
    }
}

/// The stream-level position of the decoder. No transition regresses.
#[derive(Debug, Clone, Copy)]
pub enum StreamState {
    AwaitingHeader,
    AwaitingBody,
    AwaitingFooter,
    Done,
}

/// The mathematical image of the decoder state carried across calls: the
/// stream position, the negotiated format version, the selected database,
/// and the per-record scratch metadata pending from control opcodes.
pub struct ParserView {
    pub state: StreamState,
    pub version: u64,
    pub db: u64,
    pub expire: Option<u64>,
    pub idle: Option<u64>,
    pub freq: Option<u8>,
}

/// One decoded record, as a mathematical value.
pub struct EntryModel {
    pub key: Seq<u8>,
    pub expire: Option<u64>,
    pub data: ValModel,
}

/// One event handed to the caller, as a mathematical value.
pub enum EvModel {
    Record(EntryModel),
    Aux { key: Seq<u8>, value: Seq<u8> },
    End,
}

/// Outcome of one decode call: more input needed, a fatal error, or an
/// event. Each carries the decoder state left behind and how many bytes
/// were committed (fully consumed fields only).
pub enum DecRes {
    More { ctx: ParserView, used: nat },
    Fatal { err: ErrModel, ctx: ParserView, used: nat },
    Ev { ev: EvModel, ctx: ParserView, used: nat },
}

/// Add `k` already-committed bytes in front of a decode outcome.
pub open spec fn bump(r: DecRes, k: nat) -> DecRes {
    match r {
        DecRes::More { ctx, used } => DecRes::More { ctx, used: used + k },
        DecRes::Fatal { err, ctx, used } => DecRes::Fatal { err, ctx, used: used + k },
        DecRes::Ev { ev, ctx, used } => DecRes::Ev { ev, ctx, used: used + k },
    }
}

pub proof fn lemma_bump_bump(r: DecRes, a: nat, b: nat)
    ensures
        bump(bump(r, a), b) == bump(r, a + b),
{
}

pub proof fn lemma_bump_zero(r: DecRes)
    ensures
        bump(r, 0) == r,
{
}

/// One record-loop step: classify the leading byte as a control opcode or
/// a value-type tag. Control opcodes commit their whole field, update the
/// context and recurse; a value record or an auxiliary pair yields an
/// event; the end-of-file opcode moves to the footer.
#[verifier::opaque]
pub open spec fn spec_body(ctx: ParserView, s: Seq<u8>) -> DecRes
    decreases s.len(), 0int,
{
    if s.len() == 0 {
        DecRes::More { ctx, used: 0 }
    } else {
        let op = s[0];
        if op == RDB_OPCODE_EXPIRETIME {
            if s.len() < 5 {
                DecRes::More { ctx, used: 0 }
            } else {
                bump(
                    spec_decode(
                        ParserView {
                            expire: Some((le_val(s.subrange(1, 5)) * 1000) as u64),
                            ..ctx
                        },
                        s.skip(5),
                    ),
                    5,
                )
            }
        } else if op == RDB_OPCODE_EXPIRETIME_MS {
            if s.len() < 9 {
                DecRes::More { ctx, used: 0 }
            } else {
                bump(
                    spec_decode(
                        ParserView { expire: Some(le_val(s.subrange(1, 9)) as u64), ..ctx },
                        s.skip(9),
                    ),
                    9,
                )
            }
        } else if op == RDB_OPCODE_IDLE {
            match spec_len_parse(s.skip(1)) {
                LenParse::More => DecRes::More { ctx, used: 0 },
                LenParse::Literal { value, used: u } => {
                    if s.len() < 1 + u {
                        DecRes::More { ctx, used: 0 }
                    } else {
                        bump(
                            spec_decode(ParserView { idle: Some(value), ..ctx }, s.skip(1 + u)),
                            (1 + u) as nat,
                        )
                    }
                },
                _ => DecRes::Fatal { err: ErrModel::NotNumber, ctx, used: 0 },
            }
        } else if op == RDB_OPCODE_FREQ {
            if s.len() < 2 {
                DecRes::More { ctx, used: 0 }
            } else {
                bump(spec_decode(ParserView { freq: Some(s[1]), ..ctx }, s.skip(2)), 2)
            }
        } else if op == RDB_OPCODE_SELECTDB {
            match spec_len_parse(s.skip(1)) {
                LenParse::More => DecRes::More { ctx, used: 0 },
                LenParse::Literal { value, used: u } => {
                    if s.len() < 1 + u {
                        DecRes::More { ctx, used: 0 }
                    } else {
                        bump(
                            spec_decode(
                                ParserView {
                                    db: value,
                                    expire: None,
                                    idle: None,
                                    freq: None,
                                    ..ctx
                                },
                                s.skip(1 + u),
                            ),
                            (1 + u) as nat,
                        )
                    }
                },
                _ => DecRes::Fatal { err: ErrModel::NotNumber, ctx, used: 0 },
            }
        } else if op == RDB_OPCODE_AUX {
            match spec_str_parse(s.skip(1)) {
                StrParse::More => DecRes::More { ctx, used: 0 },
                StrParse::Fail { err } => DecRes::Fatal { err, ctx, used: 0 },
                StrParse::Bytes { value: k, used: uk } => match spec_str_parse(
                    s.skip((1 + uk) as int),
                ) {
                    StrParse::More => DecRes::More { ctx, used: 0 },
                    StrParse::Fail { err } => DecRes::Fatal { err, ctx, used: 0 },
                    StrParse::Bytes { value: v, used: uv } => DecRes::Ev {
                        ev: EvModel::Aux { key: k, value: v },
                        ctx,
                        used: (1 + uk + uv) as nat,
                    },
                },
            }
        } else if op == RDB_OPCODE_RESIZEDB {
            match spec_len_parse(s.skip(1)) {
                LenParse::More => DecRes::More { ctx, used: 0 },
                LenParse::Literal { value: _v1, used: u1 } => match spec_len_parse(
                    s.skip(1 + u1),
                ) {
                    LenParse::More => DecRes::More { ctx, used: 0 },
                    LenParse::Literal { value: _v2, used: u2 } => {
                        if s.len() < 1 + u1 + u2 {
                            DecRes::More { ctx, used: 0 }
                        } else {
                            bump(spec_decode(ctx, s.skip(1 + u1 + u2)), (1 + u1 + u2) as nat)
                        }
                    },
                    _ => DecRes::Fatal { err: ErrModel::NotNumber, ctx, used: 0 },
                },
                _ => DecRes::Fatal { err: ErrModel::NotNumber, ctx, used: 0 },
            }
        } else if op == RDB_OPCODE_MODULE_AUX {
            DecRes::Fatal { err: ErrModel::UnsupportedFeature { tag: op }, ctx, used: 0 }
        } else if op == RDB_OPCODE_EOF {
            bump(
                spec_decode(ParserView { state: StreamState::AwaitingFooter, ..ctx }, s.skip(1)),
                1,
            )
        } else {
            match spec_str_parse(s.skip(1)) {
                StrParse::More => DecRes::More { ctx, used: 0 },
                StrParse::Fail { err } => DecRes::Fatal { err, ctx, used: 0 },
                StrParse::Bytes { value: key, used: uk } => match spec_obj_parse(
                    op,
                    s.skip((1 + uk) as int),
                ) {
                    ObjParse::More => DecRes::More { ctx, used: 0 },
                    ObjParse::Fail { err } => DecRes::Fatal { err, ctx, used: 0 },
                    ObjParse::Done { val, used: uo } => DecRes::Ev {
                        ev: EvModel::Record(
                            EntryModel { key, expire: ctx.expire, data: val },
                        ),
                        ctx: ParserView { expire: None, idle: None, freq: None, ..ctx },
                        used: (1 + uk + uo) as nat,
                    },
                },
            }
        }
    }
}

/// The whole decoder, one call: validate the header once, then run the
/// record loop, then consume the footer (an eight-byte trailing checksum
/// for format versions five and later, nothing before that) and report the
/// end of the stream. A "need more data" outcome commits exactly the
/// control fields already consumed and can be retried verbatim.
#[verifier::opaque]
pub open spec fn spec_decode(ctx: ParserView, s: Seq<u8>) -> DecRes
    decreases s.len(), 1int,
{
    match ctx.state {
        StreamState::Done => DecRes::Ev { ev: EvModel::End, ctx, used: 0 },
        StreamState::AwaitingFooter => {
            if ctx.version >= 5 {
                if s.len() < 8 {
                    DecRes::More { ctx, used: 0 }
                } else {
                    DecRes::Ev {
                        ev: EvModel::End,
                        ctx: ParserView { state: StreamState::Done, ..ctx },
                        used: 8,
                    }
                }
            } else {
                DecRes::Ev {
                    ev: EvModel::End,
                    ctx: ParserView { state: StreamState::Done, ..ctx },
                    used: 0,
                }
            }
        },
        StreamState::AwaitingHeader => {
            if s.len() < 9 {
                DecRes::More { ctx, used: 0 }
            } else {
                match spec_head_parse(s) {
                    HeadParse::More => DecRes::More { ctx, used: 0 },
                    HeadParse::BadMagic { head } => DecRes::Fatal {
                        err: ErrModel::BadMagicString { head },
                        ctx,
                        used: 0,
                    },
                    HeadParse::BadVersion { version } => DecRes::Fatal {
                        err: ErrModel::BadVersion { version },
                        ctx,
                        used: 0,
                    },
                    HeadParse::Accept { version } => bump(
                        spec_decode(
                            ParserView { state: StreamState::AwaitingBody, version, ..ctx },
                            s.skip(9),
                        ),
                        9,
                    ),
                }
            }
        },
        StreamState::AwaitingBody => spec_body(ctx, s),
    }
}

/// One decoded record: its key, the absolute millisecond expiry a
/// preceding expire opcode attached to it, and its value. Ownership passes
/// to the caller; the decoder retains nothing of it.
#[derive(Debug, PartialEq, Eq, Clone)]
pub struct Entry {
    pub key: Vec<u8>,
    pub expire: Option<u64>,
    pub data: RedisObject,
}

impl View for Entry {
    type V = EntryModel;

    open spec fn view(&self) -> EntryModel {
        EntryModel { key: self.key@, expire: self.expire, data: self.data@ }
    }
}

/// What one successful decode call hands the caller: a record, an
/// auxiliary metadata pair, or the end of the stream.
#[derive(Debug, PartialEq, Eq, Clone)]
pub enum DecodeEvent {
    Entry(Entry),
    Aux { key: Vec<u8>, value: Vec<u8> },
    EndOfStream,
}

impl View for DecodeEvent {
    type V = EvModel;

    open spec fn view(&self) -> EvModel {
        match self {
            DecodeEvent::Entry(e) => EvModel::Record(e@),
            DecodeEvent::Aux { key, value } => EvModel::Aux { key: key@, value: value@ },
            DecodeEvent::EndOfStream => EvModel::End,
        }
    }
}

/// The incremental stream decoder. Create one per input stream; feed a
/// `Buffer` and call `decode` repeatedly.
pub struct RDBParser {
    state: StreamState,
    version: u64,
    db: u64,
    expire: Option<u64>,
    idle: Option<u64>,
    freq: Option<u8>,
}

impl View for RDBParser {
    type V = ParserView;

    closed spec fn view(&self) -> ParserView {
        ParserView {
            state: self.state,
            version: self.version,
            db: self.db,
            expire: self.expire,
            idle: self.idle,
            freq: self.freq,
        }
    }
}

pub open spec fn initial_parser_view() -> ParserView {
    ParserView {
        state: StreamState::AwaitingHeader,
        version: 0,
        db: 0,
        expire: None,
        idle: None,
        freq: None,
    }
}

impl RDBParser {
    pub fn new() -> (r: RDBParser)
        ensures
            r@ == initial_parser_view(),
    {
        RDBParser {
            state: StreamState::AwaitingHeader,
            version: 0,
            db: 0,
            expire: None,
            idle: None,
            freq: None,
        }
    }

    /// Decode the next event out of `src`. Exactly the bytes that
    /// `spec_decode` commits are consumed; on `More` the same call can be
    /// retried once more bytes are fed.
    #[verifier::rlimit(100)]
    pub fn decode(&mut self, src: &mut Buffer) -> (r: Result<DecodeEvent, BeeError>)
        ensures
            ({
                let m = spec_decode(old(self)@, old(src).rem());
                match r {
                    Ok(ev) => (m matches DecRes::Ev { ev: em, ctx, used } && ev@ == em
                        && final(self)@ == ctx && final(src).rem() == old(src).rem().skip(
                        used as int,
                    )),
                    Err(e) => match m {
                        DecRes::More { ctx, used } => e@ == ErrModel::More && final(self)@ == ctx
                            && final(src).rem() == old(src).rem().skip(used as int),
                        DecRes::Fatal { err, ctx, used } => e@ == err && final(self)@ == ctx
                            && final(src).rem() == old(src).rem().skip(used as int),
                        DecRes::Ev { .. } => false,
                    },
                }
            }),
    {
        let ghost s0 = old(src).rem();
        let ghost c0 = old(self)@;
        let ghost mut done: int = 0;
        proof {
            assert(src.rem() =~= s0.skip(0));
            lemma_bump_zero(spec_decode(self@, src.rem()));
        }
        loop
            invariant
                c0 == old(self)@,
                s0 == old(src).rem(),
                0 <= done <= s0.len(),
                src.rem() == s0.skip(done),
                spec_decode(c0, s0) == bump(spec_decode(self@, src.rem()), done as nat),
            decreases src.rem().len(),
        {
            let ghost cpre = self@;
            let ghost spre = src.rem();
            proof {
                reveal(spec_decode);
            }
            match self.state {
                StreamState::Done => {
                    return Ok(DecodeEvent::EndOfStream);
                },
                StreamState::AwaitingFooter => {
                    if self.version >= 5 {
                        let n = src.remaining();
                        if n < 8 {
                            return Err(BeeError::More);
                        }
                        self.state = StreamState::Done;
                        src.advance(8);
                        proof {
                            assert(src.rem() =~= s0.skip(done + 8));
                        }
                        return Ok(DecodeEvent::EndOfStream);
                    } else {
                        self.state = StreamState::Done;
                        return Ok(DecodeEvent::EndOfStream);
                    }
                },
                StreamState::AwaitingHeader => {
                    match read_head_at(src) {
                        HeadRead::More => {
                            return Err(BeeError::More);
                        },
                        HeadRead::BadMagic { head } => {
                            return Err(BeeError::BadMagicString { head });
                        },
                        HeadRead::BadVersion { version } => {
                            return Err(BeeError::BadVersion { version });
                        },
                        HeadRead::Accept { version } => {
                            self.state = StreamState::AwaitingBody;
                            self.version = version;
                            proof {
                                assert(spec_decode(cpre, spre) == bump(
                                    spec_decode(self@, spre.skip(9)),
                                    9,
                                ));
                            }
                            src.advance(9);
                            proof {
                                done = done + 9;
                                assert(src.rem() =~= s0.skip(done));
                                lemma_bump_bump(
                                    spec_decode(self@, src.rem()),
                                    9,
                                    (done - 9) as nat,
                                );
                            }
                        },
                    }
                },
                StreamState::AwaitingBody => {
                    proof {
                        reveal(spec_decode);
                        reveal(spec_body);
                        assert(spec_decode(cpre, spre) == spec_body(cpre, spre));
                    }
                    match self.body_step(src) {
                        BodyStep::Progress => {
                            proof {
                                let k = (spre.len() - src.rem().len()) as nat;
                                done = done + k;
                                assert(src.rem() =~= s0.skip(done));
                                lemma_bump_bump(
                                    spec_decode(self@, src.rem()),
                                    k,
                                    (done - k) as nat,
                                );
                            }
                        },
                        BodyStep::Event(ev) => {
                            proof {
                                match spec_body(cpre, spre) {
                                    DecRes::Ev { ev: em, ctx, used } => {
                                        assert(src.rem() =~= s0.skip(done + used));
                                    },
                                    _ => {},
                                }
                            }
                            return Ok(ev);
                        },
                        BodyStep::Fault(e) => {
                            proof {
                                match spec_body(cpre, spre) {
                                    DecRes::More { ctx, used } => {
                                        assert(src.rem() =~= s0.skip(done + used));
                                    },
                                    DecRes::Fatal { err, ctx, used } => {
                                        assert(src.rem() =~= s0.skip(done + used));
                                    },
                                    _ => {},
                                }
                            }
                            return Err(e);
                        },
                    }
                },
            }
        }
    }
}


proof fn lemma_body_expire(ctx: ParserView, s: Seq<u8>)
    requires
        ctx.state is AwaitingBody,
        s.len() >= 5,
        s[0] == RDB_OPCODE_EXPIRETIME,
    ensures
        spec_body(ctx, s) == bump(
            spec_decode(
                ParserView { expire: Some((le_val(s.subrange(1, 5)) * 1000) as u64), ..ctx },
                s.skip(5),
            ),
            5,
        ),
{
    reveal(spec_body);
    reveal(spec_decode);
}

proof fn lemma_body_expire_ms(ctx: ParserView, s: Seq<u8>)
    requires
        ctx.state is AwaitingBody,
        s.len() >= 9,
        s[0] == RDB_OPCODE_EXPIRETIME_MS,
    ensures
        spec_body(ctx, s) == bump(
            spec_decode(
                ParserView { expire: Some(le_val(s.subrange(1, 9)) as u64), ..ctx },
                s.skip(9),
            ),
            9,
        ),
{
    reveal(spec_body);
    reveal(spec_decode);
}

proof fn lemma_body_idle(ctx: ParserView, s: Seq<u8>, v: u64, u: usize)
    requires
        ctx.state is AwaitingBody,
        s.len() >= 1,
        s[0] == RDB_OPCODE_IDLE,
        spec_len_parse(s.skip(1)) == (LenParse::Literal { value: v, used: u }),
        s.len() >= 1 + u,
    ensures
        spec_body(ctx, s) == bump(
            spec_decode(ParserView { idle: Some(v), ..ctx }, s.skip(1 + u)),
            (1 + u) as nat,
        ),
{
    reveal(spec_body);
    reveal(spec_decode);
}

proof fn lemma_body_selectdb(ctx: ParserView, s: Seq<u8>, v: u64, u: usize)
    requires
        ctx.state is AwaitingBody,
        s.len() >= 1,
        s[0] == RDB_OPCODE_SELECTDB,
        spec_len_parse(s.skip(1)) == (LenParse::Literal { value: v, used: u }),
        s.len() >= 1 + u,
    ensures
        spec_body(ctx, s) == bump(
            spec_decode(
                ParserView { db: v, expire: None, idle: None, freq: None, ..ctx },
                s.skip(1 + u),
            ),
            (1 + u) as nat,
        ),
{
    reveal(spec_body);
    reveal(spec_decode);
}

proof fn lemma_body_freq(ctx: ParserView, s: Seq<u8>)
    requires
        ctx.state is AwaitingBody,
        s.len() >= 2,
        s[0] == RDB_OPCODE_FREQ,
    ensures
        spec_body(ctx, s) == bump(
            spec_decode(ParserView { freq: Some(s[1]), ..ctx }, s.skip(2)),
            2,
        ),
{
    reveal(spec_body);
    reveal(spec_decode);
}

proof fn lemma_body_resizedb(ctx: ParserView, s: Seq<u8>, v1: u64, u1: usize, v2: u64, u2: usize)
    requires
        ctx.state is AwaitingBody,
        s.len() >= 1,
        s[0] == RDB_OPCODE_RESIZEDB,
        spec_len_parse(s.skip(1)) == (LenParse::Literal { value: v1, used: u1 }),
        spec_len_parse(s.skip(1 + u1)) == (LenParse::Literal { value: v2, used: u2 }),
        s.len() >= 1 + u1 + u2,
    ensures
        spec_body(ctx, s) == bump(spec_decode(ctx, s.skip(1 + u1 + u2)), (1 + u1 + u2) as nat),
{
    reveal(spec_body);
    reveal(spec_decode);
}

proof fn lemma_body_eof(ctx: ParserView, s: Seq<u8>)
    requires
        ctx.state is AwaitingBody,
        s.len() >= 1,
        s[0] == RDB_OPCODE_EOF,
    ensures
        spec_body(ctx, s) == bump(
            spec_decode(ParserView { state: StreamState::AwaitingFooter, ..ctx }, s.skip(1)),
            1,
        ),
{
    reveal(spec_body);
    reveal(spec_decode);
}


/// Outcome of one record-loop step.
enum BodyStep {
    Progress,
    Event(DecodeEvent),
    Fault(BeeError),
}

impl RDBParser {
    /// Handle one field of the record loop: a control opcode is committed
    /// whole and the context updated; an auxiliary pair or a value record
    /// yields an event; the end-of-file opcode commits and moves to the
    /// footer; anything incomplete or malformed is a fault.
    #[verifier::rlimit(100)]
    fn body_step(&mut self, src: &mut Buffer) -> (r: BodyStep)
        requires
            old(self)@.state is AwaitingBody,
        ensures
            ({
                let m = spec_body(old(self)@, old(src).rem());
                match r {
                    BodyStep::Progress => {
                        &&& final(src).rem().len() < old(src).rem().len()
                        &&& final(src).rem() == old(src).rem().skip(
                            (old(src).rem().len() - final(src).rem().len()) as int,
                        )
                        &&& m == bump(
                            spec_decode(final(self)@, final(src).rem()),
                            (old(src).rem().len() - final(src).rem().len()) as nat,
                        )
                    },
                    BodyStep::Event(ev) => (m matches DecRes::Ev { ev: em, ctx, used }
                        && ev@ == em && final(self)@ == ctx && used <= old(src).rem().len()
                        && final(src).rem() == old(src).rem().skip(used as int)),
                    BodyStep::Fault(e) => match m {
                        DecRes::More { ctx, used } => e@ == ErrModel::More && final(self)@
                            == ctx && used <= old(src).rem().len() && final(src).rem() == old(
                            src,
                        ).rem().skip(used as int),
                        DecRes::Fatal { err, ctx, used } => e@ == err && final(self)@ == ctx
                            && used <= old(src).rem().len() && final(src).rem() == old(
                            src,
                        ).rem().skip(used as int),
                        DecRes::Ev { .. } => false,
                    },
                }
            }),
    {
        let ghost cpre = self@;
        let ghost spre = src.rem();
        proof {
            reveal(spec_body);
            assert(spre.skip(0) =~= spre);
        }
        let n = src.remaining();
        if n == 0 {
            proof {
                reveal(spec_body);
                reveal(spec_body);
            }
            proof {
                reveal(spec_body);
            }
            return BodyStep::Fault(BeeError::More);
        }
        let op = src.get(0);
        proof {
            reveal(spec_body);
            reveal(spec_body);
            assert(op == spre[0]);
        }
                    if op == RDB_OPCODE_EXPIRETIME {
                        if n < 5 {
                            proof {
                                reveal(spec_body);
                            }
                            return BodyStep::Fault(BeeError::More);
                        }
                        let bytes = src.read_bytes(1, 4);
                        let v = read_le(&bytes, 0, 4);
                        proof {
                            reveal(spec_body);
                            assert(bytes@.subrange(0, 4) =~= bytes@);
                            assert(bytes@ =~= spre.subrange(1, 5));
                            lemma_le_val_bound(bytes@);
                            lemma_pow256_small();
                        }
                        self.expire = Some(v * 1000);
                        proof {
                            lemma_body_expire(cpre, spre);
                            assert(self@ == ParserView {
                                expire: Some((le_val(spre.subrange(1, 5)) * 1000) as u64),
                                ..cpre
                            });
                        }
                        src.advance(5);
                        proof {
                            reveal(spec_body);
                        }
                        return BodyStep::Progress;
                    } else if op == RDB_OPCODE_EXPIRETIME_MS {
                        if n < 9 {
                            proof {
                                reveal(spec_body);
                            }
                            return BodyStep::Fault(BeeError::More);
                        }
                        let bytes = src.read_bytes(1, 8);
                        let v = read_le(&bytes, 0, 8);
                        proof {
                            reveal(spec_body);
                            assert(bytes@.subrange(0, 8) =~= bytes@);
                            assert(bytes@ =~= spre.subrange(1, 9));
                            lemma_le_val_bound(bytes@);
                            lemma_pow256_small();
                        }
                        self.expire = Some(v);
                        proof {
                            lemma_body_expire_ms(cpre, spre);
                            assert(self@ == ParserView {
                                expire: Some(le_val(spre.subrange(1, 9)) as u64),
                                ..cpre
                            });
                        }
                        src.advance(9);
                        proof {
                            reveal(spec_body);
                        }
                        return BodyStep::Progress;
                    } else if op == RDB_OPCODE_IDLE {
                        proof {
                            reveal(spec_body);
                            assert(spre.skip(1) =~= src.rem().skip(1));
                        }
                        match read_length_at(src, 1) {
                            LenParse::More => {
                                proof {
                                    reveal(spec_body);
                                }
                                return BodyStep::Fault(BeeError::More);
                            },
                            LenParse::Literal { value, used: u } => {
                                self.idle = Some(value);
                                proof {
                                    lemma_body_idle(cpre, spre, value, u);
                                    assert(self@ == ParserView { idle: Some(value), ..cpre });
                                }
                                src.advance(1 + u);
                                proof {
                                    reveal(spec_body);
                                }
                                return BodyStep::Progress;
                            },
                            _ => {
                                proof {
                                    reveal(spec_body);
                                }
                                return BodyStep::Fault(BeeError::NotNumber);
                            },
                        }
                    } else if op == RDB_OPCODE_FREQ {
                        if n < 2 {
                            proof {
                                reveal(spec_body);
                            }
                            return BodyStep::Fault(BeeError::More);
                        }
                        let b1 = src.get(1);
                        proof {
                            reveal(spec_body);
                            assert(b1 == spre[1]);
                        }
                        self.freq = Some(b1);
                        proof {
                            lemma_body_freq(cpre, spre);
                            assert(self@ == ParserView { freq: Some(spre[1]), ..cpre });
                        }
                        src.advance(2);
                        proof {
                            reveal(spec_body);
                        }
                        return BodyStep::Progress;
                    } else if op == RDB_OPCODE_SELECTDB {
                        proof {
                            reveal(spec_body);
                            assert(spre.skip(1) =~= src.rem().skip(1));
                        }
                        match read_length_at(src, 1) {
                            LenParse::More => {
                                proof {
                                    reveal(spec_body);
                                }
                                return BodyStep::Fault(BeeError::More);
                            },
                            LenParse::Literal { value, used: u } => {
                                self.db = value;
                                self.expire = None;
                                self.idle = None;
                                self.freq = None;
                                proof {
                                    lemma_body_selectdb(cpre, spre, value, u);
                                    assert(self@ == ParserView {
                                        db: value,
                                        expire: None,
                                        idle: None,
                                        freq: None,
                                        ..cpre
                                    });
                                }
                                src.advance(1 + u);
                                proof {
                                    reveal(spec_body);
                                }
                                return BodyStep::Progress;
                            },
                            _ => {
                                proof {
                                    reveal(spec_body);
                                }
                                return BodyStep::Fault(BeeError::NotNumber);
                            },
                        }
                    } else if op == RDB_OPCODE_AUX {
                        proof {
                            reveal(spec_body);
                            assert(spre.skip(1) =~= src.rem().skip(1));
                        }
                        match read_string_at(src, 1) {
                            StrRead::More => {
                                proof {
                                    reveal(spec_body);
                                }
                                return BodyStep::Fault(BeeError::More);
                            },
                            StrRead::Fail { err } => {
                                proof {
                                    reveal(spec_body);
                                }
                                return BodyStep::Fault(err);
                            },
                            StrRead::Bytes { value: k, used: uk } => {
                                proof {
                                    reveal(spec_body);
                                    assert(spre.skip(1 + uk as int) =~= src.rem().skip(
                                        (1 + uk) as int,
                                    ));
                                }
                                match read_string_at(src, 1 + uk) {
                                    StrRead::More => {
                                        proof {
                                            reveal(spec_body);
                                        }
                                        return BodyStep::Fault(BeeError::More);
                                    },
                                    StrRead::Fail { err } => {
                                        proof {
                                            reveal(spec_body);
                                        }
                                        return BodyStep::Fault(err);
                                    },
                                    StrRead::Bytes { value: v, used: uv } => {
                                        src.advance(1 + uk + uv);
                                        proof {
                                            reveal(spec_body);
                                        }
                                        return BodyStep::Event(DecodeEvent::Aux { key: k, value: v });
                                    },
                                }
                            },
                        }
                    } else if op == RDB_OPCODE_RESIZEDB {
                        proof {
                            reveal(spec_body);
                            assert(spre.skip(1) =~= src.rem().skip(1));
                        }
                        match read_length_at(src, 1) {
                            LenParse::More => {
                                proof {
                                    reveal(spec_body);
                                }
                                return BodyStep::Fault(BeeError::More);
                            },
                            LenParse::Literal { value: _v1, used: u1 } => {
                                proof {
                                    reveal(spec_body);
                                    assert(spre.skip(1 + u1 as int) =~= src.rem().skip(
                                        (1 + u1) as int,
                                    ));
                                }
                                match read_length_at(src, 1 + u1) {
                                    LenParse::More => {
                                        proof {
                                            reveal(spec_body);
                                        }
                                        return BodyStep::Fault(BeeError::More);
                                    },
                                    LenParse::Literal { value: _v2, used: u2 } => {
                                        proof {
                                            lemma_body_resizedb(cpre, spre, _v1, u1, _v2, u2);
                                        }
                                        src.advance(1 + u1 + u2);
                                        proof {
                                            reveal(spec_body);
                                        }
                                        return BodyStep::Progress;
                                    },
                                    _ => {
                                        proof {
                                            reveal(spec_body);
                                        }
                                        return BodyStep::Fault(BeeError::NotNumber);
                                    },
                                }
                            },
                            _ => {
                                proof {
                                    reveal(spec_body);
                                }
                                return BodyStep::Fault(BeeError::NotNumber);
                            },
                        }
                    } else if op == RDB_OPCODE_MODULE_AUX {
                        proof {
                            reveal(spec_body);
                        }
                        return BodyStep::Fault(BeeError::UnsupportedFeature { tag: op });
                    } else if op == RDB_OPCODE_EOF {
                        self.state = StreamState::AwaitingFooter;
                        proof {
                            lemma_body_eof(cpre, spre);
                            assert(self@ == ParserView {
                                state: StreamState::AwaitingFooter,
                                ..cpre
                            });
                        }
                        src.advance(1);
                        proof {
                            reveal(spec_body);
                        }
                        return BodyStep::Progress;
                    } else {
                        proof {
                            reveal(spec_body);
                            assert(spre.skip(1) =~= src.rem().skip(1));
                        }
                        match read_string_at(src, 1) {
                            StrRead::More => {
                                proof {
                                    reveal(spec_body);
                                }
                                return BodyStep::Fault(BeeError::More);
                            },
                            StrRead::Fail { err } => {
                                proof {
                                    reveal(spec_body);
                                }
                                return BodyStep::Fault(err);
                            },
                            StrRead::Bytes { value: key, used: uk } => {
                                proof {
                                    reveal(spec_body);
                                    assert(spre.skip(1 + uk as int) =~= src.rem().skip(
                                        (1 + uk) as int,
                                    ));
                                }
                                match read_object_at(src, 1 + uk, op) {
                                    ObjRead::More => {
                                        proof {
                                            reveal(spec_body);
                                        }
                                        return BodyStep::Fault(BeeError::More);
                                    },
                                    ObjRead::Fail { err } => {
                                        proof {
                                            reveal(spec_body);
                                        }
                                        return BodyStep::Fault(err);
                                    },
                                    ObjRead::Done { val, used: uo } => {
                                        let entry = Entry {
                                            key,
                                            expire: self.expire,
                                            data: val,
                                        };
                                        self.expire = None;
                                        self.idle = None;
                                        self.freq = None;
                                        src.advance(1 + uk + uo);
                                        proof {
                                            reveal(spec_body);
                                        }
                                        return BodyStep::Event(DecodeEvent::Entry(entry));
                                    },
                                }
                            },
                        }
                    }
    }
}

/// Encode a length in the 6-bit class.
pub fn encode_length_6(l: u64) -> (r: Vec<u8>)
    requires
        l < 64,
    ensures
        r@ == len6_bytes(l),
{
    let mut out: Vec<u8> = Vec::new();
    out.push(l as u8);
    proof {
        assert(out@ =~= len6_bytes(l));
    }
    out
}

/// Encode a length in the 14-bit class.
pub fn encode_length_14(l: u64) -> (r: Vec<u8>)
    requires
        l < 16384,
    ensures
        r@ == len14_bytes(l),
{
    let mut out: Vec<u8> = Vec::new();
    out.push(64 + (l / 256) as u8);
    out.push((l % 256) as u8);
    proof {
        assert(out@ =~= len14_bytes(l));
    }
    out
}

/// Encode a length in the 32-bit class.
pub fn encode_length_32(l: u64) -> (r: Vec<u8>)
    requires
        l < 0x1_0000_0000,
    ensures
        r@ == len32_bytes(l),
{
    let mut out: Vec<u8> = Vec::new();
    out.push(128);
    push_be_bytes(l, 4, &mut out);
    proof {
        assert(out@ =~= len32_bytes(l));
    }
    out
}

/// Encode a length in the 64-bit class.
pub fn encode_length_64(l: u64) -> (r: Vec<u8>)
    ensures
        r@ == len64_bytes(l),
{
    let mut out: Vec<u8> = Vec::new();
    out.push(129);
    push_be_bytes(l, 8, &mut out);
    proof {
        assert(out@ =~= len64_bytes(l));
    }
    out
}

} // verus!
