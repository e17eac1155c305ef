//! The MessagePack codec: a binary, one-byte-leading-tag wire format.
//!
//! `MsgPack::encode` walks a value tree and appends its wire bytes to a
//! buffer, always choosing the smallest header that fits. `MsgUnpack::decode`
//! consumes one value from the front of a byte slice and reports how many
//! bytes it used, so container decoding can advance a cursor.
use vstd::prelude::*;
use vstd::string::StringSliceAdditionalSpecFns;

use byteorder::{BigEndian, WriteBytesExt};

use crate::dynamic::{
    aview, entries_rep, entries_set, entries_to_obj, eview, has_tree, insert_entry,
    lemma_aview_index, lemma_eview_index, merge_entries, represents, sorted_entries, tree_of,
    Dynamic, Store, StoreV, Tree, Val,
};

verus! {

/// Error returned by the binary decoder.
#[derive(Debug, Clone, Copy, PartialEq, Eq, Structural)]
pub enum MpError {
    /// The buffer is too short for the tag's header or payload.
    Insufficient,
    /// The reserved tag byte 0xc1, never a valid encoding.
    Reserved,
    /// A string payload that is not valid UTF-8.
    BadUtf8,
    /// A map element in key position that is not a string.
    KeyNotString,
}

/// The two big-endian bytes of `v`.
pub open spec fn be16(v: u16) -> Seq<u8> {
    seq![(v / 0x100) as u8, (v % 0x100) as u8]
}

/// The four big-endian bytes of `v`.
pub open spec fn be32(v: u32) -> Seq<u8> {
    seq![
        (v / 0x100_0000) as u8,
        ((v / 0x1_0000) % 0x100) as u8,
        ((v / 0x100) % 0x100) as u8,
        (v % 0x100) as u8,
    ]
}

/// The eight big-endian bytes of `v`.
pub open spec fn be64(v: u64) -> Seq<u8> {
    seq![
        (v / 0x100_0000_0000_0000) as u8,
        ((v / 0x1_0000_0000_0000) % 0x100) as u8,
        ((v / 0x100_0000_0000) % 0x100) as u8,
        ((v / 0x1_0000_0000) % 0x100) as u8,
        ((v / 0x100_0000) % 0x100) as u8,
        ((v / 0x1_0000) % 0x100) as u8,
        ((v / 0x100) % 0x100) as u8,
        (v % 0x100) as u8,
    ]
}

/// The value whose big-endian bytes are `b0 b1`.
pub open spec fn u16_of_be(b0: u8, b1: u8) -> u16 {
    (b0 * 0x100 + b1) as u16
}

/// The value whose big-endian bytes are `b0 .. b3`.
pub open spec fn u32_of_be(b0: u8, b1: u8, b2: u8, b3: u8) -> u32 {
    (b0 * 0x100_0000 + b1 * 0x1_0000 + b2 * 0x100 + b3) as u32
}

/// The value whose big-endian bytes are `b0 .. b7`.
pub open spec fn u64_of_be(b0: u8, b1: u8, b2: u8, b3: u8, b4: u8, b5: u8, b6: u8, b7: u8) -> u64 {
    (b0 * 0x100_0000_0000_0000 + b1 * 0x1_0000_0000_0000 + b2 * 0x100_0000_0000 + b3
        * 0x1_0000_0000 + b4 * 0x100_0000 + b5 * 0x1_0000 + b6 * 0x100 + b7) as u64
}

/// The unsigned value with the same 64-bit two's-complement pattern as `v`.
pub open spec fn u64_of_i64(v: i64) -> u64 {
    if v >= 0 {
        v as u64
    } else {
        (v + 0x1_0000_0000_0000_0000) as u64
    }
}

/// The signed value with the same 64-bit two's-complement pattern as `u`.
pub open spec fn i64_of_u64(u: u64) -> i64 {
    if u < 0x8000_0000_0000_0000 {
        u as i64
    } else {
        (u - 0x1_0000_0000_0000_0000) as i64
    }
}

/// The wire bytes of a signed integer: a single-byte fixint when it fits,
/// else the smallest signed-width tag (int8/16/32/64) that represents it.
pub open spec fn mp_enc_int(v: i64) -> Seq<u8> {
    if 0 <= v < 128 {
        seq![v as u8]
    } else if -32 <= v < 0 {
        seq![(v + 256) as u8]
    } else if -0x80 <= v < 0x80 {
        seq![0xd0u8, (v + 256) as u8]
    } else if -0x8000 <= v < 0x8000 {
        seq![0xd1u8] + be16((if v >= 0 { v as int } else { v + 0x1_0000 }) as u16)
    } else if -0x8000_0000 <= v < 0x8000_0000 {
        seq![0xd2u8] + be32((if v >= 0 { v as int } else { v + 0x1_0000_0000 }) as u32)
    } else {
        seq![0xd3u8] + be64(u64_of_i64(v))
    }
}

/// The wire bytes of a string payload of `bs` (its UTF-8 bytes): a fixstr
/// tag below 0x20 bytes, else str8/16/32 by length.
pub open spec fn mp_enc_str(bs: Seq<u8>) -> Seq<u8> {
    if bs.len() < 0x20 {
        seq![(0xa0 + bs.len()) as u8] + bs
    } else if bs.len() < 0x100 {
        seq![0xd9u8, bs.len() as u8] + bs
    } else if bs.len() < 0x1_0000 {
        seq![0xdau8] + be16(bs.len() as u16) + bs
    } else {
        seq![0xdbu8] + be32((bs.len() % 0x1_0000_0000) as u32) + bs
    }
}

/// The wire bytes of a raw byte payload: bin8/16/32 by length.
pub open spec fn mp_enc_bin(bs: Seq<u8>) -> Seq<u8> {
    if bs.len() < 0x100 {
        seq![0xc4u8, bs.len() as u8] + bs
    } else if bs.len() < 0x1_0000 {
        seq![0xc5u8] + be16(bs.len() as u16) + bs
    } else {
        seq![0xc6u8] + be32((bs.len() % 0x1_0000_0000) as u32) + bs
    }
}

/// The header bytes of an array of `n` elements.
pub open spec fn mp_arr_header(n: int) -> Seq<u8> {
    if n < 0x10 {
        seq![(0x90 + n) as u8]
    } else if n < 0x1_0000 {
        seq![0xdcu8] + be16(n as u16)
    } else {
        seq![0xddu8] + be32((n % 0x1_0000_0000) as u32)
    }
}

/// The header bytes of a map of `n` entries.
pub open spec fn mp_map_header(n: int) -> Seq<u8> {
    if n < 16 {
        seq![(0x80 + n) as u8]
    } else if n < 0x1_0000 {
        seq![0xdeu8] + be16(n as u16)
    } else {
        seq![0xdfu8] + be32((n % 0x1_0000_0000) as u32)
    }
}

/// The full wire encoding of a value snapshot. `Float` is widened to a
/// 64-bit pattern: no float32 tag is ever emitted. `UInt` reuses the signed
/// path with its bits reinterpreted. Map entries appear in ascending key
/// order, as the snapshot holds them.
pub open spec fn mp_enc_tree(t: Tree) -> Seq<u8>
    decreases t,
{
    match t {
        Tree::Null => seq![0xc0u8],
        Tree::Bool(b) => seq![if b { 0xc3u8 } else { 0xc2u8 }],
        Tree::Byte(b) => seq![0xccu8, b],
        Tree::Int(i) => mp_enc_int(i),
        Tree::UInt(u) => mp_enc_int(i64_of_u64(u)),
        Tree::Float(fb) => seq![0xcbu8] + be64(crate::ieee::widen_bits(fb)),
        Tree::Double(db) => seq![0xcbu8] + be64(db),
        Tree::Str(cs) => mp_enc_str(vstd::utf8::encode_utf8(cs)),
        Tree::Bytes(bs) => mp_enc_bin(bs),
        Tree::Arr(ts) => mp_arr_header(ts.len() as int) + mp_enc_list(ts),
        Tree::Obj(es) => mp_map_header(es.len() as int) + mp_enc_entries(es),
    }
}

/// The concatenated wire encodings of a sequence of snapshots.
pub open spec fn mp_enc_list(ts: Seq<Tree>) -> Seq<u8>
    decreases ts,
{
    if ts.len() == 0 {
        Seq::empty()
    } else {
        mp_enc_tree(ts[0]) + mp_enc_list(ts.drop_first())
    }
}

/// The concatenated wire encodings of a map's entries: each key as a
/// string, followed by its value.
pub open spec fn mp_enc_entries(es: Seq<(Seq<char>, Tree)>) -> Seq<u8>
    decreases es,
{
    if es.len() == 0 {
        Seq::empty()
    } else {
        mp_enc_str(vstd::utf8::encode_utf8(es[0].0)) + mp_enc_tree(es[0].1) + mp_enc_entries(
            es.drop_first(),
        )
    }
}

/// Groups a flat, alternating key/value sequence of decoded snapshots into
/// pairs; an element in key position must be a string.
pub open spec fn mp_pairs(ts: Seq<Tree>) -> Result<Seq<(Seq<char>, Tree)>, MpError>
    decreases ts.len(),
{
    if ts.len() < 2 {
        Result::Ok(Seq::empty())
    } else if !(ts[0] is Str) {
        Result::Err(MpError::KeyNotString)
    } else {
        match mp_pairs(ts.skip(2)) {
            Result::Ok(rest) => Result::Ok(seq![(ts[0]->Str_0, ts[1])] + rest),
            Result::Err(e) => Result::Err(e),
        }
    }
}

/// The snapshot a flattened-pair map decodes to: the pairs are inserted in
/// wire order into an empty map, a later duplicate key overwriting an
/// earlier one.
pub open spec fn mp_obj_of(ts: Seq<Tree>) -> Result<Tree, MpError> {
    match mp_pairs(ts) {
        Result::Ok(pairs) => Result::Ok(Tree::Obj(entries_to_obj(pairs))),
        Result::Err(e) => Result::Err(e),
    }
}

/// Specification of the binary decoder: the snapshot encoded at the front
/// of `bytes` and how many bytes its encoding occupies, or the error the
/// decoder reports. Every branch demands that the buffer covers the header
/// and the payload it declares. Extension tags (ext and fixext) are
/// recognized and skipped, decoding to `Null`.
pub open spec fn mp_parse(bytes: Seq<u8>) -> Result<(Tree, int), MpError>
    decreases bytes.len(), 0int, 0int,
{
    if bytes.len() < 1 {
        Result::Err(MpError::Insufficient)
    } else {
        let b = bytes[0];
        if b <= 0x7f {
            Result::Ok((Tree::Int(b as i64), 1))
        } else if b >= 0xe0 {
            Result::Ok((Tree::Int((b - 256) as i64), 1))
        } else if 0x80 <= b <= 0x8f {
            let n = (b - 0x80) as nat;
            match mp_parse_list(bytes.skip(1), 2 * n) {
                Result::Ok((ts, sz)) => match mp_obj_of(ts) {
                    Result::Ok(t) => Result::Ok((t, 1 + sz)),
                    Result::Err(e) => Result::Err(e),
                },
                Result::Err(e) => Result::Err(e),
            }
        } else if 0x90 <= b <= 0x9f {
            let n = (b - 0x90) as nat;
            match mp_parse_list(bytes.skip(1), n) {
                Result::Ok((ts, sz)) => Result::Ok((Tree::Arr(ts), 1 + sz)),
                Result::Err(e) => Result::Err(e),
            }
        } else if 0xa0 <= b <= 0xbf {
            let n = (b - 0xa0) as int;
            mp_parse_strbytes(bytes, 1, n)
        } else if b == 0xc0 {
            Result::Ok((Tree::Null, 1))
        } else if b == 0xc1 {
            Result::Err(MpError::Reserved)
        } else if b == 0xc2 {
            Result::Ok((Tree::Bool(false), 1))
        } else if b == 0xc3 {
            Result::Ok((Tree::Bool(true), 1))
        } else if b == 0xc4 {
            if bytes.len() < 2 {
                Result::Err(MpError::Insufficient)
            } else {
                mp_parse_binbytes(bytes, 2, bytes[1] as int)
            }
        } else if b == 0xc5 {
            if bytes.len() < 3 {
                Result::Err(MpError::Insufficient)
            } else {
                mp_parse_binbytes(bytes, 3, u16_of_be(bytes[1], bytes[2]) as int)
            }
        } else if b == 0xc6 {
            if bytes.len() < 5 {
                Result::Err(MpError::Insufficient)
            } else {
                mp_parse_binbytes(bytes, 5, u32_of_be(bytes[1], bytes[2], bytes[3], bytes[4]) as int)
            }
        } else if b == 0xc7 {
            if bytes.len() < 3 {
                Result::Err(MpError::Insufficient)
            } else if bytes.len() < 3 + bytes[1] as int {
                Result::Err(MpError::Insufficient)
            } else {
                Result::Ok((Tree::Null, 3 + bytes[1] as int))
            }
        } else if b == 0xc8 {
            if bytes.len() < 4 {
                Result::Err(MpError::Insufficient)
            } else if bytes.len() < 4 + u16_of_be(bytes[1], bytes[2]) as int {
                Result::Err(MpError::Insufficient)
            } else {
                Result::Ok((Tree::Null, 4 + u16_of_be(bytes[1], bytes[2]) as int))
            }
        } else if b == 0xc9 {
            if bytes.len() < 6 {
                Result::Err(MpError::Insufficient)
            } else if bytes.len() < 6 + u32_of_be(bytes[1], bytes[2], bytes[3], bytes[4]) as int {
                Result::Err(MpError::Insufficient)
            } else {
                Result::Ok((Tree::Null, 6 + u32_of_be(bytes[1], bytes[2], bytes[3], bytes[4]) as int))
            }
        } else if b == 0xca {
            if bytes.len() < 5 {
                Result::Err(MpError::Insufficient)
            } else {
                Result::Ok(
                    (
                        Tree::Double(
                            crate::ieee::widen_bits(
                                u32_of_be(bytes[1], bytes[2], bytes[3], bytes[4]),
                            ),
                        ),
                        5,
                    ),
                )
            }
        } else if b == 0xcb {
            if bytes.len() < 9 {
                Result::Err(MpError::Insufficient)
            } else {
                Result::Ok(
                    (
                        Tree::Double(
                            u64_of_be(
                                bytes[1],
                                bytes[2],
                                bytes[3],
                                bytes[4],
                                bytes[5],
                                bytes[6],
                                bytes[7],
                                bytes[8],
                            ),
                        ),
                        9,
                    ),
                )
            }
        } else if b == 0xcc {
            if bytes.len() < 2 {
                Result::Err(MpError::Insufficient)
            } else {
                Result::Ok((Tree::Int(bytes[1] as i64), 2))
            }
        } else if b == 0xcd {
            if bytes.len() < 3 {
                Result::Err(MpError::Insufficient)
            } else {
                Result::Ok((Tree::Int(u16_of_be(bytes[1], bytes[2]) as i64), 3))
            }
        } else if b == 0xce {
            if bytes.len() < 5 {
                Result::Err(MpError::Insufficient)
            } else {
                Result::Ok((Tree::Int(u32_of_be(bytes[1], bytes[2], bytes[3], bytes[4]) as i64), 5))
            }
        } else if b == 0xcf {
            if bytes.len() < 9 {
                Result::Err(MpError::Insufficient)
            } else {
                Result::Ok(
                    (
                        Tree::Int(
                            i64_of_u64(
                                u64_of_be(
                                    bytes[1],
                                    bytes[2],
                                    bytes[3],
                                    bytes[4],
                                    bytes[5],
                                    bytes[6],
                                    bytes[7],
                                    bytes[8],
                                ),
                            ),
                        ),
                        9,
                    ),
                )
            }
        } else if b == 0xd0 {
            if bytes.len() < 2 {
                Result::Err(MpError::Insufficient)
            } else {
                let w = bytes[1] as int;
                Result::Ok((Tree::Int((if w < 0x80 { w } else { w - 0x100 }) as i64), 2))
            }
        } else if b == 0xd1 {
            if bytes.len() < 3 {
                Result::Err(MpError::Insufficient)
            } else {
                let w = u16_of_be(bytes[1], bytes[2]) as int;
                Result::Ok((Tree::Int((if w < 0x8000 { w } else { w - 0x1_0000 }) as i64), 3))
            }
        } else if b == 0xd2 {
            if bytes.len() < 5 {
                Result::Err(MpError::Insufficient)
            } else {
                let w = u32_of_be(bytes[1], bytes[2], bytes[3], bytes[4]) as int;
                Result::Ok(
                    (Tree::Int((if w < 0x8000_0000 { w } else { w - 0x1_0000_0000 }) as i64), 5),
                )
            }
        } else if b == 0xd3 {
            if bytes.len() < 9 {
                Result::Err(MpError::Insufficient)
            } else {
                Result::Ok(
                    (
                        Tree::Int(
                            i64_of_u64(
                                u64_of_be(
                                    bytes[1],
                                    bytes[2],
                                    bytes[3],
                                    bytes[4],
                                    bytes[5],
                                    bytes[6],
                                    bytes[7],
                                    bytes[8],
                                ),
                            ),
                        ),
                        9,
                    ),
                )
            }
        } else if b == 0xd4 {
            if bytes.len() < 3 {
                Result::Err(MpError::Insufficient)
            } else {
                Result::Ok((Tree::Null, 3))
            }
        } else if b == 0xd5 {
            if bytes.len() < 4 {
                Result::Err(MpError::Insufficient)
            } else {
                Result::Ok((Tree::Null, 4))
            }
        } else if b == 0xd6 {
            if bytes.len() < 6 {
                Result::Err(MpError::Insufficient)
            } else {
                Result::Ok((Tree::Null, 6))
            }
        } else if b == 0xd7 {
            if bytes.len() < 10 {
                Result::Err(MpError::Insufficient)
            } else {
                Result::Ok((Tree::Null, 10))
            }
        } else if b == 0xd8 {
            if bytes.len() < 18 {
                Result::Err(MpError::Insufficient)
            } else {
                Result::Ok((Tree::Null, 18))
            }
        } else if b == 0xd9 {
            if bytes.len() < 2 {
                Result::Err(MpError::Insufficient)
            } else {
                mp_parse_strbytes(bytes, 2, bytes[1] as int)
            }
        } else if b == 0xda {
            if bytes.len() < 3 {
                Result::Err(MpError::Insufficient)
            } else {
                mp_parse_strbytes(bytes, 3, u16_of_be(bytes[1], bytes[2]) as int)
            }
        } else if b == 0xdb {
            if bytes.len() < 5 {
                Result::Err(MpError::Insufficient)
            } else {
                mp_parse_strbytes(bytes, 5, u32_of_be(bytes[1], bytes[2], bytes[3], bytes[4]) as int)
            }
        } else if b == 0xdc {
            if bytes.len() < 3 {
                Result::Err(MpError::Insufficient)
            } else {
                match mp_parse_list(bytes.skip(3), u16_of_be(bytes[1], bytes[2]) as nat) {
                    Result::Ok((ts, sz)) => Result::Ok((Tree::Arr(ts), 3 + sz)),
                    Result::Err(e) => Result::Err(e),
                }
            }
        } else if b == 0xdd {
            if bytes.len() < 5 {
                Result::Err(MpError::Insufficient)
            } else {
                match mp_parse_list(
                    bytes.skip(5),
                    u32_of_be(bytes[1], bytes[2], bytes[3], bytes[4]) as nat,
                ) {
                    Result::Ok((ts, sz)) => Result::Ok((Tree::Arr(ts), 5 + sz)),
                    Result::Err(e) => Result::Err(e),
                }
            }
        } else if b == 0xde {
            if bytes.len() < 3 {
                Result::Err(MpError::Insufficient)
            } else {
                match mp_parse_list(bytes.skip(3), 2 * (u16_of_be(bytes[1], bytes[2]) as nat)) {
                    Result::Ok((ts, sz)) => match mp_obj_of(ts) {
                        Result::Ok(t) => Result::Ok((t, 3 + sz)),
                        Result::Err(e) => Result::Err(e),
                    },
                    Result::Err(e) => Result::Err(e),
                }
            }
        } else {
            // b == 0xdf: the tag space is fully covered
            if bytes.len() < 5 {
                Result::Err(MpError::Insufficient)
            } else {
                match mp_parse_list(
                    bytes.skip(5),
                    2 * (u32_of_be(bytes[1], bytes[2], bytes[3], bytes[4]) as nat),
                ) {
                    Result::Ok((ts, sz)) => match mp_obj_of(ts) {
                        Result::Ok(t) => Result::Ok((t, 5 + sz)),
                        Result::Err(e) => Result::Err(e),
                    },
                    Result::Err(e) => Result::Err(e),
                }
            }
        }
    }
}

/// A string payload of `n` bytes starting at offset `at`: the buffer must
/// cover it and it must be valid UTF-8.
pub open spec fn mp_parse_strbytes(bytes: Seq<u8>, at: int, n: int) -> Result<(Tree, int), MpError> {
    if bytes.len() < at + n {
        Result::Err(MpError::Insufficient)
    } else {
        let bs = bytes.subrange(at, at + n);
        if vstd::utf8::valid_utf8(bs) {
            Result::Ok((Tree::Str(vstd::utf8::decode_utf8(bs)), at + n))
        } else {
            Result::Err(MpError::BadUtf8)
        }
    }
}

/// A raw byte payload of `n` bytes starting at offset `at`.
pub open spec fn mp_parse_binbytes(bytes: Seq<u8>, at: int, n: int) -> Result<(Tree, int), MpError> {
    if bytes.len() < at + n {
        Result::Err(MpError::Insufficient)
    } else {
        Result::Ok((Tree::Bytes(bytes.subrange(at, at + n)), at + n))
    }
}

/// `count` consecutive values from the front of `bytes`: their snapshots
/// and the total bytes consumed.
pub open spec fn mp_parse_list(bytes: Seq<u8>, count: nat) -> Result<(Seq<Tree>, int), MpError>
    decreases bytes.len(), 1int, count,
{
    if count == 0 {
        Result::Ok((Seq::empty(), 0))
    } else {
        match mp_parse(bytes) {
            Result::Ok((t, sz)) => {
                if 0 <= sz <= bytes.len() {
                    match mp_parse_list(bytes.skip(sz), (count - 1) as nat) {
                        Result::Ok((ts, sz2)) => Result::Ok((seq![t] + ts, sz + sz2)),
                        Result::Err(e) => Result::Err(e),
                    }
                } else {
                    Result::Err(MpError::Insufficient)
                }
            },
            Result::Err(e) => Result::Err(e),
        }
    }
}

/// Relies on byteorder's `WriteBytesExt::write_u16` with `BigEndian`: it
/// appends the two big-endian bytes of `v`; writing to a `Vec<u8>` never
/// fails.
#[verifier::external_body]
fn write_u16_be(buf: &mut Vec<u8>, v: u16)
    ensures
        final(buf)@ == old(buf)@ + be16(v),
{
    buf.write_u16::<BigEndian>(v).unwrap();
}

/// Relies on byteorder's `WriteBytesExt::write_u32` with `BigEndian`: it
/// appends the four big-endian bytes of `v`; writing to a `Vec<u8>` never
/// fails.
#[verifier::external_body]
fn write_u32_be(buf: &mut Vec<u8>, v: u32)
    ensures
        final(buf)@ == old(buf)@ + be32(v),
{
    buf.write_u32::<BigEndian>(v).unwrap();
}

/// Relies on byteorder's `WriteBytesExt::write_u64` with `BigEndian`: it
/// appends the eight big-endian bytes of `v`; writing to a `Vec<u8>` never
/// fails.
#[verifier::external_body]
fn write_u64_be(buf: &mut Vec<u8>, v: u64)
    ensures
        final(buf)@ == old(buf)@ + be64(v),
{
    buf.write_u64::<BigEndian>(v).unwrap();
}

/// Relies on byteorder's `WriteBytesExt::write_i8`: it appends the one
/// two's-complement byte of `v`; writing to a `Vec<u8>` never fails.
#[verifier::external_body]
fn write_i8_byte(buf: &mut Vec<u8>, v: i8)
    ensures
        final(buf)@ == old(buf)@ + seq![(if v >= 0 { v as int } else { v + 0x100 }) as u8],
{
    buf.write_i8(v).unwrap();
}

/// Relies on byteorder's `WriteBytesExt::write_i16` with `BigEndian`: it
/// appends the two big-endian two's-complement bytes of `v`; writing to a
/// `Vec<u8>` never fails.
#[verifier::external_body]
fn write_i16_be(buf: &mut Vec<u8>, v: i16)
    ensures
        final(buf)@ == old(buf)@ + be16((if v >= 0 { v as int } else { v + 0x1_0000 }) as u16),
{
    buf.write_i16::<BigEndian>(v).unwrap();
}

/// Relies on byteorder's `WriteBytesExt::write_i32` with `BigEndian`: it
/// appends the four big-endian two's-complement bytes of `v`; writing to a
/// `Vec<u8>` never fails.
#[verifier::external_body]
fn write_i32_be(buf: &mut Vec<u8>, v: i32)
    ensures
        final(buf)@ == old(buf)@ + be32(
            (if v >= 0 { v as int } else { v + 0x1_0000_0000 }) as u32,
        ),
{
    buf.write_i32::<BigEndian>(v).unwrap();
}

/// Relies on byteorder's `WriteBytesExt::write_i64` with `BigEndian`: it
/// appends the eight big-endian two's-complement bytes of `v`; writing to a
/// `Vec<u8>` never fails.
#[verifier::external_body]
fn write_i64_be(buf: &mut Vec<u8>, v: i64)
    ensures
        final(buf)@ == old(buf)@ + be64(u64_of_i64(v)),
{
    buf.write_i64::<BigEndian>(v).unwrap();
}

/// Appending one snapshot to an encoded list encoding appends its bytes.
proof fn lemma_mp_enc_list_snoc(ts: Seq<Tree>, t: Tree)
    ensures
        mp_enc_list(ts.push(t)) == mp_enc_list(ts) + mp_enc_tree(t),
    decreases ts.len(),
{
    if ts.len() == 0 {
        assert(ts.push(t)[0] == t);
        assert(ts.push(t).drop_first() =~= Seq::<Tree>::empty());
        assert(mp_enc_list(Seq::<Tree>::empty()) == Seq::<u8>::empty());
        assert(mp_enc_list(ts.push(t)) =~= mp_enc_list(ts) + mp_enc_tree(t));
    } else {
        lemma_mp_enc_list_snoc(ts.drop_first(), t);
        assert(ts.push(t).drop_first() =~= ts.drop_first().push(t));
        assert(ts.push(t)[0] == ts[0]);
        assert(mp_enc_tree(ts[0]) + (mp_enc_list(ts.drop_first()) + mp_enc_tree(t)) =~= (
        mp_enc_tree(ts[0]) + mp_enc_list(ts.drop_first())) + mp_enc_tree(t));
    }
}

/// Appending one entry to an encoded entry list appends its bytes.
proof fn lemma_mp_enc_entries_snoc(es: Seq<(Seq<char>, Tree)>, e: (Seq<char>, Tree))
    ensures
        mp_enc_entries(es.push(e)) == mp_enc_entries(es) + mp_enc_str(
            vstd::utf8::encode_utf8(e.0),
        ) + mp_enc_tree(e.1),
    decreases es.len(),
{
    if es.len() == 0 {
        assert(es.push(e)[0] == e);
        assert(es.push(e).drop_first() =~= Seq::<(Seq<char>, Tree)>::empty());
        assert(mp_enc_entries(Seq::<(Seq<char>, Tree)>::empty()) == Seq::<u8>::empty());
        assert(mp_enc_entries(es.push(e)) =~= mp_enc_entries(es) + mp_enc_str(
            vstd::utf8::encode_utf8(e.0),
        ) + mp_enc_tree(e.1));
    } else {
        lemma_mp_enc_entries_snoc(es.drop_first(), e);
        assert(es.push(e).drop_first() =~= es.drop_first().push(e));
        assert(es.push(e)[0] == es[0]);
        let h = mp_enc_str(vstd::utf8::encode_utf8(es[0].0)) + mp_enc_tree(es[0].1);
        assert(h + (mp_enc_entries(es.drop_first()) + mp_enc_str(vstd::utf8::encode_utf8(e.0))
            + mp_enc_tree(e.1)) =~= (h + mp_enc_entries(es.drop_first())) + mp_enc_str(
            vstd::utf8::encode_utf8(e.0),
        ) + mp_enc_tree(e.1));
    }
}

/// Encoding to the MessagePack wire format.
pub trait MsgPack {
    /// What must hold of the value in the given store for its encoding to
    /// be defined.
    spec fn mp_ok(&self, s: StoreV) -> bool;

    /// The wire bytes the encoder appends.
    spec fn mp_bytes(&self, s: StoreV) -> Seq<u8>;

    /// Appends the value's wire bytes to `buf`.
    fn encode(&self, store: &Store, buf: &mut Vec<u8>)
        requires
            self.mp_ok(store@),
        ensures
            final(buf)@ == old(buf)@ + self.mp_bytes(store@),
    ;
}

impl MsgPack for i64 {
    open spec fn mp_ok(&self, s: StoreV) -> bool {
        true
    }

    open spec fn mp_bytes(&self, s: StoreV) -> Seq<u8> {
        mp_enc_int(*self)
    }

    /// Fixint ranges first, else the smallest signed width that represents
    /// the value.
    fn encode(&self, store: &Store, buf: &mut Vec<u8>) {
        let v = *self;
        let ghost b0 = buf@;
        if v >= 0 && v < 128 {
            buf.push(v as u8);
            proof {
                assert(buf@ =~= b0 + mp_enc_int(v));
            }
        } else if v < 0 && v >= -32 {
            buf.push((v + 256) as u8);
            proof {
                assert(buf@ =~= b0 + mp_enc_int(v));
            }
        } else if v >= -0x80 && v < 0x80 {
            buf.push(0xd0);
            write_i8_byte(buf, v as i8);
            proof {
                assert(buf@ =~= b0 + mp_enc_int(v));
            }
        } else if v >= -0x8000 && v < 0x8000 {
            buf.push(0xd1);
            write_i16_be(buf, v as i16);
            proof {
                assert(buf@ =~= b0 + mp_enc_int(v));
            }
        } else if v >= -0x8000_0000 && v < 0x8000_0000 {
            buf.push(0xd2);
            write_i32_be(buf, v as i32);
            proof {
                assert(buf@ =~= b0 + mp_enc_int(v));
            }
        } else {
            buf.push(0xd3);
            write_i64_be(buf, v);
            proof {
                assert(buf@ =~= b0 + mp_enc_int(v));
            }
        }
    }
}

impl MsgPack for str {
    open spec fn mp_ok(&self, s: StoreV) -> bool {
        true
    }

    open spec fn mp_bytes(&self, s: StoreV) -> Seq<u8> {
        mp_enc_str(self.spec_bytes())
    }

    /// A fixstr tag below 0x20 bytes, else str8/16/32 by byte length.
    fn encode(&self, store: &Store, buf: &mut Vec<u8>) {
        let ghost b0 = buf@;
        let payload_slice = self.as_bytes();
        let length = payload_slice.len();
        if length < 0x20 {
            buf.push((0xa0 + length) as u8);
        } else if length < 0x100 {
            buf.push(0xd9);
            buf.push(length as u8);
        } else if length < 0x10000 {
            buf.push(0xda);
            write_u16_be(buf, length as u16);
        } else {
            buf.push(0xdb);
            write_u32_be(buf, ((length as u64) % 0x1_0000_0000) as u32);
        }
        let mut payload = vstd::slice::slice_to_vec(payload_slice);
        buf.append(&mut payload);
        proof {
            assert(buf@ =~= b0 + mp_enc_str(self.spec_bytes()));
        }
    }
}

/// The payload bytes of a `Bytes` value: bin8/16/32 by length.
fn encode_bin(raw: &Vec<u8>, buf: &mut Vec<u8>)
    ensures
        final(buf)@ == old(buf)@ + mp_enc_bin(raw@),
{
    let ghost b0 = buf@;
    let length = raw.len();
    if length < 0x100 {
        buf.push(0xc4);
        buf.push(length as u8);
    } else if length < 0x10000 {
        buf.push(0xc5);
        write_u16_be(buf, length as u16);
    } else {
        buf.push(0xc6);
        write_u32_be(buf, ((length as u64) % 0x1_0000_0000) as u32);
    }
    let mut payload = vstd::slice::slice_to_vec(raw.as_slice());
    buf.append(&mut payload);
    proof {
        assert(buf@ =~= b0 + mp_enc_bin(raw@));
    }
}

/// The two's-complement signed reading of `u`.
fn u64_as_i64(u: u64) -> (r: i64)
    ensures
        r == i64_of_u64(u),
{
    if u <= 0x7fff_ffff_ffff_ffff {
        u as i64
    } else {
        let m = (0xffff_ffff_ffff_ffffu64 - u) as i64;
        -1 - m
    }
}

/// Recursive encoder over the store, guided by the value's snapshot.
fn encode_at(v: &Dynamic, store: &Store, buf: &mut Vec<u8>, Ghost(t): Ghost<Tree>)
    requires
        represents(store@, v@, t),
    ensures
        final(buf)@ == old(buf)@ + mp_enc_tree(t),
    decreases t,
{
    broadcast use crate::dynamic::lemma_aview_index, crate::dynamic::lemma_eview_index;
    broadcast use vstd::seq::group_seq_axioms;

    let ghost b0 = buf@;
    match v {
        Dynamic::Null => {
            buf.push(0xc0);
            proof {
                assert(buf@ =~= b0 + mp_enc_tree(t));
            }
        },
        Dynamic::Bool(b) => {
            buf.push(if *b {
                0xc3
            } else {
                0xc2
            });
            proof {
                assert(buf@ =~= b0 + mp_enc_tree(t));
            }
        },
        Dynamic::Byte(b) => {
            buf.push(0xcc);
            buf.push(*b);
            proof {
                assert(buf@ =~= b0 + mp_enc_tree(t));
            }
        },
        Dynamic::Int(i) => {
            i.encode(store, buf);
        },
        Dynamic::UInt(u) => {
            // the scripting runtime this model grew beside has no unsigned
            // 64-bit integers, so the unsigned payload rides the signed path
            let w = u64_as_i64(*u);
            w.encode(store, buf);
        },
        Dynamic::Float(bits) => {
            buf.push(0xcb);
            write_u64_be(buf, crate::ieee::widen_bits_exec(*bits));
            proof {
                assert(buf@ =~= b0 + mp_enc_tree(t));
            }
        },
        Dynamic::Double(bits) => {
            buf.push(0xcb);
            write_u64_be(buf, *bits);
            proof {
                assert(buf@ =~= b0 + mp_enc_tree(t));
            }
        },
        Dynamic::Str(s) => {
            s.as_str().encode(store, buf);
        },
        Dynamic::Bytes(raw) => {
            encode_bin(raw, buf);
        },
        Dynamic::Arr(h) => {
            let ghost ts = t->Arr_0;
            let items = store.arr_slot(*h);
            let length = items.len();
            if length < 0x10 {
                buf.push((0x90 + length) as u8);
            } else if length < 0x10000 {
                buf.push(0xdc);
                write_u16_be(buf, length as u16);
            } else {
                buf.push(0xdd);
                write_u32_be(buf, ((length as u64) % 0x1_0000_0000) as u32);
            }
            proof {
                assert(buf@ =~= b0 + mp_arr_header(ts.len() as int));
                assert(ts.take(0) =~= Seq::<Tree>::empty());
            }
            let ghost bh = buf@;
            let mut i: usize = 0;
            while i < items.len()
                invariant
                    t == Tree::Arr(ts),
                    i <= items@.len(),
                    items@.len() == ts.len(),
                    forall|j: int|
                        0 <= j < ts.len() ==> represents(
                            store@,
                            aview(items@)[j],
                            #[trigger] ts[j],
                        ),
                    aview(items@) == store@.arrays[v@->Arr_0],
                    buf@ == bh + mp_enc_list(ts.take(i as int)),
                decreases items@.len() - i,
            {
                proof {
                    broadcast use vstd::seq::group_seq_axioms;

                    lemma_aview_index(items@, i as int);
                    assert(decreases_to!(t => t->Arr_0));
                    assert(t->Arr_0 == ts);
                    assert(decreases_to!(ts => ts[i as int]));
                }
                encode_at(&items[i], store, buf, Ghost(ts[i as int]));
                proof {
                    lemma_mp_enc_list_snoc(ts.take(i as int), ts[i as int]);
                    assert(ts.take(i as int).push(ts[i as int]) =~= ts.take(i as int + 1));
                    assert(bh + mp_enc_list(ts.take(i as int)) + mp_enc_tree(ts[i as int]) =~= bh
                        + (mp_enc_list(ts.take(i as int)) + mp_enc_tree(ts[i as int])));
                }
                i += 1;
            }
            proof {
                assert(ts.take(ts.len() as int) =~= ts);
                assert(buf@ =~= b0 + mp_enc_tree(t));
            }
        },
        Dynamic::Obj(h) => {
            let ghost es = t->Obj_0;
            let entries = store.obj_slot(*h);
            let length = entries.len();
            if length < 16 {
                buf.push((0x80 + length) as u8);
            } else if length < 0x10000 {
                buf.push(0xde);
                write_u16_be(buf, length as u16);
            } else {
                buf.push(0xdf);
                write_u32_be(buf, ((length as u64) % 0x1_0000_0000) as u32);
            }
            proof {
                assert(buf@ =~= b0 + mp_map_header(es.len() as int));
                assert(es.take(0) =~= Seq::<(Seq<char>, Tree)>::empty());
            }
            let ghost bh = buf@;
            let mut i: usize = 0;
            while i < entries.len()
                invariant
                    t == Tree::Obj(es),
                    i <= entries@.len(),
                    entries@.len() == es.len(),
                    forall|j: int|
                        0 <= j < es.len() ==> eview(entries@)[j].0 == (#[trigger] es[j]).0
                            && represents(store@, eview(entries@)[j].1, es[j].1),
                    eview(entries@) == store@.objects[v@->Obj_0],
                    buf@ == bh + mp_enc_entries(es.take(i as int)),
                decreases entries@.len() - i,
            {
                proof {
                    broadcast use vstd::seq::group_seq_axioms;

                    lemma_eview_index(entries@, i as int);
                    assert(decreases_to!(t => t->Obj_0));
                    assert(t->Obj_0 == es);
                    assert(decreases_to!(es => es[i as int]));
                    assert(decreases_to!(es[i as int] => es[i as int].1));
                }
                entries[i].0.as_str().encode(store, buf);
                encode_at(&entries[i].1, store, buf, Ghost(es[i as int].1));
                proof {
                    lemma_mp_enc_entries_snoc(es.take(i as int), es[i as int]);
                    assert(es.take(i as int).push(es[i as int]) =~= es.take(i as int + 1));
                    assert(vstd::utf8::encode_utf8(es[i as int].0) == vstd::utf8::encode_utf8(
                        entries@[i as int].0@,
                    ));
                    assert(bh + mp_enc_entries(es.take(i as int)) + mp_enc_str(
                        vstd::utf8::encode_utf8(entries@[i as int].0@),
                    ) + mp_enc_tree(es[i as int].1) =~= bh + (mp_enc_entries(es.take(i as int))
                        + mp_enc_str(vstd::utf8::encode_utf8(es[i as int].0)) + mp_enc_tree(
                        es[i as int].1,
                    )));
                }
                i += 1;
            }
            proof {
                assert(es.take(es.len() as int) =~= es);
                assert(buf@ =~= b0 + mp_enc_tree(t));
            }
        },
    }
}

impl MsgPack for Dynamic {
    open spec fn mp_ok(&self, s: StoreV) -> bool {
        has_tree(s, self@)
    }

    open spec fn mp_bytes(&self, s: StoreV) -> Seq<u8> {
        mp_enc_tree(tree_of(s, self@))
    }

    /// Walks the value's snapshot in the store and appends its wire bytes.
    fn encode(&self, store: &Store, buf: &mut Vec<u8>) {
        let ghost t = tree_of(store@, self@);
        proof {
            let witness = choose|w: Tree| represents(store@, self@, w);
            assert(represents(store@, self@, witness));
            crate::dynamic::lemma_represents_unique(store@, self@, witness, t);
        }
        encode_at(self, store, buf, Ghost(t));
    }
}

/// The byte at the front of `raw`.
pub fn read_8(raw: &[u8]) -> (r: u8)
    requires
        raw@.len() >= 1,
    ensures
        r == raw@[0],
{
    raw[0]
}

/// The big-endian 16-bit value at the front of `raw`.
pub fn read_16(raw: &[u8]) -> (r: u16)
    requires
        raw@.len() >= 2,
    ensures
        r == u16_of_be(raw@[0], raw@[1]),
{
    (raw[0] as u16) * 0x100 + (raw[1] as u16)
}

/// The big-endian 32-bit value at the front of `raw`.
pub fn read_32(raw: &[u8]) -> (r: u32)
    requires
        raw@.len() >= 4,
    ensures
        r == u32_of_be(raw@[0], raw@[1], raw@[2], raw@[3]),
{
    (raw[0] as u32) * 0x100_0000 + (raw[1] as u32) * 0x1_0000 + (raw[2] as u32) * 0x100 + (
    raw[3] as u32)
}

/// The big-endian 64-bit value at the front of `raw`.
pub fn read_64(raw: &[u8]) -> (r: u64)
    requires
        raw@.len() >= 8,
    ensures
        r == u64_of_be(raw@[0], raw@[1], raw@[2], raw@[3], raw@[4], raw@[5], raw@[6], raw@[7]),
{
    (raw[0] as u64) * 0x100_0000_0000_0000 + (raw[1] as u64) * 0x1_0000_0000_0000 + (raw[2] as u64)
        * 0x100_0000_0000 + (raw[3] as u64) * 0x1_0000_0000 + (raw[4] as u64) * 0x100_0000 + (
    raw[5] as u64) * 0x1_0000 + (raw[6] as u64) * 0x100 + (raw[7] as u64)
}

/// Reads the string payload of `n` bytes that starts at offset `at`.
fn dec_str(buf: &[u8], at: usize, n: usize) -> (r: Result<(Dynamic, usize), MpError>)
    ensures
        match r {
            Ok((v, sz)) => mp_parse_strbytes(buf@, at as int, n as int) matches Ok((t, s2)) && s2
                == sz as int && (forall|s: StoreV| represents(s, v@, t)),
            Err(e) => mp_parse_strbytes(buf@, at as int, n as int) matches Err(e2) && e2 == e,
        },
{
    if n > buf.len() || at > buf.len() - n {
        return Err(MpError::Insufficient);
    }
    let bs = vstd::slice::slice_subrange(buf, at, at + n);
    match crate::dynamic::utf8_to_string(bs) {
        Some(s) => {
            let d = Dynamic::Str(s);
            proof {
                assert(forall|st: StoreV|
                    represents(st, d@, Tree::Str(vstd::utf8::decode_utf8(bs@))));
            }
            Ok((d, at + n))
        },
        None => Err(MpError::BadUtf8),
    }
}

/// Reads the raw byte payload of `n` bytes that starts at offset `at`.
fn dec_bin(buf: &[u8], at: usize, n: usize) -> (r: Result<(Dynamic, usize), MpError>)
    ensures
        match r {
            Ok((v, sz)) => mp_parse_binbytes(buf@, at as int, n as int) matches Ok((t, s2)) && s2
                == sz as int && (forall|s: StoreV| represents(s, v@, t)),
            Err(e) => mp_parse_binbytes(buf@, at as int, n as int) matches Err(e2) && e2 == e,
        },
{
    if n > buf.len() || at > buf.len() - n {
        return Err(MpError::Insufficient);
    }
    let bs = vstd::slice::slice_subrange(buf, at, at + n);
    let d = Dynamic::Bytes(vstd::slice::slice_to_vec(bs));
    proof {
        assert(forall|st: StoreV| represents(st, d@, Tree::Bytes(bs@)));
    }
    Ok((d, at + n))
}

/// Zips a flat key/value sequence of decoded values into a fresh object,
/// inserting the pairs in wire order; an element in key position that is
/// not a string fails.
fn vec_to_dynamic(store: &mut Store, kvs: Vec<Dynamic>, Ghost(ts): Ghost<Seq<Tree>>) -> (r: Result<
    Dynamic,
    MpError,
>)
    requires
        old(store)@.wf(),
        kvs@.len() == ts.len(),
        forall|i: int| 0 <= i < ts.len() ==> represents(old(store)@, kvs@[i]@, #[trigger] ts[i]),
    ensures
        final(store)@.wf(),
        final(store)@.extends(old(store)@),
        match r {
            Ok(v) => mp_obj_of(ts) matches Ok(t) && represents(final(store)@, v@, t),
            Err(e) => mp_obj_of(ts) matches Err(e2) && e2 == e,
        },
{
    broadcast use lemma_eview_index;

    let mut acc: Vec<(String, Dynamic)> = Vec::new();
    let ghost mut tpairs: Seq<(Seq<char>, Tree)> = Seq::empty();
    let mut j: usize = 0;
    proof {
        assert(eview(acc@) =~= Seq::<(Seq<char>, Val)>::empty());
        assert(entries_to_obj(tpairs) =~= Seq::<(Seq<char>, Tree)>::empty());
        assert(ts.skip(0) =~= ts);
    }
    while j < kvs.len() && j + 1 < kvs.len()
        invariant
            j <= kvs@.len(),
            old(store)@.wf(),
            kvs@.len() == ts.len(),
            forall|i: int| 0 <= i < ts.len() ==> represents(old(store)@, kvs@[i]@, #[trigger] ts[i]),
            store@ == old(store)@,
            mp_pairs(ts) == (match mp_pairs(ts.skip(j as int)) {
                Ok(rest) => Result::<Seq<(Seq<char>, Tree)>, MpError>::Ok(tpairs + rest),
                Err(e) => Result::<Seq<(Seq<char>, Tree)>, MpError>::Err(e),
            }),
            entries_rep(store@, eview(acc@), entries_to_obj(tpairs)),
            sorted_entries(eview(acc@)),
        decreases kvs@.len() - j,
    {
        proof {
            assert(ts.skip(j as int)[0] == ts[j as int]);
            assert(ts.skip(j as int)[1] == ts[j as int + 1]);
            assert(represents(store@, kvs@[j as int]@, ts[j as int]));
        }
        let is_str = kvs[j].is_string();
        if !is_str {
            proof {
                assert(!(ts[j as int] is Str));
                crate::dynamic::lemma_extends_refl(store@);
            }
            return Err(MpError::KeyNotString);
        }
        let val = kvs[j + 1].clone();
        let ghost gval = val@;
        let ghost key_chars = ts[j as int]->Str_0;
        let ghost pre_acc = eview(acc@);
        match &kvs[j] {
            Dynamic::Str(key) => {
                let _ = entries_set(&mut acc, key.as_str(), val);
                proof {
                    assert(kvs@[j as int]@ == Val::Str(key@));
                    assert(ts[j as int] == Tree::Str(key@));
                    assert(key_chars == key@);
                }
            },
            _ => {
                proof {
                    assert(false);
                }
            },
        }
        proof {
            let p = (key_chars, ts[j as int + 1]);
            let tp2 = tpairs.push(p);
            assert(tp2.drop_last() =~= tpairs);
            assert(tp2.last() == p);
            assert(entries_to_obj(tp2) == insert_entry(
                entries_to_obj(tpairs),
                key_chars,
                ts[j as int + 1],
            ));
            crate::dynamic::lemma_insert_corresponds(
                store@,
                pre_acc,
                entries_to_obj(tpairs),
                key_chars,
                gval,
                ts[j as int + 1],
            );
            // one parsing step: the pair at the front, then the rest
            assert(ts.skip(j as int).skip(2) =~= ts.skip(j as int + 2));
            if mp_pairs(ts.skip(j as int + 2)) is Ok {
                let rest = mp_pairs(ts.skip(j as int + 2))->Ok_0;
                assert(mp_pairs(ts.skip(j as int)) == Result::<
                    Seq<(Seq<char>, Tree)>,
                    MpError,
                >::Ok(seq![p] + rest));
                assert(tpairs + (seq![p] + rest) =~= tp2 + rest);
            }
            tpairs = tp2;
        }
        j += 2;
    }
    proof {
        assert(ts.skip(j as int).len() < 2);
        assert(mp_pairs(ts.skip(j as int)) == Result::<Seq<(Seq<char>, Tree)>, MpError>::Ok(
            Seq::empty(),
        ));
        assert(tpairs + Seq::<(Seq<char>, Tree)>::empty() =~= tpairs);
        assert(mp_pairs(ts) == Result::<Seq<(Seq<char>, Tree)>, MpError>::Ok(tpairs));
    }
    let h = store.objects_len();
    let ghost accv = eview(acc@);
    let ghost spre = store@;
    store.push_object(acc);
    proof {
        assert(final(store)@.extends(spre));
        crate::dynamic::lemma_entries_rep_frame(spre, final(store)@, accv, entries_to_obj(tpairs));
        let t = Tree::Obj(entries_to_obj(tpairs));
        assert(final(store)@.objects[h as int] == accv);
        assert(represents(final(store)@, Val::Obj(h as int), t));
    }
    Ok(Dynamic::Obj(h))
}

/// Decoding from the MessagePack wire format.
pub trait MsgUnpack: Sized {
    /// Specification-level decode: the snapshot at the front of the bytes
    /// and how many bytes it occupies, or the error reported.
    spec fn dec_spec(bytes: Seq<u8>) -> Result<(Tree, int), MpError>;

    /// Specification-level decode of `count` consecutive values.
    spec fn dec_list_spec(bytes: Seq<u8>, count: nat) -> Result<(Seq<Tree>, int), MpError>;

    /// The decoded value denotes snapshot `t` in store `s`.
    spec fn dec_reps(&self, s: StoreV, t: Tree) -> bool;

    /// Decodes one value from the front of `buf`, building containers in
    /// the store, and reports how many bytes it consumed.
    fn decode(store: &mut Store, buf: &[u8]) -> (r: Result<(Self, usize), MpError>)
        requires
            old(store)@.wf(),
        ensures
            final(store)@.wf(),
            final(store)@.extends(old(store)@),
            match r {
                Ok((v, n)) => Self::dec_spec(buf@) matches Ok((t, sz)) && sz == n as int && n
                    <= buf@.len() && v.dec_reps(final(store)@, t),
                Err(e) => Self::dec_spec(buf@) matches Err(e2) && e2 == e,
            },
    ;

    /// Decodes `count` consecutive values from the front of `buf`.
    fn decode_array(store: &mut Store, buf: &[u8], count: u64) -> (r: Result<
        (Vec<Self>, usize),
        MpError,
    >)
        requires
            old(store)@.wf(),
        ensures
            final(store)@.wf(),
            final(store)@.extends(old(store)@),
            match r {
                Ok((vs, n)) => Self::dec_list_spec(buf@, count as nat) matches Ok((ts, sz)) && sz
                    == n as int && n <= buf@.len() && vs@.len() == ts.len() && (forall|i: int|
                    0 <= i < ts.len() ==> (#[trigger] vs@[i]).dec_reps(final(store)@, ts[i])),
                Err(e) => Self::dec_list_spec(buf@, count as nat) matches Err(e2) && e2 == e,
            },
    ;
}

/// Decodes `n` values at offset `at` and wraps them as a fresh array.
fn dec_arr_at(store: &mut Store, buf: &[u8], at: usize, n: u64) -> (r: Result<
    (Dynamic, usize),
    MpError,
>)
    requires
        old(store)@.wf(),
        1 <= at <= buf@.len(),
    ensures
        final(store)@.wf(),
        final(store)@.extends(old(store)@),
        match r {
            Ok((v, sz)) => mp_parse_list(buf@.skip(at as int), n as nat) matches Ok((ts, s2)) && sz
                as int == at + s2 && sz <= buf@.len() && represents(final(store)@, v@, Tree::Arr(ts)),
            Err(e) => mp_parse_list(buf@.skip(at as int), n as nat) matches Err(e2) && e2 == e,
        },
    decreases buf@.len(), 0int,
{
    let rest = vstd::slice::slice_subrange(buf, at, buf.len());
    let ghost s0 = old(store)@;
    match Dynamic::decode_array(store, rest, n) {
        Ok((vals, sz2)) => {
            let ghost ts = mp_parse_list(buf@.skip(at as int), n as nat)->Ok_0.0;
            let ghost spre = store@;
            let ghost valsv = vals@;
            let h = store.arrays_len();
            store.push_array(vals);
            proof {
                crate::dynamic::lemma_extends_trans(s0, spre, final(store)@);
                assert(final(store)@.arrays[h as int] == aview(valsv));
                assert forall|i: int| 0 <= i < ts.len() implies represents(
                    final(store)@,
                    final(store)@.arrays[h as int][i],
                    #[trigger] ts[i],
                ) by {
                    lemma_aview_index(valsv, i);
                    crate::dynamic::lemma_represents_frame(
                        spre,
                        final(store)@,
                        valsv[i]@,
                        ts[i],
                    );
                }
                assert(represents(final(store)@, Val::Arr(h as int), Tree::Arr(ts)));
            }
            Ok((Dynamic::Arr(h), at + sz2))
        },
        Err(e) => Err(e),
    }
}

/// Decodes `n` values at offset `at` (an alternating key/value run) and
/// zips them into a fresh object.
fn dec_obj_at(store: &mut Store, buf: &[u8], at: usize, n: u64) -> (r: Result<
    (Dynamic, usize),
    MpError,
>)
    requires
        old(store)@.wf(),
        1 <= at <= buf@.len(),
    ensures
        final(store)@.wf(),
        final(store)@.extends(old(store)@),
        match r {
            Ok((v, sz)) => mp_parse_list(buf@.skip(at as int), n as nat) matches Ok((ts, s2)) && sz
                as int == at + s2 && sz <= buf@.len() && (mp_obj_of(ts) matches Ok(t) && represents(
                final(store)@,
                v@,
                t,
            )),
            Err(e) => (mp_parse_list(buf@.skip(at as int), n as nat) matches Err(e2) && e2 == e) || (
            mp_parse_list(buf@.skip(at as int), n as nat) matches Ok((ts, s2)) && (mp_obj_of(
                ts,
            ) matches Err(e2) && e2 == e)),
        },
    decreases buf@.len(), 0int,
{
    let rest = vstd::slice::slice_subrange(buf, at, buf.len());
    let ghost s0 = old(store)@;
    match Dynamic::decode_array(store, rest, n) {
        Ok((vals, sz2)) => {
            let ghost ts = mp_parse_list(buf@.skip(at as int), n as nat)->Ok_0.0;
            let ghost spre = store@;
            match vec_to_dynamic(store, vals, Ghost(ts)) {
                Ok(v) => {
                    proof {
                        crate::dynamic::lemma_extends_trans(s0, spre, final(store)@);
                    }
                    Ok((v, at + sz2))
                },
                Err(e) => {
                    proof {
                        crate::dynamic::lemma_extends_trans(s0, spre, final(store)@);
                    }
                    Err(e)
                },
            }
        },
        Err(e) => Err(e),
    }
}

impl MsgUnpack for Dynamic {
    open spec fn dec_spec(bytes: Seq<u8>) -> Result<(Tree, int), MpError> {
        mp_parse(bytes)
    }

    open spec fn dec_list_spec(bytes: Seq<u8>, count: nat) -> Result<(Seq<Tree>, int), MpError> {
        mp_parse_list(bytes, count)
    }

    open spec fn dec_reps(&self, s: StoreV, t: Tree) -> bool {
        represents(s, self@, t)
    }

    /// Decodes `count` consecutive values, advancing a cursor by each
    /// value's reported length.
    fn decode_array(store: &mut Store, buf: &[u8], count: u64) -> (r: Result<
        (Vec<Self>, usize),
        MpError,
    >)
        decreases buf@.len(), 2int,
    {
        let mut result: Vec<Dynamic> = Vec::new();
        let mut cursor: usize = 0;
        let mut k: u64 = 0;
        let ghost mut ts: Seq<Tree> = Seq::empty();
        proof {
            assert(buf@.skip(0) =~= buf@);
            crate::dynamic::lemma_extends_refl(old(store)@);
        }
        while k < count
            invariant
                old(store)@.wf(),
                store@.wf(),
                store@.extends(old(store)@),
                k <= count,
                cursor <= buf@.len(),
                result@.len() == k,
                ts.len() == k,
                mp_parse_list(buf@, count as nat) == (match mp_parse_list(
                    buf@.skip(cursor as int),
                    (count - k) as nat,
                ) {
                    Ok((ts2, sz2)) => Result::<(Seq<Tree>, int), MpError>::Ok(
                        (ts + ts2, cursor + sz2),
                    ),
                    Err(e) => Result::<(Seq<Tree>, int), MpError>::Err(e),
                }),
                forall|i: int|
                    0 <= i < k ==> represents(store@, (#[trigger] result@[i])@, ts[i]),
            decreases count - k,
        {
            let rest = vstd::slice::slice_subrange(buf, cursor, buf.len());
            let ghost spre = store@;
            match Self::decode(store, rest) {
                Ok((v, sz)) => {
                    proof {
                        crate::dynamic::lemma_extends_trans(old(store)@, spre, store@);
                        let t = mp_parse(buf@.skip(cursor as int))->Ok_0.0;
                        assert(buf@.skip(cursor as int).skip(sz as int) =~= buf@.skip(
                            cursor as int + sz as int,
                        ));
                        if mp_parse_list(
                            buf@.skip(cursor as int + sz as int),
                            (count - k - 1) as nat,
                        ) is Ok {
                            let pair = mp_parse_list(
                                buf@.skip(cursor as int + sz as int),
                                (count - k - 1) as nat,
                            )->Ok_0;
                            assert(ts + (seq![t] + pair.0) =~= ts.push(t) + pair.0);
                        }
                        assert forall|i: int| 0 <= i < k implies represents(
                            store@,
                            (#[trigger] result@[i])@,
                            ts[i],
                        ) by {
                            crate::dynamic::lemma_represents_frame(
                                spre,
                                store@,
                                result@[i]@,
                                ts[i],
                            );
                        }
                        ts = ts.push(t);
                    }
                    result.push(v);
                    cursor += sz;
                    k += 1;
                },
                Err(e) => {
                    proof {
                        crate::dynamic::lemma_extends_trans(old(store)@, spre, store@);
                    }
                    return Err(e);
                },
            }
        }
        proof {
            assert(ts + Seq::<Tree>::empty() =~= ts);
        }
        Ok((result, cursor))
    }

    /// Dispatches on the leading tag byte, checking before every read that
    /// the buffer covers the header and the payload it declares.
    #[verifier::rlimit(80)]
    fn decode(store: &mut Store, buf: &[u8]) -> (r: Result<(Self, usize), MpError>)
        decreases buf@.len(), 1int,
    {
        proof {
            crate::dynamic::lemma_extends_refl(old(store)@);
        }
        if buf.len() < 1 {
            return Err(MpError::Insufficient);
        }
        let first_byte = buf[0];
        if first_byte <= 0x7f {
            return Ok((Dynamic::Int(first_byte as i64), 1));
        }
        if first_byte >= 0xe0 {
            return Ok((Dynamic::Int(first_byte as i64 - 256), 1));
        }
        if first_byte >= 0x80 && first_byte <= 0x8f {
            let n = (first_byte - 0x80) as u64;
            return match dec_obj_at(store, buf, 1, 2 * n) {
                Ok((v, sz)) => Ok((v, sz)),
                Err(e) => Err(e),
            };
        }
        if first_byte >= 0x90 && first_byte <= 0x9f {
            let n = (first_byte - 0x90) as u64;
            return match dec_arr_at(store, buf, 1, n) {
                Ok((v, sz)) => Ok((v, sz)),
                Err(e) => Err(e),
            };
        }
        if first_byte >= 0xa0 && first_byte <= 0xbf {
            let n = (first_byte - 0xa0) as usize;
            return dec_str(buf, 1, n);
        }
        if first_byte == 0xc0 {
            return Ok((Dynamic::Null, 1));
        }
        if first_byte == 0xc1 {
            return Err(MpError::Reserved);
        }
        if first_byte == 0xc2 {
            return Ok((Dynamic::Bool(false), 1));
        }
        if first_byte == 0xc3 {
            return Ok((Dynamic::Bool(true), 1));
        }
        if first_byte == 0xc4 {
            if buf.len() < 2 {
                return Err(MpError::Insufficient);
            }
            let n = buf[1] as usize;
            return dec_bin(buf, 2, n);
        }
        if first_byte == 0xc5 {
            if buf.len() < 3 {
                return Err(MpError::Insufficient);
            }
            let n = read_16(vstd::slice::slice_subrange(buf, 1, buf.len())) as usize;
            return dec_bin(buf, 3, n);
        }
        if first_byte == 0xc6 {
            if buf.len() < 5 {
                return Err(MpError::Insufficient);
            }
            let n = read_32(vstd::slice::slice_subrange(buf, 1, buf.len())) as usize;
            return dec_bin(buf, 5, n);
        }
        if first_byte == 0xc7 {
            if buf.len() < 3 {
                return Err(MpError::Insufficient);
            }
            let n = buf[1] as usize;
            if buf.len() - 3 < n {
                return Err(MpError::Insufficient);
            }
            return Ok((Dynamic::Null, 3 + n));
        }
        if first_byte == 0xc8 {
            if buf.len() < 4 {
                return Err(MpError::Insufficient);
            }
            let n = read_16(vstd::slice::slice_subrange(buf, 1, buf.len())) as usize;
            if buf.len() - 4 < n {
                return Err(MpError::Insufficient);
            }
            return Ok((Dynamic::Null, 4 + n));
        }
        if first_byte == 0xc9 {
            if buf.len() < 6 {
                return Err(MpError::Insufficient);
            }
            let n = read_32(vstd::slice::slice_subrange(buf, 1, buf.len())) as usize;
            if buf.len() - 6 < n {
                return Err(MpError::Insufficient);
            }
            return Ok((Dynamic::Null, 6 + n));
        }
        if first_byte == 0xca {
            if buf.len() < 5 {
                return Err(MpError::Insufficient);
            }
            let raw_value = read_32(vstd::slice::slice_subrange(buf, 1, buf.len()));
            return Ok((Dynamic::Double(crate::ieee::widen_bits_exec(raw_value)), 5));
        }
        if first_byte == 0xcb {
            if buf.len() < 9 {
                return Err(MpError::Insufficient);
            }
            let raw_value = read_64(vstd::slice::slice_subrange(buf, 1, buf.len()));
            return Ok((Dynamic::Double(raw_value), 9));
        }
        if first_byte == 0xcc {
            if buf.len() < 2 {
                return Err(MpError::Insufficient);
            }
            return Ok((Dynamic::Int(buf[1] as i64), 2));
        }
        if first_byte == 0xcd {
            if buf.len() < 3 {
                return Err(MpError::Insufficient);
            }
            let value = read_16(vstd::slice::slice_subrange(buf, 1, buf.len()));
            return Ok((Dynamic::Int(value as i64), 3));
        }
        if first_byte == 0xce {
            if buf.len() < 5 {
                return Err(MpError::Insufficient);
            }
            let value = read_32(vstd::slice::slice_subrange(buf, 1, buf.len()));
            return Ok((Dynamic::Int(value as i64), 5));
        }
        if first_byte == 0xcf {
            if buf.len() < 9 {
                return Err(MpError::Insufficient);
            }
            let value = read_64(vstd::slice::slice_subrange(buf, 1, buf.len()));
            return Ok((Dynamic::Int(u64_as_i64(value)), 9));
        }
        if first_byte == 0xd0 {
            if buf.len() < 2 {
                return Err(MpError::Insufficient);
            }
            let w = buf[1];
            let value: i64 = if w < 0x80 {
                w as i64
            } else {
                w as i64 - 0x100
            };
            return Ok((Dynamic::Int(value), 2));
        }
        if first_byte == 0xd1 {
            if buf.len() < 3 {
                return Err(MpError::Insufficient);
            }
            let w = read_16(vstd::slice::slice_subrange(buf, 1, buf.len()));
            let value: i64 = if w < 0x8000 {
                w as i64
            } else {
                w as i64 - 0x1_0000
            };
            return Ok((Dynamic::Int(value), 3));
        }
        if first_byte == 0xd2 {
            if buf.len() < 5 {
                return Err(MpError::Insufficient);
            }
            let w = read_32(vstd::slice::slice_subrange(buf, 1, buf.len()));
            let value: i64 = if w < 0x8000_0000 {
                w as i64
            } else {
                w as i64 - 0x1_0000_0000
            };
            return Ok((Dynamic::Int(value), 5));
        }
        if first_byte == 0xd3 {
            if buf.len() < 9 {
                return Err(MpError::Insufficient);
            }
            let value = read_64(vstd::slice::slice_subrange(buf, 1, buf.len()));
            return Ok((Dynamic::Int(u64_as_i64(value)), 9));
        }
        if first_byte == 0xd4 {
            if buf.len() < 3 {
                return Err(MpError::Insufficient);
            }
            return Ok((Dynamic::Null, 3));
        }
        if first_byte == 0xd5 {
            if buf.len() < 4 {
                return Err(MpError::Insufficient);
            }
            return Ok((Dynamic::Null, 4));
        }
        if first_byte == 0xd6 {
            if buf.len() < 6 {
                return Err(MpError::Insufficient);
            }
            return Ok((Dynamic::Null, 6));
        }
        if first_byte == 0xd7 {
            if buf.len() < 10 {
                return Err(MpError::Insufficient);
            }
            return Ok((Dynamic::Null, 10));
        }
        if first_byte == 0xd8 {
            if buf.len() < 18 {
                return Err(MpError::Insufficient);
            }
            return Ok((Dynamic::Null, 18));
        }
        if first_byte == 0xd9 {
            if buf.len() < 2 {
                return Err(MpError::Insufficient);
            }
            let n = buf[1] as usize;
            return dec_str(buf, 2, n);
        }
        if first_byte == 0xda {
            if buf.len() < 3 {
                return Err(MpError::Insufficient);
            }
            let n = read_16(vstd::slice::slice_subrange(buf, 1, buf.len())) as usize;
            return dec_str(buf, 3, n);
        }
        if first_byte == 0xdb {
            if buf.len() < 5 {
                return Err(MpError::Insufficient);
            }
            let n = read_32(vstd::slice::slice_subrange(buf, 1, buf.len())) as usize;
            return dec_str(buf, 5, n);
        }
        if first_byte == 0xdc {
            if buf.len() < 3 {
                return Err(MpError::Insufficient);
            }
            let n = read_16(vstd::slice::slice_subrange(buf, 1, buf.len())) as u64;
            return match dec_arr_at(store, buf, 3, n) {
                Ok((v, sz)) => Ok((v, sz)),
                Err(e) => Err(e),
            };
        }
        if first_byte == 0xdd {
            if buf.len() < 5 {
                return Err(MpError::Insufficient);
            }
            let n = read_32(vstd::slice::slice_subrange(buf, 1, buf.len())) as u64;
            return match dec_arr_at(store, buf, 5, n) {
                Ok((v, sz)) => Ok((v, sz)),
                Err(e) => Err(e),
            };
        }
        if first_byte == 0xde {
            if buf.len() < 3 {
                return Err(MpError::Insufficient);
            }
            let n = read_16(vstd::slice::slice_subrange(buf, 1, buf.len())) as u64;
            return match dec_obj_at(store, buf, 3, 2 * n) {
                Ok((v, sz)) => Ok((v, sz)),
                Err(e) => Err(e),
            };
        }
        // first_byte == 0xdf: the tag space is fully covered
        if buf.len() < 5 {
            return Err(MpError::Insufficient);
        }
        let n = read_32(vstd::slice::slice_subrange(buf, 1, buf.len())) as u64;
        match dec_obj_at(store, buf, 5, 2 * n) {
            Ok((v, sz)) => Ok((v, sz)),
            Err(e) => Err(e),
        }
    }
}

} // verus!
