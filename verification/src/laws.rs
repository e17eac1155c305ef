//! Laws the two codecs obey, stated and proved over the specification
//! functions that the executable functions' contracts use.
use vstd::prelude::*;

use crate::dynamic::{key_lt, represents, sorted_entries, StoreV, Tree, Val};
use crate::dynamic::{entries_to_obj, lemma_insert_entry_at};
use crate::is_white;
use crate::json::{
    digit_char, digits_value, esc_char, int_chars, is_token_byte, jc_entries, jc_list, jc_tree,
    jesc, jnull, jp_token, js_entries, js_items, js_parse, jstr, jstr_chars, jstr_scan, nat_chars,
    parse_i64_token, tok_len, JsonError,
};
use crate::msgpack::{
    be16, be32, be64, i64_of_u64, mp_enc_int, mp_enc_tree, mp_parse, mp_parse_strbytes, u16_of_be,
    u32_of_be, u64_of_be, u64_of_i64, MpError,
};

verus! {

proof fn lemma_be16_roundtrip(v: u16)
    ensures
        u16_of_be(be16(v)[0], be16(v)[1]) == v,
{
    assert(u16_of_be((v / 0x100) as u8, (v % 0x100) as u8) == v) by (bit_vector);
}

proof fn lemma_be32_roundtrip(v: u32)
    ensures
        u32_of_be(be32(v)[0], be32(v)[1], be32(v)[2], be32(v)[3]) == v,
{
    assert(u32_of_be(
        (v / 0x100_0000) as u8,
        ((v / 0x1_0000) % 0x100) as u8,
        ((v / 0x100) % 0x100) as u8,
        (v % 0x100) as u8,
    ) == v) by (bit_vector);
}

proof fn lemma_be64_roundtrip(v: u64)
    ensures
        u64_of_be(
            be64(v)[0],
            be64(v)[1],
            be64(v)[2],
            be64(v)[3],
            be64(v)[4],
            be64(v)[5],
            be64(v)[6],
            be64(v)[7],
        ) == v,
{
    assert(u64_of_be(
        (v / 0x100_0000_0000_0000) as u8,
        ((v / 0x1_0000_0000_0000) % 0x100) as u8,
        ((v / 0x100_0000_0000) % 0x100) as u8,
        ((v / 0x1_0000_0000) % 0x100) as u8,
        ((v / 0x100_0000) % 0x100) as u8,
        ((v / 0x1_0000) % 0x100) as u8,
        ((v / 0x100) % 0x100) as u8,
        (v % 0x100) as u8,
    ) == v) by (bit_vector);
}

/// A scalar snapshot that the MessagePack wire format carries without loss:
/// everything but containers (whose equality the value model refuses),
/// `Byte` and `Float` (which ride lossy paths), and `UInt` (which decodes
/// back as `Int`). String and byte payloads must fit their length fields.
pub open spec fn mp_lossless(t: Tree) -> bool {
    match t {
        Tree::Null => true,
        Tree::Bool(_) => true,
        Tree::Int(_) => true,
        Tree::Double(_) => true,
        Tree::Str(cs) => vstd::utf8::encode_utf8(cs).len() < 0x1_0000_0000,
        Tree::Bytes(bs) => bs.len() < 0x1_0000_0000,
        _ => false,
    }
}

proof fn lemma_mp_int_roundtrip(v: i64)
    ensures
        mp_parse(mp_enc_int(v)) == Result::<(Tree, int), MpError>::Ok(
            (Tree::Int(v), mp_enc_int(v).len() as int),
        ),
{
    let enc = mp_enc_int(v);
    if 0 <= v < 128 {
        assert(enc[0] == v as u8);
    } else if -32 <= v < 0 {
        assert(enc[0] == (v + 256) as u8);
        assert(enc[0] >= 0xe0);
    } else if -0x80 <= v < 0x80 {
        assert(enc[0] == 0xd0 && enc[1] == (v + 256) as u8);
        assert(enc.len() == 2);
    } else if -0x8000 <= v < 0x8000 {
        let x = (if v >= 0 {
            v as int
        } else {
            v + 0x1_0000
        }) as u16;
        lemma_be16_roundtrip(x);
        assert(enc =~= seq![0xd1u8] + be16(x));
        assert(enc[1] == be16(x)[0] && enc[2] == be16(x)[1]);
    } else if -0x8000_0000 <= v < 0x8000_0000 {
        let x = (if v >= 0 {
            v as int
        } else {
            v + 0x1_0000_0000
        }) as u32;
        lemma_be32_roundtrip(x);
        assert(enc =~= seq![0xd2u8] + be32(x));
        assert(enc[1] == be32(x)[0] && enc[2] == be32(x)[1] && enc[3] == be32(x)[2] && enc[4]
            == be32(x)[3]);
    } else {
        let x = u64_of_i64(v);
        lemma_be64_roundtrip(x);
        assert(enc =~= seq![0xd3u8] + be64(x));
        assert(enc[1] == be64(x)[0] && enc[2] == be64(x)[1] && enc[3] == be64(x)[2] && enc[4]
            == be64(x)[3] && enc[5] == be64(x)[4] && enc[6] == be64(x)[5] && enc[7] == be64(x)[6]
            && enc[8] == be64(x)[7]);
        assert(i64_of_u64(x) == v);
    }
}

/// What the binary decoder reads back from an encoded lossless scalar is
/// that scalar, consuming exactly its encoding.
#[verifier::rlimit(100)]
#[verifier::spinoff_prover]
pub proof fn lemma_msgpack_round_trip(t: Tree)
    requires
        mp_lossless(t),
    ensures
        mp_parse(mp_enc_tree(t)) == Result::<(Tree, int), MpError>::Ok(
            (t, mp_enc_tree(t).len() as int),
        ),
{
    let enc = mp_enc_tree(t);
    match t {
        Tree::Null => {
            assert(enc[0] == 0xc0);
        },
        Tree::Bool(b) => {
            assert(enc[0] == if b {
                0xc3u8
            } else {
                0xc2u8
            });
        },
        Tree::Int(v) => {
            lemma_mp_int_roundtrip(v);
        },
        Tree::Double(d) => {
            lemma_be64_roundtrip(d);
            assert(enc =~= seq![0xcbu8] + be64(d));
            assert(enc[0] == 0xcb && enc.len() == 9);
            assert(enc[1] == be64(d)[0] && enc[2] == be64(d)[1] && enc[3] == be64(d)[2] && enc[4]
                == be64(d)[3] && enc[5] == be64(d)[4] && enc[6] == be64(d)[5] && enc[7]
                == be64(d)[6] && enc[8] == be64(d)[7]);
        },
        Tree::Str(cs) => {
            let bs = vstd::utf8::encode_utf8(cs);
            vstd::utf8::encode_utf8_valid_utf8(cs);
            vstd::utf8::encode_utf8_decode_utf8(cs);
            if bs.len() < 0x20 {
                assert(enc =~= seq![(0xa0 + bs.len()) as u8] + bs);
                assert(0xa0 <= enc[0] <= 0xbf);
                assert(enc.subrange(1, 1 + bs.len() as int) =~= bs);
                assert(mp_parse_strbytes(enc, 1, bs.len() as int) == Result::<
                    (Tree, int),
                    MpError,
                >::Ok((Tree::Str(cs), enc.len() as int)));
            } else if bs.len() < 0x100 {
                assert(enc =~= seq![0xd9u8, bs.len() as u8] + bs);
                assert(enc.subrange(2, 2 + bs.len() as int) =~= bs);
            } else if bs.len() < 0x1_0000 {
                let x = bs.len() as u16;
                lemma_be16_roundtrip(x);
                assert(enc =~= seq![0xdau8] + be16(x) + bs);
                assert(enc[1] == be16(x)[0] && enc[2] == be16(x)[1]);
                assert(enc.subrange(3, 3 + bs.len() as int) =~= bs);
            } else {
                let x = (bs.len() % 0x1_0000_0000) as u32;
                lemma_be32_roundtrip(x);
                assert(x == bs.len());
                assert(enc =~= seq![0xdbu8] + be32(x) + bs);
                assert(enc[1] == be32(x)[0] && enc[2] == be32(x)[1] && enc[3] == be32(x)[2]
                    && enc[4] == be32(x)[3]);
                assert(enc.subrange(5, 5 + bs.len() as int) =~= bs);
            }
        },
        Tree::Bytes(bs) => {
            if bs.len() < 0x100 {
                assert(enc =~= seq![0xc4u8, bs.len() as u8] + bs);
                assert(enc.subrange(2, 2 + bs.len() as int) =~= bs);
            } else if bs.len() < 0x1_0000 {
                let x = bs.len() as u16;
                lemma_be16_roundtrip(x);
                assert(enc =~= seq![0xc5u8] + be16(x) + bs);
                assert(enc[1] == be16(x)[0] && enc[2] == be16(x)[1]);
                assert(enc.subrange(3, 3 + bs.len() as int) =~= bs);
            } else {
                let x = (bs.len() % 0x1_0000_0000) as u32;
                lemma_be32_roundtrip(x);
                assert(x == bs.len());
                assert(enc =~= seq![0xc6u8] + be32(x) + bs);
                assert(enc[1] == be32(x)[0] && enc[2] == be32(x)[1] && enc[3] == be32(x)[2]
                    && enc[4] == be32(x)[3]);
                assert(enc.subrange(5, 5 + bs.len() as int) =~= bs);
            }
        },
        _ => {},
    }
}

/// Every character of a printed natural number is a decimal digit.
proof fn lemma_nat_chars_digits(n: nat)
    ensures
        vstd::utf8::is_ascii_chars(nat_chars(n)),
        forall|i: int|
            0 <= i < nat_chars(n).len() ==> 0x30 <= #[trigger] (nat_chars(n)[i] as u8) <= 0x39,
        nat_chars(n).len() >= 1,
    decreases n,
{
    if n < 10 {
        assert(nat_chars(n) =~= seq![digit_char(n as int)]);
    } else {
        lemma_nat_chars_digits(n / 10);
        let pre = nat_chars(n / 10);
        assert(nat_chars(n) =~= pre + seq![digit_char((n % 10) as int)]);
        assert forall|i: int|
            0 <= i < nat_chars(n).len() implies 0x30 <= #[trigger] (nat_chars(n)[i] as u8)
            <= 0x39 by {
            if i < pre.len() {
                assert(nat_chars(n)[i] == pre[i]);
            }
        }
        assert forall|i: int|
            0 <= i < nat_chars(n).len() implies ((#[trigger] nat_chars(n).index(i)) as nat)
            < 128 by {
            if i < pre.len() {
                assert(nat_chars(n)[i] == pre[i]);
            }
        }
    }
}

/// Equal byte runs denote equal values.
proof fn lemma_dv_congruent(b1: Seq<u8>, pos1: int, b2: Seq<u8>, pos2: int, count: int)
    requires
        0 <= pos1,
        0 <= pos2,
        0 <= count,
        pos1 + count <= b1.len(),
        pos2 + count <= b2.len(),
        forall|i: int| 0 <= i < count ==> b1[pos1 + i] == #[trigger] b2[pos2 + i],
    ensures
        digits_value(b1, pos1, pos1 + count) == digits_value(b2, pos2, pos2 + count),
    decreases count,
{
    if count > 0 {
        lemma_dv_congruent(b1, pos1, b2, pos2, count - 1);
        assert(b1[pos1 + (count - 1)] == b2[pos2 + (count - 1)]);
    }
}

/// Reading back the printed digits of a natural number yields the number.
proof fn lemma_digits_value_of_nat_chars(n: nat)
    ensures
        ({
            let b = vstd::utf8::encode_utf8(nat_chars(n));
            digits_value(b, 0, b.len() as int) == n
        }),
    decreases n,
{
    lemma_nat_chars_digits(n);
    vstd::utf8::is_ascii_chars_encode_utf8(nat_chars(n));
    let cs = nat_chars(n);
    let b = vstd::utf8::encode_utf8(cs);
    if n < 10 {
        assert(cs =~= seq![digit_char(n as int)]);
        assert(b[0] == digit_char(n as int) as u8);
        assert(digit_char(n as int) as u8 == 0x30 + n);
        assert(digits_value(b, 0, 0) == 0);
    } else {
        lemma_digits_value_of_nat_chars(n / 10);
        lemma_nat_chars_digits(n / 10);
        vstd::utf8::is_ascii_chars_encode_utf8(nat_chars(n / 10));
        let pre = nat_chars(n / 10);
        let bp = vstd::utf8::encode_utf8(pre);
        assert(cs =~= pre + seq![digit_char((n % 10) as int)]);
        assert forall|i: int| 0 <= i < pre.len() implies bp[i] == #[trigger] b[i] by {
            assert(cs[i] == pre[i]);
        }
        lemma_dv_congruent(b, 0, bp, 0, pre.len() as int);
        assert(cs.last() == digit_char((n % 10) as int));
        assert(b[b.len() - 1] == digit_char((n % 10) as int) as u8);
        assert(digit_char((n % 10) as int) as u8 == 0x30 + (n % 10));
        assert(digits_value(b, 0, b.len() as int) == digits_value(b, 0, b.len() - 1) * 10 + (b[
            b.len() - 1] - 0x30));
    }
}

/// Encoding a concatenation concatenates the encodings.
proof fn lemma_encode_utf8_concat(a: Seq<char>, b: Seq<char>)
    ensures
        vstd::utf8::encode_utf8(a + b) == vstd::utf8::encode_utf8(a) + vstd::utf8::encode_utf8(b),
    decreases a.len(),
{
    if a.len() == 0 {
        assert(a + b =~= b);
        assert(vstd::utf8::encode_utf8(a) =~= Seq::<u8>::empty());
        assert(vstd::utf8::encode_utf8(a) + vstd::utf8::encode_utf8(b) =~= vstd::utf8::encode_utf8(
            b,
        ));
    } else {
        lemma_encode_utf8_concat(a.drop_first(), b);
        assert((a + b).drop_first() =~= a.drop_first() + b);
        assert((a + b)[0] == a[0]);
        assert(vstd::utf8::encode_scalar(a[0] as u32) + (vstd::utf8::encode_utf8(a.drop_first())
            + vstd::utf8::encode_utf8(b)) =~= (vstd::utf8::encode_scalar(a[0] as u32)
            + vstd::utf8::encode_utf8(a.drop_first())) + vstd::utf8::encode_utf8(b));
    }
}

/// The scan of an escaped body undoes the escaping: walking the encoding
/// of `jesc(cs)` collects exactly the encoding of `cs`.
#[verifier::rlimit(100)]
#[verifier::spinoff_prover]
proof fn lemma_scan_escaped(full: Seq<u8>, pos: int, acc: Seq<u8>, cs: Seq<char>)
    requires
        0 <= pos,
        pos + vstd::utf8::encode_utf8(jesc(cs)).len() < full.len(),
        full.subrange(pos, pos + vstd::utf8::encode_utf8(jesc(cs)).len() as int)
            == vstd::utf8::encode_utf8(jesc(cs)),
    ensures
        jstr_scan(full, pos, acc) == jstr_scan(
            full,
            pos + vstd::utf8::encode_utf8(jesc(cs)).len() as int,
            acc + vstd::utf8::encode_utf8(cs),
        ),
    decreases cs.len(),
{
    let e = vstd::utf8::encode_utf8(jesc(cs));
    if cs.len() == 0 {
        assert(jesc(cs) =~= Seq::<char>::empty());
        assert(e =~= Seq::<u8>::empty());
        assert(vstd::utf8::encode_utf8(cs) =~= Seq::<u8>::empty());
        assert(acc + vstd::utf8::encode_utf8(cs) =~= acc);
    } else {
        let c = cs[0];
        let u = c as u32;
        let rest = cs.drop_first();
        let erest = vstd::utf8::encode_utf8(jesc(rest));
        let ec = vstd::utf8::encode_utf8(esc_char(c));
        assert(jesc(cs) == esc_char(c) + jesc(rest));
        lemma_encode_utf8_concat(esc_char(c), jesc(rest));
        assert(e == ec + erest);
        assert forall|i: int| 0 <= i < e.len() implies full[pos + i] == #[trigger] e[i] by {
            assert(full.subrange(pos, pos + e.len() as int)[i] == full[pos + i]);
        }
        assert forall|i: int| 0 <= i < ec.len() implies full[pos + i] == #[trigger] ec[i] by {
            assert(e[i] == ec[i]);
            assert(full[pos + i] == e[i]);
        }
        let pos2 = pos + ec.len();
        assert(full.subrange(pos2, pos2 + erest.len() as int) =~= erest) by {
            assert forall|i: int|
                0 <= i < erest.len() implies full.subrange(pos2, pos2 + erest.len() as int)[i]
                == #[trigger] erest[i] by {
                assert(full[pos2 + i] == e[ec.len() + i]);
            }
        }
        lemma_scan_escaped(full, pos2, acc + vstd::utf8::encode_scalar(u), rest);
        vstd::utf8::char_is_scalar(c);
        assert(vstd::utf8::encode_utf8(cs) == vstd::utf8::encode_scalar(u) + vstd::utf8::encode_utf8(
            rest,
        ));
        assert((acc + vstd::utf8::encode_scalar(u)) + vstd::utf8::encode_utf8(rest) =~= acc
            + vstd::utf8::encode_utf8(cs));
        if c == '"' || c == 0x5c as char || c == '\n' || c == '\r' || c == '\t' {
            // two escape bytes turn back into the one character byte
            let tb: u8 = if c == '"' {
                0x22
            } else if c == 0x5c as char {
                0x5c
            } else if c == '\n' {
                0x0a
            } else if c == '\r' {
                0x0d
            } else {
                0x09
            };
            assert(esc_char(c).len() == 2 && esc_char(c)[0] == '\\');
            assert(vstd::utf8::is_ascii_chars(esc_char(c)));
            vstd::utf8::is_ascii_chars_encode_utf8(esc_char(c));
            assert(ec.len() == 2 && ec[0] == 0x5c && full[pos] == 0x5c);
            assert(full[pos + 1] == ec[1]);
            assert(vstd::utf8::encode_scalar(u) =~= seq![tb]) by {
                assert(vstd::utf8::has_width_1_encoding(u));
                assert(vstd::utf8::leading_byte_width_1(u) == tb) by (bit_vector)
                    requires
                        u == tb as u32,
                        tb <= 0x7f,
                ;
            }
            assert((acc + vstd::utf8::encode_scalar(u)) =~= acc.push(tb));
            assert(jstr_scan(full, pos, acc) == jstr_scan(full, pos + 2, acc.push(tb)));
        } else {
            // the character's own bytes pass through the scan unchanged
            assert(esc_char(c) =~= seq![c]);
            assert(seq![c].drop_first() =~= Seq::<char>::empty());
            assert(seq![c][0] == c);
            assert(vstd::utf8::encode_utf8(Seq::<char>::empty()) =~= Seq::<u8>::empty());
            assert(ec == vstd::utf8::encode_scalar(u) + vstd::utf8::encode_utf8(
                seq![c].drop_first(),
            ));
            assert(ec =~= vstd::utf8::encode_scalar(u));
            assert(u != 0x22 && u != 0x5c && u != 0x0a && u != 0x0d && u != 0x09) by {
                if u == 0x22 {
                    vstd::utf8::char_u32_cast(c, u);
                    vstd::utf8::char_u32_cast('"', 0x22);
                }
                if u == 0x5c {
                    vstd::utf8::char_u32_cast(c, u);
                    vstd::utf8::char_u32_cast(0x5c as char, 0x5c);
                }
                if u == 0x0a {
                    vstd::utf8::char_u32_cast(c, u);
                    vstd::utf8::char_u32_cast('\n', 0x0a);
                }
                if u == 0x0d {
                    vstd::utf8::char_u32_cast(c, u);
                    vstd::utf8::char_u32_cast('\r', 0x0d);
                }
                if u == 0x09 {
                    vstd::utf8::char_u32_cast(c, u);
                    vstd::utf8::char_u32_cast('\t', 0x09);
                }
            }
            if vstd::utf8::has_width_1_encoding(u) {
                let b0 = vstd::utf8::leading_byte_width_1(u);
                assert(b0 == u) by (bit_vector)
                    requires
                        u <= 0x7f,
                        b0 == (u & 0x7F) as u8,
                ;
                assert(ec =~= seq![b0]);
                assert(ec[0] == b0);
                assert(full[pos] == ec[0]);
                assert(full[pos] == b0 && b0 != 0x22 && b0 != 0x5c);
                assert((acc + vstd::utf8::encode_scalar(u)) =~= acc.push(b0));
                assert(jstr_scan(full, pos, acc) == jstr_scan(full, pos + 1, acc.push(b0)));
            } else if vstd::utf8::has_width_2_encoding(u) {
                let b0 = vstd::utf8::leading_byte_width_2(u);
                let b1 = vstd::utf8::last_continuation_byte(u);
                assert(0xc0 <= b0 <= 0xdf && 0x80 <= b1 <= 0xbf) by (bit_vector)
                    requires
                        b0 == 0xC0 | ((u >> 6) & 0x1F) as u8,
                        b1 == 0x80 | (u & 0x3F) as u8,
                ;
                assert(ec =~= seq![b0, b1]);
                assert(full[pos] == b0 && full[pos + 1] == b1);
                assert((acc + vstd::utf8::encode_scalar(u)) =~= acc.push(b0).push(b1));
                assert(jstr_scan(full, pos, acc) == jstr_scan(full, pos + 1, acc.push(b0)));
                assert(jstr_scan(full, pos + 1, acc.push(b0)) == jstr_scan(
                    full,
                    pos + 2,
                    acc.push(b0).push(b1),
                ));
            } else if vstd::utf8::has_width_3_encoding(u) {
                let b0 = vstd::utf8::leading_byte_width_3(u);
                let b1 = vstd::utf8::second_last_continuation_byte(u);
                let b2 = vstd::utf8::last_continuation_byte(u);
                assert(0xe0 <= b0 <= 0xef && 0x80 <= b1 <= 0xbf && 0x80 <= b2 <= 0xbf)
                    by (bit_vector)
                    requires
                        b0 == 0xE0 | ((u >> 12) & 0x0F) as u8,
                        b1 == 0x80 | ((u >> 6) & 0x3F) as u8,
                        b2 == 0x80 | (u & 0x3F) as u8,
                ;
                assert(ec =~= seq![b0, b1, b2]);
                assert(full[pos] == b0 && full[pos + 1] == b1 && full[pos + 2] == b2);
                assert((acc + vstd::utf8::encode_scalar(u)) =~= acc.push(b0).push(b1).push(b2));
                assert(jstr_scan(full, pos, acc) == jstr_scan(full, pos + 1, acc.push(b0)));
                assert(jstr_scan(full, pos + 1, acc.push(b0)) == jstr_scan(
                    full,
                    pos + 2,
                    acc.push(b0).push(b1),
                ));
                assert(jstr_scan(full, pos + 2, acc.push(b0).push(b1)) == jstr_scan(
                    full,
                    pos + 3,
                    acc.push(b0).push(b1).push(b2),
                ));
            } else {
                let b0 = vstd::utf8::leading_byte_width_4(u);
                let b1 = vstd::utf8::third_last_continuation_byte(u);
                let b2 = vstd::utf8::second_last_continuation_byte(u);
                let b3 = vstd::utf8::last_continuation_byte(u);
                assert(0xf0 <= b0 <= 0xf7 && 0x80 <= b1 <= 0xbf && 0x80 <= b2 <= 0xbf && 0x80 <= b3
                    <= 0xbf) by (bit_vector)
                    requires
                        b0 == 0xF0 | ((u >> 18) & 0x7) as u8,
                        b1 == 0x80 | ((u >> 12) & 0x3F) as u8,
                        b2 == 0x80 | ((u >> 6) & 0x3F) as u8,
                        b3 == 0x80 | (u & 0x3F) as u8,
                ;
                assert(ec =~= seq![b0, b1, b2, b3]);
                assert(full[pos] == b0 && full[pos + 1] == b1 && full[pos + 2] == b2 && full[pos
                    + 3] == b3);
                assert((acc + vstd::utf8::encode_scalar(u)) =~= acc.push(b0).push(b1).push(
                    b2,
                ).push(b3));
                assert(jstr_scan(full, pos, acc) == jstr_scan(full, pos + 1, acc.push(b0)));
                assert(jstr_scan(full, pos + 1, acc.push(b0)) == jstr_scan(
                    full,
                    pos + 2,
                    acc.push(b0).push(b1),
                ));
                assert(jstr_scan(full, pos + 2, acc.push(b0).push(b1)) == jstr_scan(
                    full,
                    pos + 3,
                    acc.push(b0).push(b1).push(b2),
                ));
                assert(jstr_scan(full, pos + 3, acc.push(b0).push(b1).push(b2)) == jstr_scan(
                    full,
                    pos + 4,
                    acc.push(b0).push(b1).push(b2).push(b3),
                ));
            }
        }
    }
}

/// The snapshots the JSON round trip covers: trees of `Null`, `Bool`,
/// `Int` and `Str` leaves under arrays and sorted objects. `Double` prints
/// faithfully but an integral one reparses as `Int`; the other variants
/// print as `null`.
pub open spec fn jrt_ok(t: Tree) -> bool
    decreases t,
{
    match t {
        Tree::Null => true,
        Tree::Bool(_) => true,
        Tree::Int(_) => true,
        Tree::Str(_) => true,
        Tree::Arr(ts) => forall|i: int| 0 <= i < ts.len() ==> jrt_ok(#[trigger] ts[i]),
        Tree::Obj(es) => sorted_entries(es) && (forall|i: int|
            0 <= i < es.len() ==> jrt_ok((#[trigger] es[i]).1)),
        _ => false,
    }
}

/// Inserting the entries of an already sorted object rebuilds it verbatim.
proof fn lemma_entries_to_obj_sorted(es: Seq<(Seq<char>, Tree)>)
    requires
        sorted_entries(es),
    ensures
        entries_to_obj(es) == es,
    decreases es.len(),
{
    if es.len() == 0 {
        assert(crate::dynamic::merge_entries(Seq::<(Seq<char>, Tree)>::empty(), es) =~= es);
    } else {
        let d = es.drop_last();
        assert(sorted_entries(d)) by {
            assert forall|i: int, j: int| 0 <= i < j < d.len() implies key_lt(d[i].0, d[j].0) by {
                assert(d[i] == es[i] && d[j] == es[j]);
            }
        }
        lemma_entries_to_obj_sorted(d);
        assert(forall|j: int| 0 <= j < d.len() ==> key_lt((#[trigger] d[j]).0, es.last().0)) by {
            assert(forall|j: int| 0 <= j < d.len() ==> (#[trigger] d[j]) == es[j]);
        }
        lemma_insert_entry_at(d, es.last().0, es.last().1, d.len() as int);
        assert(d.take(d.len() as int) =~= d);
        assert(d.skip(d.len() as int) =~= Seq::<(Seq<char>, Tree)>::empty());
        assert(d + seq![(es.last().0, es.last().1)] + Seq::<(Seq<char>, Tree)>::empty() =~= es);
    }
}

/// The first byte a snapshot's rendering starts with: never whitespace and
/// never a closing bracket or brace, a comma, or a colon.
proof fn lemma_jc_head(t: Tree)
    requires
        !(t is Double),
    ensures
        ({
            let b = vstd::utf8::encode_utf8(jc_tree(t));
            &&& b.len() >= 1
            &&& !is_white(b[0])
            &&& b[0] != 0x5d
            &&& b[0] != 0x7d
            &&& b[0] != 0x2c
            &&& b[0] != 0x3a
            &&& (t is Str ==> b[0] == 0x22)
            &&& (t is Arr ==> b[0] == 0x5b)
            &&& (t is Obj ==> b[0] == 0x7b)
            &&& (!(t is Str) && !(t is Arr) && !(t is Obj) ==> b[0] != 0x22 && b[0] != 0x5b && b[0]
                != 0x7b)
        }),
{
    let cs = jc_tree(t);
    let b = vstd::utf8::encode_utf8(cs);
    match t {
        Tree::Int(v) => {
            let mag: nat = if v < 0 {
                (-(v as int)) as nat
            } else {
                v as nat
            };
            lemma_nat_chars_digits(mag);
            let mcs = nat_chars(mag);
            if v < 0 {
                assert(cs =~= seq!['-'] + mcs);
                assert(vstd::utf8::is_ascii_chars(cs)) by {
                    assert forall|i: int|
                        0 <= i < cs.len() implies ((#[trigger] cs.index(i)) as nat) < 128 by {
                        if i >= 1 {
                            assert(cs[i] == mcs[i - 1]);
                        }
                    }
                }
                vstd::utf8::is_ascii_chars_encode_utf8(cs);
                assert(b[0] == 0x2d);
            } else {
                assert(cs =~= mcs);
                vstd::utf8::is_ascii_chars_encode_utf8(cs);
                assert(0x30 <= b[0] <= 0x39);
            }
        },
        Tree::Str(scs) => {
            let quote: Seq<char> = seq!['"'];
            assert(cs == quote + jesc(scs) + quote);
            lemma_encode_utf8_concat(quote + jesc(scs), quote);
            lemma_encode_utf8_concat(quote, jesc(scs));
            assert(vstd::utf8::is_ascii_chars(quote));
            vstd::utf8::is_ascii_chars_encode_utf8(quote);
            assert(vstd::utf8::encode_utf8(quote) =~= seq![0x22u8]);
            assert(b == (vstd::utf8::encode_utf8(quote) + vstd::utf8::encode_utf8(jesc(scs)))
                + vstd::utf8::encode_utf8(quote));
            assert(b[0] == 0x22);
        },
        Tree::Arr(ts) => {
            let open_ch: Seq<char> = seq!['['];
            assert(cs == open_ch + jc_list(ts) + seq![']']);
            lemma_encode_utf8_concat(open_ch + jc_list(ts), seq![']']);
            lemma_encode_utf8_concat(open_ch, jc_list(ts));
            assert(vstd::utf8::is_ascii_chars(open_ch));
            vstd::utf8::is_ascii_chars_encode_utf8(open_ch);
            assert(vstd::utf8::encode_utf8(open_ch) =~= seq![0x5bu8]);
            assert(b[0] == 0x5b);
        },
        Tree::Obj(es) => {
            let open_ch: Seq<char> = seq!['{'];
            assert(cs == open_ch + jc_entries(es) + seq!['}']);
            lemma_encode_utf8_concat(open_ch + jc_entries(es), seq!['}']);
            lemma_encode_utf8_concat(open_ch, jc_entries(es));
            assert(vstd::utf8::is_ascii_chars(open_ch));
            vstd::utf8::is_ascii_chars_encode_utf8(open_ch);
            assert(vstd::utf8::encode_utf8(open_ch) =~= seq![0x7bu8]);
            assert(b[0] == 0x7b);
        },
        Tree::Null | Tree::Byte(_) | Tree::UInt(_) | Tree::Float(_) | Tree::Bytes(_) => {
            assert(cs =~= seq!['n', 'u', 'l', 'l']);
            assert(vstd::utf8::is_ascii_chars(cs));
            vstd::utf8::is_ascii_chars_encode_utf8(cs);
            assert(b[0] == 0x6e);
        },
        Tree::Bool(v) => {
            if v {
                assert(cs =~= seq!['t', 'r', 'u', 'e']);
                assert(vstd::utf8::is_ascii_chars(cs));
                vstd::utf8::is_ascii_chars_encode_utf8(cs);
                assert(b[0] == 0x74);
            } else {
                assert(cs =~= seq!['f', 'a', 'l', 's', 'e']);
                assert(vstd::utf8::is_ascii_chars(cs));
                vstd::utf8::is_ascii_chars_encode_utf8(cs);
                assert(b[0] == 0x66);
            }
        },
        _ => {},
    }
}

/// A buffer that starts with the rendering of a quoted string parses as
/// that string, whatever follows.
proof fn lemma_jstr_rt(full: Seq<u8>, scs: Seq<char>)
    requires
        ({
            let ek = vstd::utf8::encode_utf8(jstr_chars(scs));
            full.len() >= ek.len() && full.subrange(0, ek.len() as int) == ek
        }),
    ensures
        jstr(full) == Result::<(Seq<char>, int), JsonError>::Ok(
            (scs, vstd::utf8::encode_utf8(jstr_chars(scs)).len() as int),
        ),
{
    reveal(jstr);
    let quote: Seq<char> = seq!['"'];
    assert(jstr_chars(scs) == quote + jesc(scs) + quote);
    lemma_encode_utf8_concat(quote + jesc(scs), quote);
    lemma_encode_utf8_concat(quote, jesc(scs));
    assert(vstd::utf8::is_ascii_chars(quote));
    vstd::utf8::is_ascii_chars_encode_utf8(quote);
    assert(vstd::utf8::encode_utf8(quote) =~= seq![0x22u8]);
    let eb = vstd::utf8::encode_utf8(jesc(scs));
    let ek = vstd::utf8::encode_utf8(jstr_chars(scs));
    assert(ek =~= seq![0x22u8] + eb + seq![0x22u8]);
    assert(forall|i: int| 0 <= i < ek.len() ==> #[trigger] full[i] == ek[i]) by {
        assert(forall|i: int|
            0 <= i < ek.len() ==> full.subrange(0, ek.len() as int)[i] == #[trigger] full[i]);
    }
    assert(full.subrange(1, 1 + eb.len() as int) =~= eb);
    assert(Seq::<u8>::empty() + vstd::utf8::encode_utf8(scs) =~= vstd::utf8::encode_utf8(scs));
    lemma_scan_escaped(full, 1, Seq::<u8>::empty(), scs);
    assert(full[1 + eb.len() as int] == 0x22);
    assert(jstr_scan(full, 1 + eb.len() as int, vstd::utf8::encode_utf8(scs)) == Result::<
        (Seq<u8>, int),
        JsonError,
    >::Ok((vstd::utf8::encode_utf8(scs), ek.len() as int)));
    vstd::utf8::encode_utf8_valid_utf8(scs);
    vstd::utf8::encode_utf8_decode_utf8(scs);
}

/// The printed integer, after any whitespace and before any non-token
/// byte, is one maximal token that reads back as the same integer.
#[verifier::rlimit(100)]
#[verifier::spinoff_prover]
proof fn lemma_json_int_rt(pre: Seq<u8>, v: i64, tail: Seq<u8>)
    requires
        forall|i: int| 0 <= i < pre.len() ==> is_white(#[trigger] pre[i]),
        tail.len() > 0 ==> !is_token_byte(tail[0]),
    ensures
        ({
            let e = vstd::utf8::encode_utf8(int_chars(v as int));
            js_parse(pre + e + tail) == Result::<(Tree, int), JsonError>::Ok(
                (Tree::Int(v), (pre.len() + e.len()) as int),
            )
        }),
{
    reveal(jp_token);
    let cs = int_chars(v as int);
    let e = vstd::utf8::encode_utf8(cs);
    let b = pre + e + tail;
    let w = pre.len() as int;
    let mag: nat = if v < 0 {
        (-(v as int)) as nat
    } else {
        v as nat
    };
    let mcs = nat_chars(mag);
    let mb = vstd::utf8::encode_utf8(mcs);
    lemma_nat_chars_digits(mag);
    vstd::utf8::is_ascii_chars_encode_utf8(mcs);
    lemma_digits_value_of_nat_chars(mag);
    let start: int = if v < 0 {
        1
    } else {
        0
    };
    if v < 0 {
        assert(cs =~= seq!['-'] + mcs);
        assert(vstd::utf8::is_ascii_chars(cs)) by {
            assert forall|i: int| 0 <= i < cs.len() implies ((#[trigger] cs.index(i)) as nat)
                < 128 by {
                if i >= 1 {
                    assert(cs[i] == mcs[i - 1]);
                }
            }
        }
    } else {
        assert(cs =~= mcs);
    }
    vstd::utf8::is_ascii_chars_encode_utf8(cs);
    assert(e.len() == start + mb.len());
    assert forall|i: int| start <= i < e.len() implies 0x30 <= (#[trigger] e[i]) <= 0x39 && e[i]
        == mb[i - start] by {
        assert(cs[i] == mcs[i - start]);
        assert(e[i] == cs[i] as u8);
        assert(mb[i - start] == mcs[i - start] as u8);
    }
    if v < 0 {
        assert(e[0] == 0x2d);
    }
    assert(forall|i: int| 0 <= i < e.len() ==> #[trigger] b[w + i] == e[i]);
    crate::json::lemma_ws_len_at(b, w);
    let sub = b.skip(w);
    assert forall|i: int| 0 <= i < sub.len() implies #[trigger] sub[i] == (if i < e.len() {
        e[i]
    } else {
        tail[i - e.len()]
    }) by {
        assert(sub[i] == b[w + i]);
    }
    crate::json::lemma_tok_len_at(sub, e.len() as int);
    let tok = sub.take(tok_len(sub));
    assert(tok =~= e);
    assert(!(tok =~= seq![0x74u8, 0x72u8, 0x75u8, 0x65u8]));
    assert(!(tok =~= seq![0x66u8, 0x61u8, 0x6cu8, 0x73u8, 0x65u8]));
    assert(!(tok =~= seq![0x6eu8, 0x75u8, 0x6cu8, 0x6cu8]));
    assert(forall|i: int| 0 <= i < tok.len() ==> (#[trigger] tok[i]) != 0x2e);
    crate::json::lemma_digit_run_at(tok, start, tok.len() as int);
    lemma_dv_congruent(tok, start, mb, 0, mb.len() as int);
    assert(digits_value(tok, start, tok.len() as int) == mag);
    assert(parse_i64_token(tok) == Option::Some(v));
}

/// Parsing the rendering of a covered snapshot, after any whitespace and
/// before any non-token byte, returns that snapshot and consumes the
/// whitespace and the rendering exactly: the JSON round trip.
#[verifier::rlimit(100)]
#[verifier::spinoff_prover]
pub proof fn lemma_json_round_trip(pre: Seq<u8>, t: Tree, tail: Seq<u8>)
    requires
        jrt_ok(t),
        forall|i: int| 0 <= i < pre.len() ==> is_white(#[trigger] pre[i]),
        tail.len() > 0 ==> !is_token_byte(tail[0]),
    ensures
        ({
            let e = vstd::utf8::encode_utf8(jc_tree(t));
            js_parse(pre + e + tail) == Result::<(Tree, int), JsonError>::Ok(
                (t, (pre.len() + e.len()) as int),
            )
        }),
    decreases t, 1int,
{
    reveal(jp_token);
    let cs = jc_tree(t);
    let e = vstd::utf8::encode_utf8(cs);
    let b = pre + e + tail;
    let w = pre.len() as int;
    lemma_jc_head(t);
    assert(forall|i: int| 0 <= i < e.len() ==> #[trigger] b[w + i] == e[i]);
    crate::json::lemma_ws_len_at(b, w);
    let sub = b.skip(w);
    assert forall|i: int| 0 <= i < sub.len() implies #[trigger] sub[i] == (if i < e.len() {
        e[i]
    } else {
        tail[i - e.len()]
    }) by {
        assert(sub[i] == b[w + i]);
    }
    match t {
        Tree::Null => {
            assert(cs =~= seq!['n', 'u', 'l', 'l']);
            assert(vstd::utf8::is_ascii_chars(cs));
            vstd::utf8::is_ascii_chars_encode_utf8(cs);
            assert(e =~= seq![0x6eu8, 0x75u8, 0x6cu8, 0x6cu8]);
            crate::json::lemma_tok_len_at(sub, 4);
            assert(sub.take(tok_len(sub)) =~= seq![0x6eu8, 0x75u8, 0x6cu8, 0x6cu8]);
        },
        Tree::Bool(v) => {
            if v {
                assert(cs =~= seq!['t', 'r', 'u', 'e']);
                assert(vstd::utf8::is_ascii_chars(cs));
                vstd::utf8::is_ascii_chars_encode_utf8(cs);
                assert(e =~= seq![0x74u8, 0x72u8, 0x75u8, 0x65u8]);
                crate::json::lemma_tok_len_at(sub, 4);
                assert(sub.take(tok_len(sub)) =~= seq![0x74u8, 0x72u8, 0x75u8, 0x65u8]);
            } else {
                assert(cs =~= seq!['f', 'a', 'l', 's', 'e']);
                assert(vstd::utf8::is_ascii_chars(cs));
                vstd::utf8::is_ascii_chars_encode_utf8(cs);
                assert(e =~= seq![0x66u8, 0x61u8, 0x6cu8, 0x73u8, 0x65u8]);
                crate::json::lemma_tok_len_at(sub, 5);
                assert(sub.take(tok_len(sub)) =~= seq![0x66u8, 0x61u8, 0x6cu8, 0x73u8, 0x65u8]);
            }
        },
        Tree::Int(v) => {
            lemma_json_int_rt(pre, v, tail);
        },
        Tree::Str(scs) => {
            assert(sub.subrange(0, e.len() as int) =~= e);
            lemma_jstr_rt(sub, scs);
            assert(sub[0] == 0x22);
        },
        Tree::Arr(ts) => {
            let open_ch: Seq<char> = seq!['['];
            assert(cs == open_ch + jc_list(ts) + seq![']']);
            lemma_encode_utf8_concat(open_ch + jc_list(ts), seq![']']);
            lemma_encode_utf8_concat(open_ch, jc_list(ts));
            assert(vstd::utf8::is_ascii_chars(open_ch));
            vstd::utf8::is_ascii_chars_encode_utf8(open_ch);
            assert(vstd::utf8::encode_utf8(open_ch) =~= seq![0x5bu8]);
            assert(vstd::utf8::is_ascii_chars(seq![']']));
            vstd::utf8::is_ascii_chars_encode_utf8(seq![']']);
            let el = vstd::utf8::encode_utf8(jc_list(ts));
            assert(e =~= seq![0x5bu8] + el + seq![0x5du8]);
            assert(sub[0] == 0x5b);
            assert(b.skip(w + 1) =~= Seq::<u8>::empty() + el + seq![0x5du8] + tail) by {
                assert forall|i: int|
                    0 <= i < b.skip(w + 1).len() implies #[trigger] b.skip(w + 1)[i] == (
                Seq::<u8>::empty() + el + seq![0x5du8] + tail)[i] by {
                    assert(b.skip(w + 1)[i] == b[w + 1 + i]);
                    if 1 + i < e.len() {
                        assert(b[w + 1 + i] == e[1 + i]);
                    }
                }
            }
            assert(decreases_to!(t => t->Arr_0));
            lemma_json_items_rt(Seq::<u8>::empty(), ts, tail);
            assert(js_items(b.skip(w + 1)) == Result::<(Seq<Tree>, int), JsonError>::Ok(
                (ts, (el.len() + 1) as int),
            ));
        },
        Tree::Obj(es) => {
            let open_ch: Seq<char> = seq!['{'];
            assert(cs == open_ch + jc_entries(es) + seq!['}']);
            lemma_encode_utf8_concat(open_ch + jc_entries(es), seq!['}']);
            lemma_encode_utf8_concat(open_ch, jc_entries(es));
            assert(vstd::utf8::is_ascii_chars(open_ch));
            vstd::utf8::is_ascii_chars_encode_utf8(open_ch);
            assert(vstd::utf8::encode_utf8(open_ch) =~= seq![0x7bu8]);
            assert(vstd::utf8::is_ascii_chars(seq!['}']));
            vstd::utf8::is_ascii_chars_encode_utf8(seq!['}']);
            let ee = vstd::utf8::encode_utf8(jc_entries(es));
            assert(e =~= seq![0x7bu8] + ee + seq![0x7du8]);
            assert(sub[0] == 0x7b);
            assert(b.skip(w + 1) =~= Seq::<u8>::empty() + ee + seq![0x7du8] + tail) by {
                assert forall|i: int|
                    0 <= i < b.skip(w + 1).len() implies #[trigger] b.skip(w + 1)[i] == (
                Seq::<u8>::empty() + ee + seq![0x7du8] + tail)[i] by {
                    assert(b.skip(w + 1)[i] == b[w + 1 + i]);
                    if 1 + i < e.len() {
                        assert(b[w + 1 + i] == e[1 + i]);
                    }
                }
            }
            assert(decreases_to!(t => t->Obj_0));
            lemma_json_entries_rt(Seq::<u8>::empty(), es, tail);
            assert(js_entries(b.skip(w + 1)) == Result::<
                (Seq<(Seq<char>, Tree)>, int),
                JsonError,
            >::Ok((es, (ee.len() + 1) as int)));
            lemma_entries_to_obj_sorted(es);
        },
        _ => {},
    }
}

/// Parsing the rendered elements of an array, closed by a bracket, yields
/// the elements in order and consumes up to and including the bracket.
#[verifier::rlimit(100)]
#[verifier::spinoff_prover]
proof fn lemma_json_items_rt(pre: Seq<u8>, ts: Seq<Tree>, tail2: Seq<u8>)
    requires
        forall|i: int| 0 <= i < ts.len() ==> jrt_ok(#[trigger] ts[i]),
        forall|i: int| 0 <= i < pre.len() ==> is_white(#[trigger] pre[i]),
    ensures
        ({
            let el = vstd::utf8::encode_utf8(jc_list(ts));
            js_items(pre + el + seq![0x5du8] + tail2) == Result::<(Seq<Tree>, int), JsonError>::Ok(
                (ts, (pre.len() + el.len() + 1) as int),
            )
        }),
    decreases ts, 0int,
{
    broadcast use vstd::seq::group_seq_axioms;

    let el = vstd::utf8::encode_utf8(jc_list(ts));
    let b = pre + el + seq![0x5du8] + tail2;
    let w = pre.len() as int;
    if ts.len() == 0 {
        assert(jc_list(ts) =~= Seq::<char>::empty());
        assert(el =~= Seq::<u8>::empty());
        assert(ts =~= Seq::<Tree>::empty());
        assert(b[w] == 0x5d);
        crate::json::lemma_ws_len_at(b, w);
    } else {
        let t0 = ts[0];
        let e0 = vstd::utf8::encode_utf8(jc_tree(t0));
        lemma_jc_head(t0);
        assert(decreases_to!(ts => ts[0]));
        if ts.len() == 1 {
            assert(jc_list(ts) == jc_tree(t0));
            assert(el == e0);
            assert(b[w] == e0[0]);
            crate::json::lemma_ws_len_at(b, w);
            let tailx = seq![0x5du8] + tail2;
            assert(b.skip(w) =~= Seq::<u8>::empty() + e0 + tailx) by {
                assert forall|i: int|
                    0 <= i < b.skip(w).len() implies #[trigger] b.skip(w)[i] == (
                Seq::<u8>::empty() + e0 + tailx)[i] by {
                    assert(b.skip(w)[i] == b[w + i]);
                }
            }
            lemma_json_round_trip(Seq::<u8>::empty(), t0, tailx);
            assert(js_parse(b.skip(w)) == Result::<(Tree, int), JsonError>::Ok(
                (t0, e0.len() as int),
            ));
            let p = w + e0.len();
            assert(b[p] == 0x5d);
            assert(b.skip(p)[0] == 0x5d);
            crate::json::lemma_ws_len_at(b.skip(p), 0);
            assert(js_items(b.skip(p)) == Result::<(Seq<Tree>, int), JsonError>::Ok(
                (Seq::<Tree>::empty(), 1),
            ));
            assert(seq![t0] + Seq::<Tree>::empty() =~= ts);
        } else {
            let rest = ts.drop_first();
            assert(jc_list(ts) == jc_tree(t0) + seq![',', '\n'] + jc_list(rest));
            lemma_encode_utf8_concat(jc_tree(t0) + seq![',', '\n'], jc_list(rest));
            lemma_encode_utf8_concat(jc_tree(t0), seq![',', '\n']);
            assert(vstd::utf8::is_ascii_chars(seq![',', '\n']));
            vstd::utf8::is_ascii_chars_encode_utf8(seq![',', '\n']);
            assert(vstd::utf8::encode_utf8(seq![',', '\n']) =~= seq![0x2cu8, 0x0au8]);
            let elr = vstd::utf8::encode_utf8(jc_list(rest));
            assert(el =~= e0 + seq![0x2cu8, 0x0au8] + elr);
            assert(b[w] == e0[0]);
            crate::json::lemma_ws_len_at(b, w);
            let tailx = seq![0x2cu8, 0x0au8] + elr + seq![0x5du8] + tail2;
            assert(b.skip(w) =~= Seq::<u8>::empty() + e0 + tailx) by {
                assert forall|i: int|
                    0 <= i < b.skip(w).len() implies #[trigger] b.skip(w)[i] == (
                Seq::<u8>::empty() + e0 + tailx)[i] by {
                    assert(b.skip(w)[i] == b[w + i]);
                }
            }
            lemma_json_round_trip(Seq::<u8>::empty(), t0, tailx);
            assert(js_parse(b.skip(w)) == Result::<(Tree, int), JsonError>::Ok(
                (t0, e0.len() as int),
            ));
            let p = w + e0.len();
            assert(b[p] == 0x2c);
            assert(b.skip(p)[0] == 0x2c);
            crate::json::lemma_ws_len_at(b.skip(p), 0);
            assert(b.skip(p + 1) =~= seq![0x0au8] + elr + seq![0x5du8] + tail2) by {
                assert forall|i: int|
                    0 <= i < b.skip(p + 1).len() implies #[trigger] b.skip(p + 1)[i] == (
                seq![0x0au8] + elr + seq![0x5du8] + tail2)[i] by {
                    assert(b.skip(p + 1)[i] == b[p + 1 + i]);
                }
            }
            lemma_json_items_rt(seq![0x0au8], rest, tail2);
            assert(is_white(0x0a));
            assert(js_items(b.skip(p + 1)) == Result::<(Seq<Tree>, int), JsonError>::Ok(
                (rest, (1 + elr.len() + 1) as int),
            ));
            assert(seq![t0] + rest =~= ts);
        }
    }
}

/// Parsing the rendered members of an object, closed by a brace, yields
/// the members in order and consumes up to and including the brace.
#[verifier::rlimit(100)]
#[verifier::spinoff_prover]
proof fn lemma_json_entries_rt(pre: Seq<u8>, es: Seq<(Seq<char>, Tree)>, tail2: Seq<u8>)
    requires
        forall|i: int| 0 <= i < es.len() ==> jrt_ok((#[trigger] es[i]).1),
        forall|i: int| 0 <= i < pre.len() ==> is_white(#[trigger] pre[i]),
    ensures
        ({
            let ee = vstd::utf8::encode_utf8(jc_entries(es));
            js_entries(pre + ee + seq![0x7du8] + tail2) == Result::<
                (Seq<(Seq<char>, Tree)>, int),
                JsonError,
            >::Ok((es, (pre.len() + ee.len() + 1) as int))
        }),
    decreases es, 0int,
{
    broadcast use vstd::seq::group_seq_axioms;

    let ee = vstd::utf8::encode_utf8(jc_entries(es));
    let b = pre + ee + seq![0x7du8] + tail2;
    let w = pre.len() as int;
    if es.len() == 0 {
        assert(jc_entries(es) =~= Seq::<char>::empty());
        assert(ee =~= Seq::<u8>::empty());
        assert(es =~= Seq::<(Seq<char>, Tree)>::empty());
        assert(b[w] == 0x7d);
        crate::json::lemma_ws_len_at(b, w);
    } else {
        let k0 = es[0].0;
        let v0 = es[0].1;
        let head = jstr_chars(k0) + seq![':', ' '] + jc_tree(v0);
        let ek = vstd::utf8::encode_utf8(jstr_chars(k0));
        let ev = vstd::utf8::encode_utf8(jc_tree(v0));
        lemma_encode_utf8_concat(jstr_chars(k0) + seq![':', ' '], jc_tree(v0));
        lemma_encode_utf8_concat(jstr_chars(k0), seq![':', ' ']);
        assert(vstd::utf8::is_ascii_chars(seq![':', ' ']));
        vstd::utf8::is_ascii_chars_encode_utf8(seq![':', ' ']);
        assert(vstd::utf8::encode_utf8(seq![':', ' ']) =~= seq![0x3au8, 0x20u8]);
        let eh = vstd::utf8::encode_utf8(head);
        assert(eh =~= ek + seq![0x3au8, 0x20u8] + ev);
        assert(ek.len() >= 1 && ek[0] == 0x22) by {
            let quote: Seq<char> = seq!['"'];
            assert(jstr_chars(k0) == quote + jesc(k0) + quote);
            lemma_encode_utf8_concat(quote + jesc(k0), quote);
            lemma_encode_utf8_concat(quote, jesc(k0));
            assert(vstd::utf8::is_ascii_chars(quote));
            vstd::utf8::is_ascii_chars_encode_utf8(quote);
            assert(vstd::utf8::encode_utf8(quote) =~= seq![0x22u8]);
            assert(ek == (vstd::utf8::encode_utf8(quote) + vstd::utf8::encode_utf8(jesc(k0)))
                + vstd::utf8::encode_utf8(quote));
        }
        assert(decreases_to!(es => es[0]));
        assert(decreases_to!(es[0] => es[0].1));
        if es.len() == 1 {
            assert(jc_entries(es) == head);
            assert(ee == eh);
            assert(b[w] == 0x22);
            crate::json::lemma_ws_len_at(b, w);
            assert(b.skip(w).subrange(0, ek.len() as int) =~= ek) by {
                assert forall|i: int|
                    0 <= i < ek.len() implies b.skip(w).subrange(0, ek.len() as int)[i]
                    == #[trigger] ek[i] by {
                    assert(b.skip(w).subrange(0, ek.len() as int)[i] == b[w + i]);
                    assert(b[w + i] == ee[i]);
                }
            }
            lemma_jstr_rt(b.skip(w), k0);
            let p = w + ek.len();
            assert(b[p] == 0x3a);
            assert(b.skip(p)[0] == 0x3a);
            crate::json::lemma_ws_len_at(b.skip(p), 0);
            let q = p + 1;
            let tailv = seq![0x7du8] + tail2;
            assert(b.skip(q) =~= seq![0x20u8] + ev + tailv) by {
                assert forall|i: int|
                    0 <= i < b.skip(q).len() implies #[trigger] b.skip(q)[i] == (seq![0x20u8] + ev
                    + tailv)[i] by {
                    assert(b.skip(q)[i] == b[q + i]);
                    if 1 + ek.len() + 1 + i < ee.len() + 1 {
                        assert(b[q + i] == ee[ek.len() + 1 + i]);
                    }
                }
            }
            assert(is_white(0x20));
            lemma_json_round_trip(seq![0x20u8], v0, tailv);
            assert(js_parse(b.skip(q)) == Result::<(Tree, int), JsonError>::Ok(
                (v0, (1 + ev.len()) as int),
            ));
            let p2 = q + 1 + ev.len();
            assert(b[p2] == 0x7d);
            assert(b.skip(p2)[0] == 0x7d);
            crate::json::lemma_ws_len_at(b.skip(p2), 0);
            assert(js_entries(b.skip(p2)) == Result::<(Seq<(Seq<char>, Tree)>, int), JsonError>::Ok(
                (Seq::<(Seq<char>, Tree)>::empty(), 1),
            ));
            assert(seq![(k0, v0)] + Seq::<(Seq<char>, Tree)>::empty() =~= es);
        } else {
            let rest = es.drop_first();
            assert(jc_entries(es) == head + seq![',', '\n'] + jc_entries(rest));
            lemma_encode_utf8_concat(head + seq![',', '\n'], jc_entries(rest));
            lemma_encode_utf8_concat(head, seq![',', '\n']);
            assert(vstd::utf8::is_ascii_chars(seq![',', '\n']));
            vstd::utf8::is_ascii_chars_encode_utf8(seq![',', '\n']);
            assert(vstd::utf8::encode_utf8(seq![',', '\n']) =~= seq![0x2cu8, 0x0au8]);
            let eer = vstd::utf8::encode_utf8(jc_entries(rest));
            assert(ee =~= eh + seq![0x2cu8, 0x0au8] + eer);
            assert(b[w] == 0x22);
            crate::json::lemma_ws_len_at(b, w);
            assert(b.skip(w).subrange(0, ek.len() as int) =~= ek) by {
                assert forall|i: int|
                    0 <= i < ek.len() implies b.skip(w).subrange(0, ek.len() as int)[i]
                    == #[trigger] ek[i] by {
                    assert(b.skip(w).subrange(0, ek.len() as int)[i] == b[w + i]);
                    assert(b[w + i] == ee[i]);
                }
            }
            lemma_jstr_rt(b.skip(w), k0);
            let p = w + ek.len();
            assert(b[p] == 0x3a);
            assert(b.skip(p)[0] == 0x3a);
            crate::json::lemma_ws_len_at(b.skip(p), 0);
            let q = p + 1;
            let tailv = seq![0x2cu8, 0x0au8] + eer + seq![0x7du8] + tail2;
            assert(b.skip(q) =~= seq![0x20u8] + ev + tailv) by {
                assert forall|i: int|
                    0 <= i < b.skip(q).len() implies #[trigger] b.skip(q)[i] == (seq![0x20u8] + ev
                    + tailv)[i] by {
                    assert(b.skip(q)[i] == b[q + i]);
                    if 1 + ek.len() + 1 + i < ee.len() + 1 {
                        assert(b[q + i] == ee[ek.len() + 1 + i]);
                    }
                }
            }
            assert(is_white(0x20));
            lemma_json_round_trip(seq![0x20u8], v0, tailv);
            assert(js_parse(b.skip(q)) == Result::<(Tree, int), JsonError>::Ok(
                (v0, (1 + ev.len()) as int),
            ));
            let p2 = q + 1 + ev.len();
            assert(b[p2] == 0x2c);
            assert(b.skip(p2)[0] == 0x2c);
            crate::json::lemma_ws_len_at(b.skip(p2), 0);
            assert(b.skip(p2 + 1) =~= seq![0x0au8] + eer + seq![0x7du8] + tail2) by {
                assert forall|i: int|
                    0 <= i < b.skip(p2 + 1).len() implies #[trigger] b.skip(p2 + 1)[i] == (
                seq![0x0au8] + eer + seq![0x7du8] + tail2)[i] by {
                    assert(b.skip(p2 + 1)[i] == b[p2 + 1 + i]);
                }
            }
            assert(forall|i: int| 0 <= i < rest.len() ==> jrt_ok((#[trigger] rest[i]).1)) by {
                assert(forall|i: int| 0 <= i < rest.len() ==> (#[trigger] rest[i]) == es[i + 1]);
            }
            lemma_json_entries_rt(seq![0x0au8], rest, tail2);
            assert(is_white(0x0a));
            assert(js_entries(b.skip(p2 + 1)) == Result::<
                (Seq<(Seq<char>, Tree)>, int),
                JsonError,
            >::Ok((rest, (1 + eer.len() + 1) as int)));
            assert(seq![(k0, v0)] + rest =~= es);
        }
    }
}

/// In a well-formed store, an object snapshot lists its entries with keys
/// strictly ascending; both the MessagePack and the JSON encodings walk
/// that list in order, so both emit entries in ascending key order however
/// the keys were inserted.
pub proof fn lemma_object_keys_sorted(s: StoreV, v: Val, t: Tree)
    requires
        s.wf(),
        represents(s, v, t),
        t is Obj,
    ensures
        sorted_entries(t->Obj_0),
{
    let es = t->Obj_0;
    let h = v->Obj_0;
    assert forall|i: int, j: int| 0 <= i < j < es.len() implies key_lt(es[i].0, es[j].0) by {
        assert(s.objects[h][i].0 == es[i].0 && s.objects[h][j].0 == es[j].0);
        assert(sorted_entries(s.objects[h]));
    }
}

/// An array or object value never equals any value, itself and its clones
/// included: structural equality over shared mutable containers is
/// deliberately undefined.
pub proof fn lemma_composites_never_equal(a: Val, b: Val)
    requires
        a is Arr || a is Obj || b is Arr || b is Obj,
    ensures
        !crate::dynamic::val_eq(a, b),
{
}

} // verus!
