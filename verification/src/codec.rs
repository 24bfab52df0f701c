//! The binary codec for stored values.
//!
//! Integers are encoded as fixed-width little-endian bytes; text is encoded
//! as one four-byte little-endian block per character.  Both encodings are
//! deterministic and decoding is their exact inverse, so a collection can
//! persist a value and read back the same value.

use vstd::prelude::*;
use vstd::string::StrSliceExecFns;

verus! {

/// The eight little-endian bytes of `v`.
pub open spec fn le8(v: u64) -> Seq<u8> {
    seq![
        (v & 0xFF) as u8,
        ((v >> 8) & 0xFF) as u8,
        ((v >> 16) & 0xFF) as u8,
        ((v >> 24) & 0xFF) as u8,
        ((v >> 32) & 0xFF) as u8,
        ((v >> 40) & 0xFF) as u8,
        ((v >> 48) & 0xFF) as u8,
        ((v >> 56) & 0xFF) as u8,
    ]
}

/// The value read back from eight little-endian bytes.
pub open spec fn dec_u64(b: Seq<u8>) -> Option<u64> {
    if b.len() != 8 {
        Option::None
    } else {
        Option::Some(
            (b[0] as u64) | ((b[1] as u64) << 8) | ((b[2] as u64) << 16) | ((b[3] as u64) << 24)
                | ((b[4] as u64) << 32) | ((b[5] as u64) << 40) | ((b[6] as u64) << 48) | (
            (b[7] as u64) << 56),
        )
    }
}

/// Decoding inverts encoding for every integer.
pub proof fn lemma_u64_round_trip(v: u64)
    ensures
        dec_u64(le8(v)) == Option::<u64>::Some(v),
{
    assert(v & 0xFF < 256 && (v >> 8) & 0xFF < 256 && (v >> 16) & 0xFF < 256 && (v >> 24) & 0xFF
        < 256 && (v >> 32) & 0xFF < 256 && (v >> 40) & 0xFF < 256 && (v >> 48) & 0xFF < 256 && (v
        >> 56) & 0xFF < 256) by (bit_vector);
    assert((v & 0xFF) | (((v >> 8) & 0xFF) << 8) | (((v >> 16) & 0xFF) << 16) | (((v >> 24) & 0xFF)
        << 24) | (((v >> 32) & 0xFF) << 32) | (((v >> 40) & 0xFF) << 40) | (((v >> 48) & 0xFF)
        << 48) | (((v >> 56) & 0xFF) << 56) == v) by (bit_vector);
}

/// The value carried by eight little-endian bytes.
pub open spec fn dec8(b: Seq<u8>) -> u64
    recommends
        b.len() == 8,
{
    (b[0] as u64) | ((b[1] as u64) << 8) | ((b[2] as u64) << 16) | ((b[3] as u64) << 24) | ((
    b[4] as u64) << 32) | ((b[5] as u64) << 40) | ((b[6] as u64) << 48) | ((b[7] as u64) << 56)
}

/// Eight little-endian bytes carry back the integer they were made from.
pub proof fn lemma_le8_dec8(v: u64)
    ensures
        dec8(le8(v)) == v,
{
    lemma_u64_round_trip(v);
}

/// Any eight bytes are the encoding of the integer they carry.
pub proof fn lemma_dec8_le8(b: Seq<u8>)
    requires
        b.len() == 8,
    ensures
        le8(dec8(b)) == b,
{
    let b0 = b[0] as u64;
    let b1 = b[1] as u64;
    let b2 = b[2] as u64;
    let b3 = b[3] as u64;
    let b4 = b[4] as u64;
    let b5 = b[5] as u64;
    let b6 = b[6] as u64;
    let b7 = b[7] as u64;
    let n = dec8(b);
    assert(n == b0 | (b1 << 8) | (b2 << 16) | (b3 << 24) | (b4 << 32) | (b5 << 40) | (b6 << 48) | (
    b7 << 56));
    assert((b0 | (b1 << 8) | (b2 << 16) | (b3 << 24) | (b4 << 32) | (b5 << 40) | (b6 << 48) | (b7
        << 56)) & 0xFF == b0 && ((b0 | (b1 << 8) | (b2 << 16) | (b3 << 24) | (b4 << 32) | (b5
        << 40) | (b6 << 48) | (b7 << 56)) >> 8) & 0xFF == b1 && ((b0 | (b1 << 8) | (b2 << 16) | (b3
        << 24) | (b4 << 32) | (b5 << 40) | (b6 << 48) | (b7 << 56)) >> 16) & 0xFF == b2 && ((b0 | (
    b1 << 8) | (b2 << 16) | (b3 << 24) | (b4 << 32) | (b5 << 40) | (b6 << 48) | (b7 << 56)) >> 24)
        & 0xFF == b3 && ((b0 | (b1 << 8) | (b2 << 16) | (b3 << 24) | (b4 << 32) | (b5 << 40) | (b6
        << 48) | (b7 << 56)) >> 32) & 0xFF == b4 && ((b0 | (b1 << 8) | (b2 << 16) | (b3 << 24) | (
    b4 << 32) | (b5 << 40) | (b6 << 48) | (b7 << 56)) >> 40) & 0xFF == b5 && ((b0 | (b1 << 8) | (b2
        << 16) | (b3 << 24) | (b4 << 32) | (b5 << 40) | (b6 << 48) | (b7 << 56)) >> 48) & 0xFF
        == b6 && ((b0 | (b1 << 8) | (b2 << 16) | (b3 << 24) | (b4 << 32) | (b5 << 40) | (b6 << 48)
        | (b7 << 56)) >> 56) & 0xFF == b7) by (bit_vector)
        requires
            b0 < 256 && b1 < 256 && b2 < 256 && b3 < 256 && b4 < 256 && b5 < 256 && b6 < 256 && b7
                < 256,
    ;
    assert(le8(n) =~= b);
}

/// Reads the integer carried by the eight bytes at `off`.
pub fn read_u64_at(b: &Vec<u8>, off: usize) -> (r: u64)
    requires
        off + 8 <= b@.len(),
    ensures
        r == dec8(b@.subrange(off as int, off as int + 8)),
{
    let end = b.len();
    proof {
        assert(off + 8 <= end);
    }
    let r = (b[off] as u64) | ((b[off + 1] as u64) << 8) | ((b[off + 2] as u64) << 16) | ((b[off
        + 3] as u64) << 24) | ((b[off + 4] as u64) << 32) | ((b[off + 5] as u64) << 40) | ((b[off
        + 6] as u64) << 48) | ((b[off + 7] as u64) << 56);
    proof {
        let s = b@.subrange(off as int, off as int + 8);
        assert(s[0] == b@[off as int] && s[1] == b@[off as int + 1] && s[2] == b@[off as int + 2]
            && s[3] == b@[off as int + 3] && s[4] == b@[off as int + 4] && s[5] == b@[off as int
            + 5] && s[6] == b@[off as int + 6] && s[7] == b@[off as int + 7]);
    }
    r
}

/// Two integers with the same encoding are the same integer.
pub proof fn lemma_le8_injective(a: u64, b: u64)
    requires
        le8(a) == le8(b),
    ensures
        a == b,
{
    lemma_u64_round_trip(a);
    lemma_u64_round_trip(b);
}

/// Encodes an integer as its eight little-endian bytes.
pub fn encode_u64(v: u64) -> (r: Vec<u8>)
    ensures
        r@ == le8(v),
{
    let mut r: Vec<u8> = Vec::new();
    r.push((v & 0xFF) as u8);
    r.push(((v >> 8) & 0xFF) as u8);
    r.push(((v >> 16) & 0xFF) as u8);
    r.push(((v >> 24) & 0xFF) as u8);
    r.push(((v >> 32) & 0xFF) as u8);
    r.push(((v >> 40) & 0xFF) as u8);
    r.push(((v >> 48) & 0xFF) as u8);
    r.push(((v >> 56) & 0xFF) as u8);
    proof {
        assert(v & 0xFF < 256 && (v >> 8) & 0xFF < 256 && (v >> 16) & 0xFF < 256 && (v >> 24)
            & 0xFF < 256 && (v >> 32) & 0xFF < 256 && (v >> 40) & 0xFF < 256 && (v >> 48) & 0xFF
            < 256 && (v >> 56) & 0xFF < 256) by (bit_vector);
        assert(r@ =~= le8(v));
    }
    r
}

/// Reads an integer back from its eight little-endian bytes.
pub fn decode_u64(b: &Vec<u8>) -> (r: Option<u64>)
    ensures
        r == dec_u64(b@),
{
    if b.len() != 8 {
        Option::None
    } else {
        Option::Some(
            (b[0] as u64) | ((b[1] as u64) << 8) | ((b[2] as u64) << 16) | ((b[3] as u64) << 24)
                | ((b[4] as u64) << 32) | ((b[5] as u64) << 40) | ((b[6] as u64) << 48) | ((
            b[7] as u64) << 56),
        )
    }
}

/// `n` is a unicode scalar value, so some character carries it.
pub open spec fn scalar_value(n: u32) -> bool {
    n < 0xD800 || (0xDFFF < n && n <= 0x10FFFF)
}

/// The character `c` carries the code `n`.
pub open spec fn carries(c: char, n: u32) -> bool {
    c as u32 == n
}

/// The character carrying the code `n`, where one exists.
pub open spec fn char_of(n: u32) -> char {
    choose|c: char| carries(c, n)
}

/// The four little-endian bytes of one character.
pub open spec fn char_bytes(c: char) -> Seq<u8> {
    seq![
        ((c as u32) & 0xFF) as u8,
        (((c as u32) >> 8) & 0xFF) as u8,
        (((c as u32) >> 16) & 0xFF) as u8,
        (((c as u32) >> 24) & 0xFF) as u8,
    ]
}

/// The scalar value read back from four little-endian bytes.
pub open spec fn dec_block(b: Seq<u8>) -> u32
    recommends
        b.len() == 4,
{
    (b[0] as u32) | ((b[1] as u32) << 8) | ((b[2] as u32) << 16) | ((b[3] as u32) << 24)
}

/// The byte encoding of a text: one block per character, in order.
pub open spec fn enc_str(s: Seq<char>) -> Seq<u8>
    decreases s.len(),
{
    if s.len() == 0 {
        Seq::empty()
    } else {
        enc_str(s.drop_last()) + char_bytes(s.last())
    }
}

/// The text read back from a byte encoding, or nothing when the bytes are
/// not a whole number of blocks carrying scalar values.
pub open spec fn dec_str(b: Seq<u8>) -> Option<Seq<char>>
    decreases b.len(),
{
    if b.len() == 0 {
        Option::Some(Seq::empty())
    } else if b.len() % 4 != 0 {
        Option::None
    } else {
        let n = dec_block(b.skip(b.len() - 4));
        match dec_str(b.take(b.len() - 4)) {
            Option::None => Option::None,
            Option::Some(rest) => if carries(char_of(n), n) {
                Option::Some(rest.push(char_of(n)))
            } else {
                Option::None
            },
        }
    }
}

/// Two characters with the same code are the same character.
pub proof fn lemma_char_code_injective(a: char, b: char)
    requires
        a as u32 == b as u32,
    ensures
        a == b,
{
}

/// A character's block decodes back to its own scalar value.
proof fn lemma_block_round_trip(c: char)
    ensures
        dec_block(char_bytes(c)) == c as u32,
        scalar_value(c as u32),
{
    let n = c as u32;
    assert(n & 0xFF < 256 && (n >> 8) & 0xFF < 256 && (n >> 16) & 0xFF < 256 && (n >> 24) & 0xFF
        < 256) by (bit_vector);
    assert((n & 0xFF) | (((n >> 8) & 0xFF) << 8) | (((n >> 16) & 0xFF) << 16) | (((n >> 24) & 0xFF)
        << 24) == n) by (bit_vector);
}

/// Encoding has one block per character.
pub proof fn lemma_enc_str_len(s: Seq<char>)
    ensures
        enc_str(s).len() == 4 * s.len(),
    decreases s.len(),
{
    if s.len() > 0 {
        lemma_enc_str_len(s.drop_last());
    }
}

/// Decoding inverts encoding for every text.
pub proof fn lemma_str_round_trip(s: Seq<char>)
    ensures
        dec_str(enc_str(s)) == Option::Some(s),
    decreases s.len(),
{
    lemma_enc_str_len(s);
    if s.len() == 0 {
        assert(dec_str(enc_str(s)) == Option::Some(Seq::<char>::empty()));
        assert(s =~= Seq::<char>::empty());
    } else {
        let b = enc_str(s);
        let c = s.last();
        lemma_enc_str_len(s.drop_last());
        assert(b.take(b.len() - 4) =~= enc_str(s.drop_last()));
        assert(b.skip(b.len() - 4) =~= char_bytes(c));
        lemma_block_round_trip(c);
        lemma_str_round_trip(s.drop_last());
        let n = c as u32;
        assert(carries(c, n));
        assert(exists|w: char| #[trigger] carries(w, n));
        assert(carries(char_of(n), n));
        lemma_char_code_injective(char_of(n), c);
        assert(dec_str(b).unwrap() =~= s);
    }
}

/// Two texts with the same encoding are the same text.
pub proof fn lemma_enc_str_injective(a: Seq<char>, b: Seq<char>)
    requires
        enc_str(a) == enc_str(b),
    ensures
        a == b,
{
    lemma_str_round_trip(a);
    lemma_str_round_trip(b);
}

/// Relies on `char::from_u32`: it returns the character for every unicode
/// scalar value and nothing for a surrogate or out-of-range code.
#[verifier::external_body]
fn char_from_u32(n: u32) -> (r: Option<char>)
    ensures
        r is Some <==> scalar_value(n),
        r is Some ==> r.unwrap() as u32 == n,
{
    char::from_u32(n)
}

/// Encodes a text as one four-byte block per character.
pub fn encode_str(s: &str) -> (r: Vec<u8>)
    ensures
        r@ == enc_str(s@),
{
    let mut r: Vec<u8> = Vec::new();
    let len = s.unicode_len();
    let mut i: usize = 0;
    while i < len
        invariant
            len == s@.len(),
            i <= len,
            r@ == enc_str(s@.take(i as int)),
        decreases len - i,
    {
        let n = s.get_char(i) as u32;
        r.push((n & 0xFF) as u8);
        r.push(((n >> 8) & 0xFF) as u8);
        r.push(((n >> 16) & 0xFF) as u8);
        r.push(((n >> 24) & 0xFF) as u8);
        proof {
            assert(n & 0xFF < 256 && (n >> 8) & 0xFF < 256 && (n >> 16) & 0xFF < 256 && (n >> 24)
                & 0xFF < 256) by (bit_vector);
            assert(s@.take(i + 1).drop_last() =~= s@.take(i as int));
            assert(r@ =~= enc_str(s@.take(i + 1)));
        }
        i = i + 1;
    }
    proof {
        assert(s@.take(len as int) =~= s@);
    }
    r
}

/// Reads a text back from its byte encoding.
pub fn decode_str(b: &Vec<u8>) -> (r: Option<String>)
    ensures
        (match r {
            Option::Some(s) => dec_str(b@) == Option::Some(s@),
            Option::None => dec_str(b@) is None,
        }),
{
    if b.len() % 4 != 0 {
        return Option::None;
    }
    let mut out: Vec<char> = Vec::new();
    let total = b.len();
    let blocks = total / 4;
    let mut i: usize = 0;
    let mut k: usize = 0;
    while i < blocks
        invariant
            total == b@.len(),
            b@.len() % 4 == 0,
            blocks == b@.len() / 4,
            i <= blocks,
            k == 4 * i as int,
            dec_str(b@.take(4 * i as int)) == Option::Some(out@),
        decreases blocks - i,
    {
        proof {
            assert(b@.len() == 4 * blocks as int);
            assert(k + 4 <= b@.len());
        }
        let n = (b[k] as u32) | ((b[k + 1] as u32) << 8) | ((b[k + 2] as u32) << 16) | ((b[k
            + 3] as u32) << 24);
        proof {
            assert(n == dec_block(b@.subrange(4 * i as int, 4 * i + 4))) by {
                assert(b@.subrange(4 * i as int, 4 * i + 4)[0] == b@[4 * i as int]);
                assert(b@.subrange(4 * i as int, 4 * i + 4)[1] == b@[4 * i + 1]);
                assert(b@.subrange(4 * i as int, 4 * i + 4)[2] == b@[4 * i + 2]);
                assert(b@.subrange(4 * i as int, 4 * i + 4)[3] == b@[4 * i + 3]);
            }
        }
        let c = match char_from_u32(n) {
            Option::Some(c) => c,
            Option::None => {
                proof {
                    lemma_dec_str_step(b@, i as int, out@, Option::None);
                    assert(4 * i as int + 4 == 4 * (i as int + 1));
                    assert((4 * (i as int + 1)) % 4 == 0) by (nonlinear_arith);
                    lemma_dec_str_prefix_none(b@, 4 * i as int + 4);
                }
                return Option::None;
            },
        };
        let ghost prev_out = out@;
        out.push(c);
        proof {
            lemma_dec_str_step(b@, i as int, prev_out, Option::Some(c));
        }
        i = i + 1;
        k = k + 4;
    }
    proof {
        assert(b@.take(4 * blocks as int) =~= b@);
    }
    Option::Some(crate::json::chars_to_string(&out))
}

/// A byte string does not decode when one of its whole-block prefixes does
/// not.
proof fn lemma_dec_str_prefix_none(b: Seq<u8>, m: int)
    requires
        b.len() % 4 == 0,
        0 <= m <= b.len(),
        m % 4 == 0,
        dec_str(b.take(m)) is None,
    ensures
        dec_str(b) is None,
    decreases b.len(),
{
    if b.len() == m {
        assert(b.take(m) =~= b);
    } else {
        assert(m + 4 <= b.len()) by (nonlinear_arith)
            requires
                b.len() % 4 == 0,
                m % 4 == 0,
                m < b.len(),
        ;
        let p = b.take(b.len() - 4);
        assert(p.len() % 4 == 0) by (nonlinear_arith)
            requires
                b.len() % 4 == 0,
                b.len() >= 4,
                p.len() == b.len() - 4,
        ;
        assert(p.take(m) =~= b.take(m));
        lemma_dec_str_prefix_none(p, m);
    }
}

/// One decoding step: the prefix one block longer decodes to one more
/// character when one carries the block's code, and to nothing when the
/// code is no unicode scalar value.
proof fn lemma_dec_str_step(b: Seq<u8>, i: int, acc: Seq<char>, w: Option<char>)
    requires
        b.len() % 4 == 0,
        0 <= i,
        4 * i + 4 <= b.len(),
        dec_str(b.take(4 * i)) == Option::Some(acc),
        (match w {
            Option::Some(c) => carries(c, dec_block(b.subrange(4 * i, 4 * i + 4))),
            Option::None => !scalar_value(dec_block(b.subrange(4 * i, 4 * i + 4))),
        }),
    ensures
        (match w {
            Option::Some(c) => dec_str(b.take(4 * i + 4)) == Option::Some(acc.push(c)),
            Option::None => dec_str(b.take(4 * i + 4)) is None,
        }),
{
    let p = b.take(4 * i + 4);
    assert(p.len() == 4 * i + 4);
    assert(p.len() % 4 == 0) by {
        assert(4 * i + 4 == 4 * (i + 1));
        assert((4 * (i + 1)) % 4 == 0) by (nonlinear_arith);
    }
    assert(p.take(p.len() - 4) =~= b.take(4 * i));
    assert(p.skip(p.len() - 4) =~= b.subrange(4 * i, 4 * i + 4));
    let n = dec_block(b.subrange(4 * i, 4 * i + 4));
    match w {
        Option::Some(c) => {
            assert(carries(c, n));
            assert(exists|w2: char| #[trigger] carries(w2, n));
            assert(carries(char_of(n), n));
            lemma_char_code_injective(char_of(n), c);
        },
        Option::None => {
            if carries(char_of(n), n) {
                assert(scalar_value(n));
            }
        },
    }
}

} // verus!
