use vstd::prelude::*;
use vstd::arithmetic::div_mod::{
    lemma_div_denominator, lemma_fundamental_div_mod, lemma_fundamental_div_mod_converse,
    lemma_mod_mod, lemma_mod_multiples_basic, lemma_multiply_divide_lt, lemma_small_mod,
};
use vstd::slice::slice_index_get;
use crate::tag::{MsgType, tag_code, tag_from_code};

verus! {

/// The conditions under which a decode fails.  Decoding is the only
/// fallible direction: encoding a well-formed in-memory value never fails,
/// and duplicate insertion is signalled by a boolean, not an error.
///
/// `InvalidDiscriminant` is also reported for an optional-presence byte
/// other than 0 or 1, the only other closed byte set on the wire.
#[derive(Clone, Copy, Debug, PartialEq, Eq, Structural)]
pub enum CodecError {
    /// A tag byte outside the closed set 0 through 11.
    InvalidDiscriminant,
    /// Fewer bytes remain than a declared length requires.
    TruncatedInput,
    /// A declared length cannot be represented by the host.
    LengthOverflow,
}

/// 256 to the `k`th power: the number of values a `k`-byte string can hold.
pub open spec fn pow256(k: nat) -> nat
    decreases k,
{
    if k == 0 {
        1
    } else {
        256 * pow256((k - 1) as nat)
    }
}

/// The `count` little-endian bytes of `n` (the wire form of every
/// fixed-width integer here).
pub open spec fn le_bytes(n: nat, count: nat) -> Seq<u8>
    decreases count,
{
    if count == 0 {
        Seq::empty()
    } else {
        seq![(n % 256) as u8] + le_bytes(n / 256, (count - 1) as nat)
    }
}

/// The value a little-endian byte string stands for.
pub open spec fn le_value(s: Seq<u8>) -> nat
    decreases s.len(),
{
    if s.len() == 0 {
        0
    } else {
        (s[0] as nat) + 256 * le_value(s.drop_first())
    }
}

/// The compact (variable-width) encoding of a length or count `n`,
/// `n < 2^32`: the two low bits of the first byte select the width
/// (0: one byte, 1: two bytes, 2: four bytes, 3: a marker byte followed by
/// four bytes), and the remaining bits carry the value, little-endian.
pub open spec fn compact_bytes(n: nat) -> Seq<u8> {
    if n < 64 {
        seq![(4 * n) as u8]
    } else if n < 16384 {
        le_bytes(4 * n + 1, 2)
    } else if n < 1073741824 {
        le_bytes(4 * n + 2, 4)
    } else {
        seq![3u8] + le_bytes(n, 4)
    }
}

/// Reads a compact length from the front of `s`: the value and the number
/// of bytes consumed.  A first byte in the widest mode that announces more
/// than four value bytes declares a length beyond the 32-bit length domain
/// and is reported as `LengthOverflow`.  Unlike the encoder, the parser
/// accepts a value in a wider mode than it needs.
pub open spec fn parse_compact(s: Seq<u8>) -> Result<(nat, nat), CodecError> {
    if s.len() < 1 {
        Err(CodecError::TruncatedInput)
    } else {
        let b = s[0] as nat;
        if b % 4 == 0 {
            Ok((b / 4, 1))
        } else if b % 4 == 1 {
            if s.len() < 2 {
                Err(CodecError::TruncatedInput)
            } else {
                Ok((le_value(s.take(2)) / 4, 2))
            }
        } else if b % 4 == 2 {
            if s.len() < 4 {
                Err(CodecError::TruncatedInput)
            } else {
                Ok((le_value(s.take(4)) / 4, 4))
            }
        } else if b != 3 {
            Err(CodecError::LengthOverflow)
        } else if s.len() < 5 {
            Err(CodecError::TruncatedInput)
        } else {
            Ok((le_value(s.subrange(1, 5)), 5))
        }
    }
}

/// The wire form of an opaque byte buffer: its length, compact, then its
/// bytes.
pub open spec fn buf_enc(v: Seq<u8>) -> Seq<u8> {
    compact_bytes(v.len()) + v
}

/// Reads a length-prefixed byte buffer from the front of `s`.
pub open spec fn parse_buf(s: Seq<u8>) -> Result<(Seq<u8>, nat), CodecError> {
    match parse_compact(s) {
        Err(e) => Err(e),
        Ok((len, c)) => if s.len() < c + len {
            Err(CodecError::TruncatedInput)
        } else {
            Ok((s.subrange(c as int, (c + len) as int), c + len))
        },
    }
}

/// Reads a tag discriminant byte from the front of `s`.
pub open spec fn parse_tag(s: Seq<u8>) -> Result<(MsgType, nat), CodecError> {
    if s.len() < 1 {
        Err(CodecError::TruncatedInput)
    } else {
        match tag_from_code(s[0]) {
            Some(t) => Ok((t, 1)),
            None => Err(CodecError::InvalidDiscriminant),
        }
    }
}

/// Reads a 16-byte little-endian identifier from the front of `s`.
pub open spec fn parse_id(s: Seq<u8>) -> Result<(u128, nat), CodecError> {
    if s.len() < 16 {
        Err(CodecError::TruncatedInput)
    } else {
        Ok((le_value(s.take(16)) as u128, 16))
    }
}

// ---------------------------------------------------------------------
// facts about the byte-string model
// ---------------------------------------------------------------------

pub proof fn lemma_pow256_pos(k: nat)
    ensures
        pow256(k) >= 1,
    decreases k,
{
    if k > 0 {
        lemma_pow256_pos((k - 1) as nat);
    }
}

pub proof fn lemma_pow256_increases(a: nat, b: nat)
    requires
        a <= b,
    ensures
        pow256(a) <= pow256(b),
    decreases b,
{
    if a < b {
        lemma_pow256_increases(a, (b - 1) as nat);
        lemma_pow256_pos((b - 1) as nat);
    }
}

/// The few concrete powers the codec works with.
pub proof fn lemma_pow256_values()
    ensures
        pow256(2) == 0x1_0000,
        pow256(4) == 0x1_0000_0000,
        pow256(16) == 0x1_0000_0000_0000_0000_0000_0000_0000_0000,
{
    reveal_with_fuel(pow256, 17);
}

pub proof fn lemma_le_bytes_len(n: nat, count: nat)
    ensures
        le_bytes(n, count).len() == count,
    decreases count,
{
    if count > 0 {
        lemma_le_bytes_len(n / 256, (count - 1) as nat);
    }
}

/// A `k`-byte string holds a value below `256^k`.
pub proof fn lemma_le_value_bound(s: Seq<u8>)
    ensures
        le_value(s) < pow256(s.len()),
    decreases s.len(),
{
    if s.len() > 0 {
        lemma_le_value_bound(s.drop_first());
    }
}

/// Reading back the little-endian bytes of `n` yields `n`.
pub proof fn lemma_le_round_trip(n: nat, count: nat)
    requires
        n < pow256(count),
    ensures
        le_value(le_bytes(n, count)) == n,
    decreases count,
{
    if count == 0 {
    } else {
        let rest = le_bytes(n / 256, (count - 1) as nat);
        assert(n < 256 * pow256((count - 1) as nat));
        lemma_multiply_divide_lt(n as int, 256, pow256((count - 1) as nat) as int);
        lemma_le_round_trip(n / 256, (count - 1) as nat);
        let s = seq![(n % 256) as u8] + rest;
        assert(s.drop_first() =~= rest);
        lemma_fundamental_div_mod(n as int, 256);
    }
}

proof fn lemma_le_value_2(t: Seq<u8>)
    requires
        t.len() == 2,
    ensures
        le_value(t) == t[0] + 256 * (t[1] as nat),
{
    reveal_with_fuel(le_value, 4);
    let t1 = t.drop_first();
    assert(t1[0] == t[1]);
    assert(t1.drop_first().len() == 0);
    assert(le_value(t1.drop_first()) == 0);
    assert(le_value(t1) == t[1]);
}

proof fn lemma_le_value_4(t: Seq<u8>)
    requires
        t.len() == 4,
    ensures
        le_value(t) == t[0] + 256 * (t[1] as nat) + 0x1_0000 * (t[2] as nat) + 0x100_0000 * (
        t[3] as nat),
{
    reveal_with_fuel(le_value, 6);
    let t1 = t.drop_first();
    let t2 = t1.drop_first();
    let t3 = t2.drop_first();
    assert(t1[0] == t[1] && t2[0] == t[2] && t3[0] == t[3]);
    assert(t3.drop_first().len() == 0);
    assert(le_value(t3.drop_first()) == 0);
    assert(le_value(t3) == t[3]);
    assert(le_value(t2) == t[2] + 256 * (t[3] as nat));
    assert(le_value(t1) == t[1] + 256 * le_value(t2));
}

/// The two explicit little-endian byte splits the executable encoder uses.
proof fn lemma_le_bytes_2(x: nat)
    requires
        x < 0x1_0000,
    ensures
        le_bytes(x, 2) =~= seq![(x % 256) as u8, (x / 256) as u8],
{
    reveal_with_fuel(le_bytes, 4);
    lemma_le_bytes_len(x, 2);
    lemma_multiply_divide_lt(x as int, 256, 256);
    lemma_small_mod(x / 256, 256);
}

proof fn lemma_le_bytes_4(x: nat)
    requires
        x < 0x1_0000_0000,
    ensures
        le_bytes(x, 4) =~= seq![
            (x % 256) as u8,
            (x / 256 % 256) as u8,
            (x / 0x1_0000 % 256) as u8,
            (x / 0x100_0000) as u8,
        ],
{
    reveal_with_fuel(le_bytes, 6);
    lemma_le_bytes_len(x, 4);
    lemma_div_denominator(x as int, 256, 256);
    lemma_div_denominator(x as int, 0x1_0000, 256);
    lemma_multiply_divide_lt(x as int, 0x100_0000, 256);
    lemma_small_mod(x / 0x100_0000, 256);
}

/// A compact length parses back to the value it was encoded from, whatever
/// follows it on the wire.
pub proof fn lemma_compact_round_trip(n: nat, rest: Seq<u8>)
    requires
        n < 0x1_0000_0000,
    ensures
        compact_bytes(n).len() >= 1,
        parse_compact(compact_bytes(n) + rest) == Ok::<(nat, nat), CodecError>(
            (n, compact_bytes(n).len()),
        ),
{
    lemma_pow256_values();
    let enc = compact_bytes(n);
    let s = enc + rest;
    if n < 64 {
        assert(s[0] == (4 * n) as u8);
        lemma_mod_multiples_basic(n as int, 4);
        lemma_fundamental_div_mod_converse(4 * n as int, 4, n as int, 0);
    } else if n < 16384 {
        let x = 4 * n + 1;
        lemma_le_bytes_len(x, 2);
        lemma_le_bytes_2(x);
        assert(s[0] == (x % 256) as u8);
        lemma_mod_mod(x as int, 4, 64);
        lemma_fundamental_div_mod_converse(x as int, 4, n as int, 1);
        assert(s.take(2) =~= enc);
        lemma_le_round_trip(x, 2);
    } else if n < 1073741824 {
        let x = 4 * n + 2;
        lemma_le_bytes_len(x, 4);
        lemma_le_bytes_4(x);
        assert(s[0] == (x % 256) as u8);
        lemma_mod_mod(x as int, 4, 64);
        lemma_fundamental_div_mod_converse(x as int, 4, n as int, 2);
        assert(s.take(4) =~= enc);
        lemma_le_round_trip(x, 4);
    } else {
        lemma_le_bytes_len(n, 4);
        assert(s[0] == 3u8);
        assert(s.subrange(1, 5) =~= le_bytes(n, 4));
        lemma_le_round_trip(n, 4);
    }
}

/// A length-prefixed buffer parses back to the bytes it was encoded from.
pub proof fn lemma_buf_round_trip(v: Seq<u8>, rest: Seq<u8>)
    requires
        v.len() < 0x1_0000_0000,
    ensures
        parse_buf(buf_enc(v) + rest) == Ok::<(Seq<u8>, nat), CodecError>((v, buf_enc(v).len())),
{
    let c = compact_bytes(v.len());
    let s = buf_enc(v) + rest;
    assert(s =~= c + (v + rest));
    lemma_compact_round_trip(v.len(), v + rest);
    assert(parse_compact(s) == Ok::<(nat, nat), CodecError>((v.len(), c.len())));
    assert(s.subrange(c.len() as int, (c.len() + v.len()) as int) =~= v);
}

/// An identifier parses back to the value it was encoded from.
pub proof fn lemma_id_round_trip(n: u128, rest: Seq<u8>)
    ensures
        le_bytes(n as nat, 16).len() == 16,
        parse_id(le_bytes(n as nat, 16) + rest) == Ok::<(u128, nat), CodecError>((n, 16)),
{
    lemma_pow256_values();
    lemma_le_bytes_len(n as nat, 16);
    let s = le_bytes(n as nat, 16) + rest;
    assert(s.take(16) =~= le_bytes(n as nat, 16));
    lemma_le_round_trip(n as nat, 16);
}

/// A tag parses back to the tag it was encoded from.
pub proof fn lemma_tag_round_trip(t: MsgType, rest: Seq<u8>)
    ensures
        parse_tag(seq![tag_code(t)] + rest) == Ok::<(MsgType, nat), CodecError>((t, 1)),
{
    let s = seq![tag_code(t)] + rest;
    assert(s[0] == tag_code(t));
    crate::tag::lemma_tag_code_round_trip(t);
}

// ---------------------------------------------------------------------
// executable primitives
// ---------------------------------------------------------------------

/// Appends the compact encoding of `n` to `out`.
pub(crate) fn encode_compact(out: &mut Vec<u8>, n: u32)
    ensures
        final(out)@ == old(out)@ + compact_bytes(n as nat),
{
    if n < 64 {
        out.push((n as u8) * 4);
    } else if n < 16384 {
        let x: u32 = 4 * n + 1;
        out.push((x % 256) as u8);
        out.push((x / 256) as u8);
        proof {
            lemma_le_bytes_2(x as nat);
            assert(final(out)@ =~= old(out)@ + compact_bytes(n as nat));
        }
    } else if n < 1073741824 {
        let x: u32 = 4 * n + 2;
        out.push((x % 256) as u8);
        out.push((x / 256 % 256) as u8);
        out.push((x / 0x1_0000 % 256) as u8);
        out.push((x / 0x100_0000) as u8);
        proof {
            lemma_le_bytes_4(x as nat);
            assert(final(out)@ =~= old(out)@ + compact_bytes(n as nat));
        }
    } else {
        out.push(3u8);
        out.push((n % 256) as u8);
        out.push((n / 256 % 256) as u8);
        out.push((n / 0x1_0000 % 256) as u8);
        out.push((n / 0x100_0000) as u8);
        proof {
            lemma_le_bytes_4(n as nat);
            assert(final(out)@ =~= old(out)@ + compact_bytes(n as nat));
        }
    }
}

/// Reads a compact length at `pos`, returning the value and the position
/// just past it.
pub(crate) fn decode_compact(s: &[u8], pos: usize) -> (r: Result<(u32, usize), CodecError>)
    requires
        pos <= s@.len(),
    ensures
        (match r {
            Ok(v) => parse_compact(s@.skip(pos as int)) == Ok::<(nat, nat), CodecError>(
                (v.0 as nat, (v.1 - pos) as nat),
            ) && pos <= v.1 <= s@.len(),
            Err(e) => parse_compact(s@.skip(pos as int)) == Err::<(nat, nat), CodecError>(e),
        }),
{
    let ghost t = s@.skip(pos as int);
    if s.len() - pos < 1 {
        return Err(CodecError::TruncatedInput);
    }
    let b = *slice_index_get(s, pos);
    assert(b == t[0]);
    let mode = b % 4;
    if mode == 0 {
        Ok(((b / 4) as u32, pos + 1))
    } else if mode == 1 {
        if s.len() - pos < 2 {
            return Err(CodecError::TruncatedInput);
        }
        let b1 = *slice_index_get(s, pos + 1);
        let x: u32 = (b as u32) + 256 * (b1 as u32);
        proof {
            assert(t.take(2)[0] == t[0] && t.take(2)[1] == t[1]);
            lemma_le_value_2(t.take(2));
        }
        Ok((x / 4, pos + 2))
    } else if mode == 2 {
        if s.len() - pos < 4 {
            return Err(CodecError::TruncatedInput);
        }
        let b1 = *slice_index_get(s, pos + 1);
        let b2 = *slice_index_get(s, pos + 2);
        let b3 = *slice_index_get(s, pos + 3);
        let x: u32 = (b as u32) + 256 * (b1 as u32) + 0x1_0000 * (b2 as u32) + 0x100_0000 * (
        b3 as u32);
        proof {
            assert(t.take(4)[0] == t[0] && t.take(4)[1] == t[1] && t.take(4)[2] == t[2] && t.take(
                4,
            )[3] == t[3]);
            lemma_le_value_4(t.take(4));
        }
        Ok((x / 4, pos + 4))
    } else {
        if b != 3 {
            return Err(CodecError::LengthOverflow);
        }
        if s.len() - pos < 5 {
            return Err(CodecError::TruncatedInput);
        }
        let b1 = *slice_index_get(s, pos + 1);
        let b2 = *slice_index_get(s, pos + 2);
        let b3 = *slice_index_get(s, pos + 3);
        let b4 = *slice_index_get(s, pos + 4);
        let x: u32 = (b1 as u32) + 256 * (b2 as u32) + 0x1_0000 * (b3 as u32) + 0x100_0000 * (
        b4 as u32);
        proof {
            let q = t.subrange(1, 5);
            assert(q[0] == t[1] && q[1] == t[2] && q[2] == t[3] && q[3] == t[4]);
            lemma_le_value_4(q);
        }
        Ok((x, pos + 5))
    }
}

/// Appends the 16 little-endian bytes of an identifier to `out`.
pub(crate) fn encode_id(out: &mut Vec<u8>, n: u128)
    ensures
        final(out)@ == old(out)@ + le_bytes(n as nat, 16),
{
    let mut x: u128 = n;
    let mut i: usize = 0;
    proof {
        assert(old(out)@ + le_bytes(n as nat, 16) =~= out@ + le_bytes(x as nat, 16));
    }
    while i < 16
        invariant
            i <= 16,
            old(out)@ + le_bytes(n as nat, 16) == out@ + le_bytes(x as nat, (16 - i) as nat),
        decreases 16 - i,
    {
        out.push((x % 256) as u8);
        proof {
            let w = (16 - i) as nat;
            assert(le_bytes(x as nat, w) == seq![(x as nat % 256) as u8] + le_bytes(
                x as nat / 256,
                (w - 1) as nat,
            ));
            assert((x % 256) as u8 == (x as nat % 256) as u8);
            assert((x / 256) as nat == x as nat / 256);
            assert(out@.push((x % 256) as u8) + le_bytes(x as nat / 256, (w - 1) as nat) =~= out@
                + le_bytes(x as nat, w));
        }
        x = x / 256;
        i = i + 1;
    }
    proof {
        assert(le_bytes(x as nat, 0).len() == 0);
        assert(out@ + le_bytes(x as nat, 0) =~= out@);
    }
}

/// Reads a 16-byte little-endian identifier at `pos`.
pub(crate) fn decode_id(s: &[u8], pos: usize) -> (r: Result<(u128, usize), CodecError>)
    requires
        pos <= s@.len(),
    ensures
        (match r {
            Ok(v) => parse_id(s@.skip(pos as int)) == Ok::<(u128, nat), CodecError>(
                (v.0, (v.1 - pos) as nat),
            ) && pos <= v.1 <= s@.len(),
            Err(e) => parse_id(s@.skip(pos as int)) == Err::<(u128, nat), CodecError>(e),
        }),
{
    let ghost t = s@.skip(pos as int);
    if s.len() - pos < 16 {
        return Err(CodecError::TruncatedInput);
    }
    let ghost seg = t.take(16);
    let mut acc: u128 = 0;
    let mut j: usize = 16;
    proof {
        lemma_pow256_values();
        assert(seg.skip(16) =~= Seq::<u8>::empty());
        assert(le_value(seg.skip(16)) == 0);
    }
    while j > 0
        invariant
            j <= 16,
            s@.len() <= usize::MAX,
            pos + 16 <= s@.len(),
            seg == s@.skip(pos as int).take(16),
            seg.len() == 16,
            acc as nat == le_value(seg.skip(j as int)),
            (acc as nat) < pow256((16 - j) as nat),
            pow256(16) == 0x1_0000_0000_0000_0000_0000_0000_0000_0000,
        decreases j,
    {
        let b = *slice_index_get(s, pos + j - 1);
        proof {
            assert(b == seg[j - 1]);
            assert(seg.skip(j - 1).drop_first() =~= seg.skip(j as int));
            assert(seg.skip(j - 1)[0] == seg[j - 1]);
            lemma_pow256_increases((17 - j) as nat, 16);
            assert(256 * (acc as nat) + 256 <= 256 * pow256((16 - j) as nat)) by {
                lemma_pow256_pos((16 - j) as nat);
            }
            assert(256 * pow256((16 - j) as nat) == pow256((17 - j) as nat));
        }
        acc = acc * 256 + (b as u128);
        j = j - 1;
        proof {
            lemma_le_value_bound(seg.skip(j as int));
            assert(seg.skip(j as int).len() == 16 - j);
        }
    }
    proof {
        assert(seg.skip(0) =~= seg);
        lemma_le_value_bound(seg);
    }
    Ok((acc, pos + 16))
}

/// Appends a length-prefixed byte buffer to `out`.
pub(crate) fn encode_buf(out: &mut Vec<u8>, v: &Vec<u8>)
    requires
        v@.len() < 0x1_0000_0000,
    ensures
        final(out)@ == old(out)@ + buf_enc(v@),
{
    encode_compact(out, v.len() as u32);
    out.extend_from_slice(v.as_slice());
    proof {
        assert(final(out)@ =~= old(out)@ + buf_enc(v@));
    }
}

/// Reads a length-prefixed byte buffer at `pos`.
pub(crate) fn decode_buf(s: &[u8], pos: usize) -> (r: Result<(Vec<u8>, usize), CodecError>)
    requires
        pos <= s@.len(),
    ensures
        (match r {
            Ok(v) => parse_buf(s@.skip(pos as int)) == Ok::<(Seq<u8>, nat), CodecError>(
                (v.0@, (v.1 - pos) as nat),
            ) && pos <= v.1 <= s@.len(),
            Err(e) => parse_buf(s@.skip(pos as int)) == Err::<(Seq<u8>, nat), CodecError>(e),
        }),
{
    let ghost t = s@.skip(pos as int);
    let (len32, p1) = match decode_compact(s, pos) {
        Ok(v) => v,
        Err(e) => {
            return Err(e);
        },
    };
    let len = len32 as usize;
    if s.len() - p1 < len {
        proof {
            assert(t.len() < ((p1 - pos) + len));
        }
        return Err(CodecError::TruncatedInput);
    }
    let mut v: Vec<u8> = Vec::new();
    let mut i: usize = 0;
    while i < len
        invariant
            i <= len,
            pos <= p1,
            s@.len() <= usize::MAX,
            p1 + len <= s@.len(),
            t == s@.skip(pos as int),
            v@ =~= t.subrange((p1 - pos) as int, (p1 - pos + i) as int),
        decreases len - i,
    {
        let b = *slice_index_get(s, p1 + i);
        v.push(b);
        proof {
            assert(b == t[p1 - pos + i]);
            assert(v@ =~= t.subrange((p1 - pos) as int, (p1 - pos + i + 1) as int));
        }
        i = i + 1;
    }
    proof {
        assert(v@ =~= t.subrange((p1 - pos) as int, (p1 - pos + len) as int));
    }
    Ok((v, p1 + len))
}

/// Reads a tag discriminant at `pos`.
pub(crate) fn decode_tag(s: &[u8], pos: usize) -> (r: Result<(MsgType, usize), CodecError>)
    requires
        pos <= s@.len(),
    ensures
        (match r {
            Ok(v) => parse_tag(s@.skip(pos as int)) == Ok::<(MsgType, nat), CodecError>(
                (v.0, (v.1 - pos) as nat),
            ) && pos <= v.1 <= s@.len(),
            Err(e) => parse_tag(s@.skip(pos as int)) == Err::<(MsgType, nat), CodecError>(e),
        }),
{
    if s.len() - pos < 1 {
        return Err(CodecError::TruncatedInput);
    }
    let b = *slice_index_get(s, pos);
    match MsgType::from_code(b) {
        Some(t) => Ok((t, pos + 1)),
        None => Err(CodecError::InvalidDiscriminant),
    }
}

} // verus!
