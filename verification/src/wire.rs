//! Byte-level building blocks of the wire format: big-endian fixed-width
//! integers and the 7-bit variable-length integer, each with a spec-level
//! encoder and decoder and the lemmas that relate them.

use vstd::prelude::*;

verus! {

// ---------------------------------------------------------------------------
// Big-endian fixed-width integers
// ---------------------------------------------------------------------------

/// The two big-endian bytes of a 16-bit value.
pub open spec fn spec_be16(x: u16) -> Seq<u8> {
    seq![(x >> 8) as u8, (x & 0xff) as u8]
}

/// The 16-bit value read from two big-endian bytes.
pub open spec fn spec_be16_val(s: Seq<u8>) -> u16
    recommends
        s.len() == 2,
{
    ((s[0] as u16) << 8) | (s[1] as u16)
}

/// The four big-endian bytes of a 32-bit value.
pub open spec fn spec_be32(x: u32) -> Seq<u8> {
    seq![(x >> 24) as u8, ((x >> 16) & 0xff) as u8, ((x >> 8) & 0xff) as u8, (x & 0xff) as u8]
}

/// The 32-bit value read from four big-endian bytes.
pub open spec fn spec_be32_val(s: Seq<u8>) -> u32
    recommends
        s.len() == 4,
{
    ((s[0] as u32) << 24) | ((s[1] as u32) << 16) | ((s[2] as u32) << 8) | (s[3] as u32)
}

/// The eight big-endian bytes of a 64-bit value.
pub open spec fn spec_be64(x: u64) -> Seq<u8> {
    spec_be32((x >> 32) as u32) + spec_be32((x & 0xffff_ffff) as u32)
}

/// The 64-bit value read from eight big-endian bytes.
pub open spec fn spec_be64_val(s: Seq<u8>) -> u64
    recommends
        s.len() == 8,
{
    ((spec_be32_val(s.take(4)) as u64) << 32) | (spec_be32_val(s.skip(4)) as u64)
}

pub proof fn lemma_be16_round_trip(x: u16)
    ensures
        spec_be16_val(spec_be16(x)) == x,
{
    assert((((x >> 8) as u8) as u16) << 8 | (((x & 0xff) as u8) as u16) == x) by (bit_vector);
}

pub proof fn lemma_be32_round_trip(x: u32)
    ensures
        spec_be32_val(spec_be32(x)) == x,
{
    assert((((x >> 24) as u8) as u32) << 24 | ((((x >> 16) & 0xff) as u8) as u32) << 16 | ((((x
        >> 8) & 0xff) as u8) as u32) << 8 | (((x & 0xff) as u8) as u32) == x) by (bit_vector);
}

/// Casting a 16-bit value to unsigned and back preserves it.
pub proof fn lemma_u16_i16_round_trip(x: i16)
    ensures
        ((x as u16) as i16) == x,
{
    assert(((x as u16) as i16) == x) by (bit_vector);
}

/// Casting a 32-bit value to unsigned and back preserves it.
pub proof fn lemma_u32_i32_round_trip(x: i32)
    ensures
        ((x as u32) as i32) == x,
{
    assert(((x as u32) as i32) == x) by (bit_vector);
}

/// Appends the two big-endian bytes of `x`.
pub fn push_be16(buf: &mut Vec<u8>, x: u16)
    ensures
        final(buf)@ == old(buf)@ + spec_be16(x),
{
    buf.push((x >> 8) as u8);
    buf.push((x & 0xff) as u8);
    assert(buf@ =~= old(buf)@ + spec_be16(x));
}

/// Appends the four big-endian bytes of `x`.
pub fn push_be32(buf: &mut Vec<u8>, x: u32)
    ensures
        final(buf)@ == old(buf)@ + spec_be32(x),
{
    buf.push((x >> 24) as u8);
    buf.push(((x >> 16) & 0xff) as u8);
    buf.push(((x >> 8) & 0xff) as u8);
    buf.push((x & 0xff) as u8);
    assert(buf@ =~= old(buf)@ + spec_be32(x));
}

/// Appends the eight big-endian bytes of `x`.
pub fn push_be64(buf: &mut Vec<u8>, x: u64)
    ensures
        final(buf)@ == old(buf)@ + spec_be64(x),
{
    push_be32(buf, (x >> 32) as u32);
    push_be32(buf, (x & 0xffff_ffff) as u32);
    assert(buf@ =~= old(buf)@ + spec_be64(x));
}

/// Reads a 16-bit big-endian value at offset `off`.
pub fn read_be16(buf: &[u8], off: usize) -> (r: u16)
    requires
        off + 2 <= buf@.len(),
    ensures
        r == spec_be16_val(buf@.subrange(off as int, off + 2)),
{
    let b0 = buf[off];
    let b1 = buf[off + 1];
    let r = ((b0 as u16) << 8) | (b1 as u16);
    proof {
        let s = buf@.subrange(off as int, off + 2);
        assert(s[0] == b0 && s[1] == b1);
    }
    r
}

/// Reads a 32-bit big-endian value at offset `off`.
pub fn read_be32(buf: &[u8], off: usize) -> (r: u32)
    requires
        off + 4 <= buf@.len(),
    ensures
        r == spec_be32_val(buf@.subrange(off as int, off + 4)),
{
    let b0 = buf[off];
    let b1 = buf[off + 1];
    let b2 = buf[off + 2];
    let b3 = buf[off + 3];
    let r = ((b0 as u32) << 24) | ((b1 as u32) << 16) | ((b2 as u32) << 8) | (b3 as u32);
    proof {
        let s = buf@.subrange(off as int, off + 4);
        assert(s[0] == b0 && s[1] == b1 && s[2] == b2 && s[3] == b3);
    }
    r
}

/// Reads a 64-bit big-endian value at offset `off`.
pub fn read_be64(buf: &[u8], off: usize) -> (r: u64)
    requires
        off + 8 <= buf@.len(),
    ensures
        r == spec_be64_val(buf@.subrange(off as int, off + 8)),
{
    let buf_len = buf.len();
    proof {
        // the slice's length fits a usize, so `off + 4` cannot overflow
        assert(off + 4 <= buf_len);
    }
    let hi = read_be32(buf, off);
    let lo = read_be32(buf, off + 4);
    let r = ((hi as u64) << 32) | (lo as u64);
    proof {
        let s = buf@.subrange(off as int, off + 8);
        assert(s.take(4) =~= buf@.subrange(off as int, off + 4));
        assert(s.skip(4) =~= buf@.subrange(off + 4, off + 8));
    }
    r
}

// ---------------------------------------------------------------------------
// Variable-length integers: 7 bits per byte, little-endian, continuation bit
// 0x80 on every byte but the last.
// ---------------------------------------------------------------------------

/// The variable-length encoding of `x`: the low 7 bits first, with the
/// continuation bit set on every byte that is followed by another.
pub open spec fn spec_varint(x: u32) -> Seq<u8>
    decreases x,
{
    if x < 128 {
        seq![x as u8]
    } else {
        seq![(x % 128 + 128) as u8] + spec_varint(x / 128)
    }
}

/// How many bytes a variable-length integer at the head of `s` occupies:
/// the position of the first byte without the continuation bit, plus one.
/// `None` if every byte of `s` has the continuation bit set.
pub open spec fn spec_varint_len(s: Seq<u8>) -> Option<int>
    decreases s.len(),
{
    if s.len() == 0 {
        None
    } else if s[0] < 128 {
        Some(1)
    } else {
        match spec_varint_len(s.skip(1)) {
            None => None,
            Some(n) => Some(n + 1),
        }
    }
}

/// The unbounded value carried by a sequence of 7-bit chunks, little-endian.
pub open spec fn spec_chunks_val(s: Seq<u8>) -> nat
    decreases s.len(),
{
    if s.len() == 0 {
        0
    } else {
        (s[0] % 128) as nat + 128 * spec_chunks_val(s.skip(1))
    }
}

/// Decodes a variable-length integer at the head of `s`: the value, reduced
/// to 32 bits, and the number of bytes consumed. Fails only when no
/// terminating byte is found before the sequence ends.
pub open spec fn spec_varint_decode(s: Seq<u8>) -> Option<(u32, int)> {
    match spec_varint_len(s) {
        None => None,
        Some(n) => Some(((spec_chunks_val(s.take(n)) % 0x1_0000_0000) as u32, n)),
    }
}

/// Encodes `integer` 7 bits at a time, least-significant bits first, setting
/// the continuation bit on every byte but the last.
pub fn encode_var_int(mut integer: u32) -> (res: Vec<u8>)
    ensures
        res@ == spec_varint(integer),
{
    let ghost start = integer;
    let mut res: Vec<u8> = Vec::new();
    while integer >= 128
        invariant
            spec_varint(start) == res@ + spec_varint(integer),
        decreases integer,
    {
        let chunk: u8 = (integer % 128) as u8 + 128;
        res.push(chunk);
        proof {
            assert(spec_varint(start) =~= res@ + spec_varint(integer / 128));
        }
        integer = integer / 128;
    }
    res.push(integer as u8);
    proof {
        assert(res@ =~= spec_varint(start));
    }
    res
}

/// Each added chunk contributes its payload scaled by 128 to the power of
/// its position.
pub proof fn lemma_chunks_val_snoc(s: Seq<u8>, b: u8)
    ensures
        spec_chunks_val(s.push(b)) == spec_chunks_val(s) + (b % 128) * vstd::arithmetic::power::pow(
            128,
            s.len(),
        ),
    decreases s.len(),
{
    if s.len() == 0 {
        assert(s.push(b) =~= seq![b]);
        assert(spec_chunks_val(seq![b].skip(1)) == 0) by {
            assert(seq![b].skip(1) =~= Seq::<u8>::empty());
        }
        assert(vstd::arithmetic::power::pow(128, 0) == 1) by {
            vstd::arithmetic::power::lemma_pow0(128);
        }
    } else {
        assert(s.push(b).skip(1) =~= s.skip(1).push(b));
        lemma_chunks_val_snoc(s.skip(1), b);
        let p = vstd::arithmetic::power::pow(128, (s.len() - 1) as nat);
        assert(spec_chunks_val(s.skip(1).push(b)) == spec_chunks_val(s.skip(1)) + (b % 128) * p);
        assert(128 * (spec_chunks_val(s.skip(1)) + (b % 128) * p) == 128 * spec_chunks_val(
            s.skip(1),
        ) + (b % 128) * (128 * p)) by (nonlinear_arith);
        assert(128 * vstd::arithmetic::power::pow(128, (s.len() - 1) as nat)
            == vstd::arithmetic::power::pow(128, s.len())) by {
            vstd::arithmetic::power::lemma_pow_adds(128, 1, (s.len() - 1) as nat);
            vstd::arithmetic::power::lemma_pow1(128);
        }
    }
}

/// If the bytes before position `i` all carry the continuation bit and the
/// byte at `i` does not, the varint occupies exactly `i + 1` bytes.
pub proof fn lemma_varint_len_scan(s: Seq<u8>, i: int)
    requires
        0 <= i < s.len(),
        forall|j: int| 0 <= j < i ==> s[j] >= 128,
        s[i] < 128,
    ensures
        spec_varint_len(s) == Some(i + 1),
    decreases i,
{
    if i == 0 {
    } else {
        assert(forall|j: int| 0 <= j < i - 1 ==> s.skip(1)[j] >= 128);
        lemma_varint_len_scan(s.skip(1), i - 1);
    }
}

/// If every byte of `s` carries the continuation bit, no varint terminates.
pub proof fn lemma_varint_len_none(s: Seq<u8>)
    requires
        forall|j: int| 0 <= j < s.len() ==> s[j] >= 128,
    ensures
        spec_varint_len(s) is None,
    decreases s.len(),
{
    if s.len() > 0 {
        assert(forall|j: int| 0 <= j < s.skip(1).len() ==> s.skip(1)[j] >= 128);
        lemma_varint_len_none(s.skip(1));
    }
}

/// Decodes a variable-length integer at offset `off` of `buf`, returning the
/// 32-bit value and the offset one past its final byte.
pub fn decode_var_int(buf: &[u8], off: usize) -> (r: Option<(u32, usize)>)
    requires
        off <= buf@.len(),
    ensures
        match spec_varint_decode(buf@.skip(off as int)) {
            Some(p) => {
                &&& r matches Some(q)
                &&& q.0 == p.0
                &&& q.1 == off + p.1
                &&& off < q.1 <= buf@.len()
            },
            None => r is None,
        },
{
    let ghost s = buf@.skip(off as int);
    let mut i: usize = off;
    let mut val: u64 = 0;
    let mut mult: u64 = 1;
    proof {
        vstd::arithmetic::power::lemma_pow0(128);
        assert(s.take(0) =~= Seq::<u8>::empty());
    }
    while i < buf.len() && buf[i] >= 128
        invariant
            off <= i <= buf@.len(),
            s == buf@.skip(off as int),
            forall|j: int| off <= j < i ==> buf@[j] >= 128,
            val == spec_chunks_val(s.take(i - off)) % 0x1_0000_0000,
            mult == vstd::arithmetic::power::pow(128, (i - off) as nat) % 0x1_0000_0000,
            val < 0x1_0000_0000,
            mult < 0x1_0000_0000,
        decreases buf@.len() - i,
    {
        let chunk = buf[i];
        proof {
            lemma_step_chunks(s, (i - off) as int, chunk, val as nat, mult as nat);
            assert(s.take(i - off).push(chunk) =~= s.take(i + 1 - off));
        }
        val = (val + ((chunk % 128) as u64) * mult) % 0x1_0000_0000;
        mult = (mult * 128) % 0x1_0000_0000;
        i = i + 1;
    }
    if i >= buf.len() {
        proof {
            assert(forall|j: int| 0 <= j < s.len() ==> s[j] >= 128);
            lemma_varint_len_none(s);
        }
        return None;
    }
    let chunk = buf[i];
    proof {
        lemma_step_chunks(s, (i - off) as int, chunk, val as nat, mult as nat);
        assert(s.take(i - off).push(chunk) =~= s.take(i + 1 - off));
        lemma_varint_len_scan(s, (i - off) as int);
    }
    let val = (val + ((chunk % 128) as u64) * mult) % 0x1_0000_0000;
    Some((val as u32, i + 1))
}

/// One decoding step: adding the chunk at position `k` scales its payload by
/// the running multiplier, all reduced modulo 2^32.
proof fn lemma_step_chunks(s: Seq<u8>, k: int, b: u8, val: nat, mult: nat)
    requires
        0 <= k < s.len(),
        s[k] == b,
        val == spec_chunks_val(s.take(k)) % 0x1_0000_0000,
        mult == vstd::arithmetic::power::pow(128, k as nat) % 0x1_0000_0000,
    ensures
        (val + ((b % 128) as nat) * mult) % 0x1_0000_0000 == spec_chunks_val(s.take(k + 1))
            % 0x1_0000_0000,
        (mult * 128) % 0x1_0000_0000 == vstd::arithmetic::power::pow(128, (k + 1) as nat)
            % 0x1_0000_0000,
        (val + ((b % 128) as nat) * mult) < 0x2_0000_0000_0000,
        mult * 128 < 0x1_0000_0000_0000,
{
    let m: int = 0x1_0000_0000;
    let p: int = vstd::arithmetic::power::pow(128, k as nat) as int;
    let c: int = (b % 128) as int;
    let ch: int = spec_chunks_val(s.take(k)) as int;
    let va: int = val as int;
    let mu: int = mult as int;
    assert(s.take(k + 1) =~= s.take(k).push(b));
    lemma_chunks_val_snoc(s.take(k), b);
    assert(spec_chunks_val(s.take(k + 1)) as int == ch + c * p);
    // (val + c * (p % m)) % m == (chunks + c * p) % m
    vstd::arithmetic::div_mod::lemma_mul_mod_noop_right(c, p, m);
    assert((c * (p % m)) % m == (c * p) % m);
    vstd::arithmetic::div_mod::lemma_add_mod_noop(ch, c * p, m);
    vstd::arithmetic::div_mod::lemma_add_mod_noop(va, c * (p % m), m);
    vstd::arithmetic::div_mod::lemma_mod_twice(ch, m);
    vstd::arithmetic::div_mod::lemma_mod_twice(c * (p % m), m);
    assert(va == ch % m);
    assert(c * mu == c * (p % m));
    assert((va + c * mu) % m == (ch + c * p) % m);
    // multiplier step
    vstd::arithmetic::power::lemma_pow_adds(128, k as nat, 1);
    vstd::arithmetic::power::lemma_pow1(128);
    vstd::arithmetic::div_mod::lemma_mul_mod_noop_left(p, 128, m);
    assert(((p % m) * 128) % m == (p * 128) % m);
    assert(p * 128 == vstd::arithmetic::power::pow(128, (k + 1) as nat) as int) by {
        vstd::arithmetic::mul::lemma_mul_is_commutative(p, 128);
    }
    // bounds
    assert(c * mu <= 127 * mu) by (nonlinear_arith)
        requires
            0 <= c <= 127,
            mu >= 0,
    ;
    assert(127 * mu < 127 * m) by (nonlinear_arith)
        requires
            mu < m,
    ;
    assert(mu * 128 < m * 128) by (nonlinear_arith)
        requires
            mu < m,
    ;
}

/// Round trip: the encoding of `x`, with anything at all appended, decodes
/// back to `x` and consumes exactly the encoding's bytes.
pub proof fn lemma_varint_round_trip(x: u32, rest: Seq<u8>)
    ensures
        spec_varint_decode(spec_varint(x) + rest) == Some((x, spec_varint(x).len() as int)),
{
    lemma_varint_props(x, rest);
    let s = spec_varint(x) + rest;
    let n = spec_varint(x).len() as int;
    assert(spec_chunks_val(s.take(n)) == x);
    assert((x as nat) % 0x1_0000_0000 == x) by {
        vstd::arithmetic::div_mod::lemma_small_mod(x as nat, 0x1_0000_0000);
    }
}

/// The encoding of `x` terminates after its own bytes and its chunks carry
/// exactly `x`.
proof fn lemma_varint_props(x: u32, rest: Seq<u8>)
    ensures
        spec_varint_len(spec_varint(x) + rest) == Some(spec_varint(x).len() as int),
        spec_chunks_val((spec_varint(x) + rest).take(spec_varint(x).len() as int)) == x,
    decreases x,
{
    let s = spec_varint(x) + rest;
    if x < 128 {
        assert(s[0] == x as u8);
        assert(s.take(1) =~= seq![x as u8]);
        assert(seq![x as u8].skip(1) =~= Seq::<u8>::empty());
        assert(spec_chunks_val(seq![x as u8]) == (x as u8 % 128) as nat + 128 * spec_chunks_val(
            Seq::<u8>::empty(),
        ));
        assert(spec_chunks_val(seq![x as u8]) == x);
    } else {
        let b = (x % 128 + 128) as u8;
        lemma_varint_props(x / 128, rest);
        assert(s.skip(1) =~= spec_varint(x / 128) + rest);
        let n1 = spec_varint(x / 128).len() as int;
        assert(spec_varint_len(s) == Some(n1 + 1));
        assert(s.take(n1 + 1).skip(1) =~= s.skip(1).take(n1));
        assert(s.take(n1 + 1)[0] == b);
        assert(spec_chunks_val(s.take(n1 + 1)) == (b % 128) + 128 * spec_chunks_val(
            s.skip(1).take(n1),
        ));
        assert(b % 128 == x % 128);
        assert(x % 128 + 128 * (x / 128) == x) by {
            vstd::arithmetic::div_mod::lemma_fundamental_div_mod(x as int, 128);
        }
    }
}

/// A terminated varint consumes at least one byte and never more than the
/// sequence holds.
pub proof fn lemma_varint_len_bounds(s: Seq<u8>)
    ensures
        spec_varint_len(s) matches Some(n) ==> 1 <= n <= s.len(),
    decreases s.len(),
{
    if s.len() > 0 && s[0] >= 128 {
        lemma_varint_len_bounds(s.skip(1));
    }
}

} // verus!
