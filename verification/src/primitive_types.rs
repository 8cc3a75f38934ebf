//! The primitive wire types: variable-length integers, compact strings,
//! nullable strings and compact arrays. Every encoder is pure and total;
//! every decoder takes a slice with arbitrary trailing bytes and returns the
//! value plus the exact number of bytes consumed, or a decode error.

use vstd::prelude::*;
use vstd::slice::slice_subrange;
use vstd::string::StrSliceExecFns;
use vstd::utf8::{decode_utf8, encode_utf8, valid_utf8};

use crate::errors::KafkaError;
use crate::traits::{
    lemma_decode_elems_bounds, lemma_decode_elems_round_trip, lemma_wire_seq_snoc, spec_decode_elems,
    spec_wf_seq, spec_wire_seq, views_of, Codec, Decodable, Encodable,
};
use crate::wire::{
    decode_var_int, encode_var_int, lemma_be32_round_trip, lemma_u32_i32_round_trip,
    lemma_varint_len_bounds, lemma_varint_round_trip, spec_be32, spec_be32_val, spec_varint,
    spec_varint_decode, spec_varint_len,
};

verus! {

/// Relies on String::from_utf8: it returns `Ok` exactly when the input is
/// valid UTF-8, and the returned string holds exactly the input bytes.
#[verifier::external_body]
pub(crate) fn utf8_to_string(bytes: &[u8]) -> (r: Option<String>)
    ensures
        r is Some <==> valid_utf8(bytes@),
        r matches Some(s) ==> s@ == decode_utf8(bytes@),
{
    match String::from_utf8(bytes.to_vec()) {
        Ok(s) => Some(s),
        Err(_) => None,
    }
}

//
// VAR_INT
//

/// A 32-bit signed integer carried in the 7-bits-per-byte variable-length
/// encoding; on the wire its bit pattern is treated as unsigned.
pub struct VarInt {
    pub data: i32,
}

impl View for VarInt {
    type V = i32;

    open spec fn view(&self) -> i32 {
        self.data
    }
}

impl Encodable for VarInt {
    open spec fn spec_wf(m: i32) -> bool {
        true
    }

    open spec fn spec_wire(m: i32) -> Seq<u8> {
        spec_varint(m as u32)
    }

    fn encode(&self) -> (r: Vec<u8>) {
        encode_var_int(self.data as u32)
    }
}

impl Decodable for VarInt {
    open spec fn spec_decode(s: Seq<u8>) -> Option<(i32, int)> {
        match spec_varint_decode(s) {
            None => None,
            Some((v, n)) => Some((v as i32, n)),
        }
    }

    fn decode(buf: &[u8]) -> (r: Result<(Self, usize), KafkaError>) {
        proof {
            assert(buf@.skip(0) =~= buf@);
        }
        match decode_var_int(buf, 0) {
            None => Err(KafkaError::DecodeError),
            Some((v, n)) => Ok((VarInt { data: v as i32 }, n)),
        }
    }
}

impl Codec for VarInt {
    proof fn lemma_round_trip(m: i32, rest: Seq<u8>) {
        lemma_varint_round_trip(m as u32, rest);
        lemma_u32_i32_round_trip(m);
    }

    proof fn lemma_decode_bounds(s: Seq<u8>) {
        lemma_varint_len_bounds(s);
    }
}

//
// Raw 32-bit integers, as they appear inside node-id lists: four big-endian
// bytes with no prefix of their own.
//

impl Encodable for i32 {
    open spec fn spec_wf(m: i32) -> bool {
        true
    }

    open spec fn spec_wire(m: i32) -> Seq<u8> {
        spec_be32(m as u32)
    }

    fn encode(&self) -> (r: Vec<u8>) {
        let mut r: Vec<u8> = Vec::new();
        crate::wire::push_be32(&mut r, *self as u32);
        proof {
            assert(r@ =~= spec_be32(*self as u32));
        }
        r
    }
}

impl Decodable for i32 {
    open spec fn spec_decode(s: Seq<u8>) -> Option<(i32, int)> {
        if s.len() < 4 {
            None
        } else {
            Some((spec_be32_val(s.take(4)) as i32, 4))
        }
    }

    fn decode(buf: &[u8]) -> (r: Result<(Self, usize), KafkaError>) {
        if buf.len() < 4 {
            return Err(KafkaError::DecodeError);
        }
        let v = crate::wire::read_be32(buf, 0);
        proof {
            assert(buf@.subrange(0, 4) =~= buf@.take(4));
        }
        Ok((v as i32, 4))
    }
}

impl Codec for i32 {
    proof fn lemma_round_trip(m: i32, rest: Seq<u8>) {
        let s = spec_be32(m as u32) + rest;
        assert(s.take(4) =~= spec_be32(m as u32));
        lemma_be32_round_trip(m as u32);
        lemma_u32_i32_round_trip(m);
    }

    proof fn lemma_decode_bounds(s: Seq<u8>) {
    }
}

//
// COMPACT_STRING
//

/// The compact-string wire image: a varint holding the byte length plus one,
/// then the UTF-8 bytes themselves.
pub open spec fn spec_cstring_wire(m: Seq<char>) -> Seq<u8> {
    spec_varint((encode_utf8(m).len() + 1) as u32) + encode_utf8(m)
}

/// A string is well-formed when its length-plus-one prefix fits a positive
/// 32-bit value.
pub open spec fn spec_cstring_wf(m: Seq<char>) -> bool {
    encode_utf8(m).len() + 1 < 0x8000_0000
}

/// Decodes a compact string: length prefix, then that many UTF-8 bytes.
/// A prefix of zero (a negative derived length) and invalid UTF-8 are
/// decode errors.
pub open spec fn spec_cstring_decode(s: Seq<u8>) -> Option<(Seq<char>, int)> {
    match spec_varint_decode(s) {
        None => None,
        Some((v, n)) => if v == 0 {
            None
        } else {
            let len = v - 1;
            if s.len() < n + len {
                None
            } else {
                let bytes = s.subrange(n, n + len);
                if valid_utf8(bytes) {
                    Some((decode_utf8(bytes), n + len))
                } else {
                    None
                }
            }
        },
    }
}

/// Round trip for the compact-string wire image.
pub proof fn lemma_cstring_round_trip(m: Seq<char>, rest: Seq<u8>)
    requires
        spec_cstring_wf(m),
    ensures
        spec_cstring_decode(spec_cstring_wire(m) + rest) == Some(
            (m, spec_cstring_wire(m).len() as int),
        ),
{
    let bytes = encode_utf8(m);
    let l = bytes.len() as int;
    let v = (l + 1) as u32;
    let s = spec_cstring_wire(m) + rest;
    assert(s =~= spec_varint(v) + (bytes + rest));
    lemma_varint_round_trip(v, bytes + rest);
    let n = spec_varint(v).len() as int;
    assert(v != 0 && v - 1 == l);
    assert(s.len() >= n + l);
    assert(s.subrange(n, n + l) =~= bytes);
    vstd::utf8::encode_utf8_valid_utf8(m);
    vstd::utf8::encode_utf8_decode_utf8(m);
}

/// A successful compact-string decode consumes between one byte and the
/// whole buffer.
pub proof fn lemma_cstring_decode_bounds(s: Seq<u8>)
    ensures
        spec_cstring_decode(s) matches Some(p) ==> 1 <= p.1 <= s.len(),
{
    lemma_varint_len_bounds(s);
}

/// A UTF-8 string with a compact length prefix: `VarInt(byte length + 1)`
/// followed by the bytes. A prefix of one denotes the empty string.
#[derive(Clone)]
pub struct CompactString {
    pub data: String,
}

impl CompactString {
    pub fn new(data: String) -> (r: Self)
        ensures
            r@ == data@,
    {
        CompactString { data: data }
    }
}

impl View for CompactString {
    type V = Seq<char>;

    open spec fn view(&self) -> Seq<char> {
        self.data@
    }
}

impl Encodable for CompactString {
    open spec fn spec_wf(m: Seq<char>) -> bool {
        spec_cstring_wf(m)
    }

    open spec fn spec_wire(m: Seq<char>) -> Seq<u8> {
        spec_cstring_wire(m)
    }

    #[verifier::spinoff_prover]
    #[verifier::rlimit(100)]
    fn encode(&self) -> (r: Vec<u8>) {
        let stref = self.data.as_str();
        let bytes = stref.as_bytes_vec();
        proof {
            assert(Self::spec_wf(self@));
            assert(self@ == self.data@);
            assert(spec_cstring_wf(self.data@));
            assert(encode_utf8(self.data@).len() + 1 < 0x8000_0000);
            assert(bytes@ == encode_utf8(self.data@));
            assert(bytes@.len() == encode_utf8(self.data@).len());
            assert(bytes@.len() + 1 < 0x8000_0000);
        }
        let mut r = encode_var_int((bytes.len() + 1) as u32);
        r.extend_from_slice(bytes.as_slice());
        proof {
            assert(r@ =~= spec_cstring_wire(self.data@));
            assert(Self::spec_wire(self@) == spec_cstring_wire(self@));
        }
        r
    }
}

impl Decodable for CompactString {
    open spec fn spec_decode(s: Seq<u8>) -> Option<(Seq<char>, int)> {
        spec_cstring_decode(s)
    }

    #[verifier::spinoff_prover]
    #[verifier::rlimit(30)]
    fn decode(buf: &[u8]) -> (r: Result<(Self, usize), KafkaError>) {
        proof {
            assert(buf@.skip(0) =~= buf@);
            assert(Self::spec_decode(buf@) == spec_cstring_decode(buf@));
        }
        match decode_var_int(buf, 0) {
            None => Err(KafkaError::DecodeError),
            Some((v, n)) => {
                proof {
                    assert(spec_varint_decode(buf@) == Some((v, n as int)));
                }
                if v == 0 {
                    // a prefix of zero would mean a negative string length
                    proof {
                        assert(spec_cstring_decode(buf@) is None);
                    }
                    return Err(KafkaError::DecodeError);
                }
                let len = (v - 1) as usize;
                if buf.len() - n < len {
                    proof {
                        assert(buf@.len() < n + (v - 1));
                        assert(spec_cstring_decode(buf@) is None);
                    }
                    return Err(KafkaError::DecodeError);
                }
                let bytes = slice_subrange(buf, n, n + len);
                match utf8_to_string(bytes) {
                    None => Err(KafkaError::DecodeError),
                    Some(data) => Ok((CompactString { data }, n + len)),
                }
            },
        }
    }
}

impl Codec for CompactString {
    proof fn lemma_round_trip(m: Seq<char>, rest: Seq<u8>) {
        lemma_cstring_round_trip(m, rest);
    }

    proof fn lemma_decode_bounds(s: Seq<u8>) {
        lemma_cstring_decode_bounds(s);
    }
}

//
// NULLABLE_STRING
//

/// The legacy nullable string: a fixed 16-bit big-endian length, with -1
/// standing for an absent string.
pub struct NullableString {
    pub data: Option<String>,
}

impl NullableString {
    pub fn new(data: Option<String>) -> (r: Self)
        ensures
            r.data == data,
    {
        NullableString { data: data }
    }
}

impl View for NullableString {
    type V = Option<Seq<char>>;

    open spec fn view(&self) -> Option<Seq<char>> {
        match self.data {
            Some(d) => Some(d@),
            None => None,
        }
    }
}

impl Encodable for NullableString {
    open spec fn spec_wf(m: Option<Seq<char>>) -> bool {
        m matches Some(c) ==> encode_utf8(c).len() <= 0x7fff
    }

    open spec fn spec_wire(m: Option<Seq<char>>) -> Seq<u8> {
        match m {
            Some(c) => crate::wire::spec_be16(encode_utf8(c).len() as u16) + encode_utf8(c),
            None => crate::wire::spec_be16(0xffff),
        }
    }

    fn encode(&self) -> (r: Vec<u8>) {
        let mut r: Vec<u8> = Vec::new();
        match &self.data {
            Some(value) => {
                let bytes = value.as_str().as_bytes_vec();
                crate::wire::push_be16(&mut r, bytes.len() as u16);
                r.extend_from_slice(bytes.as_slice());
            },
            None => {
                // a length of -1 indicates a null string
                crate::wire::push_be16(&mut r, 0xffff);
            },
        }
        proof {
            assert(r@ =~= Self::spec_wire(self@));
        }
        r
    }
}

impl Decodable for NullableString {
    open spec fn spec_decode(s: Seq<u8>) -> Option<(Option<Seq<char>>, int)> {
        if s.len() < 2 {
            None
        } else {
            let raw = crate::wire::spec_be16_val(s.take(2));
            if raw == 0xffff {
                Some((None, 2))
            } else if raw >= 0x8000 {
                // a negative length other than -1 is inconsistent
                None
            } else {
                let len = raw as int;
                if s.len() < 2 + len {
                    None
                } else {
                    let bytes = s.subrange(2, 2 + len);
                    if valid_utf8(bytes) {
                        Some((Some(decode_utf8(bytes)), 2 + len))
                    } else {
                        None
                    }
                }
            }
        }
    }

    fn decode(buf: &[u8]) -> (r: Result<(Self, usize), KafkaError>) {
        if buf.len() < 2 {
            return Err(KafkaError::DecodeError);
        }
        let raw = crate::wire::read_be16(buf, 0);
        proof {
            assert(buf@.subrange(0, 2) =~= buf@.take(2));
        }
        if raw == 0xffff {
            return Ok((NullableString { data: None }, 2));
        }
        if raw >= 0x8000 {
            return Err(KafkaError::DecodeError);
        }
        let len = raw as usize;
        if buf.len() - 2 < len {
            return Err(KafkaError::DecodeError);
        }
        let bytes = slice_subrange(buf, 2, 2 + len);
        match utf8_to_string(bytes) {
            None => Err(KafkaError::DecodeError),
            Some(data) => Ok((NullableString { data: Some(data) }, 2 + len)),
        }
    }
}

impl Codec for NullableString {
    proof fn lemma_round_trip(m: Option<Seq<char>>, rest: Seq<u8>) {
        match m {
            None => {
                let s = Self::spec_wire(m) + rest;
                assert(s.take(2) =~= crate::wire::spec_be16(0xffff));
                crate::wire::lemma_be16_round_trip(0xffff);
            },
            Some(c) => {
                let bytes = encode_utf8(c);
                let l = bytes.len() as int;
                let s = Self::spec_wire(m) + rest;
                assert(s.take(2) =~= crate::wire::spec_be16(l as u16));
                crate::wire::lemma_be16_round_trip(l as u16);
                assert(crate::wire::spec_be16_val(s.take(2)) == l);
                assert(s.subrange(2, 2 + l) =~= bytes);
                vstd::utf8::encode_utf8_valid_utf8(c);
                vstd::utf8::encode_utf8_decode_utf8(c);
            },
        }
    }

    proof fn lemma_decode_bounds(s: Seq<u8>) {
    }
}

//
// COMPACT_NULLABLE_STRING
//

/// A compact string whose length prefix may be zero, denoting an absent
/// string; a prefix of one denotes a present, empty string.
pub struct CompactNullableString {
    pub data: Option<CompactString>,
}

impl CompactNullableString {
    pub fn new(data: Option<CompactString>) -> (r: Self)
        ensures
            r.data == data,
    {
        CompactNullableString { data: data }
    }
}

impl View for CompactNullableString {
    type V = Option<Seq<char>>;

    open spec fn view(&self) -> Option<Seq<char>> {
        match self.data {
            Some(d) => Some(d@),
            None => None,
        }
    }
}

impl Encodable for CompactNullableString {
    open spec fn spec_wf(m: Option<Seq<char>>) -> bool {
        m matches Some(c) ==> spec_cstring_wf(c)
    }

    open spec fn spec_wire(m: Option<Seq<char>>) -> Seq<u8> {
        match m {
            Some(c) => spec_cstring_wire(c),
            None => seq![0u8],
        }
    }

    fn encode(&self) -> (r: Vec<u8>) {
        match &self.data {
            Some(value) => {
                let r = value.encode();
                r
            },
            None => {
                // a prefix of zero indicates a null string
                let mut r: Vec<u8> = Vec::new();
                r.push(0);
                proof {
                    assert(r@ =~= seq![0u8]);
                }
                r
            },
        }
    }
}

impl Decodable for CompactNullableString {
    open spec fn spec_decode(s: Seq<u8>) -> Option<(Option<Seq<char>>, int)> {
        match spec_varint_decode(s) {
            None => None,
            Some((v, n)) => if v == 0 {
                Some((None, n))
            } else {
                match spec_cstring_decode(s) {
                    None => None,
                    Some((c, k)) => Some((Some(c), k)),
                }
            },
        }
    }

    fn decode(buf: &[u8]) -> (r: Result<(Self, usize), KafkaError>) {
        proof {
            assert(buf@.skip(0) =~= buf@);
        }
        match decode_var_int(buf, 0) {
            None => Err(KafkaError::DecodeError),
            Some((v, n)) => {
                if v == 0 {
                    return Ok((CompactNullableString { data: None }, n));
                }
                match CompactString::decode(buf) {
                    Err(_) => Err(KafkaError::DecodeError),
                    Ok((c, k)) => Ok((CompactNullableString { data: Some(c) }, k)),
                }
            },
        }
    }
}

impl Codec for CompactNullableString {
    proof fn lemma_round_trip(m: Option<Seq<char>>, rest: Seq<u8>) {
        match m {
            None => {
                let s = Self::spec_wire(m) + rest;
                assert(s[0] == 0u8);
                assert(spec_varint_len(s) == Some(1int));
                assert(s.take(1) =~= seq![0u8]);
                assert(seq![0u8].skip(1) =~= Seq::<u8>::empty());
                assert(crate::wire::spec_chunks_val(Seq::<u8>::empty()) == 0);
                assert(crate::wire::spec_chunks_val(seq![0u8]) == (seq![0u8][0] % 128) as nat + 128
                    * crate::wire::spec_chunks_val(seq![0u8].skip(1)));
                assert(crate::wire::spec_chunks_val(s.take(1)) == 0);
            },
            Some(c) => {
                lemma_cstring_round_trip(c, rest);
                let s = spec_cstring_wire(c) + rest;
                // the length prefix of a present string is nonzero
                let l = encode_utf8(c).len() as int;
                lemma_varint_round_trip((l + 1) as u32, encode_utf8(c) + rest);
                assert(s =~= spec_varint((l + 1) as u32) + (encode_utf8(c) + rest));
            },
        }
    }

    proof fn lemma_decode_bounds(s: Seq<u8>) {
        lemma_varint_len_bounds(s);
        lemma_cstring_decode_bounds(s);
    }
}

//
// COMPACT_ARRAY
//

/// A compact array: `VarInt(count + 1)` followed by `count` consecutively
/// encoded elements.
pub struct CompactArray<T> {
    pub data: Vec<T>,
}

impl<T> CompactArray<T> {
    pub fn new(data: Vec<T>) -> (r: Self)
        ensures
            r.data == data,
    {
        CompactArray { data: data }
    }
}

impl<T: View> View for CompactArray<T> {
    type V = Seq<T::V>;

    open spec fn view(&self) -> Seq<T::V> {
        views_of(self.data@)
    }
}

impl<T: Encodable> Encodable for CompactArray<T> {
    open spec fn spec_wf(m: Seq<T::V>) -> bool {
        &&& m.len() + 1 < 0x8000_0000
        &&& spec_wf_seq::<T>(m)
    }

    open spec fn spec_wire(m: Seq<T::V>) -> Seq<u8> {
        spec_varint((m.len() + 1) as u32) + spec_wire_seq::<T>(m)
    }

    fn encode(&self) -> (r: Vec<u8>) {
        let ghost m = self@;
        let mut r = encode_var_int((self.data.len() + 1) as u32);
        let ghost prefix = r@;
        let mut i: usize = 0;
        while i < self.data.len()
            invariant
                0 <= i <= self.data@.len(),
                Self::spec_wf(m),
                m == views_of(self.data@),
                r@ == prefix + spec_wire_seq::<T>(m.take(i as int)),
                prefix == spec_varint((m.len() + 1) as u32),
            decreases self.data@.len() - i,
        {
            proof {
                crate::traits::lemma_wf_seq_index::<T>(m, i as int);
                assert(self.data@[i as int]@ == m[i as int]);
            }
            let item = self.data[i].encode();
            r.extend_from_slice(item.as_slice());
            proof {
                lemma_wire_seq_snoc::<T>(m.take(i as int), m[i as int]);
                assert(m.take(i as int).push(m[i as int]) =~= m.take(i + 1));
                assert(r@ =~= prefix + spec_wire_seq::<T>(m.take(i + 1)));
            }
            i = i + 1;
        }
        proof {
            assert(m.take(m.len() as int) =~= m);
        }
        r
    }
}

impl<T: Decodable> Decodable for CompactArray<T> {
    open spec fn spec_decode(s: Seq<u8>) -> Option<(Seq<T::V>, int)> {
        match spec_varint_decode(s) {
            None => None,
            Some((v, n)) => if v == 0 {
                // a prefix of zero would mean a negative element count
                None
            } else {
                match spec_decode_elems::<T>(s.skip(n), v - 1) {
                    None => None,
                    Some((vs, k)) => Some((vs, n + k)),
                }
            },
        }
    }

    fn decode(buf: &[u8]) -> (r: Result<(Self, usize), KafkaError>) {
        proof {
            assert(buf@.skip(0) =~= buf@);
        }
        match decode_var_int(buf, 0) {
            None => Err(KafkaError::DecodeError),
            Some((v, n)) => {
                if v == 0 {
                    return Err(KafkaError::DecodeError);
                }
                let count = v - 1;
                let mut data: Vec<T> = Vec::new();
                let mut off: usize = n;
                let mut i: u32 = 0;
                proof {
                    assert(views_of(data@) =~= Seq::<T::V>::empty());
                }
                while i < count
                    invariant
                        0 <= i <= count,
                        n <= off <= buf@.len(),
                        spec_varint_decode(buf@) == Some((v, n as int)),
                        v != 0,
                        count == v - 1,
                        views_of(data@).len() == i as int,
                        spec_decode_elems::<T>(buf@.skip(n as int), count as int) == (
                        match spec_decode_elems::<T>(buf@.skip(off as int), count - i) {
                            None => None::<(Seq<T::V>, int)>,
                            Some((vs, k)) => Some((views_of(data@) + vs, (off - n) + k)),
                        }),
                    decreases count - i,
                {
                    let sub = slice_subrange(buf, off, buf.len());
                    proof {
                        assert(sub@ =~= buf@.skip(off as int));
                    }
                    match T::decode(sub) {
                        Err(_) => {
                            proof {
                                assert(!(T::spec_decode(buf@.skip(off as int)) is Some));
                                assert(spec_decode_elems::<T>(buf@.skip(off as int), count - i)
                                    is None);
                            }
                            return Err(KafkaError::DecodeError);
                        },
                        Ok((item, used)) => {
                            proof {
                                assert(buf@.skip(off as int).skip(used as int) =~= buf@.skip(
                                    off + used,
                                ));
                                assert(views_of(data@.push(item)) =~= views_of(data@).push(item@));
                                let tail = spec_decode_elems::<T>(
                                    buf@.skip(off + used),
                                    count - i - 1,
                                );
                                if tail is Some {
                                    let (vs, k) = tail->Some_0;
                                    assert(views_of(data@) + (seq![item@] + vs) =~= views_of(
                                        data@.push(item),
                                    ) + vs);
                                }
                            }
                            data.push(item);
                            off = off + used;
                            i = i + 1;
                        },
                    }
                }
                proof {
                    assert(spec_decode_elems::<T>(buf@.skip(off as int), 0) == Some(
                        (Seq::<T::V>::empty(), 0int),
                    ));
                    assert(views_of(data@) + Seq::<T::V>::empty() =~= views_of(data@));
                }
                Ok((CompactArray { data }, off))
            },
        }
    }
}

impl<T: Codec> Codec for CompactArray<T> {
    proof fn lemma_round_trip(m: Seq<T::V>, rest: Seq<u8>) {
        let v = (m.len() + 1) as u32;
        let body = spec_wire_seq::<T>(m);
        let s = Self::spec_wire(m) + rest;
        assert(s =~= spec_varint(v) + (body + rest));
        lemma_varint_round_trip(v, body + rest);
        let n = spec_varint(v).len() as int;
        assert(s.skip(n) =~= body + rest);
        lemma_decode_elems_round_trip::<T>(m, rest);
        assert(v - 1 == m.len());
    }

    proof fn lemma_decode_bounds(s: Seq<u8>) {
        lemma_varint_len_bounds(s);
        match spec_varint_decode(s) {
            None => {},
            Some((v, n)) => {
                if v != 0 {
                    lemma_decode_elems_bounds::<T>(s.skip(n), v - 1);
                }
            },
        }
    }
}

} // verus!
