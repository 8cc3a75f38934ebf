//! The codec traits. Every wire type states its encoding as a spec function
//! over its view, and decoding is pinned, byte for byte, to a spec-level
//! decoder. `Codec` adds the round-trip law that each implementation proves.

use vstd::prelude::*;

use crate::errors::KafkaError;

verus! {

/// The sequence of views of a sequence of values.
pub open spec fn views_of<T: View>(s: Seq<T>) -> Seq<T::V> {
    s.map_values(|t: T| t@)
}

/// A value with a pure, total encoding to bytes.
pub trait Encodable: View + Sized {
    /// The values whose encoding fits the wire format's length fields.
    spec fn spec_wf(m: Self::V) -> bool;

    /// The exact bytes that `encode` produces for a value with view `m`.
    spec fn spec_wire(m: Self::V) -> Seq<u8>;

    /// Encoding is pure: bytes in, bytes out, no partial writes.
    fn encode(&self) -> (r: Vec<u8>)
        requires
            Self::spec_wf(self@),
        ensures
            r@ == Self::spec_wire(self@),
    ;
}

/// A value decodable from the head of a byte slice; trailing bytes may
/// follow the encoded value and are left untouched.
pub trait Decodable: Encodable {
    /// The decoded value (as a view) and the exact number of bytes consumed,
    /// or `None` when the head of `s` is too short, malformed or internally
    /// inconsistent.
    spec fn spec_decode(s: Seq<u8>) -> Option<(Self::V, int)>;

    /// Decoding succeeds, with the specified value and consumed count,
    /// exactly on the inputs the specification accepts, and returns a decode
    /// error on all others.
    fn decode(buf: &[u8]) -> (r: Result<(Self, usize), KafkaError>)
        ensures
            match Self::spec_decode(buf@) {
                Some(p) => {
                    &&& r matches Ok(q)
                    &&& q.0@ == p.0
                    &&& q.1 as int == p.1
                    &&& p.1 <= buf@.len()
                },
                None => r == Err::<(Self, usize), KafkaError>(KafkaError::DecodeError),
            },
    ;
}

/// A type that is both encodable and decodable, together with the laws that
/// tie the two directions to each other.
pub trait Codec: Encodable + Decodable {
    /// Round trip: the encoding of any well-formed value, with arbitrary
    /// bytes appended, decodes back to that value and consumes exactly the
    /// encoding's length.
    proof fn lemma_round_trip(m: Self::V, rest: Seq<u8>)
        requires
            Self::spec_wf(m),
        ensures
            Self::spec_decode(Self::spec_wire(m) + rest) == Some(
                (m, Self::spec_wire(m).len() as int),
            ),
    ;

    /// A successful decode consumes at least one byte and never reads past
    /// the end of the buffer.
    proof fn lemma_decode_bounds(s: Seq<u8>)
        ensures
            Self::spec_decode(s) matches Some(p) ==> 1 <= p.1 <= s.len(),
    ;
}

/// The concatenated encodings of a sequence of values, in order.
pub open spec fn spec_wire_seq<T: Encodable>(ms: Seq<T::V>) -> Seq<u8>
    decreases ms.len(),
{
    if ms.len() == 0 {
        Seq::empty()
    } else {
        T::spec_wire(ms[0]) + spec_wire_seq::<T>(ms.skip(1))
    }
}

/// Every element of the sequence is well-formed.
pub open spec fn spec_wf_seq<T: Encodable>(ms: Seq<T::V>) -> bool
    decreases ms.len(),
{
    if ms.len() == 0 {
        true
    } else {
        T::spec_wf(ms[0]) && spec_wf_seq::<T>(ms.skip(1))
    }
}

/// In a well-formed sequence, every element is well-formed.
pub proof fn lemma_wf_seq_index<T: Encodable>(ms: Seq<T::V>, i: int)
    requires
        spec_wf_seq::<T>(ms),
        0 <= i < ms.len(),
    ensures
        T::spec_wf(ms[i]),
    decreases ms.len(),
{
    if i > 0 {
        lemma_wf_seq_index::<T>(ms.skip(1), i - 1);
        assert(ms.skip(1)[i - 1] == ms[i]);
    }
}

/// A sequence of well-formed elements is well-formed.
pub proof fn lemma_wf_seq_from_forall<T: Encodable>(ms: Seq<T::V>)
    requires
        forall|i: int| 0 <= i < ms.len() ==> T::spec_wf(#[trigger] ms[i]),
    ensures
        spec_wf_seq::<T>(ms),
    decreases ms.len(),
{
    if ms.len() > 0 {
        assert(T::spec_wf(ms[0]));
        assert(forall|i: int|
            0 <= i < ms.skip(1).len() ==> T::spec_wf(#[trigger] ms.skip(1)[i]) && ms.skip(1)[i]
                == ms[i + 1]);
        lemma_wf_seq_from_forall::<T>(ms.skip(1));
    }
}

/// Appending a well-formed element keeps the sequence well-formed.
pub proof fn lemma_wf_seq_push<T: Encodable>(ms: Seq<T::V>, m: T::V)
    requires
        spec_wf_seq::<T>(ms),
        T::spec_wf(m),
    ensures
        spec_wf_seq::<T>(ms.push(m)),
    decreases ms.len(),
{
    if ms.len() == 0 {
        assert(ms.push(m)[0] == m);
        assert(ms.push(m).skip(1) =~= Seq::<T::V>::empty());
        assert(spec_wf_seq::<T>(Seq::<T::V>::empty()));
        assert(spec_wf_seq::<T>(ms.push(m)) == (T::spec_wf(ms.push(m)[0]) && spec_wf_seq::<T>(
            ms.push(m).skip(1),
        )));
    } else {
        assert(ms.push(m)[0] == ms[0]);
        assert(ms.push(m).skip(1) =~= ms.skip(1).push(m));
        lemma_wf_seq_push::<T>(ms.skip(1), m);
        assert(spec_wf_seq::<T>(ms.push(m)) == (T::spec_wf(ms.push(m)[0]) && spec_wf_seq::<T>(
            ms.push(m).skip(1),
        )));
    }
}

/// Decodes `count` consecutive values from the head of `s`: the element
/// views in order and the total bytes consumed.
pub open spec fn spec_decode_elems<T: Decodable>(s: Seq<u8>, count: int) -> Option<
    (Seq<T::V>, int),
>
    decreases count,
{
    if count <= 0 {
        Some((Seq::empty(), 0))
    } else {
        match T::spec_decode(s) {
            None => None,
            Some((v, n)) => match spec_decode_elems::<T>(s.skip(n), count - 1) {
                None => None,
                Some((vs, k)) => Some((seq![v] + vs, n + k)),
            },
        }
    }
}

/// Appending one element appends its encoding.
pub proof fn lemma_wire_seq_snoc<T: Encodable>(ms: Seq<T::V>, m: T::V)
    ensures
        spec_wire_seq::<T>(ms.push(m)) == spec_wire_seq::<T>(ms) + T::spec_wire(m),
    decreases ms.len(),
{
    if ms.len() == 0 {
        assert(ms.push(m)[0] == m);
        assert(ms.push(m).skip(1) =~= Seq::<T::V>::empty());
        assert(spec_wire_seq::<T>(Seq::<T::V>::empty()) == Seq::<u8>::empty());
        assert(spec_wire_seq::<T>(ms.push(m)) == T::spec_wire(m) + spec_wire_seq::<T>(
            ms.push(m).skip(1),
        ));
        assert(T::spec_wire(m) + Seq::<u8>::empty() =~= Seq::<u8>::empty() + T::spec_wire(m));
    } else {
        assert(ms.push(m).skip(1) =~= ms.skip(1).push(m));
        lemma_wire_seq_snoc::<T>(ms.skip(1), m);
        assert(spec_wire_seq::<T>(ms.push(m)) =~= spec_wire_seq::<T>(ms) + T::spec_wire(m));
    }
}

/// Round trip for element sequences: the concatenated encodings of `ms`,
/// with anything appended, decode back to `ms`.
pub proof fn lemma_decode_elems_round_trip<T: Codec>(ms: Seq<T::V>, rest: Seq<u8>)
    requires
        spec_wf_seq::<T>(ms),
    ensures
        spec_decode_elems::<T>(spec_wire_seq::<T>(ms) + rest, ms.len() as int) == Some(
            (ms, spec_wire_seq::<T>(ms).len() as int),
        ),
    decreases ms.len(),
{
    if ms.len() == 0 {
        assert(spec_decode_elems::<T>(spec_wire_seq::<T>(ms) + rest, 0) == Some(
            (Seq::<T::V>::empty(), 0int),
        ));
        assert(ms =~= Seq::<T::V>::empty());
    } else {
        let m0 = ms[0];
        let tail = ms.skip(1);
        let s = spec_wire_seq::<T>(ms) + rest;
        assert(s =~= T::spec_wire(m0) + (spec_wire_seq::<T>(tail) + rest));
        T::lemma_round_trip(m0, spec_wire_seq::<T>(tail) + rest);
        let n0 = T::spec_wire(m0).len() as int;
        assert(s.skip(n0) =~= spec_wire_seq::<T>(tail) + rest);
        lemma_decode_elems_round_trip::<T>(tail, rest);
        assert(seq![m0] + tail =~= ms);
    }
}

/// Decoding `count` elements consumes at least `count` bytes (every element
/// consumes at least one) and never more than the buffer holds, and yields
/// exactly `count` element views.
pub proof fn lemma_decode_elems_bounds<T: Codec>(s: Seq<u8>, count: int)
    ensures
        spec_decode_elems::<T>(s, count) matches Some(p) ==> {
            &&& p.0.len() == if count <= 0 {
                0
            } else {
                count
            }
            &&& (if count <= 0 {
                0
            } else {
                count
            }) <= p.1 <= s.len()
        },
    decreases count,
{
    if count <= 0 {
    } else {
        T::lemma_decode_bounds(s);
        match T::spec_decode(s) {
            None => {},
            Some((v, n)) => {
                lemma_decode_elems_bounds::<T>(s.skip(n), count - 1);
            },
        }
    }
}

} // verus!
