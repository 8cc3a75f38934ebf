//! Message framing and the typed request/response schemas: the size-prefixed
//! envelope, request and response headers, tag blocks, and the bodies of the
//! two supported request kinds and their responses.

use vstd::prelude::*;
use vstd::slice::slice_subrange;
use vstd::string::StrSliceExecFns;
use vstd::utf8::{decode_utf8, encode_utf8, valid_utf8};

use crate::errors::{BrokerError, KafkaError};
use crate::primitive_types::{
    lemma_cstring_decode_bounds, lemma_cstring_round_trip, spec_cstring_decode, spec_cstring_wf,
    spec_cstring_wire, utf8_to_string, CompactArray, CompactNullableString, CompactString,
};
use crate::traits::{views_of, Codec, Decodable, Encodable};
use crate::wire::{
    push_be16, push_be32, read_be16, read_be32, spec_be16, spec_be16_val, spec_be32, spec_be32_val,
};

verus! {

//
// Tag blocks ("tagged fields"): an extensible trailer reserved by the wire
// format. In this protocol subset it is always empty: encoded as a single
// zero byte, and decoded by consuming exactly one byte.
//

/// A single tagged field. The schemas implemented here never carry one; the
/// type is a reserved slot, and its encode and decode directions do not
/// invert each other (an empty image against a one-byte placeholder read).
pub struct TaggedField {}

impl View for TaggedField {
    type V = ();

    open spec fn view(&self) -> () {
        ()
    }
}

impl Encodable for TaggedField {
    open spec fn spec_wf(m: ()) -> bool {
        true
    }

    open spec fn spec_wire(m: ()) -> Seq<u8> {
        Seq::empty()
    }

    fn encode(&self) -> (r: Vec<u8>) {
        let r: Vec<u8> = Vec::new();
        proof {
            assert(r@ =~= Seq::<u8>::empty());
        }
        r
    }
}

impl Decodable for TaggedField {
    open spec fn spec_decode(s: Seq<u8>) -> Option<((), int)> {
        if s.len() >= 1 {
            Some(((), 1))
        } else {
            None
        }
    }

    fn decode(buf: &[u8]) -> (r: Result<(Self, usize), KafkaError>) {
        if buf.len() >= 1 {
            Ok((TaggedField {  }, 1))
        } else {
            Err(KafkaError::DecodeError)
        }
    }
}

/// The tag block trailer. Always absent in this implementation: its wire
/// image is the single byte zero, and decoding consumes exactly one byte.
pub struct TaggedFields(pub Option<CompactArray<TaggedField>>);

impl View for TaggedFields {
    type V = Option<Seq<()>>;

    open spec fn view(&self) -> Option<Seq<()>> {
        match self.0 {
            Some(arr) => Some(views_of(arr.data@)),
            None => None,
        }
    }
}

impl TaggedFields {
    pub fn new(fields: Option<CompactArray<TaggedField>>) -> (r: Self)
        ensures
            r.0 == fields,
    {
        TaggedFields(fields)
    }

    pub fn empty() -> (r: Self)
        ensures
            r@ is None,
    {
        TaggedFields(None)
    }
}

impl Encodable for TaggedFields {
    open spec fn spec_wf(m: Option<Seq<()>>) -> bool {
        m is None
    }

    open spec fn spec_wire(m: Option<Seq<()>>) -> Seq<u8> {
        seq![0u8]
    }

    fn encode(&self) -> (r: Vec<u8>) {
        // no tagged fields are ever present in this protocol subset
        let mut r: Vec<u8> = Vec::new();
        r.push(0);
        proof {
            assert(r@ =~= seq![0u8]);
        }
        r
    }
}

impl Decodable for TaggedFields {
    open spec fn spec_decode(s: Seq<u8>) -> Option<(Option<Seq<()>>, int)> {
        if s.len() >= 1 {
            Some((None, 1))
        } else {
            None
        }
    }

    fn decode(buf: &[u8]) -> (r: Result<(Self, usize), KafkaError>) {
        if buf.len() >= 1 {
            Ok((TaggedFields(None), 1))
        } else {
            Err(KafkaError::DecodeError)
        }
    }
}

impl Codec for TaggedFields {
    proof fn lemma_round_trip(m: Option<Seq<()>>, rest: Seq<u8>) {
        assert((Self::spec_wire(m) + rest).len() >= 1);
    }

    proof fn lemma_decode_bounds(s: Seq<u8>) {
    }
}

//
// Message headers
//

/// The mathematical content of a request header; the tag block carries
/// nothing and is not part of it.
pub struct RequestHeaderView {
    pub api_key: i16,
    pub api_version: i16,
    pub correlation_id: i32,
    pub client_id: Seq<char>,
}

/// The mathematical content of a response header.
pub struct ResponseHeaderView {
    pub correlation_id: i32,
    pub header_version: i8,
}

/// A header is either side of the exchange.
pub enum KafkaHeaderView {
    Request(RequestHeaderView),
    Response(ResponseHeaderView),
}

/// The header of a request: api key, api version, correlation id, a client
/// id with a legacy fixed 16-bit length prefix, and a tag block.
pub struct RequestHeader {
    pub api_key: i16,
    pub api_version: i16,
    pub correlation_id: i32,
    pub client_id: String,
    pub tagged_fields: TaggedFields,
}

impl View for RequestHeader {
    type V = RequestHeaderView;

    open spec fn view(&self) -> RequestHeaderView {
        RequestHeaderView {
            api_key: self.api_key,
            api_version: self.api_version,
            correlation_id: self.correlation_id,
            client_id: self.client_id@,
        }
    }
}

/// The client id's byte length must fit the 16-bit length prefix.
pub open spec fn spec_request_header_wf(m: RequestHeaderView) -> bool {
    encode_utf8(m.client_id).len() <= 0x7fff
}

/// Fixed-width fields at fixed offsets, the length-prefixed client id, then
/// the empty tag block.
pub open spec fn spec_request_header_wire(m: RequestHeaderView) -> Seq<u8> {
    spec_be16(m.api_key as u16) + spec_be16(m.api_version as u16) + spec_be32(
        m.correlation_id as u32,
    ) + spec_be16(encode_utf8(m.client_id).len() as u16) + encode_utf8(m.client_id) + seq![0u8]
}

/// Decodes a request header: fails on a short buffer, a negative client id
/// length, invalid UTF-8 or a missing tag block byte.
pub open spec fn spec_request_header_decode(s: Seq<u8>) -> Option<(RequestHeaderView, int)> {
    if s.len() < 10 {
        None
    } else {
        let raw_len = spec_be16_val(s.subrange(8, 10));
        if raw_len >= 0x8000 {
            None
        } else {
            let len = raw_len as int;
            if s.len() < 11 + len {
                None
            } else {
                let bytes = s.subrange(10, 10 + len);
                if valid_utf8(bytes) {
                    Some(
                        (
                            RequestHeaderView {
                                api_key: spec_be16_val(s.subrange(0, 2)) as i16,
                                api_version: spec_be16_val(s.subrange(2, 4)) as i16,
                                correlation_id: spec_be32_val(s.subrange(4, 8)) as i32,
                                client_id: decode_utf8(bytes),
                            },
                            11 + len,
                        ),
                    )
                } else {
                    None
                }
            }
        }
    }
}

impl RequestHeader {
    pub fn new(api_key: i16, api_version: i16, correlation_id: i32) -> (r: Self)
        ensures
            r@ == (RequestHeaderView {
                api_key,
                api_version,
                correlation_id,
                client_id: Seq::<char>::empty(),
            }),
            r.tagged_fields@ is None,
    {
        Self {
            api_key,
            api_version,
            correlation_id,
            client_id: String::new(),
            tagged_fields: TaggedFields(None),
        }
    }

    pub fn encode(&self) -> (r: Vec<u8>)
        requires
            spec_request_header_wf(self@),
        ensures
            r@ == spec_request_header_wire(self@),
    {
        let mut r: Vec<u8> = Vec::new();
        push_be16(&mut r, self.api_key as u16);
        push_be16(&mut r, self.api_version as u16);
        push_be32(&mut r, self.correlation_id as u32);
        let bytes = self.client_id.as_str().as_bytes_vec();
        push_be16(&mut r, bytes.len() as u16);
        r.extend_from_slice(bytes.as_slice());
        r.push(0);
        proof {
            assert(r@ =~= spec_request_header_wire(self@));
        }
        r
    }

    pub fn decode(bytes: &[u8]) -> (r: Result<(RequestHeader, usize), KafkaError>)
        ensures
            match spec_request_header_decode(bytes@) {
                Some(p) => {
                    &&& r matches Ok(q)
                    &&& q.0@ == p.0
                    &&& q.1 as int == p.1
                    &&& p.1 <= bytes@.len()
                },
                None => r == Err::<(RequestHeader, usize), KafkaError>(KafkaError::DecodeError),
            },
    {
        if bytes.len() < 10 {
            return Err(KafkaError::DecodeError);
        }
        let api_key = read_be16(bytes, 0) as i16;
        let api_version = read_be16(bytes, 2) as i16;
        let correlation_id = read_be32(bytes, 4) as i32;
        let raw_len = read_be16(bytes, 8);
        if raw_len >= 0x8000 {
            return Err(KafkaError::DecodeError);
        }
        let len = raw_len as usize;
        if bytes.len() - 10 < len || bytes.len() - 10 - len < 1 {
            return Err(KafkaError::DecodeError);
        }
        let cid_bytes = slice_subrange(bytes, 10, 10 + len);
        match utf8_to_string(cid_bytes) {
            None => Err(KafkaError::DecodeError),
            Some(client_id) => Ok(
                (
                    RequestHeader {
                        api_key,
                        api_version,
                        correlation_id,
                        client_id,
                        tagged_fields: TaggedFields(None),
                    },
                    10 + len + 1,
                ),
            ),
        }
    }
}

/// Round trip for the request header: the encoding of any well-formed
/// header, with arbitrary bytes appended, decodes back to it and consumes
/// exactly the encoding, tag block included.
pub proof fn lemma_request_header_round_trip(m: RequestHeaderView, rest: Seq<u8>)
    requires
        spec_request_header_wf(m),
    ensures
        spec_request_header_decode(spec_request_header_wire(m) + rest) == Some(
            (m, spec_request_header_wire(m).len() as int),
        ),
{
    let bytes = encode_utf8(m.client_id);
    let l = bytes.len() as int;
    let w = spec_request_header_wire(m);
    let s = w + rest;
    assert(w.len() == 11 + l);
    assert(s.subrange(0, 2) =~= spec_be16(m.api_key as u16));
    assert(s.subrange(2, 4) =~= spec_be16(m.api_version as u16));
    assert(s.subrange(4, 8) =~= spec_be32(m.correlation_id as u32));
    assert(s.subrange(8, 10) =~= spec_be16(l as u16));
    assert(s.subrange(10, 10 + l) =~= bytes);
    crate::wire::lemma_be16_round_trip(m.api_key as u16);
    crate::wire::lemma_be16_round_trip(m.api_version as u16);
    crate::wire::lemma_be16_round_trip(l as u16);
    crate::wire::lemma_be32_round_trip(m.correlation_id as u32);
    crate::wire::lemma_u16_i16_round_trip(m.api_key);
    crate::wire::lemma_u16_i16_round_trip(m.api_version);
    crate::wire::lemma_u32_i32_round_trip(m.correlation_id);
    vstd::utf8::encode_utf8_valid_utf8(m.client_id);
    vstd::utf8::encode_utf8_decode_utf8(m.client_id);
}

/// The header of a response: the echoed correlation id, then a tag block if
/// and only if the per-API header version asks for one.
pub struct ResponseHeader {
    pub correlation_id: i32,
    pub tagged_fields: TaggedFields,
    pub header_version: i8,
}

impl View for ResponseHeader {
    type V = ResponseHeaderView;

    open spec fn view(&self) -> ResponseHeaderView {
        ResponseHeaderView {
            correlation_id: self.correlation_id,
            header_version: self.header_version,
        }
    }
}

/// The correlation id, then the empty tag block unless the header version
/// is zero.
pub open spec fn spec_response_header_wire(m: ResponseHeaderView) -> Seq<u8> {
    if m.header_version == 0 {
        spec_be32(m.correlation_id as u32)
    } else {
        spec_be32(m.correlation_id as u32) + seq![0u8]
    }
}

impl ResponseHeader {
    pub fn new(correlation_id: i32, header_version: i8) -> (r: Self)
        ensures
            r@ == (ResponseHeaderView { correlation_id, header_version }),
            r.tagged_fields@ is None,
    {
        Self { correlation_id, tagged_fields: TaggedFields(None), header_version }
    }

    pub fn encode(&self) -> (r: Vec<u8>)
        ensures
            r@ == spec_response_header_wire(self@),
    {
        let mut r: Vec<u8> = Vec::new();
        push_be32(&mut r, self.correlation_id as u32);
        match self.header_version {
            0 => {},
            _ => {
                // the empty tag block
                r.push(0);
            },
        }
        proof {
            assert(r@ =~= spec_response_header_wire(self@));
        }
        r
    }
}

/// A message header, for either direction of the exchange.
pub enum KafkaHeader {
    Request(RequestHeader),
    Response(ResponseHeader),
}

impl View for KafkaHeader {
    type V = KafkaHeaderView;

    open spec fn view(&self) -> KafkaHeaderView {
        match self {
            KafkaHeader::Request(h) => KafkaHeaderView::Request(h@),
            KafkaHeader::Response(h) => KafkaHeaderView::Response(h@),
        }
    }
}

pub open spec fn spec_header_wf(h: KafkaHeaderView) -> bool {
    match h {
        KafkaHeaderView::Request(m) => spec_request_header_wf(m),
        KafkaHeaderView::Response(_) => true,
    }
}

pub open spec fn spec_header_wire(h: KafkaHeaderView) -> Seq<u8> {
    match h {
        KafkaHeaderView::Request(m) => spec_request_header_wire(m),
        KafkaHeaderView::Response(m) => spec_response_header_wire(m),
    }
}

/// The api key named by a header; a response header names none.
pub open spec fn spec_header_api_key(h: KafkaHeaderView) -> i16 {
    match h {
        KafkaHeaderView::Request(m) => m.api_key,
        KafkaHeaderView::Response(_) => 0,
    }
}

impl KafkaHeader {
    pub fn encode(&self) -> (r: Vec<u8>)
        requires
            spec_header_wf(self@),
        ensures
            r@ == spec_header_wire(self@),
    {
        match self {
            KafkaHeader::Request(request_header) => request_header.encode(),
            KafkaHeader::Response(response_header) => response_header.encode(),
        }
    }

    pub fn get_api_key(&self) -> (r: i16)
        ensures
            r == spec_header_api_key(self@),
    {
        match self {
            KafkaHeader::Request(request_header) => request_header.api_key,
            _ => 0,
        }
    }
}

} // verus!

verus! {

//
// ApiVersions request (capability negotiation)
//

/// The mathematical content of a capability-negotiation request.
pub struct ApiVersionsRequestView {
    pub client_software_name: Seq<char>,
    pub client_software_version: Seq<char>,
}

/// The capability-negotiation request: the client's software name and
/// version as compact strings, then a tag block.
pub struct ApiVersionsRequest {
    pub client_software_name: CompactString,
    pub client_software_version: CompactString,
    pub tagged_fields: TaggedFields,
}

impl View for ApiVersionsRequest {
    type V = ApiVersionsRequestView;

    open spec fn view(&self) -> ApiVersionsRequestView {
        ApiVersionsRequestView {
            client_software_name: self.client_software_name@,
            client_software_version: self.client_software_version@,
        }
    }
}

impl Encodable for ApiVersionsRequest {
    open spec fn spec_wf(m: ApiVersionsRequestView) -> bool {
        spec_cstring_wf(m.client_software_name) && spec_cstring_wf(m.client_software_version)
    }

    open spec fn spec_wire(m: ApiVersionsRequestView) -> Seq<u8> {
        spec_cstring_wire(m.client_software_name) + spec_cstring_wire(m.client_software_version)
            + seq![0u8]
    }

    fn encode(&self) -> (r: Vec<u8>) {
        let mut r = self.client_software_name.encode();
        let version = self.client_software_version.encode();
        r.extend_from_slice(version.as_slice());
        r.push(0);
        proof {
            assert(r@ =~= Self::spec_wire(self@));
        }
        r
    }
}

impl Decodable for ApiVersionsRequest {
    open spec fn spec_decode(s: Seq<u8>) -> Option<(ApiVersionsRequestView, int)> {
        match spec_cstring_decode(s) {
            None => None,
            Some((n1, o1)) => match spec_cstring_decode(s.skip(o1)) {
                None => None,
                Some((n2, o2)) => if s.len() < o1 + o2 + 1 {
                    None
                } else {
                    Some(
                        (
                            ApiVersionsRequestView {
                                client_software_name: n1,
                                client_software_version: n2,
                            },
                            o1 + o2 + 1,
                        ),
                    )
                },
            },
        }
    }

    fn decode(buf: &[u8]) -> (r: Result<(Self, usize), KafkaError>) {
        let (client_software_name, o1) = match CompactString::decode(buf) {
            Ok(p) => p,
            Err(_) => {
                return Err(KafkaError::DecodeError);
            },
        };
        let tail = slice_subrange(buf, o1, buf.len());
        proof {
            assert(tail@ =~= buf@.skip(o1 as int));
        }
        let (client_software_version, o2) = match CompactString::decode(tail) {
            Ok(p) => p,
            Err(_) => {
                return Err(KafkaError::DecodeError);
            },
        };
        if buf.len() - o1 - o2 < 1 {
            return Err(KafkaError::DecodeError);
        }
        Ok(
            (
                ApiVersionsRequest {
                    client_software_name,
                    client_software_version,
                    tagged_fields: TaggedFields(None),
                },
                o1 + o2 + 1,
            ),
        )
    }
}

impl Codec for ApiVersionsRequest {
    proof fn lemma_round_trip(m: ApiVersionsRequestView, rest: Seq<u8>) {
        let w1 = spec_cstring_wire(m.client_software_name);
        let w2 = spec_cstring_wire(m.client_software_version);
        let s = Self::spec_wire(m) + rest;
        assert(s =~= w1 + (w2 + (seq![0u8] + rest)));
        lemma_cstring_round_trip(m.client_software_name, w2 + (seq![0u8] + rest));
        let o1 = w1.len() as int;
        assert(s.skip(o1) =~= w2 + (seq![0u8] + rest));
        lemma_cstring_round_trip(m.client_software_version, seq![0u8] + rest);
    }

    proof fn lemma_decode_bounds(s: Seq<u8>) {
        lemma_cstring_decode_bounds(s);
        match spec_cstring_decode(s) {
            None => {},
            Some((n1, o1)) => {
                lemma_cstring_decode_bounds(s.skip(o1));
            },
        }
    }
}

//
// Topics and cursors of the metadata-describe request
//

/// One requested topic: a compact-string name, then a tag block.
pub struct RequestTopic {
    pub name: CompactString,
    pub tagged_fields: TaggedFields,
}

impl View for RequestTopic {
    type V = Seq<char>;

    open spec fn view(&self) -> Seq<char> {
        self.name@
    }
}

impl Encodable for RequestTopic {
    open spec fn spec_wf(m: Seq<char>) -> bool {
        spec_cstring_wf(m)
    }

    open spec fn spec_wire(m: Seq<char>) -> Seq<u8> {
        spec_cstring_wire(m) + seq![0u8]
    }

    fn encode(&self) -> (r: Vec<u8>) {
        let mut r = self.name.encode();
        r.push(0);
        proof {
            assert(r@ =~= Self::spec_wire(self@));
        }
        r
    }
}

impl Decodable for RequestTopic {
    open spec fn spec_decode(s: Seq<u8>) -> Option<(Seq<char>, int)> {
        match spec_cstring_decode(s) {
            None => None,
            Some((c, n)) => if s.len() < n + 1 {
                None
            } else {
                Some((c, n + 1))
            },
        }
    }

    fn decode(buf: &[u8]) -> (r: Result<(Self, usize), KafkaError>) {
        let (name, n) = match CompactString::decode(buf) {
            Ok(p) => p,
            Err(_) => {
                return Err(KafkaError::DecodeError);
            },
        };
        if buf.len() - n < 1 {
            return Err(KafkaError::DecodeError);
        }
        Ok((RequestTopic { name, tagged_fields: TaggedFields(None) }, n + 1))
    }
}

impl Codec for RequestTopic {
    proof fn lemma_round_trip(m: Seq<char>, rest: Seq<u8>) {
        let s = Self::spec_wire(m) + rest;
        assert(s =~= spec_cstring_wire(m) + (seq![0u8] + rest));
        lemma_cstring_round_trip(m, seq![0u8] + rest);
    }

    proof fn lemma_decode_bounds(s: Seq<u8>) {
        lemma_cstring_decode_bounds(s);
    }
}

/// The mathematical content of a pagination cursor.
pub struct CursorView {
    pub topic_name: Seq<char>,
    pub partition_index: i32,
}

/// A pagination cursor: the topic name to resume at, the partition index,
/// and a tag block.
pub struct Cursor {
    pub topic_name: CompactString,
    pub partition_index: i32,
    pub tagged_fields: TaggedFields,
}

impl View for Cursor {
    type V = CursorView;

    open spec fn view(&self) -> CursorView {
        CursorView { topic_name: self.topic_name@, partition_index: self.partition_index }
    }
}

impl Encodable for Cursor {
    open spec fn spec_wf(m: CursorView) -> bool {
        spec_cstring_wf(m.topic_name)
    }

    open spec fn spec_wire(m: CursorView) -> Seq<u8> {
        spec_cstring_wire(m.topic_name) + spec_be32(m.partition_index as u32) + seq![0u8]
    }

    fn encode(&self) -> (r: Vec<u8>) {
        let mut r = self.topic_name.encode();
        push_be32(&mut r, self.partition_index as u32);
        r.push(0);
        proof {
            assert(r@ =~= Self::spec_wire(self@));
        }
        r
    }
}

impl Decodable for Cursor {
    open spec fn spec_decode(s: Seq<u8>) -> Option<(CursorView, int)> {
        match spec_cstring_decode(s) {
            None => None,
            Some((c, n)) => if s.len() < n + 5 {
                None
            } else {
                Some(
                    (
                        CursorView {
                            topic_name: c,
                            partition_index: spec_be32_val(s.subrange(n, n + 4)) as i32,
                        },
                        n + 5,
                    ),
                )
            },
        }
    }

    fn decode(buf: &[u8]) -> (r: Result<(Self, usize), KafkaError>) {
        let (topic_name, n) = match CompactString::decode(buf) {
            Ok(p) => p,
            Err(_) => {
                return Err(KafkaError::DecodeError);
            },
        };
        if buf.len() - n < 5 {
            return Err(KafkaError::DecodeError);
        }
        let partition_index = read_be32(buf, n) as i32;
        Ok((Cursor { topic_name, partition_index, tagged_fields: TaggedFields(None) }, n + 5))
    }
}

impl Codec for Cursor {
    proof fn lemma_round_trip(m: CursorView, rest: Seq<u8>) {
        let w = spec_cstring_wire(m.topic_name);
        let s = Self::spec_wire(m) + rest;
        assert(s =~= w + (spec_be32(m.partition_index as u32) + (seq![0u8] + rest)));
        lemma_cstring_round_trip(
            m.topic_name,
            spec_be32(m.partition_index as u32) + (seq![0u8] + rest),
        );
        let n = w.len() as int;
        assert(s.subrange(n, n + 4) =~= spec_be32(m.partition_index as u32));
        crate::wire::lemma_be32_round_trip(m.partition_index as u32);
        crate::wire::lemma_u32_i32_round_trip(m.partition_index);
    }

    proof fn lemma_decode_bounds(s: Seq<u8>) {
        lemma_cstring_decode_bounds(s);
    }
}

//
// The metadata-describe request
//

/// The mathematical content of a metadata-describe request: the requested
/// topic names in order, the partition limit, and an optional resume cursor.
pub struct DescribeTopicPartitionsRequestView {
    pub topics: Seq<Seq<char>>,
    pub response_partition_limit: i32,
    pub cursor: Option<CursorView>,
}

/// The metadata-describe request: a compact array of requested topics, a
/// response-partition limit, an optional cursor (a single 0xFF byte when
/// absent), and a tag block.
pub struct DescribeTopicPartitionsRequest {
    pub topics: CompactArray<RequestTopic>,
    pub response_partition_limit: i32,
    pub cursor: Option<Cursor>,
    pub tagged_fields: TaggedFields,
}

impl View for DescribeTopicPartitionsRequest {
    type V = DescribeTopicPartitionsRequestView;

    open spec fn view(&self) -> DescribeTopicPartitionsRequestView {
        DescribeTopicPartitionsRequestView {
            topics: self.topics@,
            response_partition_limit: self.response_partition_limit,
            cursor: match self.cursor {
                Some(c) => Some(c@),
                None => None,
            },
        }
    }
}

/// An absent cursor is the sentinel byte 0xFF; a present one is its wire
/// image, whose first byte is a short length prefix and so never 0xFF.
pub open spec fn spec_cursor_opt_wire(c: Option<CursorView>) -> Seq<u8> {
    match c {
        None => seq![0xffu8],
        Some(cv) => Cursor::spec_wire(cv),
    }
}

impl Encodable for DescribeTopicPartitionsRequest {
    open spec fn spec_wf(m: DescribeTopicPartitionsRequestView) -> bool {
        &&& CompactArray::<RequestTopic>::spec_wf(m.topics)
        &&& match m.cursor {
            Some(cv) => spec_cstring_wf(cv.topic_name) && encode_utf8(cv.topic_name).len() + 1
                < 128,
            None => true,
        }
    }

    open spec fn spec_wire(m: DescribeTopicPartitionsRequestView) -> Seq<u8> {
        CompactArray::<RequestTopic>::spec_wire(m.topics) + spec_be32(
            m.response_partition_limit as u32,
        ) + spec_cursor_opt_wire(m.cursor) + seq![0u8]
    }

    fn encode(&self) -> (r: Vec<u8>) {
        let mut r = self.topics.encode();
        push_be32(&mut r, self.response_partition_limit as u32);
        match &self.cursor {
            Some(c) => {
                let cw = c.encode();
                r.extend_from_slice(cw.as_slice());
            },
            None => {
                // the absent-cursor sentinel
                r.push(0xff);
            },
        }
        r.push(0);
        proof {
            assert(r@ =~= Self::spec_wire(self@));
        }
        r
    }
}

impl Decodable for DescribeTopicPartitionsRequest {
    open spec fn spec_decode(s: Seq<u8>) -> Option<(DescribeTopicPartitionsRequestView, int)> {
        match CompactArray::<RequestTopic>::spec_decode(s) {
            None => None,
            Some((ts, n1)) => if s.len() < n1 + 5 {
                None
            } else {
                let limit = spec_be32_val(s.subrange(n1, n1 + 4)) as i32;
                let c_off = n1 + 4;
                if s[c_off] == 0xff {
                    if s.len() < c_off + 2 {
                        None
                    } else {
                        Some(
                            (
                                DescribeTopicPartitionsRequestView {
                                    topics: ts,
                                    response_partition_limit: limit,
                                    cursor: None,
                                },
                                c_off + 2,
                            ),
                        )
                    }
                } else {
                    match Cursor::spec_decode(s.skip(c_off)) {
                        None => None,
                        Some((cv, k)) => if s.len() < c_off + k + 1 {
                            None
                        } else {
                            Some(
                                (
                                    DescribeTopicPartitionsRequestView {
                                        topics: ts,
                                        response_partition_limit: limit,
                                        cursor: Some(cv),
                                    },
                                    c_off + k + 1,
                                ),
                            )
                        },
                    }
                }
            },
        }
    }

    fn decode(buf: &[u8]) -> (r: Result<(Self, usize), KafkaError>) {
        let (topics, n1) = match CompactArray::<RequestTopic>::decode(buf) {
            Ok(p) => p,
            Err(_) => {
                return Err(KafkaError::DecodeError);
            },
        };
        if buf.len() - n1 < 5 {
            return Err(KafkaError::DecodeError);
        }
        let response_partition_limit = read_be32(buf, n1) as i32;
        let c_off = n1 + 4;
        if buf[c_off] == 0xff {
            if buf.len() - c_off < 2 {
                return Err(KafkaError::DecodeError);
            }
            return Ok(
                (
                    DescribeTopicPartitionsRequest {
                        topics,
                        response_partition_limit,
                        cursor: None,
                        tagged_fields: TaggedFields(None),
                    },
                    c_off + 2,
                ),
            );
        }
        let tail = slice_subrange(buf, c_off, buf.len());
        proof {
            assert(tail@ =~= buf@.skip(c_off as int));
        }
        let (cursor, k) = match Cursor::decode(tail) {
            Ok(p) => p,
            Err(_) => {
                return Err(KafkaError::DecodeError);
            },
        };
        if buf.len() - c_off - k < 1 {
            return Err(KafkaError::DecodeError);
        }
        Ok(
            (
                DescribeTopicPartitionsRequest {
                    topics,
                    response_partition_limit,
                    cursor: Some(cursor),
                    tagged_fields: TaggedFields(None),
                },
                c_off + k + 1,
            ),
        )
    }
}

impl Codec for DescribeTopicPartitionsRequest {
    proof fn lemma_round_trip(m: DescribeTopicPartitionsRequestView, rest: Seq<u8>) {
        let wt = CompactArray::<RequestTopic>::spec_wire(m.topics);
        let wl = spec_be32(m.response_partition_limit as u32);
        let wc = spec_cursor_opt_wire(m.cursor);
        let s = Self::spec_wire(m) + rest;
        assert(s =~= wt + (wl + (wc + (seq![0u8] + rest))));
        CompactArray::<RequestTopic>::lemma_round_trip(m.topics, wl + (wc + (seq![0u8] + rest)));
        let n1 = wt.len() as int;
        assert(s.subrange(n1, n1 + 4) =~= wl);
        crate::wire::lemma_be32_round_trip(m.response_partition_limit as u32);
        crate::wire::lemma_u32_i32_round_trip(m.response_partition_limit);
        let c_off = n1 + 4;
        match m.cursor {
            None => {
                assert(s[c_off] == 0xffu8);
                assert(s.len() >= c_off + 2);
            },
            Some(cv) => {
                // the first byte of a present cursor is a one-byte length
                // prefix below 128, never the 0xFF sentinel
                let l = encode_utf8(cv.topic_name).len() as int;
                assert(spec_cstring_wire(cv.topic_name)[0] == ((l + 1) as u32) as u8) by {
                    assert(crate::wire::spec_varint((l + 1) as u32) == seq![((l + 1) as u32) as u8]);
                }
                assert(s[c_off] == ((l + 1) as u32) as u8);
                assert(((l + 1) as u32) as u8 != 0xff);
                assert(s.skip(c_off) =~= wc + (seq![0u8] + rest));
                Cursor::lemma_round_trip(cv, seq![0u8] + rest);
            },
        }
    }

    proof fn lemma_decode_bounds(s: Seq<u8>) {
        CompactArray::<RequestTopic>::lemma_decode_bounds(s);
        match CompactArray::<RequestTopic>::spec_decode(s) {
            None => {},
            Some((ts, n1)) => {
                if s.len() >= n1 + 5 && s[n1 + 4] != 0xff {
                    Cursor::lemma_decode_bounds(s.skip(n1 + 4));
                }
            },
        }
    }
}

} // verus!

verus! {

//
// ApiVersions response (capability negotiation)
//

/// The mathematical content of one supported-api entry.
pub struct ApiKeyView {
    pub api_key: i16,
    pub min_version: i16,
    pub max_version: i16,
}

/// One supported api: its key and the inclusive version range, then a tag
/// block.
pub struct ApiKey {
    pub api_key: i16,
    pub min_version: i16,
    pub max_version: i16,
    pub tagged_fields: TaggedFields,
}

impl View for ApiKey {
    type V = ApiKeyView;

    open spec fn view(&self) -> ApiKeyView {
        ApiKeyView {
            api_key: self.api_key,
            min_version: self.min_version,
            max_version: self.max_version,
        }
    }
}

/// Three 16-bit fields, then the empty tag block.
pub open spec fn spec_api_key_wire(m: ApiKeyView) -> Seq<u8> {
    spec_be16(m.api_key as u16) + spec_be16(m.min_version as u16) + spec_be16(
        m.max_version as u16,
    ) + seq![0u8]
}

impl Encodable for ApiKey {
    open spec fn spec_wf(m: ApiKeyView) -> bool {
        true
    }

    open spec fn spec_wire(m: ApiKeyView) -> Seq<u8> {
        spec_api_key_wire(m)
    }

    fn encode(&self) -> (r: Vec<u8>) {
        let mut r: Vec<u8> = Vec::new();
        push_be16(&mut r, self.api_key as u16);
        push_be16(&mut r, self.min_version as u16);
        push_be16(&mut r, self.max_version as u16);
        r.push(0);
        proof {
            assert(Self::spec_wire(self@) == spec_api_key_wire(self@));
            assert(r@ =~= spec_api_key_wire(self@));
        }
        r
    }
}

/// The mathematical content of a capability-negotiation response.
pub struct ApiVersionsResponseView {
    pub error_code: i16,
    pub api_versions: Seq<ApiKeyView>,
    pub throttle_time_ms: i32,
}

/// The capability-negotiation response: an error code, the supported apis
/// with their version ranges, and a throttle time. Its own trailing tag
/// block byte is supplied by the message envelope.
pub struct ApiVersionsResponse {
    pub error_code: i16,
    pub api_versions: Vec<ApiKey>,
    pub throttle_time_ms: i32,
    pub tagged_fields: TaggedFields,
}

impl View for ApiVersionsResponse {
    type V = ApiVersionsResponseView;

    open spec fn view(&self) -> ApiVersionsResponseView {
        ApiVersionsResponseView {
            error_code: self.error_code,
            api_versions: views_of(self.api_versions@),
            throttle_time_ms: self.throttle_time_ms,
        }
    }
}

/// The supported-api count must fit the single signed count byte.
pub open spec fn spec_api_versions_response_wf(m: ApiVersionsResponseView) -> bool {
    m.api_versions.len() + 1 <= 0x7f
}

/// An error code, a one-byte count holding length plus one, the entries,
/// then the throttle time.
pub open spec fn spec_api_versions_response_wire(m: ApiVersionsResponseView) -> Seq<u8> {
    spec_be16(m.error_code as u16) + seq![(m.api_versions.len() + 1) as u8]
        + crate::traits::spec_wire_seq::<ApiKey>(m.api_versions) + spec_be32(
        m.throttle_time_ms as u32,
    )
}

impl Encodable for ApiVersionsResponse {
    open spec fn spec_wf(m: ApiVersionsResponseView) -> bool {
        spec_api_versions_response_wf(m)
    }

    open spec fn spec_wire(m: ApiVersionsResponseView) -> Seq<u8> {
        spec_api_versions_response_wire(m)
    }

    fn encode(&self) -> (r: Vec<u8>) {
        let ghost m = self@;
        let mut r: Vec<u8> = Vec::new();
        push_be16(&mut r, self.error_code as u16);
        r.push((self.api_versions.len() + 1) as u8);
        let ghost base = r@;
        let mut i: usize = 0;
        while i < self.api_versions.len()
            invariant
                0 <= i <= self.api_versions@.len(),
                m == self@,
                r@ == base + crate::traits::spec_wire_seq::<ApiKey>(m.api_versions.take(i as int)),
                base == spec_be16(m.error_code as u16) + seq![(m.api_versions.len() + 1) as u8],
            decreases self.api_versions@.len() - i,
        {
            let api = &self.api_versions[i];
            push_be16(&mut r, api.api_key as u16);
            push_be16(&mut r, api.min_version as u16);
            push_be16(&mut r, api.max_version as u16);
            r.push(0);
            proof {
                crate::traits::lemma_wire_seq_snoc::<ApiKey>(
                    m.api_versions.take(i as int),
                    m.api_versions[i as int],
                );
                assert(m.api_versions.take(i as int).push(m.api_versions[i as int])
                    =~= m.api_versions.take(i + 1));
                assert(ApiKey::spec_wire(m.api_versions[i as int]) == spec_api_key_wire(
                    m.api_versions[i as int],
                ));
                assert(m.api_versions[i as int] == self.api_versions@[i as int]@);
                assert(r@ =~= base + crate::traits::spec_wire_seq::<ApiKey>(
                    m.api_versions.take(i + 1),
                ));
            }
            i = i + 1;
        }
        push_be32(&mut r, self.throttle_time_ms as u32);
        proof {
            assert(m.api_versions.take(m.api_versions.len() as int) =~= m.api_versions);
            assert(Self::spec_wire(self@) == spec_api_versions_response_wire(m));
            assert(r@ =~= spec_api_versions_response_wire(m));
        }
        r
    }
}

//
// Partition and topic results of the metadata-describe response
//

/// The mathematical content of one partition's metadata in a response.
pub struct PartitionMetadataView {
    pub error_code: i16,
    pub partition_index: i32,
    pub leader_id: i32,
    pub leader_epoch: i32,
    pub replica_nodes: Seq<i32>,
    pub isr_nodes: Seq<i32>,
    pub eligible_leader_replicas: Seq<i32>,
    pub last_known_elr: Seq<i32>,
    pub offline_replicas: Seq<i32>,
}

/// One partition of a described topic: error code, index, leader id and
/// epoch, four node-id lists, the offline-replica list with its redundant
/// raw count, and a tag block.
pub struct PartitionMetadata {
    pub error_code: i16,
    pub partition_index: i32,
    pub leader_id: i32,
    pub leader_epoch: i32,
    pub replica_nodes: Vec<i32>,
    pub isr_nodes: Vec<i32>,
    pub eligible_leader_replicas: Vec<i32>,
    pub last_known_elr: Vec<i32>,
    pub offline_replicas: Vec<i32>,
    pub tagged_fields: TaggedFields,
}

impl View for PartitionMetadata {
    type V = PartitionMetadataView;

    open spec fn view(&self) -> PartitionMetadataView {
        PartitionMetadataView {
            error_code: self.error_code,
            partition_index: self.partition_index,
            leader_id: self.leader_id,
            leader_epoch: self.leader_epoch,
            replica_nodes: self.replica_nodes@,
            isr_nodes: self.isr_nodes@,
            eligible_leader_replicas: self.eligible_leader_replicas@,
            last_known_elr: self.last_known_elr@,
            offline_replicas: self.offline_replicas@,
        }
    }
}

/// A node-id list: a varint holding the count plus one, then the ids as raw
/// 32-bit big-endian values.
pub open spec fn spec_node_list_wire(xs: Seq<i32>) -> Seq<u8> {
    crate::wire::spec_varint((xs.len() + 1) as u32) + crate::traits::spec_wire_seq::<i32>(xs)
}

/// Every node-id list's count plus one must fit a positive 32-bit value.
pub open spec fn spec_partition_metadata_wf(m: PartitionMetadataView) -> bool {
    &&& m.replica_nodes.len() + 1 < 0x8000_0000
    &&& m.isr_nodes.len() + 1 < 0x8000_0000
    &&& m.eligible_leader_replicas.len() + 1 < 0x8000_0000
    &&& m.last_known_elr.len() + 1 < 0x8000_0000
    &&& m.offline_replicas.len() + 1 < 0x8000_0000
}

/// The offline-replica list additionally writes a redundant raw 32-bit count
/// before its entries: a wire-compatibility quirk of this api version.
pub open spec fn spec_partition_metadata_wire(m: PartitionMetadataView) -> Seq<u8> {
    spec_be16(m.error_code as u16) + spec_be32(m.partition_index as u32) + spec_be32(
        m.leader_id as u32,
    ) + spec_be32(m.leader_epoch as u32) + spec_node_list_wire(m.replica_nodes)
        + spec_node_list_wire(m.isr_nodes) + spec_node_list_wire(m.eligible_leader_replicas)
        + spec_node_list_wire(m.last_known_elr) + crate::wire::spec_varint(
        (m.offline_replicas.len() + 1) as u32,
    ) + spec_be32(m.offline_replicas.len() as u32) + crate::traits::spec_wire_seq::<i32>(
        m.offline_replicas,
    ) + seq![0u8]
}

/// Appends a node-id list: the varint count prefix, then each id big-endian.
fn push_node_list(buf: &mut Vec<u8>, xs: &Vec<i32>)
    requires
        xs@.len() + 1 < 0x8000_0000,
    ensures
        final(buf)@ == old(buf)@ + spec_node_list_wire(xs@),
{
    let prefix = crate::wire::encode_var_int((xs.len() + 1) as u32);
    buf.extend_from_slice(prefix.as_slice());
    let ghost base = buf@;
    let mut i: usize = 0;
    while i < xs.len()
        invariant
            0 <= i <= xs@.len(),
            buf@ == base + crate::traits::spec_wire_seq::<i32>(xs@.take(i as int)),
            base == old(buf)@ + crate::wire::spec_varint((xs@.len() + 1) as u32),
        decreases xs@.len() - i,
    {
        push_be32(buf, xs[i] as u32);
        proof {
            crate::traits::lemma_wire_seq_snoc::<i32>(xs@.take(i as int), xs@[i as int]);
            assert(xs@.take(i as int).push(xs@[i as int]) =~= xs@.take(i + 1));
            assert(<i32 as Encodable>::spec_wire(xs@[i as int]) == spec_be32(
                xs@[i as int] as u32,
            ));
            assert(buf@ =~= base + crate::traits::spec_wire_seq::<i32>(xs@.take(i + 1)));
        }
        i = i + 1;
    }
    proof {
        assert(xs@.take(xs@.len() as int) =~= xs@);
        assert(buf@ =~= old(buf)@ + spec_node_list_wire(xs@));
    }
}

impl Encodable for PartitionMetadata {
    open spec fn spec_wf(m: PartitionMetadataView) -> bool {
        spec_partition_metadata_wf(m)
    }

    open spec fn spec_wire(m: PartitionMetadataView) -> Seq<u8> {
        spec_partition_metadata_wire(m)
    }

    #[verifier::rlimit(30)]
    fn encode(&self) -> (r: Vec<u8>) {
        let mut r: Vec<u8> = Vec::new();
        push_be16(&mut r, self.error_code as u16);
        push_be32(&mut r, self.partition_index as u32);
        push_be32(&mut r, self.leader_id as u32);
        push_be32(&mut r, self.leader_epoch as u32);
        push_node_list(&mut r, &self.replica_nodes);
        push_node_list(&mut r, &self.isr_nodes);
        push_node_list(&mut r, &self.eligible_leader_replicas);
        push_node_list(&mut r, &self.last_known_elr);
        // the offline-replica list carries a redundant raw count
        let prefix = crate::wire::encode_var_int((self.offline_replicas.len() + 1) as u32);
        r.extend_from_slice(prefix.as_slice());
        push_be32(&mut r, self.offline_replicas.len() as u32);
        let ghost base = r@;
        let mut i: usize = 0;
        while i < self.offline_replicas.len()
            invariant
                0 <= i <= self.offline_replicas@.len(),
                r@ == base + crate::traits::spec_wire_seq::<i32>(
                    self.offline_replicas@.take(i as int),
                ),
            decreases self.offline_replicas@.len() - i,
        {
            push_be32(&mut r, self.offline_replicas[i] as u32);
            proof {
                crate::traits::lemma_wire_seq_snoc::<i32>(
                    self.offline_replicas@.take(i as int),
                    self.offline_replicas@[i as int],
                );
                assert(self.offline_replicas@.take(i as int).push(
                    self.offline_replicas@[i as int],
                ) =~= self.offline_replicas@.take(i + 1));
                assert(<i32 as Encodable>::spec_wire(self.offline_replicas@[i as int])
                    == spec_be32(self.offline_replicas@[i as int] as u32));
                assert(r@ =~= base + crate::traits::spec_wire_seq::<i32>(
                    self.offline_replicas@.take(i + 1),
                ));
            }
            i = i + 1;
        }
        r.push(0);
        proof {
            assert(self.offline_replicas@.take(self.offline_replicas@.len() as int)
                =~= self.offline_replicas@);
            assert(Self::spec_wire(self@) == spec_partition_metadata_wire(self@));
            assert(r@ =~= spec_partition_metadata_wire(self@));
        }
        r
    }
}

} // verus!

verus! {

/// The mathematical content of one topic's result in a describe response.
pub struct ResponseTopicView {
    pub error_code: i16,
    pub name: Option<Seq<char>>,
    pub topic_id: Seq<u8>,
    pub is_internal: bool,
    pub partitions: Seq<PartitionMetadataView>,
    pub topic_authorized_operations: i32,
}

/// One described topic: error code, nullable name, 16-byte topic identifier,
/// internal flag, its partitions, an authorized-operations bitmask, and a
/// tag block.
pub struct ResponseTopic {
    pub error_code: i16,
    pub name: CompactNullableString,
    pub topic_id: Vec<u8>,
    pub is_internal: bool,
    pub partitions: CompactArray<PartitionMetadata>,
    pub topic_authorized_operations: i32,
    pub tagged_fields: TaggedFields,
}

impl View for ResponseTopic {
    type V = ResponseTopicView;

    open spec fn view(&self) -> ResponseTopicView {
        ResponseTopicView {
            error_code: self.error_code,
            name: self.name@,
            topic_id: self.topic_id@,
            is_internal: self.is_internal,
            partitions: self.partitions@,
            topic_authorized_operations: self.topic_authorized_operations,
        }
    }
}

/// The single byte standing for the internal flag.
pub open spec fn spec_bool_byte(b: bool) -> u8 {
    if b {
        1u8
    } else {
        0u8
    }
}

/// The topic identifier is exactly 16 bytes, and the nested fields fit
/// their length prefixes.
pub open spec fn spec_response_topic_wf(m: ResponseTopicView) -> bool {
    &&& CompactNullableString::spec_wf(m.name)
    &&& m.topic_id.len() == 16
    &&& CompactArray::<PartitionMetadata>::spec_wf(m.partitions)
}

pub open spec fn spec_response_topic_wire(m: ResponseTopicView) -> Seq<u8> {
    spec_be16(m.error_code as u16) + CompactNullableString::spec_wire(m.name) + m.topic_id + seq![
        spec_bool_byte(m.is_internal),
    ] + CompactArray::<PartitionMetadata>::spec_wire(m.partitions) + spec_be32(
        m.topic_authorized_operations as u32,
    ) + seq![0u8]
}

impl Encodable for ResponseTopic {
    open spec fn spec_wf(m: ResponseTopicView) -> bool {
        spec_response_topic_wf(m)
    }

    open spec fn spec_wire(m: ResponseTopicView) -> Seq<u8> {
        spec_response_topic_wire(m)
    }

    #[verifier::rlimit(30)]
    fn encode(&self) -> (r: Vec<u8>) {
        let mut r: Vec<u8> = Vec::new();
        push_be16(&mut r, self.error_code as u16);
        let name = self.name.encode();
        r.extend_from_slice(name.as_slice());
        r.extend_from_slice(self.topic_id.as_slice());
        r.push(if self.is_internal {
            1
        } else {
            0
        });
        let parts = self.partitions.encode();
        r.extend_from_slice(parts.as_slice());
        push_be32(&mut r, self.topic_authorized_operations as u32);
        r.push(0);
        proof {
            assert(Self::spec_wire(self@) == spec_response_topic_wire(self@));
            assert(r@ =~= spec_response_topic_wire(self@));
        }
        r
    }
}

//
// The metadata-describe response
//

/// The mathematical content of a metadata-describe response.
pub struct DescribeTopicPartitionsResponseView {
    pub throttle_time_ms: i32,
    pub topics: Seq<ResponseTopicView>,
    pub next_cursor: Option<CursorView>,
}

/// The metadata-describe response: a throttle time, the per-topic results,
/// an optional next-cursor (the 0xFF sentinel when absent), and a tag block.
pub struct DescribeTopicPartitionsResponse {
    pub throttle_time_ms: i32,
    pub topics: CompactArray<ResponseTopic>,
    pub next_cursor: Option<Cursor>,
    pub tagged_fields: TaggedFields,
}

impl View for DescribeTopicPartitionsResponse {
    type V = DescribeTopicPartitionsResponseView;

    open spec fn view(&self) -> DescribeTopicPartitionsResponseView {
        DescribeTopicPartitionsResponseView {
            throttle_time_ms: self.throttle_time_ms,
            topics: self.topics@,
            next_cursor: match self.next_cursor {
                Some(c) => Some(c@),
                None => None,
            },
        }
    }
}

pub open spec fn spec_describe_response_wf(m: DescribeTopicPartitionsResponseView) -> bool {
    &&& CompactArray::<ResponseTopic>::spec_wf(m.topics)
    &&& match m.next_cursor {
        Some(cv) => Cursor::spec_wf(cv),
        None => true,
    }
}

pub open spec fn spec_describe_response_wire(m: DescribeTopicPartitionsResponseView) -> Seq<u8> {
    spec_be32(m.throttle_time_ms as u32) + CompactArray::<ResponseTopic>::spec_wire(m.topics)
        + spec_cursor_opt_wire(m.next_cursor) + seq![0u8]
}

impl Encodable for DescribeTopicPartitionsResponse {
    open spec fn spec_wf(m: DescribeTopicPartitionsResponseView) -> bool {
        spec_describe_response_wf(m)
    }

    open spec fn spec_wire(m: DescribeTopicPartitionsResponseView) -> Seq<u8> {
        spec_describe_response_wire(m)
    }

    #[verifier::rlimit(30)]
    fn encode(&self) -> (r: Vec<u8>) {
        let mut r: Vec<u8> = Vec::new();
        push_be32(&mut r, self.throttle_time_ms as u32);
        let topics = self.topics.encode();
        r.extend_from_slice(topics.as_slice());
        match &self.next_cursor {
            Some(next_cursor) => {
                let cw = next_cursor.encode();
                r.extend_from_slice(cw.as_slice());
            },
            None => {
                // next cursor is absent
                r.push(0xff);
            },
        }
        r.push(0);
        proof {
            assert(Self::spec_wire(self@) == spec_describe_response_wire(self@));
            assert(r@ =~= spec_describe_response_wire(self@));
        }
        r
    }
}

impl DescribeTopicPartitionsResponse {
    /// A response with no topics: zero throttle time, no results, no cursor.
    pub fn empty(&self) -> (r: DescribeTopicPartitionsResponse)
        ensures
            r@.throttle_time_ms == 0,
            r@.topics.len() == 0,
            r@.next_cursor is None,
    {
        DescribeTopicPartitionsResponse {
            throttle_time_ms: 0,
            topics: CompactArray { data: Vec::new() },
            next_cursor: None,
            tagged_fields: TaggedFields(None),
        }
    }

    /// A placeholder response holding a single unknown topic named "test"
    /// with the zero topic identifier.
    pub fn default() -> (r: DescribeTopicPartitionsResponse)
        ensures
            r@.throttle_time_ms == 0,
            r@.topics.len() == 1,
            r@.topics[0].error_code == 3,
            r@.topics[0].name == Some("test"@),
            r@.topics[0].topic_id =~= Seq::new(16, |i: int| 0u8),
            r@.topics[0].is_internal == false,
            r@.topics[0].partitions.len() == 0,
            r@.topics[0].topic_authorized_operations == 10,
            r@.next_cursor is None,
    {
        let name: String = "test".to_owned();
        let mut topic_id: Vec<u8> = Vec::new();
        let mut i: usize = 0;
        while i < 16
            invariant
                0 <= i <= 16,
                topic_id@.len() == i,
                forall|j: int| 0 <= j < i ==> topic_id@[j] == 0u8,
            decreases 16 - i,
        {
            topic_id.push(0);
            i = i + 1;
        }
        let topic = ResponseTopic {
            error_code: 3,
            name: CompactNullableString { data: Some(CompactString { data: name }) },
            topic_id,
            is_internal: false,
            partitions: CompactArray { data: Vec::new() },
            topic_authorized_operations: 10,
            tagged_fields: TaggedFields(None),
        };
        let mut topics: Vec<ResponseTopic> = Vec::new();
        topics.push(topic);
        let r = DescribeTopicPartitionsResponse {
            throttle_time_ms: 0,
            topics: CompactArray { data: topics },
            next_cursor: None,
            tagged_fields: TaggedFields(None),
        };
        proof {
            assert(r@.topics.len() == 1);
            assert(r@.topics[0].topic_id =~= Seq::new(16, |i: int| 0u8));
        }
        r
    }
}

} // verus!

verus! {

//
// Message bodies: a closed union over the supported request and response
// schemas, dispatched by api key.
//

/// The mathematical content of a message body.
pub enum KafkaBodyView {
    ApiVersionsRequest(ApiVersionsRequestView),
    DescribeRequest(DescribeTopicPartitionsRequestView),
    ApiVersionsResponse(ApiVersionsResponseView),
    DescribeResponse(DescribeTopicPartitionsResponseView),
}

/// A message body: one of the two supported request kinds or their
/// responses.
pub enum KafkaBody {
    ApiVersionsRequest(ApiVersionsRequest),
    DescribeRequest(DescribeTopicPartitionsRequest),
    ApiVersionsResponse(ApiVersionsResponse),
    DescribeResponse(DescribeTopicPartitionsResponse),
}

impl View for KafkaBody {
    type V = KafkaBodyView;

    open spec fn view(&self) -> KafkaBodyView {
        match self {
            KafkaBody::ApiVersionsRequest(b) => KafkaBodyView::ApiVersionsRequest(b@),
            KafkaBody::DescribeRequest(b) => KafkaBodyView::DescribeRequest(b@),
            KafkaBody::ApiVersionsResponse(b) => KafkaBodyView::ApiVersionsResponse(b@),
            KafkaBody::DescribeResponse(b) => KafkaBodyView::DescribeResponse(b@),
        }
    }
}

pub open spec fn spec_body_wf(m: KafkaBodyView) -> bool {
    match m {
        KafkaBodyView::ApiVersionsRequest(b) => ApiVersionsRequest::spec_wf(b),
        KafkaBodyView::DescribeRequest(b) => DescribeTopicPartitionsRequest::spec_wf(b),
        KafkaBodyView::ApiVersionsResponse(b) => ApiVersionsResponse::spec_wf(b),
        KafkaBodyView::DescribeResponse(b) => DescribeTopicPartitionsResponse::spec_wf(b),
    }
}

pub open spec fn spec_body_wire(m: KafkaBodyView) -> Seq<u8> {
    match m {
        KafkaBodyView::ApiVersionsRequest(b) => ApiVersionsRequest::spec_wire(b),
        KafkaBodyView::DescribeRequest(b) => DescribeTopicPartitionsRequest::spec_wire(b),
        KafkaBodyView::ApiVersionsResponse(b) => ApiVersionsResponse::spec_wire(b),
        KafkaBodyView::DescribeResponse(b) => DescribeTopicPartitionsResponse::spec_wire(b),
    }
}

impl Encodable for KafkaBody {
    open spec fn spec_wf(m: KafkaBodyView) -> bool {
        spec_body_wf(m)
    }

    open spec fn spec_wire(m: KafkaBodyView) -> Seq<u8> {
        spec_body_wire(m)
    }

    fn encode(&self) -> (r: Vec<u8>) {
        proof {
            assert(Self::spec_wf(self@) == spec_body_wf(self@));
            assert(Self::spec_wire(self@) == spec_body_wire(self@));
        }
        match self {
            KafkaBody::ApiVersionsRequest(body) => body.encode(),
            KafkaBody::DescribeRequest(body) => body.encode(),
            KafkaBody::ApiVersionsResponse(body) => body.encode(),
            KafkaBody::DescribeResponse(body) => body.encode(),
        }
    }
}

/// The api keys this broker understands: capability negotiation and
/// metadata describe.
pub open spec fn spec_api_key_known(api_key: i16) -> bool {
    api_key == 18 || api_key == 75
}

/// Decodes the request body selected by the header's api key.
pub open spec fn spec_body_decode(api_key: i16, s: Seq<u8>) -> Option<(KafkaBodyView, int)> {
    if api_key == 18 {
        match ApiVersionsRequest::spec_decode(s) {
            None => None,
            Some((b, n)) => Some((KafkaBodyView::ApiVersionsRequest(b), n)),
        }
    } else if api_key == 75 {
        match DescribeTopicPartitionsRequest::spec_decode(s) {
            None => None,
            Some((b, n)) => Some((KafkaBodyView::DescribeRequest(b), n)),
        }
    } else {
        None
    }
}

impl KafkaBody {
    /// Decodes the request body for the given api key; an unknown key is a
    /// broker-level error, a malformed body a decode error.
    pub fn decode(api_key: i16, buf: &[u8]) -> (r: Result<(KafkaBody, usize), KafkaError>)
        ensures
            match spec_body_decode(api_key, buf@) {
                Some(p) => {
                    &&& r matches Ok(q)
                    &&& q.0@ == p.0
                    &&& q.1 as int == p.1
                    &&& p.1 <= buf@.len()
                },
                None => r == Err::<(KafkaBody, usize), KafkaError>(
                    if spec_api_key_known(api_key) {
                        KafkaError::DecodeError
                    } else {
                        KafkaError::BrokerError(BrokerError::UnknownError)
                    },
                ),
            },
    {
        if api_key == 18 {
            match ApiVersionsRequest::decode(buf) {
                Ok((body, n)) => Ok((KafkaBody::ApiVersionsRequest(body), n)),
                Err(_) => Err(KafkaError::DecodeError),
            }
        } else if api_key == 75 {
            match DescribeTopicPartitionsRequest::decode(buf) {
                Ok((body, n)) => Ok((KafkaBody::DescribeRequest(body), n)),
                Err(_) => Err(KafkaError::DecodeError),
            }
        } else {
            Err(KafkaError::BrokerError(BrokerError::UnknownError))
        }
    }
}

//
// The message envelope
//

/// The mathematical content of a whole message.
pub struct KafkaMessageView {
    pub size: i32,
    pub header: KafkaHeaderView,
    pub body: KafkaBodyView,
}

/// A whole message: a 32-bit size prefix, a header and a body. On the wire
/// the size field covers everything after itself plus one trailing byte,
/// which the encoder appends after the body as an empty tag marker.
pub struct KafkaMessage {
    pub size: i32,
    pub header: KafkaHeader,
    pub body: KafkaBody,
}

impl View for KafkaMessage {
    type V = KafkaMessageView;

    open spec fn view(&self) -> KafkaMessageView {
        KafkaMessageView { size: self.size, header: self.header@, body: self.body@ }
    }
}

/// Encoding reconstructs the length prefix from the header and body, so
/// those must fit a positive 32-bit length with one byte to spare.
pub open spec fn spec_message_wf(m: KafkaMessageView) -> bool {
    &&& spec_header_wf(m.header)
    &&& spec_body_wf(m.body)
    &&& spec_header_wire(m.header).len() + spec_body_wire(m.body).len() + 1 <= 0x7fffffff
}

/// The envelope: a big-endian length covering header, body and one trailing
/// byte; then the header, the body, and that trailing zero byte.
pub open spec fn spec_message_wire(m: KafkaMessageView) -> Seq<u8> {
    spec_be32(
        (spec_header_wire(m.header).len() + spec_body_wire(m.body).len() + 1) as u32,
    ) + spec_header_wire(m.header) + spec_body_wire(m.body) + seq![0u8]
}

/// Decodes one request message: the size prefix, a request header, then the
/// body selected by the header's api key.
pub open spec fn spec_message_decode(s: Seq<u8>) -> Option<(KafkaMessageView, int)> {
    if s.len() < 4 {
        None
    } else {
        match spec_request_header_decode(s.skip(4)) {
            None => None,
            Some((h, hn)) => match spec_body_decode(h.api_key, s.skip(4 + hn)) {
                None => None,
                Some((b, bn)) => Some(
                    (
                        KafkaMessageView {
                            size: spec_be32_val(s.subrange(0, 4)) as i32,
                            header: KafkaHeaderView::Request(h),
                            body: b,
                        },
                        4 + hn + bn,
                    ),
                ),
            },
        }
    }
}

/// The error a failed message decode reports: an unknown api key under a
/// well-formed header is a broker-level error; everything else is a decode
/// error.
pub open spec fn spec_message_decode_err(s: Seq<u8>) -> KafkaError {
    if s.len() >= 4 && (match spec_request_header_decode(s.skip(4)) {
        Some((h, hn)) => !spec_api_key_known(h.api_key),
        None => false,
    }) {
        KafkaError::BrokerError(BrokerError::UnknownError)
    } else {
        KafkaError::DecodeError
    }
}

impl KafkaMessage {
    pub fn encode(&self) -> (r: Vec<u8>)
        requires
            spec_message_wf(self@),
        ensures
            r@ == spec_message_wire(self@),
    {
        let mut buf: Vec<u8> = Vec::new();
        let (bytes_temp, message_len) = self.encode_helper();
        // the size covers the header, the body, and the trailing tag byte
        push_be32(&mut buf, (message_len + 1) as u32);
        buf.extend_from_slice(bytes_temp.as_slice());
        buf.push(0);
        proof {
            assert(buf@ =~= spec_message_wire(self@));
        }
        buf
    }

    fn encode_helper(&self) -> (r: (Vec<u8>, i32))
        requires
            spec_message_wf(self@),
        ensures
            r.0@ == spec_header_wire(self@.header) + spec_body_wire(self@.body),
            r.1 == r.0@.len(),
    {
        let mut bytes: Vec<u8> = Vec::new();
        let mut message_len: i32 = 0;
        let header_encoded = self.header.encode();
        message_len = message_len + header_encoded.len() as i32;
        bytes.extend_from_slice(header_encoded.as_slice());
        let body_encoded = self.body.encode();
        proof {
            assert(body_encoded@ == spec_body_wire(self@.body));
        }
        message_len = message_len + body_encoded.len() as i32;
        bytes.extend_from_slice(body_encoded.as_slice());
        (bytes, message_len)
    }

    pub fn decode(buf: &[u8]) -> (r: Result<(KafkaMessage, usize), KafkaError>)
        ensures
            match spec_message_decode(buf@) {
                Some(p) => {
                    &&& r matches Ok(q)
                    &&& q.0@ == p.0
                    &&& q.1 as int == p.1
                    &&& p.1 <= buf@.len()
                },
                None => r == Err::<(KafkaMessage, usize), KafkaError>(
                    spec_message_decode_err(buf@),
                ),
            },
    {
        if buf.len() < 4 {
            return Err(KafkaError::DecodeError);
        }
        let message_size = read_be32(buf, 0) as i32;
        let header_buf = slice_subrange(buf, 4, buf.len());
        proof {
            assert(header_buf@ =~= buf@.skip(4));
        }
        let (request_header, header_len) = match RequestHeader::decode(header_buf) {
            Ok(p) => p,
            Err(_) => {
                return Err(KafkaError::DecodeError);
            },
        };
        let body_buf = slice_subrange(buf, 4 + header_len, buf.len());
        proof {
            assert(body_buf@ =~= buf@.skip(4 + header_len as int));
        }
        let api_key = request_header.api_key;
        let (body, body_len) = match KafkaBody::decode(api_key, body_buf) {
            Ok(p) => p,
            Err(e) => {
                return Err(e);
            },
        };
        Ok(
            (
                KafkaMessage {
                    size: message_size,
                    header: KafkaHeader::Request(request_header),
                    body,
                },
                4 + header_len + body_len,
            ),
        )
    }
}

//
// Plain carriers and the request kinds outside this implementation's scope
//

/// A request as received from a client.
pub struct ClientRequest {
    pub size: i32,
    pub header: KafkaHeader,
    pub body: KafkaBody,
}

/// A response as sent back to a client.
pub struct ClientResponse {
    pub size: i32,
    pub header: KafkaHeader,
    pub body: KafkaBody,
}

/// The fetch api is out of scope; the type reserves its place.
pub struct FetchRequest {}

pub struct FetchResponse {}

/// The produce api is out of scope; the type reserves its place.
pub struct ProduceRequest {}

pub struct ProduceResponse {}

} // verus!
