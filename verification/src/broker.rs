//! The request resolver: maps a decoded request, plus one read of the
//! metadata log, to a typed response, and drives one whole request/response
//! exchange from bytes to bytes. Request-scoped and stateless: the index
//! over the log is rebuilt fresh for every describe request.

use vstd::prelude::*;
use vstd::map::*;
use vstd::string::StrSliceExecFns;
use vstd::slice::slice_subrange;
use std::collections::HashMap;

use crate::errors::{BrokerError, KafkaError};
use crate::kafka_protocol::{
    spec_api_key_known, spec_api_versions_response_wire, spec_body_decode, spec_body_wf,
    spec_body_wire, spec_header_wire, spec_message_wf, spec_message_wire,
    spec_request_header_decode, ApiKey, ApiKeyView, ApiVersionsRequest, ApiVersionsResponse,
    ApiVersionsResponseView, DescribeTopicPartitionsRequest,
    DescribeTopicPartitionsResponse, DescribeTopicPartitionsResponseView, KafkaBody, KafkaBodyView,
    KafkaHeader, KafkaHeaderView, KafkaMessage, KafkaMessageView, PartitionMetadata,
    PartitionMetadataView, RequestHeader, ResponseHeader, ResponseHeaderView, ResponseTopic,
    ResponseTopicView, TaggedFields,
};
use crate::kafka_record::{
    bytes_eq, copy_bytes, copy_nodes, decode_record_batches, spec_batches_decode,
    spec_lookup_topic, spec_partition_entries, spec_partitions_of, spec_topic_entries,
    MetadataIndex, PartitionRecordView, RecordBatch, RecordBatchView,
};
use crate::primitive_types::{CompactArray, CompactNullableString, CompactString};
use crate::traits::{
    lemma_wf_seq_from_forall, lemma_wf_seq_index, lemma_wf_seq_push, spec_wf_seq, views_of,
    Codec, Decodable, Encodable,
};

verus! {

broadcast use vstd::std_specs::hash::group_hash_axioms;

//
// The supported-api table
//

/// The apis this broker supports, each with its inclusive version range:
/// capability negotiation and metadata describe.
pub open spec fn spec_supported_apis() -> Seq<ApiKeyView> {
    seq![
        ApiKeyView { api_key: 18, min_version: 0, max_version: 4 },
        ApiKeyView { api_key: 75, min_version: 0, max_version: 0 },
    ]
}

/// The capability-negotiation response carrying the full supported-api list.
pub open spec fn spec_api_versions_response(error_code: i16) -> ApiVersionsResponseView {
    ApiVersionsResponseView {
        error_code,
        api_versions: spec_supported_apis(),
        throttle_time_ms: 0,
    }
}

/// Builds the supported-api list.
pub fn build_supported_apis() -> (r: Vec<ApiKey>)
    ensures
        views_of(r@) == spec_supported_apis(),
{
    let mut apis: Vec<ApiKey> = Vec::new();
    apis.push(
        ApiKey { api_key: 18, min_version: 0, max_version: 4, tagged_fields: TaggedFields(None) },
    );
    apis.push(
        ApiKey { api_key: 75, min_version: 0, max_version: 0, tagged_fields: TaggedFields(None) },
    );
    proof {
        assert(views_of(apis@) =~= spec_supported_apis());
    }
    apis
}

/// The supported-api table as a map from api key to its version range.
pub open spec fn spec_api_version_map() -> Map<i16, (i16, i16)> {
    map![18i16 => (0i16, 4i16), 75i16 => (0i16, 0i16)]
}

/// Builds the supported-api table, keyed by api key with the inclusive
/// (minimum, maximum) version pair as the value.
pub fn build_api_version_map() -> (r: HashMap<i16, (i16, i16)>)
    ensures
        r@ == spec_api_version_map(),
{
    let mut api_versions: HashMap<i16, (i16, i16)> = HashMap::new();
    api_versions.insert(18, (0, 4));
    api_versions.insert(75, (0, 0));
    proof {
        assert_maps_equal!(api_versions@, spec_api_version_map());
    }
    api_versions
}

//
// Version validation and header-version lookup
//

/// The wire error code for an unsupported api version.
pub open spec fn spec_unsupported_version_code() -> i16 {
    35i16
}

/// The error code a request header resolves to: zero when the api key is in
/// the table and the version lies in its range, the unsupported-version
/// code otherwise. A response header never validates.
pub open spec fn spec_validate_api_version(h: KafkaHeaderView, m: Map<i16, (i16, i16)>) -> i16 {
    match h {
        KafkaHeaderView::Request(rh) => {
            if m.contains_key(rh.api_key) && m[rh.api_key].0 <= rh.api_version && rh.api_version
                <= m[rh.api_key].1 {
                0i16
            } else {
                spec_unsupported_version_code()
            }
        },
        KafkaHeaderView::Response(_) => spec_unsupported_version_code(),
    }
}

/// Validates a request's api version against the supported-api table.
pub fn validate_api_version(req_header: &KafkaHeader, api_versions: &HashMap<i16, (i16, i16)>) -> (r:
    i16)
    ensures
        r == spec_validate_api_version(req_header@, api_versions@),
{
    let error_code: i16 = match req_header {
        KafkaHeader::Request(rh) => {
            match api_versions.get(&rh.api_key) {
                Some(supported_versions) => {
                    if rh.api_version > supported_versions.1 || rh.api_version
                        < supported_versions.0 {
                        35
                    } else {
                        0
                    }
                },
                None => 35,
            }
        },
        _ => 35,
    };
    error_code
}

/// The response-header version an api key calls for: capability negotiation
/// answers without a header tag block, everything else with one.
pub open spec fn spec_find_header_version(api_key: i16) -> i8 {
    if api_key == 18 {
        0i8
    } else {
        1i8
    }
}

/// Looks the response-header version up by api key.
pub fn find_header_version(api_key: i16) -> (r: i8)
    ensures
        r == spec_find_header_version(api_key),
{
    match api_key {
        18 => 0,
        75 => 1,
        _ => 1,
    }
}

//
// Request processing
//

/// A request body that can be resolved, against one read of the metadata
/// log, to a response body.
pub trait RequestProcess {
    fn process(&self, log: &[u8]) -> Result<KafkaBody, BrokerError>;
}

/// A complete request kind: decodable from the wire, encodable back onto
/// it, and resolvable to a response.
pub trait Request: Codec + RequestProcess {

}

impl<T: Codec + RequestProcess> Request for T {

}

impl RequestProcess for ApiVersionsRequest {
    /// Always succeeds: the response lists every supported api with its
    /// version bounds, error code zero and throttle time zero.
    fn process(&self, log: &[u8]) -> (r: Result<KafkaBody, BrokerError>)
        ensures
            r matches Ok(b) && b@ == KafkaBodyView::ApiVersionsResponse(
                spec_api_versions_response(0),
            ),
    {
        let response_body = KafkaBody::ApiVersionsResponse(
            ApiVersionsResponse {
                error_code: 0,
                api_versions: build_supported_apis(),
                throttle_time_ms: 0,
                tagged_fields: TaggedFields(None),
            },
        );
        Ok(response_body)
    }
}

//
// Resolution of a describe request
//

/// The all-zero topic identifier, echoed for unknown topics.
pub open spec fn spec_zero_topic_id() -> Seq<u8> {
    Seq::new(16, |i: int| 0u8)
}

/// Builds the all-zero topic identifier.
pub fn zero_topic_id() -> (r: Vec<u8>)
    ensures
        r@ == spec_zero_topic_id(),
{
    let mut id: Vec<u8> = Vec::new();
    let mut i: usize = 0;
    while i < 16
        invariant
            0 <= i <= 16,
            id@.len() == i,
            forall|j: int| 0 <= j < i ==> id@[j] == 0u8,
        decreases 16 - i,
    {
        id.push(0);
        i = i + 1;
    }
    proof {
        assert(id@ =~= spec_zero_topic_id());
    }
    id
}

/// The response-side image of one partition record: replica and in-sync
/// lists copied verbatim, the remaining node lists always empty in this
/// implementation.
pub open spec fn spec_partition_to_metadata(p: PartitionRecordView) -> PartitionMetadataView {
    PartitionMetadataView {
        error_code: 0,
        partition_index: p.partition_id,
        leader_id: p.leader,
        leader_epoch: p.leader_epoch,
        replica_nodes: p.replica_array,
        isr_nodes: p.isr_array,
        eligible_leader_replicas: Seq::empty(),
        last_known_elr: Seq::empty(),
        offline_replicas: Seq::empty(),
    }
}

/// The result for one requested topic name: the resolved identifier and its
/// partitions when the name is bound in the log, or the
/// unknown-topic-or-partition error code echoing the name with the zero
/// identifier.
pub open spec fn spec_topic_result(name: Seq<char>, bs: Seq<RecordBatchView>) -> ResponseTopicView {
    match spec_lookup_topic(spec_topic_entries(bs), name) {
        None => ResponseTopicView {
            error_code: 3,
            name: Some(name),
            topic_id: spec_zero_topic_id(),
            is_internal: false,
            partitions: Seq::empty(),
            topic_authorized_operations: 0,
        },
        Some(id) => ResponseTopicView {
            error_code: 0,
            name: Some(name),
            topic_id: id,
            is_internal: false,
            partitions: spec_partitions_of(spec_partition_entries(bs), id).map_values(
                |p: PartitionRecordView| spec_partition_to_metadata(p),
            ),
            topic_authorized_operations: 0,
        },
    }
}

/// The full resolution of a describe request against the decoded log: one
/// result per requested topic, in request order; no pagination.
pub open spec fn spec_describe_resolve(
    req: crate::kafka_protocol::DescribeTopicPartitionsRequestView,
    bs: Seq<RecordBatchView>,
) -> DescribeTopicPartitionsResponseView {
    DescribeTopicPartitionsResponseView {
        throttle_time_ms: 0,
        topics: req.topics.map_values(|n: Seq<char>| spec_topic_result(n, bs)),
        next_cursor: None,
    }
}

/// Collects the response partitions of one resolved topic, or `None` when
/// a node list or the partition count does not fit its wire length field.
fn build_partition_results(index: &MetadataIndex, topic_id: &Vec<u8>) -> (r: Option<
    Vec<PartitionMetadata>,
>)
    ensures
        ({
            let mapped = spec_partitions_of(index@.partitions, topic_id@).map_values(
                |p: PartitionRecordView| spec_partition_to_metadata(p),
            );
            if CompactArray::<PartitionMetadata>::spec_wf(mapped) {
                r matches Some(v) && views_of(v@) == mapped
            } else {
                r is None
            }
        }),
{
    let ghost pviews = index@.partitions;
    let ghost to_meta = |p: PartitionRecordView| spec_partition_to_metadata(p);
    let ghost mapped = spec_partitions_of(pviews, topic_id@).map_values(to_meta);
    let mut result: Vec<PartitionMetadata> = Vec::new();
    let mut j: usize = 0;
    proof {
        assert(pviews.take(0) =~= Seq::<PartitionRecordView>::empty());
        assert(views_of(result@) =~= spec_partitions_of(pviews.take(0), topic_id@).map_values(
            to_meta,
        ));
    }
    #[verifier::loop_isolation(false)]
    while j < index.partitions.len()
        invariant
            0 <= j <= index.partitions@.len(),
            views_of(result@) == spec_partitions_of(pviews.take(j as int), topic_id@).map_values(
                to_meta,
            ),
        decreases index.partitions@.len() - j,
    {
        let p = &index.partitions[j];
        proof {
            assert(p@ == pviews[j as int]);
            crate::kafka_record::lemma_partitions_of_snoc(
                pviews.take(j as int),
                pviews[j as int],
                topic_id@,
            );
            assert(pviews.take(j as int).push(pviews[j as int]) =~= pviews.take(j + 1));
        }
        if bytes_eq(&p.topic_id, topic_id) {
            let meta = PartitionMetadata {
                error_code: 0,
                partition_index: p.partition_id,
                leader_id: p.leader,
                leader_epoch: p.leader_epoch,
                replica_nodes: copy_nodes(&p.replica_array.data),
                isr_nodes: copy_nodes(&p.isr_array.data),
                eligible_leader_replicas: Vec::new(),
                last_known_elr: Vec::new(),
                offline_replicas: Vec::new(),
                tagged_fields: TaggedFields(None),
            };
            proof {
                assert(views_of(p.replica_array.data@) =~= p.replica_array.data@);
                assert(views_of(p.isr_array.data@) =~= p.isr_array.data@);
                assert(meta@.replica_nodes == pviews[j as int].replica_array);
                assert(meta@.isr_nodes == pviews[j as int].isr_array);
                assert(meta@.eligible_leader_replicas =~= Seq::<i32>::empty());
                assert(meta@.last_known_elr =~= Seq::<i32>::empty());
                assert(meta@.offline_replicas =~= Seq::<i32>::empty());
                assert(meta@ == spec_partition_to_metadata(pviews[j as int]));
                assert(views_of(result@.push(meta)) =~= views_of(result@).push(meta@));
                assert(views_of(result@).push(meta@) =~= spec_partitions_of(
                    pviews.take(j + 1),
                    topic_id@,
                ).map_values(to_meta));
            }
            result.push(meta);
        } else {
            proof {
                assert(views_of(result@) =~= spec_partitions_of(
                    pviews.take(j + 1),
                    topic_id@,
                ).map_values(to_meta));
            }
        }
        j = j + 1;
    }
    proof {
        assert(pviews.take(pviews.len() as int) =~= pviews);
        assert(views_of(result@) == mapped);
    }
    // hold every node list, and the partition count itself, to the wire's
    // 32-bit length fields
    if result.len() >= 0x7fff_ffff {
        proof {
            assert(mapped.len() + 1 >= 0x8000_0000);
        }
        return None;
    }
    let mut k: usize = 0;
    #[verifier::loop_isolation(false)]
    while k < result.len()
        invariant
            0 <= k <= result@.len(),
            views_of(result@) == mapped,
            forall|t: int|
                0 <= t < k ==> PartitionMetadata::spec_wf(#[trigger] views_of(result@)[t]),
        decreases result@.len() - k,
    {
        let replica_len = result[k].replica_nodes.len();
        let isr_len = result[k].isr_nodes.len();
        proof {
            assert(result@[k as int]@ == mapped[k as int]);
            assert(mapped[k as int] == to_meta(spec_partitions_of(pviews, topic_id@)[k as int]));
            assert(mapped[k as int].eligible_leader_replicas.len() == 0);
            assert(mapped[k as int].last_known_elr.len() == 0);
            assert(mapped[k as int].offline_replicas.len() == 0);
        }
        if replica_len >= 0x7fff_ffff || isr_len >= 0x7fff_ffff {
            proof {
                assert(!PartitionMetadata::spec_wf(mapped[k as int]));
                lemma_wf_seq_index_contrapositive::<PartitionMetadata>(mapped, k as int);
            }
            return None;
        }
        proof {
            assert(PartitionMetadata::spec_wf(mapped[k as int]));
        }
        k = k + 1;
    }
    proof {
        lemma_wf_seq_from_forall::<PartitionMetadata>(mapped);
        assert(CompactArray::<PartitionMetadata>::spec_wf(mapped));
    }
    Some(result)
}

/// If one element is ill-formed, the sequence is not well-formed.
proof fn lemma_wf_seq_index_contrapositive<T: Encodable>(ms: Seq<T::V>, i: int)
    requires
        0 <= i < ms.len(),
        !T::spec_wf(ms[i]),
    ensures
        !spec_wf_seq::<T>(ms),
{
    if spec_wf_seq::<T>(ms) {
        lemma_wf_seq_index::<T>(ms, i);
    }
}

impl RequestProcess for DescribeTopicPartitionsRequest {
    /// Resolves each requested topic against a fresh read of the log: a
    /// bound name yields its identifier and partitions, an unbound one the
    /// unknown-topic error code with the zero identifier. A log that fails
    /// to decode, or a result that cannot fit the wire's length fields, is
    /// a broker-level error.
    #[verifier::rlimit(60)]
    fn process(&self, log: &[u8]) -> (r: Result<KafkaBody, BrokerError>)
        ensures
            match spec_batches_decode(log@) {
                None => r == Err::<KafkaBody, BrokerError>(BrokerError::UnknownError),
                Some(bs) => ({
                    let resp = spec_describe_resolve(self@, bs);
                    if spec_body_wf(KafkaBodyView::DescribeResponse(resp)) {
                        r matches Ok(b) && b@ == KafkaBodyView::DescribeResponse(resp)
                    } else {
                        r == Err::<KafkaBody, BrokerError>(BrokerError::UnknownError)
                    }
                }),
            },
    {
        let batches = match decode_record_batches(log) {
            Ok(b) => b,
            Err(_) => {
                return Err(BrokerError::UnknownError);
            },
        };
        let ghost bs = views_of(batches@);
        let index = MetadataIndex::build(&batches);
        let ghost to_result = |n: Seq<char>| spec_topic_result(n, bs);
        let ghost resp = spec_describe_resolve(self@, bs);
        proof {
            assert(resp.topics == self@.topics.map_values(to_result));
        }
        let mut response_topics: Vec<ResponseTopic> = Vec::new();
        if self.topics.data.len() >= 0x7fff_ffff {
            proof {
                assert(resp.topics.len() + 1 >= 0x8000_0000);
            }
            return Err(BrokerError::UnknownError);
        }
        let mut i: usize = 0;
        proof {
            assert(views_of(response_topics@) =~= resp.topics.take(0));
            assert(spec_wf_seq::<ResponseTopic>(views_of(response_topics@)));
        }
        #[verifier::loop_isolation(false)]
        while i < self.topics.data.len()
            invariant
                0 <= i <= self.topics.data@.len(),
                views_of(response_topics@) == resp.topics.take(i as int),
                spec_wf_seq::<ResponseTopic>(views_of(response_topics@)),
            decreases self.topics.data@.len() - i,
        {
            let request_topic_name: String = self.topics.data[i].name.data.clone();
            proof {
                assert(request_topic_name@ == self@.topics[i as int]);
                assert(resp.topics[i as int] == to_result(self@.topics[i as int]));
            }
            // the echoed name must fit a compact string's length prefix
            let name_bytes = request_topic_name.as_str().as_bytes_vec();
            let name_byte_len = name_bytes.len();
            proof {
                assert(name_bytes@ == vstd::utf8::encode_utf8(request_topic_name@));
                assert(name_byte_len == vstd::utf8::encode_utf8(request_topic_name@).len());
            }
            if name_byte_len >= 0x7fff_ffff {
                proof {
                    assert(resp.topics[i as int].name == Some(request_topic_name@));
                    assert(!ResponseTopic::spec_wf(resp.topics[i as int]));
                    lemma_wf_seq_index_contrapositive::<ResponseTopic>(resp.topics, i as int);
                }
                return Err(BrokerError::UnknownError);
            }
            let ghost name_v = request_topic_name@;
            proof {
                assert(resp.topics[i as int] == spec_topic_result(name_v, bs));
            }
            let response_topic: ResponseTopic = match index.topic_id_of(&request_topic_name) {
                None => {
                    proof {
                        assert(spec_lookup_topic(spec_topic_entries(bs), name_v) is None);
                    }
                    let rt = ResponseTopic {
                        error_code: 3,
                        name: CompactNullableString {
                            data: Some(CompactString { data: request_topic_name }),
                        },
                        topic_id: zero_topic_id(),
                        is_internal: false,
                        partitions: CompactArray { data: Vec::new() },
                        topic_authorized_operations: 0,
                        tagged_fields: TaggedFields(None),
                    };
                    proof {
                        assert(rt@.partitions =~= Seq::<PartitionMetadataView>::empty());
                        assert(rt@.name == Some(name_v));
                        assert(rt@.topic_id == spec_zero_topic_id());
                        assert(rt@.partitions == spec_topic_result(name_v, bs).partitions);
                        assert(rt@ == resp.topics[i as int]);
                        assert(spec_wf_seq::<PartitionMetadata>(
                            Seq::<PartitionMetadataView>::empty(),
                        ));
                        assert(crate::primitive_types::spec_cstring_wf(name_v));
                        assert(CompactNullableString::spec_wf(rt@.name) == (match rt@.name {
                            Some(c) => crate::primitive_types::spec_cstring_wf(c),
                            None => true,
                        }));
                        assert(CompactArray::<PartitionMetadata>::spec_wf(rt@.partitions) == (
                        rt@.partitions.len() + 1 < 0x8000_0000 && spec_wf_seq::<PartitionMetadata>(
                            rt@.partitions,
                        )));
                        assert(ResponseTopic::spec_wf(rt@)
                            == crate::kafka_protocol::spec_response_topic_wf(rt@));
                        assert(ResponseTopic::spec_wf(rt@));
                    }
                    rt
                },
                Some(topic_id) => {
                    if topic_id.len() != 16 {
                        proof {
                            assert(resp.topics[i as int].topic_id == topic_id@);
                            assert(!ResponseTopic::spec_wf(resp.topics[i as int]));
                            lemma_wf_seq_index_contrapositive::<ResponseTopic>(
                                resp.topics,
                                i as int,
                            );
                        }
                        return Err(BrokerError::UnknownError);
                    }
                    let partitions = match build_partition_results(&index, &topic_id) {
                        Some(p) => p,
                        None => {
                            proof {
                                assert(spec_lookup_topic(spec_topic_entries(bs), name_v)
                                    == Some(topic_id@));
                                assert(resp.topics[i as int].partitions =~= spec_partitions_of(
                                    spec_partition_entries(bs),
                                    topic_id@,
                                ).map_values(|p: PartitionRecordView| spec_partition_to_metadata(p)));
                                assert(!ResponseTopic::spec_wf(resp.topics[i as int]));
                                lemma_wf_seq_index_contrapositive::<ResponseTopic>(
                                    resp.topics,
                                    i as int,
                                );
                            }
                            return Err(BrokerError::UnknownError);
                        },
                    };
                    let ghost id_v = topic_id@;
                    proof {
                        assert(spec_lookup_topic(spec_topic_entries(bs), name_v) == Some(id_v));
                    }
                    let rt = ResponseTopic {
                        error_code: 0,
                        name: CompactNullableString {
                            data: Some(CompactString { data: request_topic_name }),
                        },
                        topic_id,
                        is_internal: false,
                        partitions: CompactArray { data: partitions },
                        topic_authorized_operations: 0,
                        tagged_fields: TaggedFields(None),
                    };
                    proof {
                        assert(rt@.name == Some(name_v));
                        assert(rt@.topic_id == id_v);
                        assert(rt@.partitions =~= spec_topic_result(name_v, bs).partitions);
                        assert(rt@ == resp.topics[i as int]);
                        assert(CompactArray::<PartitionMetadata>::spec_wf(rt@.partitions));
                        assert(crate::primitive_types::spec_cstring_wf(name_v));
                        assert(CompactNullableString::spec_wf(rt@.name) == (match rt@.name {
                            Some(c) => crate::primitive_types::spec_cstring_wf(c),
                            None => true,
                        }));
                        assert(ResponseTopic::spec_wf(rt@)
                            == crate::kafka_protocol::spec_response_topic_wf(rt@));
                        assert(ResponseTopic::spec_wf(rt@));
                    }
                    rt
                },
            };
            proof {
                lemma_wf_seq_push::<ResponseTopic>(views_of(response_topics@), response_topic@);
                assert(views_of(response_topics@.push(response_topic)) =~= views_of(
                    response_topics@,
                ).push(response_topic@));
                assert(views_of(response_topics@).push(response_topic@) =~= resp.topics.take(
                    i + 1,
                ));
            }
            response_topics.push(response_topic);
            i = i + 1;
        }
        proof {
            assert(resp.topics.take(resp.topics.len() as int) =~= resp.topics);
        }
        let response_body = KafkaBody::DescribeResponse(
            DescribeTopicPartitionsResponse {
                throttle_time_ms: 0,
                topics: CompactArray { data: response_topics },
                next_cursor: None,
                tagged_fields: TaggedFields(None),
            },
        );
        proof {
            assert(response_body@ == KafkaBodyView::DescribeResponse(resp));
            assert(spec_body_wf(response_body@));
        }
        Ok(response_body)
    }
}

/// The resolver's outcome for a body: capability negotiation always answers
/// with the supported-api list; a describe request resolves against the
/// log; a response body cannot be processed.
pub open spec fn spec_process_body(b: KafkaBodyView, log: Seq<u8>) -> Result<
    KafkaBodyView,
    BrokerError,
> {
    match b {
        KafkaBodyView::ApiVersionsRequest(_) => Ok(
            KafkaBodyView::ApiVersionsResponse(spec_api_versions_response(0)),
        ),
        KafkaBodyView::DescribeRequest(d) => match spec_batches_decode(log) {
            None => Err(BrokerError::UnknownError),
            Some(bs) => ({
                let resp = spec_describe_resolve(d, bs);
                if spec_body_wf(KafkaBodyView::DescribeResponse(resp)) {
                    Ok(KafkaBodyView::DescribeResponse(resp))
                } else {
                    Err(BrokerError::UnknownError)
                }
            }),
        },
        _ => Err(BrokerError::UnknownError),
    }
}

impl RequestProcess for KafkaBody {
    /// Dispatches to the body's own resolution; response bodies are not
    /// requests and resolve to an error.
    fn process(&self, log: &[u8]) -> (r: Result<KafkaBody, BrokerError>)
        ensures
            match spec_process_body(self@, log@) {
                Ok(b) => r matches Ok(rb) && rb@ == b,
                Err(e) => r == Err::<KafkaBody, BrokerError>(e),
            },
    {
        match self {
            KafkaBody::ApiVersionsRequest(request) => request.process(log),
            KafkaBody::DescribeRequest(request) => request.process(log),
            _ => Err(BrokerError::UnknownError),
        }
    }
}

} // verus!

verus! {

//
// One whole request/response exchange
//

/// The capability-negotiation response body is well-formed and occupies 21
/// bytes on the wire: an error code, a count byte, two 7-byte api entries
/// and a throttle time.
proof fn lemma_api_versions_response_fits(error_code: i16)
    ensures
        spec_body_wf(KafkaBodyView::ApiVersionsResponse(spec_api_versions_response(error_code))),
        spec_body_wire(
            KafkaBodyView::ApiVersionsResponse(spec_api_versions_response(error_code)),
        ).len() == 21,
{
    let apis = spec_supported_apis();
    let m = spec_api_versions_response(error_code);
    assert(apis.len() == 2);
    assert(ApiVersionsResponse::spec_wf(m) == crate::kafka_protocol::spec_api_versions_response_wf(
        m,
    ));
    assert(spec_body_wf(KafkaBodyView::ApiVersionsResponse(m)));
    let w0 = crate::kafka_protocol::spec_api_key_wire(apis[0]);
    let w1 = crate::kafka_protocol::spec_api_key_wire(apis[1]);
    assert(w0.len() == 7);
    assert(w1.len() == 7);
    assert(ApiKey::spec_wire(apis[0]) == w0);
    assert(ApiKey::spec_wire(apis[1]) == w1);
    let ws = crate::traits::spec_wire_seq::<ApiKey>(apis);
    assert(apis.skip(1)[0] == apis[1]);
    assert(apis.skip(1).skip(1) =~= Seq::<ApiKeyView>::empty());
    assert(crate::traits::spec_wire_seq::<ApiKey>(Seq::<ApiKeyView>::empty())
        == Seq::<u8>::empty());
    assert(crate::traits::spec_wire_seq::<ApiKey>(apis.skip(1)) == ApiKey::spec_wire(apis.skip(1)[0])
        + crate::traits::spec_wire_seq::<ApiKey>(apis.skip(1).skip(1)));
    assert(ws == ApiKey::spec_wire(apis[0]) + crate::traits::spec_wire_seq::<ApiKey>(apis.skip(1)));
    assert(ws.len() == 14);
    assert(ApiVersionsResponse::spec_wire(m) == spec_api_versions_response_wire(m));
    assert(spec_api_versions_response_wire(m).len() == 21);
}

/// The outcome of one whole exchange, from the raw request bytes and the
/// log image to the raw response bytes. A version outside the supported
/// range, or an unknown api key, degrades to a capability-negotiation
/// response carrying the unsupported-version code; a malformed request is a
/// decode error; a response too large for the envelope's length field is an
/// encode error.
pub open spec fn spec_handle_request(buf: Seq<u8>, log: Seq<u8>, m: Map<i16, (i16, i16)>) -> Result<
    Seq<u8>,
    KafkaError,
> {
    if buf.len() < 4 {
        Err(KafkaError::DecodeError)
    } else {
        match spec_request_header_decode(buf.skip(4)) {
            None => Err(KafkaError::DecodeError),
            Some((h, hn)) => {
                let ec = spec_validate_api_version(KafkaHeaderView::Request(h), m);
                if ec != 0 {
                    Ok(
                        spec_message_wire(
                            KafkaMessageView {
                                size: 0,
                                header: KafkaHeaderView::Response(
                                    ResponseHeaderView {
                                        correlation_id: h.correlation_id,
                                        header_version: 0,
                                    },
                                ),
                                body: KafkaBodyView::ApiVersionsResponse(
                                    spec_api_versions_response(ec),
                                ),
                            },
                        ),
                    )
                } else {
                    match spec_body_decode(h.api_key, buf.skip(4 + hn)) {
                        None => Err(
                            if spec_api_key_known(h.api_key) {
                                KafkaError::DecodeError
                            } else {
                                KafkaError::BrokerError(BrokerError::UnknownError)
                            },
                        ),
                        Some((b, bn)) => match spec_process_body(b, log) {
                            Err(be) => Err(KafkaError::BrokerError(be)),
                            Ok(rb) => {
                                let msg = KafkaMessageView {
                                    size: 0,
                                    header: KafkaHeaderView::Response(
                                        ResponseHeaderView {
                                            correlation_id: h.correlation_id,
                                            header_version: spec_find_header_version(h.api_key),
                                        },
                                    ),
                                    body: rb,
                                };
                                if spec_header_wire(msg.header).len() + spec_body_wire(rb).len()
                                    + 1 <= 0x7fff_ffff {
                                    Ok(spec_message_wire(msg))
                                } else {
                                    Err(KafkaError::EncodeError)
                                }
                            },
                        },
                    }
                }
            },
        }
    }
}

/// Handles one request: decode, validate, resolve against the log image,
/// and encode the response.
pub fn handle_request(buf: &[u8], log: &[u8], api_versions: &HashMap<i16, (i16, i16)>) -> (r:
    Result<Vec<u8>, KafkaError>)
    ensures
        match spec_handle_request(buf@, log@, api_versions@) {
            Ok(s) => r matches Ok(v) && v@ == s,
            Err(e) => r == Err::<Vec<u8>, KafkaError>(e),
        },
{
    if buf.len() < 4 {
        return Err(KafkaError::DecodeError);
    }
    let header_buf = slice_subrange(buf, 4, buf.len());
    proof {
        assert(header_buf@ =~= buf@.skip(4));
    }
    let (request_header, header_len) = match RequestHeader::decode(header_buf) {
        Ok(p) => p,
        Err(_) => {
            return Err(KafkaError::DecodeError);
        },
    };
    let correlation_id = request_header.correlation_id;
    let api_key = request_header.api_key;
    let header = KafkaHeader::Request(request_header);
    let error_code = validate_api_version(&header, api_versions);
    if error_code != 0 {
        // requests with an unsupported api version are answered as if they
        // were capability-negotiation requests
        let response = KafkaMessage {
            size: 0,
            header: KafkaHeader::Response(ResponseHeader::new(correlation_id, 0)),
            body: KafkaBody::ApiVersionsResponse(
                ApiVersionsResponse {
                    error_code,
                    api_versions: build_supported_apis(),
                    throttle_time_ms: 0,
                    tagged_fields: TaggedFields(None),
                },
            ),
        };
        proof {
            lemma_api_versions_response_fits(error_code);
            assert(response@.body == KafkaBodyView::ApiVersionsResponse(
                spec_api_versions_response(error_code),
            ));
            assert(spec_header_wire(response@.header).len() == 4);
            assert(spec_message_wf(response@));
        }
        let bytes = response.encode();
        return Ok(bytes);
    }
    let body_buf = slice_subrange(buf, 4 + header_len, buf.len());
    proof {
        assert(body_buf@ =~= buf@.skip(4 + header_len as int));
    }
    let (body, _body_len) = match KafkaBody::decode(api_key, body_buf) {
        Ok(p) => p,
        Err(e) => {
            return Err(e);
        },
    };
    let response_body = match body.process(log) {
        Ok(b) => b,
        Err(broker_error) => {
            return Err(KafkaError::BrokerError(broker_error));
        },
    };
    proof {
        assert(spec_body_wf(response_body@)) by {
            match spec_process_body(body@, log@) {
                Ok(rb) => {
                    if rb is ApiVersionsResponse {
                        lemma_api_versions_response_fits(0);
                    }
                },
                Err(_) => {},
            }
        }
    }
    let header_version = find_header_version(api_key);
    let response_header = ResponseHeader::new(correlation_id, header_version);
    let header_bytes = response_header.encode();
    let body_bytes = response_body.encode();
    proof {
        assert(header_bytes@.len() <= 5);
    }
    if body_bytes.len() > 0x7fff_fffe - header_bytes.len() {
        return Err(KafkaError::EncodeError);
    }
    let response = KafkaMessage {
        size: 0,
        header: KafkaHeader::Response(response_header),
        body: response_body,
    };
    proof {
        assert(spec_message_wf(response@));
    }
    let bytes = response.encode();
    Ok(bytes)
}

/// Idempotence: the response is a function of the request bytes, the log
/// image and the supported-api table alone, so issuing the same request
/// twice against an unchanged log yields byte-identical responses.
pub proof fn lemma_handle_request_idempotent(
    buf: Seq<u8>,
    log: Seq<u8>,
    m: Map<i16, (i16, i16)>,
    r1: Seq<u8>,
    r2: Seq<u8>,
)
    requires
        spec_handle_request(buf, log, m) == Ok::<Seq<u8>, KafkaError>(r1),
        spec_handle_request(buf, log, m) == Ok::<Seq<u8>, KafkaError>(r2),
    ensures
        r1 == r2,
{
}

} // verus!
