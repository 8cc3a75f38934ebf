use kafka_broker::errors::{BrokerError, KafkaError};
use kafka_broker::kafka_protocol::{
    ApiKey, ApiVersionsRequest, ApiVersionsResponse, Cursor, DescribeTopicPartitionsRequest,
    DescribeTopicPartitionsResponse, KafkaBody, KafkaHeader, KafkaMessage, PartitionMetadata,
    RequestHeader, RequestTopic, ResponseHeader, ResponseTopic, TaggedFields,
};
use kafka_broker::primitive_types::{CompactArray, CompactNullableString, CompactString};
use kafka_broker::traits::{Decodable, Encodable};

fn request_header_bytes(api_key: i16, api_version: i16, correlation_id: i32) -> Vec<u8> {
    let header = RequestHeader {
        api_key,
        api_version,
        correlation_id,
        client_id: "tester".to_string(),
        tagged_fields: TaggedFields::new(None),
    };
    header.encode()
}

#[test]
fn tagged_fields_encode_and_decode() {
    let tf = TaggedFields::empty();
    assert_eq!(tf.encode(), vec![0x00]);
    let (decoded, used) = TaggedFields::decode(&[0x00, 0xaa]).unwrap();
    assert!(decoded.0.is_none());
    assert_eq!(used, 1);
    assert!(matches!(TaggedFields::decode(&[]), Err(KafkaError::DecodeError)));
}

#[test]
fn request_header_round_trip() {
    let encoded = request_header_bytes(18, 4, 0x12345678);
    let (decoded, used) = RequestHeader::decode(&encoded).unwrap();
    assert_eq!(decoded.api_key, 18);
    assert_eq!(decoded.api_version, 4);
    assert_eq!(decoded.correlation_id, 0x12345678);
    assert_eq!(decoded.client_id, "tester");
    assert_eq!(used, encoded.len());
}

#[test]
fn request_header_short_buffer_is_decode_error() {
    let r = RequestHeader::decode(&[0x00, 0x12, 0x00]);
    assert!(matches!(r, Err(KafkaError::DecodeError)));
}

#[test]
fn response_header_versions() {
    // header version 0 carries no tag block, version 1 carries one byte
    let v0 = ResponseHeader::new(7, 0).encode();
    assert_eq!(v0, vec![0, 0, 0, 7]);
    let v1 = ResponseHeader::new(7, 1).encode();
    assert_eq!(v1, vec![0, 0, 0, 7, 0]);
}

#[test]
fn kafka_header_api_key() {
    let header = KafkaHeader::Request(RequestHeader::new(75, 0, 1));
    assert_eq!(header.get_api_key(), 75);
    let header = KafkaHeader::Response(ResponseHeader::new(1, 1));
    assert_eq!(header.get_api_key(), 0);
}

#[test]
fn api_versions_request_round_trip() {
    let request = ApiVersionsRequest {
        client_software_name: CompactString::new("console".to_string()),
        client_software_version: CompactString::new("1.0".to_string()),
        tagged_fields: TaggedFields::new(None),
    };
    let encoded = request.encode();
    let (decoded, used) = ApiVersionsRequest::decode(&encoded).unwrap();
    assert_eq!(decoded.client_software_name.data, "console");
    assert_eq!(decoded.client_software_version.data, "1.0");
    assert_eq!(used, encoded.len());
}

#[test]
fn request_topic_round_trip() {
    let topic = RequestTopic {
        name: CompactString::new("orders".to_string()),
        tagged_fields: TaggedFields::new(None),
    };
    let encoded = topic.encode();
    let (decoded, used) = RequestTopic::decode(&encoded).unwrap();
    assert_eq!(decoded.name.data, "orders");
    assert_eq!(used, encoded.len());
}

#[test]
fn cursor_round_trip() {
    let cursor = Cursor {
        topic_name: CompactString::new("orders".to_string()),
        partition_index: 3,
        tagged_fields: TaggedFields::new(None),
    };
    let encoded = cursor.encode();
    let (decoded, used) = Cursor::decode(&encoded).unwrap();
    assert_eq!(decoded.topic_name.data, "orders");
    assert_eq!(decoded.partition_index, 3);
    assert_eq!(used, encoded.len());
}

#[test]
fn describe_request_round_trip_without_cursor() {
    let request = DescribeTopicPartitionsRequest {
        topics: CompactArray::new(vec![
            RequestTopic {
                name: CompactString::new("orders".to_string()),
                tagged_fields: TaggedFields::new(None),
            },
            RequestTopic {
                name: CompactString::new("billing".to_string()),
                tagged_fields: TaggedFields::new(None),
            },
        ]),
        response_partition_limit: 100,
        cursor: None,
        tagged_fields: TaggedFields::new(None),
    };
    let encoded = request.encode();
    let (decoded, used) = DescribeTopicPartitionsRequest::decode(&encoded).unwrap();
    assert_eq!(decoded.topics.data.len(), 2);
    assert_eq!(decoded.topics.data[0].name.data, "orders");
    assert_eq!(decoded.topics.data[1].name.data, "billing");
    assert_eq!(decoded.response_partition_limit, 100);
    assert!(decoded.cursor.is_none());
    assert_eq!(used, encoded.len());
}

#[test]
fn describe_request_round_trip_with_cursor() {
    let request = DescribeTopicPartitionsRequest {
        topics: CompactArray::new(vec![RequestTopic {
            name: CompactString::new("orders".to_string()),
            tagged_fields: TaggedFields::new(None),
        }]),
        response_partition_limit: 1,
        cursor: Some(Cursor {
            topic_name: CompactString::new("orders".to_string()),
            partition_index: 1,
            tagged_fields: TaggedFields::new(None),
        }),
        tagged_fields: TaggedFields::new(None),
    };
    let encoded = request.encode();
    let (decoded, used) = DescribeTopicPartitionsRequest::decode(&encoded).unwrap();
    let cursor = decoded.cursor.unwrap();
    assert_eq!(cursor.topic_name.data, "orders");
    assert_eq!(cursor.partition_index, 1);
    assert_eq!(used, encoded.len());
}

#[test]
fn api_versions_response_wire_image() {
    let response = ApiVersionsResponse {
        error_code: 0,
        api_versions: vec![ApiKey {
            api_key: 18,
            min_version: 0,
            max_version: 4,
            tagged_fields: TaggedFields::new(None),
        }],
        throttle_time_ms: 0,
        tagged_fields: TaggedFields::new(None),
    };
    let encoded = response.encode();
    // error code, count byte (length + 1), one 7-byte entry, throttle time
    assert_eq!(
        encoded,
        vec![0, 0, 2, 0, 18, 0, 0, 0, 4, 0, 0, 0, 0, 0]
    );
}

#[test]
fn partition_metadata_redundant_offline_count() {
    let partition = PartitionMetadata {
        error_code: 0,
        partition_index: 1,
        leader_id: 2,
        leader_epoch: 3,
        replica_nodes: vec![4, 5],
        isr_nodes: vec![4],
        eligible_leader_replicas: vec![],
        last_known_elr: vec![],
        offline_replicas: vec![9],
        tagged_fields: TaggedFields::new(None),
    };
    let encoded = partition.encode();
    let expected: Vec<u8> = vec![
        0, 0, // error code
        0, 0, 0, 1, // partition index
        0, 0, 0, 2, // leader id
        0, 0, 0, 3, // leader epoch
        3, 0, 0, 0, 4, 0, 0, 0, 5, // replicas: count+1 then entries
        2, 0, 0, 0, 4, // isr: count+1 then entry
        1, // eligible leader replicas: empty
        1, // last known elr: empty
        2, // offline replicas: count+1
        0, 0, 0, 1, // the redundant raw count
        0, 0, 0, 9, // the entry
        0, // tag block
    ];
    assert_eq!(encoded, expected);
}

#[test]
fn describe_response_absent_cursor_sentinel() {
    let response = DescribeTopicPartitionsResponse {
        throttle_time_ms: 0,
        topics: CompactArray::new(Vec::<ResponseTopic>::new()),
        next_cursor: None,
        tagged_fields: TaggedFields::new(None),
    };
    let encoded = response.encode();
    // throttle time, empty topic array, the 0xFF sentinel, tag block
    assert_eq!(encoded, vec![0, 0, 0, 0, 1, 0xff, 0]);
}

#[test]
fn describe_response_empty_and_default() {
    let empty = DescribeTopicPartitionsResponse {
        throttle_time_ms: 9,
        topics: CompactArray::new(Vec::<ResponseTopic>::new()),
        next_cursor: None,
        tagged_fields: TaggedFields::new(None),
    }
    .empty();
    assert_eq!(empty.throttle_time_ms, 0);
    assert!(empty.topics.data.is_empty());
    assert!(empty.next_cursor.is_none());

    let placeholder = DescribeTopicPartitionsResponse::default();
    assert_eq!(placeholder.topics.data.len(), 1);
    assert_eq!(placeholder.topics.data[0].error_code, 3);
    assert_eq!(
        placeholder.topics.data[0].name.data.as_ref().unwrap().data,
        "test"
    );
    assert_eq!(placeholder.topics.data[0].topic_id, vec![0u8; 16]);
    assert_eq!(placeholder.topics.data[0].topic_authorized_operations, 10);
}

#[test]
fn message_envelope_size_and_trailing_byte() {
    let message = KafkaMessage {
        size: 0,
        header: KafkaHeader::Response(ResponseHeader::new(42, 0)),
        body: KafkaBody::ApiVersionsResponse(ApiVersionsResponse {
            error_code: 0,
            api_versions: vec![],
            throttle_time_ms: 0,
            tagged_fields: TaggedFields::new(None),
        }),
    };
    let encoded = message.encode();
    // header (4) + body (7) + one trailing byte = 12; the prefix covers it
    let inner_len = (encoded.len() - 4) as u32;
    assert_eq!(&encoded[..4], inner_len.to_be_bytes().as_slice());
    assert_eq!(*encoded.last().unwrap(), 0);
}

#[test]
fn message_decode_round_trip() {
    let body = ApiVersionsRequest {
        client_software_name: CompactString::new("console".to_string()),
        client_software_version: CompactString::new("1.0".to_string()),
        tagged_fields: TaggedFields::new(None),
    };
    let message = KafkaMessage {
        size: 0,
        header: KafkaHeader::Request(RequestHeader {
            api_key: 18,
            api_version: 4,
            correlation_id: 11,
            client_id: "tester".to_string(),
            tagged_fields: TaggedFields::new(None),
        }),
        body: KafkaBody::ApiVersionsRequest(body),
    };
    let encoded = message.encode();
    let (decoded, _used) = KafkaMessage::decode(&encoded).unwrap();
    match &decoded.header {
        KafkaHeader::Request(h) => {
            assert_eq!(h.api_key, 18);
            assert_eq!(h.correlation_id, 11);
        }
        _ => panic!("expected a request header"),
    }
    match &decoded.body {
        KafkaBody::ApiVersionsRequest(b) => {
            assert_eq!(b.client_software_name.data, "console");
        }
        _ => panic!("expected a capability-negotiation request body"),
    }
}

#[test]
fn message_decode_unknown_api_key_is_broker_error() {
    let mut bytes = vec![0, 0, 0, 0]; // size prefix
    bytes.extend_from_slice(&request_header_bytes(99, 0, 5));
    let r = KafkaMessage::decode(&bytes);
    assert!(matches!(
        r,
        Err(KafkaError::BrokerError(BrokerError::UnknownError))
    ));
}
