use kafka_broker::broker::{
    build_api_version_map, find_header_version, handle_request, validate_api_version,
    RequestProcess,
};
use kafka_broker::errors::{BrokerError, KafkaError};
use kafka_broker::kafka_protocol::{
    ApiVersionsRequest, Cursor, DescribeTopicPartitionsRequest, KafkaBody, KafkaHeader,
    RequestHeader, RequestTopic, ResponseHeader, TaggedFields,
};
use kafka_broker::kafka_record::{decode_record_batches, MetadataIndex, RecordValue};
use kafka_broker::primitive_types::{CompactArray, CompactString};
use kafka_broker::traits::Encodable;
use kafka_broker::wire::{encode_var_int, push_be32, push_be64};

fn topic_record_payload(name: &str, id: &[u8; 16]) -> Vec<u8> {
    let mut p = vec![2u8];
    p.extend(CompactString::new(name.to_string()).encode());
    p.extend_from_slice(id);
    p
}

fn partition_record_payload(
    partition_id: i32,
    id: &[u8; 16],
    replicas: &[i32],
    isr: &[i32],
    leader: i32,
    epoch: i32,
) -> Vec<u8> {
    let mut p = vec![3u8];
    push_be32(&mut p, partition_id as u32);
    p.extend_from_slice(id);
    p.extend(encode_var_int(replicas.len() as u32 + 1));
    for r in replicas {
        push_be32(&mut p, *r as u32);
    }
    p.extend(encode_var_int(isr.len() as u32 + 1));
    for r in isr {
        push_be32(&mut p, *r as u32);
    }
    push_be32(&mut p, leader as u32);
    push_be32(&mut p, epoch as u32);
    p
}

fn framed_record(payload: Vec<u8>) -> Vec<u8> {
    let mut r = encode_var_int(payload.len() as u32);
    r.extend(payload);
    r
}

fn batch(base_offset: u64, records: Vec<Vec<u8>>) -> Vec<u8> {
    let mut body = Vec::new();
    push_be32(&mut body, records.len() as u32);
    for r in records {
        body.extend(r);
    }
    let mut b = Vec::new();
    push_be64(&mut b, base_offset);
    push_be32(&mut b, body.len() as u32);
    b.extend(body);
    b
}

const ORDERS_ID: [u8; 16] = [1, 2, 3, 4, 5, 6, 7, 8, 9, 10, 11, 12, 13, 14, 15, 16];

fn orders_log() -> Vec<u8> {
    batch(
        0,
        vec![
            framed_record(topic_record_payload("orders", &ORDERS_ID)),
            framed_record(partition_record_payload(0, &ORDERS_ID, &[1, 2], &[1], 1, 7)),
            framed_record(partition_record_payload(1, &ORDERS_ID, &[2, 3], &[2], 2, 7)),
        ],
    )
}

fn describe_request(names: &[&str]) -> DescribeTopicPartitionsRequest {
    let mut topics: Vec<RequestTopic> = Vec::new();
    for name in names {
        topics.push(RequestTopic {
            name: CompactString::new(name.to_string()),
            tagged_fields: TaggedFields::new(None),
        });
    }
    DescribeTopicPartitionsRequest {
        topics: CompactArray::new(topics),
        response_partition_limit: 100,
        cursor: None,
        tagged_fields: TaggedFields::new(None),
    }
}

fn request_bytes(api_key: i16, api_version: i16, correlation_id: i32, body: Vec<u8>) -> Vec<u8> {
    let header = RequestHeader {
        api_key,
        api_version,
        correlation_id,
        client_id: "tester".to_string(),
        tagged_fields: TaggedFields::new(None),
    };
    let header_bytes = header.encode();
    let mut bytes = Vec::new();
    push_be32(&mut bytes, (header_bytes.len() + body.len()) as u32);
    bytes.extend(header_bytes);
    bytes.extend(body);
    bytes
}

#[test]
fn api_version_map_holds_the_two_supported_apis() {
    let map = build_api_version_map();
    assert_eq!(map.get(&18), Some(&(0, 4)));
    assert_eq!(map.get(&75), Some(&(0, 0)));
    assert_eq!(map.get(&1), None);
}

#[test]
fn validate_api_version_accepts_and_rejects() {
    let map = build_api_version_map();
    let ok = KafkaHeader::Request(RequestHeader::new(18, 4, 1));
    assert_eq!(validate_api_version(&ok, &map), 0);
    let bad_version = KafkaHeader::Request(RequestHeader::new(18, 99, 1));
    assert_eq!(validate_api_version(&bad_version, &map), 35);
    let unknown_key = KafkaHeader::Request(RequestHeader::new(99, 0, 1));
    assert_eq!(validate_api_version(&unknown_key, &map), 35);
    let response_side = KafkaHeader::Response(ResponseHeader::new(1, 0));
    assert_eq!(validate_api_version(&response_side, &map), 35);
}

#[test]
fn header_version_by_api_key() {
    assert_eq!(find_header_version(18), 0);
    assert_eq!(find_header_version(75), 1);
    assert_eq!(find_header_version(99), 1);
}

#[test]
fn api_versions_request_resolves_to_full_list() {
    let request = ApiVersionsRequest {
        client_software_name: CompactString::new("console".to_string()),
        client_software_version: CompactString::new("1.0".to_string()),
        tagged_fields: TaggedFields::new(None),
    };
    let body = request.process(&[]).unwrap();
    match body {
        KafkaBody::ApiVersionsResponse(response) => {
            assert_eq!(response.error_code, 0);
            assert_eq!(response.throttle_time_ms, 0);
            let keys: Vec<(i16, i16, i16)> = response
                .api_versions
                .iter()
                .map(|a| (a.api_key, a.min_version, a.max_version))
                .collect();
            assert_eq!(keys, vec![(18, 0, 4), (75, 0, 0)]);
        }
        _ => panic!("expected a capability-negotiation response"),
    }
}

#[test]
fn response_bodies_cannot_be_processed() {
    let body = KafkaBody::ApiVersionsResponse(
        kafka_broker::kafka_protocol::ApiVersionsResponse {
            error_code: 0,
            api_versions: vec![],
            throttle_time_ms: 0,
            tagged_fields: TaggedFields::new(None),
        },
    );
    assert!(matches!(body.process(&[]), Err(BrokerError::UnknownError)));
}

#[test]
fn metadata_log_decodes_into_records() {
    let log = orders_log();
    let batches = decode_record_batches(&log).unwrap();
    assert_eq!(batches.len(), 1);
    assert_eq!(batches[0].records.len(), 3);
    match &batches[0].records[0].value {
        RecordValue::TopicRecord(t) => {
            assert_eq!(t.topic_name.data, "orders");
            assert_eq!(t.topic_id, ORDERS_ID.to_vec());
        }
        _ => panic!("expected a topic record"),
    }
    match &batches[0].records[1].value {
        RecordValue::PartitionRecord(p) => {
            assert_eq!(p.partition_id, 0);
            assert_eq!(p.replica_array.data, vec![1, 2]);
            assert_eq!(p.isr_array.data, vec![1]);
            assert_eq!(p.leader, 1);
            assert_eq!(p.leader_epoch, 7);
        }
        _ => panic!("expected a partition record"),
    }
}

#[test]
fn metadata_log_keeps_unknown_record_kinds() {
    let unknown = framed_record(vec![9u8, 0xaa, 0xbb]);
    let log = batch(0, vec![unknown]);
    let batches = decode_record_batches(&log).unwrap();
    assert!(matches!(batches[0].records[0].value, RecordValue::Unknown));
}

#[test]
fn metadata_log_truncated_batch_is_fatal() {
    let mut log = orders_log();
    log.pop();
    assert!(matches!(
        decode_record_batches(&log),
        Err(KafkaError::DecodeError)
    ));
}

#[test]
fn metadata_index_resolves_latest_binding() {
    let other_id: [u8; 16] = [9; 16];
    let log = [
        batch(0, vec![framed_record(topic_record_payload("orders", &ORDERS_ID))]),
        batch(1, vec![framed_record(topic_record_payload("orders", &other_id))]),
    ]
    .concat();
    let batches = decode_record_batches(&log).unwrap();
    let index = MetadataIndex::build(&batches);
    let id = index.topic_id_of(&"orders".to_string()).unwrap();
    assert_eq!(id, other_id.to_vec());
    assert!(index.topic_id_of(&"missing".to_string()).is_none());
}

#[test]
fn describe_scenario_end_to_end() {
    // a log with one topic record ("orders" -> U) and two partition records
    // for U resolves a request for ["orders", "missing"] to one found topic
    // with two partitions and one unknown-topic result echoing the name
    let log = orders_log();
    let request = describe_request(&["orders", "missing"]);
    let body = request.process(&log).unwrap();
    let response = match body {
        KafkaBody::DescribeResponse(r) => r,
        _ => panic!("expected a describe response"),
    };
    assert_eq!(response.throttle_time_ms, 0);
    assert!(response.next_cursor.is_none());
    assert_eq!(response.topics.data.len(), 2);

    let found = &response.topics.data[0];
    assert_eq!(found.error_code, 0);
    assert_eq!(found.name.data.as_ref().unwrap().data, "orders");
    assert_eq!(found.topic_id, ORDERS_ID.to_vec());
    assert_eq!(found.partitions.data.len(), 2);
    assert_eq!(found.partitions.data[0].partition_index, 0);
    assert_eq!(found.partitions.data[0].leader_id, 1);
    assert_eq!(found.partitions.data[0].replica_nodes, vec![1, 2]);
    assert_eq!(found.partitions.data[0].isr_nodes, vec![1]);
    assert!(found.partitions.data[0].eligible_leader_replicas.is_empty());
    assert!(found.partitions.data[0].last_known_elr.is_empty());
    assert_eq!(found.partitions.data[1].partition_index, 1);

    let missing = &response.topics.data[1];
    assert_eq!(missing.error_code, 3);
    assert_eq!(missing.name.data.as_ref().unwrap().data, "missing");
    assert_eq!(missing.topic_id, vec![0u8; 16]);
    assert!(missing.partitions.data.is_empty());
}

#[test]
fn unsupported_api_version_resolves_to_error_35() {
    // a request with api key 18 and api version 99 resolves to error code
    // 35, with the full supported-api list still attached
    let body = ApiVersionsRequest {
        client_software_name: CompactString::new("c".to_string()),
        client_software_version: CompactString::new("1".to_string()),
        tagged_fields: TaggedFields::new(None),
    }
    .encode();
    let bytes = request_bytes(18, 99, 7, body);
    let map = build_api_version_map();
    let response = handle_request(&bytes, &[], &map).unwrap();
    let expected: Vec<u8> = vec![
        0, 0, 0, 26, // size: everything after it
        0, 0, 0, 7, // echoed correlation id, no header tag block
        0, 35, // unsupported-version error code
        3, // api count plus one
        0, 18, 0, 0, 0, 4, 0, // api 18, versions 0..=4, tag block
        0, 75, 0, 0, 0, 0, 0, // api 75, versions 0..=0, tag block
        0, 0, 0, 0, // throttle time
        0, // trailing tag byte of the envelope
    ];
    assert_eq!(response, expected);
}

#[test]
fn unknown_api_key_also_resolves_to_error_35() {
    let bytes = request_bytes(99, 0, 3, vec![]);
    let map = build_api_version_map();
    let response = handle_request(&bytes, &[], &map).unwrap();
    // error code 35 sits right after the echoed correlation id
    assert_eq!(&response[8..10], &[0, 35]);
}

#[test]
fn describe_request_twice_yields_identical_bytes() {
    // the same request against an unchanged log is answered byte for byte
    let log = orders_log();
    let body = describe_request(&["orders", "missing"]).encode();
    let bytes = request_bytes(75, 0, 21, body);
    let map = build_api_version_map();
    let first = handle_request(&bytes, &log, &map).unwrap();
    let second = handle_request(&bytes, &log, &map).unwrap();
    assert_eq!(first, second);
}

#[test]
fn describe_response_echoes_correlation_id_with_header_tag() {
    let log = orders_log();
    let body = describe_request(&["orders"]).encode();
    let bytes = request_bytes(75, 0, 0x0a0b0c0d, body);
    let map = build_api_version_map();
    let response = handle_request(&bytes, &log, &map).unwrap();
    // describe responses use header version 1: correlation id, then one
    // header tag byte
    assert_eq!(&response[4..8], &[0x0a, 0x0b, 0x0c, 0x0d]);
    assert_eq!(response[8], 0);
}

#[test]
fn malformed_request_is_a_decode_error() {
    let map = build_api_version_map();
    assert!(matches!(
        handle_request(&[1, 2], &[], &map),
        Err(KafkaError::DecodeError)
    ));
    // a valid header for api 18 followed by a truncated body
    let bytes = request_bytes(18, 4, 1, vec![0x05, b'a']);
    assert!(matches!(
        handle_request(&bytes, &[], &map),
        Err(KafkaError::DecodeError)
    ));
}

#[test]
fn unreadable_log_fails_the_describe_request_only() {
    let body = describe_request(&["orders"]).encode();
    let bytes = request_bytes(75, 0, 1, body);
    let map = build_api_version_map();
    let garbage_log = vec![1, 2, 3];
    assert!(matches!(
        handle_request(&bytes, &garbage_log, &map),
        Err(KafkaError::BrokerError(BrokerError::UnknownError))
    ));
}

#[test]
fn cursor_is_parsed_and_echoed_absent() {
    // a request carrying a cursor still resolves; the response's next-cursor
    // is always absent in this implementation
    let log = orders_log();
    let request = DescribeTopicPartitionsRequest {
        topics: CompactArray::new(vec![RequestTopic {
            name: CompactString::new("orders".to_string()),
            tagged_fields: TaggedFields::new(None),
        }]),
        response_partition_limit: 1,
        cursor: Some(Cursor {
            topic_name: CompactString::new("orders".to_string()),
            partition_index: 0,
            tagged_fields: TaggedFields::new(None),
        }),
        tagged_fields: TaggedFields::new(None),
    };
    let body = request.process(&log).unwrap();
    match body {
        KafkaBody::DescribeResponse(r) => assert!(r.next_cursor.is_none()),
        _ => panic!("expected a describe response"),
    }
}
