use kf_protocol_message::api::Request;
use kf_protocol_message::metadata::{
    KfMetadataRequest, KfMetadataResponse, MetadataRequestTopic, MetadataResponseBroker,
    MetadataResponsePartition, MetadataResponseTopic,
};
use kf_protocol_message::wire::KfError;

fn partition() -> MetadataResponsePartition {
    MetadataResponsePartition {
        error_code: 0,
        partition_index: 2,
        leader_id: 5001,
        leader_epoch: 9,
        replica_nodes: vec![5001, 5002],
        isr_nodes: vec![5001],
        offline_replicas: vec![5003],
    }
}

fn response() -> KfMetadataResponse {
    KfMetadataResponse {
        throttle_time_ms: 10,
        brokers: vec![MetadataResponseBroker {
            node_id: 5001,
            host: "localhost".to_string(),
            port: 9092,
            rack: Some("r1".to_string()),
        }],
        cluster_id: Some("cluster".to_string()),
        controller_id: 5001,
        topics: vec![MetadataResponseTopic {
            error_code: 0,
            name: "test".to_string(),
            is_internal: true,
            partitions: vec![partition()],
        }],
    }
}

#[test]
fn metadata_request_constants() {
    assert_eq!(KfMetadataRequest::API_KEY, 3);
    assert_eq!(KfMetadataRequest::MIN_API_VERSION, 0);
    assert_eq!(KfMetadataRequest::MAX_API_VERSION, 7);
    assert_eq!(KfMetadataRequest::DEFAULT_API_VERSION, 7);
}

#[test]
fn metadata_request_null_topics() {
    let req = KfMetadataRequest { topics: None, allow_auto_topic_creation: true };
    let mut v0 = Vec::new();
    req.encode(&mut v0, 0).unwrap();
    assert_eq!(v0, vec![0xff, 0xff, 0xff, 0xff]);
    let mut v4 = Vec::new();
    req.encode(&mut v4, 4).unwrap();
    assert_eq!(v4, vec![0xff, 0xff, 0xff, 0xff, 1]);
    let mut back = KfMetadataRequest::default();
    assert_eq!(back.decode(&v4, 4), Ok(5));
    assert!(back.topics.is_none());
    assert!(back.allow_auto_topic_creation);
}

#[test]
fn metadata_request_with_topics() {
    let req = KfMetadataRequest {
        topics: Some(vec![MetadataRequestTopic { name: "ab".to_string() }]),
        allow_auto_topic_creation: false,
    };
    let mut out = Vec::new();
    req.encode(&mut out, 7).unwrap();
    assert_eq!(out, vec![0, 0, 0, 1, 0, 2, b'a', b'b', 0]);
    let mut back = KfMetadataRequest::default();
    back.allow_auto_topic_creation = true;
    assert_eq!(back.decode(&out, 3), Ok(8));
    assert_eq!(back.topics.as_ref().unwrap()[0].name, "ab");
    // version 3 does not carry the flag, so it keeps its value
    assert!(back.allow_auto_topic_creation);
}

#[test]
fn metadata_request_negative_count_other_than_minus_one() {
    let mut back = KfMetadataRequest::default();
    assert_eq!(back.decode(&[0xff, 0xff, 0xff, 0xfe], 0), Err(KfError::InvalidLength));
}

#[test]
fn partition_bytes_by_version() {
    let mut v0 = Vec::new();
    partition().encode(&mut v0, 0).unwrap();
    assert_eq!(
        v0,
        vec![0, 0, 0, 0, 0, 2, 0, 0, 0x13, 0x89, 0, 0, 0, 2, 0, 0, 0x13, 0x89, 0, 0, 0x13, 0x8a, 0, 0, 0, 1, 0, 0, 0x13, 0x89]
    );
    let mut v7 = Vec::new();
    partition().encode(&mut v7, 7).unwrap();
    assert_eq!(v7.len(), v0.len() + 4 + 8);
    let mut back = MetadataResponsePartition::default();
    assert_eq!(back.decode(&v7, 7), Ok(v7.len()));
    assert_eq!(back.leader_epoch, 9);
    assert_eq!(back.offline_replicas, vec![5003]);
    let mut back0 = MetadataResponsePartition::default();
    assert_eq!(back0.decode(&v0, 0), Ok(v0.len()));
    assert_eq!(back0.leader_epoch, 0);
    assert!(back0.offline_replicas.is_empty());
    assert_eq!(back0.replica_nodes, vec![5001, 5002]);
}

#[test]
fn metadata_response_roundtrip_every_version() {
    for version in 0..=7i16 {
        let mut out = Vec::new();
        response().encode(&mut out, version).unwrap();
        let mut back = KfMetadataResponse::default();
        assert_eq!(back.decode(&out, version), Ok(out.len()));
        assert_eq!(back.throttle_time_ms, if version >= 3 { 10 } else { 0 });
        assert_eq!(back.cluster_id, if version >= 2 { Some("cluster".to_string()) } else { None });
        assert_eq!(back.controller_id, if version >= 1 { 5001 } else { 0 });
        assert_eq!(back.brokers.len(), 1);
        assert_eq!(back.brokers[0].host, "localhost");
        assert_eq!(back.brokers[0].port, 9092);
        assert_eq!(back.brokers[0].rack, if version >= 1 { Some("r1".to_string()) } else { None });
        let t = &back.topics[0];
        assert_eq!(t.name, "test");
        assert_eq!(t.is_internal, version >= 1);
        let p = &t.partitions[0];
        assert_eq!(p.leader_id, 5001);
        assert_eq!(p.leader_epoch, if version >= 7 { 9 } else { 0 });
        assert_eq!(p.isr_nodes, vec![5001]);
        assert_eq!(p.offline_replicas, if version >= 5 { vec![5003] } else { vec![] });
    }
}

#[test]
fn metadata_response_decode_with_trailing_bytes() {
    let mut out = Vec::new();
    response().encode(&mut out, 7).unwrap();
    let len = out.len();
    out.extend_from_slice(&[1, 2, 3]);
    let mut back = KfMetadataResponse::default();
    assert_eq!(back.decode(&out, 7), Ok(len));
}

#[test]
fn metadata_response_truncated_is_eof_and_unchanged() {
    let mut out = Vec::new();
    response().encode(&mut out, 7).unwrap();
    out.truncate(out.len() - 1);
    let mut back = KfMetadataResponse::default();
    back.controller_id = 42;
    assert_eq!(back.decode(&out, 7), Err(KfError::UnexpectedEof));
    assert_eq!(back.controller_id, 42);
    assert!(back.topics.is_empty());
}

#[test]
fn invalid_utf8_host_is_refused() {
    // node_id, host of length 1 holding 0xff
    let bytes = vec![0, 0, 0, 1, 0, 1, 0xff, 0, 0, 0, 1];
    let mut b = MetadataResponseBroker::default();
    assert_eq!(b.decode(&bytes, 0), Err(KfError::InvalidUtf8));
    assert!(b.host.is_empty());
}

#[test]
fn rack_too_long_only_matters_when_written() {
    let broker = MetadataResponseBroker {
        node_id: 1,
        host: "h".to_string(),
        port: 2,
        rack: Some("r".repeat(33000)),
    };
    let mut v0 = Vec::new();
    assert_eq!(broker.encode(&mut v0, 0), Ok(()));
    let mut v1 = Vec::new();
    assert_eq!(broker.encode(&mut v1, 1), Err(KfError::TooLong));
    assert!(v1.is_empty());
}

#[test]
fn boolean_reads_any_nonzero_as_true() {
    // error_code 0, name "t", is_internal byte 7, no partitions
    let bytes = vec![0, 0, 0, 1, b't', 7, 0, 0, 0, 0];
    let mut t = MetadataResponseTopic::default();
    assert_eq!(t.decode(&bytes, 1), Ok(10));
    assert!(t.is_internal);
}
