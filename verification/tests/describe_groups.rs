use kf_protocol_message::api::Request;
use kf_protocol_message::describe_groups::{
    DescribedGroup, DescribedGroupMember, KfDescribeGroupsRequest, KfDescribeGroupsResponse,
};
use kf_protocol_message::wire::KfError;

fn member() -> DescribedGroupMember {
    DescribedGroupMember {
        member_id: "m-1".to_string(),
        client_id: "c".to_string(),
        client_host: "/10.0.0.1".to_string(),
        member_metadata: vec![0, 1, 2],
        member_assignment: vec![],
    }
}

fn group() -> DescribedGroup {
    DescribedGroup {
        error_code: 0,
        group_id: "g".to_string(),
        group_state: "Stable".to_string(),
        protocol_type: "consumer".to_string(),
        protocol_data: "range".to_string(),
        members: vec![member(), member()],
    }
}

#[test]
fn describe_groups_request_constants() {
    assert_eq!(KfDescribeGroupsRequest::API_KEY, 15);
    assert_eq!(KfDescribeGroupsRequest::MIN_API_VERSION, 0);
    assert_eq!(KfDescribeGroupsRequest::MAX_API_VERSION, 2);
    assert_eq!(KfDescribeGroupsRequest::DEFAULT_API_VERSION, 2);
}

#[test]
fn describe_groups_request_bytes() {
    let req = KfDescribeGroupsRequest { groups: vec!["g1".to_string()] };
    let mut out = Vec::new();
    req.encode(&mut out, 2).unwrap();
    assert_eq!(out, vec![0, 0, 0, 1, 0, 2, b'g', b'1']);
    let mut back = KfDescribeGroupsRequest::default();
    assert_eq!(back.decode(&out, 2), Ok(8));
    assert_eq!(back.groups, vec!["g1".to_string()]);
}

#[test]
fn member_bytes() {
    let mut out = Vec::new();
    member().encode(&mut out, 0).unwrap();
    let expected: Vec<u8> = vec![
        0, 3, b'm', b'-', b'1', 0, 1, b'c', 0, 9, b'/', b'1', b'0', b'.', b'0', b'.', b'0', b'.', b'1',
        0, 0, 0, 3, 0, 1, 2, 0, 0, 0, 0,
    ];
    assert_eq!(out, expected);
}

#[test]
fn describe_groups_response_roundtrip_every_version() {
    for version in 0..=2i16 {
        let resp = KfDescribeGroupsResponse { throttle_time_ms: 250, groups: vec![group()] };
        let mut out = Vec::new();
        resp.encode(&mut out, version).unwrap();
        let mut back = KfDescribeGroupsResponse::default();
        let n = back.decode(&out, version).unwrap();
        assert_eq!(n, out.len());
        let expected_throttle = if version >= 1 { 250 } else { 0 };
        assert_eq!(back.throttle_time_ms, expected_throttle);
        assert_eq!(back.groups.len(), 1);
        let g = &back.groups[0];
        assert_eq!(g.group_state, "Stable");
        assert_eq!(g.protocol_type, "consumer");
        assert_eq!(g.protocol_data, "range");
        assert_eq!(g.members.len(), 2);
        assert_eq!(g.members[1].member_id, "m-1");
        assert_eq!(g.members[1].client_host, "/10.0.0.1");
        assert_eq!(g.members[1].member_metadata, vec![0, 1, 2]);
        assert!(g.members[1].member_assignment.is_empty());
    }
}

#[test]
fn throttle_time_is_written_from_version_one() {
    let resp = KfDescribeGroupsResponse { throttle_time_ms: 7, groups: vec![] };
    let mut v0 = Vec::new();
    resp.encode(&mut v0, 0).unwrap();
    assert_eq!(v0, vec![0, 0, 0, 0]);
    let mut v1 = Vec::new();
    resp.encode(&mut v1, 1).unwrap();
    assert_eq!(v1, vec![0, 0, 0, 7, 0, 0, 0, 0]);
}

#[test]
fn field_absent_in_version_keeps_its_value() {
    let mut resp = KfDescribeGroupsResponse { throttle_time_ms: 55, groups: vec![] };
    assert_eq!(resp.decode(&[0, 0, 0, 1, 0xff, 0xff, 0, 0, 0, 0, 0, 0, 0, 0, 0, 0, 0, 0], 0), Ok(18));
    assert_eq!(resp.throttle_time_ms, 55);
    assert_eq!(resp.groups.len(), 1);
    assert_eq!(resp.groups[0].error_code, -1);
}

#[test]
fn failed_decode_leaves_message_unchanged() {
    let mut resp = KfDescribeGroupsResponse { throttle_time_ms: 3, groups: vec![group()] };
    // count 1, then a group cut short
    assert_eq!(resp.decode(&[0, 0, 0, 9, 0, 0, 0, 1, 0], 1), Err(KfError::UnexpectedEof));
    assert_eq!(resp.throttle_time_ms, 3);
    assert_eq!(resp.groups.len(), 1);
}

#[test]
fn too_long_member_field_is_refused_and_nothing_written() {
    let mut m = member();
    m.client_id = "x".repeat(40000);
    let mut g = group();
    g.members = vec![member(), m];
    let resp = KfDescribeGroupsResponse { throttle_time_ms: 1, groups: vec![g] };
    let mut out = vec![1u8, 2, 3];
    assert_eq!(resp.encode(&mut out, 2), Err(KfError::TooLong));
    assert_eq!(out, vec![1u8, 2, 3]);
}

#[test]
fn defaults_are_empty() {
    let g = DescribedGroup::default();
    assert_eq!(g.error_code, 0);
    assert!(g.group_id.is_empty() && g.members.is_empty());
    let r = KfDescribeGroupsResponse::default();
    assert_eq!(r.throttle_time_ms, 0);
    assert!(r.groups.is_empty());
    let m = DescribedGroupMember::default();
    assert!(m.member_metadata.is_empty() && m.member_id.is_empty());
}
