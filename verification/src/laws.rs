//! What the encodings are, stated field by field and byte by byte, and what
//! a read of an encoding gives back, stated field by field.
use vstd::prelude::*;
use vstd::utf8::encode_utf8;

use crate::api::Version;
use crate::describe_groups::{
    group_fits, member_fits, members_fit, groups_fit, describe_request_fits,
    describe_response_fits, lemma_describe_response_roundtrip, parse_describe_response,
    enc_describe_request, enc_describe_response, enc_group, enc_member, group_enc, member_enc,
    DescribedGroupMemberModel, DescribedGroupModel, KfDescribeGroupsRequestModel,
    KfDescribeGroupsResponseModel,
};
use crate::metadata::{
    partitions_fit, topics_fit, brokers_fit, request_topic_fits, request_topics_fit,
    nullable_request_topics_fit,
    broker_fits, lemma_broker_roundtrip, lemma_metadata_request_roundtrip,
    lemma_metadata_response_roundtrip, lemma_partition_roundtrip, lemma_topic_roundtrip,
    metadata_request_fits, metadata_response_fits, parse_broker, parse_metadata_request,
    parse_metadata_response, parse_partition, parse_topic, partition_fits, topic_fits,
    broker_enc, enc_broker, enc_metadata_request, enc_metadata_response, enc_partition,
    enc_request_topic, enc_topic, partition_enc, request_topic_enc, topic_enc,
    KfMetadataRequestModel, KfMetadataResponseModel, MetadataRequestTopicModel,
    MetadataResponseBrokerModel, MetadataResponsePartitionModel, MetadataResponseTopicModel,
};
use crate::wire::{
    string_fits, nullable_string_fits, bytes_fit, array_fits, strings_fit,
    KfError, concat_map, enc_array, enc_bool, enc_bytes, enc_i16, enc_i32, enc_nullable_array,
    enc_nullable_string, enc_string, i32_enc, string_enc,
};

verus! {

// ------------------------------------------------------------- primitives

/// INT16 is two bytes, most significant first, in two's complement.
pub proof fn law_i16_big_endian(v: i16)
    ensures
        enc_i16(v).len() == 2,
        enc_i16(v)[0] * 0x100 + enc_i16(v)[1] == (if v < 0 { v + 0x1_0000 } else { v as int }),
{
}

/// INT32 is four bytes, most significant first, in two's complement.
pub proof fn law_i32_big_endian(v: i32)
    ensures
        enc_i32(v).len() == 4,
        enc_i32(v)[0] * 0x100_0000 + enc_i32(v)[1] * 0x1_0000 + enc_i32(v)[2] * 0x100 + enc_i32(v)[3]
            == (if v < 0 { v + 0x1_0000_0000 } else { v as int }),
{
}

/// BOOLEAN is the single byte 1 or 0.
pub proof fn law_bool_bytes()
    ensures
        enc_bool(true) == seq![1u8],
        enc_bool(false) == seq![0u8],
{
    assert(enc_bool(true) =~= seq![1u8]);
    assert(enc_bool(false) =~= seq![0u8]);
}

/// STRING is its UTF-8 byte count as two big-endian bytes, then the UTF-8
/// bytes.
pub proof fn law_string_layout(s: Seq<char>)
    requires
        encode_utf8(s).len() <= 0x7fff,
    ensures
        enc_string(s).len() == 2 + encode_utf8(s).len(),
        enc_string(s)[0] * 0x100 + enc_string(s)[1] == encode_utf8(s).len(),
        enc_string(s).skip(2) == encode_utf8(s),
{
    let e = enc_string(s);
    let p = enc_i16(encode_utf8(s).len() as i16);
    law_i16_big_endian(encode_utf8(s).len() as i16);
    assert(e[0] == p[0] && e[1] == p[1]);
    assert(e.skip(2) =~= encode_utf8(s));
}

/// A null NULLABLE_STRING is the length -1; a present one is a STRING.
pub proof fn law_nullable_string_layout(s: Seq<char>)
    ensures
        enc_nullable_string(None) == seq![0xffu8, 0xffu8],
        enc_nullable_string(Some(s)) == enc_string(s),
{
    assert(enc_nullable_string(None) =~= seq![0xffu8, 0xffu8]);
}

/// BYTES is the byte count as four big-endian bytes, then the bytes.
pub proof fn law_bytes_layout(b: Seq<u8>)
    requires
        b.len() <= 0x7fff_ffff,
    ensures
        enc_bytes(b).len() == 4 + b.len(),
        enc_bytes(b)[0] * 0x100_0000 + enc_bytes(b)[1] * 0x1_0000 + enc_bytes(b)[2] * 0x100 + enc_bytes(b)[3]
            == b.len(),
        enc_bytes(b).skip(4) == b,
{
    let e = enc_bytes(b);
    let p = enc_i32(b.len() as i32);
    law_i32_big_endian(b.len() as i32);
    assert(e[0] == p[0] && e[1] == p[1] && e[2] == p[2] && e[3] == p[3]);
    assert(e.skip(4) =~= b);
}

/// An ARRAY is the element count as four big-endian bytes, then the
/// elements' encodings in order.
pub proof fn law_array_layout<T>(items: Seq<T>, f: spec_fn(T) -> Seq<u8>)
    requires
        items.len() <= 0x7fff_ffff,
    ensures
        enc_array(items, f).len() == 4 + concat_map(items, f).len(),
        enc_array(items, f)[0] * 0x100_0000 + enc_array(items, f)[1] * 0x1_0000 + enc_array(items, f)[2]
            * 0x100 + enc_array(items, f)[3] == items.len(),
        enc_array(items, f).skip(4) == concat_map(items, f),
{
    let e = enc_array(items, f);
    let p = enc_i32(items.len() as i32);
    law_i32_big_endian(items.len() as i32);
    assert(e[0] == p[0] && e[1] == p[1] && e[2] == p[2] && e[3] == p[3]);
    assert(e.skip(4) =~= concat_map(items, f));
}

/// A null nullable ARRAY is the count -1; a present one is an ARRAY.
pub proof fn law_nullable_array_layout<T>(items: Seq<T>, f: spec_fn(T) -> Seq<u8>)
    ensures
        enc_nullable_array(None, f) == seq![0xffu8, 0xffu8, 0xffu8, 0xffu8],
        enc_nullable_array(Some(items), f) == enc_array(items, f),
{
    assert(enc_nullable_array(None, f) =~= seq![0xffu8, 0xffu8, 0xffu8, 0xffu8]);
}

/// The elements of an array are written one after another, in order: the
/// encoding of one element alone, and of two runs of elements joined.
pub proof fn law_elements_in_order<T>(s: Seq<T>, t: Seq<T>, x: T, f: spec_fn(T) -> Seq<u8>)
    ensures
        concat_map(seq![x], f) == f(x),
        concat_map(s + t, f) == concat_map(s, f) + concat_map(t, f),
    decreases t.len(),
{
    assert(seq![x].drop_last() =~= Seq::<T>::empty());
    assert(concat_map(Seq::<T>::empty(), f) + f(x) =~= f(x));
    if t.len() == 0 {
        assert(s + t =~= s);
        assert(concat_map(s, f) + concat_map(t, f) =~= concat_map(s, f));
    } else {
        law_elements_in_order(s, t.drop_last(), x, f);
        assert((s + t).drop_last() =~= s + t.drop_last());
        assert((s + t).last() == t.last());
        assert(concat_map(s, f) + concat_map(t.drop_last(), f) + f(t.last())
            =~= concat_map(s, f) + (concat_map(t.drop_last(), f) + f(t.last())));
    }
}

// ------------------------------------------------ message layouts, in order

/// A member: member_id, client_id, client_host, member_metadata,
/// member_assignment, in that order, in every version.
pub proof fn law_member_layout(m: DescribedGroupMemberModel, version: Version)
    ensures
        enc_member(m, version) == enc_string(m.member_id) + enc_string(m.client_id) + enc_string(
            m.client_host,
        ) + enc_bytes(m.member_metadata) + enc_bytes(m.member_assignment),
{
    assert(enc_member(m, version) =~= enc_string(m.member_id) + enc_string(m.client_id)
        + enc_string(m.client_host) + enc_bytes(m.member_metadata) + enc_bytes(m.member_assignment));
}

/// A group: error_code, group_id, group_state, protocol_type, protocol_data,
/// then its members, in that order, in every version.
pub proof fn law_group_layout(m: DescribedGroupModel, version: Version)
    ensures
        enc_group(m, version) == enc_i16(m.error_code) + enc_string(m.group_id) + enc_string(
            m.group_state,
        ) + enc_string(m.protocol_type) + enc_string(m.protocol_data) + enc_array(
            m.members,
            member_enc(version),
        ),
{
    assert(enc_group(m, version) =~= enc_i16(m.error_code) + enc_string(m.group_id) + enc_string(
        m.group_state,
    ) + enc_string(m.protocol_type) + enc_string(m.protocol_data) + enc_array(
        m.members,
        member_enc(version),
    ));
}

/// A DescribeGroups request: the array of group names, in every version.
pub proof fn law_describe_request_layout(m: KfDescribeGroupsRequestModel, version: Version)
    ensures
        enc_describe_request(m, version) == enc_array(m.groups, string_enc()),
{
}

/// A DescribeGroups response: throttle_time_ms from version 1, then the groups.
pub proof fn law_describe_response_layout(m: KfDescribeGroupsResponseModel, version: Version)
    ensures
        version >= 1 ==> enc_describe_response(m, version) == enc_i32(m.throttle_time_ms) + enc_array(
            m.groups,
            group_enc(version),
        ),
        version < 1 ==> enc_describe_response(m, version) == enc_array(m.groups, group_enc(version)),
{
    assert(Seq::<u8>::empty() + enc_array(m.groups, group_enc(version)) =~= enc_array(
        m.groups,
        group_enc(version),
    ));
}

/// A partition: error_code, partition_index, leader_id, leader_epoch (from
/// version 7), replica_nodes, isr_nodes, offline_replicas (from version 5),
/// in that order.
pub proof fn law_partition_layout(m: MetadataResponsePartitionModel, version: Version)
    ensures
        enc_partition(m, version) == enc_i16(m.error_code) + enc_i32(m.partition_index) + enc_i32(
            m.leader_id,
        ) + (if version >= 7 { enc_i32(m.leader_epoch) } else { Seq::empty() }) + enc_array(
            m.replica_nodes,
            i32_enc(),
        ) + enc_array(m.isr_nodes, i32_enc()) + (if version >= 5 {
            enc_array(m.offline_replicas, i32_enc())
        } else {
            Seq::empty()
        }),
{
    assert(enc_partition(m, version) =~= enc_i16(m.error_code) + enc_i32(m.partition_index)
        + enc_i32(m.leader_id) + (if version >= 7 { enc_i32(m.leader_epoch) } else { Seq::empty() })
        + enc_array(m.replica_nodes, i32_enc()) + enc_array(m.isr_nodes, i32_enc()) + (if version
        >= 5 {
        enc_array(m.offline_replicas, i32_enc())
    } else {
        Seq::empty()
    }));
}

/// A topic: error_code, name, is_internal (from version 1), then its
/// partitions, in that order.
pub proof fn law_topic_layout(m: MetadataResponseTopicModel, version: Version)
    ensures
        enc_topic(m, version) == enc_i16(m.error_code) + enc_string(m.name) + (if version >= 1 {
            enc_bool(m.is_internal)
        } else {
            Seq::empty()
        }) + enc_array(m.partitions, partition_enc(version)),
{
    assert(enc_topic(m, version) =~= enc_i16(m.error_code) + enc_string(m.name) + (if version
        >= 1 {
        enc_bool(m.is_internal)
    } else {
        Seq::empty()
    }) + enc_array(m.partitions, partition_enc(version)));
}

/// A broker: node_id, host, port, rack (from version 1), in that order.
pub proof fn law_broker_layout(m: MetadataResponseBrokerModel, version: Version)
    ensures
        enc_broker(m, version) == enc_i32(m.node_id) + enc_string(m.host) + enc_i32(m.port) + (if version
            >= 1 {
            enc_nullable_string(m.rack)
        } else {
            Seq::empty()
        }),
{
    assert(enc_broker(m, version) =~= enc_i32(m.node_id) + enc_string(m.host) + enc_i32(m.port)
        + (if version >= 1 { enc_nullable_string(m.rack) } else { Seq::empty() }));
}

/// A requested topic: its name, in every version.
pub proof fn law_request_topic_layout(m: MetadataRequestTopicModel, version: Version)
    ensures
        enc_request_topic(m, version) == enc_string(m.name),
{
}

/// A Metadata request: the nullable array of topics, then
/// allow_auto_topic_creation from version 4.
pub proof fn law_metadata_request_layout(m: KfMetadataRequestModel, version: Version)
    ensures
        enc_metadata_request(m, version) == enc_nullable_array(m.topics, request_topic_enc(version))
            + (if version >= 4 { enc_bool(m.allow_auto_topic_creation) } else { Seq::empty() }),
{
}

/// A Metadata response: throttle_time_ms (from version 3), brokers,
/// cluster_id (from version 2), controller_id (from version 1), topics, in
/// that order.
pub proof fn law_metadata_response_layout(m: KfMetadataResponseModel, version: Version)
    ensures
        enc_metadata_response(m, version) == (if version >= 3 {
            enc_i32(m.throttle_time_ms)
        } else {
            Seq::empty()
        }) + enc_array(m.brokers, broker_enc(version)) + (if version >= 2 {
            enc_nullable_string(m.cluster_id)
        } else {
            Seq::empty()
        }) + (if version >= 1 { enc_i32(m.controller_id) } else { Seq::empty() }) + enc_array(
            m.topics,
            topic_enc(version),
        ),
{
    assert(enc_metadata_response(m, version) =~= (if version >= 3 {
        enc_i32(m.throttle_time_ms)
    } else {
        Seq::empty()
    }) + enc_array(m.brokers, broker_enc(version)) + (if version >= 2 {
        enc_nullable_string(m.cluster_id)
    } else {
        Seq::empty()
    }) + (if version >= 1 { enc_i32(m.controller_id) } else { Seq::empty() }) + enc_array(
        m.topics,
        topic_enc(version),
    ));
}


// ------------------------------------- what reading back an encoding gives

/// Reading back a DescribeGroups response written at `version` into `base`:
/// throttle_time_ms is read from version 1 and kept from `base` before; the
/// groups are the ones written; all the written bytes are taken.
pub proof fn law_describe_response_decode(
    m: KfDescribeGroupsResponseModel,
    base: KfDescribeGroupsResponseModel,
    version: Version,
    rest: Seq<u8>,
)
    requires
        describe_response_fits(m, version),
    ensures
        parse_describe_response(base, enc_describe_response(m, version) + rest, version)
            == Ok::<(KfDescribeGroupsResponseModel, nat), KfError>((
            KfDescribeGroupsResponseModel {
                throttle_time_ms: if version >= 1 { m.throttle_time_ms } else { base.throttle_time_ms },
                groups: m.groups,
            },
            enc_describe_response(m, version).len(),
        )),
{
    lemma_describe_response_roundtrip(m, base, version, rest);
}

/// Reading back a partition written at `version` into `base`: every field
/// as written, except leader_epoch before version 7 and offline_replicas
/// before version 5, which keep their values in `base`.
pub proof fn law_partition_decode(
    m: MetadataResponsePartitionModel,
    base: MetadataResponsePartitionModel,
    version: Version,
    rest: Seq<u8>,
)
    requires
        partition_fits(m, version),
    ensures
        parse_partition(base, enc_partition(m, version) + rest, version)
            == Ok::<(MetadataResponsePartitionModel, nat), KfError>((
            MetadataResponsePartitionModel {
                error_code: m.error_code,
                partition_index: m.partition_index,
                leader_id: m.leader_id,
                leader_epoch: if version >= 7 { m.leader_epoch } else { base.leader_epoch },
                replica_nodes: m.replica_nodes,
                isr_nodes: m.isr_nodes,
                offline_replicas: if version >= 5 { m.offline_replicas } else { base.offline_replicas },
            },
            enc_partition(m, version).len(),
        )),
{
    lemma_partition_roundtrip(m, base, version, rest);
}

/// Reading back a broker written at `version` into `base`: every field as
/// written, except rack before version 1, which keeps its value in `base`.
pub proof fn law_broker_decode(
    m: MetadataResponseBrokerModel,
    base: MetadataResponseBrokerModel,
    version: Version,
    rest: Seq<u8>,
)
    requires
        broker_fits(m, version),
    ensures
        parse_broker(base, enc_broker(m, version) + rest, version)
            == Ok::<(MetadataResponseBrokerModel, nat), KfError>((
            MetadataResponseBrokerModel {
                node_id: m.node_id,
                host: m.host,
                port: m.port,
                rack: if version >= 1 { m.rack } else { base.rack },
            },
            enc_broker(m, version).len(),
        )),
{
    lemma_broker_roundtrip(m, base, version, rest);
}

/// Reading back a topic written at `version` into `base`: error_code and
/// name as written, is_internal as written from version 1 and kept from
/// `base` before, and each partition as written, read into a fresh one
/// (leader_epoch 0 before version 7, no offline replicas before version 5).
pub proof fn law_topic_decode(
    m: MetadataResponseTopicModel,
    base: MetadataResponseTopicModel,
    version: Version,
    rest: Seq<u8>,
)
    requires
        topic_fits(m, version),
    ensures
        parse_topic(base, enc_topic(m, version) + rest, version) matches Ok((d, n)) && {
            &&& n == enc_topic(m, version).len()
            &&& d.error_code == m.error_code
            &&& d.name == m.name
            &&& d.is_internal == (if version >= 1 { m.is_internal } else { base.is_internal })
            &&& d.partitions.len() == m.partitions.len()
            &&& forall|i: int| 0 <= i < m.partitions.len() ==> #[trigger] d.partitions[i]
                == (MetadataResponsePartitionModel {
                error_code: m.partitions[i].error_code,
                partition_index: m.partitions[i].partition_index,
                leader_id: m.partitions[i].leader_id,
                leader_epoch: if version >= 7 { m.partitions[i].leader_epoch } else { 0 },
                replica_nodes: m.partitions[i].replica_nodes,
                isr_nodes: m.partitions[i].isr_nodes,
                offline_replicas: if version >= 5 { m.partitions[i].offline_replicas } else { Seq::empty() },
            })
        },
{
    lemma_topic_roundtrip(m, base, version, rest);
}

/// Reading back a Metadata request written at `version` into `base`: the
/// topics as written (null stays null), allow_auto_topic_creation as
/// written from version 4 and kept from `base` before.
pub proof fn law_metadata_request_decode(
    m: KfMetadataRequestModel,
    base: KfMetadataRequestModel,
    version: Version,
    rest: Seq<u8>,
)
    requires
        metadata_request_fits(m, version),
    ensures
        parse_metadata_request(base, enc_metadata_request(m, version) + rest, version)
            == Ok::<(KfMetadataRequestModel, nat), KfError>((
            KfMetadataRequestModel {
                topics: m.topics,
                allow_auto_topic_creation: if version >= 4 {
                    m.allow_auto_topic_creation
                } else {
                    base.allow_auto_topic_creation
                },
            },
            enc_metadata_request(m, version).len(),
        )),
{
    lemma_metadata_request_roundtrip(m, base, version, rest);
}

/// Reading back a Metadata response written at `version` into `base`:
/// throttle_time_ms from version 3, cluster_id from version 2 and
/// controller_id from version 1 are as written, and kept from `base` in
/// earlier versions; each broker is as written (no rack before version 1),
/// and each topic is as written (not internal before version 1), its
/// partitions read into fresh ones.
pub proof fn law_metadata_response_decode(
    m: KfMetadataResponseModel,
    base: KfMetadataResponseModel,
    version: Version,
    rest: Seq<u8>,
)
    requires
        metadata_response_fits(m, version),
    ensures
        parse_metadata_response(base, enc_metadata_response(m, version) + rest, version) matches Ok((d, n))
            && {
            &&& n == enc_metadata_response(m, version).len()
            &&& d.throttle_time_ms == (if version >= 3 { m.throttle_time_ms } else { base.throttle_time_ms })
            &&& d.cluster_id == (if version >= 2 { m.cluster_id } else { base.cluster_id })
            &&& d.controller_id == (if version >= 1 { m.controller_id } else { base.controller_id })
            &&& d.brokers.len() == m.brokers.len()
            &&& forall|i: int| 0 <= i < m.brokers.len() ==> #[trigger] d.brokers[i]
                == (MetadataResponseBrokerModel {
                node_id: m.brokers[i].node_id,
                host: m.brokers[i].host,
                port: m.brokers[i].port,
                rack: if version >= 1 { m.brokers[i].rack } else { None },
            })
            &&& d.topics.len() == m.topics.len()
            &&& forall|i: int| 0 <= i < m.topics.len() ==> {
                &&& (#[trigger] d.topics[i]).error_code == m.topics[i].error_code
                &&& d.topics[i].name == m.topics[i].name
                &&& d.topics[i].is_internal == (version >= 1 && m.topics[i].is_internal)
                &&& d.topics[i].partitions.len() == m.topics[i].partitions.len()
                &&& forall|j: int| 0 <= j < m.topics[i].partitions.len() ==> #[trigger] d.topics[i].partitions[j]
                    == (MetadataResponsePartitionModel {
                    error_code: m.topics[i].partitions[j].error_code,
                    partition_index: m.topics[i].partitions[j].partition_index,
                    leader_id: m.topics[i].partitions[j].leader_id,
                    leader_epoch: if version >= 7 { m.topics[i].partitions[j].leader_epoch } else { 0 },
                    replica_nodes: m.topics[i].partitions[j].replica_nodes,
                    isr_nodes: m.topics[i].partitions[j].isr_nodes,
                    offline_replicas: if version >= 5 {
                        m.topics[i].partitions[j].offline_replicas
                    } else {
                        Seq::empty()
                    },
                })
            }
        },
{
    lemma_metadata_response_roundtrip(m, base, version, rest);
}


// ------------------------------------------------------- when encoding fits

/// A string is refused exactly when its UTF-8 bytes are more than 32767; a
/// null string always fits.
pub proof fn law_string_fits(s: Seq<char>)
    ensures
        string_fits(s) <==> encode_utf8(s).len() <= 32767,
        nullable_string_fits(Some(s)) <==> encode_utf8(s).len() <= 32767,
        nullable_string_fits(None),
{
}

/// Byte strings and arrays are refused exactly when they hold more than
/// `i32::MAX` bytes or elements; an array of strings also when one of its
/// strings is refused.
pub proof fn law_bytes_and_arrays_fit<T>(b: Seq<u8>, items: Seq<T>, strs: Seq<Seq<char>>)
    ensures
        bytes_fit(b) <==> b.len() <= 0x7fff_ffff,
        array_fits(items) <==> items.len() <= 0x7fff_ffff,
        strings_fit(strs) <==> strs.len() <= 0x7fff_ffff && forall|i: int|
            0 <= i < strs.len() ==> encode_utf8(#[trigger] strs[i]).len() <= 32767,
{
}

/// What must fit for the DescribeGroups messages: every string and byte
/// string, every array, at any version.
pub proof fn law_describe_groups_fit(
    m: DescribedGroupMemberModel,
    g: DescribedGroupModel,
    req: KfDescribeGroupsRequestModel,
    resp: KfDescribeGroupsResponseModel,
    version: Version,
)
    ensures
        member_fits(m, version) <==> string_fits(m.member_id) && string_fits(m.client_id) && string_fits(
            m.client_host,
        ) && bytes_fit(m.member_metadata) && bytes_fit(m.member_assignment),
        members_fit(g.members, version) <==> array_fits(g.members) && forall|i: int|
            0 <= i < g.members.len() ==> member_fits(#[trigger] g.members[i], version),
        group_fits(g, version) <==> string_fits(g.group_id) && string_fits(g.group_state) && string_fits(
            g.protocol_type,
        ) && string_fits(g.protocol_data) && members_fit(g.members, version),
        groups_fit(resp.groups, version) <==> array_fits(resp.groups) && forall|i: int|
            0 <= i < resp.groups.len() ==> group_fits(#[trigger] resp.groups[i], version),
        describe_request_fits(req, version) <==> strings_fit(req.groups),
        describe_response_fits(resp, version) <==> groups_fit(resp.groups, version),
{
}

/// What must fit for the Metadata messages: a field matters only at the
/// versions that carry it.
pub proof fn law_metadata_fit(
    p: MetadataResponsePartitionModel,
    t: MetadataResponseTopicModel,
    k: MetadataResponseBrokerModel,
    rt: MetadataRequestTopicModel,
    req: KfMetadataRequestModel,
    resp: KfMetadataResponseModel,
    version: Version,
)
    ensures
        partition_fits(p, version) <==> array_fits(p.replica_nodes) && array_fits(p.isr_nodes) && (
        version >= 5 ==> array_fits(p.offline_replicas)),
        partitions_fit(t.partitions, version) <==> array_fits(t.partitions) && forall|i: int|
            0 <= i < t.partitions.len() ==> partition_fits(#[trigger] t.partitions[i], version),
        topic_fits(t, version) <==> string_fits(t.name) && partitions_fit(t.partitions, version),
        broker_fits(k, version) <==> string_fits(k.host) && (version >= 1 ==> nullable_string_fits(k.rack)),
        request_topic_fits(rt, version) <==> string_fits(rt.name),
        metadata_request_fits(req, version) <==> nullable_request_topics_fit(req.topics, version),
        nullable_request_topics_fit(req.topics, version) <==> match req.topics {
            None => true,
            Some(s) => request_topics_fit(s, version),
        },
        metadata_response_fits(resp, version) <==> brokers_fit(resp.brokers, version) && (version >= 2
            ==> nullable_string_fits(resp.cluster_id)) && topics_fit(resp.topics, version),
        brokers_fit(resp.brokers, version) <==> array_fits(resp.brokers) && forall|i: int|
            0 <= i < resp.brokers.len() ==> broker_fits(#[trigger] resp.brokers[i], version),
        topics_fit(resp.topics, version) <==> array_fits(resp.topics) && forall|i: int|
            0 <= i < resp.topics.len() ==> topic_fits(#[trigger] resp.topics[i], version),
{
}

} // verus!
