//! The Metadata request and response.
use vstd::prelude::*;

use crate::api::{ErrorCode, Request, Version};
use crate::wire::{
    array_fits, concat_map, enc_array, enc_bool, enc_i16, enc_i32, enc_nullable_array,
    enc_nullable_string, enc_string, extends, gated, get_bool, get_i16, get_i32, get_i32_array,
    get_nullable_string, get_string, i32_enc, i32_parse, lemma_array_roundtrip,
    lemma_bool_roundtrip, lemma_concat_map_push, lemma_i16_roundtrip, lemma_i32_array_roundtrip,
    lemma_i32_roundtrip, lemma_items_err_persists, lemma_nullable_array_not_null,
    lemma_nullable_string_roundtrip, lemma_skip_skip, lemma_split, lemma_string_roundtrip, lift,
    nullable_string_fits, parse_array, parse_bool, parse_i16, parse_i32, parse_items,
    parse_nullable_array, parse_nullable_string, parse_string, parse_when, put_bool, put_i16,
    put_i32, put_i32_array, put_nullable_string, put_string, string_fits, KfError,
};

verus! {

// -----------------------------------
// MetadataResponsePartition
// -----------------------------------

#[derive(Debug)]
pub struct MetadataResponsePartition {
    /// The partition error, or 0 if there was no error.
    pub error_code: ErrorCode,
    /// The partition index.
    pub partition_index: i32,
    /// The ID of the leader broker.
    pub leader_id: i32,
    /// The leader epoch of this partition.
    pub leader_epoch: i32,
    /// The set of all nodes that host this partition.
    pub replica_nodes: Vec<i32>,
    /// The set of nodes that are in sync with the leader for this partition.
    pub isr_nodes: Vec<i32>,
    /// The set of offline replicas of this partition.
    pub offline_replicas: Vec<i32>,
}

/// What a `MetadataResponsePartition` holds: strings as their characters, vectors as sequences.
pub struct MetadataResponsePartitionModel {
    pub error_code: i16,
    pub partition_index: i32,
    pub leader_id: i32,
    pub leader_epoch: i32,
    pub replica_nodes: Seq<i32>,
    pub isr_nodes: Seq<i32>,
    pub offline_replicas: Seq<i32>,
}

impl DeepView for MetadataResponsePartition {
    type V = MetadataResponsePartitionModel;

    open spec fn deep_view(&self) -> MetadataResponsePartitionModel {
        MetadataResponsePartitionModel {
            error_code: self.error_code,
            partition_index: self.partition_index,
            leader_id: self.leader_id,
            leader_epoch: self.leader_epoch,
            replica_nodes: self.replica_nodes@,
            isr_nodes: self.isr_nodes@,
            offline_replicas: self.offline_replicas@,
        }
    }
}

/// The value a default `MetadataResponsePartition` holds.
pub open spec fn partition_default() -> MetadataResponsePartitionModel {
    MetadataResponsePartitionModel {
        error_code: 0,
        partition_index: 0,
        leader_id: 0,
        leader_epoch: 0,
        replica_nodes: Seq::empty(),
        isr_nodes: Seq::empty(),
        offline_replicas: Seq::empty(),
    }
}

/// `leader_epoch` is on the wire from version 7.
pub open spec fn has_leader_epoch(version: Version) -> bool {
    version >= 7
}

/// `offline_replicas` is on the wire from version 5.
pub open spec fn has_offline_replicas(version: Version) -> bool {
    version >= 5
}

/// Every string, byte string and array that `version` carries fits its
/// length prefix.
pub open spec fn partition_fits(m: MetadataResponsePartitionModel, version: Version) -> bool {
    &&& array_fits(m.replica_nodes)
    &&& array_fits(m.isr_nodes)
    &&& has_offline_replicas(version) ==> array_fits(m.offline_replicas)
}

/// Fields in order: INT16 error_code, INT32 partition_index, INT32 leader_id,
/// INT32 leader_epoch (from version 7), ARRAY of INT32 replica_nodes, ARRAY
/// of INT32 isr_nodes, ARRAY of INT32 offline_replicas (from version 5).
pub open spec fn enc_partition(m: MetadataResponsePartitionModel, version: Version) -> Seq<u8> {
    enc_i16(m.error_code)
        + (enc_i32(m.partition_index)
        + (enc_i32(m.leader_id)
        + (gated(has_leader_epoch(version), enc_i32(m.leader_epoch))
        + (enc_array(m.replica_nodes, i32_enc())
        + (enc_array(m.isr_nodes, i32_enc())
        + gated(has_offline_replicas(version), enc_array(m.offline_replicas, i32_enc())))))))
}

/// Reading into `base`: a field that `version` does not carry keeps the
/// value it has in `base`.
pub open spec fn parse_partition(
    base: MetadataResponsePartitionModel,
    b: Seq<u8>,
    version: Version,
) -> Result<(MetadataResponsePartitionModel, nat), KfError> {
    match parse_i16(b) {
        Err(e) => Err(e),
        Ok((error_code, n1)) => {
            let b1 = b.skip(n1 as int);
            match parse_i32(b1) {
                Err(e) => Err(e),
                Ok((partition_index, n2)) => {
                    let b2 = b1.skip(n2 as int);
                    match parse_i32(b2) {
                        Err(e) => Err(e),
                        Ok((leader_id, n3)) => {
                            let b3 = b2.skip(n3 as int);
                            match parse_when(has_leader_epoch(version), base.leader_epoch, parse_i32(b3)) {
                                Err(e) => Err(e),
                                Ok((leader_epoch, n4)) => {
                                    let b4 = b3.skip(n4 as int);
                                    match parse_array(b4, i32_parse()) {
                                        Err(e) => Err(e),
                                        Ok((replica_nodes, n5)) => {
                                            let b5 = b4.skip(n5 as int);
                                            match parse_array(b5, i32_parse()) {
                                                Err(e) => Err(e),
                                                Ok((isr_nodes, n6)) => {
                                                    let b6 = b5.skip(n6 as int);
                                                    match parse_when(has_offline_replicas(version), base.offline_replicas, parse_array(b6, i32_parse())) {
                                                        Err(e) => Err(e),
                                                        Ok((offline_replicas, n7)) => {
                                                            Ok((
                                                                MetadataResponsePartitionModel { error_code, partition_index, leader_id, leader_epoch, replica_nodes, isr_nodes, offline_replicas },
                                                                n1 + n2 + n3 + n4 + n5 + n6 + n7,
                                                            ))
                                                        },
                                                    }
                                                },
                                            }
                                        },
                                    }
                                },
                            }
                        },
                    }
                },
            }
        },
    }
}

/// What reading `m`, written at `version`, into `base` gives: the fields
/// that `version` carries come from `m`, the others stay as in `base`.
pub open spec fn partition_seen(
    m: MetadataResponsePartitionModel,
    base: MetadataResponsePartitionModel,
    version: Version,
) -> MetadataResponsePartitionModel {
    MetadataResponsePartitionModel {
        error_code: m.error_code,
        partition_index: m.partition_index,
        leader_id: m.leader_id,
        leader_epoch: if has_leader_epoch(version) { m.leader_epoch } else { base.leader_epoch },
        replica_nodes: m.replica_nodes,
        isr_nodes: m.isr_nodes,
        offline_replicas: if has_offline_replicas(version) { m.offline_replicas } else { base.offline_replicas },
    }
}

/// Reading back into `base` gives the fields that `version` carries as
/// written and leaves the others as in `base`, whatever follows.
#[verifier::rlimit(30)]
pub proof fn lemma_partition_roundtrip(
    m: MetadataResponsePartitionModel,
    base: MetadataResponsePartitionModel,
    version: Version,
    rest: Seq<u8>,
)
    requires
        partition_fits(m, version),
    ensures
        parse_partition(base, enc_partition(m, version) + rest, version)
            == Ok::<(MetadataResponsePartitionModel, nat), KfError>((partition_seen(m, base, version), enc_partition(m, version).len())),
{
    let e1 = enc_i16(m.error_code);
    let e2 = enc_i32(m.partition_index);
    let e3 = enc_i32(m.leader_id);
    let e4 = gated(has_leader_epoch(version), enc_i32(m.leader_epoch));
    let e5 = enc_array(m.replica_nodes, i32_enc());
    let e6 = enc_array(m.isr_nodes, i32_enc());
    let e7 = gated(has_offline_replicas(version), enc_array(m.offline_replicas, i32_enc()));
    let r1 = e2 + (e3 + (e4 + (e5 + (e6 + e7))));
    let r2 = e3 + (e4 + (e5 + (e6 + e7)));
    let r3 = e4 + (e5 + (e6 + e7));
    let r4 = e5 + (e6 + e7);
    let r5 = e6 + e7;
    let r6 = e7;
    let b0 = enc_partition(m, version) + rest;
    assert(parse_i16(b0)
        == Ok::<(i16, nat), KfError>((m.error_code, e1.len()))) by {
        lemma_split(e1, r1, rest);
        lemma_i16_roundtrip(m.error_code, r1 + rest);
    }
    let b1 = b0.skip(e1.len() as int);
    assert(b1 == r1 + rest) by {
        lemma_split(e1, r1, rest);
    }
    assert(parse_i32(b1)
        == Ok::<(i32, nat), KfError>((m.partition_index, e2.len()))) by {
        lemma_split(e2, r2, rest);
        lemma_i32_roundtrip(m.partition_index, r2 + rest);
    }
    let b2 = b1.skip(e2.len() as int);
    assert(b2 == r2 + rest) by {
        lemma_split(e2, r2, rest);
    }
    assert(parse_i32(b2)
        == Ok::<(i32, nat), KfError>((m.leader_id, e3.len()))) by {
        lemma_split(e3, r3, rest);
        lemma_i32_roundtrip(m.leader_id, r3 + rest);
    }
    let b3 = b2.skip(e3.len() as int);
    assert(b3 == r3 + rest) by {
        lemma_split(e3, r3, rest);
    }
    assert(parse_when(has_leader_epoch(version), base.leader_epoch, parse_i32(b3))
        == Ok::<(i32, nat), KfError>((if has_leader_epoch(version) { m.leader_epoch } else { base.leader_epoch }, e4.len()))) by {
        lemma_split(e4, r4, rest);
        if has_leader_epoch(version) {
            lemma_i32_roundtrip(m.leader_epoch, r4 + rest);
        }
    }
    let b4 = b3.skip(e4.len() as int);
    assert(b4 == r4 + rest) by {
        lemma_split(e4, r4, rest);
    }
    assert(parse_array(b4, i32_parse())
        == Ok::<(Seq<i32>, nat), KfError>((m.replica_nodes, e5.len()))) by {
        lemma_split(e5, r5, rest);
        lemma_i32_array_roundtrip(m.replica_nodes, r5 + rest);
    }
    let b5 = b4.skip(e5.len() as int);
    assert(b5 == r5 + rest) by {
        lemma_split(e5, r5, rest);
    }
    assert(parse_array(b5, i32_parse())
        == Ok::<(Seq<i32>, nat), KfError>((m.isr_nodes, e6.len()))) by {
        lemma_split(e6, r6, rest);
        lemma_i32_array_roundtrip(m.isr_nodes, r6 + rest);
    }
    let b6 = b5.skip(e6.len() as int);
    assert(b6 == r6 + rest) by {
        lemma_split(e6, r6, rest);
    }
    assert(parse_when(has_offline_replicas(version), base.offline_replicas, parse_array(b6, i32_parse()))
        == Ok::<(Seq<i32>, nat), KfError>((if has_offline_replicas(version) { m.offline_replicas } else { base.offline_replicas }, e7.len()))) by {
        if has_offline_replicas(version) {
            lemma_i32_array_roundtrip(m.offline_replicas, rest);
        }
    }
}

impl Default for MetadataResponsePartition {
    fn default() -> (r: Self)
        ensures
            r.deep_view() == partition_default(),
    {
        let r = MetadataResponsePartition {
            error_code: 0,
            partition_index: 0,
            leader_id: 0,
            leader_epoch: 0,
            replica_nodes: Vec::new(),
            isr_nodes: Vec::new(),
            offline_replicas: Vec::new(),
        };
        r
    }
}

impl MetadataResponsePartition {

    /// Appends the encoding of a partition at `version`. A string, byte string or
    /// array too long for its length prefix is refused and nothing is written.
    pub fn encode(&self, dest: &mut Vec<u8>, version: Version) -> (r: Result<(), KfError>)
        ensures
            r is Ok <==> partition_fits(self.deep_view(), version),
            r is Ok ==> final(dest)@ == old(dest)@ + enc_partition(self.deep_view(), version),
            r is Err ==> r == Err::<(), KfError>(KfError::TooLong) && final(dest)@ == old(dest)@,
    {
        let start = dest.len();
        let r = self.encode_fields(dest, version);
        if r.is_err() {
            dest.truncate(start);
            assert(dest@ =~= old(dest)@);
        }
        r
    }

    /// Reads a partition at `version` from the start of `src`, returning how many
    /// bytes it took. On failure `self` is left as it was.
    pub fn decode(&mut self, src: &[u8], version: Version) -> (r: Result<usize, KfError>)
        ensures
            r matches Ok(n) ==> parse_partition(old(self).deep_view(), src@, version)
                == Ok::<(MetadataResponsePartitionModel, nat), KfError>((final(self).deep_view(), n as nat)),
            r matches Err(e) ==> parse_partition(old(self).deep_view(), src@, version) == Err::<(MetadataResponsePartitionModel, nat), KfError>(e)
                && *final(self) == *old(self),
    {
        assert(src@.skip(0) =~= src@);
        self.decode_at(src, 0, version)
    }

    fn encode_fields(&self, dest: &mut Vec<u8>, version: Version) -> (r: Result<(), KfError>)
        ensures
            r is Ok <==> partition_fits(self.deep_view(), version),
            r is Ok ==> final(dest)@ == old(dest)@ + enc_partition(self.deep_view(), version),
            r is Err ==> r == Err::<(), KfError>(KfError::TooLong) && extends(old(dest)@, final(dest)@),
    {
        let ghost d0 = dest@;
        let ghost m = self.deep_view();
        let ghost e1 = enc_i16(m.error_code);
        let ghost e2 = enc_i32(m.partition_index);
        let ghost e3 = enc_i32(m.leader_id);
        let ghost e4 = gated(has_leader_epoch(version), enc_i32(m.leader_epoch));
        let ghost e5 = enc_array(m.replica_nodes, i32_enc());
        let ghost e6 = enc_array(m.isr_nodes, i32_enc());
        let ghost e7 = gated(has_offline_replicas(version), enc_array(m.offline_replicas, i32_enc()));
        let ghost r1 = e2 + (e3 + (e4 + (e5 + (e6 + e7))));
        let ghost r2 = e3 + (e4 + (e5 + (e6 + e7)));
        let ghost r3 = e4 + (e5 + (e6 + e7));
        let ghost r4 = e5 + (e6 + e7);
        let ghost r5 = e6 + e7;
        let ghost r6 = e7;
        let ghost r7 = Seq::<u8>::empty();
        assert(e7 + r7 =~= e7);
        let ghost dk = dest@;
        put_i16(dest, self.error_code);
        proof {
            lemma_split(dk, e1, r1);
        }
        assert(dest@ + r1 == d0 + enc_partition(m, version));
        let ghost dk = dest@;
        put_i32(dest, self.partition_index);
        proof {
            lemma_split(dk, e2, r2);
        }
        assert(dest@ + r2 == d0 + enc_partition(m, version));
        let ghost dk = dest@;
        put_i32(dest, self.leader_id);
        proof {
            lemma_split(dk, e3, r3);
        }
        assert(dest@ + r3 == d0 + enc_partition(m, version));
        let ghost dk = dest@;
        if version >= 7 {
            put_i32(dest, self.leader_epoch);
        }
        assert(dest@ == dk + e4) by {
            if !has_leader_epoch(version) {
                assert(dk + e4 =~= dk);
            }
        }
        proof {
            lemma_split(dk, e4, r4);
        }
        assert(dest@ + r4 == d0 + enc_partition(m, version));
        let ghost dk = dest@;
        if let Err(e) = put_i32_array(dest, &self.replica_nodes) {
            assert(dest@.take(dk.len() as int) =~= dk);
            assert(dest@.take(d0.len() as int) =~= d0);
            return Err(e);
        }
        proof {
            lemma_split(dk, e5, r5);
        }
        assert(dest@ + r5 == d0 + enc_partition(m, version));
        let ghost dk = dest@;
        if let Err(e) = put_i32_array(dest, &self.isr_nodes) {
            assert(dest@.take(dk.len() as int) =~= dk);
            assert(dest@.take(d0.len() as int) =~= d0);
            return Err(e);
        }
        proof {
            lemma_split(dk, e6, r6);
        }
        assert(dest@ + r6 == d0 + enc_partition(m, version));
        let ghost dk = dest@;
        if version >= 5 {
            if let Err(e) = put_i32_array(dest, &self.offline_replicas) {
                assert(dest@.take(dk.len() as int) =~= dk);
                assert(dest@.take(d0.len() as int) =~= d0);
                return Err(e);
            }
        }
        assert(dest@ == dk + e7) by {
            if !has_offline_replicas(version) {
                assert(dk + e7 =~= dk);
            }
        }
        proof {
            lemma_split(dk, e7, r7);
        }
        assert(dest@ + r7 == d0 + enc_partition(m, version));
        assert(dest@ + r7 =~= dest@);
        Ok(())
    }

    /// Reads a partition at `version` from `src` at `pos`, returning how many bytes
    /// it took. On failure `self` is left as it was.
    pub fn decode_at(&mut self, src: &[u8], pos: usize, version: Version) -> (r: Result<usize, KfError>)
        requires
            pos <= src@.len(),
        ensures
            r matches Ok(n) ==> n <= src@.len() - pos && parse_partition(old(self).deep_view(), src@.skip(pos as int), version)
                == Ok::<(MetadataResponsePartitionModel, nat), KfError>((final(self).deep_view(), n as nat)),
            r matches Err(e) ==> parse_partition(old(self).deep_view(), src@.skip(pos as int), version)
                == Err::<(MetadataResponsePartitionModel, nat), KfError>(e) && *final(self) == *old(self),
    {
        let len = src.len();
        let ghost b0 = src@.skip(pos as int);
        let p0 = pos;
        let (error_code, n1) = get_i16(src, p0)?;
        let p1 = p0 + n1;
        let ghost b1 = b0.skip(n1 as int);
        proof {
            lemma_skip_skip(src@, p0 as int, n1 as int);
        }
        let (partition_index, n2) = get_i32(src, p1)?;
        let p2 = p1 + n2;
        let ghost b2 = b1.skip(n2 as int);
        proof {
            lemma_skip_skip(src@, p1 as int, n2 as int);
        }
        let (leader_id, n3) = get_i32(src, p2)?;
        let p3 = p2 + n3;
        let ghost b3 = b2.skip(n3 as int);
        proof {
            lemma_skip_skip(src@, p2 as int, n3 as int);
        }
        let mut leader_epoch: Option<i32> = None;
        let mut n4: usize = 0;
        if version >= 7 {
            let (v, n) = get_i32(src, p3)?;
            leader_epoch = Some(v);
            n4 = n;
        }
        let p4 = p3 + n4;
        let ghost b4 = b3.skip(n4 as int);
        proof {
            lemma_skip_skip(src@, p3 as int, n4 as int);
        }
        let (replica_nodes, n5) = get_i32_array(src, p4)?;
        let p5 = p4 + n5;
        let ghost b5 = b4.skip(n5 as int);
        proof {
            lemma_skip_skip(src@, p4 as int, n5 as int);
        }
        let (isr_nodes, n6) = get_i32_array(src, p5)?;
        let p6 = p5 + n6;
        let ghost b6 = b5.skip(n6 as int);
        proof {
            lemma_skip_skip(src@, p5 as int, n6 as int);
        }
        let mut offline_replicas: Option<Vec<i32>> = None;
        let mut n7: usize = 0;
        if version >= 5 {
            let (v, n) = get_i32_array(src, p6)?;
            offline_replicas = Some(v);
            n7 = n;
        }
        self.error_code = error_code;
        self.partition_index = partition_index;
        self.leader_id = leader_id;
        if let Some(v) = leader_epoch {
            self.leader_epoch = v;
        }
        assert(replica_nodes.deep_view() =~= replica_nodes@);
        self.replica_nodes = replica_nodes;
        assert(isr_nodes.deep_view() =~= isr_nodes@);
        self.isr_nodes = isr_nodes;
        if let Some(v) = offline_replicas {
            assert(v.deep_view() =~= v@);
            self.offline_replicas = v;
        }
        Ok(n1 + n2 + n3 + n4 + n5 + n6 + n7)
    }
}

/// Writing one element at `version`.
pub open spec fn partition_enc(version: Version) -> spec_fn(MetadataResponsePartitionModel) -> Seq<u8> {
    |m: MetadataResponsePartitionModel| enc_partition(m, version)
}

/// Reading one element at `version`.
pub open spec fn partition_parse(version: Version) -> spec_fn(Seq<u8>) -> Result<(MetadataResponsePartitionModel, nat), KfError> {
    |b: Seq<u8>| parse_partition(partition_default(), b, version)
}

/// Every element fits its length prefixes, and there are not too many.
pub open spec fn partitions_fit(items: Seq<MetadataResponsePartitionModel>, version: Version) -> bool {
    array_fits(items) && forall|j: int| 0 <= j < items.len() ==> partition_fits(#[trigger] items[j], version)
}

/// Writes an ARRAY of MetadataResponsePartition; on a refusal what was written before it stays.
fn put_partitions(dest: &mut Vec<u8>, v: &Vec<MetadataResponsePartition>, version: Version) -> (r: Result<(), KfError>)
    ensures
        r is Ok <==> partitions_fit(v.deep_view(), version),
        r is Ok ==> final(dest)@ == old(dest)@ + enc_array(v.deep_view(), partition_enc(version)),
        r is Err ==> r == Err::<(), KfError>(KfError::TooLong) && extends(old(dest)@, final(dest)@),
{
    let n = v.len();
    if n > 0x7fff_ffff {
        assert(dest@.take(dest@.len() as int) =~= dest@);
        return Err(KfError::TooLong);
    }
    put_i32(dest, n as i32);
    let ghost start = dest@;
    let ghost items = v.deep_view();
    let mut i: usize = 0;
    while i < n
        invariant
            n == v@.len(),
            items == v.deep_view(),
            i <= n,
            start == old(dest)@ + enc_i32(n as i32),
            dest@ == start + concat_map(items.take(i as int), partition_enc(version)),
            forall|j: int| 0 <= j < i ==> partition_fits(#[trigger] items[j], version),
        decreases n - i,
    {
        proof {
            lemma_concat_map_push(items, i as int, partition_enc(version));
        }
        if let Err(e) = v[i].encode(dest, version) {
            assert(dest@.take(old(dest)@.len() as int) =~= old(dest)@);
            return Err(e);
        }
        i = i + 1;
    }
    assert(items.take(n as int) =~= items);
    Ok(())
}

/// Reads an ARRAY of MetadataResponsePartition, each element starting from its default.
fn get_partitions(src: &[u8], pos: usize, version: Version) -> (r: Result<(Vec<MetadataResponsePartition>, usize), KfError>)
    requires
        pos <= src@.len(),
    ensures
        lift(r) == parse_array(src@.skip(pos as int), partition_parse(version)),
        r matches Ok((_, n)) ==> n <= src@.len() - pos,
{
    proof {
        reveal(parse_array);
    }
    let len = src.len();
    let (n, k) = get_i32(src, pos)?;
    assert(k == 4);
    if n < 0 {
        return Err(KfError::InvalidLength);
    }
    let ghost b = src@.skip(pos as int).skip(4);
    let start = pos + 4;
    assert(b =~= src@.skip(start as int));
    let mut items: Vec<MetadataResponsePartition> = Vec::new();
    assert(items.deep_view() =~= Seq::<MetadataResponsePartitionModel>::empty());
    let mut off: usize = 0;
    let mut i: i32 = 0;
    while i < n
        invariant
            0 <= i <= n,
            len == src@.len(),
            start == pos + 4,
            parse_i32(src@.skip(pos as int)) == Ok::<(i32, nat), KfError>((n, 4nat)),
            b == src@.skip(pos as int).skip(4),
            start <= src@.len(),
            b == src@.skip(start as int),
            off <= src@.len() - start,
            parse_items(b, i as nat, partition_parse(version)) == Ok::<(Seq<MetadataResponsePartitionModel>, nat), KfError>(
                (items.deep_view(), off as nat),
            ),
        decreases n - i,
    {
        assert(src@.skip((start + off) as int) =~= b.skip(off as int));
        let mut x = MetadataResponsePartition::default();
        match x.decode_at(src, start + off, version) {
            Err(e) => {
                proof {
                    reveal(parse_array);
                    assert(parse_items(b, (i + 1) as nat, partition_parse(version)) == Err::<(Seq<MetadataResponsePartitionModel>, nat), KfError>(e));
                    lemma_items_err_persists(b, (i + 1) as nat, n as nat, partition_parse(version));
                }
                return Err(e);
            },
            Ok(l) => {
                let ghost old_items = items.deep_view();
                let ghost xv = x.deep_view();
                items.push(x);
                off = off + l;
                i = i + 1;
                assert(items.deep_view() =~= old_items.push(xv));
            },
        }
    }
    Ok((items, 4 + off))
}

/// Each element as read into a default one.
pub open spec fn partitions_seen(items: Seq<MetadataResponsePartitionModel>, version: Version) -> Seq<MetadataResponsePartitionModel> {
    items.map_values(|x: MetadataResponsePartitionModel| partition_seen(x, partition_default(), version))
}

/// Reading back an ARRAY of MetadataResponsePartition gives each element as read into a default one.
pub proof fn lemma_partitions_roundtrip(items: Seq<MetadataResponsePartitionModel>, version: Version, rest: Seq<u8>)
    requires
        partitions_fit(items, version),
    ensures
        parse_array(enc_array(items, partition_enc(version)) + rest, partition_parse(version))
            == Ok::<(Seq<MetadataResponsePartitionModel>, nat), KfError>((partitions_seen(items, version),
                enc_array(items, partition_enc(version)).len())),
{
    assert forall|i: int, r: Seq<u8>| 0 <= i < items.len() implies #[trigger] partition_parse(version)(
        partition_enc(version)(items[i]) + r)
        == Ok::<(MetadataResponsePartitionModel, nat), KfError>((partition_seen(items[i], partition_default(), version), partition_enc(version)(items[i]).len())) by {
        lemma_partition_roundtrip(items[i], partition_default(), version, r);
    }
    lemma_array_roundtrip(items, rest, partition_enc(version), partition_parse(version), |x: MetadataResponsePartitionModel| partition_seen(x, partition_default(), version));
}

// -----------------------------------
// MetadataResponseTopic
// -----------------------------------

#[derive(Debug)]
pub struct MetadataResponseTopic {
    /// The topic error, or 0 if there was no error.
    pub error_code: ErrorCode,
    /// The topic name.
    pub name: String,
    /// True if the topic is internal.
    pub is_internal: bool,
    /// Each partition in the topic.
    pub partitions: Vec<MetadataResponsePartition>,
}

/// What a `MetadataResponseTopic` holds: strings as their characters, vectors as sequences.
pub struct MetadataResponseTopicModel {
    pub error_code: i16,
    pub name: Seq<char>,
    pub is_internal: bool,
    pub partitions: Seq<MetadataResponsePartitionModel>,
}

impl DeepView for MetadataResponseTopic {
    type V = MetadataResponseTopicModel;

    open spec fn deep_view(&self) -> MetadataResponseTopicModel {
        MetadataResponseTopicModel {
            error_code: self.error_code,
            name: self.name@,
            is_internal: self.is_internal,
            partitions: self.partitions.deep_view(),
        }
    }
}

/// The value a default `MetadataResponseTopic` holds.
pub open spec fn topic_default() -> MetadataResponseTopicModel {
    MetadataResponseTopicModel {
        error_code: 0,
        name: Seq::empty(),
        is_internal: false,
        partitions: Seq::empty(),
    }
}

/// `is_internal` is on the wire from version 1.
pub open spec fn has_is_internal(version: Version) -> bool {
    version >= 1
}

/// Every string, byte string and array that `version` carries fits its
/// length prefix.
pub open spec fn topic_fits(m: MetadataResponseTopicModel, version: Version) -> bool {
    &&& string_fits(m.name)
    &&& partitions_fit(m.partitions, version)
}

/// Fields in order: INT16 error_code, STRING name, BOOLEAN is_internal (from
/// version 1), ARRAY partitions.
pub open spec fn enc_topic(m: MetadataResponseTopicModel, version: Version) -> Seq<u8> {
    enc_i16(m.error_code)
        + (enc_string(m.name)
        + (gated(has_is_internal(version), enc_bool(m.is_internal))
        + enc_array(m.partitions, partition_enc(version))))
}

/// Reading into `base`: a field that `version` does not carry keeps the
/// value it has in `base`.
pub open spec fn parse_topic(
    base: MetadataResponseTopicModel,
    b: Seq<u8>,
    version: Version,
) -> Result<(MetadataResponseTopicModel, nat), KfError> {
    match parse_i16(b) {
        Err(e) => Err(e),
        Ok((error_code, n1)) => {
            let b1 = b.skip(n1 as int);
            match parse_string(b1) {
                Err(e) => Err(e),
                Ok((name, n2)) => {
                    let b2 = b1.skip(n2 as int);
                    match parse_when(has_is_internal(version), base.is_internal, parse_bool(b2)) {
                        Err(e) => Err(e),
                        Ok((is_internal, n3)) => {
                            let b3 = b2.skip(n3 as int);
                            match parse_array(b3, partition_parse(version)) {
                                Err(e) => Err(e),
                                Ok((partitions, n4)) => {
                                    Ok((MetadataResponseTopicModel { error_code, name, is_internal, partitions }, n1 + n2 + n3 + n4))
                                },
                            }
                        },
                    }
                },
            }
        },
    }
}

/// What reading `m`, written at `version`, into `base` gives: the fields
/// that `version` carries come from `m`, the others stay as in `base`.
pub open spec fn topic_seen(
    m: MetadataResponseTopicModel,
    base: MetadataResponseTopicModel,
    version: Version,
) -> MetadataResponseTopicModel {
    MetadataResponseTopicModel {
        error_code: m.error_code,
        name: m.name,
        is_internal: if has_is_internal(version) { m.is_internal } else { base.is_internal },
        partitions: partitions_seen(m.partitions, version),
    }
}

/// Reading back into `base` gives the fields that `version` carries as
/// written and leaves the others as in `base`, whatever follows.
pub proof fn lemma_topic_roundtrip(
    m: MetadataResponseTopicModel,
    base: MetadataResponseTopicModel,
    version: Version,
    rest: Seq<u8>,
)
    requires
        topic_fits(m, version),
    ensures
        parse_topic(base, enc_topic(m, version) + rest, version)
            == Ok::<(MetadataResponseTopicModel, nat), KfError>((topic_seen(m, base, version), enc_topic(m, version).len())),
{
    let e1 = enc_i16(m.error_code);
    let e2 = enc_string(m.name);
    let e3 = gated(has_is_internal(version), enc_bool(m.is_internal));
    let e4 = enc_array(m.partitions, partition_enc(version));
    let r1 = e2 + (e3 + e4);
    let r2 = e3 + e4;
    let r3 = e4;
    let b0 = enc_topic(m, version) + rest;
    assert(parse_i16(b0)
        == Ok::<(i16, nat), KfError>((m.error_code, e1.len()))) by {
        lemma_split(e1, r1, rest);
        lemma_i16_roundtrip(m.error_code, r1 + rest);
    }
    let b1 = b0.skip(e1.len() as int);
    assert(b1 == r1 + rest) by {
        lemma_split(e1, r1, rest);
    }
    assert(parse_string(b1)
        == Ok::<(Seq<char>, nat), KfError>((m.name, e2.len()))) by {
        lemma_split(e2, r2, rest);
        lemma_string_roundtrip(m.name, r2 + rest);
    }
    let b2 = b1.skip(e2.len() as int);
    assert(b2 == r2 + rest) by {
        lemma_split(e2, r2, rest);
    }
    assert(parse_when(has_is_internal(version), base.is_internal, parse_bool(b2))
        == Ok::<(bool, nat), KfError>((if has_is_internal(version) { m.is_internal } else { base.is_internal }, e3.len()))) by {
        lemma_split(e3, r3, rest);
        if has_is_internal(version) {
            lemma_bool_roundtrip(m.is_internal, r3 + rest);
        }
    }
    let b3 = b2.skip(e3.len() as int);
    assert(b3 == r3 + rest) by {
        lemma_split(e3, r3, rest);
    }
    assert(parse_array(b3, partition_parse(version))
        == Ok::<(Seq<MetadataResponsePartitionModel>, nat), KfError>((partitions_seen(m.partitions, version), e4.len()))) by {
        lemma_partitions_roundtrip(m.partitions, version, rest);
    }
}

impl Default for MetadataResponseTopic {
    fn default() -> (r: Self)
        ensures
            r.deep_view() == topic_default(),
    {
        let r = MetadataResponseTopic {
            error_code: 0,
            name: String::new(),
            is_internal: false,
            partitions: Vec::new(),
        };
        assert(r.partitions.deep_view() =~= Seq::<MetadataResponsePartitionModel>::empty());
        r
    }
}

impl MetadataResponseTopic {

    /// Appends the encoding of a topic at `version`. A string, byte string or
    /// array too long for its length prefix is refused and nothing is written.
    pub fn encode(&self, dest: &mut Vec<u8>, version: Version) -> (r: Result<(), KfError>)
        ensures
            r is Ok <==> topic_fits(self.deep_view(), version),
            r is Ok ==> final(dest)@ == old(dest)@ + enc_topic(self.deep_view(), version),
            r is Err ==> r == Err::<(), KfError>(KfError::TooLong) && final(dest)@ == old(dest)@,
    {
        let start = dest.len();
        let r = self.encode_fields(dest, version);
        if r.is_err() {
            dest.truncate(start);
            assert(dest@ =~= old(dest)@);
        }
        r
    }

    /// Reads a topic at `version` from the start of `src`, returning how many
    /// bytes it took. On failure `self` is left as it was.
    pub fn decode(&mut self, src: &[u8], version: Version) -> (r: Result<usize, KfError>)
        ensures
            r matches Ok(n) ==> parse_topic(old(self).deep_view(), src@, version)
                == Ok::<(MetadataResponseTopicModel, nat), KfError>((final(self).deep_view(), n as nat)),
            r matches Err(e) ==> parse_topic(old(self).deep_view(), src@, version) == Err::<(MetadataResponseTopicModel, nat), KfError>(e)
                && *final(self) == *old(self),
    {
        assert(src@.skip(0) =~= src@);
        self.decode_at(src, 0, version)
    }

    fn encode_fields(&self, dest: &mut Vec<u8>, version: Version) -> (r: Result<(), KfError>)
        ensures
            r is Ok <==> topic_fits(self.deep_view(), version),
            r is Ok ==> final(dest)@ == old(dest)@ + enc_topic(self.deep_view(), version),
            r is Err ==> r == Err::<(), KfError>(KfError::TooLong) && extends(old(dest)@, final(dest)@),
    {
        let ghost d0 = dest@;
        let ghost m = self.deep_view();
        let ghost e1 = enc_i16(m.error_code);
        let ghost e2 = enc_string(m.name);
        let ghost e3 = gated(has_is_internal(version), enc_bool(m.is_internal));
        let ghost e4 = enc_array(m.partitions, partition_enc(version));
        let ghost r1 = e2 + (e3 + e4);
        let ghost r2 = e3 + e4;
        let ghost r3 = e4;
        let ghost r4 = Seq::<u8>::empty();
        assert(e4 + r4 =~= e4);
        let ghost dk = dest@;
        put_i16(dest, self.error_code);
        proof {
            lemma_split(dk, e1, r1);
        }
        assert(dest@ + r1 == d0 + enc_topic(m, version));
        let ghost dk = dest@;
        if let Err(e) = put_string(dest, &self.name) {
            assert(dest@.take(dk.len() as int) =~= dk);
            assert(dest@.take(d0.len() as int) =~= d0);
            return Err(e);
        }
        proof {
            lemma_split(dk, e2, r2);
        }
        assert(dest@ + r2 == d0 + enc_topic(m, version));
        let ghost dk = dest@;
        if version >= 1 {
            put_bool(dest, self.is_internal);
        }
        assert(dest@ == dk + e3) by {
            if !has_is_internal(version) {
                assert(dk + e3 =~= dk);
            }
        }
        proof {
            lemma_split(dk, e3, r3);
        }
        assert(dest@ + r3 == d0 + enc_topic(m, version));
        let ghost dk = dest@;
        if let Err(e) = put_partitions(dest, &self.partitions, version) {
            assert(dest@.take(dk.len() as int) =~= dk);
            assert(dest@.take(d0.len() as int) =~= d0);
            return Err(e);
        }
        proof {
            lemma_split(dk, e4, r4);
        }
        assert(dest@ + r4 == d0 + enc_topic(m, version));
        assert(dest@ + r4 =~= dest@);
        Ok(())
    }

    /// Reads a topic at `version` from `src` at `pos`, returning how many bytes
    /// it took. On failure `self` is left as it was.
    pub fn decode_at(&mut self, src: &[u8], pos: usize, version: Version) -> (r: Result<usize, KfError>)
        requires
            pos <= src@.len(),
        ensures
            r matches Ok(n) ==> n <= src@.len() - pos && parse_topic(old(self).deep_view(), src@.skip(pos as int), version)
                == Ok::<(MetadataResponseTopicModel, nat), KfError>((final(self).deep_view(), n as nat)),
            r matches Err(e) ==> parse_topic(old(self).deep_view(), src@.skip(pos as int), version)
                == Err::<(MetadataResponseTopicModel, nat), KfError>(e) && *final(self) == *old(self),
    {
        let len = src.len();
        let ghost b0 = src@.skip(pos as int);
        let p0 = pos;
        let (error_code, n1) = get_i16(src, p0)?;
        let p1 = p0 + n1;
        let ghost b1 = b0.skip(n1 as int);
        proof {
            lemma_skip_skip(src@, p0 as int, n1 as int);
        }
        let (name, n2) = get_string(src, p1)?;
        let p2 = p1 + n2;
        let ghost b2 = b1.skip(n2 as int);
        proof {
            lemma_skip_skip(src@, p1 as int, n2 as int);
        }
        let mut is_internal: Option<bool> = None;
        let mut n3: usize = 0;
        if version >= 1 {
            let (v, n) = get_bool(src, p2)?;
            is_internal = Some(v);
            n3 = n;
        }
        let p3 = p2 + n3;
        let ghost b3 = b2.skip(n3 as int);
        proof {
            lemma_skip_skip(src@, p2 as int, n3 as int);
        }
        let (partitions, n4) = get_partitions(src, p3, version)?;
        self.error_code = error_code;
        self.name = name;
        if let Some(v) = is_internal {
            self.is_internal = v;
        }
        self.partitions = partitions;
        Ok(n1 + n2 + n3 + n4)
    }
}

/// Writing one element at `version`.
pub open spec fn topic_enc(version: Version) -> spec_fn(MetadataResponseTopicModel) -> Seq<u8> {
    |m: MetadataResponseTopicModel| enc_topic(m, version)
}

/// Reading one element at `version`.
pub open spec fn topic_parse(version: Version) -> spec_fn(Seq<u8>) -> Result<(MetadataResponseTopicModel, nat), KfError> {
    |b: Seq<u8>| parse_topic(topic_default(), b, version)
}

/// Every element fits its length prefixes, and there are not too many.
pub open spec fn topics_fit(items: Seq<MetadataResponseTopicModel>, version: Version) -> bool {
    array_fits(items) && forall|j: int| 0 <= j < items.len() ==> topic_fits(#[trigger] items[j], version)
}

/// Writes an ARRAY of MetadataResponseTopic; on a refusal what was written before it stays.
fn put_topics(dest: &mut Vec<u8>, v: &Vec<MetadataResponseTopic>, version: Version) -> (r: Result<(), KfError>)
    ensures
        r is Ok <==> topics_fit(v.deep_view(), version),
        r is Ok ==> final(dest)@ == old(dest)@ + enc_array(v.deep_view(), topic_enc(version)),
        r is Err ==> r == Err::<(), KfError>(KfError::TooLong) && extends(old(dest)@, final(dest)@),
{
    let n = v.len();
    if n > 0x7fff_ffff {
        assert(dest@.take(dest@.len() as int) =~= dest@);
        return Err(KfError::TooLong);
    }
    put_i32(dest, n as i32);
    let ghost start = dest@;
    let ghost items = v.deep_view();
    let mut i: usize = 0;
    while i < n
        invariant
            n == v@.len(),
            items == v.deep_view(),
            i <= n,
            start == old(dest)@ + enc_i32(n as i32),
            dest@ == start + concat_map(items.take(i as int), topic_enc(version)),
            forall|j: int| 0 <= j < i ==> topic_fits(#[trigger] items[j], version),
        decreases n - i,
    {
        proof {
            lemma_concat_map_push(items, i as int, topic_enc(version));
        }
        if let Err(e) = v[i].encode(dest, version) {
            assert(dest@.take(old(dest)@.len() as int) =~= old(dest)@);
            return Err(e);
        }
        i = i + 1;
    }
    assert(items.take(n as int) =~= items);
    Ok(())
}

/// Reads an ARRAY of MetadataResponseTopic, each element starting from its default.
fn get_topics(src: &[u8], pos: usize, version: Version) -> (r: Result<(Vec<MetadataResponseTopic>, usize), KfError>)
    requires
        pos <= src@.len(),
    ensures
        lift(r) == parse_array(src@.skip(pos as int), topic_parse(version)),
        r matches Ok((_, n)) ==> n <= src@.len() - pos,
{
    proof {
        reveal(parse_array);
    }
    let len = src.len();
    let (n, k) = get_i32(src, pos)?;
    assert(k == 4);
    if n < 0 {
        return Err(KfError::InvalidLength);
    }
    let ghost b = src@.skip(pos as int).skip(4);
    let start = pos + 4;
    assert(b =~= src@.skip(start as int));
    let mut items: Vec<MetadataResponseTopic> = Vec::new();
    assert(items.deep_view() =~= Seq::<MetadataResponseTopicModel>::empty());
    let mut off: usize = 0;
    let mut i: i32 = 0;
    while i < n
        invariant
            0 <= i <= n,
            len == src@.len(),
            start == pos + 4,
            parse_i32(src@.skip(pos as int)) == Ok::<(i32, nat), KfError>((n, 4nat)),
            b == src@.skip(pos as int).skip(4),
            start <= src@.len(),
            b == src@.skip(start as int),
            off <= src@.len() - start,
            parse_items(b, i as nat, topic_parse(version)) == Ok::<(Seq<MetadataResponseTopicModel>, nat), KfError>(
                (items.deep_view(), off as nat),
            ),
        decreases n - i,
    {
        assert(src@.skip((start + off) as int) =~= b.skip(off as int));
        let mut x = MetadataResponseTopic::default();
        match x.decode_at(src, start + off, version) {
            Err(e) => {
                proof {
                    reveal(parse_array);
                    assert(parse_items(b, (i + 1) as nat, topic_parse(version)) == Err::<(Seq<MetadataResponseTopicModel>, nat), KfError>(e));
                    lemma_items_err_persists(b, (i + 1) as nat, n as nat, topic_parse(version));
                }
                return Err(e);
            },
            Ok(l) => {
                let ghost old_items = items.deep_view();
                let ghost xv = x.deep_view();
                items.push(x);
                off = off + l;
                i = i + 1;
                assert(items.deep_view() =~= old_items.push(xv));
            },
        }
    }
    Ok((items, 4 + off))
}

/// Each element as read into a default one.
pub open spec fn topics_seen(items: Seq<MetadataResponseTopicModel>, version: Version) -> Seq<MetadataResponseTopicModel> {
    items.map_values(|x: MetadataResponseTopicModel| topic_seen(x, topic_default(), version))
}

/// Reading back an ARRAY of MetadataResponseTopic gives each element as read into a default one.
pub proof fn lemma_topics_roundtrip(items: Seq<MetadataResponseTopicModel>, version: Version, rest: Seq<u8>)
    requires
        topics_fit(items, version),
    ensures
        parse_array(enc_array(items, topic_enc(version)) + rest, topic_parse(version))
            == Ok::<(Seq<MetadataResponseTopicModel>, nat), KfError>((topics_seen(items, version),
                enc_array(items, topic_enc(version)).len())),
{
    assert forall|i: int, r: Seq<u8>| 0 <= i < items.len() implies #[trigger] topic_parse(version)(
        topic_enc(version)(items[i]) + r)
        == Ok::<(MetadataResponseTopicModel, nat), KfError>((topic_seen(items[i], topic_default(), version), topic_enc(version)(items[i]).len())) by {
        lemma_topic_roundtrip(items[i], topic_default(), version, r);
    }
    lemma_array_roundtrip(items, rest, topic_enc(version), topic_parse(version), |x: MetadataResponseTopicModel| topic_seen(x, topic_default(), version));
}

// -----------------------------------
// MetadataResponseBroker
// -----------------------------------

#[derive(Debug)]
pub struct MetadataResponseBroker {
    /// The broker ID.
    pub node_id: i32,
    /// The broker hostname.
    pub host: String,
    /// The broker port.
    pub port: i32,
    /// The rack of the broker, or null if it has not been assigned to a rack.
    pub rack: Option<String>,
}

/// What a `MetadataResponseBroker` holds: strings as their characters, vectors as sequences.
pub struct MetadataResponseBrokerModel {
    pub node_id: i32,
    pub host: Seq<char>,
    pub port: i32,
    pub rack: Option<Seq<char>>,
}

impl DeepView for MetadataResponseBroker {
    type V = MetadataResponseBrokerModel;

    open spec fn deep_view(&self) -> MetadataResponseBrokerModel {
        MetadataResponseBrokerModel {
            node_id: self.node_id,
            host: self.host@,
            port: self.port,
            rack: self.rack.deep_view(),
        }
    }
}

/// The value a default `MetadataResponseBroker` holds.
pub open spec fn broker_default() -> MetadataResponseBrokerModel {
    MetadataResponseBrokerModel {
        node_id: 0,
        host: Seq::empty(),
        port: 0,
        rack: None,
    }
}

/// `rack` is on the wire from version 1.
pub open spec fn has_rack(version: Version) -> bool {
    version >= 1
}

/// Every string, byte string and array that `version` carries fits its
/// length prefix.
pub open spec fn broker_fits(m: MetadataResponseBrokerModel, version: Version) -> bool {
    &&& string_fits(m.host)
    &&& has_rack(version) ==> nullable_string_fits(m.rack)
}

/// Fields in order: INT32 node_id, STRING host, INT32 port, NULLABLE_STRING
/// rack (from version 1).
pub open spec fn enc_broker(m: MetadataResponseBrokerModel, version: Version) -> Seq<u8> {
    enc_i32(m.node_id)
        + (enc_string(m.host)
        + (enc_i32(m.port)
        + gated(has_rack(version), enc_nullable_string(m.rack))))
}

/// Reading into `base`: a field that `version` does not carry keeps the
/// value it has in `base`.
pub open spec fn parse_broker(
    base: MetadataResponseBrokerModel,
    b: Seq<u8>,
    version: Version,
) -> Result<(MetadataResponseBrokerModel, nat), KfError> {
    match parse_i32(b) {
        Err(e) => Err(e),
        Ok((node_id, n1)) => {
            let b1 = b.skip(n1 as int);
            match parse_string(b1) {
                Err(e) => Err(e),
                Ok((host, n2)) => {
                    let b2 = b1.skip(n2 as int);
                    match parse_i32(b2) {
                        Err(e) => Err(e),
                        Ok((port, n3)) => {
                            let b3 = b2.skip(n3 as int);
                            match parse_when(has_rack(version), base.rack, parse_nullable_string(b3)) {
                                Err(e) => Err(e),
                                Ok((rack, n4)) => {
                                    Ok((MetadataResponseBrokerModel { node_id, host, port, rack }, n1 + n2 + n3 + n4))
                                },
                            }
                        },
                    }
                },
            }
        },
    }
}

/// What reading `m`, written at `version`, into `base` gives: the fields
/// that `version` carries come from `m`, the others stay as in `base`.
pub open spec fn broker_seen(
    m: MetadataResponseBrokerModel,
    base: MetadataResponseBrokerModel,
    version: Version,
) -> MetadataResponseBrokerModel {
    MetadataResponseBrokerModel {
        node_id: m.node_id,
        host: m.host,
        port: m.port,
        rack: if has_rack(version) { m.rack } else { base.rack },
    }
}

/// Reading back into `base` gives the fields that `version` carries as
/// written and leaves the others as in `base`, whatever follows.
pub proof fn lemma_broker_roundtrip(
    m: MetadataResponseBrokerModel,
    base: MetadataResponseBrokerModel,
    version: Version,
    rest: Seq<u8>,
)
    requires
        broker_fits(m, version),
    ensures
        parse_broker(base, enc_broker(m, version) + rest, version)
            == Ok::<(MetadataResponseBrokerModel, nat), KfError>((broker_seen(m, base, version), enc_broker(m, version).len())),
{
    let e1 = enc_i32(m.node_id);
    let e2 = enc_string(m.host);
    let e3 = enc_i32(m.port);
    let e4 = gated(has_rack(version), enc_nullable_string(m.rack));
    let r1 = e2 + (e3 + e4);
    let r2 = e3 + e4;
    let r3 = e4;
    let b0 = enc_broker(m, version) + rest;
    assert(parse_i32(b0)
        == Ok::<(i32, nat), KfError>((m.node_id, e1.len()))) by {
        lemma_split(e1, r1, rest);
        lemma_i32_roundtrip(m.node_id, r1 + rest);
    }
    let b1 = b0.skip(e1.len() as int);
    assert(b1 == r1 + rest) by {
        lemma_split(e1, r1, rest);
    }
    assert(parse_string(b1)
        == Ok::<(Seq<char>, nat), KfError>((m.host, e2.len()))) by {
        lemma_split(e2, r2, rest);
        lemma_string_roundtrip(m.host, r2 + rest);
    }
    let b2 = b1.skip(e2.len() as int);
    assert(b2 == r2 + rest) by {
        lemma_split(e2, r2, rest);
    }
    assert(parse_i32(b2)
        == Ok::<(i32, nat), KfError>((m.port, e3.len()))) by {
        lemma_split(e3, r3, rest);
        lemma_i32_roundtrip(m.port, r3 + rest);
    }
    let b3 = b2.skip(e3.len() as int);
    assert(b3 == r3 + rest) by {
        lemma_split(e3, r3, rest);
    }
    assert(parse_when(has_rack(version), base.rack, parse_nullable_string(b3))
        == Ok::<(Option<Seq<char>>, nat), KfError>((if has_rack(version) { m.rack } else { base.rack }, e4.len()))) by {
        if has_rack(version) {
            lemma_nullable_string_roundtrip(m.rack, rest);
        }
    }
}

impl Default for MetadataResponseBroker {
    fn default() -> (r: Self)
        ensures
            r.deep_view() == broker_default(),
    {
        let r = MetadataResponseBroker {
            node_id: 0,
            host: String::new(),
            port: 0,
            rack: None,
        };
        r
    }
}

impl MetadataResponseBroker {

    /// Appends the encoding of a broker at `version`. A string, byte string or
    /// array too long for its length prefix is refused and nothing is written.
    pub fn encode(&self, dest: &mut Vec<u8>, version: Version) -> (r: Result<(), KfError>)
        ensures
            r is Ok <==> broker_fits(self.deep_view(), version),
            r is Ok ==> final(dest)@ == old(dest)@ + enc_broker(self.deep_view(), version),
            r is Err ==> r == Err::<(), KfError>(KfError::TooLong) && final(dest)@ == old(dest)@,
    {
        let start = dest.len();
        let r = self.encode_fields(dest, version);
        if r.is_err() {
            dest.truncate(start);
            assert(dest@ =~= old(dest)@);
        }
        r
    }

    /// Reads a broker at `version` from the start of `src`, returning how many
    /// bytes it took. On failure `self` is left as it was.
    pub fn decode(&mut self, src: &[u8], version: Version) -> (r: Result<usize, KfError>)
        ensures
            r matches Ok(n) ==> parse_broker(old(self).deep_view(), src@, version)
                == Ok::<(MetadataResponseBrokerModel, nat), KfError>((final(self).deep_view(), n as nat)),
            r matches Err(e) ==> parse_broker(old(self).deep_view(), src@, version) == Err::<(MetadataResponseBrokerModel, nat), KfError>(e)
                && *final(self) == *old(self),
    {
        assert(src@.skip(0) =~= src@);
        self.decode_at(src, 0, version)
    }

    fn encode_fields(&self, dest: &mut Vec<u8>, version: Version) -> (r: Result<(), KfError>)
        ensures
            r is Ok <==> broker_fits(self.deep_view(), version),
            r is Ok ==> final(dest)@ == old(dest)@ + enc_broker(self.deep_view(), version),
            r is Err ==> r == Err::<(), KfError>(KfError::TooLong) && extends(old(dest)@, final(dest)@),
    {
        let ghost d0 = dest@;
        let ghost m = self.deep_view();
        let ghost e1 = enc_i32(m.node_id);
        let ghost e2 = enc_string(m.host);
        let ghost e3 = enc_i32(m.port);
        let ghost e4 = gated(has_rack(version), enc_nullable_string(m.rack));
        let ghost r1 = e2 + (e3 + e4);
        let ghost r2 = e3 + e4;
        let ghost r3 = e4;
        let ghost r4 = Seq::<u8>::empty();
        assert(e4 + r4 =~= e4);
        let ghost dk = dest@;
        put_i32(dest, self.node_id);
        proof {
            lemma_split(dk, e1, r1);
        }
        assert(dest@ + r1 == d0 + enc_broker(m, version));
        let ghost dk = dest@;
        if let Err(e) = put_string(dest, &self.host) {
            assert(dest@.take(dk.len() as int) =~= dk);
            assert(dest@.take(d0.len() as int) =~= d0);
            return Err(e);
        }
        proof {
            lemma_split(dk, e2, r2);
        }
        assert(dest@ + r2 == d0 + enc_broker(m, version));
        let ghost dk = dest@;
        put_i32(dest, self.port);
        proof {
            lemma_split(dk, e3, r3);
        }
        assert(dest@ + r3 == d0 + enc_broker(m, version));
        let ghost dk = dest@;
        if version >= 1 {
            if let Err(e) = put_nullable_string(dest, &self.rack) {
                assert(dest@.take(dk.len() as int) =~= dk);
                assert(dest@.take(d0.len() as int) =~= d0);
                return Err(e);
            }
        }
        assert(dest@ == dk + e4) by {
            if !has_rack(version) {
                assert(dk + e4 =~= dk);
            }
        }
        proof {
            lemma_split(dk, e4, r4);
        }
        assert(dest@ + r4 == d0 + enc_broker(m, version));
        assert(dest@ + r4 =~= dest@);
        Ok(())
    }

    /// Reads a broker at `version` from `src` at `pos`, returning how many bytes
    /// it took. On failure `self` is left as it was.
    pub fn decode_at(&mut self, src: &[u8], pos: usize, version: Version) -> (r: Result<usize, KfError>)
        requires
            pos <= src@.len(),
        ensures
            r matches Ok(n) ==> n <= src@.len() - pos && parse_broker(old(self).deep_view(), src@.skip(pos as int), version)
                == Ok::<(MetadataResponseBrokerModel, nat), KfError>((final(self).deep_view(), n as nat)),
            r matches Err(e) ==> parse_broker(old(self).deep_view(), src@.skip(pos as int), version)
                == Err::<(MetadataResponseBrokerModel, nat), KfError>(e) && *final(self) == *old(self),
    {
        let len = src.len();
        let ghost b0 = src@.skip(pos as int);
        let p0 = pos;
        let (node_id, n1) = get_i32(src, p0)?;
        let p1 = p0 + n1;
        let ghost b1 = b0.skip(n1 as int);
        proof {
            lemma_skip_skip(src@, p0 as int, n1 as int);
        }
        let (host, n2) = get_string(src, p1)?;
        let p2 = p1 + n2;
        let ghost b2 = b1.skip(n2 as int);
        proof {
            lemma_skip_skip(src@, p1 as int, n2 as int);
        }
        let (port, n3) = get_i32(src, p2)?;
        let p3 = p2 + n3;
        let ghost b3 = b2.skip(n3 as int);
        proof {
            lemma_skip_skip(src@, p2 as int, n3 as int);
        }
        let mut rack: Option<Option<String>> = None;
        let mut n4: usize = 0;
        if version >= 1 {
            let (v, n) = get_nullable_string(src, p3)?;
            rack = Some(v);
            n4 = n;
        }
        self.node_id = node_id;
        self.host = host;
        self.port = port;
        if let Some(v) = rack {
            self.rack = v;
        }
        Ok(n1 + n2 + n3 + n4)
    }
}

/// Writing one element at `version`.
pub open spec fn broker_enc(version: Version) -> spec_fn(MetadataResponseBrokerModel) -> Seq<u8> {
    |m: MetadataResponseBrokerModel| enc_broker(m, version)
}

/// Reading one element at `version`.
pub open spec fn broker_parse(version: Version) -> spec_fn(Seq<u8>) -> Result<(MetadataResponseBrokerModel, nat), KfError> {
    |b: Seq<u8>| parse_broker(broker_default(), b, version)
}

/// Every element fits its length prefixes, and there are not too many.
pub open spec fn brokers_fit(items: Seq<MetadataResponseBrokerModel>, version: Version) -> bool {
    array_fits(items) && forall|j: int| 0 <= j < items.len() ==> broker_fits(#[trigger] items[j], version)
}

/// Writes an ARRAY of MetadataResponseBroker; on a refusal what was written before it stays.
fn put_brokers(dest: &mut Vec<u8>, v: &Vec<MetadataResponseBroker>, version: Version) -> (r: Result<(), KfError>)
    ensures
        r is Ok <==> brokers_fit(v.deep_view(), version),
        r is Ok ==> final(dest)@ == old(dest)@ + enc_array(v.deep_view(), broker_enc(version)),
        r is Err ==> r == Err::<(), KfError>(KfError::TooLong) && extends(old(dest)@, final(dest)@),
{
    let n = v.len();
    if n > 0x7fff_ffff {
        assert(dest@.take(dest@.len() as int) =~= dest@);
        return Err(KfError::TooLong);
    }
    put_i32(dest, n as i32);
    let ghost start = dest@;
    let ghost items = v.deep_view();
    let mut i: usize = 0;
    while i < n
        invariant
            n == v@.len(),
            items == v.deep_view(),
            i <= n,
            start == old(dest)@ + enc_i32(n as i32),
            dest@ == start + concat_map(items.take(i as int), broker_enc(version)),
            forall|j: int| 0 <= j < i ==> broker_fits(#[trigger] items[j], version),
        decreases n - i,
    {
        proof {
            lemma_concat_map_push(items, i as int, broker_enc(version));
        }
        if let Err(e) = v[i].encode(dest, version) {
            assert(dest@.take(old(dest)@.len() as int) =~= old(dest)@);
            return Err(e);
        }
        i = i + 1;
    }
    assert(items.take(n as int) =~= items);
    Ok(())
}

/// Reads an ARRAY of MetadataResponseBroker, each element starting from its default.
fn get_brokers(src: &[u8], pos: usize, version: Version) -> (r: Result<(Vec<MetadataResponseBroker>, usize), KfError>)
    requires
        pos <= src@.len(),
    ensures
        lift(r) == parse_array(src@.skip(pos as int), broker_parse(version)),
        r matches Ok((_, n)) ==> n <= src@.len() - pos,
{
    proof {
        reveal(parse_array);
    }
    let len = src.len();
    let (n, k) = get_i32(src, pos)?;
    assert(k == 4);
    if n < 0 {
        return Err(KfError::InvalidLength);
    }
    let ghost b = src@.skip(pos as int).skip(4);
    let start = pos + 4;
    assert(b =~= src@.skip(start as int));
    let mut items: Vec<MetadataResponseBroker> = Vec::new();
    assert(items.deep_view() =~= Seq::<MetadataResponseBrokerModel>::empty());
    let mut off: usize = 0;
    let mut i: i32 = 0;
    while i < n
        invariant
            0 <= i <= n,
            len == src@.len(),
            start == pos + 4,
            parse_i32(src@.skip(pos as int)) == Ok::<(i32, nat), KfError>((n, 4nat)),
            b == src@.skip(pos as int).skip(4),
            start <= src@.len(),
            b == src@.skip(start as int),
            off <= src@.len() - start,
            parse_items(b, i as nat, broker_parse(version)) == Ok::<(Seq<MetadataResponseBrokerModel>, nat), KfError>(
                (items.deep_view(), off as nat),
            ),
        decreases n - i,
    {
        assert(src@.skip((start + off) as int) =~= b.skip(off as int));
        let mut x = MetadataResponseBroker::default();
        match x.decode_at(src, start + off, version) {
            Err(e) => {
                proof {
                    reveal(parse_array);
                    assert(parse_items(b, (i + 1) as nat, broker_parse(version)) == Err::<(Seq<MetadataResponseBrokerModel>, nat), KfError>(e));
                    lemma_items_err_persists(b, (i + 1) as nat, n as nat, broker_parse(version));
                }
                return Err(e);
            },
            Ok(l) => {
                let ghost old_items = items.deep_view();
                let ghost xv = x.deep_view();
                items.push(x);
                off = off + l;
                i = i + 1;
                assert(items.deep_view() =~= old_items.push(xv));
            },
        }
    }
    Ok((items, 4 + off))
}

/// Each element as read into a default one.
pub open spec fn brokers_seen(items: Seq<MetadataResponseBrokerModel>, version: Version) -> Seq<MetadataResponseBrokerModel> {
    items.map_values(|x: MetadataResponseBrokerModel| broker_seen(x, broker_default(), version))
}

/// Reading back an ARRAY of MetadataResponseBroker gives each element as read into a default one.
pub proof fn lemma_brokers_roundtrip(items: Seq<MetadataResponseBrokerModel>, version: Version, rest: Seq<u8>)
    requires
        brokers_fit(items, version),
    ensures
        parse_array(enc_array(items, broker_enc(version)) + rest, broker_parse(version))
            == Ok::<(Seq<MetadataResponseBrokerModel>, nat), KfError>((brokers_seen(items, version),
                enc_array(items, broker_enc(version)).len())),
{
    assert forall|i: int, r: Seq<u8>| 0 <= i < items.len() implies #[trigger] broker_parse(version)(
        broker_enc(version)(items[i]) + r)
        == Ok::<(MetadataResponseBrokerModel, nat), KfError>((broker_seen(items[i], broker_default(), version), broker_enc(version)(items[i]).len())) by {
        lemma_broker_roundtrip(items[i], broker_default(), version, r);
    }
    lemma_array_roundtrip(items, rest, broker_enc(version), broker_parse(version), |x: MetadataResponseBrokerModel| broker_seen(x, broker_default(), version));
}

// -----------------------------------
// MetadataRequestTopic
// -----------------------------------

#[derive(Debug)]
pub struct MetadataRequestTopic {
    /// The topic name.
    pub name: String,
}

/// What a `MetadataRequestTopic` holds: strings as their characters, vectors as sequences.
pub struct MetadataRequestTopicModel {
    pub name: Seq<char>,
}

impl DeepView for MetadataRequestTopic {
    type V = MetadataRequestTopicModel;

    open spec fn deep_view(&self) -> MetadataRequestTopicModel {
        MetadataRequestTopicModel {
            name: self.name@,
        }
    }
}

/// The value a default `MetadataRequestTopic` holds.
pub open spec fn request_topic_default() -> MetadataRequestTopicModel {
    MetadataRequestTopicModel {
        name: Seq::empty(),
    }
}

/// Every string, byte string and array that `version` carries fits its
/// length prefix.
pub open spec fn request_topic_fits(m: MetadataRequestTopicModel, version: Version) -> bool {
    &&& string_fits(m.name)
}

/// One field: STRING name; the same in every version.
pub open spec fn enc_request_topic(m: MetadataRequestTopicModel, version: Version) -> Seq<u8> {
    enc_string(m.name)
}

pub open spec fn parse_request_topic(
    b: Seq<u8>,
    version: Version,
) -> Result<(MetadataRequestTopicModel, nat), KfError> {
    match parse_string(b) {
        Err(e) => Err(e),
        Ok((name, n1)) => {
            Ok((MetadataRequestTopicModel { name }, n1))
        },
    }
}

/// Reading back a topic gives a topic written, whatever follows it.
pub proof fn lemma_request_topic_roundtrip(
    m: MetadataRequestTopicModel,
    version: Version,
    rest: Seq<u8>,
)
    requires
        request_topic_fits(m, version),
    ensures
        parse_request_topic(enc_request_topic(m, version) + rest, version)
            == Ok::<(MetadataRequestTopicModel, nat), KfError>((m, enc_request_topic(m, version).len())),
{
    let e1 = enc_string(m.name);
    let b0 = enc_request_topic(m, version) + rest;
    assert(parse_string(b0)
        == Ok::<(Seq<char>, nat), KfError>((m.name, e1.len()))) by {
        lemma_string_roundtrip(m.name, rest);
    }
}

impl Default for MetadataRequestTopic {
    fn default() -> (r: Self)
        ensures
            r.deep_view() == request_topic_default(),
    {
        let r = MetadataRequestTopic {
            name: String::new(),
        };
        r
    }
}

impl MetadataRequestTopic {

    /// Appends the encoding of a topic at `version`. A string, byte string or
    /// array too long for its length prefix is refused and nothing is written.
    pub fn encode(&self, dest: &mut Vec<u8>, version: Version) -> (r: Result<(), KfError>)
        ensures
            r is Ok <==> request_topic_fits(self.deep_view(), version),
            r is Ok ==> final(dest)@ == old(dest)@ + enc_request_topic(self.deep_view(), version),
            r is Err ==> r == Err::<(), KfError>(KfError::TooLong) && final(dest)@ == old(dest)@,
    {
        let start = dest.len();
        let r = self.encode_fields(dest, version);
        if r.is_err() {
            dest.truncate(start);
            assert(dest@ =~= old(dest)@);
        }
        r
    }

    /// Reads a topic at `version` from the start of `src`, returning how many
    /// bytes it took. On failure `self` is left as it was.
    pub fn decode(&mut self, src: &[u8], version: Version) -> (r: Result<usize, KfError>)
        ensures
            r matches Ok(n) ==> parse_request_topic(src@, version)
                == Ok::<(MetadataRequestTopicModel, nat), KfError>((final(self).deep_view(), n as nat)),
            r matches Err(e) ==> parse_request_topic(src@, version) == Err::<(MetadataRequestTopicModel, nat), KfError>(e)
                && *final(self) == *old(self),
    {
        assert(src@.skip(0) =~= src@);
        self.decode_at(src, 0, version)
    }

    fn encode_fields(&self, dest: &mut Vec<u8>, version: Version) -> (r: Result<(), KfError>)
        ensures
            r is Ok <==> request_topic_fits(self.deep_view(), version),
            r is Ok ==> final(dest)@ == old(dest)@ + enc_request_topic(self.deep_view(), version),
            r is Err ==> r == Err::<(), KfError>(KfError::TooLong) && extends(old(dest)@, final(dest)@),
    {
        let ghost d0 = dest@;
        let ghost m = self.deep_view();
        let ghost e1 = enc_string(m.name);
        let ghost r1 = Seq::<u8>::empty();
        assert(e1 + r1 =~= e1);
        let ghost dk = dest@;
        if let Err(e) = put_string(dest, &self.name) {
            assert(dest@.take(dk.len() as int) =~= dk);
            assert(dest@.take(d0.len() as int) =~= d0);
            return Err(e);
        }
        proof {
            lemma_split(dk, e1, r1);
        }
        assert(dest@ + r1 == d0 + enc_request_topic(m, version));
        assert(dest@ + r1 =~= dest@);
        Ok(())
    }

    /// Reads a topic at `version` from `src` at `pos`, returning how many bytes
    /// it took. On failure `self` is left as it was.
    pub fn decode_at(&mut self, src: &[u8], pos: usize, version: Version) -> (r: Result<usize, KfError>)
        requires
            pos <= src@.len(),
        ensures
            r matches Ok(n) ==> n <= src@.len() - pos && parse_request_topic(src@.skip(pos as int), version)
                == Ok::<(MetadataRequestTopicModel, nat), KfError>((final(self).deep_view(), n as nat)),
            r matches Err(e) ==> parse_request_topic(src@.skip(pos as int), version)
                == Err::<(MetadataRequestTopicModel, nat), KfError>(e) && *final(self) == *old(self),
    {
        let len = src.len();
        let ghost b0 = src@.skip(pos as int);
        let p0 = pos;
        let (name, n1) = get_string(src, p0)?;
        self.name = name;
        Ok(n1)
    }
}

/// Writing one element at `version`.
pub open spec fn request_topic_enc(version: Version) -> spec_fn(MetadataRequestTopicModel) -> Seq<u8> {
    |m: MetadataRequestTopicModel| enc_request_topic(m, version)
}

/// Reading one element at `version`.
pub open spec fn request_topic_parse(version: Version) -> spec_fn(Seq<u8>) -> Result<(MetadataRequestTopicModel, nat), KfError> {
    |b: Seq<u8>| parse_request_topic(b, version)
}

/// Every element fits its length prefixes, and there are not too many.
pub open spec fn request_topics_fit(items: Seq<MetadataRequestTopicModel>, version: Version) -> bool {
    array_fits(items) && forall|j: int| 0 <= j < items.len() ==> request_topic_fits(#[trigger] items[j], version)
}

/// Writes an ARRAY of MetadataRequestTopic; on a refusal what was written before it stays.
fn put_request_topics(dest: &mut Vec<u8>, v: &Vec<MetadataRequestTopic>, version: Version) -> (r: Result<(), KfError>)
    ensures
        r is Ok <==> request_topics_fit(v.deep_view(), version),
        r is Ok ==> final(dest)@ == old(dest)@ + enc_array(v.deep_view(), request_topic_enc(version)),
        r is Err ==> r == Err::<(), KfError>(KfError::TooLong) && extends(old(dest)@, final(dest)@),
{
    let n = v.len();
    if n > 0x7fff_ffff {
        assert(dest@.take(dest@.len() as int) =~= dest@);
        return Err(KfError::TooLong);
    }
    put_i32(dest, n as i32);
    let ghost start = dest@;
    let ghost items = v.deep_view();
    let mut i: usize = 0;
    while i < n
        invariant
            n == v@.len(),
            items == v.deep_view(),
            i <= n,
            start == old(dest)@ + enc_i32(n as i32),
            dest@ == start + concat_map(items.take(i as int), request_topic_enc(version)),
            forall|j: int| 0 <= j < i ==> request_topic_fits(#[trigger] items[j], version),
        decreases n - i,
    {
        proof {
            lemma_concat_map_push(items, i as int, request_topic_enc(version));
        }
        if let Err(e) = v[i].encode(dest, version) {
            assert(dest@.take(old(dest)@.len() as int) =~= old(dest)@);
            return Err(e);
        }
        i = i + 1;
    }
    assert(items.take(n as int) =~= items);
    Ok(())
}

/// Reads an ARRAY of MetadataRequestTopic, each element starting from its default.
fn get_request_topics(src: &[u8], pos: usize, version: Version) -> (r: Result<(Vec<MetadataRequestTopic>, usize), KfError>)
    requires
        pos <= src@.len(),
    ensures
        lift(r) == parse_array(src@.skip(pos as int), request_topic_parse(version)),
        r matches Ok((_, n)) ==> n <= src@.len() - pos,
{
    proof {
        reveal(parse_array);
    }
    let len = src.len();
    let (n, k) = get_i32(src, pos)?;
    assert(k == 4);
    if n < 0 {
        return Err(KfError::InvalidLength);
    }
    let ghost b = src@.skip(pos as int).skip(4);
    let start = pos + 4;
    assert(b =~= src@.skip(start as int));
    let mut items: Vec<MetadataRequestTopic> = Vec::new();
    assert(items.deep_view() =~= Seq::<MetadataRequestTopicModel>::empty());
    let mut off: usize = 0;
    let mut i: i32 = 0;
    while i < n
        invariant
            0 <= i <= n,
            len == src@.len(),
            start == pos + 4,
            parse_i32(src@.skip(pos as int)) == Ok::<(i32, nat), KfError>((n, 4nat)),
            b == src@.skip(pos as int).skip(4),
            start <= src@.len(),
            b == src@.skip(start as int),
            off <= src@.len() - start,
            parse_items(b, i as nat, request_topic_parse(version)) == Ok::<(Seq<MetadataRequestTopicModel>, nat), KfError>(
                (items.deep_view(), off as nat),
            ),
        decreases n - i,
    {
        assert(src@.skip((start + off) as int) =~= b.skip(off as int));
        let mut x = MetadataRequestTopic::default();
        match x.decode_at(src, start + off, version) {
            Err(e) => {
                proof {
                    reveal(parse_array);
                    assert(parse_items(b, (i + 1) as nat, request_topic_parse(version)) == Err::<(Seq<MetadataRequestTopicModel>, nat), KfError>(e));
                    lemma_items_err_persists(b, (i + 1) as nat, n as nat, request_topic_parse(version));
                }
                return Err(e);
            },
            Ok(l) => {
                let ghost old_items = items.deep_view();
                let ghost xv = x.deep_view();
                items.push(x);
                off = off + l;
                i = i + 1;
                assert(items.deep_view() =~= old_items.push(xv));
            },
        }
    }
    Ok((items, 4 + off))
}

/// Reading back an ARRAY of MetadataRequestTopic gives the elements written.
pub proof fn lemma_request_topics_roundtrip(items: Seq<MetadataRequestTopicModel>, version: Version, rest: Seq<u8>)
    requires
        request_topics_fit(items, version),
    ensures
        parse_array(enc_array(items, request_topic_enc(version)) + rest, request_topic_parse(version))
            == Ok::<(Seq<MetadataRequestTopicModel>, nat), KfError>((items, enc_array(items, request_topic_enc(version)).len())),
{
    assert forall|i: int, r: Seq<u8>| 0 <= i < items.len() implies #[trigger] request_topic_parse(version)(
        request_topic_enc(version)(items[i]) + r)
        == Ok::<(MetadataRequestTopicModel, nat), KfError>((items[i], request_topic_enc(version)(items[i]).len())) by {
        lemma_request_topic_roundtrip(items[i], version, r);
    }
    lemma_array_roundtrip(items, rest, request_topic_enc(version), request_topic_parse(version), |x: MetadataRequestTopicModel| x);
    assert(items.map_values(|x: MetadataRequestTopicModel| x) =~= items);
}

/// Null, or an array whose elements fit.
pub open spec fn nullable_request_topics_fit(items: Option<Seq<MetadataRequestTopicModel>>, version: Version) -> bool {
    match items {
        None => true,
        Some(s) => request_topics_fit(s, version),
    }
}

/// Writes a nullable ARRAY of MetadataRequestTopic; on a refusal what was written before
/// it stays.
fn put_nullable_request_topics(dest: &mut Vec<u8>, v: &Option<Vec<MetadataRequestTopic>>, version: Version) -> (r: Result<(), KfError>)
    ensures
        r is Ok <==> nullable_request_topics_fit(v.deep_view(), version),
        r is Ok ==> final(dest)@ == old(dest)@ + enc_nullable_array(v.deep_view(), request_topic_enc(version)),
        r is Err ==> r == Err::<(), KfError>(KfError::TooLong) && extends(old(dest)@, final(dest)@),
{
    match v {
        None => {
            put_i32(dest, -1);
            Ok(())
        },
        Some(items) => put_request_topics(dest, items, version),
    }
}

/// Reads a nullable ARRAY of MetadataRequestTopic.
fn get_nullable_request_topics(src: &[u8], pos: usize, version: Version) -> (r: Result<(Option<Vec<MetadataRequestTopic>>, usize), KfError>)
    requires
        pos <= src@.len(),
    ensures
        lift(r) == parse_nullable_array(src@.skip(pos as int), request_topic_parse(version)),
        r matches Ok((_, n)) ==> n <= src@.len() - pos,
{
    proof {
        reveal(parse_nullable_array);
    }
    let (n, _) = get_i32(src, pos)?;
    if n == -1 {
        return Ok((None, 4));
    }
    proof {
        lemma_nullable_array_not_null(src@.skip(pos as int), request_topic_parse(version));
    }
    let (items, l) = get_request_topics(src, pos, version)?;
    Ok((Some(items), l))
}

/// Reading back a nullable ARRAY of MetadataRequestTopic gives null, or the elements written.
pub proof fn lemma_nullable_request_topics_roundtrip(items: Option<Seq<MetadataRequestTopicModel>>, version: Version, rest: Seq<u8>)
    requires
        nullable_request_topics_fit(items, version),
    ensures
        parse_nullable_array(enc_nullable_array(items, request_topic_enc(version)) + rest, request_topic_parse(version))
            == Ok::<(Option<Seq<MetadataRequestTopicModel>>, nat), KfError>((items, enc_nullable_array(items, request_topic_enc(version)).len())),
{
    match items {
        None => {
            reveal(parse_nullable_array);
            lemma_i32_roundtrip(-1i32, rest);
        },
        Some(s) => {
            let b = enc_nullable_array(items, request_topic_enc(version)) + rest;
            let body = concat_map(s, request_topic_enc(version)) + rest;
            lemma_split(enc_i32(s.len() as i32), concat_map(s, request_topic_enc(version)), rest);
            lemma_i32_roundtrip(s.len() as i32, body);
            lemma_nullable_array_not_null(b, request_topic_parse(version));
            lemma_request_topics_roundtrip(s, version, rest);
        },
    }
}

// -----------------------------------
// KfMetadataRequest
// -----------------------------------

#[derive(Debug)]
pub struct KfMetadataRequest {
    /// The topics to fetch metadata for.
    pub topics: Option<Vec<MetadataRequestTopic>>,
    /// If this is true, the broker may auto-create topics that we requested which do not already
    /// exist, if it is configured to do so.
    pub allow_auto_topic_creation: bool,
}

/// What a `KfMetadataRequest` holds: strings as their characters, vectors as sequences.
pub struct KfMetadataRequestModel {
    pub topics: Option<Seq<MetadataRequestTopicModel>>,
    pub allow_auto_topic_creation: bool,
}

impl DeepView for KfMetadataRequest {
    type V = KfMetadataRequestModel;

    open spec fn deep_view(&self) -> KfMetadataRequestModel {
        KfMetadataRequestModel {
            topics: self.topics.deep_view(),
            allow_auto_topic_creation: self.allow_auto_topic_creation,
        }
    }
}

/// The value a default `KfMetadataRequest` holds.
pub open spec fn metadata_request_default() -> KfMetadataRequestModel {
    KfMetadataRequestModel {
        topics: None,
        allow_auto_topic_creation: false,
    }
}

/// `allow_auto_topic_creation` is on the wire from version 4.
pub open spec fn has_auto_topic_creation(version: Version) -> bool {
    version >= 4
}

/// Every string, byte string and array that `version` carries fits its
/// length prefix.
pub open spec fn metadata_request_fits(m: KfMetadataRequestModel, version: Version) -> bool {
    &&& nullable_request_topics_fit(m.topics, version)
}

/// Fields in order: nullable ARRAY topics, BOOLEAN allow_auto_topic_creation
/// (from version 4).
pub open spec fn enc_metadata_request(m: KfMetadataRequestModel, version: Version) -> Seq<u8> {
    enc_nullable_array(m.topics, request_topic_enc(version))
        + gated(has_auto_topic_creation(version), enc_bool(m.allow_auto_topic_creation))
}

/// Reading into `base`: a field that `version` does not carry keeps the
/// value it has in `base`.
pub open spec fn parse_metadata_request(
    base: KfMetadataRequestModel,
    b: Seq<u8>,
    version: Version,
) -> Result<(KfMetadataRequestModel, nat), KfError> {
    match parse_nullable_array(b, request_topic_parse(version)) {
        Err(e) => Err(e),
        Ok((topics, n1)) => {
            let b1 = b.skip(n1 as int);
            match parse_when(has_auto_topic_creation(version), base.allow_auto_topic_creation, parse_bool(b1)) {
                Err(e) => Err(e),
                Ok((allow_auto_topic_creation, n2)) => {
                    Ok((KfMetadataRequestModel { topics, allow_auto_topic_creation }, n1 + n2))
                },
            }
        },
    }
}

/// What reading `m`, written at `version`, into `base` gives: the fields
/// that `version` carries come from `m`, the others stay as in `base`.
pub open spec fn metadata_request_seen(
    m: KfMetadataRequestModel,
    base: KfMetadataRequestModel,
    version: Version,
) -> KfMetadataRequestModel {
    KfMetadataRequestModel {
        topics: m.topics,
        allow_auto_topic_creation: if has_auto_topic_creation(version) { m.allow_auto_topic_creation } else { base.allow_auto_topic_creation },
    }
}

/// Reading back into `base` gives the fields that `version` carries as
/// written and leaves the others as in `base`, whatever follows.
pub proof fn lemma_metadata_request_roundtrip(
    m: KfMetadataRequestModel,
    base: KfMetadataRequestModel,
    version: Version,
    rest: Seq<u8>,
)
    requires
        metadata_request_fits(m, version),
    ensures
        parse_metadata_request(base, enc_metadata_request(m, version) + rest, version)
            == Ok::<(KfMetadataRequestModel, nat), KfError>((metadata_request_seen(m, base, version), enc_metadata_request(m, version).len())),
{
    let e1 = enc_nullable_array(m.topics, request_topic_enc(version));
    let e2 = gated(has_auto_topic_creation(version), enc_bool(m.allow_auto_topic_creation));
    let r1 = e2;
    let b0 = enc_metadata_request(m, version) + rest;
    assert(parse_nullable_array(b0, request_topic_parse(version))
        == Ok::<(Option<Seq<MetadataRequestTopicModel>>, nat), KfError>((m.topics, e1.len()))) by {
        lemma_split(e1, r1, rest);
        lemma_nullable_request_topics_roundtrip(m.topics, version, r1 + rest);
    }
    let b1 = b0.skip(e1.len() as int);
    assert(b1 == r1 + rest) by {
        lemma_split(e1, r1, rest);
    }
    assert(parse_when(has_auto_topic_creation(version), base.allow_auto_topic_creation, parse_bool(b1))
        == Ok::<(bool, nat), KfError>((if has_auto_topic_creation(version) { m.allow_auto_topic_creation } else { base.allow_auto_topic_creation }, e2.len()))) by {
        if has_auto_topic_creation(version) {
            lemma_bool_roundtrip(m.allow_auto_topic_creation, rest);
        }
    }
}

impl Default for KfMetadataRequest {
    fn default() -> (r: Self)
        ensures
            r.deep_view() == metadata_request_default(),
    {
        let r = KfMetadataRequest {
            topics: None,
            allow_auto_topic_creation: false,
        };
        r
    }
}

impl Request for KfMetadataRequest {
    const API_KEY: u16 = 3;
    const MIN_API_VERSION: i16 = 0;
    const MAX_API_VERSION: i16 = 7;
    const DEFAULT_API_VERSION: i16 = 7;
    type Response = KfMetadataResponse;
}

impl KfMetadataRequest {

    /// Appends the encoding of the request at `version`. A string, byte string or
    /// array too long for its length prefix is refused and nothing is written.
    pub fn encode(&self, dest: &mut Vec<u8>, version: Version) -> (r: Result<(), KfError>)
        ensures
            r is Ok <==> metadata_request_fits(self.deep_view(), version),
            r is Ok ==> final(dest)@ == old(dest)@ + enc_metadata_request(self.deep_view(), version),
            r is Err ==> r == Err::<(), KfError>(KfError::TooLong) && final(dest)@ == old(dest)@,
    {
        let start = dest.len();
        let r = self.encode_fields(dest, version);
        if r.is_err() {
            dest.truncate(start);
            assert(dest@ =~= old(dest)@);
        }
        r
    }

    /// Reads the request at `version` from the start of `src`, returning how many
    /// bytes it took. On failure `self` is left as it was.
    pub fn decode(&mut self, src: &[u8], version: Version) -> (r: Result<usize, KfError>)
        ensures
            r matches Ok(n) ==> parse_metadata_request(old(self).deep_view(), src@, version)
                == Ok::<(KfMetadataRequestModel, nat), KfError>((final(self).deep_view(), n as nat)),
            r matches Err(e) ==> parse_metadata_request(old(self).deep_view(), src@, version) == Err::<(KfMetadataRequestModel, nat), KfError>(e)
                && *final(self) == *old(self),
    {
        assert(src@.skip(0) =~= src@);
        self.decode_at(src, 0, version)
    }

    fn encode_fields(&self, dest: &mut Vec<u8>, version: Version) -> (r: Result<(), KfError>)
        ensures
            r is Ok <==> metadata_request_fits(self.deep_view(), version),
            r is Ok ==> final(dest)@ == old(dest)@ + enc_metadata_request(self.deep_view(), version),
            r is Err ==> r == Err::<(), KfError>(KfError::TooLong) && extends(old(dest)@, final(dest)@),
    {
        let ghost d0 = dest@;
        let ghost m = self.deep_view();
        let ghost e1 = enc_nullable_array(m.topics, request_topic_enc(version));
        let ghost e2 = gated(has_auto_topic_creation(version), enc_bool(m.allow_auto_topic_creation));
        let ghost r1 = e2;
        let ghost r2 = Seq::<u8>::empty();
        assert(e2 + r2 =~= e2);
        let ghost dk = dest@;
        if let Err(e) = put_nullable_request_topics(dest, &self.topics, version) {
            assert(dest@.take(dk.len() as int) =~= dk);
            assert(dest@.take(d0.len() as int) =~= d0);
            return Err(e);
        }
        proof {
            lemma_split(dk, e1, r1);
        }
        assert(dest@ + r1 == d0 + enc_metadata_request(m, version));
        let ghost dk = dest@;
        if version >= 4 {
            put_bool(dest, self.allow_auto_topic_creation);
        }
        assert(dest@ == dk + e2) by {
            if !has_auto_topic_creation(version) {
                assert(dk + e2 =~= dk);
            }
        }
        proof {
            lemma_split(dk, e2, r2);
        }
        assert(dest@ + r2 == d0 + enc_metadata_request(m, version));
        assert(dest@ + r2 =~= dest@);
        Ok(())
    }

    /// Reads the request at `version` from `src` at `pos`, returning how many bytes
    /// it took. On failure `self` is left as it was.
    pub fn decode_at(&mut self, src: &[u8], pos: usize, version: Version) -> (r: Result<usize, KfError>)
        requires
            pos <= src@.len(),
        ensures
            r matches Ok(n) ==> n <= src@.len() - pos && parse_metadata_request(old(self).deep_view(), src@.skip(pos as int), version)
                == Ok::<(KfMetadataRequestModel, nat), KfError>((final(self).deep_view(), n as nat)),
            r matches Err(e) ==> parse_metadata_request(old(self).deep_view(), src@.skip(pos as int), version)
                == Err::<(KfMetadataRequestModel, nat), KfError>(e) && *final(self) == *old(self),
    {
        let len = src.len();
        let ghost b0 = src@.skip(pos as int);
        let p0 = pos;
        let (topics, n1) = get_nullable_request_topics(src, p0, version)?;
        let p1 = p0 + n1;
        let ghost b1 = b0.skip(n1 as int);
        proof {
            lemma_skip_skip(src@, p0 as int, n1 as int);
        }
        let mut allow_auto_topic_creation: Option<bool> = None;
        let mut n2: usize = 0;
        if version >= 4 {
            let (v, n) = get_bool(src, p1)?;
            allow_auto_topic_creation = Some(v);
            n2 = n;
        }
        self.topics = topics;
        if let Some(v) = allow_auto_topic_creation {
            self.allow_auto_topic_creation = v;
        }
        Ok(n1 + n2)
    }
}

// -----------------------------------
// KfMetadataResponse
// -----------------------------------

#[derive(Debug)]
pub struct KfMetadataResponse {
    /// The duration in milliseconds for which the request was throttled due to a quota violation,
    /// or zero if the request did not violate any quota.
    pub throttle_time_ms: i32,
    /// Each broker in the response.
    pub brokers: Vec<MetadataResponseBroker>,
    /// The cluster ID that responding broker belongs to.
    pub cluster_id: Option<String>,
    /// The ID of the controller broker.
    pub controller_id: i32,
    /// Each topic in the response.
    pub topics: Vec<MetadataResponseTopic>,
}

/// What a `KfMetadataResponse` holds: strings as their characters, vectors as sequences.
pub struct KfMetadataResponseModel {
    pub throttle_time_ms: i32,
    pub brokers: Seq<MetadataResponseBrokerModel>,
    pub cluster_id: Option<Seq<char>>,
    pub controller_id: i32,
    pub topics: Seq<MetadataResponseTopicModel>,
}

impl DeepView for KfMetadataResponse {
    type V = KfMetadataResponseModel;

    open spec fn deep_view(&self) -> KfMetadataResponseModel {
        KfMetadataResponseModel {
            throttle_time_ms: self.throttle_time_ms,
            brokers: self.brokers.deep_view(),
            cluster_id: self.cluster_id.deep_view(),
            controller_id: self.controller_id,
            topics: self.topics.deep_view(),
        }
    }
}

/// The value a default `KfMetadataResponse` holds.
pub open spec fn metadata_response_default() -> KfMetadataResponseModel {
    KfMetadataResponseModel {
        throttle_time_ms: 0,
        brokers: Seq::empty(),
        cluster_id: None,
        controller_id: 0,
        topics: Seq::empty(),
    }
}

/// `throttle_time_ms` is on the wire from version 3.
pub open spec fn has_metadata_throttle(version: Version) -> bool {
    version >= 3
}

/// `cluster_id` is on the wire from version 2.
pub open spec fn has_cluster_id(version: Version) -> bool {
    version >= 2
}

/// `controller_id` is on the wire from version 1.
pub open spec fn has_controller_id(version: Version) -> bool {
    version >= 1
}

/// Every string, byte string and array that `version` carries fits its
/// length prefix.
pub open spec fn metadata_response_fits(m: KfMetadataResponseModel, version: Version) -> bool {
    &&& brokers_fit(m.brokers, version)
    &&& has_cluster_id(version) ==> nullable_string_fits(m.cluster_id)
    &&& topics_fit(m.topics, version)
}

/// Fields in order: INT32 throttle_time_ms (from version 3), ARRAY brokers,
/// NULLABLE_STRING cluster_id (from version 2), INT32 controller_id (from
/// version 1), ARRAY topics.
pub open spec fn enc_metadata_response(m: KfMetadataResponseModel, version: Version) -> Seq<u8> {
    gated(has_metadata_throttle(version), enc_i32(m.throttle_time_ms))
        + (enc_array(m.brokers, broker_enc(version))
        + (gated(has_cluster_id(version), enc_nullable_string(m.cluster_id))
        + (gated(has_controller_id(version), enc_i32(m.controller_id))
        + enc_array(m.topics, topic_enc(version)))))
}

/// Reading into `base`: a field that `version` does not carry keeps the
/// value it has in `base`.
pub open spec fn parse_metadata_response(
    base: KfMetadataResponseModel,
    b: Seq<u8>,
    version: Version,
) -> Result<(KfMetadataResponseModel, nat), KfError> {
    match parse_when(has_metadata_throttle(version), base.throttle_time_ms, parse_i32(b)) {
        Err(e) => Err(e),
        Ok((throttle_time_ms, n1)) => {
            let b1 = b.skip(n1 as int);
            match parse_array(b1, broker_parse(version)) {
                Err(e) => Err(e),
                Ok((brokers, n2)) => {
                    let b2 = b1.skip(n2 as int);
                    match parse_when(has_cluster_id(version), base.cluster_id, parse_nullable_string(b2)) {
                        Err(e) => Err(e),
                        Ok((cluster_id, n3)) => {
                            let b3 = b2.skip(n3 as int);
                            match parse_when(has_controller_id(version), base.controller_id, parse_i32(b3)) {
                                Err(e) => Err(e),
                                Ok((controller_id, n4)) => {
                                    let b4 = b3.skip(n4 as int);
                                    match parse_array(b4, topic_parse(version)) {
                                        Err(e) => Err(e),
                                        Ok((topics, n5)) => {
                                            Ok((
                                                KfMetadataResponseModel { throttle_time_ms, brokers, cluster_id, controller_id, topics },
                                                n1 + n2 + n3 + n4 + n5,
                                            ))
                                        },
                                    }
                                },
                            }
                        },
                    }
                },
            }
        },
    }
}

/// What reading `m`, written at `version`, into `base` gives: the fields
/// that `version` carries come from `m`, the others stay as in `base`.
pub open spec fn metadata_response_seen(
    m: KfMetadataResponseModel,
    base: KfMetadataResponseModel,
    version: Version,
) -> KfMetadataResponseModel {
    KfMetadataResponseModel {
        throttle_time_ms: if has_metadata_throttle(version) { m.throttle_time_ms } else { base.throttle_time_ms },
        brokers: brokers_seen(m.brokers, version),
        cluster_id: if has_cluster_id(version) { m.cluster_id } else { base.cluster_id },
        controller_id: if has_controller_id(version) { m.controller_id } else { base.controller_id },
        topics: topics_seen(m.topics, version),
    }
}

/// Reading back into `base` gives the fields that `version` carries as
/// written and leaves the others as in `base`, whatever follows.
#[verifier::rlimit(50)]
pub proof fn lemma_metadata_response_roundtrip(
    m: KfMetadataResponseModel,
    base: KfMetadataResponseModel,
    version: Version,
    rest: Seq<u8>,
)
    requires
        metadata_response_fits(m, version),
    ensures
        parse_metadata_response(base, enc_metadata_response(m, version) + rest, version)
            == Ok::<(KfMetadataResponseModel, nat), KfError>((metadata_response_seen(m, base, version), enc_metadata_response(m, version).len())),
{
    let e1 = gated(has_metadata_throttle(version), enc_i32(m.throttle_time_ms));
    let e2 = enc_array(m.brokers, broker_enc(version));
    let e3 = gated(has_cluster_id(version), enc_nullable_string(m.cluster_id));
    let e4 = gated(has_controller_id(version), enc_i32(m.controller_id));
    let e5 = enc_array(m.topics, topic_enc(version));
    let r1 = e2 + (e3 + (e4 + e5));
    let r2 = e3 + (e4 + e5);
    let r3 = e4 + e5;
    let r4 = e5;
    let b0 = enc_metadata_response(m, version) + rest;
    assert(parse_when(has_metadata_throttle(version), base.throttle_time_ms, parse_i32(b0))
        == Ok::<(i32, nat), KfError>((if has_metadata_throttle(version) { m.throttle_time_ms } else { base.throttle_time_ms }, e1.len()))) by {
        lemma_split(e1, r1, rest);
        if has_metadata_throttle(version) {
            lemma_i32_roundtrip(m.throttle_time_ms, r1 + rest);
        }
    }
    let b1 = b0.skip(e1.len() as int);
    assert(b1 == r1 + rest) by {
        lemma_split(e1, r1, rest);
    }
    assert(parse_array(b1, broker_parse(version))
        == Ok::<(Seq<MetadataResponseBrokerModel>, nat), KfError>((brokers_seen(m.brokers, version), e2.len()))) by {
        lemma_split(e2, r2, rest);
        lemma_brokers_roundtrip(m.brokers, version, r2 + rest);
    }
    let b2 = b1.skip(e2.len() as int);
    assert(b2 == r2 + rest) by {
        lemma_split(e2, r2, rest);
    }
    assert(parse_when(has_cluster_id(version), base.cluster_id, parse_nullable_string(b2))
        == Ok::<(Option<Seq<char>>, nat), KfError>((if has_cluster_id(version) { m.cluster_id } else { base.cluster_id }, e3.len()))) by {
        lemma_split(e3, r3, rest);
        if has_cluster_id(version) {
            lemma_nullable_string_roundtrip(m.cluster_id, r3 + rest);
        }
    }
    let b3 = b2.skip(e3.len() as int);
    assert(b3 == r3 + rest) by {
        lemma_split(e3, r3, rest);
    }
    assert(parse_when(has_controller_id(version), base.controller_id, parse_i32(b3))
        == Ok::<(i32, nat), KfError>((if has_controller_id(version) { m.controller_id } else { base.controller_id }, e4.len()))) by {
        lemma_split(e4, r4, rest);
        if has_controller_id(version) {
            lemma_i32_roundtrip(m.controller_id, r4 + rest);
        }
    }
    let b4 = b3.skip(e4.len() as int);
    assert(b4 == r4 + rest) by {
        lemma_split(e4, r4, rest);
    }
    assert(parse_array(b4, topic_parse(version))
        == Ok::<(Seq<MetadataResponseTopicModel>, nat), KfError>((topics_seen(m.topics, version), e5.len()))) by {
        lemma_topics_roundtrip(m.topics, version, rest);
    }
}

impl Default for KfMetadataResponse {
    fn default() -> (r: Self)
        ensures
            r.deep_view() == metadata_response_default(),
    {
        let r = KfMetadataResponse {
            throttle_time_ms: 0,
            brokers: Vec::new(),
            cluster_id: None,
            controller_id: 0,
            topics: Vec::new(),
        };
        assert(r.brokers.deep_view() =~= Seq::<MetadataResponseBrokerModel>::empty());
        assert(r.topics.deep_view() =~= Seq::<MetadataResponseTopicModel>::empty());
        r
    }
}

impl KfMetadataResponse {

    /// Appends the encoding of the response at `version`. A string, byte string or
    /// array too long for its length prefix is refused and nothing is written.
    pub fn encode(&self, dest: &mut Vec<u8>, version: Version) -> (r: Result<(), KfError>)
        ensures
            r is Ok <==> metadata_response_fits(self.deep_view(), version),
            r is Ok ==> final(dest)@ == old(dest)@ + enc_metadata_response(self.deep_view(), version),
            r is Err ==> r == Err::<(), KfError>(KfError::TooLong) && final(dest)@ == old(dest)@,
    {
        let start = dest.len();
        let r = self.encode_fields(dest, version);
        if r.is_err() {
            dest.truncate(start);
            assert(dest@ =~= old(dest)@);
        }
        r
    }

    /// Reads the response at `version` from the start of `src`, returning how many
    /// bytes it took. On failure `self` is left as it was.
    pub fn decode(&mut self, src: &[u8], version: Version) -> (r: Result<usize, KfError>)
        ensures
            r matches Ok(n) ==> parse_metadata_response(old(self).deep_view(), src@, version)
                == Ok::<(KfMetadataResponseModel, nat), KfError>((final(self).deep_view(), n as nat)),
            r matches Err(e) ==> parse_metadata_response(old(self).deep_view(), src@, version) == Err::<(KfMetadataResponseModel, nat), KfError>(e)
                && *final(self) == *old(self),
    {
        assert(src@.skip(0) =~= src@);
        self.decode_at(src, 0, version)
    }

    fn encode_fields(&self, dest: &mut Vec<u8>, version: Version) -> (r: Result<(), KfError>)
        ensures
            r is Ok <==> metadata_response_fits(self.deep_view(), version),
            r is Ok ==> final(dest)@ == old(dest)@ + enc_metadata_response(self.deep_view(), version),
            r is Err ==> r == Err::<(), KfError>(KfError::TooLong) && extends(old(dest)@, final(dest)@),
    {
        let ghost d0 = dest@;
        let ghost m = self.deep_view();
        let ghost e1 = gated(has_metadata_throttle(version), enc_i32(m.throttle_time_ms));
        let ghost e2 = enc_array(m.brokers, broker_enc(version));
        let ghost e3 = gated(has_cluster_id(version), enc_nullable_string(m.cluster_id));
        let ghost e4 = gated(has_controller_id(version), enc_i32(m.controller_id));
        let ghost e5 = enc_array(m.topics, topic_enc(version));
        let ghost r1 = e2 + (e3 + (e4 + e5));
        let ghost r2 = e3 + (e4 + e5);
        let ghost r3 = e4 + e5;
        let ghost r4 = e5;
        let ghost r5 = Seq::<u8>::empty();
        assert(e5 + r5 =~= e5);
        let ghost dk = dest@;
        if version >= 3 {
            put_i32(dest, self.throttle_time_ms);
        }
        assert(dest@ == dk + e1) by {
            if !has_metadata_throttle(version) {
                assert(dk + e1 =~= dk);
            }
        }
        proof {
            lemma_split(dk, e1, r1);
        }
        assert(dest@ + r1 == d0 + enc_metadata_response(m, version));
        let ghost dk = dest@;
        if let Err(e) = put_brokers(dest, &self.brokers, version) {
            assert(dest@.take(dk.len() as int) =~= dk);
            assert(dest@.take(d0.len() as int) =~= d0);
            return Err(e);
        }
        proof {
            lemma_split(dk, e2, r2);
        }
        assert(dest@ + r2 == d0 + enc_metadata_response(m, version));
        let ghost dk = dest@;
        if version >= 2 {
            if let Err(e) = put_nullable_string(dest, &self.cluster_id) {
                assert(dest@.take(dk.len() as int) =~= dk);
                assert(dest@.take(d0.len() as int) =~= d0);
                return Err(e);
            }
        }
        assert(dest@ == dk + e3) by {
            if !has_cluster_id(version) {
                assert(dk + e3 =~= dk);
            }
        }
        proof {
            lemma_split(dk, e3, r3);
        }
        assert(dest@ + r3 == d0 + enc_metadata_response(m, version));
        let ghost dk = dest@;
        if version >= 1 {
            put_i32(dest, self.controller_id);
        }
        assert(dest@ == dk + e4) by {
            if !has_controller_id(version) {
                assert(dk + e4 =~= dk);
            }
        }
        proof {
            lemma_split(dk, e4, r4);
        }
        assert(dest@ + r4 == d0 + enc_metadata_response(m, version));
        let ghost dk = dest@;
        if let Err(e) = put_topics(dest, &self.topics, version) {
            assert(dest@.take(dk.len() as int) =~= dk);
            assert(dest@.take(d0.len() as int) =~= d0);
            return Err(e);
        }
        proof {
            lemma_split(dk, e5, r5);
        }
        assert(dest@ + r5 == d0 + enc_metadata_response(m, version));
        assert(dest@ + r5 =~= dest@);
        Ok(())
    }

    /// Reads the response at `version` from `src` at `pos`, returning how many bytes
    /// it took. On failure `self` is left as it was.
    pub fn decode_at(&mut self, src: &[u8], pos: usize, version: Version) -> (r: Result<usize, KfError>)
        requires
            pos <= src@.len(),
        ensures
            r matches Ok(n) ==> n <= src@.len() - pos && parse_metadata_response(old(self).deep_view(), src@.skip(pos as int), version)
                == Ok::<(KfMetadataResponseModel, nat), KfError>((final(self).deep_view(), n as nat)),
            r matches Err(e) ==> parse_metadata_response(old(self).deep_view(), src@.skip(pos as int), version)
                == Err::<(KfMetadataResponseModel, nat), KfError>(e) && *final(self) == *old(self),
    {
        let len = src.len();
        let ghost b0 = src@.skip(pos as int);
        let p0 = pos;
        let mut throttle_time_ms: Option<i32> = None;
        let mut n1: usize = 0;
        if version >= 3 {
            let (v, n) = get_i32(src, p0)?;
            throttle_time_ms = Some(v);
            n1 = n;
        }
        let p1 = p0 + n1;
        let ghost b1 = b0.skip(n1 as int);
        proof {
            lemma_skip_skip(src@, p0 as int, n1 as int);
        }
        let (brokers, n2) = get_brokers(src, p1, version)?;
        let p2 = p1 + n2;
        let ghost b2 = b1.skip(n2 as int);
        proof {
            lemma_skip_skip(src@, p1 as int, n2 as int);
        }
        let mut cluster_id: Option<Option<String>> = None;
        let mut n3: usize = 0;
        if version >= 2 {
            let (v, n) = get_nullable_string(src, p2)?;
            cluster_id = Some(v);
            n3 = n;
        }
        let p3 = p2 + n3;
        let ghost b3 = b2.skip(n3 as int);
        proof {
            lemma_skip_skip(src@, p2 as int, n3 as int);
        }
        let mut controller_id: Option<i32> = None;
        let mut n4: usize = 0;
        if version >= 1 {
            let (v, n) = get_i32(src, p3)?;
            controller_id = Some(v);
            n4 = n;
        }
        let p4 = p3 + n4;
        let ghost b4 = b3.skip(n4 as int);
        proof {
            lemma_skip_skip(src@, p3 as int, n4 as int);
        }
        let (topics, n5) = get_topics(src, p4, version)?;
        if let Some(v) = throttle_time_ms {
            self.throttle_time_ms = v;
        }
        self.brokers = brokers;
        if let Some(v) = cluster_id {
            self.cluster_id = v;
        }
        if let Some(v) = controller_id {
            self.controller_id = v;
        }
        self.topics = topics;
        Ok(n1 + n2 + n3 + n4 + n5)
    }
}

} // verus!
