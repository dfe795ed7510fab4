//! The DescribeGroups request and response.
use vstd::prelude::*;

use crate::api::{ErrorCode, Request, Version};
use crate::wire::{
    array_fits, bytes_fit, concat_map, enc_array, enc_bytes, enc_i16, enc_i32, enc_string, extends,
    gated, get_bytes, get_i16, get_i32, get_string, get_string_array, lemma_array_roundtrip,
    lemma_bytes_roundtrip, lemma_concat_map_push, lemma_i16_roundtrip, lemma_i32_roundtrip,
    lemma_items_err_persists, lemma_skip_skip, lemma_split, lemma_string_array_roundtrip,
    lemma_string_roundtrip, lift, parse_array, parse_bytes, parse_i16, parse_i32, parse_items,
    parse_string, parse_when, put_bytes, put_i16, put_i32, put_string, put_string_array, string_enc,
    string_fits, string_parse, strings_fit, KfError,
};

verus! {

// -----------------------------------
// DescribedGroupMember
// -----------------------------------

#[derive(Debug)]
pub struct DescribedGroupMember {
    /// The member ID assigned by the group coordinator.
    pub member_id: String,
    /// The client ID used in the member's latest join group request.
    pub client_id: String,
    /// The client host.
    pub client_host: String,
    /// The metadata corresponding to the current group protocol in use.
    pub member_metadata: Vec<u8>,
    /// The current assignment provided by the group leader.
    pub member_assignment: Vec<u8>,
}

/// What a `DescribedGroupMember` holds: strings as their characters, vectors as sequences.
pub struct DescribedGroupMemberModel {
    pub member_id: Seq<char>,
    pub client_id: Seq<char>,
    pub client_host: Seq<char>,
    pub member_metadata: Seq<u8>,
    pub member_assignment: Seq<u8>,
}

impl DeepView for DescribedGroupMember {
    type V = DescribedGroupMemberModel;

    open spec fn deep_view(&self) -> DescribedGroupMemberModel {
        DescribedGroupMemberModel {
            member_id: self.member_id@,
            client_id: self.client_id@,
            client_host: self.client_host@,
            member_metadata: self.member_metadata@,
            member_assignment: self.member_assignment@,
        }
    }
}

/// The value a default `DescribedGroupMember` holds.
pub open spec fn member_default() -> DescribedGroupMemberModel {
    DescribedGroupMemberModel {
        member_id: Seq::empty(),
        client_id: Seq::empty(),
        client_host: Seq::empty(),
        member_metadata: Seq::empty(),
        member_assignment: Seq::empty(),
    }
}

/// Every string, byte string and array that `version` carries fits its
/// length prefix.
pub open spec fn member_fits(m: DescribedGroupMemberModel, version: Version) -> bool {
    &&& string_fits(m.member_id)
    &&& string_fits(m.client_id)
    &&& string_fits(m.client_host)
    &&& bytes_fit(m.member_metadata)
    &&& bytes_fit(m.member_assignment)
}

/// Fields in order: STRING member_id, STRING client_id, STRING client_host,
/// BYTES member_metadata, BYTES member_assignment; the same in every version.
pub open spec fn enc_member(m: DescribedGroupMemberModel, version: Version) -> Seq<u8> {
    enc_string(m.member_id)
        + (enc_string(m.client_id)
        + (enc_string(m.client_host)
        + (enc_bytes(m.member_metadata)
        + enc_bytes(m.member_assignment))))
}

pub open spec fn parse_member(
    b: Seq<u8>,
    version: Version,
) -> Result<(DescribedGroupMemberModel, nat), KfError> {
    match parse_string(b) {
        Err(e) => Err(e),
        Ok((member_id, n1)) => {
            let b1 = b.skip(n1 as int);
            match parse_string(b1) {
                Err(e) => Err(e),
                Ok((client_id, n2)) => {
                    let b2 = b1.skip(n2 as int);
                    match parse_string(b2) {
                        Err(e) => Err(e),
                        Ok((client_host, n3)) => {
                            let b3 = b2.skip(n3 as int);
                            match parse_bytes(b3) {
                                Err(e) => Err(e),
                                Ok((member_metadata, n4)) => {
                                    let b4 = b3.skip(n4 as int);
                                    match parse_bytes(b4) {
                                        Err(e) => Err(e),
                                        Ok((member_assignment, n5)) => {
                                            Ok((
                                                DescribedGroupMemberModel { member_id, client_id, client_host, member_metadata, member_assignment },
                                                n1 + n2 + n3 + n4 + n5,
                                            ))
                                        },
                                    }
                                },
                            }
                        },
                    }
                },
            }
        },
    }
}

/// Reading back a member gives a member written, whatever follows it.
pub proof fn lemma_member_roundtrip(
    m: DescribedGroupMemberModel,
    version: Version,
    rest: Seq<u8>,
)
    requires
        member_fits(m, version),
    ensures
        parse_member(enc_member(m, version) + rest, version)
            == Ok::<(DescribedGroupMemberModel, nat), KfError>((m, enc_member(m, version).len())),
{
    let e1 = enc_string(m.member_id);
    let e2 = enc_string(m.client_id);
    let e3 = enc_string(m.client_host);
    let e4 = enc_bytes(m.member_metadata);
    let e5 = enc_bytes(m.member_assignment);
    let r1 = e2 + (e3 + (e4 + e5));
    let r2 = e3 + (e4 + e5);
    let r3 = e4 + e5;
    let r4 = e5;
    let b0 = enc_member(m, version) + rest;
    assert(parse_string(b0)
        == Ok::<(Seq<char>, nat), KfError>((m.member_id, e1.len()))) by {
        lemma_split(e1, r1, rest);
        lemma_string_roundtrip(m.member_id, r1 + rest);
    }
    let b1 = b0.skip(e1.len() as int);
    assert(b1 == r1 + rest) by {
        lemma_split(e1, r1, rest);
    }
    assert(parse_string(b1)
        == Ok::<(Seq<char>, nat), KfError>((m.client_id, e2.len()))) by {
        lemma_split(e2, r2, rest);
        lemma_string_roundtrip(m.client_id, r2 + rest);
    }
    let b2 = b1.skip(e2.len() as int);
    assert(b2 == r2 + rest) by {
        lemma_split(e2, r2, rest);
    }
    assert(parse_string(b2)
        == Ok::<(Seq<char>, nat), KfError>((m.client_host, e3.len()))) by {
        lemma_split(e3, r3, rest);
        lemma_string_roundtrip(m.client_host, r3 + rest);
    }
    let b3 = b2.skip(e3.len() as int);
    assert(b3 == r3 + rest) by {
        lemma_split(e3, r3, rest);
    }
    assert(parse_bytes(b3)
        == Ok::<(Seq<u8>, nat), KfError>((m.member_metadata, e4.len()))) by {
        lemma_split(e4, r4, rest);
        lemma_bytes_roundtrip(m.member_metadata, r4 + rest);
    }
    let b4 = b3.skip(e4.len() as int);
    assert(b4 == r4 + rest) by {
        lemma_split(e4, r4, rest);
    }
    assert(parse_bytes(b4)
        == Ok::<(Seq<u8>, nat), KfError>((m.member_assignment, e5.len()))) by {
        lemma_bytes_roundtrip(m.member_assignment, rest);
    }
}

impl Default for DescribedGroupMember {
    fn default() -> (r: Self)
        ensures
            r.deep_view() == member_default(),
    {
        let r = DescribedGroupMember {
            member_id: String::new(),
            client_id: String::new(),
            client_host: String::new(),
            member_metadata: Vec::new(),
            member_assignment: Vec::new(),
        };
        r
    }
}

impl DescribedGroupMember {

    /// Appends the encoding of a member at `version`. A string, byte string or
    /// array too long for its length prefix is refused and nothing is written.
    pub fn encode(&self, dest: &mut Vec<u8>, version: Version) -> (r: Result<(), KfError>)
        ensures
            r is Ok <==> member_fits(self.deep_view(), version),
            r is Ok ==> final(dest)@ == old(dest)@ + enc_member(self.deep_view(), version),
            r is Err ==> r == Err::<(), KfError>(KfError::TooLong) && final(dest)@ == old(dest)@,
    {
        let start = dest.len();
        let r = self.encode_fields(dest, version);
        if r.is_err() {
            dest.truncate(start);
            assert(dest@ =~= old(dest)@);
        }
        r
    }

    /// Reads a member at `version` from the start of `src`, returning how many
    /// bytes it took. On failure `self` is left as it was.
    pub fn decode(&mut self, src: &[u8], version: Version) -> (r: Result<usize, KfError>)
        ensures
            r matches Ok(n) ==> parse_member(src@, version)
                == Ok::<(DescribedGroupMemberModel, nat), KfError>((final(self).deep_view(), n as nat)),
            r matches Err(e) ==> parse_member(src@, version) == Err::<(DescribedGroupMemberModel, nat), KfError>(e)
                && *final(self) == *old(self),
    {
        assert(src@.skip(0) =~= src@);
        self.decode_at(src, 0, version)
    }

    fn encode_fields(&self, dest: &mut Vec<u8>, version: Version) -> (r: Result<(), KfError>)
        ensures
            r is Ok <==> member_fits(self.deep_view(), version),
            r is Ok ==> final(dest)@ == old(dest)@ + enc_member(self.deep_view(), version),
            r is Err ==> r == Err::<(), KfError>(KfError::TooLong) && extends(old(dest)@, final(dest)@),
    {
        let ghost d0 = dest@;
        let ghost m = self.deep_view();
        let ghost e1 = enc_string(m.member_id);
        let ghost e2 = enc_string(m.client_id);
        let ghost e3 = enc_string(m.client_host);
        let ghost e4 = enc_bytes(m.member_metadata);
        let ghost e5 = enc_bytes(m.member_assignment);
        let ghost r1 = e2 + (e3 + (e4 + e5));
        let ghost r2 = e3 + (e4 + e5);
        let ghost r3 = e4 + e5;
        let ghost r4 = e5;
        let ghost r5 = Seq::<u8>::empty();
        assert(e5 + r5 =~= e5);
        let ghost dk = dest@;
        if let Err(e) = put_string(dest, &self.member_id) {
            assert(dest@.take(dk.len() as int) =~= dk);
            assert(dest@.take(d0.len() as int) =~= d0);
            return Err(e);
        }
        proof {
            lemma_split(dk, e1, r1);
        }
        assert(dest@ + r1 == d0 + enc_member(m, version));
        let ghost dk = dest@;
        if let Err(e) = put_string(dest, &self.client_id) {
            assert(dest@.take(dk.len() as int) =~= dk);
            assert(dest@.take(d0.len() as int) =~= d0);
            return Err(e);
        }
        proof {
            lemma_split(dk, e2, r2);
        }
        assert(dest@ + r2 == d0 + enc_member(m, version));
        let ghost dk = dest@;
        if let Err(e) = put_string(dest, &self.client_host) {
            assert(dest@.take(dk.len() as int) =~= dk);
            assert(dest@.take(d0.len() as int) =~= d0);
            return Err(e);
        }
        proof {
            lemma_split(dk, e3, r3);
        }
        assert(dest@ + r3 == d0 + enc_member(m, version));
        let ghost dk = dest@;
        if let Err(e) = put_bytes(dest, &self.member_metadata) {
            assert(dest@.take(dk.len() as int) =~= dk);
            assert(dest@.take(d0.len() as int) =~= d0);
            return Err(e);
        }
        proof {
            lemma_split(dk, e4, r4);
        }
        assert(dest@ + r4 == d0 + enc_member(m, version));
        let ghost dk = dest@;
        if let Err(e) = put_bytes(dest, &self.member_assignment) {
            assert(dest@.take(dk.len() as int) =~= dk);
            assert(dest@.take(d0.len() as int) =~= d0);
            return Err(e);
        }
        proof {
            lemma_split(dk, e5, r5);
        }
        assert(dest@ + r5 == d0 + enc_member(m, version));
        assert(dest@ + r5 =~= dest@);
        Ok(())
    }

    /// Reads a member at `version` from `src` at `pos`, returning how many bytes
    /// it took. On failure `self` is left as it was.
    pub fn decode_at(&mut self, src: &[u8], pos: usize, version: Version) -> (r: Result<usize, KfError>)
        requires
            pos <= src@.len(),
        ensures
            r matches Ok(n) ==> n <= src@.len() - pos && parse_member(src@.skip(pos as int), version)
                == Ok::<(DescribedGroupMemberModel, nat), KfError>((final(self).deep_view(), n as nat)),
            r matches Err(e) ==> parse_member(src@.skip(pos as int), version)
                == Err::<(DescribedGroupMemberModel, nat), KfError>(e) && *final(self) == *old(self),
    {
        let len = src.len();
        let ghost b0 = src@.skip(pos as int);
        let p0 = pos;
        let (member_id, n1) = get_string(src, p0)?;
        let p1 = p0 + n1;
        let ghost b1 = b0.skip(n1 as int);
        proof {
            lemma_skip_skip(src@, p0 as int, n1 as int);
        }
        let (client_id, n2) = get_string(src, p1)?;
        let p2 = p1 + n2;
        let ghost b2 = b1.skip(n2 as int);
        proof {
            lemma_skip_skip(src@, p1 as int, n2 as int);
        }
        let (client_host, n3) = get_string(src, p2)?;
        let p3 = p2 + n3;
        let ghost b3 = b2.skip(n3 as int);
        proof {
            lemma_skip_skip(src@, p2 as int, n3 as int);
        }
        let (member_metadata, n4) = get_bytes(src, p3)?;
        let p4 = p3 + n4;
        let ghost b4 = b3.skip(n4 as int);
        proof {
            lemma_skip_skip(src@, p3 as int, n4 as int);
        }
        let (member_assignment, n5) = get_bytes(src, p4)?;
        self.member_id = member_id;
        self.client_id = client_id;
        self.client_host = client_host;
        assert(member_metadata.deep_view() =~= member_metadata@);
        self.member_metadata = member_metadata;
        assert(member_assignment.deep_view() =~= member_assignment@);
        self.member_assignment = member_assignment;
        Ok(n1 + n2 + n3 + n4 + n5)
    }
}

/// Writing one element at `version`.
pub open spec fn member_enc(version: Version) -> spec_fn(DescribedGroupMemberModel) -> Seq<u8> {
    |m: DescribedGroupMemberModel| enc_member(m, version)
}

/// Reading one element at `version`.
pub open spec fn member_parse(version: Version) -> spec_fn(Seq<u8>) -> Result<(DescribedGroupMemberModel, nat), KfError> {
    |b: Seq<u8>| parse_member(b, version)
}

/// Every element fits its length prefixes, and there are not too many.
pub open spec fn members_fit(items: Seq<DescribedGroupMemberModel>, version: Version) -> bool {
    array_fits(items) && forall|j: int| 0 <= j < items.len() ==> member_fits(#[trigger] items[j], version)
}

/// Writes an ARRAY of DescribedGroupMember; on a refusal what was written before it stays.
fn put_members(dest: &mut Vec<u8>, v: &Vec<DescribedGroupMember>, version: Version) -> (r: Result<(), KfError>)
    ensures
        r is Ok <==> members_fit(v.deep_view(), version),
        r is Ok ==> final(dest)@ == old(dest)@ + enc_array(v.deep_view(), member_enc(version)),
        r is Err ==> r == Err::<(), KfError>(KfError::TooLong) && extends(old(dest)@, final(dest)@),
{
    let n = v.len();
    if n > 0x7fff_ffff {
        assert(dest@.take(dest@.len() as int) =~= dest@);
        return Err(KfError::TooLong);
    }
    put_i32(dest, n as i32);
    let ghost start = dest@;
    let ghost items = v.deep_view();
    let mut i: usize = 0;
    while i < n
        invariant
            n == v@.len(),
            items == v.deep_view(),
            i <= n,
            start == old(dest)@ + enc_i32(n as i32),
            dest@ == start + concat_map(items.take(i as int), member_enc(version)),
            forall|j: int| 0 <= j < i ==> member_fits(#[trigger] items[j], version),
        decreases n - i,
    {
        proof {
            lemma_concat_map_push(items, i as int, member_enc(version));
        }
        if let Err(e) = v[i].encode(dest, version) {
            assert(dest@.take(old(dest)@.len() as int) =~= old(dest)@);
            return Err(e);
        }
        i = i + 1;
    }
    assert(items.take(n as int) =~= items);
    Ok(())
}

/// Reads an ARRAY of DescribedGroupMember, each element starting from its default.
fn get_members(src: &[u8], pos: usize, version: Version) -> (r: Result<(Vec<DescribedGroupMember>, usize), KfError>)
    requires
        pos <= src@.len(),
    ensures
        lift(r) == parse_array(src@.skip(pos as int), member_parse(version)),
        r matches Ok((_, n)) ==> n <= src@.len() - pos,
{
    proof {
        reveal(parse_array);
    }
    let len = src.len();
    let (n, k) = get_i32(src, pos)?;
    assert(k == 4);
    if n < 0 {
        return Err(KfError::InvalidLength);
    }
    let ghost b = src@.skip(pos as int).skip(4);
    let start = pos + 4;
    assert(b =~= src@.skip(start as int));
    let mut items: Vec<DescribedGroupMember> = Vec::new();
    assert(items.deep_view() =~= Seq::<DescribedGroupMemberModel>::empty());
    let mut off: usize = 0;
    let mut i: i32 = 0;
    while i < n
        invariant
            0 <= i <= n,
            len == src@.len(),
            start == pos + 4,
            parse_i32(src@.skip(pos as int)) == Ok::<(i32, nat), KfError>((n, 4nat)),
            b == src@.skip(pos as int).skip(4),
            start <= src@.len(),
            b == src@.skip(start as int),
            off <= src@.len() - start,
            parse_items(b, i as nat, member_parse(version)) == Ok::<(Seq<DescribedGroupMemberModel>, nat), KfError>(
                (items.deep_view(), off as nat),
            ),
        decreases n - i,
    {
        assert(src@.skip((start + off) as int) =~= b.skip(off as int));
        let mut x = DescribedGroupMember::default();
        match x.decode_at(src, start + off, version) {
            Err(e) => {
                proof {
                    reveal(parse_array);
                    assert(parse_items(b, (i + 1) as nat, member_parse(version)) == Err::<(Seq<DescribedGroupMemberModel>, nat), KfError>(e));
                    lemma_items_err_persists(b, (i + 1) as nat, n as nat, member_parse(version));
                }
                return Err(e);
            },
            Ok(l) => {
                let ghost old_items = items.deep_view();
                let ghost xv = x.deep_view();
                items.push(x);
                off = off + l;
                i = i + 1;
                assert(items.deep_view() =~= old_items.push(xv));
            },
        }
    }
    Ok((items, 4 + off))
}

/// Reading back an ARRAY of DescribedGroupMember gives the elements written.
pub proof fn lemma_members_roundtrip(items: Seq<DescribedGroupMemberModel>, version: Version, rest: Seq<u8>)
    requires
        members_fit(items, version),
    ensures
        parse_array(enc_array(items, member_enc(version)) + rest, member_parse(version))
            == Ok::<(Seq<DescribedGroupMemberModel>, nat), KfError>((items, enc_array(items, member_enc(version)).len())),
{
    assert forall|i: int, r: Seq<u8>| 0 <= i < items.len() implies #[trigger] member_parse(version)(
        member_enc(version)(items[i]) + r)
        == Ok::<(DescribedGroupMemberModel, nat), KfError>((items[i], member_enc(version)(items[i]).len())) by {
        lemma_member_roundtrip(items[i], version, r);
    }
    lemma_array_roundtrip(items, rest, member_enc(version), member_parse(version), |x: DescribedGroupMemberModel| x);
    assert(items.map_values(|x: DescribedGroupMemberModel| x) =~= items);
}

// -----------------------------------
// DescribedGroup
// -----------------------------------

#[derive(Debug)]
pub struct DescribedGroup {
    /// The describe error, or 0 if there was no error.
    pub error_code: ErrorCode,
    /// The group ID string.
    pub group_id: String,
    /// The group state string, or the empty string.
    pub group_state: String,
    /// The group protocol type, or the empty string.
    pub protocol_type: String,
    /// The group protocol data, or the empty string.
    pub protocol_data: String,
    /// The group members.
    pub members: Vec<DescribedGroupMember>,
}

/// What a `DescribedGroup` holds: strings as their characters, vectors as sequences.
pub struct DescribedGroupModel {
    pub error_code: i16,
    pub group_id: Seq<char>,
    pub group_state: Seq<char>,
    pub protocol_type: Seq<char>,
    pub protocol_data: Seq<char>,
    pub members: Seq<DescribedGroupMemberModel>,
}

impl DeepView for DescribedGroup {
    type V = DescribedGroupModel;

    open spec fn deep_view(&self) -> DescribedGroupModel {
        DescribedGroupModel {
            error_code: self.error_code,
            group_id: self.group_id@,
            group_state: self.group_state@,
            protocol_type: self.protocol_type@,
            protocol_data: self.protocol_data@,
            members: self.members.deep_view(),
        }
    }
}

/// The value a default `DescribedGroup` holds.
pub open spec fn group_default() -> DescribedGroupModel {
    DescribedGroupModel {
        error_code: 0,
        group_id: Seq::empty(),
        group_state: Seq::empty(),
        protocol_type: Seq::empty(),
        protocol_data: Seq::empty(),
        members: Seq::empty(),
    }
}

/// Every string, byte string and array that `version` carries fits its
/// length prefix.
pub open spec fn group_fits(m: DescribedGroupModel, version: Version) -> bool {
    &&& string_fits(m.group_id)
    &&& string_fits(m.group_state)
    &&& string_fits(m.protocol_type)
    &&& string_fits(m.protocol_data)
    &&& members_fit(m.members, version)
}

/// Fields in order: INT16 error_code, STRING group_id, STRING group_state,
/// STRING protocol_type, STRING protocol_data, ARRAY members; the same in
/// every version.
pub open spec fn enc_group(m: DescribedGroupModel, version: Version) -> Seq<u8> {
    enc_i16(m.error_code)
        + (enc_string(m.group_id)
        + (enc_string(m.group_state)
        + (enc_string(m.protocol_type)
        + (enc_string(m.protocol_data)
        + enc_array(m.members, member_enc(version))))))
}

pub open spec fn parse_group(
    b: Seq<u8>,
    version: Version,
) -> Result<(DescribedGroupModel, nat), KfError> {
    match parse_i16(b) {
        Err(e) => Err(e),
        Ok((error_code, n1)) => {
            let b1 = b.skip(n1 as int);
            match parse_string(b1) {
                Err(e) => Err(e),
                Ok((group_id, n2)) => {
                    let b2 = b1.skip(n2 as int);
                    match parse_string(b2) {
                        Err(e) => Err(e),
                        Ok((group_state, n3)) => {
                            let b3 = b2.skip(n3 as int);
                            match parse_string(b3) {
                                Err(e) => Err(e),
                                Ok((protocol_type, n4)) => {
                                    let b4 = b3.skip(n4 as int);
                                    match parse_string(b4) {
                                        Err(e) => Err(e),
                                        Ok((protocol_data, n5)) => {
                                            let b5 = b4.skip(n5 as int);
                                            match parse_array(b5, member_parse(version)) {
                                                Err(e) => Err(e),
                                                Ok((members, n6)) => {
                                                    Ok((
                                                        DescribedGroupModel { error_code, group_id, group_state, protocol_type, protocol_data, members },
                                                        n1 + n2 + n3 + n4 + n5 + n6,
                                                    ))
                                                },
                                            }
                                        },
                                    }
                                },
                            }
                        },
                    }
                },
            }
        },
    }
}

/// Reading back a group gives a group written, whatever follows it.
pub proof fn lemma_group_roundtrip(
    m: DescribedGroupModel,
    version: Version,
    rest: Seq<u8>,
)
    requires
        group_fits(m, version),
    ensures
        parse_group(enc_group(m, version) + rest, version)
            == Ok::<(DescribedGroupModel, nat), KfError>((m, enc_group(m, version).len())),
{
    let e1 = enc_i16(m.error_code);
    let e2 = enc_string(m.group_id);
    let e3 = enc_string(m.group_state);
    let e4 = enc_string(m.protocol_type);
    let e5 = enc_string(m.protocol_data);
    let e6 = enc_array(m.members, member_enc(version));
    let r1 = e2 + (e3 + (e4 + (e5 + e6)));
    let r2 = e3 + (e4 + (e5 + e6));
    let r3 = e4 + (e5 + e6);
    let r4 = e5 + e6;
    let r5 = e6;
    let b0 = enc_group(m, version) + rest;
    assert(parse_i16(b0)
        == Ok::<(i16, nat), KfError>((m.error_code, e1.len()))) by {
        lemma_split(e1, r1, rest);
        lemma_i16_roundtrip(m.error_code, r1 + rest);
    }
    let b1 = b0.skip(e1.len() as int);
    assert(b1 == r1 + rest) by {
        lemma_split(e1, r1, rest);
    }
    assert(parse_string(b1)
        == Ok::<(Seq<char>, nat), KfError>((m.group_id, e2.len()))) by {
        lemma_split(e2, r2, rest);
        lemma_string_roundtrip(m.group_id, r2 + rest);
    }
    let b2 = b1.skip(e2.len() as int);
    assert(b2 == r2 + rest) by {
        lemma_split(e2, r2, rest);
    }
    assert(parse_string(b2)
        == Ok::<(Seq<char>, nat), KfError>((m.group_state, e3.len()))) by {
        lemma_split(e3, r3, rest);
        lemma_string_roundtrip(m.group_state, r3 + rest);
    }
    let b3 = b2.skip(e3.len() as int);
    assert(b3 == r3 + rest) by {
        lemma_split(e3, r3, rest);
    }
    assert(parse_string(b3)
        == Ok::<(Seq<char>, nat), KfError>((m.protocol_type, e4.len()))) by {
        lemma_split(e4, r4, rest);
        lemma_string_roundtrip(m.protocol_type, r4 + rest);
    }
    let b4 = b3.skip(e4.len() as int);
    assert(b4 == r4 + rest) by {
        lemma_split(e4, r4, rest);
    }
    assert(parse_string(b4)
        == Ok::<(Seq<char>, nat), KfError>((m.protocol_data, e5.len()))) by {
        lemma_split(e5, r5, rest);
        lemma_string_roundtrip(m.protocol_data, r5 + rest);
    }
    let b5 = b4.skip(e5.len() as int);
    assert(b5 == r5 + rest) by {
        lemma_split(e5, r5, rest);
    }
    assert(parse_array(b5, member_parse(version))
        == Ok::<(Seq<DescribedGroupMemberModel>, nat), KfError>((m.members, e6.len()))) by {
        lemma_members_roundtrip(m.members, version, rest);
    }
}

impl Default for DescribedGroup {
    fn default() -> (r: Self)
        ensures
            r.deep_view() == group_default(),
    {
        let r = DescribedGroup {
            error_code: 0,
            group_id: String::new(),
            group_state: String::new(),
            protocol_type: String::new(),
            protocol_data: String::new(),
            members: Vec::new(),
        };
        assert(r.members.deep_view() =~= Seq::<DescribedGroupMemberModel>::empty());
        r
    }
}

impl DescribedGroup {

    /// Appends the encoding of a group at `version`. A string, byte string or
    /// array too long for its length prefix is refused and nothing is written.
    pub fn encode(&self, dest: &mut Vec<u8>, version: Version) -> (r: Result<(), KfError>)
        ensures
            r is Ok <==> group_fits(self.deep_view(), version),
            r is Ok ==> final(dest)@ == old(dest)@ + enc_group(self.deep_view(), version),
            r is Err ==> r == Err::<(), KfError>(KfError::TooLong) && final(dest)@ == old(dest)@,
    {
        let start = dest.len();
        let r = self.encode_fields(dest, version);
        if r.is_err() {
            dest.truncate(start);
            assert(dest@ =~= old(dest)@);
        }
        r
    }

    /// Reads a group at `version` from the start of `src`, returning how many
    /// bytes it took. On failure `self` is left as it was.
    pub fn decode(&mut self, src: &[u8], version: Version) -> (r: Result<usize, KfError>)
        ensures
            r matches Ok(n) ==> parse_group(src@, version)
                == Ok::<(DescribedGroupModel, nat), KfError>((final(self).deep_view(), n as nat)),
            r matches Err(e) ==> parse_group(src@, version) == Err::<(DescribedGroupModel, nat), KfError>(e)
                && *final(self) == *old(self),
    {
        assert(src@.skip(0) =~= src@);
        self.decode_at(src, 0, version)
    }

    fn encode_fields(&self, dest: &mut Vec<u8>, version: Version) -> (r: Result<(), KfError>)
        ensures
            r is Ok <==> group_fits(self.deep_view(), version),
            r is Ok ==> final(dest)@ == old(dest)@ + enc_group(self.deep_view(), version),
            r is Err ==> r == Err::<(), KfError>(KfError::TooLong) && extends(old(dest)@, final(dest)@),
    {
        let ghost d0 = dest@;
        let ghost m = self.deep_view();
        let ghost e1 = enc_i16(m.error_code);
        let ghost e2 = enc_string(m.group_id);
        let ghost e3 = enc_string(m.group_state);
        let ghost e4 = enc_string(m.protocol_type);
        let ghost e5 = enc_string(m.protocol_data);
        let ghost e6 = enc_array(m.members, member_enc(version));
        let ghost r1 = e2 + (e3 + (e4 + (e5 + e6)));
        let ghost r2 = e3 + (e4 + (e5 + e6));
        let ghost r3 = e4 + (e5 + e6);
        let ghost r4 = e5 + e6;
        let ghost r5 = e6;
        let ghost r6 = Seq::<u8>::empty();
        assert(e6 + r6 =~= e6);
        let ghost dk = dest@;
        put_i16(dest, self.error_code);
        proof {
            lemma_split(dk, e1, r1);
        }
        assert(dest@ + r1 == d0 + enc_group(m, version));
        let ghost dk = dest@;
        if let Err(e) = put_string(dest, &self.group_id) {
            assert(dest@.take(dk.len() as int) =~= dk);
            assert(dest@.take(d0.len() as int) =~= d0);
            return Err(e);
        }
        proof {
            lemma_split(dk, e2, r2);
        }
        assert(dest@ + r2 == d0 + enc_group(m, version));
        let ghost dk = dest@;
        if let Err(e) = put_string(dest, &self.group_state) {
            assert(dest@.take(dk.len() as int) =~= dk);
            assert(dest@.take(d0.len() as int) =~= d0);
            return Err(e);
        }
        proof {
            lemma_split(dk, e3, r3);
        }
        assert(dest@ + r3 == d0 + enc_group(m, version));
        let ghost dk = dest@;
        if let Err(e) = put_string(dest, &self.protocol_type) {
            assert(dest@.take(dk.len() as int) =~= dk);
            assert(dest@.take(d0.len() as int) =~= d0);
            return Err(e);
        }
        proof {
            lemma_split(dk, e4, r4);
        }
        assert(dest@ + r4 == d0 + enc_group(m, version));
        let ghost dk = dest@;
        if let Err(e) = put_string(dest, &self.protocol_data) {
            assert(dest@.take(dk.len() as int) =~= dk);
            assert(dest@.take(d0.len() as int) =~= d0);
            return Err(e);
        }
        proof {
            lemma_split(dk, e5, r5);
        }
        assert(dest@ + r5 == d0 + enc_group(m, version));
        let ghost dk = dest@;
        if let Err(e) = put_members(dest, &self.members, version) {
            assert(dest@.take(dk.len() as int) =~= dk);
            assert(dest@.take(d0.len() as int) =~= d0);
            return Err(e);
        }
        proof {
            lemma_split(dk, e6, r6);
        }
        assert(dest@ + r6 == d0 + enc_group(m, version));
        assert(dest@ + r6 =~= dest@);
        Ok(())
    }

    /// Reads a group at `version` from `src` at `pos`, returning how many bytes
    /// it took. On failure `self` is left as it was.
    pub fn decode_at(&mut self, src: &[u8], pos: usize, version: Version) -> (r: Result<usize, KfError>)
        requires
            pos <= src@.len(),
        ensures
            r matches Ok(n) ==> n <= src@.len() - pos && parse_group(src@.skip(pos as int), version)
                == Ok::<(DescribedGroupModel, nat), KfError>((final(self).deep_view(), n as nat)),
            r matches Err(e) ==> parse_group(src@.skip(pos as int), version)
                == Err::<(DescribedGroupModel, nat), KfError>(e) && *final(self) == *old(self),
    {
        let len = src.len();
        let ghost b0 = src@.skip(pos as int);
        let p0 = pos;
        let (error_code, n1) = get_i16(src, p0)?;
        let p1 = p0 + n1;
        let ghost b1 = b0.skip(n1 as int);
        proof {
            lemma_skip_skip(src@, p0 as int, n1 as int);
        }
        let (group_id, n2) = get_string(src, p1)?;
        let p2 = p1 + n2;
        let ghost b2 = b1.skip(n2 as int);
        proof {
            lemma_skip_skip(src@, p1 as int, n2 as int);
        }
        let (group_state, n3) = get_string(src, p2)?;
        let p3 = p2 + n3;
        let ghost b3 = b2.skip(n3 as int);
        proof {
            lemma_skip_skip(src@, p2 as int, n3 as int);
        }
        let (protocol_type, n4) = get_string(src, p3)?;
        let p4 = p3 + n4;
        let ghost b4 = b3.skip(n4 as int);
        proof {
            lemma_skip_skip(src@, p3 as int, n4 as int);
        }
        let (protocol_data, n5) = get_string(src, p4)?;
        let p5 = p4 + n5;
        let ghost b5 = b4.skip(n5 as int);
        proof {
            lemma_skip_skip(src@, p4 as int, n5 as int);
        }
        let (members, n6) = get_members(src, p5, version)?;
        self.error_code = error_code;
        self.group_id = group_id;
        self.group_state = group_state;
        self.protocol_type = protocol_type;
        self.protocol_data = protocol_data;
        self.members = members;
        Ok(n1 + n2 + n3 + n4 + n5 + n6)
    }
}

/// Writing one element at `version`.
pub open spec fn group_enc(version: Version) -> spec_fn(DescribedGroupModel) -> Seq<u8> {
    |m: DescribedGroupModel| enc_group(m, version)
}

/// Reading one element at `version`.
pub open spec fn group_parse(version: Version) -> spec_fn(Seq<u8>) -> Result<(DescribedGroupModel, nat), KfError> {
    |b: Seq<u8>| parse_group(b, version)
}

/// Every element fits its length prefixes, and there are not too many.
pub open spec fn groups_fit(items: Seq<DescribedGroupModel>, version: Version) -> bool {
    array_fits(items) && forall|j: int| 0 <= j < items.len() ==> group_fits(#[trigger] items[j], version)
}

/// Writes an ARRAY of DescribedGroup; on a refusal what was written before it stays.
fn put_groups(dest: &mut Vec<u8>, v: &Vec<DescribedGroup>, version: Version) -> (r: Result<(), KfError>)
    ensures
        r is Ok <==> groups_fit(v.deep_view(), version),
        r is Ok ==> final(dest)@ == old(dest)@ + enc_array(v.deep_view(), group_enc(version)),
        r is Err ==> r == Err::<(), KfError>(KfError::TooLong) && extends(old(dest)@, final(dest)@),
{
    let n = v.len();
    if n > 0x7fff_ffff {
        assert(dest@.take(dest@.len() as int) =~= dest@);
        return Err(KfError::TooLong);
    }
    put_i32(dest, n as i32);
    let ghost start = dest@;
    let ghost items = v.deep_view();
    let mut i: usize = 0;
    while i < n
        invariant
            n == v@.len(),
            items == v.deep_view(),
            i <= n,
            start == old(dest)@ + enc_i32(n as i32),
            dest@ == start + concat_map(items.take(i as int), group_enc(version)),
            forall|j: int| 0 <= j < i ==> group_fits(#[trigger] items[j], version),
        decreases n - i,
    {
        proof {
            lemma_concat_map_push(items, i as int, group_enc(version));
        }
        if let Err(e) = v[i].encode(dest, version) {
            assert(dest@.take(old(dest)@.len() as int) =~= old(dest)@);
            return Err(e);
        }
        i = i + 1;
    }
    assert(items.take(n as int) =~= items);
    Ok(())
}

/// Reads an ARRAY of DescribedGroup, each element starting from its default.
fn get_groups(src: &[u8], pos: usize, version: Version) -> (r: Result<(Vec<DescribedGroup>, usize), KfError>)
    requires
        pos <= src@.len(),
    ensures
        lift(r) == parse_array(src@.skip(pos as int), group_parse(version)),
        r matches Ok((_, n)) ==> n <= src@.len() - pos,
{
    proof {
        reveal(parse_array);
    }
    let len = src.len();
    let (n, k) = get_i32(src, pos)?;
    assert(k == 4);
    if n < 0 {
        return Err(KfError::InvalidLength);
    }
    let ghost b = src@.skip(pos as int).skip(4);
    let start = pos + 4;
    assert(b =~= src@.skip(start as int));
    let mut items: Vec<DescribedGroup> = Vec::new();
    assert(items.deep_view() =~= Seq::<DescribedGroupModel>::empty());
    let mut off: usize = 0;
    let mut i: i32 = 0;
    while i < n
        invariant
            0 <= i <= n,
            len == src@.len(),
            start == pos + 4,
            parse_i32(src@.skip(pos as int)) == Ok::<(i32, nat), KfError>((n, 4nat)),
            b == src@.skip(pos as int).skip(4),
            start <= src@.len(),
            b == src@.skip(start as int),
            off <= src@.len() - start,
            parse_items(b, i as nat, group_parse(version)) == Ok::<(Seq<DescribedGroupModel>, nat), KfError>(
                (items.deep_view(), off as nat),
            ),
        decreases n - i,
    {
        assert(src@.skip((start + off) as int) =~= b.skip(off as int));
        let mut x = DescribedGroup::default();
        match x.decode_at(src, start + off, version) {
            Err(e) => {
                proof {
                    reveal(parse_array);
                    assert(parse_items(b, (i + 1) as nat, group_parse(version)) == Err::<(Seq<DescribedGroupModel>, nat), KfError>(e));
                    lemma_items_err_persists(b, (i + 1) as nat, n as nat, group_parse(version));
                }
                return Err(e);
            },
            Ok(l) => {
                let ghost old_items = items.deep_view();
                let ghost xv = x.deep_view();
                items.push(x);
                off = off + l;
                i = i + 1;
                assert(items.deep_view() =~= old_items.push(xv));
            },
        }
    }
    Ok((items, 4 + off))
}

/// Reading back an ARRAY of DescribedGroup gives the elements written.
pub proof fn lemma_groups_roundtrip(items: Seq<DescribedGroupModel>, version: Version, rest: Seq<u8>)
    requires
        groups_fit(items, version),
    ensures
        parse_array(enc_array(items, group_enc(version)) + rest, group_parse(version))
            == Ok::<(Seq<DescribedGroupModel>, nat), KfError>((items, enc_array(items, group_enc(version)).len())),
{
    assert forall|i: int, r: Seq<u8>| 0 <= i < items.len() implies #[trigger] group_parse(version)(
        group_enc(version)(items[i]) + r)
        == Ok::<(DescribedGroupModel, nat), KfError>((items[i], group_enc(version)(items[i]).len())) by {
        lemma_group_roundtrip(items[i], version, r);
    }
    lemma_array_roundtrip(items, rest, group_enc(version), group_parse(version), |x: DescribedGroupModel| x);
    assert(items.map_values(|x: DescribedGroupModel| x) =~= items);
}

// -----------------------------------
// KfDescribeGroupsRequest
// -----------------------------------

#[derive(Debug)]
pub struct KfDescribeGroupsRequest {
    /// The names of the groups to describe
    pub groups: Vec<String>,
}

/// What a `KfDescribeGroupsRequest` holds: strings as their characters, vectors as sequences.
pub struct KfDescribeGroupsRequestModel {
    pub groups: Seq<Seq<char>>,
}

impl DeepView for KfDescribeGroupsRequest {
    type V = KfDescribeGroupsRequestModel;

    open spec fn deep_view(&self) -> KfDescribeGroupsRequestModel {
        KfDescribeGroupsRequestModel {
            groups: self.groups.deep_view(),
        }
    }
}

/// The value a default `KfDescribeGroupsRequest` holds.
pub open spec fn describe_request_default() -> KfDescribeGroupsRequestModel {
    KfDescribeGroupsRequestModel {
        groups: Seq::empty(),
    }
}

/// Every string, byte string and array that `version` carries fits its
/// length prefix.
pub open spec fn describe_request_fits(m: KfDescribeGroupsRequestModel, version: Version) -> bool {
    &&& strings_fit(m.groups)
}

/// One field: ARRAY of STRING groups; the same in every version.
pub open spec fn enc_describe_request(m: KfDescribeGroupsRequestModel, version: Version) -> Seq<u8> {
    enc_array(m.groups, string_enc())
}

pub open spec fn parse_describe_request(
    b: Seq<u8>,
    version: Version,
) -> Result<(KfDescribeGroupsRequestModel, nat), KfError> {
    match parse_array(b, string_parse()) {
        Err(e) => Err(e),
        Ok((groups, n1)) => {
            Ok((KfDescribeGroupsRequestModel { groups }, n1))
        },
    }
}

/// Reading back the request gives the request written, whatever follows it.
pub proof fn lemma_describe_request_roundtrip(
    m: KfDescribeGroupsRequestModel,
    version: Version,
    rest: Seq<u8>,
)
    requires
        describe_request_fits(m, version),
    ensures
        parse_describe_request(enc_describe_request(m, version) + rest, version)
            == Ok::<(KfDescribeGroupsRequestModel, nat), KfError>((m, enc_describe_request(m, version).len())),
{
    let e1 = enc_array(m.groups, string_enc());
    let b0 = enc_describe_request(m, version) + rest;
    assert(parse_array(b0, string_parse())
        == Ok::<(Seq<Seq<char>>, nat), KfError>((m.groups, e1.len()))) by {
        lemma_string_array_roundtrip(m.groups, rest);
    }
}

impl Default for KfDescribeGroupsRequest {
    fn default() -> (r: Self)
        ensures
            r.deep_view() == describe_request_default(),
    {
        let r = KfDescribeGroupsRequest {
            groups: Vec::new(),
        };
        assert(r.groups.deep_view() =~= Seq::<Seq<char>>::empty());
        r
    }
}

impl Request for KfDescribeGroupsRequest {
    const API_KEY: u16 = 15;
    const MIN_API_VERSION: i16 = 0;
    const MAX_API_VERSION: i16 = 2;
    const DEFAULT_API_VERSION: i16 = 2;
    type Response = KfDescribeGroupsResponse;
}

impl KfDescribeGroupsRequest {

    /// Appends the encoding of the request at `version`. A string, byte string or
    /// array too long for its length prefix is refused and nothing is written.
    pub fn encode(&self, dest: &mut Vec<u8>, version: Version) -> (r: Result<(), KfError>)
        ensures
            r is Ok <==> describe_request_fits(self.deep_view(), version),
            r is Ok ==> final(dest)@ == old(dest)@ + enc_describe_request(self.deep_view(), version),
            r is Err ==> r == Err::<(), KfError>(KfError::TooLong) && final(dest)@ == old(dest)@,
    {
        let start = dest.len();
        let r = self.encode_fields(dest, version);
        if r.is_err() {
            dest.truncate(start);
            assert(dest@ =~= old(dest)@);
        }
        r
    }

    /// Reads the request at `version` from the start of `src`, returning how many
    /// bytes it took. On failure `self` is left as it was.
    pub fn decode(&mut self, src: &[u8], version: Version) -> (r: Result<usize, KfError>)
        ensures
            r matches Ok(n) ==> parse_describe_request(src@, version)
                == Ok::<(KfDescribeGroupsRequestModel, nat), KfError>((final(self).deep_view(), n as nat)),
            r matches Err(e) ==> parse_describe_request(src@, version) == Err::<(KfDescribeGroupsRequestModel, nat), KfError>(e)
                && *final(self) == *old(self),
    {
        assert(src@.skip(0) =~= src@);
        self.decode_at(src, 0, version)
    }

    fn encode_fields(&self, dest: &mut Vec<u8>, version: Version) -> (r: Result<(), KfError>)
        ensures
            r is Ok <==> describe_request_fits(self.deep_view(), version),
            r is Ok ==> final(dest)@ == old(dest)@ + enc_describe_request(self.deep_view(), version),
            r is Err ==> r == Err::<(), KfError>(KfError::TooLong) && extends(old(dest)@, final(dest)@),
    {
        let ghost d0 = dest@;
        let ghost m = self.deep_view();
        let ghost e1 = enc_array(m.groups, string_enc());
        let ghost r1 = Seq::<u8>::empty();
        assert(e1 + r1 =~= e1);
        let ghost dk = dest@;
        if let Err(e) = put_string_array(dest, &self.groups) {
            assert(dest@.take(dk.len() as int) =~= dk);
            assert(dest@.take(d0.len() as int) =~= d0);
            return Err(e);
        }
        proof {
            lemma_split(dk, e1, r1);
        }
        assert(dest@ + r1 == d0 + enc_describe_request(m, version));
        assert(dest@ + r1 =~= dest@);
        Ok(())
    }

    /// Reads the request at `version` from `src` at `pos`, returning how many bytes
    /// it took. On failure `self` is left as it was.
    pub fn decode_at(&mut self, src: &[u8], pos: usize, version: Version) -> (r: Result<usize, KfError>)
        requires
            pos <= src@.len(),
        ensures
            r matches Ok(n) ==> n <= src@.len() - pos && parse_describe_request(src@.skip(pos as int), version)
                == Ok::<(KfDescribeGroupsRequestModel, nat), KfError>((final(self).deep_view(), n as nat)),
            r matches Err(e) ==> parse_describe_request(src@.skip(pos as int), version)
                == Err::<(KfDescribeGroupsRequestModel, nat), KfError>(e) && *final(self) == *old(self),
    {
        let len = src.len();
        let ghost b0 = src@.skip(pos as int);
        let p0 = pos;
        let (groups, n1) = get_string_array(src, p0)?;
        self.groups = groups;
        Ok(n1)
    }
}

// -----------------------------------
// KfDescribeGroupsResponse
// -----------------------------------

#[derive(Debug)]
pub struct KfDescribeGroupsResponse {
    /// The duration in milliseconds for which the request was throttled due to a quota violation,
    /// or zero if the request did not violate any quota.
    pub throttle_time_ms: i32,
    /// Each described group.
    pub groups: Vec<DescribedGroup>,
}

/// What a `KfDescribeGroupsResponse` holds: strings as their characters, vectors as sequences.
pub struct KfDescribeGroupsResponseModel {
    pub throttle_time_ms: i32,
    pub groups: Seq<DescribedGroupModel>,
}

impl DeepView for KfDescribeGroupsResponse {
    type V = KfDescribeGroupsResponseModel;

    open spec fn deep_view(&self) -> KfDescribeGroupsResponseModel {
        KfDescribeGroupsResponseModel {
            throttle_time_ms: self.throttle_time_ms,
            groups: self.groups.deep_view(),
        }
    }
}

/// The value a default `KfDescribeGroupsResponse` holds.
pub open spec fn describe_response_default() -> KfDescribeGroupsResponseModel {
    KfDescribeGroupsResponseModel {
        throttle_time_ms: 0,
        groups: Seq::empty(),
    }
}

/// `throttle_time_ms` is on the wire from version 1.
pub open spec fn has_describe_throttle(version: Version) -> bool {
    version >= 1
}

/// Every string, byte string and array that `version` carries fits its
/// length prefix.
pub open spec fn describe_response_fits(m: KfDescribeGroupsResponseModel, version: Version) -> bool {
    &&& groups_fit(m.groups, version)
}

/// Fields in order: INT32 throttle_time_ms (from version 1), ARRAY groups.
pub open spec fn enc_describe_response(m: KfDescribeGroupsResponseModel, version: Version) -> Seq<u8> {
    gated(has_describe_throttle(version), enc_i32(m.throttle_time_ms))
        + enc_array(m.groups, group_enc(version))
}

/// Reading into `base`: a field that `version` does not carry keeps the
/// value it has in `base`.
pub open spec fn parse_describe_response(
    base: KfDescribeGroupsResponseModel,
    b: Seq<u8>,
    version: Version,
) -> Result<(KfDescribeGroupsResponseModel, nat), KfError> {
    match parse_when(has_describe_throttle(version), base.throttle_time_ms, parse_i32(b)) {
        Err(e) => Err(e),
        Ok((throttle_time_ms, n1)) => {
            let b1 = b.skip(n1 as int);
            match parse_array(b1, group_parse(version)) {
                Err(e) => Err(e),
                Ok((groups, n2)) => {
                    Ok((KfDescribeGroupsResponseModel { throttle_time_ms, groups }, n1 + n2))
                },
            }
        },
    }
}

/// What reading `m`, written at `version`, into `base` gives: the fields
/// that `version` carries come from `m`, the others stay as in `base`.
pub open spec fn describe_response_seen(
    m: KfDescribeGroupsResponseModel,
    base: KfDescribeGroupsResponseModel,
    version: Version,
) -> KfDescribeGroupsResponseModel {
    KfDescribeGroupsResponseModel {
        throttle_time_ms: if has_describe_throttle(version) { m.throttle_time_ms } else { base.throttle_time_ms },
        groups: m.groups,
    }
}

/// Reading back into `base` gives the fields that `version` carries as
/// written and leaves the others as in `base`, whatever follows.
pub proof fn lemma_describe_response_roundtrip(
    m: KfDescribeGroupsResponseModel,
    base: KfDescribeGroupsResponseModel,
    version: Version,
    rest: Seq<u8>,
)
    requires
        describe_response_fits(m, version),
    ensures
        parse_describe_response(base, enc_describe_response(m, version) + rest, version)
            == Ok::<(KfDescribeGroupsResponseModel, nat), KfError>((describe_response_seen(m, base, version), enc_describe_response(m, version).len())),
{
    let e1 = gated(has_describe_throttle(version), enc_i32(m.throttle_time_ms));
    let e2 = enc_array(m.groups, group_enc(version));
    let r1 = e2;
    let b0 = enc_describe_response(m, version) + rest;
    assert(parse_when(has_describe_throttle(version), base.throttle_time_ms, parse_i32(b0))
        == Ok::<(i32, nat), KfError>((if has_describe_throttle(version) { m.throttle_time_ms } else { base.throttle_time_ms }, e1.len()))) by {
        lemma_split(e1, r1, rest);
        if has_describe_throttle(version) {
            lemma_i32_roundtrip(m.throttle_time_ms, r1 + rest);
        }
    }
    let b1 = b0.skip(e1.len() as int);
    assert(b1 == r1 + rest) by {
        lemma_split(e1, r1, rest);
    }
    assert(parse_array(b1, group_parse(version))
        == Ok::<(Seq<DescribedGroupModel>, nat), KfError>((m.groups, e2.len()))) by {
        lemma_groups_roundtrip(m.groups, version, rest);
    }
}

impl Default for KfDescribeGroupsResponse {
    fn default() -> (r: Self)
        ensures
            r.deep_view() == describe_response_default(),
    {
        let r = KfDescribeGroupsResponse {
            throttle_time_ms: 0,
            groups: Vec::new(),
        };
        assert(r.groups.deep_view() =~= Seq::<DescribedGroupModel>::empty());
        r
    }
}

impl KfDescribeGroupsResponse {

    /// Appends the encoding of the response at `version`. A string, byte string or
    /// array too long for its length prefix is refused and nothing is written.
    pub fn encode(&self, dest: &mut Vec<u8>, version: Version) -> (r: Result<(), KfError>)
        ensures
            r is Ok <==> describe_response_fits(self.deep_view(), version),
            r is Ok ==> final(dest)@ == old(dest)@ + enc_describe_response(self.deep_view(), version),
            r is Err ==> r == Err::<(), KfError>(KfError::TooLong) && final(dest)@ == old(dest)@,
    {
        let start = dest.len();
        let r = self.encode_fields(dest, version);
        if r.is_err() {
            dest.truncate(start);
            assert(dest@ =~= old(dest)@);
        }
        r
    }

    /// Reads the response at `version` from the start of `src`, returning how many
    /// bytes it took. On failure `self` is left as it was.
    pub fn decode(&mut self, src: &[u8], version: Version) -> (r: Result<usize, KfError>)
        ensures
            r matches Ok(n) ==> parse_describe_response(old(self).deep_view(), src@, version)
                == Ok::<(KfDescribeGroupsResponseModel, nat), KfError>((final(self).deep_view(), n as nat)),
            r matches Err(e) ==> parse_describe_response(old(self).deep_view(), src@, version) == Err::<(KfDescribeGroupsResponseModel, nat), KfError>(e)
                && *final(self) == *old(self),
    {
        assert(src@.skip(0) =~= src@);
        self.decode_at(src, 0, version)
    }

    fn encode_fields(&self, dest: &mut Vec<u8>, version: Version) -> (r: Result<(), KfError>)
        ensures
            r is Ok <==> describe_response_fits(self.deep_view(), version),
            r is Ok ==> final(dest)@ == old(dest)@ + enc_describe_response(self.deep_view(), version),
            r is Err ==> r == Err::<(), KfError>(KfError::TooLong) && extends(old(dest)@, final(dest)@),
    {
        let ghost d0 = dest@;
        let ghost m = self.deep_view();
        let ghost e1 = gated(has_describe_throttle(version), enc_i32(m.throttle_time_ms));
        let ghost e2 = enc_array(m.groups, group_enc(version));
        let ghost r1 = e2;
        let ghost r2 = Seq::<u8>::empty();
        assert(e2 + r2 =~= e2);
        let ghost dk = dest@;
        if version >= 1 {
            put_i32(dest, self.throttle_time_ms);
        }
        assert(dest@ == dk + e1) by {
            if !has_describe_throttle(version) {
                assert(dk + e1 =~= dk);
            }
        }
        proof {
            lemma_split(dk, e1, r1);
        }
        assert(dest@ + r1 == d0 + enc_describe_response(m, version));
        let ghost dk = dest@;
        if let Err(e) = put_groups(dest, &self.groups, version) {
            assert(dest@.take(dk.len() as int) =~= dk);
            assert(dest@.take(d0.len() as int) =~= d0);
            return Err(e);
        }
        proof {
            lemma_split(dk, e2, r2);
        }
        assert(dest@ + r2 == d0 + enc_describe_response(m, version));
        assert(dest@ + r2 =~= dest@);
        Ok(())
    }

    /// Reads the response at `version` from `src` at `pos`, returning how many bytes
    /// it took. On failure `self` is left as it was.
    pub fn decode_at(&mut self, src: &[u8], pos: usize, version: Version) -> (r: Result<usize, KfError>)
        requires
            pos <= src@.len(),
        ensures
            r matches Ok(n) ==> n <= src@.len() - pos && parse_describe_response(old(self).deep_view(), src@.skip(pos as int), version)
                == Ok::<(KfDescribeGroupsResponseModel, nat), KfError>((final(self).deep_view(), n as nat)),
            r matches Err(e) ==> parse_describe_response(old(self).deep_view(), src@.skip(pos as int), version)
                == Err::<(KfDescribeGroupsResponseModel, nat), KfError>(e) && *final(self) == *old(self),
    {
        let len = src.len();
        let ghost b0 = src@.skip(pos as int);
        let p0 = pos;
        let mut throttle_time_ms: Option<i32> = None;
        let mut n1: usize = 0;
        if version >= 1 {
            let (v, n) = get_i32(src, p0)?;
            throttle_time_ms = Some(v);
            n1 = n;
        }
        let p1 = p0 + n1;
        let ghost b1 = b0.skip(n1 as int);
        proof {
            lemma_skip_skip(src@, p0 as int, n1 as int);
        }
        let (groups, n2) = get_groups(src, p1, version)?;
        if let Some(v) = throttle_time_ms {
            self.throttle_time_ms = v;
        }
        self.groups = groups;
        Ok(n1 + n2)
    }
}

} // verus!
