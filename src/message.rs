use vstd::prelude::*;

use crate::coding::{
    all_varints, decode_varints, encode_varints, lemma_varints_len_le, lemma_varints_reencode,
    lemma_varints_round_trip, varints, varints_parse,
};
use crate::varint::{
    at_pos, decode_varint, encode_varint, lemma_varint_decode_encode, rest, varint_encoding,
    varint_parse, varint_size_spec, DecodeError, MAX_VARINT,
};

use vstd::utf8::{decode_utf8, encode_utf8, encode_utf8_decode_utf8, encode_utf8_valid_utf8, valid_utf8};

verus! {

/// The kind of a bidirectional stream, sent as its first varint.
#[derive(Debug, Clone, Copy, PartialEq, Eq, Structural)]
pub enum Control {
    Session,
    Announce,
    Subscribe,
    Datagrams,
    Fetch,
    Info,
}

pub open spec fn control_tag(c: Control) -> u64 {
    match c {
        Control::Session => 0,
        Control::Announce => 1,
        Control::Subscribe => 2,
        Control::Datagrams => 3,
        Control::Fetch => 4,
        Control::Info => 5,
    }
}

pub open spec fn control_of_tag(t: u64) -> Option<Control> {
    if t == 0 {
        Some(Control::Session)
    } else if t == 1 {
        Some(Control::Announce)
    } else if t == 2 {
        Some(Control::Subscribe)
    } else if t == 3 {
        Some(Control::Datagrams)
    } else if t == 4 {
        Some(Control::Fetch)
    } else if t == 5 {
        Some(Control::Info)
    } else {
        None
    }
}

pub open spec fn control_parse(b: Seq<u8>) -> Result<(Control, nat), DecodeError> {
    match varint_parse(b) {
        Err(e) => Err(e),
        Ok((t, n)) => match control_of_tag(t) {
            Some(c) => Ok((c, n)),
            None => Err(DecodeError::InvalidValue),
        },
    }
}

impl Control {
    pub open spec fn spec_encoding(self) -> Seq<u8> {
        varint_encoding(control_tag(self))
    }

    pub fn encode(&self, buf: &mut Vec<u8>)
        ensures
            final(buf)@ == old(buf)@ + self.spec_encoding(),
    {
        let v: u64 = match self {
            Control::Session => 0,
            Control::Announce => 1,
            Control::Subscribe => 2,
            Control::Datagrams => 3,
            Control::Fetch => 4,
            Control::Info => 5,
        };
        encode_varint(v, buf);
    }

    pub fn decode(buf: &[u8], pos: usize) -> (r: Result<(Control, usize), DecodeError>)
        requires
            pos <= buf@.len(),
        ensures
            r == at_pos(pos, control_parse(rest(buf@, pos as int))),
    {
        let (t, end) = decode_varint(buf, pos)?;
        let c = if t == 0 {
            Control::Session
        } else if t == 1 {
            Control::Announce
        } else if t == 2 {
            Control::Subscribe
        } else if t == 3 {
            Control::Datagrams
        } else if t == 4 {
            Control::Fetch
        } else if t == 5 {
            Control::Info
        } else {
            return Err(DecodeError::InvalidValue);
        };
        Ok((c, end))
    }
}

/// Decoding an encoded stream kind gives it back.
pub proof fn lemma_control_round_trip(c: Control, tail: Seq<u8>)
    ensures
        control_parse(c.spec_encoding() + tail) == Ok::<(Control, nat), DecodeError>((c, c.spec_encoding().len())),
{
    lemma_varint_decode_encode(control_tag(c), tail);
}

/// The order in which a consumer wants groups delivered.
#[derive(Debug, Clone, Copy, PartialEq, Eq, Structural)]
pub enum GroupOrder {
    Asc,
    Desc,
}

pub open spec fn group_order_tag(o: GroupOrder) -> u64 {
    match o {
        GroupOrder::Asc => 0,
        GroupOrder::Desc => 1,
    }
}

pub open spec fn group_order_parse(b: Seq<u8>) -> Result<(GroupOrder, nat), DecodeError> {
    match varint_parse(b) {
        Err(e) => Err(e),
        Ok((t, n)) => if t == 0 {
            Ok((GroupOrder::Asc, n))
        } else if t == 1 {
            Ok((GroupOrder::Desc, n))
        } else {
            Err(DecodeError::InvalidValue)
        },
    }
}

impl GroupOrder {
    pub open spec fn spec_encoding(self) -> Seq<u8> {
        varint_encoding(group_order_tag(self))
    }

    pub fn encode(&self, buf: &mut Vec<u8>)
        ensures
            final(buf)@ == old(buf)@ + self.spec_encoding(),
    {
        let v: u64 = match self {
            GroupOrder::Asc => 0,
            GroupOrder::Desc => 1,
        };
        encode_varint(v, buf);
    }

    pub fn decode(buf: &[u8], pos: usize) -> (r: Result<(GroupOrder, usize), DecodeError>)
        requires
            pos <= buf@.len(),
        ensures
            r == at_pos(pos, group_order_parse(rest(buf@, pos as int))),
            group_order_parse(rest(buf@, pos as int)) matches Ok((_, n)) ==> pos + n <= buf@.len(),
    {
        let (t, end) = decode_varint(buf, pos)?;
        if t == 0 {
            Ok((GroupOrder::Asc, end))
        } else if t == 1 {
            Ok((GroupOrder::Desc, end))
        } else {
            Err(DecodeError::InvalidValue)
        }
    }
}

/// Decoding an encoded group order gives it back.
pub proof fn lemma_group_order_round_trip(o: GroupOrder, tail: Seq<u8>)
    ensures
        group_order_parse(o.spec_encoding() + tail) == Ok::<(GroupOrder, nat), DecodeError>((o, o.spec_encoding().len())),
{
    lemma_varint_decode_encode(group_order_tag(o), tail);
}

/// The header of a group stream: the subscription it answers, the group's
/// sequence number and its priority (smaller is sent first).
#[derive(Debug, Clone, Copy, PartialEq, Eq, Structural)]
pub struct Group {
    pub subscribe: u64,
    pub sequence: u64,
    pub priority: u64,
}

pub open spec fn group_parse(b: Seq<u8>) -> Result<(Group, nat), DecodeError> {
    match varints_parse(b, 3) {
        Err(e) => Err(e),
        Ok((s, n)) => Ok((Group { subscribe: s[0], sequence: s[1], priority: s[2] }, n)),
    }
}

impl Group {
    pub open spec fn fields(self) -> Seq<u64> {
        seq![self.subscribe, self.sequence, self.priority]
    }

    /// Every field fits in a varint.
    pub open spec fn encodable(self) -> bool {
        all_varints(self.fields())
    }

    pub open spec fn spec_encoding(self) -> Seq<u8> {
        varints(self.fields())
    }

    pub fn encode(&self, buf: &mut Vec<u8>)
        requires
            self.encodable(),
        ensures
            final(buf)@ == old(buf)@ + self.spec_encoding(),
    {
        let vs = [self.subscribe, self.sequence, self.priority];
        assert(vs@ =~= self.fields());
        encode_varints(&vs, buf);
    }

    pub fn decode(buf: &[u8], pos: usize) -> (r: Result<(Group, usize), DecodeError>)
        requires
            pos <= buf@.len(),
        ensures
            r == at_pos(pos, group_parse(rest(buf@, pos as int))),
    {
        let (vs, end) = decode_varints(buf, pos, 3)?;
        Ok((Group { subscribe: vs[0], sequence: vs[1], priority: vs[2] }, end))
    }
}

/// Decoding an encoded group header gives it back.
pub proof fn lemma_group_round_trip(g: Group, tail: Seq<u8>)
    requires
        g.encodable(),
    ensures
        group_parse(g.spec_encoding() + tail) == Ok::<(Group, nat), DecodeError>((g, g.spec_encoding().len())),
{
    lemma_varints_round_trip(g.fields(), tail);
}

/// Re-encoding a decoded group header gives back the bytes it was read from,
/// whenever they used the shortest forms.
pub proof fn lemma_group_reencode(b: Seq<u8>)
    requires
        group_parse(b) is Ok,
        group_parse(b)->Ok_0.0.spec_encoding().len() == group_parse(b)->Ok_0.1,
    ensures
        group_parse(b)->Ok_0.0.spec_encoding() == b.subrange(0, group_parse(b)->Ok_0.1 as int),
{
    lemma_varints_len_le(b, 3);
    let (vs, n) = varints_parse(b, 3)->Ok_0;
    assert(group_parse(b)->Ok_0.0.fields() =~= vs);
    lemma_varints_reencode(b, 3);
}

/// Sent on the control stream when the producer drops `count` groups starting
/// at `sequence`, with an error `code`.
#[derive(Debug, Clone, Copy, PartialEq, Eq, Structural)]
pub struct GroupDrop {
    pub sequence: u64,
    pub count: u64,
    pub code: u32,
}

pub open spec fn group_drop_parse(b: Seq<u8>) -> Result<(GroupDrop, nat), DecodeError> {
    match varints_parse(b, 3) {
        Err(e) => Err(e),
        Ok((s, n)) => if s[2] > u32::MAX {
            Err(DecodeError::BoundsExceeded)
        } else {
            Ok((GroupDrop { sequence: s[0], count: s[1], code: s[2] as u32 }, n))
        },
    }
}

impl GroupDrop {
    pub open spec fn fields(self) -> Seq<u64> {
        seq![self.sequence, self.count, self.code as u64]
    }

    pub open spec fn encodable(self) -> bool {
        all_varints(self.fields())
    }

    pub open spec fn spec_encoding(self) -> Seq<u8> {
        varints(self.fields())
    }

    pub fn encode(&self, buf: &mut Vec<u8>)
        requires
            self.encodable(),
        ensures
            final(buf)@ == old(buf)@ + self.spec_encoding(),
    {
        let vs = [self.sequence, self.count, self.code as u64];
        assert(vs@ =~= self.fields());
        encode_varints(&vs, buf);
    }

    pub fn decode(buf: &[u8], pos: usize) -> (r: Result<(GroupDrop, usize), DecodeError>)
        requires
            pos <= buf@.len(),
        ensures
            r == at_pos(pos, group_drop_parse(rest(buf@, pos as int))),
    {
        let (vs, end) = decode_varints(buf, pos, 3)?;
        if vs[2] > 0xffff_ffffu64 {
            return Err(DecodeError::BoundsExceeded);
        }
        Ok((GroupDrop { sequence: vs[0], count: vs[1], code: vs[2] as u32 }, end))
    }
}

/// Decoding an encoded group drop gives it back.
pub proof fn lemma_group_drop_round_trip(g: GroupDrop, tail: Seq<u8>)
    requires
        g.encodable(),
    ensures
        group_drop_parse(g.spec_encoding() + tail) == Ok::<(GroupDrop, nat), DecodeError>((g, g.spec_encoding().len())),
{
    lemma_varints_round_trip(g.fields(), tail);
}

/// Re-encoding a decoded group drop gives back the bytes it was read from,
/// whenever they used the shortest forms.
pub proof fn lemma_group_drop_reencode(b: Seq<u8>)
    requires
        group_drop_parse(b) is Ok,
        group_drop_parse(b)->Ok_0.0.spec_encoding().len() == group_drop_parse(b)->Ok_0.1,
    ensures
        group_drop_parse(b)->Ok_0.0.spec_encoding() == b.subrange(0, group_drop_parse(b)->Ok_0.1 as int),
{
    lemma_varints_len_le(b, 3);
    let (vs, n) = varints_parse(b, 3)->Ok_0;
    assert(group_drop_parse(b)->Ok_0.0.fields() =~= vs);
    lemma_varints_reencode(b, 3);
}

/// The header of a group stream in the object-based draft.
#[derive(Debug, Clone, Copy, PartialEq, Eq, Structural)]
pub struct GroupHeader {
    /// The subscribe ID.
    pub subscribe_id: u64,
    /// The track alias.
    pub track_alias: u64,
    /// The group sequence number.
    pub group_id: u64,
    /// The priority, where smaller values are sent first.
    pub send_order: u64,
}

pub open spec fn group_header_parse(b: Seq<u8>) -> Result<(GroupHeader, nat), DecodeError> {
    match varints_parse(b, 4) {
        Err(e) => Err(e),
        Ok((s, n)) => Ok(
            (GroupHeader { subscribe_id: s[0], track_alias: s[1], group_id: s[2], send_order: s[3] }, n),
        ),
    }
}

impl GroupHeader {
    pub open spec fn fields(self) -> Seq<u64> {
        seq![self.subscribe_id, self.track_alias, self.group_id, self.send_order]
    }

    pub open spec fn encodable(self) -> bool {
        all_varints(self.fields())
    }

    pub open spec fn spec_encoding(self) -> Seq<u8> {
        varints(self.fields())
    }

    pub fn encode(&self, buf: &mut Vec<u8>)
        requires
            self.encodable(),
        ensures
            final(buf)@ == old(buf)@ + self.spec_encoding(),
    {
        let vs = [self.subscribe_id, self.track_alias, self.group_id, self.send_order];
        assert(vs@ =~= self.fields());
        encode_varints(&vs, buf);
    }

    pub fn decode(buf: &[u8], pos: usize) -> (r: Result<(GroupHeader, usize), DecodeError>)
        requires
            pos <= buf@.len(),
        ensures
            r == at_pos(pos, group_header_parse(rest(buf@, pos as int))),
    {
        let (vs, end) = decode_varints(buf, pos, 4)?;
        Ok(
            (
                GroupHeader {
                    subscribe_id: vs[0],
                    track_alias: vs[1],
                    group_id: vs[2],
                    send_order: vs[3],
                },
                end,
            ),
        )
    }
}

/// Decoding an encoded group header gives it back.
pub proof fn lemma_group_header_round_trip(g: GroupHeader, tail: Seq<u8>)
    requires
        g.encodable(),
    ensures
        group_header_parse(g.spec_encoding() + tail) == Ok::<(GroupHeader, nat), DecodeError>((g, g.spec_encoding().len())),
{
    lemma_varints_round_trip(g.fields(), tail);
}

/// Re-encoding a decoded group-stream header gives back the bytes it was read
/// from, whenever they used the shortest forms.
pub proof fn lemma_group_header_reencode(b: Seq<u8>)
    requires
        group_header_parse(b) is Ok,
        group_header_parse(b)->Ok_0.0.spec_encoding().len() == group_header_parse(b)->Ok_0.1,
    ensures
        group_header_parse(b)->Ok_0.0.spec_encoding() == b.subrange(0, group_header_parse(b)->Ok_0.1 as int),
{
    lemma_varints_len_le(b, 4);
    let (vs, n) = varints_parse(b, 4)->Ok_0;
    assert(group_header_parse(b)->Ok_0.0.fields() =~= vs);
    lemma_varints_reencode(b, 4);
}

/// The header of one object inside a group stream.
#[derive(Debug, Clone, Copy, PartialEq, Eq, Structural)]
pub struct GroupChunk {
    pub object_id: u64,
    pub size: usize,
}

pub open spec fn group_chunk_parse(b: Seq<u8>) -> Result<(GroupChunk, nat), DecodeError> {
    match varints_parse(b, 2) {
        Err(e) => Err(e),
        Ok((s, n)) => if s[1] > usize::MAX {
            Err(DecodeError::BoundsExceeded)
        } else {
            Ok((GroupChunk { object_id: s[0], size: s[1] as usize }, n))
        },
    }
}

impl GroupChunk {
    pub open spec fn fields(self) -> Seq<u64> {
        seq![self.object_id, self.size as u64]
    }

    pub open spec fn encodable(self) -> bool {
        all_varints(self.fields())
    }

    pub open spec fn spec_encoding(self) -> Seq<u8> {
        varints(self.fields())
    }

    pub fn encode(&self, buf: &mut Vec<u8>)
        requires
            self.encodable(),
        ensures
            final(buf)@ == old(buf)@ + self.spec_encoding(),
    {
        let vs = [self.object_id, self.size as u64];
        assert(vs@ =~= self.fields());
        encode_varints(&vs, buf);
    }

    pub fn decode(buf: &[u8], pos: usize) -> (r: Result<(GroupChunk, usize), DecodeError>)
        requires
            pos <= buf@.len(),
        ensures
            r == at_pos(pos, group_chunk_parse(rest(buf@, pos as int))),
    {
        let (vs, end) = decode_varints(buf, pos, 2)?;
        if vs[1] as u128 > usize::MAX as u128 {
            return Err(DecodeError::BoundsExceeded);
        }
        Ok((GroupChunk { object_id: vs[0], size: vs[1] as usize }, end))
    }
}

/// Decoding an encoded chunk header gives it back.
pub proof fn lemma_group_chunk_round_trip(g: GroupChunk, tail: Seq<u8>)
    requires
        g.encodable(),
    ensures
        group_chunk_parse(g.spec_encoding() + tail) == Ok::<(GroupChunk, nat), DecodeError>((g, g.spec_encoding().len())),
{
    lemma_varints_round_trip(g.fields(), tail);
}

/// Re-encoding a decoded chunk header gives back the bytes it was read from,
/// whenever they used the shortest forms.
pub proof fn lemma_group_chunk_reencode(b: Seq<u8>)
    requires
        group_chunk_parse(b) is Ok,
        group_chunk_parse(b)->Ok_0.0.spec_encoding().len() == group_chunk_parse(b)->Ok_0.1,
    ensures
        group_chunk_parse(b)->Ok_0.0.spec_encoding() == b.subrange(0, group_chunk_parse(b)->Ok_0.1 as int),
{
    lemma_varints_len_le(b, 2);
    let (vs, n) = varints_parse(b, 2)->Ok_0;
    assert(group_chunk_parse(b)->Ok_0.0.fields() =~= vs);
    lemma_varints_reencode(b, 2);
}

/// Where a subscription should begin or end, relative to the current cache.
#[derive(Debug, Clone, Copy, PartialEq, Eq, Structural)]
pub enum SubscribeLocation {
    Unspecified,
    Absolute(u64),
    Latest(u64),
    Future(u64),
}

pub open spec fn subscribe_location_parse(b: Seq<u8>) -> Result<(SubscribeLocation, nat), DecodeError> {
    match varint_parse(b) {
        Err(e) => Err(e),
        Ok((kind, n)) => if kind == 0 {
            Ok((SubscribeLocation::Unspecified, n))
        } else if kind > 3 {
            Err(DecodeError::InvalidValue)
        } else {
            match varint_parse(rest(b, n as int)) {
                Err(e) => Err(e),
                Ok((v, m)) => Ok(
                    (
                        if kind == 1 {
                            SubscribeLocation::Absolute(v)
                        } else if kind == 2 {
                            SubscribeLocation::Latest(v)
                        } else {
                            SubscribeLocation::Future(v)
                        },
                        n + m,
                    ),
                ),
            }
        },
    }
}

impl SubscribeLocation {
    pub open spec fn spec_id(self) -> u64 {
        match self {
            SubscribeLocation::Unspecified => 0,
            SubscribeLocation::Absolute(_) => 1,
            SubscribeLocation::Latest(_) => 2,
            SubscribeLocation::Future(_) => 3,
        }
    }

    pub open spec fn encodable(self) -> bool {
        match self {
            SubscribeLocation::Unspecified => true,
            SubscribeLocation::Absolute(v) => v <= MAX_VARINT,
            SubscribeLocation::Latest(v) => v <= MAX_VARINT,
            SubscribeLocation::Future(v) => v <= MAX_VARINT,
        }
    }

    pub open spec fn spec_encoding(self) -> Seq<u8> {
        match self {
            SubscribeLocation::Unspecified => varint_encoding(0),
            SubscribeLocation::Absolute(v) => varint_encoding(1) + varint_encoding(v),
            SubscribeLocation::Latest(v) => varint_encoding(2) + varint_encoding(v),
            SubscribeLocation::Future(v) => varint_encoding(3) + varint_encoding(v),
        }
    }

    /// The tag that announces the kind of location on the wire.
    pub fn id(&self) -> (r: u64)
        ensures
            r == self.spec_id(),
    {
        match self {
            SubscribeLocation::Unspecified => 0,
            SubscribeLocation::Absolute(_) => 1,
            SubscribeLocation::Latest(_) => 2,
            SubscribeLocation::Future(_) => 3,
        }
    }

    pub fn encode(&self, buf: &mut Vec<u8>)
        requires
            self.encodable(),
        ensures
            final(buf)@ == old(buf)@ + self.spec_encoding(),
    {
        encode_varint(self.id(), buf);
        match self {
            SubscribeLocation::Unspecified => {},
            SubscribeLocation::Absolute(v) => encode_varint(*v, buf),
            SubscribeLocation::Latest(v) => encode_varint(*v, buf),
            SubscribeLocation::Future(v) => encode_varint(*v, buf),
        }
        assert(buf@ =~= old(buf)@ + self.spec_encoding());
    }

    pub fn decode(buf: &[u8], pos: usize) -> (r: Result<(SubscribeLocation, usize), DecodeError>)
        requires
            pos <= buf@.len(),
        ensures
            r == at_pos(pos, subscribe_location_parse(rest(buf@, pos as int))),
            r matches Ok((_, end)) ==> pos < end <= buf@.len(),
            subscribe_location_parse(rest(buf@, pos as int)) matches Ok((_, n)) ==> pos + n <= buf@.len(),
    {
        let (kind, p) = decode_varint(buf, pos)?;
        if kind == 0 {
            return Ok((SubscribeLocation::Unspecified, p));
        }
        if kind > 3 {
            return Err(DecodeError::InvalidValue);
        }
        // Bounds the positions below by usize::MAX.
        let _len = buf.len();
        proof {
            crate::coding::lemma_rest_rest(buf@, pos as int, (p - pos) as int);
        }
        let (v, end) = decode_varint(buf, p)?;
        let loc = if kind == 1 {
            SubscribeLocation::Absolute(v)
        } else if kind == 2 {
            SubscribeLocation::Latest(v)
        } else {
            SubscribeLocation::Future(v)
        };
        Ok((loc, end))
    }
}

/// Decoding an encoded location gives it back.
pub proof fn lemma_subscribe_location_round_trip(l: SubscribeLocation, tail: Seq<u8>)
    requires
        l.encodable(),
    ensures
        subscribe_location_parse(l.spec_encoding() + tail) == Ok::<(SubscribeLocation, nat), DecodeError>((l, l.spec_encoding().len())),
{
    match l {
        SubscribeLocation::Unspecified => {
            lemma_varint_decode_encode(0, tail);
        },
        SubscribeLocation::Absolute(v) => {
            let more = varint_encoding(v) + tail;
            assert(l.spec_encoding() + tail =~= varint_encoding(1) + more);
            lemma_varint_decode_encode(1, more);
            assert(rest(varint_encoding(1) + more, 1) =~= more);
            lemma_varint_decode_encode(v, tail);
        },
        SubscribeLocation::Latest(v) => {
            let more = varint_encoding(v) + tail;
            assert(l.spec_encoding() + tail =~= varint_encoding(2) + more);
            lemma_varint_decode_encode(2, more);
            assert(rest(varint_encoding(2) + more, 1) =~= more);
            lemma_varint_decode_encode(v, tail);
        },
        SubscribeLocation::Future(v) => {
            let more = varint_encoding(v) + tail;
            assert(l.spec_encoding() + tail =~= varint_encoding(3) + more);
            lemma_varint_decode_encode(3, more);
            assert(rest(varint_encoding(3) + more, 1) =~= more);
            lemma_varint_decode_encode(v, tail);
        },
    }
}

/// Relies on `String::from_utf8`: it accepts exactly the valid UTF-8 byte
/// strings, and the string holds the characters they encode.
#[verifier::external_body]
fn utf8_string(b: Vec<u8>) -> (r: Option<String>)
    ensures
        match r {
            Some(s) => valid_utf8(b@) && s@ == decode_utf8(b@),
            None => !valid_utf8(b@),
        },
{
    String::from_utf8(b).ok()
}

/// The start and end of a subscription's range, as group and object
/// locations. An object location needs a group location beside it.
#[derive(Debug, Clone, Copy, PartialEq, Eq, Structural)]
pub struct SubscribeRange {
    pub start_group: SubscribeLocation,
    pub start_object: SubscribeLocation,
    pub end_group: SubscribeLocation,
    pub end_object: SubscribeLocation,
}

/// The range is well formed: no object location without its group location.
pub open spec fn range_valid(r: SubscribeRange) -> bool {
    &&& !(r.start_group == SubscribeLocation::Unspecified && r.start_object != SubscribeLocation::Unspecified)
    &&& !(r.end_group == SubscribeLocation::Unspecified && r.end_object != SubscribeLocation::Unspecified)
}

pub open spec fn subscribe_range_parse(b: Seq<u8>) -> Result<(SubscribeRange, nat), DecodeError> {
    match subscribe_location_parse(b) {
        Err(e) => Err(e),
        Ok((sg, n1)) => match subscribe_location_parse(rest(b, n1 as int)) {
            Err(e) => Err(e),
            Ok((so, n2)) => match subscribe_location_parse(rest(b, (n1 + n2) as int)) {
                Err(e) => Err(e),
                Ok((eg, n3)) => match subscribe_location_parse(rest(b, (n1 + n2 + n3) as int)) {
                    Err(e) => Err(e),
                    Ok((eo, n4)) => {
                        let r = SubscribeRange { start_group: sg, start_object: so, end_group: eg, end_object: eo };
                        if !range_valid(r) {
                            Err(DecodeError::InvalidSubscribeLocation)
                        } else {
                            Ok((r, n1 + n2 + n3 + n4))
                        }
                    },
                },
            },
        },
    }
}

impl SubscribeRange {
    pub open spec fn spec_encoding(self) -> Seq<u8> {
        self.start_group.spec_encoding() + self.start_object.spec_encoding() + self.end_group.spec_encoding()
            + self.end_object.spec_encoding()
    }

    pub open spec fn encodable(self) -> bool {
        self.start_group.encodable() && self.start_object.encodable() && self.end_group.encodable()
            && self.end_object.encodable()
    }

    pub fn encode(&self, buf: &mut Vec<u8>)
        requires
            self.encodable(),
        ensures
            final(buf)@ == old(buf)@ + self.spec_encoding(),
    {
        self.start_group.encode(buf);
        self.start_object.encode(buf);
        self.end_group.encode(buf);
        self.end_object.encode(buf);
        assert(buf@ =~= old(buf)@ + self.spec_encoding());
    }

    /// Decodes the four locations and checks that each object location has
    /// its group location.
    pub fn decode(buf: &[u8], pos: usize) -> (r: Result<(SubscribeRange, usize), DecodeError>)
        requires
            pos <= buf@.len(),
        ensures
            r == at_pos(pos, subscribe_range_parse(rest(buf@, pos as int))),
    {
        // Bounds the positions below by usize::MAX.
        let _len = buf.len();
        let (start_group, p1) = SubscribeLocation::decode(buf, pos)?;
        proof {
            crate::coding::lemma_rest_rest(buf@, pos as int, (p1 - pos) as int);
        }
        let (start_object, p2) = SubscribeLocation::decode(buf, p1)?;
        proof {
            crate::coding::lemma_rest_rest(buf@, pos as int, (p2 - pos) as int);
        }
        let (end_group, p3) = SubscribeLocation::decode(buf, p2)?;
        proof {
            crate::coding::lemma_rest_rest(buf@, pos as int, (p3 - pos) as int);
        }
        let (end_object, end) = SubscribeLocation::decode(buf, p3)?;
        let range = SubscribeRange { start_group, start_object, end_group, end_object };
        if start_group == SubscribeLocation::Unspecified && start_object != SubscribeLocation::Unspecified {
            return Err(DecodeError::InvalidSubscribeLocation);
        }
        if end_group == SubscribeLocation::Unspecified && end_object != SubscribeLocation::Unspecified {
            return Err(DecodeError::InvalidSubscribeLocation);
        }
        Ok((range, end))
    }
}

/// A frame on a group stream: its length, then its bytes.
pub open spec fn frame_encoding(f: Seq<u8>) -> Seq<u8> {
    varint_encoding(f.len() as u64) + f
}

pub open spec fn frame_parse(b: Seq<u8>) -> Result<(Seq<u8>, nat), DecodeError> {
    match varint_parse(b) {
        Err(e) => Err(e),
        Ok((len, n)) => if b.len() < n + len {
            Err(DecodeError::More)
        } else {
            Ok((b.subrange(n as int, (n + len) as int), (n + len) as nat))
        },
    }
}

/// Appends a length-prefixed frame.
pub fn encode_frame(frame: &[u8], buf: &mut Vec<u8>)
    requires
        frame@.len() <= MAX_VARINT,
    ensures
        final(buf)@ == old(buf)@ + frame_encoding(frame@),
{
    encode_varint(frame.len() as u64, buf);
    let ghost mid = buf@;
    let mut i: usize = 0;
    while i < frame.len()
        invariant
            i <= frame@.len(),
            buf@ == mid + frame@.subrange(0, i as int),
        decreases frame.len() - i,
    {
        buf.push(frame[i]);
        assert(buf@ =~= mid + frame@.subrange(0, i + 1));
        i = i + 1;
    }
    assert(frame@.subrange(0, frame@.len() as int) =~= frame@);
    assert(buf@ =~= old(buf)@ + frame_encoding(frame@));
}

/// Reads the length-prefixed frame at `pos`.
pub fn decode_frame(buf: &[u8], pos: usize) -> (r: Result<(Vec<u8>, usize), DecodeError>)
    requires
        pos <= buf@.len(),
    ensures
        match frame_parse(rest(buf@, pos as int)) {
            Err(e) => r == Err::<(Vec<u8>, usize), DecodeError>(e),
            Ok((f, n)) => r matches Ok((v, end)) && v@ == f && end == pos + n,
        },
{
    let (len, p) = decode_varint(buf, pos)?;
    if ((buf.len() - p) as u64) < len {
        return Err(DecodeError::More);
    }
    let end = p + len as usize;
    let mut bytes: Vec<u8> = Vec::new();
    let mut i = p;
    while i < end
        invariant
            p <= i <= end <= buf@.len(),
            bytes@ == buf@.subrange(p as int, i as int),
        decreases end - i,
    {
        bytes.push(buf[i]);
        assert(bytes@ =~= buf@.subrange(p as int, i + 1));
        i = i + 1;
    }
    assert(bytes@ =~= rest(buf@, pos as int).subrange((p - pos) as int, (end - pos) as int));
    Ok((bytes, end))
}

/// Decoding an encoded frame gives it back.
pub proof fn lemma_frame_round_trip(f: Seq<u8>, tail: Seq<u8>)
    requires
        f.len() <= MAX_VARINT,
    ensures
        frame_parse(frame_encoding(f) + tail) == Ok::<(Seq<u8>, nat), DecodeError>((f, frame_encoding(f).len())),
{
    let l = varint_encoding(f.len() as u64);
    let b = frame_encoding(f) + tail;
    assert(b =~= l + (f + tail));
    lemma_varint_decode_encode(f.len() as u64, f + tail);
    assert(b.subrange(l.len() as int, (l.len() + f.len()) as int) =~= f);
}

/// The kind of a unidirectional stream, sent as its first varint.
#[derive(Debug, Clone, Copy, PartialEq, Eq, Structural)]
pub enum StreamUni {
    Group,
}

pub open spec fn stream_uni_parse(b: Seq<u8>) -> Result<(StreamUni, nat), DecodeError> {
    match varint_parse(b) {
        Err(e) => Err(e),
        Ok((t, n)) => if t == 0 {
            Ok((StreamUni::Group, n))
        } else {
            Err(DecodeError::InvalidValue)
        },
    }
}

impl StreamUni {
    pub open spec fn spec_encoding(self) -> Seq<u8> {
        varint_encoding(0)
    }

    pub fn encode(&self, buf: &mut Vec<u8>)
        ensures
            final(buf)@ == old(buf)@ + self.spec_encoding(),
    {
        encode_varint(0, buf);
    }

    pub fn decode(buf: &[u8], pos: usize) -> (r: Result<(StreamUni, usize), DecodeError>)
        requires
            pos <= buf@.len(),
        ensures
            r == at_pos(pos, stream_uni_parse(rest(buf@, pos as int))),
    {
        let (t, end) = decode_varint(buf, pos)?;
        if t == 0 {
            Ok((StreamUni::Group, end))
        } else {
            Err(DecodeError::InvalidValue)
        }
    }
}

/// A string on the wire: its length in bytes, then its UTF-8 bytes.
pub open spec fn string_encoding(s: Seq<char>) -> Seq<u8> {
    varint_encoding(encode_utf8(s).len() as u64) + encode_utf8(s)
}

pub open spec fn string_parse(b: Seq<u8>) -> Result<(Seq<char>, nat), DecodeError> {
    match varint_parse(b) {
        Err(e) => Err(e),
        Ok((len, n)) => if b.len() < n + len {
            Err(DecodeError::More)
        } else if !valid_utf8(b.subrange(n as int, (n + len) as int)) {
            Err(DecodeError::InvalidString)
        } else {
            Ok((decode_utf8(b.subrange(n as int, (n + len) as int)), (n + len) as nat))
        },
    }
}

pub fn encode_string(s: &String, buf: &mut Vec<u8>)
    requires
        encode_utf8(s@).len() <= MAX_VARINT,
    ensures
        final(buf)@ == old(buf)@ + string_encoding(s@),
{
    let bytes = s.as_str().as_bytes();
    encode_varint(bytes.len() as u64, buf);
    let ghost mid = buf@;
    let mut i: usize = 0;
    while i < bytes.len()
        invariant
            i <= bytes@.len(),
            buf@ == mid + bytes@.subrange(0, i as int),
        decreases bytes.len() - i,
    {
        buf.push(bytes[i]);
        assert(buf@ =~= mid + bytes@.subrange(0, i + 1));
        i = i + 1;
    }
    assert(bytes@.subrange(0, bytes@.len() as int) =~= bytes@);
    assert(buf@ =~= old(buf)@ + string_encoding(s@));
}

pub fn decode_string(buf: &[u8], pos: usize) -> (r: Result<(String, usize), DecodeError>)
    requires
        pos <= buf@.len(),
    ensures
        match string_parse(rest(buf@, pos as int)) {
            Err(e) => r == Err::<(String, usize), DecodeError>(e),
            Ok((s, n)) => r matches Ok((t, end)) && t@ == s && end == pos + n,
        },
        r matches Ok((_, end)) ==> pos < end <= buf@.len(),
{
    // Bounds the positions below by usize::MAX.
    let _len = buf.len();
    let (len, p) = decode_varint(buf, pos)?;
    if ((buf.len() - p) as u64) < len {
        return Err(DecodeError::More);
    }
    let end = p + len as usize;
    let mut bytes: Vec<u8> = Vec::new();
    let mut i = p;
    while i < end
        invariant
            p <= i <= end <= buf@.len(),
            bytes@ == buf@.subrange(p as int, i as int),
        decreases end - i,
    {
        bytes.push(buf[i]);
        assert(bytes@ =~= buf@.subrange(p as int, i + 1));
        i = i + 1;
    }
    assert(bytes@ =~= rest(buf@, pos as int).subrange((p - pos) as int, (end - pos) as int));
    match utf8_string(bytes) {
        Some(s) => Ok((s, end)),
        None => Err(DecodeError::InvalidString),
    }
}

proof fn lemma_string_round_trip(s: Seq<char>, tail: Seq<u8>)
    requires
        encode_utf8(s).len() <= MAX_VARINT,
    ensures
        string_parse(string_encoding(s) + tail) == Ok::<(Seq<char>, nat), DecodeError>((s, string_encoding(s).len())),
{
    let e = encode_utf8(s);
    let l = varint_encoding(e.len() as u64);
    let b = string_encoding(s) + tail;
    assert(b =~= l + (e + tail));
    lemma_varint_decode_encode(e.len() as u64, e + tail);
    assert(b.subrange(l.len() as int, (l.len() + e.len()) as int) =~= e);
    encode_utf8_valid_utf8(s);
    encode_utf8_decode_utf8(s);
}

/// A request for the groups of a track: the subscription id, the broadcast and
/// track names, the priority and the group order.
pub struct Subscribe {
    pub id: u64,
    pub broadcast: String,
    pub track: String,
    pub priority: u64,
    pub order: GroupOrder,
}

pub type SubscribeView = (u64, Seq<char>, Seq<char>, u64, GroupOrder);

pub open spec fn subscribe_encoding(m: SubscribeView) -> Seq<u8> {
    varint_encoding(m.0) + string_encoding(m.1) + string_encoding(m.2) + varint_encoding(m.3) + m.4.spec_encoding()
}

pub open spec fn subscribe_parse(b: Seq<u8>) -> Result<(SubscribeView, nat), DecodeError> {
    match varint_parse(b) {
        Err(e) => Err(e),
        Ok((id, n1)) => match string_parse(rest(b, n1 as int)) {
            Err(e) => Err(e),
            Ok((broadcast, n2)) => match string_parse(rest(b, (n1 + n2) as int)) {
                Err(e) => Err(e),
                Ok((track, n3)) => match varint_parse(rest(b, (n1 + n2 + n3) as int)) {
                    Err(e) => Err(e),
                    Ok((priority, n4)) => match group_order_parse(rest(b, (n1 + n2 + n3 + n4) as int)) {
                        Err(e) => Err(e),
                        Ok((order, n5)) => Ok(((id, broadcast, track, priority, order), n1 + n2 + n3 + n4 + n5)),
                    },
                },
            },
        },
    }
}

impl Subscribe {
    pub open spec fn view(&self) -> SubscribeView {
        (self.id, self.broadcast@, self.track@, self.priority, self.order)
    }

    pub open spec fn encodable(&self) -> bool {
        &&& self.id <= MAX_VARINT
        &&& self.priority <= MAX_VARINT
        &&& encode_utf8(self.broadcast@).len() <= MAX_VARINT
        &&& encode_utf8(self.track@).len() <= MAX_VARINT
    }

    pub fn encode(&self, buf: &mut Vec<u8>)
        requires
            self.encodable(),
        ensures
            final(buf)@ == old(buf)@ + subscribe_encoding(self@),
    {
        encode_varint(self.id, buf);
        encode_string(&self.broadcast, buf);
        encode_string(&self.track, buf);
        encode_varint(self.priority, buf);
        self.order.encode(buf);
        assert(buf@ =~= old(buf)@ + subscribe_encoding(self@));
    }

    pub fn decode(buf: &[u8], pos: usize) -> (r: Result<(Subscribe, usize), DecodeError>)
        requires
            pos <= buf@.len(),
        ensures
            match subscribe_parse(rest(buf@, pos as int)) {
                Err(e) => r == Err::<(Subscribe, usize), DecodeError>(e),
                Ok((v, n)) => r matches Ok((m, end)) && m@ == v && end == pos + n,
            },
    {
        // Bounds the positions below by usize::MAX.
        let _len = buf.len();
        let (id, p1) = decode_varint(buf, pos)?;
        proof {
            crate::coding::lemma_rest_rest(buf@, pos as int, (p1 - pos) as int);
        }
        let (broadcast, p2) = decode_string(buf, p1)?;
        proof {
            crate::coding::lemma_rest_rest(buf@, pos as int, (p2 - pos) as int);
        }
        let (track, p3) = decode_string(buf, p2)?;
        proof {
            crate::coding::lemma_rest_rest(buf@, pos as int, (p3 - pos) as int);
        }
        let (priority, p4) = decode_varint(buf, p3)?;
        proof {
            crate::coding::lemma_rest_rest(buf@, pos as int, (p4 - pos) as int);
        }
        let (order, end) = GroupOrder::decode(buf, p4)?;
        Ok((Subscribe { id, broadcast, track, priority, order }, end))
    }
}

/// Decoding an encoded subscription request gives it back.
pub proof fn lemma_subscribe_round_trip(m: SubscribeView, tail: Seq<u8>)
    requires
        m.0 <= MAX_VARINT,
        m.3 <= MAX_VARINT,
        encode_utf8(m.1).len() <= MAX_VARINT,
        encode_utf8(m.2).len() <= MAX_VARINT,
    ensures
        subscribe_parse(subscribe_encoding(m) + tail) == Ok::<(SubscribeView, nat), DecodeError>((m, subscribe_encoding(m).len())),
{
    let e1 = varint_encoding(m.0);
    let e2 = string_encoding(m.1);
    let e3 = string_encoding(m.2);
    let e4 = varint_encoding(m.3);
    let e5 = m.4.spec_encoding();
    let b = subscribe_encoding(m) + tail;
    let (n1, n2, n3, n4, n5) = (e1.len(), e2.len(), e3.len(), e4.len(), e5.len());
    assert(b =~= e1 + (e2 + (e3 + (e4 + (e5 + tail)))));
    lemma_varint_decode_encode(m.0, e2 + (e3 + (e4 + (e5 + tail))));
    assert(varint_parse(b) == Ok::<(u64, nat), DecodeError>((m.0, n1)));
    assert(rest(b, n1 as int) =~= e2 + (e3 + (e4 + (e5 + tail))));
    lemma_string_round_trip(m.1, e3 + (e4 + (e5 + tail)));
    assert(string_parse(rest(b, n1 as int)) == Ok::<(Seq<char>, nat), DecodeError>((m.1, n2)));
    assert(rest(b, (n1 + n2) as int) =~= e3 + (e4 + (e5 + tail)));
    lemma_string_round_trip(m.2, e4 + (e5 + tail));
    assert(string_parse(rest(b, (n1 + n2) as int)) == Ok::<(Seq<char>, nat), DecodeError>((m.2, n3)));
    assert(rest(b, (n1 + n2 + n3) as int) =~= e4 + (e5 + tail));
    lemma_varint_decode_encode(m.3, e5 + tail);
    assert(varint_parse(rest(b, (n1 + n2 + n3) as int)) == Ok::<(u64, nat), DecodeError>((m.3, n4)));
    assert(rest(b, (n1 + n2 + n3 + n4) as int) =~= e5 + tail);
    lemma_group_order_round_trip(m.4, tail);
    assert(group_order_parse(rest(b, (n1 + n2 + n3 + n4) as int)) == Ok::<(GroupOrder, nat), DecodeError>((m.4, n5)));
    assert(subscribe_encoding(m).len() == n1 + n2 + n3 + n4 + n5);
}

} // verus!
