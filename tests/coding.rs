use moq::coding::decode_varints;
use moq::message::{Control, Group, GroupChunk, GroupDrop, GroupHeader, GroupOrder, Subscribe, SubscribeLocation, SubscribeRange};
use moq::varint::{decode_varint, encode_varint, varint_size, DecodeError, MAX_VARINT};

#[test]
fn varint_max_round_trip() {
    let mut buf = Vec::new();
    encode_varint(4611686018427387903, &mut buf);
    assert_eq!(buf.len(), 8);
    assert_eq!(buf[0] >> 6, 0b11);
    assert_eq!(buf, vec![0xff; 8]);
    assert_eq!(decode_varint(&buf, 0), Ok((4611686018427387903, 8)));
    assert_eq!(MAX_VARINT, 4611686018427387903);
}

#[test]
fn varint_sizes_and_bytes() {
    let cases: [(u64, Vec<u8>); 6] = [
        (0, vec![0x00]),
        (63, vec![0x3f]),
        (64, vec![0x40, 0x40]),
        (15293, vec![0x7b, 0xbd]),
        (494878333, vec![0x9d, 0x7f, 0x3e, 0x7d]),
        (151288809941952652, vec![0xc2, 0x19, 0x7c, 0x5e, 0xff, 0x14, 0xe8, 0x8c]),
    ];
    for (v, bytes) in cases {
        let mut buf = Vec::new();
        encode_varint(v, &mut buf);
        assert_eq!(buf, bytes);
        assert_eq!(varint_size(v), bytes.len());
        assert_eq!(decode_varint(&buf, 0), Ok((v, bytes.len())));
    }
}

#[test]
fn varint_short_input() {
    assert_eq!(decode_varint(&[], 0), Err(DecodeError::More));
    assert_eq!(decode_varint(&[0x40], 0), Err(DecodeError::More));
    assert_eq!(decode_varint(&[0xc0, 0, 0], 0), Err(DecodeError::More));
    assert_eq!(decode_varint(&[0x00, 0x25], 1), Ok((0x25, 2)));
    assert_eq!(decode_varints(&[1, 2, 3], 0, 3).unwrap(), (vec![1, 2, 3], 3));
}

#[test]
fn control_round_trip_and_unknown_tag() {
    for c in [Control::Session, Control::Announce, Control::Subscribe, Control::Datagrams, Control::Fetch, Control::Info] {
        let mut buf = Vec::new();
        c.encode(&mut buf);
        assert_eq!(Control::decode(&buf, 0), Ok((c, 1)));
    }
    assert_eq!(Control::decode(&[4], 0), Ok((Control::Fetch, 1)));
    assert_eq!(Control::decode(&[6], 0), Err(DecodeError::InvalidValue));
}

#[test]
fn group_order_codec() {
    let mut buf = Vec::new();
    GroupOrder::Desc.encode(&mut buf);
    assert_eq!(buf, vec![1]);
    assert_eq!(GroupOrder::decode(&buf, 0), Ok((GroupOrder::Desc, 1)));
    assert_eq!(GroupOrder::decode(&[0], 0), Ok((GroupOrder::Asc, 1)));
    assert_eq!(GroupOrder::decode(&[2], 0), Err(DecodeError::InvalidValue));
}

#[test]
fn group_messages_round_trip() {
    let g = Group { subscribe: 7, sequence: 300, priority: 2 };
    let mut buf = Vec::new();
    g.encode(&mut buf);
    assert_eq!(buf, vec![7, 0x41, 0x2c, 2]);
    assert_eq!(Group::decode(&buf, 0), Ok((g, 4)));

    let d = GroupDrop { sequence: 1, count: 2, code: 70000 };
    let mut buf = Vec::new();
    d.encode(&mut buf);
    assert_eq!(GroupDrop::decode(&buf, 0), Ok((d, buf.len())));

    let h = GroupHeader { subscribe_id: 1, track_alias: 2, group_id: 3, send_order: 4 };
    let mut buf = Vec::new();
    h.encode(&mut buf);
    assert_eq!(buf, vec![1, 2, 3, 4]);
    assert_eq!(GroupHeader::decode(&buf, 0), Ok((h, 4)));

    let c = GroupChunk { object_id: 9, size: 1000 };
    let mut buf = Vec::new();
    c.encode(&mut buf);
    assert_eq!(GroupChunk::decode(&buf, 0), Ok((c, buf.len())));
}

#[test]
fn group_drop_code_out_of_range() {
    let mut buf = Vec::new();
    encode_varint(1, &mut buf);
    encode_varint(1, &mut buf);
    encode_varint(1 << 32, &mut buf);
    assert_eq!(GroupDrop::decode(&buf, 0), Err(DecodeError::BoundsExceeded));
    assert_eq!(GroupDrop::decode(&buf[..2], 0), Err(DecodeError::More));
}

#[test]
fn subscribe_location_codec() {
    for l in [
        SubscribeLocation::Unspecified,
        SubscribeLocation::Absolute(5),
        SubscribeLocation::Latest(100),
        SubscribeLocation::Future(0),
    ] {
        let mut buf = Vec::new();
        l.encode(&mut buf);
        assert_eq!(buf[0] as u64, l.id());
        assert_eq!(SubscribeLocation::decode(&buf, 0), Ok((l, buf.len())));
    }
    assert_eq!(SubscribeLocation::decode(&[4, 1], 0), Err(DecodeError::InvalidValue));
    assert_eq!(SubscribeLocation::decode(&[1], 0), Err(DecodeError::More));
}

#[test]
fn subscribe_message_round_trip() {
    let m = Subscribe { id: 3, broadcast: "cam".to_string(), track: "vidéo".to_string(), priority: 70, order: GroupOrder::Asc };
    let mut buf = Vec::new();
    m.encode(&mut buf);
    assert_eq!(&buf[..5], &[3, 3, b'c', b'a', b'm']);
    let (back, end) = Subscribe::decode(&buf, 0).unwrap();
    assert_eq!(end, buf.len());
    assert_eq!(back.id, 3);
    assert_eq!(back.broadcast, "cam");
    assert_eq!(back.track, "vidéo");
    assert_eq!(back.priority, 70);
    assert_eq!(back.order, GroupOrder::Asc);
}

#[test]
fn subscribe_message_errors() {
    // broadcast name is not UTF-8
    assert_eq!(Subscribe::decode(&[1, 1, 0xff, 0, 0, 0], 0).err(), Some(DecodeError::InvalidString));
    // string longer than the data
    assert_eq!(Subscribe::decode(&[1, 5, b'a'], 0).err(), Some(DecodeError::More));
    // bad group order
    assert_eq!(Subscribe::decode(&[1, 0, 0, 0, 9], 0).err(), Some(DecodeError::InvalidValue));
}

#[test]
fn subscribe_range_validation() {
    let ok = SubscribeRange {
        start_group: SubscribeLocation::Latest(0),
        start_object: SubscribeLocation::Absolute(0),
        end_group: SubscribeLocation::Unspecified,
        end_object: SubscribeLocation::Unspecified,
    };
    let mut buf = Vec::new();
    ok.encode(&mut buf);
    assert_eq!(buf, vec![2, 0, 1, 0, 0, 0]);
    assert_eq!(SubscribeRange::decode(&buf, 0), Ok((ok, 6)));
    // an object without its group
    assert_eq!(SubscribeRange::decode(&[0, 1, 5, 0, 0], 0), Err(DecodeError::InvalidSubscribeLocation));
    assert_eq!(SubscribeRange::decode(&[0, 0, 0, 3, 1], 0), Err(DecodeError::InvalidSubscribeLocation));
}
