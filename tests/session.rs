use moq::error::ServeError;
use moq::message::{Control, GroupHeader, GroupOrder, Subscribe};
use moq::session::{accept_setup, connect_reply, negotiate_role, respond_subscribe, ServedTrack, SubscribeReply, route_message, MessageKind, Side, route_control, route_uni, select_version, Handler, Role, SessionError, SubscribeOk, SubscribeRecv};
use moq::setup::{Client, Param, Params, Server};
use moq::varint::DecodeError;

#[test]
fn role_downgrade() {
    assert_eq!(negotiate_role(Role::Both, Role::Publisher), Ok(Role::Publisher));
    assert_eq!(negotiate_role(Role::Publisher, Role::Both), Ok(Role::Subscriber));
    assert_eq!(negotiate_role(Role::Subscriber, Role::Both), Ok(Role::Publisher));
    assert_eq!(
        negotiate_role(Role::Publisher, Role::Publisher),
        Err(SessionError::RoleIncompatible(Role::Publisher, Role::Publisher))
    );
    assert_eq!(
        negotiate_role(Role::Subscriber, Role::Subscriber),
        Err(SessionError::RoleIncompatible(Role::Subscriber, Role::Subscriber))
    );
}

#[test]
fn version_selection() {
    assert_eq!(select_version(&[1, 3, 2], &[2, 3]), Ok(3));
    assert_eq!(select_version(&[1], &[2]), Err(SessionError::VersionMismatch));
    assert_eq!(select_version(&[], &[2]), Err(SessionError::VersionMismatch));
}

#[test]
fn control_dispatch() {
    assert_eq!(route_control(Control::Session, Role::Both), Err(SessionError::UnexpectedStream(Control::Session)));
    assert_eq!(route_control(Control::Announce, Role::Subscriber), Ok(Handler::SubscriberAnnounce));
    assert_eq!(route_control(Control::Announce, Role::Publisher), Err(SessionError::RoleViolation));
    assert_eq!(route_control(Control::Subscribe, Role::Publisher), Ok(Handler::PublisherSubscribe));
    assert_eq!(route_control(Control::Fetch, Role::Subscriber), Err(SessionError::RoleViolation));
    assert_eq!(route_control(Control::Info, Role::Both), Ok(Handler::PublisherInfo));
    assert_eq!(route_control(Control::Datagrams, Role::Both), Ok(Handler::PublisherDatagrams));
    assert_eq!(route_uni(Role::Publisher), Err(SessionError::RoleViolation));
    assert_eq!(route_uni(Role::Both), Ok(()));
}

#[test]
fn subscribe_recv_modes() {
    let mut recv = SubscribeRecv::new();
    let ok = SubscribeOk { id: 1, priority: 2, group_latest: None };
    assert_eq!(recv.recv_ok(ok), Ok(()));
    assert_eq!(recv.recv_ok(ok), Err(ServeError::Duplicate));
    let header = GroupHeader { subscribe_id: 1, track_alias: 1, group_id: 5, send_order: 3 };
    let w = recv.recv_group(header).unwrap();
    assert_eq!(w.sequence(), 5);
    assert!(recv.recv_group(header).is_ok());
    assert_eq!(recv.recv_object(), Err(ServeError::Mode));
    assert_eq!(recv.recv_group(header).err(), Some(ServeError::Done));

    let mut other = SubscribeRecv::new();
    assert_eq!(other.recv_track(), Ok(()));
    assert_eq!(other.recv_track(), Err(ServeError::Mode));

    let mut dg = SubscribeRecv::new();
    assert_eq!(dg.recv_datagram(), Ok(()));
    assert_eq!(dg.recv_datagram(), Ok(()));
    assert_eq!(dg.error(), None);
}

fn params(entries: Vec<(u64, Vec<u8>)>) -> Params {
    Params { entries: entries.into_iter().map(|(key, value)| Param { key, value }).collect() }
}

#[test]
fn server_setup_round_trip() {
    let server = Server { version: 0xff000003, role: Role::Both, params: params(vec![(5, vec![1, 2, 3])]) };
    let mut buf = Vec::new();
    server.encode(&mut buf);
    assert_eq!(buf[0], 0x40);
    assert_eq!(buf[1], 0x41);
    let (back, end) = Server::decode(&buf, 0).unwrap();
    assert_eq!(end, buf.len());
    assert_eq!(back.version, 0xff000003);
    assert_eq!(back.role, Role::Both);
    assert_eq!(back.params.entries.len(), 1);
    assert_eq!(back.params.entries[0].key, 5);
    assert_eq!(back.params.entries[0].value, vec![1, 2, 3]);
}

#[test]
fn server_setup_errors() {
    assert_eq!(Server::decode(&[0x05], 0).err(), Some(DecodeError::InvalidMessage(5)));
    let with_path = Server { version: 1, role: Role::Publisher, params: params(vec![(1, vec![])]) };
    let mut buf = Vec::new();
    with_path.encode(&mut buf);
    assert_eq!(Server::decode(&buf, 0).err(), Some(DecodeError::InvalidParameter));
    // role 4 is unknown
    assert_eq!(Server::decode(&[0x40, 0x41, 1, 4, 0], 0).err(), Some(DecodeError::InvalidValue));
    // value longer than the data
    assert_eq!(Server::decode(&[0x40, 0x41, 1, 3, 1, 7, 5, 0], 0).err(), Some(DecodeError::More));
}

#[test]
fn client_setup_round_trip() {
    let client = Client { versions: vec![1, 2, 0xff000003], role: Role::Subscriber, params: Params::new() };
    let mut buf = Vec::new();
    client.encode(&mut buf);
    assert_eq!(buf[..2], [0x40, 0x40]);
    let (back, end) = Client::decode(&buf, 0).unwrap();
    assert_eq!(end, buf.len());
    assert_eq!(back.versions, vec![1, 2, 0xff000003]);
    assert_eq!(back.role, Role::Subscriber);
    assert!(back.params.entries.is_empty());
    assert!(!back.params.has(1));
}

#[test]
fn handshake_decisions() {
    let client = Client { versions: vec![1, 2, 5], role: Role::Publisher, params: Params::new() };
    let server = accept_setup(&client, Role::Both, &[2, 5, 7]).unwrap();
    assert_eq!(server.version, 5);
    assert_eq!(server.role, Role::Subscriber);
    assert!(server.params.entries.is_empty());
    assert_eq!(accept_setup(&client, Role::Both, &[9]).err(), Some(SessionError::VersionMismatch));
    assert_eq!(
        accept_setup(&client, Role::Publisher, &[1]).err(),
        Some(SessionError::RoleIncompatible(Role::Publisher, Role::Publisher))
    );

    assert_eq!(connect_reply(&server, Role::Both, &[5]), Ok(Role::Publisher));
    assert_eq!(connect_reply(&server, Role::Subscriber, &[5]), Err(SessionError::RoleIncompatible(Role::Subscriber, Role::Subscriber)));
    assert_eq!(connect_reply(&server, Role::Both, &[1, 2]), Err(SessionError::VersionMismatch));
}

#[test]
fn message_routing_by_role() {
    assert_eq!(route_message(MessageKind::Announce, Role::Subscriber), Ok(Side::Subscriber));
    assert_eq!(route_message(MessageKind::SubscribeOk, Role::Publisher), Err(SessionError::RoleViolation));
    assert_eq!(route_message(MessageKind::Subscribe, Role::Publisher), Ok(Side::Publisher));
    assert_eq!(route_message(MessageKind::AnnounceOk, Role::Subscriber), Err(SessionError::RoleViolation));
    assert_eq!(route_message(MessageKind::GroupDrop, Role::Both), Ok(Side::Subscriber));
    assert_eq!(route_message(MessageKind::GoAway, Role::Publisher), Ok(Side::Session));
}

#[test]
fn publisher_answers_subscriptions() {
    let tracks = vec![
        ServedTrack { broadcast: "cam".to_string(), name: "audio".to_string(), priority: 1, latest: None },
        ServedTrack { broadcast: "cam".to_string(), name: "video".to_string(), priority: 2, latest: Some(41) },
    ];
    let req = |b: &str, t: &str| Subscribe { id: 9, broadcast: b.to_string(), track: t.to_string(), priority: 0, order: GroupOrder::Desc };
    assert_eq!(
        respond_subscribe(&req("cam", "video"), &tracks),
        SubscribeReply::Accepted(SubscribeOk { id: 9, priority: 2, group_latest: Some(41) })
    );
    assert_eq!(respond_subscribe(&req("cam", "x"), &tracks), SubscribeReply::Refused(9, ServeError::NotFound));
    assert_eq!(respond_subscribe(&req("ghost", "x"), &tracks), SubscribeReply::Refused(9, ServeError::UnknownBroadcast));
}
