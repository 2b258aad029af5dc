use moq::error::ServeError;
use moq::group::{FrameNext, GroupReader, GroupWriter};
use moq::message::{decode_frame, encode_frame, Group, GroupOrder, StreamUni};
use moq::relay::{route, Connection, Locals, Remote, Route};
use moq::session::{SubscribeOk, SubscribeRecv};
use moq::track::{self, GroupInfo, Next, State, Subscriber};

fn info(sequence: u64, priority: u64) -> GroupInfo {
    GroupInfo { sequence, priority, expires: None }
}

#[test]
fn priority_ordering_desc() {
    let mut state = State::new();
    state.insert(info(1, 5), 0).unwrap();
    state.insert(info(2, 10), 0).unwrap();
    state.insert(info(3, 1), 0).unwrap();
    let mut sub = Subscriber::new(GroupOrder::Desc);
    let mut got = Vec::new();
    for _ in 0..3 {
        match sub.next_segment(&state) {
            Next::Group(g) => got.push(g.sequence),
            other => panic!("unexpected {:?}", other),
        }
    }
    assert_eq!(got, vec![3, 1, 2]);
    assert_eq!(sub.next_segment(&state), Next::Pending);
}

#[test]
fn equal_priority_tiebreak_by_order() {
    let mut state = State::new();
    for s in [4, 5, 6] {
        state.insert(info(s, 2), 0).unwrap();
    }
    let mut desc = Subscriber::new(GroupOrder::Desc);
    let mut asc = Subscriber::new(GroupOrder::Asc);
    let mut d = Vec::new();
    let mut a = Vec::new();
    for _ in 0..3 {
        if let Next::Group(g) = desc.next_segment(&state) {
            d.push(g.sequence);
        }
        if let Next::Group(g) = asc.next_segment(&state) {
            a.push(g.sequence);
        }
    }
    assert_eq!(d, vec![6, 5, 4]);
    assert_eq!(a, vec![4, 5, 6]);
}

#[test]
fn duplicate_sequence_rejected() {
    let mut state = State::new();
    state.insert(info(1, 0), 0).unwrap();
    assert_eq!(state.insert(info(1, 3), 0), Err(ServeError::Duplicate));
    assert_eq!(state.positions(), 1);
}

#[test]
fn closed_track_refuses_and_reports() {
    let mut state = State::new();
    state.insert(info(1, 0), 0).unwrap();
    assert_eq!(state.close(ServeError::Closed), Ok(()));
    assert_eq!(state.close(ServeError::Cancel), Err(ServeError::Closed));
    assert_eq!(state.insert(info(2, 0), 0), Err(ServeError::Closed));
    let mut sub = Subscriber::new(GroupOrder::Desc);
    assert!(matches!(sub.next_segment(&state), Next::Group(_)));
    assert_eq!(sub.next_segment(&state), Next::Ended);

    let mut failed = State::new();
    failed.close(ServeError::Cancel).unwrap();
    assert_eq!(Subscriber::new(GroupOrder::Asc).next_segment(&failed), Next::Failed(ServeError::Cancel));
}

#[test]
fn expiry_hides_due_groups() {
    let mut state = State::new();
    state.insert(GroupInfo { sequence: 1, priority: 0, expires: Some(100) }, 0).unwrap();
    state.insert(GroupInfo { sequence: 2, priority: 0, expires: Some(1000) }, 50).unwrap();
    // Before the first deadline both are visible.
    let mut early = Subscriber::new(GroupOrder::Asc);
    let mut seen = Vec::new();
    while let Next::Group(g) = early.next_segment(&state) {
        seen.push(g.sequence);
    }
    assert_eq!(seen, vec![1, 2]);
    // At its deadline the first group expires and is pruned from the front.
    state.expire(100);
    assert_eq!(state.positions(), 2);
    let mut late = Subscriber::new(GroupOrder::Asc);
    assert_eq!(late.next_segment(&state), Next::Group(GroupInfo { sequence: 2, priority: 0, expires: Some(1000) }));
    assert_eq!(late.next_segment(&state), Next::Pending);
    // Expiry also runs on insert.
    state.insert(info(3, 0), 2000).unwrap();
    let mut last = Subscriber::new(GroupOrder::Asc);
    assert_eq!(last.next_segment(&state), Next::Group(info(3, 0)));
}

#[test]
fn consumer_sees_only_new_groups() {
    let mut state = State::new();
    let mut sub = Subscriber::new(GroupOrder::Asc);
    state.insert(info(1, 0), 0).unwrap();
    assert_eq!(sub.next_segment(&state), Next::Group(info(1, 0)));
    assert_eq!(sub.next_segment(&state), Next::Pending);
    state.insert(info(2, 0), 0).unwrap();
    assert_eq!(sub.next_segment(&state), Next::Group(info(2, 0)));
}

#[test]
fn frames_are_read_in_order() {
    let mut w = GroupWriter::new(info(0, 0));
    let mut r = GroupReader::new();
    assert_eq!(r.next_frame(&w), FrameNext::Pending);
    w.write_frame(b"x".to_vec()).unwrap();
    assert_eq!(r.next_frame(&w), FrameNext::Frame(b"x".to_vec()));
    w.write_frame(b"y".to_vec()).unwrap();
    w.close(ServeError::GroupDropped(7)).unwrap();
    assert_eq!(w.write_frame(b"z".to_vec()), Err(ServeError::Done));
    assert_eq!(r.next_frame(&w), FrameNext::Frame(b"y".to_vec()));
    assert_eq!(r.next_frame(&w), FrameNext::Failed(ServeError::GroupDropped(7)));
    assert_eq!(w.frame_count(), 2);
}

#[test]
fn subscribe_happy_path() {
    // Publisher side: announce "cam", create track "video", one group of three frames.
    let mut locals = Locals::new();
    locals.announce("cam".to_string(), 1).unwrap();
    let (mut publisher, mut subscriber) = track::new("video");
    assert_eq!(publisher.info().name, "video");
    let mut group = publisher.create_segment(info(0, 0), 0).unwrap();
    for f in ["A", "B", "C"] {
        group.write_frame(f.as_bytes().to_vec()).unwrap();
    }
    group.close(ServeError::Closed).unwrap();

    // Subscriber side.
    assert_eq!(route(&locals, &Vec::new(), &"cam".to_string()), Ok(Route::Local(1)));
    let mut recv = SubscribeRecv::new();
    assert_eq!(recv.recv_ok(SubscribeOk { id: 0, priority: 0, group_latest: Some(0) }), Ok(()));
    let g = match subscriber.next_segment(publisher.track_state()) {
        Next::Group(g) => g,
        other => panic!("unexpected {:?}", other),
    };
    assert_eq!(g.sequence, 0);
    let mut reader = GroupReader::new();
    let mut frames = Vec::new();
    loop {
        match reader.next_frame(&group) {
            FrameNext::Frame(f) => frames.push(f),
            FrameNext::End => break,
            other => panic!("unexpected {:?}", other),
        }
    }
    assert_eq!(frames, vec![b"A".to_vec(), b"B".to_vec(), b"C".to_vec()]);
    assert_eq!(subscriber.next_segment(publisher.track_state()), Next::Pending);

    // The same group on a unidirectional stream: kind, header, frames.
    let mut wire = Vec::new();
    StreamUni::Group.encode(&mut wire);
    Group { subscribe: 0, sequence: g.sequence, priority: g.priority }.encode(&mut wire);
    for i in 0..group.frame_count() {
        encode_frame(group.frame(i), &mut wire);
    }
    assert_eq!(wire, vec![0, 0, 0, 0, 1, b'A', 1, b'B', 1, b'C']);
    let (kind, pos) = StreamUni::decode(&wire, 0).unwrap();
    assert_eq!(kind, StreamUni::Group);
    let (header, mut pos) = Group::decode(&wire, pos).unwrap();
    assert_eq!(header.sequence, 0);
    let mut received = Vec::new();
    while pos < wire.len() {
        let (f, next) = decode_frame(&wire, pos).unwrap();
        received.push(f);
        pos = next;
    }
    assert_eq!(received, frames);
}

#[test]
fn subscribe_not_found() {
    let locals = Locals::new();
    let remotes: Vec<Remote> = Vec::new();
    let res = route(&locals, &remotes, &"ghost".to_string());
    assert_eq!(res, Err(ServeError::UnknownBroadcast));
    let mut recv = SubscribeRecv::new();
    recv.recv_error(ServeError::UnknownBroadcast).unwrap();
    assert_eq!(recv.error(), Some(ServeError::UnknownBroadcast));
    assert_eq!(recv.recv_error(ServeError::Cancel), Err(ServeError::Done));
}

#[test]
fn routing_prefers_locals_then_first_remote() {
    let mut locals = Locals::new();
    let remotes = vec![
        Remote { origin: "r0".to_string(), broadcasts: vec!["x".to_string()] },
        Remote { origin: "r1".to_string(), broadcasts: vec!["y".to_string(), "z".to_string()] },
        Remote { origin: "r2".to_string(), broadcasts: vec!["z".to_string()] },
    ];
    assert_eq!(route(&locals, &remotes, &"z".to_string()), Ok(Route::Remote(1)));
    locals.announce("z".to_string(), 9).unwrap();
    assert_eq!(locals.announce("z".to_string(), 10), Err(ServeError::Duplicate));
    assert_eq!(route(&locals, &remotes, &"z".to_string()), Ok(Route::Local(9)));
    locals.unannounce(&"z".to_string()).unwrap();
    assert_eq!(locals.unannounce(&"z".to_string()), Err(ServeError::NotFound));
    assert_eq!(locals.route(&"z".to_string()), None);
}

#[test]
fn connection_announces_until_closed() {

    let mut locals = Locals::new();
    let mut conn = Connection::new();
    conn.announced(&mut locals, "a".to_string(), 1).unwrap();
    conn.announced(&mut locals, "b".to_string(), 2).unwrap();
    assert_eq!(conn.announced(&mut locals, "a".to_string(), 3), Err(ServeError::Duplicate));
    assert_eq!(locals.route(&"a".to_string()), Some(1));
    conn.closed(&mut locals, &"a".to_string()).unwrap();
    assert_eq!(locals.route(&"a".to_string()), None);
    assert_eq!(locals.route(&"b".to_string()), Some(2));
    assert_eq!(conn.closed(&mut locals, &"a".to_string()), Err(ServeError::NotFound));
}

#[test]
fn last_consumer_closes_track() {
    let (mut publisher, first) = track::new("t");
    let second = publisher.subscribe(GroupOrder::Asc);
    assert_eq!(publisher.closed(), Ok(()));
    publisher.unsubscribe(first);
    assert_eq!(publisher.closed(), Ok(()));
    publisher.unsubscribe(second);
    assert_eq!(publisher.closed(), Err(ServeError::Closed));
    assert_eq!(publisher.insert_segment(info(1, 0), 0), Err(ServeError::Closed));
}

#[test]
fn one_priority_ascending_is_increasing() {
    let mut state = State::new();
    let mut sub = Subscriber::new(GroupOrder::Asc);
    let mut observed = Vec::new();
    let mut seq = 10;
    for round in 0..5 {
        for _ in 0..round {
            state.insert(info(seq, 7), 0).unwrap();
            seq += 3;
        }
        if let Next::Group(g) = sub.next_segment(&state) {
            observed.push(g.sequence);
        }
    }
    while let Next::Group(g) = sub.next_segment(&state) {
        observed.push(g.sequence);
    }
    assert_eq!(observed.len(), 10);
    assert!(observed.windows(2).all(|w| w[0] < w[1]));
}

#[test]
fn pending_group_expires_before_it_is_handed_out() {
    let mut state = State::new();
    state.insert(GroupInfo { sequence: 1, priority: 0, expires: Some(500) }, 0).unwrap();
    state.insert(GroupInfo { sequence: 2, priority: 0, expires: Some(100) }, 0).unwrap();
    let mut sub = Subscriber::new(GroupOrder::Asc);
    assert_eq!(sub.next_segment(&state), Next::Group(GroupInfo { sequence: 1, priority: 0, expires: Some(500) }));
    // group 2 was seen but not handed out; it expires at 100
    state.expire(200);
    assert_eq!(sub.next_segment(&state), Next::Pending);
}
