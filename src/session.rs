use vstd::prelude::*;

use crate::error::ServeError;
use crate::group::GroupWriter;
use crate::message::{GroupHeader, Subscribe};
use crate::setup::{Client, Params, Server};
use crate::track::GroupInfo;
use crate::message::Control;
use crate::varint::DecodeError;

verus! {

/// What a peer does in a session.
#[derive(Debug, Clone, Copy, PartialEq, Eq, Structural)]
pub enum Role {
    Publisher,
    Subscriber,
    Both,
}

impl Role {
    pub open spec fn spec_is_publisher(self) -> bool {
        self == Role::Publisher || self == Role::Both
    }

    pub open spec fn spec_is_subscriber(self) -> bool {
        self == Role::Subscriber || self == Role::Both
    }

    pub fn is_publisher(&self) -> (r: bool)
        ensures
            r == self.spec_is_publisher(),
    {
        match self {
            Role::Publisher | Role::Both => true,
            Role::Subscriber => false,
        }
    }

    pub fn is_subscriber(&self) -> (r: bool)
        ensures
            r == self.spec_is_subscriber(),
    {
        match self {
            Role::Subscriber | Role::Both => true,
            Role::Publisher => false,
        }
    }
}

/// Errors that end a session.
#[derive(Debug, Clone, Copy, PartialEq, Eq, Structural)]
pub enum SessionError {
    /// Both peers want the same single role: (peer's, ours).
    RoleIncompatible(Role, Role),
    /// A stream or message needs a role this side does not have.
    RoleViolation,
    /// No version is supported by both peers.
    VersionMismatch,
    /// A stream opened with a kind that may not be opened.
    UnexpectedStream(Control),
    /// The peer sent bytes that do not decode.
    Decode(DecodeError),
    /// The cache refused an operation.
    Serve(ServeError),
}

/// The role this side keeps once the peer announced its own: a peer that only
/// publishes leaves us subscribing, and the reverse.
pub open spec fn negotiate_spec(peer: Role, ours: Role) -> Result<Role, SessionError> {
    match peer {
        Role::Both => Ok(ours),
        Role::Publisher => if ours == Role::Publisher {
            Err(SessionError::RoleIncompatible(peer, ours))
        } else {
            Ok(Role::Subscriber)
        },
        Role::Subscriber => if ours == Role::Subscriber {
            Err(SessionError::RoleIncompatible(peer, ours))
        } else {
            Ok(Role::Publisher)
        },
    }
}

/// Downgrades our role to what the peer's role leaves compatible.
pub fn negotiate_role(peer: Role, ours: Role) -> (r: Result<Role, SessionError>)
    ensures
        r == negotiate_spec(peer, ours),
{
    match peer {
        Role::Both => Ok(ours),
        Role::Publisher => match ours {
            Role::Publisher => Err(SessionError::RoleIncompatible(peer, ours)),
            _ => Ok(Role::Subscriber),
        },
        Role::Subscriber => match ours {
            Role::Subscriber => Err(SessionError::RoleIncompatible(peer, ours)),
            _ => Ok(Role::Publisher),
        },
    }
}

/// A negotiated role is one that both sides can play against each other: it is
/// within ours, and whatever we publish the peer can subscribe to and the other
/// way round.
pub proof fn lemma_negotiated_role_compatible(peer: Role, ours: Role)
    requires
        negotiate_spec(peer, ours) is Ok,
    ensures
        ({
            let r = negotiate_spec(peer, ours)->Ok_0;
            &&& r.spec_is_publisher() ==> ours.spec_is_publisher() && peer.spec_is_subscriber()
            &&& r.spec_is_subscriber() ==> ours.spec_is_subscriber() && peer.spec_is_publisher()
        }),
{
}

/// Picks the highest version both peers support, or `VersionMismatch`.
pub fn select_version(client: &[u64], server: &[u64]) -> (r: Result<u64, SessionError>)
    ensures
        r matches Ok(v) ==> client@.contains(v) && server@.contains(v) && forall|w: u64|
            client@.contains(w) && server@.contains(w) ==> w <= v,
        r is Err <==> !exists|v: u64| client@.contains(v) && server@.contains(v),
        r is Err ==> r == Err::<u64, SessionError>(SessionError::VersionMismatch),
{
    let mut best: Option<u64> = None;
    let mut i: usize = 0;
    while i < client.len()
        invariant
            i <= client@.len(),
            best matches Some(b) ==> client@.contains(b) && server@.contains(b),
            forall|j: int| 0 <= j < i && server@.contains(client@[j]) ==> (best matches Some(b) && client@[j] <= b),
        decreases client.len() - i,
    {
        let v = client[i];
        let mut found = false;
        let mut k: usize = 0;
        while k < server.len()
            invariant
                k <= server@.len(),
                found ==> server@.contains(v),
                !found ==> forall|m: int| 0 <= m < k ==> server@[m] != v,
            decreases server.len() - k,
        {
            if server[k] == v {
                found = true;
            }
            k = k + 1;
        }
        if found {
            assert(client@[i as int] == v);
            best = match best {
                Some(b) => if v > b { Some(v) } else { Some(b) },
                None => Some(v),
            };
        } else {
            assert(!server@.contains(v));
        }
        i = i + 1;
    }
    match best {
        Some(b) => Ok(b),
        None => {
            assert forall|v: u64| client@.contains(v) implies !server@.contains(v) by {
                if client@.contains(v) {
                    let j = choose|j: int| 0 <= j < client@.len() && client@[j] == v;
                }
            }
            Err(SessionError::VersionMismatch)
        },
    }
}

/// The server's side of the handshake: the highest version both support and
/// our role downgraded against the client's; the reply carries no parameters.
pub fn accept_setup(client: &Client, ours: Role, supported: &[u64]) -> (r: Result<Server, SessionError>)
    ensures
        !(exists|v: u64| client.versions@.contains(v) && supported@.contains(v)) ==> r is Err && r->Err_0
            == SessionError::VersionMismatch,
        (exists|v: u64| client.versions@.contains(v) && supported@.contains(v)) ==> match negotiate_spec(client.role, ours) {
            Err(e) => r is Err && r->Err_0 == e,
            Ok(role) => r matches Ok(s) && s.role == role && s.params@.len() == 0 && client.versions@.contains(s.version)
                && supported@.contains(s.version) && forall|w: u64| client.versions@.contains(w) && supported@.contains(w)
                ==> w <= s.version,
        },
{
    let version = select_version(client.versions.as_slice(), supported)?;
    let role = negotiate_role(client.role, ours)?;
    Ok(Server { version, role, params: Params::new() })
}

/// The client's side of the handshake: the server must answer with a version
/// we offered, and our role is downgraded against the server's.
pub fn connect_reply(server: &Server, ours: Role, offered: &[u64]) -> (r: Result<Role, SessionError>)
    ensures
        !offered@.contains(server.version) ==> r == Err::<Role, SessionError>(SessionError::VersionMismatch),
        offered@.contains(server.version) ==> r == negotiate_spec(server.role, ours),
{
    let mut i: usize = 0;
    while i < offered.len()
        invariant
            i <= offered@.len(),
            forall|j: int| 0 <= j < i ==> offered@[j] != server.version,
        decreases offered.len() - i,
    {
        if offered[i] == server.version {
            return negotiate_role(server.role, ours);
        }
        i = i + 1;
    }
    Err(SessionError::VersionMismatch)
}

/// The kinds of control message.
#[derive(Debug, Clone, Copy, PartialEq, Eq, Structural)]
pub enum MessageKind {
    Subscribe,
    SubscribeOk,
    SubscribeError,
    SubscribeDone,
    Unsubscribe,
    Announce,
    AnnounceOk,
    AnnounceError,
    Unannounce,
    GroupDrop,
    GoAway,
}

/// Which part of this session takes an incoming control message.
#[derive(Debug, Clone, Copy, PartialEq, Eq, Structural)]
pub enum Side {
    /// Our subscriber: the message was sent by the peer's publisher.
    Subscriber,
    /// Our publisher: the message was sent by the peer's subscriber.
    Publisher,
    /// The session itself.
    Session,
}

/// Messages a publisher sends.
pub open spec fn sent_by_publisher(k: MessageKind) -> bool {
    k == MessageKind::Announce || k == MessageKind::Unannounce || k == MessageKind::SubscribeOk
        || k == MessageKind::SubscribeError || k == MessageKind::SubscribeDone || k == MessageKind::GroupDrop
}

/// Messages a subscriber sends.
pub open spec fn sent_by_subscriber(k: MessageKind) -> bool {
    k == MessageKind::Subscribe || k == MessageKind::Unsubscribe || k == MessageKind::AnnounceOk
        || k == MessageKind::AnnounceError
}

/// Routes an incoming control message: what the peer's publisher sends goes to
/// our subscriber, what its subscriber sends to our publisher; either needs the
/// matching role, else `RoleViolation`.
pub fn route_message(kind: MessageKind, role: Role) -> (r: Result<Side, SessionError>)
    ensures
        sent_by_publisher(kind) ==> r == if role.spec_is_subscriber() {
            Ok::<Side, SessionError>(Side::Subscriber)
        } else {
            Err(SessionError::RoleViolation)
        },
        sent_by_subscriber(kind) ==> r == if role.spec_is_publisher() {
            Ok::<Side, SessionError>(Side::Publisher)
        } else {
            Err(SessionError::RoleViolation)
        },
        kind == MessageKind::GoAway ==> r == Ok::<Side, SessionError>(Side::Session),
{
    match kind {
        MessageKind::Announce | MessageKind::Unannounce | MessageKind::SubscribeOk | MessageKind::SubscribeError
        | MessageKind::SubscribeDone | MessageKind::GroupDrop => {
            if role.is_subscriber() {
                Ok(Side::Subscriber)
            } else {
                Err(SessionError::RoleViolation)
            }
        },
        MessageKind::Subscribe | MessageKind::Unsubscribe | MessageKind::AnnounceOk | MessageKind::AnnounceError => {
            if role.is_publisher() {
                Ok(Side::Publisher)
            } else {
                Err(SessionError::RoleViolation)
            }
        },
        MessageKind::GoAway => Ok(Side::Session),
    }
}

/// Who handles an incoming bidirectional stream.
#[derive(Debug, Clone, Copy, PartialEq, Eq, Structural)]
pub enum Handler {
    /// The subscriber side takes announcements.
    SubscriberAnnounce,
    /// The publisher side serves a subscription.
    PublisherSubscribe,
    PublisherDatagrams,
    PublisherFetch,
    PublisherInfo,
}

pub open spec fn route_control_spec(kind: Control, role: Role) -> Result<Handler, SessionError> {
    match kind {
        Control::Session => Err(SessionError::UnexpectedStream(kind)),
        Control::Announce => if role.spec_is_subscriber() {
            Ok(Handler::SubscriberAnnounce)
        } else {
            Err(SessionError::RoleViolation)
        },
        _ => if !role.spec_is_publisher() {
            Err(SessionError::RoleViolation)
        } else {
            Ok(
                match kind {
                    Control::Subscribe => Handler::PublisherSubscribe,
                    Control::Datagrams => Handler::PublisherDatagrams,
                    Control::Fetch => Handler::PublisherFetch,
                    _ => Handler::PublisherInfo,
                },
            )
        },
    }
}

/// Dispatches a bidirectional stream by the kind it opened with.
pub fn route_control(kind: Control, role: Role) -> (r: Result<Handler, SessionError>)
    ensures
        r == route_control_spec(kind, role),
{
    match kind {
        Control::Session => Err(SessionError::UnexpectedStream(kind)),
        Control::Announce => {
            if role.is_subscriber() {
                Ok(Handler::SubscriberAnnounce)
            } else {
                Err(SessionError::RoleViolation)
            }
        },
        Control::Subscribe => {
            if role.is_publisher() {
                Ok(Handler::PublisherSubscribe)
            } else {
                Err(SessionError::RoleViolation)
            }
        },
        Control::Datagrams => {
            if role.is_publisher() {
                Ok(Handler::PublisherDatagrams)
            } else {
                Err(SessionError::RoleViolation)
            }
        },
        Control::Fetch => {
            if role.is_publisher() {
                Ok(Handler::PublisherFetch)
            } else {
                Err(SessionError::RoleViolation)
            }
        },
        Control::Info => {
            if role.is_publisher() {
                Ok(Handler::PublisherInfo)
            } else {
                Err(SessionError::RoleViolation)
            }
        },
    }
}

/// A unidirectional stream carries group data, which only a subscriber takes.
pub fn route_uni(role: Role) -> (r: Result<(), SessionError>)
    ensures
        r is Ok <==> role.spec_is_subscriber(),
        r is Err ==> r == Err::<(), SessionError>(SessionError::RoleViolation),
{
    if role.is_subscriber() {
        Ok(())
    } else {
        Err(SessionError::RoleViolation)
    }
}

/// How the data of a subscription arrives, fixed by the first data received.
#[derive(Debug, Clone, Copy, PartialEq, Eq, Structural)]
pub enum WriterMode {
    /// Nothing received yet: any mode may follow.
    Track,
    /// One stream for the whole track.
    Stream,
    /// One stream per group.
    Groups,
    /// One stream per object.
    Objects,
    /// Datagrams.
    Datagrams,
}

/// The publisher's acceptance of a subscription.
#[derive(Debug, Clone, Copy, PartialEq, Eq, Structural)]
pub struct SubscribeOk {
    pub id: u64,
    pub priority: u64,
    pub group_latest: Option<u64>,
}

/// A track this publisher can serve: its broadcast and name, its priority,
/// and its latest group, if any.
pub struct ServedTrack {
    pub broadcast: String,
    pub name: String,
    pub priority: u64,
    pub latest: Option<u64>,
}

/// The publisher's answer to a subscription request.
#[derive(Debug, Clone, Copy, PartialEq, Eq, Structural)]
pub enum SubscribeReply {
    Accepted(SubscribeOk),
    /// The request's id and why it cannot be served.
    Refused(u64, ServeError),
}

pub open spec fn serves_broadcast(tracks: Seq<ServedTrack>, b: Seq<char>) -> bool {
    exists|i: int| 0 <= i < tracks.len() && (#[trigger] tracks[i]).broadcast@ == b
}

pub open spec fn is_track(t: ServedTrack, b: Seq<char>, n: Seq<char>) -> bool {
    t.broadcast@ == b && t.name@ == n
}

/// Answers a subscription from the tracks served here: the first track with
/// the requested broadcast and name is accepted with its priority and latest
/// group; an unknown broadcast is `UnknownBroadcast`, an unknown track of a
/// known broadcast `NotFound`.
pub fn respond_subscribe(msg: &Subscribe, tracks: &Vec<ServedTrack>) -> (r: SubscribeReply)
    ensures
        !serves_broadcast(tracks@, msg.broadcast@) ==> r == SubscribeReply::Refused(msg.id, ServeError::UnknownBroadcast),
        serves_broadcast(tracks@, msg.broadcast@) && (forall|i: int| 0 <= i < tracks@.len() ==> !is_track(
            #[trigger] tracks@[i],
            msg.broadcast@,
            msg.track@,
        )) ==> r == SubscribeReply::Refused(msg.id, ServeError::NotFound),
        forall|i: int|
            0 <= i < tracks@.len() && is_track(#[trigger] tracks@[i], msg.broadcast@, msg.track@) && (forall|j: int|
                0 <= j < i ==> !is_track(#[trigger] tracks@[j], msg.broadcast@, msg.track@)) ==> r == SubscribeReply::Accepted(
                SubscribeOk { id: msg.id, priority: tracks@[i].priority, group_latest: tracks@[i].latest },
            ),
{
    let mut known = false;
    let mut i: usize = 0;
    while i < tracks.len()
        invariant
            i <= tracks@.len(),
            forall|j: int| 0 <= j < i ==> !is_track(#[trigger] tracks@[j], msg.broadcast@, msg.track@),
            known ==> serves_broadcast(tracks@, msg.broadcast@),
            !known ==> forall|j: int| 0 <= j < i ==> (#[trigger] tracks@[j]).broadcast@ != msg.broadcast@,
        decreases tracks.len() - i,
    {
        let t = &tracks[i];
        if t.broadcast == msg.broadcast {
            known = true;
            if t.name == msg.track {
                return SubscribeReply::Accepted(SubscribeOk { id: msg.id, priority: t.priority, group_latest: t.latest });
            }
        }
        i = i + 1;
    }
    if known {
        SubscribeReply::Refused(msg.id, ServeError::NotFound)
    } else {
        SubscribeReply::Refused(msg.id, ServeError::UnknownBroadcast)
    }
}

/// Whether data in mode `target` may arrive when the writer is in mode `m`.
pub open spec fn mode_allows(m: WriterMode, target: WriterMode) -> bool {
    m == WriterMode::Track || (m == target && target != WriterMode::Stream)
}

/// The writer after data in mode `target` arrives, and whether it was taken.
pub open spec fn mode_step(m: Option<WriterMode>, target: WriterMode) -> (Option<WriterMode>, Result<(), ServeError>) {
    match m {
        None => (None, Err(ServeError::Done)),
        Some(m) => if mode_allows(m, target) {
            (Some(target), Ok(()))
        } else {
            (None, Err(ServeError::Mode))
        },
    }
}

/// The receiving side of one subscription: the acceptance once it came, how
/// the subscription ended, and the mode of the track writer (gone once the
/// subscription failed or a mismatched mode was seen).
pub struct SubscribeRecv {
    ok: Option<SubscribeOk>,
    closed: Result<(), ServeError>,
    writer: Option<WriterMode>,
}

impl SubscribeRecv {
    pub closed spec fn ok(&self) -> Option<SubscribeOk> {
        self.ok
    }

    pub closed spec fn closed(&self) -> Result<(), ServeError> {
        self.closed
    }

    pub closed spec fn writer(&self) -> Option<WriterMode> {
        self.writer
    }

    /// The error the subscription ended with, if it ended.
    pub fn error(&self) -> (r: Option<ServeError>)
        ensures
            r == match self.closed() {
                Ok(()) => None,
                Err(e) => Some(e),
            },
    {
        match self.closed {
            Ok(()) => None,
            Err(e) => Some(e),
        }
    }

    pub fn new() -> (r: SubscribeRecv)
        ensures
            r.ok() is None,
            r.closed() == Ok::<(), ServeError>(()),
            r.writer() == Some(WriterMode::Track),
    {
        SubscribeRecv { ok: None, closed: Ok(()), writer: Some(WriterMode::Track) }
    }

    /// Records the acceptance; a second one is a `Duplicate`.
    pub fn recv_ok(&mut self, msg: SubscribeOk) -> (r: Result<(), ServeError>)
        ensures
            final(self).closed() == old(self).closed(),
            final(self).writer() == old(self).writer(),
            old(self).ok() is Some ==> r == Err::<(), ServeError>(ServeError::Duplicate) && final(self).ok() == old(self).ok(),
            old(self).ok() is None ==> r == Ok::<(), ServeError>(()) && final(self).ok() == Some(msg),
    {
        if self.ok.is_some() {
            return Err(ServeError::Duplicate);
        }
        self.ok = Some(msg);
        Ok(())
    }

    /// Ends the subscription with `err`, closing its writer.
    pub fn recv_error(&mut self, err: ServeError) -> (r: Result<(), ServeError>)
        ensures
            final(self).ok() == old(self).ok(),
            final(self).writer() is None,
            old(self).writer() is None ==> r == Err::<(), ServeError>(ServeError::Done) && final(self).closed() == old(self).closed(),
            old(self).writer() is Some ==> r == Ok::<(), ServeError>(()) && final(self).closed() == Err::<(), ServeError>(err),
    {
        if self.writer.is_none() {
            return Err(ServeError::Done);
        }
        self.writer = None;
        self.closed = Err(err);
        Ok(())
    }

    fn step(&mut self, target: WriterMode) -> (r: Result<(), ServeError>)
        ensures
            final(self).ok() == old(self).ok(),
            final(self).closed() == old(self).closed(),
            (final(self).writer(), r) == mode_step(old(self).writer(), target),
    {
        let m = match self.writer.take() {
            None => return Err(ServeError::Done),
            Some(m) => m,
        };
        let allowed = match m {
            WriterMode::Track => true,
            WriterMode::Stream => false,
            WriterMode::Groups => target == WriterMode::Groups,
            WriterMode::Objects => target == WriterMode::Objects,
            WriterMode::Datagrams => target == WriterMode::Datagrams,
        };
        if !allowed {
            return Err(ServeError::Mode);
        }
        self.writer = Some(target);
        Ok(())
    }

    /// A single stream for the whole track begins.
    pub fn recv_track(&mut self) -> (r: Result<(), ServeError>)
        ensures
            final(self).ok() == old(self).ok(),
            final(self).closed() == old(self).closed(),
            (final(self).writer(), r) == mode_step(old(self).writer(), WriterMode::Stream),
    {
        self.step(WriterMode::Stream)
    }

    /// A group stream begins: returns the writer for its frames.
    pub fn recv_group(&mut self, header: GroupHeader) -> (r: Result<GroupWriter, ServeError>)
        ensures
            final(self).ok() == old(self).ok(),
            final(self).closed() == old(self).closed(),
            final(self).writer() == mode_step(old(self).writer(), WriterMode::Groups).0,
            mode_step(old(self).writer(), WriterMode::Groups).1 is Err ==> r == Err::<GroupWriter, ServeError>(mode_step(old(self).writer(), WriterMode::Groups).1->Err_0),
            mode_step(old(self).writer(), WriterMode::Groups).1 is Ok ==> (r matches Ok(w) && w.info() == (GroupInfo {
                sequence: header.group_id,
                priority: header.send_order,
                expires: None,
            }) && w.frames() == Seq::<Seq<u8>>::empty() && w.done() is None),
    {
        self.step(WriterMode::Groups)?;
        Ok(GroupWriter::new(GroupInfo { sequence: header.group_id, priority: header.send_order, expires: None }))
    }

    /// An object stream begins.
    pub fn recv_object(&mut self) -> (r: Result<(), ServeError>)
        ensures
            final(self).ok() == old(self).ok(),
            final(self).closed() == old(self).closed(),
            (final(self).writer(), r) == mode_step(old(self).writer(), WriterMode::Objects),
    {
        self.step(WriterMode::Objects)
    }

    /// A datagram arrives.
    pub fn recv_datagram(&mut self) -> (r: Result<(), ServeError>)
        ensures
            final(self).ok() == old(self).ok(),
            final(self).closed() == old(self).closed(),
            (final(self).writer(), r) == mode_step(old(self).writer(), WriterMode::Datagrams),
    {
        self.step(WriterMode::Datagrams)
    }
}

} // verus!
