//! The state of a service, and how it changes.

use std::sync::Arc;
use vstd::prelude::*;

use crate::action::Action;
use crate::ident::above;
use crate::service::conflict::closings;
use crate::transport::frame::{drains, Frame};
use crate::transport::remotes::{
    DisconnectReason, FramingError, Inbound, Outbound, RawFd, RemoteView, ResourceId, ServiceTypes,
};
use crate::Direction;

verus! {

/// What was counted of the traffic with a node.
#[derive(Copy, Clone, Eq, PartialEq, Hash, Debug, Structural)]
pub struct Metrics {
    pub bytes_sent: usize,
    pub bytes_received: usize,
    pub messages_sent: usize,
    pub messages_received: usize,
    pub inbound_connection_attempts: usize,
    pub outbound_connection_attempts: usize,
    pub disconnects: usize,
}

impl Metrics {
    /// Nothing counted yet.
    pub open spec fn zero() -> Metrics {
        Metrics {
            bytes_sent: 0,
            bytes_received: 0,
            messages_sent: 0,
            messages_received: 0,
            inbound_connection_attempts: 0,
            outbound_connection_attempts: 0,
            disconnects: 0,
        }
    }
}

impl Default for Metrics {
    fn default() -> (res: Self)
        ensures
            res == Metrics::zero(),
    {
        Metrics {
            bytes_sent: 0,
            bytes_received: 0,
            messages_sent: 0,
            messages_received: 0,
            inbound_connection_attempts: 0,
            outbound_connection_attempts: 0,
            disconnects: 0,
        }
    }
}

/// An event on a transport.
pub enum SessionEvent<P: ServiceTypes> {
    /// The session is established, with the node that proved its identity.
    Established(Option<P::NodeId>),
    /// Bytes arrived.
    Data(Vec<u8>),
    /// The session ended.
    Terminated(P::Error),
}

/// A call that is to be made to the controller of the service.
#[allow(inconsistent_fields)]
pub enum Callback<P: ServiceTypes> {
    /// A listener is part of the poll.
    Listening { socket: P::SocketAddr },
    /// A listener failed to accept an incoming connection.
    AcceptFailure { socket: P::SocketAddr, error: P::Error, time: P::Timestamp },
    /// A session with a node is established.
    Established {
        remote_id: P::NodeId,
        addr: P::Addr,
        direction: Direction,
        time: P::Timestamp,
    },
    /// A connection with a node is over.
    Disconnected {
        remote_id: P::NodeId,
        direction: Direction,
        reason: DisconnectReason<P>,
    },
    /// A listener was taken out of the poll.
    Unbound { listener: P::Listener },
    /// A frame arrived.
    Frame { res_id: ResourceId, frame: P::InFrame },
    /// Bytes arrived that are no frame. The remote is disconnected.
    FrameUnparsable { res_id: ResourceId, error: Arc<<P::InFrame as Frame>::Error> },
}

/// The node and side that are told to the controller when a connection goes away.
pub type Gone<N> = Option<(N, Direction)>;

/// The state of a service.
#[verifier::ext_equal]
pub ghost struct ServiceState<P: ServiceTypes> {
    /// This node.
    pub local_id: P::NodeId,
    /// Listeners that are not part of the poll yet.
    pub listening: Map<RawFd, P::SocketAddr>,
    /// Listeners that are part of the poll.
    pub bound: Map<RawFd, P::SocketAddr>,
    /// Accepted connections without a session.
    pub inbound: Map<RawFd, Inbound<P>>,
    /// Opened connections without a session.
    pub outbound: Map<RawFd, Outbound<P>>,
    /// Remotes with a session.
    pub remotes: Map<ResourceId, RemoteView<P>>,
    /// Counters by node.
    pub metrics: Map<P::NodeId, Metrics>,
    /// What the reactor is still to be asked, the oldest first.
    pub actions: Seq<Action<P::Listener, P::Transport>>,
}

impl<P: ServiceTypes> ServiceState<P> {
    /// The counters of `node`: zero where nothing was counted.
    pub open spec fn counters(self, node: P::NodeId) -> Metrics {
        if self.metrics.contains_key(node) {
            self.metrics[node]
        } else {
            Metrics::zero()
        }
    }

    /// The state in which the reactor is asked for `action` too, after everything else.
    pub open spec fn asking(self, action: Action<P::Listener, P::Transport>) -> Self {
        ServiceState { actions: self.actions.push(action), ..self }
    }

    /// The state with `remote` as the remote of `res_id`.
    pub open spec fn with_remote(self, res_id: ResourceId, remote: RemoteView<P>) -> Self {
        ServiceState { remotes: self.remotes.insert(res_id, remote), ..self }
    }

    /// Whether `fd` is an attempt of ours to connect that the reactor knows as `res_id`.
    pub open spec fn attempts(self, fd: RawFd, res_id: ResourceId) -> bool {
        self.outbound.contains_key(fd) && self.outbound[fd].res_id == Some(res_id)
    }

    /// The state once `res_id` is to be disconnected for `reason`.
    ///
    /// A connected remote becomes a disconnecting one. The reactor is asked for the transport
    /// unless it was asked before.
    pub open spec fn disconnected(self, res_id: ResourceId, reason: DisconnectReason<P>) -> Self {
        if !self.remotes.contains_key(res_id) {
            self.asking(Action::UnregisterTransport(res_id))
        } else {
            match self.remotes[res_id] {
                RemoteView::Disconnecting { .. } => self,
                RemoteView::Connected { remote_id, direction, .. } => self.with_remote(
                    res_id,
                    RemoteView::Disconnecting { remote_id: Some(remote_id), direction, reason },
                ).asking(Action::UnregisterTransport(res_id)),
            }
        }
    }

    /// Whether disconnecting `res_id` may be answered with `gone`.
    ///
    /// It is the node and side of the remote. Without a session it is the node of an attempt of
    /// ours to connect. An accepted connection without a session has no node.
    pub open spec fn answers(self, res_id: ResourceId, gone: Gone<P::NodeId>) -> bool {
        if self.remotes.contains_key(res_id) {
            gone == match self.remotes[res_id].node() {
                Some(node) => Some((node, self.remotes[res_id].side())),
                None => None,
            }
        } else {
            match gone {
                Some((node, side)) => {
                    &&& side is Outbound
                    &&& exists|fd: RawFd| #[trigger]
                        self.attempts(fd, res_id) && self.outbound[fd].remote_id == node
                },
                None => forall|fd: RawFd| !#[trigger] self.attempts(fd, res_id),
            }
        }
    }

    /// The state once each of `ids`, in order, was disconnected in favour of another connection.
    pub open spec fn all_closed(self, ids: Seq<ResourceId>) -> Self
        decreases ids.len(),
    {
        if ids.len() == 0 {
            self
        } else {
            self.all_closed(ids.drop_last()).disconnected(ids.last(), DisconnectReason::Conflict)
        }
    }

    /// Whether closing `ids` in order may be answered with `gone`, one by one.
    pub open spec fn all_answer(
        self,
        ids: Seq<ResourceId>,
        gone: Seq<Gone<P::NodeId>>,
    ) -> bool {
        &&& gone.len() == ids.len()
        &&& forall|i: int|
            0 <= i < ids.len() ==> self.all_closed(ids.take(i)).answers(ids[i], #[trigger] gone[i])
    }

    /// The connection without a session behind `fd`: its address and who opened it.
    pub open spec fn claim(self, fd: RawFd) -> Option<(P::Addr, Direction)> {
        if self.inbound.contains_key(fd) {
            Some((self.inbound[fd].addr, Direction::Inbound))
        } else if self.outbound.contains_key(fd) {
            Some((self.outbound[fd].addr, Direction::Outbound))
        } else {
            None
        }
    }

    /// The state once the connection behind `fd` turned out to be with `remote_id`.
    pub open spec fn claimed(self, fd: RawFd, remote_id: P::NodeId) -> Self {
        if self.inbound.contains_key(fd) {
            let counted = self.counters(remote_id);
            ServiceState {
                inbound: self.inbound.remove(fd),
                metrics: self.metrics.insert(
                    remote_id,
                    Metrics {
                        inbound_connection_attempts: (counted.inbound_connection_attempts
                            + 1) as usize,
                        ..counted
                    },
                ),
                ..self
            }
        } else {
            ServiceState { outbound: self.outbound.remove(fd), ..self }
        }
    }

    /// Whether `c_id` is a session in use with the same node under another resource.
    pub open spec fn rivals(
        self,
        c_id: ResourceId,
        res_id: ResourceId,
        remote_id: P::NodeId,
    ) -> bool {
        &&& self.remotes.contains_key(c_id)
        &&& self.remotes[c_id] is Connected
        &&& self.remotes[c_id].node() == Some(remote_id)
        &&& c_id != res_id
    }

    /// Whether `c_fd` is an attempt of ours to connect to the same node over another descriptor,
    /// which the reactor knows.
    pub open spec fn rival_attempts(self, c_fd: RawFd, fd: RawFd, remote_id: P::NodeId) -> bool {
        &&& self.outbound.contains_key(c_fd)
        &&& self.outbound[c_fd].remote_id == remote_id
        &&& self.outbound[c_fd].res_id is Some
        &&& c_fd != fd
    }

    /// Whether `conflicting` names the connections that conflict with a session of `res_id` with
    /// `remote_id`: each session in use and then each attempt, once, in any order.
    pub open spec fn conflicts(
        self,
        fd: RawFd,
        res_id: ResourceId,
        remote_id: P::NodeId,
        conflicting: Seq<(ResourceId, Direction)>,
    ) -> bool {
        exists|sessions: Seq<ResourceId>, attempts: Seq<RawFd>| #[trigger]
            self.conflicts_by(fd, res_id, remote_id, conflicting, sessions, attempts)
    }

    /// Whether `conflicting` is `sessions` and then `attempts`, which name the rivals.
    pub open spec fn conflicts_by(
        self,
        fd: RawFd,
        res_id: ResourceId,
        remote_id: P::NodeId,
        conflicting: Seq<(ResourceId, Direction)>,
        sessions: Seq<ResourceId>,
        attempts: Seq<RawFd>,
    ) -> bool {
        &&& self.names_rivals(res_id, remote_id, sessions)
        &&& self.names_rival_attempts(fd, remote_id, attempts)
        &&& conflicting == self.session_links(sessions) + self.attempt_links(attempts)
    }

    /// Whether `sessions` names every rival session once.
    pub open spec fn names_rivals(
        self,
        res_id: ResourceId,
        remote_id: P::NodeId,
        sessions: Seq<ResourceId>,
    ) -> bool {
        &&& sessions.no_duplicates()
        &&& forall|c_id: ResourceId| #[trigger]
            sessions.contains(c_id) <==> self.rivals(c_id, res_id, remote_id)
    }

    /// Whether `attempts` names every rival attempt once.
    pub open spec fn names_rival_attempts(
        self,
        fd: RawFd,
        remote_id: P::NodeId,
        attempts: Seq<RawFd>,
    ) -> bool {
        &&& attempts.no_duplicates()
        &&& forall|c_fd: RawFd| #[trigger]
            attempts.contains(c_fd) <==> self.rival_attempts(c_fd, fd, remote_id)
    }

    /// The resources of `sessions`, each with the side that opened it.
    pub open spec fn session_links(self, sessions: Seq<ResourceId>) -> Seq<
        (ResourceId, Direction),
    > {
        Seq::new(sessions.len(), |i: int| (sessions[i], self.remotes[sessions[i]].side()))
    }

    /// The resources of `attempts`, all opened by us.
    pub open spec fn attempt_links(self, attempts: Seq<RawFd>) -> Seq<(ResourceId, Direction)> {
        Seq::new(
            attempts.len(),
            |i: int| (self.outbound[attempts[i]].res_id->0, Direction::Outbound),
        )
    }

    /// Whether the session of `fd` with `remote_id` may come to be as the state `after`, with
    /// `calls` for the controller.
    ///
    /// `conflicting` are the connections in its way and `gone` the answers to closing what has to
    /// be closed. `stored` is the copy of the address that is kept.
    pub open spec fn establishes(
        self,
        fd: RawFd,
        res_id: ResourceId,
        remote_id: P::NodeId,
        time: P::Timestamp,
        conflicting: Seq<(ResourceId, Direction)>,
        gone: Seq<Gone<P::NodeId>>,
        stored: P::Addr,
        after: Self,
        calls: Seq<Callback<P>>,
    ) -> bool {
        let (addr, direction) = self.claim(fd)->0;
        let claimed = self.claimed(fd, remote_id);
        let closed = closings(
            above(self.local_id, remote_id),
            res_id,
            direction,
            conflicting,
        );
        &&& claimed.conflicts(fd, res_id, remote_id, conflicting)
        &&& claimed.all_answer(closed, gone)
        &&& if closed.contains(res_id) {
            &&& after == claimed.all_closed(closed)
            &&& calls == notices::<P>(gone)
        } else {
            &&& cloned(addr, stored)
            &&& after == claimed.all_closed(closed).with_remote(
                res_id,
                RemoteView::Connected {
                    remote_id,
                    addr: stored,
                    direction,
                    received: Seq::empty(),
                    sendable: Seq::empty(),
                },
            )
            &&& calls == notices::<P>(gone).push(
                Callback::Established { remote_id, addr, direction, time },
            )
        }
    }

    /// Whether a session over `fd` with `remote_id` can be taken in: the attempt to connect can
    /// be counted, and one of ours ended at the node that it was meant for.
    pub open spec fn can_establish(self, fd: RawFd, remote_id: P::NodeId) -> bool {
        if remote_id == self.local_id {
            true
        } else if self.inbound.contains_key(fd) {
            self.counters(remote_id).inbound_connection_attempts < usize::MAX
        } else if self.outbound.contains_key(fd) {
            self.outbound[fd].remote_id == remote_id
        } else {
            true
        }
    }

    /// Whether a session of `res_id` with `remote_id` may lead to the state `after`, with `calls`
    /// for the controller.
    ///
    /// A session with this very node is closed. One that belongs to no known connection is
    /// ignored.
    pub open spec fn established(
        self,
        fd: RawFd,
        res_id: ResourceId,
        remote_id: P::NodeId,
        time: P::Timestamp,
        after: Self,
        calls: Seq<Callback<P>>,
    ) -> bool {
        if remote_id == self.local_id {
            &&& after == self.disconnected(res_id, DisconnectReason::SelfConnection)
            &&& calls.len() == 0
        } else if self.claim(fd) is None {
            &&& after == self
            &&& calls.len() == 0
        } else {
            exists|
                conflicting: Seq<(ResourceId, Direction)>,
                gone: Seq<Gone<P::NodeId>>,
                stored: P::Addr,
            | #[trigger]
                self.establishes(
                    fd,
                    res_id,
                    remote_id,
                    time,
                    conflicting,
                    gone,
                    stored,
                    after,
                    calls,
                )
        }
    }

    /// Whether `count` bytes from `res_id` can be counted.
    pub open spec fn can_count(self, res_id: ResourceId, count: nat) -> bool {
        self.in_session(res_id) ==> self.counters(self.remotes[res_id].node()->0).bytes_received
            + count <= usize::MAX
    }

    /// Whether `data` from `res_id` may lead to the state `after`, with `calls` for the
    /// controller. Without a session in use, the bytes are dropped.
    pub open spec fn receives(
        self,
        res_id: ResourceId,
        data: Seq<u8>,
        after: Self,
        calls: Seq<Callback<P>>,
    ) -> bool {
        if !self.in_session(res_id) {
            &&& after == self
            &&& calls.len() == 0
        } else {
            let counted = self.counting(self.remotes[res_id].node()->0, data.len());
            let received = self.received(res_id) + data;
            if received.len() > usize::MAX {
                &&& after == counted.disconnected(
                    res_id,
                    DisconnectReason::Framing(FramingError::NoRoom),
                )
                &&& calls.len() == 0
            } else {
                counted.with_received(res_id, received).framed(res_id, after, calls)
            }
        }
    }

    /// Whether framing the bytes received from `res_id` may lead to the state `after`, with
    /// `calls` for the controller.
    pub open spec fn framed(
        self,
        res_id: ResourceId,
        after: Self,
        calls: Seq<Callback<P>>,
    ) -> bool {
        exists|
            rests: Seq<Seq<u8>>,
            frames: Seq<P::InFrame>,
            failure: Option<Arc<<P::InFrame as Frame>::Error>>,
        | #[trigger]
            self.frames(res_id, rests, frames, failure, after, calls)
    }

    /// Whether an event on the transport `res_id` may lead to the state `after`, with `calls` for
    /// the controller.
    pub open spec fn handles(
        self,
        fd: RawFd,
        res_id: ResourceId,
        event: SessionEvent<P>,
        time: P::Timestamp,
        after: Self,
        calls: Seq<Callback<P>>,
    ) -> bool {
        match event {
            SessionEvent::Established(remote_id) => self.established(
                fd,
                res_id,
                remote_id->0,
                time,
                after,
                calls,
            ),
            SessionEvent::Data(data) => self.receives(res_id, data@, after, calls),
            SessionEvent::Terminated(error) => {
                &&& after == self.disconnected(res_id, DisconnectReason::Connection(Some(error)))
                &&& calls.len() == 0
            },
        }
    }

    /// The state once `count` more bytes from `node` were counted.
    pub open spec fn counting(self, node: P::NodeId, count: nat) -> Self {
        let counted = self.counters(node);
        ServiceState {
            metrics: self.metrics.insert(
                node,
                Metrics { bytes_received: (counted.bytes_received + count) as usize, ..counted },
            ),
            ..self
        }
    }

    /// Whether `res_id` has a session in use.
    pub open spec fn in_session(self, res_id: ResourceId) -> bool {
        self.remotes.contains_key(res_id) && self.remotes[res_id] is Connected
    }

    /// The bytes from the remote of `res_id` that are not yet part of a frame.
    pub open spec fn received(self, res_id: ResourceId) -> Seq<u8> {
        self.remotes[res_id]->received
    }

    /// The state in which the bytes from the remote of `res_id` are `received`.
    pub open spec fn with_received(self, res_id: ResourceId, received: Seq<u8>) -> Self {
        match self.remotes[res_id] {
            RemoteView::Connected { remote_id, addr, direction, sendable, .. } => self.with_remote(
                res_id,
                RemoteView::Connected { remote_id, addr, direction, received, sendable },
            ),
            RemoteView::Disconnecting { .. } => self,
        }
    }

    /// Whether the bytes received from `res_id` may be framed as `frames`, with `rests` left
    /// before and after each, and `failure` where what follows is no frame; and the state is then
    /// `after`, with `calls` for the controller.
    pub open spec fn frames(
        self,
        res_id: ResourceId,
        rests: Seq<Seq<u8>>,
        frames: Seq<P::InFrame>,
        failure: Option<Arc<<P::InFrame as Frame>::Error>>,
        after: Self,
        calls: Seq<Callback<P>>,
    ) -> bool {
        &&& rests.first() == self.received(res_id)
        &&& match failure {
            None => {
                &&& drains(rests, frames, None)
                &&& after == self.with_received(res_id, rests.last())
                &&& calls == deliveries::<P>(res_id, frames)
            },
            Some(error) => {
                &&& drains(rests, frames, Some(*error))
                &&& after == self.disconnected(
                    res_id,
                    DisconnectReason::Framing(FramingError::Unparsable(error)),
                )
                &&& calls == deliveries::<P>(res_id, frames).push(
                    Callback::FrameUnparsable { res_id, error },
                )
            },
        }
    }
}

/// The calls that hand `frames` to the controller.
pub open spec fn deliveries<P: ServiceTypes>(
    res_id: ResourceId,
    frames: Seq<P::InFrame>,
) -> Seq<Callback<P>> {
    Seq::new(frames.len(), |i: int| Callback::Frame { res_id, frame: frames[i] })
}

/// The calls that tell the controller of connections closed in favour of another.
pub open spec fn notices<P: ServiceTypes>(gone: Seq<Gone<P::NodeId>>) -> Seq<Callback<P>>
    decreases gone.len(),
{
    if gone.len() == 0 {
        Seq::empty()
    } else {
        match gone.last() {
            Some((remote_id, direction)) => notices::<P>(gone.drop_last()).push(
                Callback::Disconnected { remote_id, direction, reason: DisconnectReason::Conflict },
            ),
            None => notices::<P>(gone.drop_last()),
        }
    }
}

} // verus!
