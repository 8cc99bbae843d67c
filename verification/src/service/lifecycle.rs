//! How connections come into the poll and leave it.

use std::collections::{HashMap, VecDeque};
use vstd::prelude::*;

use crate::action::Action;
use crate::service::handler::Service;
use crate::service::state::{Callback, ServiceState};
use crate::transport::remotes::{
    DisconnectReason, Inbound, Outbound, RawFd, Remote, RemoteView, Remotes, ResourceId,
    ServiceTypes,
};
use crate::Direction;

verus! {

broadcast use vstd::std_specs::hash::group_hash_axioms;

/// Type of a resource.
#[derive(Copy, Clone, Eq, PartialEq, Hash, Debug, Structural)]
pub enum ResourceType {
    /// A resource that accepts connections.
    Listener,
    /// A resource that is read from and written to.
    Transport,
}

/// An error in the event loop.
#[derive(Copy, Clone, Eq, PartialEq, Hash, Debug, Structural)]
pub enum ReactorError {
    /// The poll itself failed.
    Poll,
    /// A listener dropped out of the poll.
    ListenerDisconnect { id: ResourceId },
    /// A transport dropped out of the poll.
    TransportDisconnect { id: ResourceId, fd: RawFd },
}

impl<P: ServiceTypes> ServiceState<P> {
    /// A service that just started.
    pub open spec fn fresh(local_id: P::NodeId) -> Self {
        ServiceState {
            local_id,
            listening: Map::empty(),
            bound: Map::empty(),
            inbound: Map::empty(),
            outbound: Map::empty(),
            remotes: Map::empty(),
            metrics: Map::empty(),
            actions: Seq::empty(),
        }
    }

    /// The state once the resource behind `fd` is part of the poll as `id`.
    pub open spec fn registered(self, fd: RawFd, id: ResourceId, ty: ResourceType) -> Self {
        match ty {
            ResourceType::Listener => ServiceState {
                listening: self.listening.remove(fd),
                bound: self.bound.insert(fd, self.listening[fd]),
                ..self
            },
            ResourceType::Transport => if self.outbound.contains_key(fd) {
                let attempt = Outbound { res_id: Some(id), ..self.outbound[fd] };
                ServiceState { outbound: self.outbound.insert(fd, attempt), ..self }
            } else if self.inbound.contains_key(fd) {
                let attempt = Inbound { res_id: Some(id), ..self.inbound[fd] };
                ServiceState { inbound: self.inbound.insert(fd, attempt), ..self }
            } else {
                self
            },
        }
    }

    /// What the controller is told when the resource behind `fd` became part of the poll.
    pub open spec fn registration_notice(self, fd: RawFd, ty: ResourceType) -> Option<Callback<P>> {
        match ty {
            ResourceType::Listener => Some(Callback::Listening { socket: self.listening[fd] }),
            ResourceType::Transport => None,
        }
    }

    /// The state after an error in the event loop.
    pub open spec fn failed(self, err: ReactorError) -> Self {
        match err {
            ReactorError::TransportDisconnect { id, fd } => self.released(id, fd),
            _ => self,
        }
    }

    /// What the controller is told of an error in the event loop.
    pub open spec fn failure_notice(self, err: ReactorError) -> Option<Callback<P>> {
        match err {
            ReactorError::TransportDisconnect { id, fd } => self.drop_notice(id, fd),
            _ => None,
        }
    }

    /// The next action for the reactor, once `more` was asked after everything else.
    pub open spec fn next_action(
        self,
        more: Seq<Action<P::Listener, P::Transport>>,
    ) -> Option<Action<P::Listener, P::Transport>> {
        let all = self.actions + more;
        if all.len() == 0 {
            None
        } else {
            Some(all.first())
        }
    }

    /// The state once the next action was taken, after `more` was asked.
    pub open spec fn advanced(self, more: Seq<Action<P::Listener, P::Transport>>) -> Self {
        let all = self.actions + more;
        ServiceState {
            actions: if all.len() == 0 {
                all
            } else {
                all.skip(1)
            },
            ..self
        }
    }

    /// The state without the connection `fd` that never had a session.
    pub open spec fn cleaned(self, fd: RawFd) -> Self {
        if self.inbound.contains_key(fd) {
            ServiceState { inbound: self.inbound.remove(fd), ..self }
        } else {
            ServiceState { outbound: self.outbound.remove(fd), ..self }
        }
    }

    /// What the controller is told of a connection `fd` that never had a session: nothing of an
    /// accepted one, since its node is not known.
    pub open spec fn cleanup_notice(self, fd: RawFd) -> Option<Callback<P>> {
        if !self.inbound.contains_key(fd) && self.outbound.contains_key(fd) {
            Some(
                Callback::Disconnected {
                    remote_id: self.outbound[fd].remote_id,
                    direction: Direction::Outbound,
                    reason: DisconnectReason::Connection(None),
                },
            )
        } else {
            None
        }
    }

    /// The state once the transport `id` behind `fd` is out of the poll.
    pub open spec fn released(self, id: ResourceId, fd: RawFd) -> Self {
        if self.remotes.contains_key(id) {
            ServiceState { remotes: self.remotes.remove(id), ..self }
        } else {
            self.cleaned(fd)
        }
    }

    /// What the controller is told when the transport `id` behind `fd` dropped out of the poll.
    pub open spec fn drop_notice(self, id: ResourceId, fd: RawFd) -> Option<Callback<P>> {
        if self.remotes.contains_key(id) {
            match self.remotes[id].node() {
                Some(remote_id) => Some(
                    Callback::Disconnected {
                        remote_id,
                        direction: self.remotes[id].side(),
                        reason: DisconnectReason::Connection(None),
                    },
                ),
                None => None,
            }
        } else {
            self.cleanup_notice(fd)
        }
    }

    /// What the controller is told when the transport `id` behind `fd` is handed over: that the
    /// remote is gone, and the reason for which it was disconnected.
    pub open spec fn handover_notice(self, id: ResourceId, fd: RawFd) -> Option<Callback<P>> {
        if self.remotes.contains_key(id) {
            match self.remotes[id] {
                RemoteView::Disconnecting { remote_id: Some(remote_id), direction, reason } => Some(
                    Callback::Disconnected { remote_id, direction, reason },
                ),
                _ => None,
            }
        } else {
            self.cleanup_notice(fd)
        }
    }
}

impl<P: ServiceTypes> Service<P> {
    /// A service of the node `node_id`.
    pub fn new(node_id: P::NodeId) -> (res: Self)
        ensures
            res@ == ServiceState::<P>::fresh(node_id),
    {
        Service {
            local_id: node_id,
            listening: HashMap::new(),
            bound: HashMap::new(),
            inbound: HashMap::new(),
            outbound: HashMap::new(),
            remotes: Remotes::new(),
            metrics: HashMap::new(),
            actions: VecDeque::new(),
        }
    }

    /// Forgets the connection `fd`, which never had a session.
    pub fn cleanup(&mut self, fd: RawFd) -> (call: Option<Callback<P>>)
        ensures
            final(self)@ == old(self)@.cleaned(fd),
            call == old(self)@.cleanup_notice(fd),
    {
        if self.inbound.remove(&fd).is_some() {
            None
        } else if let Some(outbound) = self.outbound.remove(&fd) {
            assert(self@ =~= old(self)@.cleaned(fd));
            Some(
                Callback::Disconnected {
                    remote_id: outbound.remote_id,
                    direction: Direction::Outbound,
                    reason: DisconnectReason::connection(),
                },
            )
        } else {
            assert(self@ =~= old(self)@.cleaned(fd));
            None
        }
    }

    /// The resource behind `fd` became part of the poll as `id`.
    pub fn handle_registered(&mut self, fd: RawFd, id: ResourceId, ty: ResourceType) -> (call:
        Option<Callback<P>>)
        requires
            ty is Listener ==> old(self)@.listening.contains_key(fd),
        ensures
            final(self)@ == old(self)@.registered(fd, id, ty),
            call == old(self)@.registration_notice(fd, ty),
    {
        match ty {
            ResourceType::Listener => {
                let socket = self.listening.remove(&fd).unwrap();
                self.bound.insert(fd, socket);
                Some(Callback::Listening { socket })
            },
            ResourceType::Transport => {
                if let Some(outbound) = self.outbound.remove(&fd) {
                    self.outbound.insert(fd, Outbound { res_id: Some(id), ..outbound });
                    assert(self@ =~= old(self)@.registered(fd, id, ty));
                } else if let Some(inbound) = self.inbound.remove(&fd) {
                    self.inbound.insert(fd, Inbound { res_id: Some(id), ..inbound });
                    assert(self@ =~= old(self)@.registered(fd, id, ty));
                } else {
                    assert(self@ =~= old(self)@);
                }
                None
            },
        }
    }

    /// Something went wrong in the event loop.
    ///
    /// A transport that dropped out of the poll is forgotten: there is nothing left to
    /// disconnect.
    pub fn handle_error(&mut self, err: ReactorError) -> (call: Option<Callback<P>>)
        ensures
            final(self)@ == old(self)@.failed(err),
            call == old(self)@.failure_notice(err),
    {
        match err {
            ReactorError::Poll => None,
            ReactorError::ListenerDisconnect { .. } => None,
            ReactorError::TransportDisconnect { id, fd } => match self.remotes.remove(&id) {
                Some(remote) => match remote.remote_id() {
                    Some(remote_id) => Some(
                        Callback::Disconnected {
                            remote_id,
                            direction: remote.direction(),
                            reason: DisconnectReason::connection(),
                        },
                    ),
                    None => None,
                },
                None => {
                    assert(self@ =~= old(self)@);
                    self.cleanup(fd)
                },
            },
        }
    }

    /// The transport `res_id` behind `fd` was taken out of the poll and is handed over. The
    /// session over it is not in use any more.
    pub fn handover_transport(&mut self, res_id: ResourceId, fd: RawFd) -> (call: Option<
        Callback<P>,
    >)
        requires
            !old(self)@.in_session(res_id),
        ensures
            final(self)@ == old(self)@.released(res_id, fd),
            call == old(self)@.handover_notice(res_id, fd),
    {
        match self.remotes.remove(&res_id) {
            Some(Remote::Disconnecting { remote_id, direction, reason }) => match remote_id {
                Some(remote_id) => Some(Callback::Disconnected { remote_id, direction, reason }),
                None => None,
            },
            Some(Remote::Connected { .. }) => None,
            None => {
                assert(self@ =~= old(self)@);
                self.cleanup(fd)
            },
        }
    }

    /// The next action for the reactor. What the controller asks for now comes after everything
    /// that was asked before.
    pub fn next(
        &mut self,
        from_controller: VecDeque<Action<P::Listener, P::Transport>>,
    ) -> (action: Option<Action<P::Listener, P::Transport>>)
        ensures
            action == old(self)@.next_action(from_controller@),
            final(self)@ == old(self)@.advanced(from_controller@),
    {
        let mut incoming = from_controller;
        self.actions.append(&mut incoming);
        self.actions.pop_front()
    }
}

} // verus!
