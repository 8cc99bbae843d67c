//! Listeners and the connections that they accept.

use vstd::prelude::*;

use crate::action::Action;
use crate::service::handler::Service;
use crate::service::state::{Callback, ServiceState};
use crate::transport::remotes::{Inbound, RawFd, ServiceTypes};
use crate::Direction;

verus! {

broadcast use vstd::std_specs::hash::group_hash_axioms;

/// An event on a listener, or the outcome of what was asked for after one.
#[allow(inconsistent_fields)]
pub enum ListenerEvent<P: ServiceTypes> {
    /// A connection was accepted. Its remote address may be unknown.
    Accepted { fd: RawFd, remote: Option<P::Addr> },
    /// The controller said whether it wants the connection.
    Consulted { fd: RawFd, remote: P::Addr, accept: bool },
    /// The controller did or did not set up a session over the connection.
    SessionReady { fd: RawFd, remote: P::Addr, ready: bool },
    /// A transport was or was not made of the session.
    TransportReady { fd: RawFd, remote: P::Addr, transport: Option<P::Transport> },
    /// The listener failed to accept a connection.
    Failure { error: P::Error },
}

/// What is to be done next about an accepted connection.
pub enum ListenerAction<P: ServiceTypes> {
    /// Drop the connection.
    Drop,
    /// Ask the controller whether it wants the connection.
    Consult { fd: RawFd, remote: P::Addr, time: P::Timestamp },
    /// Have the controller set up a session over the connection.
    EstablishSession { fd: RawFd, remote: P::Addr, time: P::Timestamp },
    /// Make a transport of the session.
    CreateTransport { fd: RawFd, remote: P::Addr, direction: Direction },
    /// Nothing: the reactor is asked to poll the transport.
    Registering,
    /// Call the controller.
    Report(Callback<P>),
}

impl<P: ServiceTypes> ServiceState<P> {
    /// Whether there is a listener behind `fd`.
    pub open spec fn has_listener(self, fd: RawFd) -> bool {
        self.listening.contains_key(fd) || self.bound.contains_key(fd)
    }

    /// The address of the listener behind `fd`.
    pub open spec fn socket(self, fd: RawFd) -> P::SocketAddr {
        if self.listening.contains_key(fd) {
            self.listening[fd]
        } else {
            self.bound[fd]
        }
    }

    /// The state in which the listener `socket` behind `fd`, bound to `local_addr`, waits to become
    /// part of the poll, for which the reactor is asked.
    pub open spec fn listening_on(
        self,
        fd: RawFd,
        local_addr: P::SocketAddr,
        socket: P::Listener,
    ) -> Self {
        ServiceState { listening: self.listening.insert(fd, local_addr), ..self }.asking(
            Action::RegisterListener(socket),
        )
    }

    /// The state without the listener behind `fd`, which was part of the poll.
    pub open spec fn unbound(self, fd: RawFd) -> Self {
        ServiceState { bound: self.bound.remove(fd), ..self }
    }

    /// The state in which the connection `fd` from `addr` waits for its session and the reactor
    /// is asked to poll `transport`.
    pub open spec fn accepting(
        self,
        fd: RawFd,
        addr: P::Addr,
        transport: P::Transport,
    ) -> Self {
        ServiceState {
            inbound: self.inbound.insert(fd, Inbound { res_id: None, addr }),
            ..self
        }.asking(Action::RegisterTransport(transport))
    }
}

/// What follows an event on the listener behind `listener_fd`: one question after another is put
/// about an accepted connection, and the connection is dropped at the first bad answer.
pub open spec fn listener_step<P: ServiceTypes>(
    state: ServiceState<P>,
    listener_fd: RawFd,
    event: ListenerEvent<P>,
    time: P::Timestamp,
) -> ListenerAction<P> {
    match event {
        ListenerEvent::Accepted { fd, remote: Some(remote) } => ListenerAction::Consult {
            fd,
            remote,
            time,
        },
        ListenerEvent::Consulted { fd, remote, accept: true } => ListenerAction::EstablishSession {
            fd,
            remote,
            time,
        },
        ListenerEvent::SessionReady { fd, remote, ready: true } => ListenerAction::CreateTransport {
            fd,
            remote,
            direction: Direction::Inbound,
        },
        ListenerEvent::TransportReady { transport: Some(_), .. } => ListenerAction::Registering,
        ListenerEvent::Failure { error } => ListenerAction::Report(
            Callback::AcceptFailure { socket: state.socket(listener_fd), error, time },
        ),
        _ => ListenerAction::Drop,
    }
}

impl<P: ServiceTypes> Service<P> {
    /// Takes on a listener that is to be polled.
    pub fn listen(&mut self, fd: RawFd, local_addr: P::SocketAddr, socket: P::Listener)
        ensures
            final(self)@ == old(self)@.listening_on(fd, local_addr, socket),
    {
        self.listening.insert(fd, local_addr);
        self.actions.push_back(Action::RegisterListener(socket));
    }

    /// Something happened on the listener behind `listener_fd`.
    ///
    /// What is to be done about an accepted connection comes back as an action. Its outcome is
    /// the next event.
    pub fn handle_listener_event(
        &mut self,
        listener_fd: RawFd,
        event: ListenerEvent<P>,
        time: P::Timestamp,
    ) -> (action: ListenerAction<P>)
        requires
            event is Failure ==> old(self)@.has_listener(listener_fd),
        ensures
            action == listener_step(old(self)@, listener_fd, event, time),
            final(self)@ == match event {
                ListenerEvent::TransportReady {
                    fd,
                    remote,
                    transport: Some(transport),
                } => old(self)@.accepting(fd, remote, transport),
                _ => old(self)@,
            },
    {
        match event {
            ListenerEvent::Accepted { fd, remote } => match remote {
                Some(remote) => ListenerAction::Consult { fd, remote, time },
                None => ListenerAction::Drop,
            },
            ListenerEvent::Consulted { fd, remote, accept } => if accept {
                ListenerAction::EstablishSession { fd, remote, time }
            } else {
                ListenerAction::Drop
            },
            ListenerEvent::SessionReady { fd, remote, ready } => if ready {
                ListenerAction::CreateTransport { fd, remote, direction: Direction::Inbound }
            } else {
                ListenerAction::Drop
            },
            ListenerEvent::TransportReady { fd, remote, transport } => match transport {
                Some(transport) => {
                    self.inbound.insert(fd, Inbound { res_id: None, addr: remote });
                    self.actions.push_back(Action::RegisterTransport(transport));
                    ListenerAction::Registering
                },
                None => ListenerAction::Drop,
            },
            ListenerEvent::Failure { error } => {
                let socket = match self.listening.get(&listener_fd) {
                    Some(socket) => *socket,
                    None => *self.bound.get(&listener_fd).unwrap(),
                };
                ListenerAction::Report(Callback::AcceptFailure { socket, error, time })
            },
        }
    }

    /// A listener was taken out of the poll and is handed over.
    pub fn handover_listener(&mut self, fd: RawFd, listener: P::Listener) -> (call: Callback<P>)
        ensures
            call == (Callback::<P>::Unbound { listener }),
            final(self)@ == old(self)@.unbound(fd),
    {
        self.bound.remove(&fd);
        Callback::Unbound { listener }
    }
}

} // verus!
