//! Opening a connection for each request.

use vstd::prelude::*;

use crate::client::unary::PendingRequest;
use crate::transport::remotes::RawFd;
use crate::Direction;

verus! {

/// Opens sessions with the server.
pub trait SessionFactory {
    /// A session with the server.
    type Session;

    /// A new session, or none where the server cannot be reached.
    fn connect(&self) -> Option<Self::Session>;
}

/// A command to the connection factory.
pub enum FactoryCmd<Rq> {
    /// Open a connection and send a request over it.
    Request(PendingRequest<Rq>),
    /// Terminate the client.
    Terminate,
}

impl<Rq> FactoryCmd<Rq> {
    /// The command to send a request to which no reply is expected.
    pub fn send_only(request: Rq) -> (res: Self)
        ensures
            res == FactoryCmd::Request(PendingRequest { request, awaits_reply: false }),
    {
        FactoryCmd::Request(PendingRequest { request, awaits_reply: false })
    }

    /// The command to send a request and wait for the reply.
    pub fn send_receive(request: Rq) -> (res: Self)
        ensures
            res == FactoryCmd::Request(PendingRequest { request, awaits_reply: true }),
    {
        FactoryCmd::Request(PendingRequest { request, awaits_reply: true })
    }
}

/// What the factory learns.
pub enum FactoryEvent<S, T, Rq> {
    /// A command came in, or no more will come.
    Received(Option<FactoryCmd<Rq>>),
    /// The server was or was not reached.
    Connected { session: Option<S>, pending: PendingRequest<Rq> },
    /// A transport, with its descriptor, was or was not made of the session.
    Wrapped { transport: Option<(RawFd, T)>, pending: PendingRequest<Rq> },
    /// What was to be passed to the reactor was passed.
    Passed,
}

/// What the factory does next.
pub enum FactoryAction<S, T, Rq> {
    /// Wait for a command.
    Receive,
    /// Connect to the server.
    Connect { pending: PendingRequest<Rq> },
    /// Make a transport of the session.
    Wrap { session: S, direction: Direction, pending: PendingRequest<Rq> },
    /// Pass the request to the reactor, together with the transport for it.
    Send { fd: RawFd, transport: T, pending: PendingRequest<Rq> },
    /// Terminate the reactor.
    Terminate,
    /// Stop.
    Stop,
}

/// What the factory does next after `event`. A request for which there is no connection is given
/// up, and the factory goes on with the next command; it stops when no more will come.
pub open spec fn factory_step<S, T, Rq>(event: FactoryEvent<S, T, Rq>) -> FactoryAction<S, T, Rq> {
    match event {
        FactoryEvent::Received(None) => FactoryAction::Stop,
        FactoryEvent::Received(Some(FactoryCmd::Terminate)) => FactoryAction::Terminate,
        FactoryEvent::Received(Some(FactoryCmd::Request(pending))) => FactoryAction::Connect {
            pending,
        },
        FactoryEvent::Connected { session: Some(session), pending } => FactoryAction::Wrap {
            session,
            direction: Direction::Outbound,
            pending,
        },
        FactoryEvent::Wrapped { transport: Some((fd, transport)), pending } => FactoryAction::Send {
            fd,
            transport,
            pending,
        },
        _ => FactoryAction::Receive,
    }
}

/// Decides what the factory does next.
pub fn run_step<S, T, Rq>(event: FactoryEvent<S, T, Rq>) -> (action: FactoryAction<S, T, Rq>)
    ensures
        action == factory_step(event),
{
    match event {
        FactoryEvent::Received(cmd) => match cmd {
            None => FactoryAction::Stop,
            Some(FactoryCmd::Request(pending)) => FactoryAction::Connect { pending },
            Some(FactoryCmd::Terminate) => FactoryAction::Terminate,
        },
        FactoryEvent::Connected { session, pending } => match session {
            Some(session) => FactoryAction::Wrap {
                session,
                direction: Direction::Outbound,
                pending,
            },
            None => FactoryAction::Receive,
        },
        FactoryEvent::Wrapped { transport, pending } => match transport {
            Some((fd, transport)) => FactoryAction::Send { fd, transport, pending },
            None => FactoryAction::Receive,
        },
        FactoryEvent::Passed => FactoryAction::Receive,
    }
}

/// Opens connections with the help of `connector`.
pub struct Factory<C: SessionFactory> {
    pub connector: C,
}

impl<C: SessionFactory> Factory<C> {
    /// A factory that connects with the help of `connector`.
    pub fn new(connector: C) -> (res: Self)
        ensures
            res.connector == connector,
    {
        Self { connector }
    }

    /// Connects to the server for `pending`. Where the connector gives no session, the request is
    /// given up, and where it gives one, a transport is made of that.
    pub fn process_request<T, Rq>(&self, pending: PendingRequest<Rq>) -> (action: FactoryAction<
        C::Session,
        T,
        Rq,
    >)
        ensures
            exists|session: Option<C::Session>|
                {
                    &&& #[trigger] call_ensures(C::connect, (&self.connector,), session)
                    &&& action == factory_step(
                        FactoryEvent::<C::Session, T, Rq>::Connected { session, pending },
                    )
                },
    {
        let session = self.connector.connect();
        let event = FactoryEvent::Connected { session, pending };
        run_step(event)
    }
}

} // verus!
