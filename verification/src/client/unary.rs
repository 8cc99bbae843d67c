//! A client that opens a connection for each request and closes it after the reply.

use std::collections::{HashMap, VecDeque};
use vstd::prelude::*;

use crate::service::lifecycle::ResourceType;
use crate::transport::cursor::CursorDeque;
use crate::transport::frame::{always_marshalls, ByteSink, Frame};
use crate::transport::remotes::{RawFd, ResourceId};

verus! {

broadcast use vstd::std_specs::hash::group_hash_axioms;

/// An action for the reactor. A client has no listener, so that none speaks of one.
pub enum ClientAction<T> {
    /// Add a transport to the poll.
    RegisterTransport(T),
    /// Take a transport out of the poll and hand it over.
    UnregisterTransport(ResourceId),
    /// Write bytes to a transport.
    Send(ResourceId, Vec<u8>),
    /// End the event loop.
    Terminate,
}

/// A frame that is answered by another.
pub trait Request: Frame {
    /// The frame that answers.
    type Response: Frame;
}

/// A request that is to be sent.
pub struct PendingRequest<Rq> {
    /// What is sent.
    pub request: Rq,
    /// Whether a reply is expected.
    pub awaits_reply: bool,
}

/// A command to the client service.
pub enum Cmd<T, Rq> {
    /// Send a request over a new transport.
    Send { fd: RawFd, transport: T, pending: PendingRequest<Rq> },
    /// Terminate the service.
    Terminate,
}

impl<T, Rq> Cmd<T, Rq> {
    /// The command in words. Of a request it tells only whether a reply is expected.
    pub fn display(&self) -> (res: String)
        ensures
            res@ == match self {
                Cmd::Send { pending, .. } => if pending.awaits_reply {
                    "Cmd::Send { awaits_reply: true }"@
                } else {
                    "Cmd::Send { awaits_reply: false }"@
                },
                Cmd::Terminate => "Cmd::Terminate"@,
            },
    {
        match self {
            Cmd::Send { pending, .. } => if pending.awaits_reply {
                "Cmd::Send { awaits_reply: true }".to_string()
            } else {
                "Cmd::Send { awaits_reply: false }".to_string()
            },
            Cmd::Terminate => "Cmd::Terminate".to_string(),
        }
    }
}

/// What was received so far in reply to a request.
pub struct Inbox<Rq> {
    /// The bytes received so far.
    pub buf: VecDeque<u8>,
    /// The request that waits for the reply.
    pub request: Rq,
}

/// An event on the transport to the server.
pub enum ClientEvent {
    /// The session is established.
    Established,
    /// Bytes arrived.
    Data(Vec<u8>),
    /// The session ended.
    Terminated,
}

/// The state of the client service.
#[verifier::ext_equal]
pub ghost struct ClientState<T, Rq> {
    /// The requests that wait for a reply, each with the bytes received so far.
    pub inboxes: Map<ResourceId, (Seq<u8>, Rq)>,
    /// The requests whose transport is not part of the poll yet.
    pub send_queue: Map<RawFd, PendingRequest<Rq>>,
    /// What the reactor is still to be asked, the oldest first.
    pub actions: Seq<ClientAction<T>>,
}

impl<T, Rq: Request> ClientState<T, Rq> {
    /// The state in which the reactor is asked for `action` too, after everything else.
    pub open spec fn asking(self, action: ClientAction<T>) -> Self {
        ClientState { actions: self.actions.push(action), ..self }
    }

    /// A client that just started.
    pub open spec fn fresh() -> Self {
        ClientState { inboxes: Map::empty(), send_queue: Map::empty(), actions: Seq::empty() }
    }

    /// The state once `cmd` was taken: a request waits for its transport to become part of the
    /// poll, for which the reactor is asked.
    pub open spec fn commanded(self, cmd: Cmd<T, Rq>) -> Self {
        match cmd {
            Cmd::Send { fd, transport, pending } => ClientState {
                send_queue: self.send_queue.insert(fd, pending),
                ..self
            }.asking(ClientAction::RegisterTransport(transport)),
            Cmd::Terminate => self.asking(ClientAction::Terminate),
        }
    }

    /// The state without the inbox `id`.
    pub open spec fn closing(self, id: ResourceId) -> Self {
        ClientState { inboxes: self.inboxes.remove(id), ..self }
    }

    /// The state once the bytes in the inbox `id` were read as `outcome`. The inbox is closed.
    /// Unless the bytes are part of a reply, the connection is given up too.
    pub open spec fn after_read(
        self,
        id: ResourceId,
        outcome: Result<Option<Rq::Response>, <Rq::Response as Frame>::Error>,
    ) -> Self {
        match outcome {
            Ok(None) => self.closing(id),
            _ => self.closing(id).asking(ClientAction::UnregisterTransport(id)),
        }
    }

    /// The state once the transport behind `fd` is part of the poll as `id`: the request for which
    /// it was opened is sent as `bytes`, and has an inbox if a reply is expected.
    pub open spec fn registered(self, fd: RawFd, id: ResourceId, bytes: Vec<u8>) -> Self {
        let pending = self.send_queue[fd];
        ClientState {
            inboxes: if pending.awaits_reply {
                self.inboxes.insert(id, (Seq::empty(), pending.request))
            } else {
                self.inboxes
            },
            send_queue: self.send_queue.remove(fd),
            actions: self.actions.push(ClientAction::Send(id, bytes)),
        }
    }

    /// The next action for the reactor.
    pub open spec fn next_action(self) -> Option<ClientAction<T>> {
        if self.actions.len() == 0 {
            None
        } else {
            Some(self.actions.first())
        }
    }

    /// The state once the next action was taken.
    pub open spec fn advanced(self) -> Self {
        if self.actions.len() == 0 {
            self
        } else {
            ClientState { actions: self.actions.skip(1), ..self }
        }
    }

    /// What is delivered when the bytes in the inbox `id` were read as `outcome`.
    pub open spec fn reply(
        self,
        id: ResourceId,
        outcome: Result<Option<Rq::Response>, <Rq::Response as Frame>::Error>,
    ) -> Option<(Rq, Rq::Response)> {
        match outcome {
            Ok(Some(response)) => Some((self.inboxes[id].1, response)),
            _ => None,
        }
    }

    /// Whether `data` over `id` may lead to the state `after` with `reply` delivered. Bytes that
    /// nobody waits for are dropped.
    pub open spec fn receives(
        self,
        id: ResourceId,
        data: Seq<u8>,
        after: Self,
        reply: Option<(Rq, Rq::Response)>,
    ) -> bool {
        if self.inboxes.contains_key(id) {
            exists|
                outcome: Result<Option<Rq::Response>, <Rq::Response as Frame>::Error>,
                taken: nat,
            |
                {
                    &&& #[trigger] <Rq::Response as Frame>::reads(
                        self.inboxes[id].0 + data,
                        outcome,
                        taken,
                    )
                    &&& after == self.after_read(id, outcome)
                    &&& reply == self.reply(id, outcome)
                }
        } else {
            &&& after == self
            &&& reply is None
        }
    }
}

/// The client service.
pub struct Service<T, Rq: Request> {
    /// The requests that wait for a reply.
    pub inboxes: HashMap<ResourceId, Inbox<Rq>>,
    /// The requests whose transport is not part of the poll yet.
    pub send_queue: HashMap<RawFd, PendingRequest<Rq>>,
    /// What the reactor is still to be asked, the oldest first.
    pub action_queue: VecDeque<ClientAction<T>>,
}

impl<T, Rq: Request> View for Service<T, Rq> {
    type V = ClientState<T, Rq>;

    open spec fn view(&self) -> ClientState<T, Rq> {
        ClientState {
            inboxes: self.inboxes@.map_values(|inbox: Inbox<Rq>| (inbox.buf@, inbox.request)),
            send_queue: self.send_queue@,
            actions: self.action_queue@,
        }
    }
}

impl<T, Rq: Request> Service<T, Rq> {
    /// A client without requests.
    pub fn new() -> (res: Self)
        ensures
            res@ == ClientState::<T, Rq>::fresh(),
    {
        let res = Service {
            inboxes: HashMap::new(),
            send_queue: HashMap::new(),
            action_queue: VecDeque::new(),
        };
        assert(res@.inboxes =~= Map::empty());
        res
    }

    /// Adds terminate action to the action queue, such that on the next reactor event loop run,
    /// it will receive it and close the connection to the server.
    pub fn terminate(&mut self)
        ensures
            final(self)@ == old(self)@.asking(ClientAction::Terminate),
    {
        self.action_queue.push_back(ClientAction::Terminate);
    }

    /// Something happened on the transport `id`. Returns a request together with its reply, once
    /// there is one.
    pub fn handle_transport_event(&mut self, id: ResourceId, event: ClientEvent) -> (reply: Option<
        (Rq, Rq::Response),
    >)
        ensures
            match event {
                ClientEvent::Data(data) => old(self)@.receives(id, data@, final(self)@, reply),
                _ => final(self)@ == old(self)@ && reply is None,
            },
    {
        match event {
            ClientEvent::Established => None,
            ClientEvent::Data(data) => {
                let mut inbox = match self.inboxes.remove(&id) {
                    Some(inbox) => inbox,
                    None => {
                        assert(self@ =~= old(self)@);
                        return None;
                    },
                };
                assert(self@ =~= old(self)@.closing(id));
                inbox.buf.write_all(data.as_slice());
                let mut cursor = CursorDeque::new(&inbox.buf);
                let outcome = <Rq::Response as Frame>::unmarshall(&mut cursor);
                proof {
                    let stream = old(self)@.inboxes[id].0 + data@;
                    assert(inbox.buf@.skip(0) =~= stream);
                    assert(<Rq::Response as Frame>::reads(stream, outcome, cursor.pos()));
                }
                match outcome {
                    Ok(Some(response)) => {
                        self.action_queue.push_back(ClientAction::UnregisterTransport(id));
                        Some((inbox.request, response))
                    },
                    Ok(None) => None,
                    Err(_) => {
                        self.action_queue.push_back(ClientAction::UnregisterTransport(id));
                        None
                    },
                }
            },
            ClientEvent::Terminated => None,
        }
    }

    /// The transport behind `fd` became part of the poll as `id`: the request for which it was
    /// opened is sent over it.
    pub fn handle_registered(&mut self, fd: RawFd, id: ResourceId, ty: ResourceType)
        requires
            ty is Transport,
            old(self)@.send_queue.contains_key(fd),
            always_marshalls(old(self)@.send_queue[fd].request),
        ensures
            exists|bytes: Vec<u8>|
                {
                    &&& #[trigger] old(self)@.send_queue[fd].request.writes(bytes@, Ok(()))
                    &&& final(self)@ == old(self)@.registered(fd, id, bytes)
                },
    {
        let pending = self.send_queue.remove(&fd).unwrap();
        let bytes = pending.request.serialize();
        self.action_queue.push_back(ClientAction::Send(id, bytes));
        if pending.awaits_reply {
            self.inboxes.insert(id, Inbox { buf: VecDeque::new(), request: pending.request });
            assert(self@.inboxes =~= old(self)@.inboxes.insert(
                id,
                (Seq::empty(), pending.request),
            ));
        }
    }

    /// A command for the service.
    pub fn handle_command(&mut self, cmd: Cmd<T, Rq>)
        ensures
            final(self)@ == old(self)@.commanded(cmd),
    {
        match cmd {
            Cmd::Send { fd, transport, pending } => {
                self.send_queue.insert(fd, pending);
                self.action_queue.push_back(ClientAction::RegisterTransport(transport));
            },
            Cmd::Terminate => self.terminate(),
        }
    }

    /// The next action for the reactor.
    pub fn next(&mut self) -> (action: Option<ClientAction<T>>)
        ensures
            action == old(self)@.next_action(),
            final(self)@ == old(self)@.advanced(),
    {
        self.action_queue.pop_front()
    }
}

} // verus!
