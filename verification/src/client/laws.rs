//! What holds of a client over any number of calls.

use vstd::prelude::*;

use crate::client::factory::{factory_step, FactoryAction, FactoryCmd, FactoryEvent};
use crate::client::unary::{ClientAction, ClientEvent, ClientState, Cmd, PendingRequest, Request};
use crate::transport::frame::Frame;
use crate::transport::laws::faithful;
use crate::transport::remotes::{RawFd, ResourceId};
use crate::Direction;

verus! {

/// A request is passed on, over the transport that was opened for it, if and only if the server
/// was reached and a transport could be made of the session. Else, and once it is passed on, the
/// factory goes on with the next command.
pub proof fn law_request_is_passed_on<S, T, Rq>(
    session: Option<S>,
    transport: Option<(RawFd, T)>,
    pending: PendingRequest<Rq>,
)
    ensures
        factory_step(FactoryEvent::<S, T, Rq>::Connected { session, pending }) == match session {
            Some(session) => FactoryAction::Wrap {
                session,
                direction: Direction::Outbound,
                pending,
            },
            None => FactoryAction::<S, T, Rq>::Receive,
        },
        factory_step(FactoryEvent::<S, T, Rq>::Wrapped { transport, pending }) == match transport {
            Some((fd, transport)) => FactoryAction::Send { fd, transport, pending },
            None => FactoryAction::<S, T, Rq>::Receive,
        },
        factory_step(FactoryEvent::<S, T, Rq>::Passed) == FactoryAction::<S, T, Rq>::Receive,
{
}

/// A connection gives at most one reply: whatever arrives first closes the inbox, and what
/// arrives after that is dropped. The requests that wait on other connections are not touched.
pub proof fn law_one_reply<T, Rq: Request>(
    state: ClientState<T, Rq>,
    id: ResourceId,
    first: Seq<u8>,
    between: ClientState<T, Rq>,
    reply: Option<(Rq, Rq::Response)>,
    second: Seq<u8>,
    after: ClientState<T, Rq>,
    second_reply: Option<(Rq, Rq::Response)>,
)
    requires
        state.receives(id, first, between, reply),
        between.receives(id, second, after, second_reply),
    ensures
        second_reply is None,
        after == between,
        between.inboxes == state.inboxes.remove(id),
        between.send_queue == state.send_queue,
{
    assert(between.inboxes =~= state.inboxes.remove(id));
}

/// What the server wrote in reply is what comes back, together with the very request for which
/// the connection was opened, and the connection is then given up. Anything behind the reply is
/// ignored.
pub proof fn law_reply_comes_back<T, Rq: Request>(
    state: ClientState<T, Rq>,
    fd: RawFd,
    id: ResourceId,
    bytes: Vec<u8>,
    response: Rq::Response,
    encoding: Seq<u8>,
    rest: Seq<u8>,
    after: ClientState<T, Rq>,
    reply: Option<(Rq, Rq::Response)>,
)
    requires
        faithful::<Rq::Response>(),
        state.send_queue.contains_key(fd),
        state.send_queue[fd].awaits_reply,
        response.writes(encoding, Ok(())),
        state.registered(fd, id, bytes).receives(id, encoding + rest, after, reply),
    ensures
        reply matches Some((request, read)) && request == state.send_queue[fd].request
            && read.same_as(&response),
        after.actions == state.actions.push(ClientAction::Send(id, bytes)).push(
            ClientAction::UnregisterTransport(id),
        ),
        !after.inboxes.contains_key(id),
{
    let sent = state.registered(fd, id, bytes);
    assert(sent.inboxes[id].0 + (encoding + rest) =~= encoding + rest);
}

/// A request to which no reply is expected gets none: what arrives over its connection is
/// dropped.
pub proof fn law_send_only_hears_nothing<T, Rq: Request>(
    state: ClientState<T, Rq>,
    fd: RawFd,
    id: ResourceId,
    bytes: Vec<u8>,
    data: Seq<u8>,
    after: ClientState<T, Rq>,
    reply: Option<(Rq, Rq::Response)>,
)
    requires
        !state.inboxes.contains_key(id),
        state.send_queue.contains_key(fd),
        !state.send_queue[fd].awaits_reply,
        state.registered(fd, id, bytes).receives(id, data, after, reply),
    ensures
        reply is None,
        after == state.registered(fd, id, bytes),
{
}

/// A request is sent once its transport is part of the poll: the reactor is first asked to poll
/// the transport and then to send the encoding of the request over it, and nothing waits for the
/// transport any more.
pub proof fn law_request_is_sent<T, Rq: Request>(
    state: ClientState<T, Rq>,
    fd: RawFd,
    transport: T,
    pending: PendingRequest<Rq>,
    id: ResourceId,
    bytes: Vec<u8>,
)
    ensures
        ({
            let asked = state.commanded(Cmd::Send { fd, transport, pending });
            let sent = asked.registered(fd, id, bytes);
            &&& asked.send_queue.contains_key(fd) && asked.send_queue[fd] == pending
            &&& sent.actions == state.actions.push(ClientAction::RegisterTransport(transport)).push(
                ClientAction::Send(id, bytes),
            )
            &&& sent.send_queue == state.send_queue.remove(fd)
            &&& sent.inboxes == if pending.awaits_reply {
                state.inboxes.insert(id, (Seq::empty(), pending.request))
            } else {
                state.inboxes
            }
        }),
{
    let asked = state.commanded(Cmd::Send { fd, transport, pending });
    assert(asked.send_queue.remove(fd) =~= state.send_queue.remove(fd));
}

/// One call to a client.
pub ghost enum ClientCall<T, Rq: Request> {
    Terminate,
    Transport { id: ResourceId, event: ClientEvent, reply: Option<(Rq, Rq::Response)> },
    Registered { fd: RawFd, id: ResourceId, bytes: Vec<u8> },
    Command { cmd: Cmd<T, Rq> },
    Next { actions: Seq<ClientAction<T>> },
}

impl<T, Rq: Request> ClientCall<T, Rq> {
    /// Whether the call may lead from `before` to `after`.
    pub open spec fn leads(self, before: ClientState<T, Rq>, after: ClientState<T, Rq>) -> bool {
        match self {
            ClientCall::Terminate => after == before.asking(ClientAction::Terminate),
            ClientCall::Transport { id, event, reply } => match event {
                ClientEvent::Data(data) => before.receives(id, data@, after, reply),
                _ => after == before && reply is None,
            },
            ClientCall::Registered { fd, id, bytes } => {
                &&& before.send_queue.contains_key(fd)
                &&& after == before.registered(fd, id, bytes)
            },
            ClientCall::Command { cmd } => after == before.commanded(cmd),
            ClientCall::Next { actions } => after == (ClientState { actions, ..before }),
        }
    }

    /// The request to which the call is the reply.
    pub open spec fn answered(self) -> Option<Rq> {
        match self {
            ClientCall::Transport { reply: Some((request, _)), .. } => Some(request),
            _ => None,
        }
    }

    /// The request to which the call asks for a reply.
    pub open spec fn asked(self) -> Option<Rq> {
        match self {
            ClientCall::Command { cmd: Cmd::Send { pending, .. } } => if pending.awaits_reply {
                Some(pending.request)
            } else {
                None
            },
            _ => None,
        }
    }
}

/// Whether `states` starts with a client that just started, and each of the others comes from the
/// one before by the call in `script`.
pub open spec fn client_runs<T, Rq: Request>(
    script: Seq<ClientCall<T, Rq>>,
    states: Seq<ClientState<T, Rq>>,
) -> bool {
    &&& states.len() == script.len() + 1
    &&& states[0] == ClientState::<T, Rq>::fresh()
    &&& forall|i: int|
        0 <= i < script.len() ==> (#[trigger] script[i]).leads(states[i], states[i + 1])
}

/// Whether one of the first `n` calls of `script` asks for a reply to `request`.
pub open spec fn asked_before<T, Rq: Request>(
    script: Seq<ClientCall<T, Rq>>,
    n: int,
    request: Rq,
) -> bool {
    exists|k: int| 0 <= k < n && (#[trigger] script[k]).asked() == Some(request)
}

/// Every request that waits for a reply, or to be sent and then wait for one, was asked for.
proof fn lemma_waiting_was_asked<T, Rq: Request>(
    script: Seq<ClientCall<T, Rq>>,
    states: Seq<ClientState<T, Rq>>,
    n: int,
)
    requires
        client_runs(script, states),
        0 <= n < states.len(),
    ensures
        forall|id: ResourceId| #[trigger]
            states[n].inboxes.contains_key(id) ==> asked_before(
                script,
                n,
                states[n].inboxes[id].1,
            ),
        forall|fd: RawFd| #[trigger]
            states[n].send_queue.contains_key(fd) && states[n].send_queue[fd].awaits_reply
                ==> asked_before(script, n, states[n].send_queue[fd].request),
    decreases n,
{
    if n > 0 {
        lemma_waiting_was_asked(script, states, n - 1);
        let call = script[n - 1];
        let before = states[n - 1];
        let after = states[n];
        assert(call.leads(states[n - 1], states[n - 1 + 1]));
        assert forall|request: Rq| asked_before(script, n - 1, request) implies asked_before(
            script,
            n,
            request,
        ) by {
            let k = choose|k: int|
                0 <= k < n - 1 && (#[trigger] script[k]).asked() == Some(request);
            assert(script[k].asked() == Some(request));
        }
        assert forall|id: ResourceId| #[trigger] after.inboxes.contains_key(
            id,
        ) implies asked_before(script, n, after.inboxes[id].1) by {
            match call {
                ClientCall::Registered { fd, id: new, .. } => {
                    assert(before.send_queue.contains_key(fd));
                    if id != new || !before.send_queue[fd].awaits_reply {
                        assert(before.inboxes.contains_key(id));
                    }
                },
                _ => {
                    assert(before.inboxes.contains_key(id));
                },
            }
        }
        assert forall|fd: RawFd| #[trigger]
            after.send_queue.contains_key(
                fd,
            ) && after.send_queue[fd].awaits_reply implies asked_before(
            script,
            n,
            after.send_queue[fd].request,
        ) by {
            match call {
                ClientCall::Command { cmd: Cmd::Send { fd: new, pending, .. } } => {
                    if fd == new {
                        assert(script[n - 1].asked() == Some(pending.request));
                    } else {
                        assert(before.send_queue.contains_key(fd));
                    }
                },
                _ => {
                    assert(before.send_queue.contains_key(fd));
                },
            }
        }
    }
}

/// A reply comes only to a request for which one was asked before.
pub proof fn law_replies_are_asked_for<T, Rq: Request>(
    script: Seq<ClientCall<T, Rq>>,
    states: Seq<ClientState<T, Rq>>,
    i: int,
)
    requires
        client_runs(script, states),
        0 <= i < script.len(),
        script[i].answered() is Some,
    ensures
        asked_before(script, i, script[i].answered()->0),
{
    lemma_waiting_was_asked(script, states, i);
    assert(script[i].leads(states[i], states[i + 1]));
    if let ClientCall::Transport { id, .. } = script[i] {
        assert(states[i].inboxes.contains_key(id));
    }
}

/// How many of the first `n` calls are replies.
pub open spec fn replies<T, Rq: Request>(script: Seq<ClientCall<T, Rq>>, n: nat) -> nat
    decreases n,
{
    if n == 0 {
        0
    } else {
        replies(script, (n - 1) as nat) + if script[n - 1].answered() is Some {
            1nat
        } else {
            0
        }
    }
}

/// How many of the first `n` calls ask for a reply.
pub open spec fn questions<T, Rq: Request>(script: Seq<ClientCall<T, Rq>>, n: nat) -> nat
    decreases n,
{
    if n == 0 {
        0
    } else {
        questions(script, (n - 1) as nat) + if script[n - 1].asked() is Some {
            1nat
        } else {
            0
        }
    }
}

/// The descriptors of the transports over which a request with a reply is to be sent.
spec fn unsent<T, Rq: Request>(state: ClientState<T, Rq>) -> Set<RawFd> {
    state.send_queue.dom().filter(|fd: RawFd| state.send_queue[fd].awaits_reply)
}

proof fn lemma_replies_bounded<T, Rq: Request>(
    script: Seq<ClientCall<T, Rq>>,
    states: Seq<ClientState<T, Rq>>,
    n: nat,
)
    requires
        client_runs(script, states),
        n < states.len(),
    ensures
        states[n as int].inboxes.dom().finite(),
        states[n as int].send_queue.dom().finite(),
        replies(script, n) + states[n as int].inboxes.dom().len() + unsent(states[n as int]).len()
            <= questions(script, n),
    decreases n,
{
    if n == 0 {
        assert(unsent(states[0]) =~= Set::empty());
    } else {
        let m = (n - 1) as nat;
        lemma_replies_bounded(script, states, m);
        let before = states[m as int];
        let after = states[n as int];
        assert(script[m as int].leads(states[m as int], states[m as int + 1]));
        before.send_queue.dom().lemma_len_filter(|fd: RawFd| before.send_queue[fd].awaits_reply);
        match script[m as int] {
            ClientCall::Terminate => {
                assert(unsent(after) =~= unsent(before));
            },
            ClientCall::Transport { id, .. } => {
                assert(unsent(after) =~= unsent(before));
                if after.inboxes != before.inboxes {
                    assert(after.inboxes.dom() =~= before.inboxes.dom().remove(id));
                }
            },
            ClientCall::Registered { fd, id, .. } => {
                assert(unsent(after) =~= unsent(before).remove(fd));
                if before.send_queue[fd].awaits_reply {
                    assert(after.inboxes.dom() =~= before.inboxes.dom().insert(id));
                    assert(unsent(before).contains(fd));
                }
            },
            ClientCall::Command { cmd } => {
                match cmd {
                    Cmd::Send { fd, pending, .. } => {
                        if pending.awaits_reply {
                            assert(unsent(after) =~= unsent(before).insert(fd));
                        } else {
                            assert(unsent(after) =~= unsent(before).remove(fd));
                        }
                    },
                    Cmd::Terminate => {
                        assert(unsent(after) =~= unsent(before));
                    },
                }
            },
            ClientCall::Next { .. } => {
                assert(unsent(after) =~= unsent(before));
            },
        }
    }
}

/// At no time have more replies come than were asked for.
pub proof fn law_no_more_replies_than_questions<T, Rq: Request>(
    script: Seq<ClientCall<T, Rq>>,
    states: Seq<ClientState<T, Rq>>,
    n: nat,
)
    requires
        client_runs(script, states),
        n <= script.len(),
    ensures
        replies(script, n) <= questions(script, n),
{
    lemma_replies_bounded(script, states, n);
}

/// A client that just started waits for nothing and asks for nothing.
pub proof fn law_client_starts_empty<T, Rq: Request>(id: ResourceId, fd: RawFd)
    ensures
        ({
            let state = ClientState::<T, Rq>::fresh();
            &&& !state.inboxes.contains_key(id)
            &&& !state.send_queue.contains_key(fd)
            &&& state.actions.len() == 0
        }),
{
}

/// A command to send keeps the request as it is, whether a reply is expected included, under the
/// descriptor of its transport, beside all others, and asks the reactor to poll the transport. A
/// command to terminate asks the reactor to end. Neither touches a request that waits for a reply.
pub proof fn law_command<T, Rq: Request>(
    state: ClientState<T, Rq>,
    fd: RawFd,
    transport: T,
    pending: PendingRequest<Rq>,
    other: RawFd,
)
    ensures
        ({
            let after = state.commanded(Cmd::Send { fd, transport, pending });
            &&& after.inboxes == state.inboxes
            &&& after.actions == state.actions.push(ClientAction::RegisterTransport(transport))
            &&& after.send_queue.contains_key(fd)
            &&& after.send_queue[fd].request == pending.request
            &&& after.send_queue[fd].awaits_reply == pending.awaits_reply
            &&& other != fd ==> {
                &&& after.send_queue.contains_key(other) <==> state.send_queue.contains_key(other)
                &&& state.send_queue.contains_key(other) ==> after.send_queue[other]
                    == state.send_queue[other]
            }
        }),
        ({
            let after = state.commanded(Cmd::Terminate);
            &&& after.inboxes == state.inboxes
            &&& after.send_queue == state.send_queue
            &&& after.actions == state.actions.push(ClientAction::Terminate)
        }),
        state.asking(ClientAction::Terminate) == state.commanded(Cmd::Terminate),
{
}

/// Once its transport is part of the poll, a request is asked to be sent, over the resource of the
/// transport and after everything else, and it no longer waits to be sent. It gets an empty inbox
/// under that resource if and only if a reply is expected. No other request is touched.
pub proof fn law_registered_request<T, Rq: Request>(
    state: ClientState<T, Rq>,
    fd: RawFd,
    id: ResourceId,
    bytes: Vec<u8>,
    other_fd: RawFd,
    other_id: ResourceId,
)
    requires
        state.send_queue.contains_key(fd),
    ensures
        ({
            let after = state.registered(fd, id, bytes);
            &&& after.actions == state.actions.push(ClientAction::Send(id, bytes))
            &&& !after.send_queue.contains_key(fd)
            &&& other_fd != fd ==> {
                &&& after.send_queue.contains_key(other_fd) <==> state.send_queue.contains_key(
                    other_fd,
                )
                &&& state.send_queue.contains_key(other_fd) ==> after.send_queue[other_fd]
                    == state.send_queue[other_fd]
            }
            &&& other_id != id || !state.send_queue[fd].awaits_reply ==> {
                &&& after.inboxes.contains_key(other_id) <==> state.inboxes.contains_key(other_id)
                &&& state.inboxes.contains_key(other_id) ==> after.inboxes[other_id]
                    == state.inboxes[other_id]
            }
            &&& state.send_queue[fd].awaits_reply ==> {
                &&& after.inboxes.contains_key(id)
                &&& after.inboxes[id].0.len() == 0
                &&& after.inboxes[id].1 == state.send_queue[fd].request
            }
        }),
{
}

/// Bytes for which an inbox is open are read behind those that are in it. A reply goes to the
/// caller together with the request of that inbox. The inbox is closed, and the reactor is asked
/// for the transport unless the bytes are part of a reply. Other inboxes, and what is still to be
/// sent, are not touched. Bytes for which none is open change nothing.
///
/// What was read is returned, with the number of bytes.
pub proof fn law_reply_is_read<T, Rq: Request>(
    state: ClientState<T, Rq>,
    id: ResourceId,
    data: Seq<u8>,
    after: ClientState<T, Rq>,
    reply: Option<(Rq, Rq::Response)>,
    other: ResourceId,
) -> (read: (Result<Option<Rq::Response>, <Rq::Response as Frame>::Error>, nat))
    requires
        state.receives(id, data, after, reply),
    ensures
        after.send_queue == state.send_queue,
        other != id ==> {
            &&& after.inboxes.contains_key(other) <==> state.inboxes.contains_key(other)
            &&& state.inboxes.contains_key(other) ==> after.inboxes[other] == state.inboxes[other]
        },
        !state.inboxes.contains_key(id) ==> after == state && reply is None,
        state.inboxes.contains_key(id) ==> {
            &&& <Rq::Response as Frame>::reads(state.inboxes[id].0 + data, read.0, read.1)
            &&& !after.inboxes.contains_key(id)
            &&& match read.0 {
                Ok(Some(response)) => {
                    &&& reply == Some((state.inboxes[id].1, response))
                    &&& after.actions == state.actions.push(ClientAction::UnregisterTransport(id))
                },
                Ok(None) => reply is None && after.actions == state.actions,
                Err(_) => {
                    &&& reply is None
                    &&& after.actions == state.actions.push(ClientAction::UnregisterTransport(id))
                },
            }
        },
{
    let (outcome, taken) = choose|
        outcome: Result<Option<Rq::Response>, <Rq::Response as Frame>::Error>,
        taken: nat,
    |
        {
            &&& #[trigger] <Rq::Response as Frame>::reads(
                state.inboxes[id].0 + data,
                outcome,
                taken,
            )
            &&& after == state.after_read(id, outcome)
            &&& reply == state.reply(id, outcome)
        };
    (outcome, taken)
}

/// Whatever is called, what was asked of the reactor before stays asked, in order, until the
/// reactor takes it.
pub proof fn law_client_keeps_what_was_asked<T, Rq: Request>(
    before: ClientState<T, Rq>,
    call: ClientCall<T, Rq>,
    after: ClientState<T, Rq>,
)
    requires
        call.leads(before, after),
        !(call is Next),
    ensures
        before.actions.is_prefix_of(after.actions),
{
    assert(before.actions =~= after.actions.take(before.actions.len() as int));
}

/// Whether `event` is the outcome of what `action` asks of the factory's surroundings.
pub open spec fn answers_factory<S, T, Rq>(
    action: FactoryAction<S, T, Rq>,
    event: FactoryEvent<S, T, Rq>,
) -> bool {
    match (action, event) {
        (FactoryAction::Receive, FactoryEvent::Received(_)) => true,
        (FactoryAction::Connect { pending }, FactoryEvent::Connected { pending: same, .. }) => {
            pending == same
        },
        (FactoryAction::Wrap { pending, .. }, FactoryEvent::Wrapped { pending: same, .. }) => {
            pending == same
        },
        (FactoryAction::Send { .. }, FactoryEvent::Passed) => true,
        (FactoryAction::Terminate, FactoryEvent::Passed) => true,
        _ => false,
    }
}

/// What is passed to the reactor is the request that was commanded, as it was commanded: from the
/// command on, nothing changes the request or whether a reply is expected, and the session and
/// the transport over which it is sent are those that were opened for it.
pub proof fn law_request_arrives_as_commanded<S, T, Rq>(
    pending: PendingRequest<Rq>,
    connected: FactoryEvent<S, T, Rq>,
    wrapped: FactoryEvent<S, T, Rq>,
)
    requires
        answers_factory(
            factory_step(
                FactoryEvent::<S, T, Rq>::Received(Some(FactoryCmd::Request(pending))),
            ),
            connected,
        ),
        answers_factory(factory_step(connected), wrapped),
    ensures
        connected is Connected,
        connected->Connected_session is None ==> wrapped is Received,
        connected->Connected_session matches Some(session) ==> {
            &&& factory_step(connected) matches FactoryAction::Wrap {
                session: same,
                direction,
                pending: kept,
            }
            &&& same == session
            &&& direction == Direction::Outbound
            &&& kept.request == pending.request
            &&& kept.awaits_reply == pending.awaits_reply
            &&& wrapped matches FactoryEvent::Wrapped { transport, .. }
            &&& match transport {
                Some((fd, transport)) => {
                    &&& factory_step(wrapped) matches FactoryAction::Send {
                        fd: over,
                        transport: by,
                        pending: sent,
                    }
                    &&& over == fd
                    &&& by == transport
                    &&& sent.request == pending.request
                    &&& sent.awaits_reply == pending.awaits_reply
                },
                None => factory_step(wrapped) is Receive,
            }
        },
{
}

/// A command asks for a connection, for the end of the reactor, or, where none will come any more,
/// for the factory to stop; and after what was passed on the next command is awaited.
pub proof fn law_factory_takes_commands<S, T, Rq>(pending: PendingRequest<Rq>)
    ensures
        factory_step(FactoryEvent::<S, T, Rq>::Received(Some(FactoryCmd::Request(pending)))) == (
        FactoryAction::<S, T, Rq>::Connect { pending }),
        factory_step(FactoryEvent::<S, T, Rq>::Received(Some(FactoryCmd::Terminate)))
            is Terminate,
        factory_step(FactoryEvent::<S, T, Rq>::Received(None)) is Stop,
        factory_step(FactoryEvent::<S, T, Rq>::Passed) is Receive,
{
}

/// The reactor gets what was asked first. What it did not get yet stays, in order, and nothing else
/// changes.
pub proof fn law_client_first_asked_first_served<T, Rq: Request>(state: ClientState<T, Rq>)
    ensures
        state.advanced().inboxes == state.inboxes,
        state.advanced().send_queue == state.send_queue,
        match state.next_action() {
            Some(action) => seq![action] + state.advanced().actions == state.actions,
            None => state.actions.len() == 0 && state.advanced().actions.len() == 0,
        },
{
    if state.actions.len() > 0 {
        assert(seq![state.actions.first()] + state.actions.skip(1) =~= state.actions);
    }
}

} // verus!
