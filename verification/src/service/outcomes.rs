//! What each call does to a service, field by field, and what the controller hears of it.

use std::sync::Arc;
use vstd::prelude::*;
use vstd::seq_lib::lemma_seq_contains_after_push;
use vstd::std_specs::cmp::PartialOrdIs;

use crate::action::Action;
use crate::ident::above;
use crate::service::conflict::{closing, closings};
use crate::service::laws::{
    law_established_is_the_only_one, lemma_all_closed, lemma_established_keeps, lemma_noticed, Call,
};
use crate::service::lifecycle::{ReactorError, ResourceType};
use crate::service::listener::{listener_step, ListenerAction, ListenerEvent};
use crate::service::state::{notices, Callback, Gone, Metrics, ServiceState, SessionEvent};
use crate::transport::frame::{pops, Frame};
use crate::transport::remotes::{
    lists_active, DisconnectReason, FramingError, RawFd, RemoteView, ResourceId, ServiceTypes,
};
use crate::Direction;

verus! {

/// What was counted of `node`: nothing where there is no entry.
pub open spec fn tally<N>(metrics: Map<N, Metrics>, node: N) -> Metrics {
    if metrics.contains_key(node) {
        metrics[node]
    } else {
        Metrics {
            bytes_sent: 0,
            bytes_received: 0,
            messages_sent: 0,
            messages_received: 0,
            inbound_connection_attempts: 0,
            outbound_connection_attempts: 0,
            disconnects: 0,
        }
    }
}

/// A service that just started knows of nothing and asks for nothing.
pub proof fn law_starts_empty<P: ServiceTypes>(local_id: P::NodeId, fd: RawFd, id: ResourceId)
    ensures
        ({
            let state = ServiceState::<P>::fresh(local_id);
            &&& state.local_id == local_id
            &&& !state.listening.contains_key(fd)
            &&& !state.bound.contains_key(fd)
            &&& !state.inbound.contains_key(fd)
            &&& !state.outbound.contains_key(fd)
            &&& !state.remotes.contains_key(id)
            &&& !state.metrics.contains_key(local_id)
            &&& state.metrics =~= Map::empty()
            &&& state.actions.len() == 0
        }),
{
}

/// Disconnecting a resource touches its remote and the actions alone. A connected remote is kept,
/// with its node, its side and the reason, until its transport is handed over, and the reactor is
/// asked for the transport; for one that is already on its way out nothing is asked again.
pub proof fn law_disconnect<P: ServiceTypes>(
    state: ServiceState<P>,
    res_id: ResourceId,
    reason: DisconnectReason<P>,
    gone: Gone<P::NodeId>,
)
    requires
        state.answers(res_id, gone),
    ensures
        ({
            let after = state.disconnected(res_id, reason);
            let asked = state.actions.push(Action::UnregisterTransport(res_id));
            &&& after.local_id == state.local_id
            &&& after.listening == state.listening
            &&& after.bound == state.bound
            &&& after.inbound == state.inbound
            &&& after.outbound == state.outbound
            &&& after.metrics == state.metrics
            &&& after.remotes.remove(res_id) =~= state.remotes.remove(res_id)
            &&& after.remotes.contains_key(res_id) <==> state.remotes.contains_key(res_id)
            &&& if !state.remotes.contains_key(res_id) {
                &&& after.actions == asked
                &&& match gone {
                    Some((node, side)) => side == Direction::Outbound && exists|fd: RawFd|
                        {
                            &&& #[trigger] state.outbound.contains_key(fd)
                            &&& state.outbound[fd].res_id == Some(res_id)
                            &&& state.outbound[fd].remote_id == node
                        },
                    None => forall|fd: RawFd| #[trigger]
                        state.outbound.contains_key(fd) ==> state.outbound[fd].res_id != Some(res_id),
                }
            } else {
                match state.remotes[res_id] {
                    RemoteView::Connected { remote_id, direction, .. } => {
                        &&& after.actions == asked
                        &&& after.remotes[res_id] == RemoteView::<P>::Disconnecting {
                            remote_id: Some(remote_id),
                            direction,
                            reason,
                        }
                        &&& gone == Some((remote_id, direction))
                    },
                    RemoteView::Disconnecting { remote_id, direction, .. } => {
                        &&& after.actions == state.actions
                        &&& after.remotes[res_id] == state.remotes[res_id]
                        &&& gone == match remote_id {
                            Some(node) => Some((node, direction)),
                            None => None,
                        }
                    },
                }
            }
        }),
{
    let after = state.disconnected(res_id, reason);
    assert(after.remotes.remove(res_id) =~= state.remotes.remove(res_id));
    if !state.remotes.contains_key(res_id) {
        match gone {
            Some((node, side)) => {
                let fd = choose|fd: RawFd| #[trigger]
                    state.attempts(fd, res_id) && state.outbound[fd].remote_id == node;
                assert(state.outbound.contains_key(fd));
            },
            None => {
                assert forall|fd: RawFd| #[trigger]
                    state.outbound.contains_key(fd) implies state.outbound[fd].res_id != Some(
                    res_id,
                ) by {
                    assert(!state.attempts(fd, res_id));
                }
            },
        }
    }
}

/// Closing some connections in favour of another turns those of them that are connected into
/// disconnecting ones, for that reason, and leaves every other remote as it is.
pub proof fn law_closed_for_another<P: ServiceTypes>(
    state: ServiceState<P>,
    ids: Seq<ResourceId>,
    id: ResourceId,
)
    ensures
        ({
            let after = state.all_closed(ids);
            &&& after.remotes.contains_key(id) <==> state.remotes.contains_key(id)
            &&& state.remotes.contains_key(id) ==> match state.remotes[id] {
                RemoteView::Connected { remote_id, direction, .. } => after.remotes[id]
                    == if ids.contains(id) {
                    RemoteView::<P>::Disconnecting {
                        remote_id: Some(remote_id),
                        direction,
                        reason: DisconnectReason::Conflict,
                    }
                } else {
                    state.remotes[id]
                },
                RemoteView::Disconnecting { .. } => after.remotes[id] == state.remotes[id],
            }
            &&& after.local_id == state.local_id
            &&& after.listening == state.listening
            &&& after.bound == state.bound
            &&& after.inbound == state.inbound
            &&& after.outbound == state.outbound
            &&& after.metrics == state.metrics
        }),
    decreases ids.len(),
{
    if ids.len() > 0 {
        law_closed_for_another(state, ids.drop_last(), id);
        assert(ids =~= ids.drop_last().push(ids.last()));
        lemma_seq_contains_after_push(ids.drop_last(), ids.last(), id);
    }
}

/// The reactor is asked, in order, for each connection that is closed in favour of another.
pub proof fn law_asked_for_each<P: ServiceTypes>(state: ServiceState<P>, ids: Seq<ResourceId>)
    requires
        forall|i: int|
            0 <= i < ids.len() && state.remotes.contains_key(#[trigger] ids[i]) ==> {
                &&& state.remotes[ids[i]] is Connected
                &&& forall|j: int| 0 <= j < i ==> #[trigger] ids[j] != ids[i]
            },
    ensures
        state.all_closed(ids).actions.len() == state.actions.len() + ids.len(),
        forall|i: int|
            0 <= i < state.actions.len() ==> #[trigger] state.all_closed(ids).actions[i]
                == state.actions[i],
        forall|i: int|
            0 <= i < ids.len() ==> state.all_closed(ids).actions[state.actions.len() + i]
                == Action::<P::Listener, P::Transport>::UnregisterTransport(#[trigger] ids[i]),
    decreases ids.len(),
{
    if ids.len() > 0 {
        let fewer = ids.drop_last();
        let last = ids.last();
        assert forall|i: int|
            0 <= i < fewer.len() && state.remotes.contains_key(#[trigger] fewer[i]) implies {
            &&& state.remotes[fewer[i]] is Connected
            &&& forall|j: int| 0 <= j < i ==> #[trigger] fewer[j] != fewer[i]
        } by {
            assert(fewer[i] == ids[i]);
            assert forall|j: int| 0 <= j < i implies #[trigger] fewer[j] != fewer[i] by {
                assert(fewer[j] == ids[j]);
            }
        }
        law_asked_for_each(state, fewer);
        law_closed_for_another(state, fewer, last);
        let n = ids.len() - 1;
        assert(ids[n] == last);
        if state.remotes.contains_key(last) {
            assert(!fewer.contains(last)) by {
                if fewer.contains(last) {
                    let j = choose|j: int| 0 <= j < fewer.len() && fewer[j] == last;
                    assert(ids[j] == ids[n]);
                }
            }
        }
        assert forall|i: int| 0 <= i < ids.len() implies state.all_closed(
            ids,
        ).actions[state.actions.len() + i] == Action::<P::Listener, P::Transport>::UnregisterTransport(
            #[trigger] ids[i],
        ) by {
            if i < n {
                assert(fewer[i] == ids[i]);
            }
        }
    }
}

/// The connections to settle before a session of `res_id` with `remote_id` are the sessions in use
/// with that node under another resource, with the side that opened them, and our attempts to
/// connect to it over any other descriptor that the reactor knows. Each is named once.
pub proof fn law_every_rival_is_seen<P: ServiceTypes>(
    state: ServiceState<P>,
    fd: RawFd,
    res_id: ResourceId,
    remote_id: P::NodeId,
    links: Seq<(ResourceId, Direction)>,
)
    requires
        state.conflicts(fd, res_id, remote_id, links),
    ensures
        forall|id: ResourceId| #[trigger]
            state.remotes.contains_key(id) && id != res_id ==> match state.remotes[id] {
                RemoteView::Connected { remote_id: node, direction, .. } => node == remote_id
                    ==> links.contains((id, direction)),
                RemoteView::Disconnecting { .. } => true,
            },
        forall|c_fd: RawFd| #[trigger]
            state.outbound.contains_key(c_fd) && c_fd != fd && state.outbound[c_fd].remote_id
                == remote_id ==> match state.outbound[c_fd].res_id {
                Some(c_id) => links.contains((c_id, Direction::Outbound)),
                None => true,
            },
        forall|i: int|
            0 <= i < links.len() ==> {
                ||| {
                    &&& (#[trigger] links[i]).0 != res_id
                    &&& state.remotes.contains_key(links[i].0)
                    &&& state.remotes[links[i].0] matches RemoteView::Connected {
                        remote_id: node,
                        direction,
                        ..
                    }
                    &&& node == remote_id
                    &&& direction == links[i].1
                }
                ||| {
                    &&& links[i].1 == Direction::Outbound
                    &&& exists|c_fd: RawFd|
                        {
                            &&& #[trigger] state.outbound.contains_key(c_fd)
                            &&& c_fd != fd
                            &&& state.outbound[c_fd].remote_id == remote_id
                            &&& state.outbound[c_fd].res_id == Some(links[i].0)
                        }
                }
            },
{
    let (sessions, attempts) = choose|sessions: Seq<ResourceId>, attempts: Seq<RawFd>| #[trigger]
        state.conflicts_by(fd, res_id, remote_id, links, sessions, attempts);
    assert forall|id: ResourceId| #[trigger]
        state.remotes.contains_key(id) && id != res_id implies match state.remotes[id] {
        RemoteView::Connected { remote_id: node, direction, .. } => node == remote_id
            ==> links.contains((id, direction)),
        RemoteView::Disconnecting { .. } => true,
    } by {
        if let RemoteView::Connected { remote_id: node, direction, .. } = state.remotes[id] {
            if node == remote_id {
                assert(state.rivals(id, res_id, remote_id));
                assert(sessions.contains(id));
                let k = choose|k: int| 0 <= k < sessions.len() && sessions[k] == id;
                assert(links[k] == state.session_links(sessions)[k]);
                assert(links[k] == (id, direction));
            }
        }
    }
    assert forall|c_fd: RawFd| #[trigger]
        state.outbound.contains_key(c_fd) && c_fd != fd && state.outbound[c_fd].remote_id
            == remote_id implies match state.outbound[c_fd].res_id {
        Some(c_id) => links.contains((c_id, Direction::Outbound)),
        None => true,
    } by {
        if let Some(c_id) = state.outbound[c_fd].res_id {
            assert(state.rival_attempts(c_fd, fd, remote_id));
            assert(attempts.contains(c_fd));
            let k = choose|k: int| 0 <= k < attempts.len() && attempts[k] == c_fd;
            let at = sessions.len() + k;
            assert(links[at] == state.attempt_links(attempts)[k]);
            assert(links[at] == (c_id, Direction::Outbound));
        }
    }
    assert forall|i: int| 0 <= i < links.len() implies {
        ||| {
            &&& (#[trigger] links[i]).0 != res_id
            &&& state.remotes.contains_key(links[i].0)
            &&& state.remotes[links[i].0] matches RemoteView::Connected {
                remote_id: node,
                direction,
                ..
            }
            &&& node == remote_id
            &&& direction == links[i].1
        }
        ||| {
            &&& links[i].1 == Direction::Outbound
            &&& exists|c_fd: RawFd|
                {
                    &&& #[trigger] state.outbound.contains_key(c_fd)
                    &&& c_fd != fd
                    &&& state.outbound[c_fd].remote_id == remote_id
                    &&& state.outbound[c_fd].res_id == Some(links[i].0)
                }
        }
    } by {
        if i < sessions.len() {
            assert(links[i] == state.session_links(sessions)[i]);
            assert(sessions.contains(sessions[i]));
            assert(state.rivals(sessions[i], res_id, remote_id));
        } else {
            let k = i - sessions.len();
            assert(links[i] == state.attempt_links(attempts)[k]);
            assert(attempts.contains(attempts[k]));
            assert(state.rival_attempts(attempts[k], fd, remote_id));
            assert(state.outbound.contains_key(attempts[k]));
        }
    }
}

/// Of two connections with the same node, opened by different sides, the one that stays is the one
/// opened by the node with precedence; of two opened by the same side, the older one.
pub proof fn law_which_one_stays(
    precedence: bool,
    res_id: ResourceId,
    direction: Direction,
    conflicting: Seq<(ResourceId, Direction)>,
    i: int,
)
    requires
        0 <= i < conflicting.len(),
    ensures
        closings(precedence, res_id, direction, conflicting).len() == conflicting.len(),
        ({
            let (c_id, c_side) = conflicting[i];
            let closed = closings(precedence, res_id, direction, conflicting)[i];
            &&& closed == closing(precedence, res_id, direction, c_id, c_side)
            &&& closed == res_id || closed == c_id
            &&& direction == c_side ==> res_id <= closed && c_id <= closed
            &&& precedence && direction is Outbound && c_side is Inbound ==> closed == c_id
            &&& precedence && direction is Inbound && c_side is Outbound ==> closed == res_id
            &&& !precedence && direction is Outbound && c_side is Inbound ==> closed == res_id
            &&& !precedence && direction is Inbound && c_side is Outbound ==> closed == c_id
        }),
{
}

/// A session with this very node is closed and nothing else happens.
pub proof fn law_no_session_with_itself<P: ServiceTypes>(
    state: ServiceState<P>,
    fd: RawFd,
    res_id: ResourceId,
    time: P::Timestamp,
    after: ServiceState<P>,
    calls: Seq<Callback<P>>,
)
    requires
        state.handles(
            fd,
            res_id,
            SessionEvent::Established(Some(state.local_id)),
            time,
            after,
            calls,
        ),
    ensures
        calls.len() == 0,
        after.inbound == state.inbound,
        after.outbound == state.outbound,
        after.metrics == state.metrics,
        after.listening == state.listening,
        after.bound == state.bound,
        after.local_id == state.local_id,
        after.remotes.remove(res_id) =~= state.remotes.remove(res_id),
        !state.remotes.contains_key(res_id) ==> {
            &&& !after.remotes.contains_key(res_id)
            &&& after.actions == state.actions.push(Action::UnregisterTransport(res_id))
        },
        state.remotes.contains_key(res_id) ==> match state.remotes[res_id] {
            RemoteView::Connected { remote_id, direction, .. } => {
                &&& after.actions == state.actions.push(Action::UnregisterTransport(res_id))
                &&& after.remotes == state.remotes.insert(
                    res_id,
                    RemoteView::Disconnecting {
                        remote_id: Some(remote_id),
                        direction,
                        reason: DisconnectReason::SelfConnection,
                    },
                )
            },
            RemoteView::Disconnecting { .. } => after == state,
        },
{
}

/// A session over a descriptor that is neither an accepted connection nor an attempt of ours
/// changes nothing.
pub proof fn law_stray_session_is_ignored<P: ServiceTypes>(
    state: ServiceState<P>,
    fd: RawFd,
    res_id: ResourceId,
    remote_id: P::NodeId,
    time: P::Timestamp,
    after: ServiceState<P>,
    calls: Seq<Callback<P>>,
)
    requires
        remote_id != state.local_id,
        !state.inbound.contains_key(fd),
        !state.outbound.contains_key(fd),
        state.handles(fd, res_id, SessionEvent::Established(Some(remote_id)), time, after, calls),
    ensures
        after == state,
        calls.len() == 0,
{
}

/// A session takes its connection out of those that wait for one. An accepted connection counts as
/// an attempt of the node to connect to us; nothing else is counted, and no other connection
/// without a session, listener or node is touched.
pub proof fn law_session_takes_its_connection<P: ServiceTypes>(
    state: ServiceState<P>,
    fd: RawFd,
    res_id: ResourceId,
    remote_id: P::NodeId,
    time: P::Timestamp,
    after: ServiceState<P>,
    calls: Seq<Callback<P>>,
    node: P::NodeId,
)
    requires
        remote_id != state.local_id,
        state.inbound.contains_key(fd) || state.outbound.contains_key(fd),
        state.inbound.contains_key(fd) ==> tally(
            state.metrics,
            remote_id,
        ).inbound_connection_attempts < usize::MAX,
        state.handles(fd, res_id, SessionEvent::Established(Some(remote_id)), time, after, calls),
    ensures
        after.local_id == state.local_id,
        after.listening == state.listening,
        after.bound == state.bound,
        !after.inbound.contains_key(fd),
        after.inbound =~= state.inbound.remove(fd),
        state.inbound.contains_key(fd) ==> after.outbound == state.outbound,
        !state.inbound.contains_key(fd) ==> after.outbound =~= state.outbound.remove(fd),
        ({
            let was = tally(state.metrics, node);
            let is = tally(after.metrics, node);
            let more: int = if state.inbound.contains_key(fd) && node == remote_id {
                1
            } else {
                0
            };
            &&& is.inbound_connection_attempts == was.inbound_connection_attempts + more
            &&& is.bytes_sent == was.bytes_sent
            &&& is.bytes_received == was.bytes_received
            &&& is.messages_sent == was.messages_sent
            &&& is.messages_received == was.messages_received
            &&& is.outbound_connection_attempts == was.outbound_connection_attempts
            &&& is.disconnects == was.disconnects
        }),
{
    let (conflicting, gone, stored) = choose|
        conflicting: Seq<(ResourceId, Direction)>,
        gone: Seq<Gone<P::NodeId>>,
        stored: P::Addr,
    | #[trigger]
        state.establishes(
            fd,
            res_id,
            remote_id,
            time,
            conflicting,
            gone,
            stored,
            after,
            calls,
        );
    let claimed = state.claimed(fd, remote_id);
    let closed = closings(
        above(state.local_id, remote_id),
        res_id,
        (state.claim(fd)->0).1,
        conflicting,
    );
    lemma_all_closed(claimed, closed);
}

/// Whether a new session of `res_id` stays against another connection with the same node.
pub open spec fn stays_over<N: Ord>(
    local_id: N,
    remote_id: N,
    res_id: ResourceId,
    side: Direction,
    c_id: ResourceId,
    c_side: Direction,
) -> bool {
    if side == c_side {
        res_id < c_id
    } else if local_id.is_gt(&remote_id) {
        side is Outbound
    } else {
        side is Inbound
    }
}

/// Whether `c_id` is a session in use with `remote_id`, opened by `c_side`, or an attempt of ours
/// to connect to that node over another descriptor than `fd`.
pub open spec fn rivalling<P: ServiceTypes>(
    state: ServiceState<P>,
    fd: RawFd,
    res_id: ResourceId,
    remote_id: P::NodeId,
    c_id: ResourceId,
    c_side: Direction,
) -> bool {
    ||| {
        &&& c_id != res_id
        &&& state.remotes.contains_key(c_id)
        &&& state.remotes[c_id] matches RemoteView::Connected { remote_id: node, direction, .. }
        &&& node == remote_id
        &&& direction == c_side
    }
    ||| {
        &&& c_side is Outbound
        &&& exists|c_fd: RawFd|
            {
                &&& #[trigger] state.outbound.contains_key(c_fd)
                &&& c_fd != fd
                &&& state.outbound[c_fd].remote_id == remote_id
                &&& state.outbound[c_fd].res_id == Some(c_id)
            }
    }
}

/// The address of the connection behind `fd` and the side that opened it.
pub open spec fn waiting<P: ServiceTypes>(
    state: ServiceState<P>,
    fd: RawFd,
    addr: P::Addr,
    side: Direction,
) -> bool {
    match side {
        Direction::Inbound => state.inbound.contains_key(fd) && state.inbound[fd].addr == addr,
        Direction::Outbound => !state.inbound.contains_key(fd) && state.outbound.contains_key(fd)
            && state.outbound[fd].addr == addr,
    }
}

/// The rivals of a session, named.
proof fn lemma_settled<P: ServiceTypes>(
    state: ServiceState<P>,
    fd: RawFd,
    res_id: ResourceId,
    remote_id: P::NodeId,
    time: P::Timestamp,
    after: ServiceState<P>,
    calls: Seq<Callback<P>>,
    addr: P::Addr,
    side: Direction,
) -> (res: (Seq<(ResourceId, Direction)>, Seq<Gone<P::NodeId>>, P::Addr))
    requires
        remote_id != state.local_id,
        waiting(state, fd, addr, side),
        state.handles(fd, res_id, SessionEvent::Established(Some(remote_id)), time, after, calls),
    ensures
        state.establishes(fd, res_id, remote_id, time, res.0, res.1, res.2, after, calls),
        state.claim(fd) == Some((addr, side)),
        forall|c_id: ResourceId, c_side: Direction|
            #![trigger res.0.contains((c_id, c_side))]
            res.0.contains((c_id, c_side)) <==> rivalling(
                state,
                fd,
                res_id,
                remote_id,
                c_id,
                c_side,
            ),
{
    let (conflicting, gone, stored) = choose|
        conflicting: Seq<(ResourceId, Direction)>,
        gone: Seq<Gone<P::NodeId>>,
        stored: P::Addr,
    | #[trigger]
        state.establishes(
            fd,
            res_id,
            remote_id,
            time,
            conflicting,
            gone,
            stored,
            after,
            calls,
        );
    let claimed = state.claimed(fd, remote_id);
    law_every_rival_is_seen(claimed, fd, res_id, remote_id, conflicting);
    assert forall|c_id: ResourceId, c_side: Direction|
        #![trigger conflicting.contains((c_id, c_side))]
        conflicting.contains((c_id, c_side)) <==> rivalling(
            state,
            fd,
            res_id,
            remote_id,
            c_id,
            c_side,
        ) by {
        if conflicting.contains((c_id, c_side)) {
            let i = choose|i: int| 0 <= i < conflicting.len() && conflicting[i] == (c_id, c_side);
            assert(conflicting[i].0 == c_id);
            if !(c_id != res_id && claimed.remotes.contains_key(c_id)
                && claimed.remotes[c_id] is Connected && claimed.remotes[c_id]->Connected_remote_id
                == remote_id && claimed.remotes[c_id]->Connected_direction == c_side) {
                let c_fd = choose|c_fd: RawFd|
                    {
                        &&& #[trigger] claimed.outbound.contains_key(c_fd)
                        &&& c_fd != fd
                        &&& claimed.outbound[c_fd].remote_id == remote_id
                        &&& claimed.outbound[c_fd].res_id == Some(c_id)
                    };
                assert(state.outbound.contains_key(c_fd));
            }
        }
        if rivalling(state, fd, res_id, remote_id, c_id, c_side) {
            if c_id != res_id && state.remotes.contains_key(c_id) && state.remotes[c_id] is Connected
                && state.remotes[c_id]->Connected_remote_id == remote_id
                && state.remotes[c_id]->Connected_direction == c_side {
                assert(claimed.remotes.contains_key(c_id));
            } else {
                let c_fd = choose|c_fd: RawFd|
                    {
                        &&& #[trigger] state.outbound.contains_key(c_fd)
                        &&& c_fd != fd
                        &&& state.outbound[c_fd].remote_id == remote_id
                        &&& state.outbound[c_fd].res_id == Some(c_id)
                    };
                assert(claimed.outbound.contains_key(c_fd));
            }
        }
    }
    (conflicting, gone, stored)
}

/// What is closed is asked for, behind everything that was asked before.
proof fn lemma_asked<P: ServiceTypes>(
    state: ServiceState<P>,
    ids: Seq<ResourceId>,
    id: ResourceId,
)
    requires
        ids.contains(id),
        state.remotes.contains_key(id) ==> state.remotes[id] is Connected,
    ensures
        state.all_closed(ids).actions.skip(state.actions.len() as int).contains(
            Action::UnregisterTransport(id),
        ),
        state.actions.is_prefix_of(state.all_closed(ids).actions),
    decreases ids.len(),
{
    lemma_actions_grow(state, ids);
    let fewer = ids.drop_last();
    lemma_actions_grow(state, fewer);
    let n = state.actions.len() as int;
    let before = state.all_closed(fewer).actions;
    let after = state.all_closed(ids).actions;
    assert(ids =~= fewer.push(ids.last()));
    lemma_seq_contains_after_push(fewer, ids.last(), id);
    if fewer.contains(id) {
        lemma_asked(state, fewer, id);
        let k = choose|k: int|
            0 <= k < before.skip(n).len() && before.skip(n)[k] == Action::<
                P::Listener,
                P::Transport,
            >::UnregisterTransport(id);
        assert(after.skip(n)[k] == before.skip(n)[k]);
    } else {
        law_closed_for_another(state, fewer, id);
        assert(after == before.push(Action::UnregisterTransport(id)));
        assert(after.skip(n)[before.len() - n] == Action::<
            P::Listener,
            P::Transport,
        >::UnregisterTransport(id));
    }
}

/// Closing connections takes back nothing that was asked before.
proof fn lemma_actions_grow<P: ServiceTypes>(state: ServiceState<P>, ids: Seq<ResourceId>)
    ensures
        state.actions.is_prefix_of(state.all_closed(ids).actions),
    decreases ids.len(),
{
    if ids.len() > 0 {
        lemma_actions_grow(state, ids.drop_last());
        let before = state.all_closed(ids.drop_last()).actions;
        let after = state.all_closed(ids).actions;
        assert(after == before || after.len() == before.len() + 1);
        assert(state.actions =~= after.take(state.actions.len() as int));
    } else {
        assert(state.actions =~= state.actions.take(state.actions.len() as int));
    }
}

/// What the controller is told of closed connections is that each made way for another.
proof fn lemma_only_notices<P: ServiceTypes>(gone: Seq<Gone<P::NodeId>>, i: int)
    requires
        0 <= i < notices::<P>(gone).len(),
    ensures
        notices::<P>(gone)[i] matches Callback::Disconnected { reason, .. }
            && reason is Conflict,
    decreases gone.len(),
{
    if gone.len() > 0 {
        let before = notices::<P>(gone.drop_last());
        if i < before.len() {
            lemma_only_notices::<P>(gone.drop_last(), i);
        }
    }
}

/// A session that has to make way for another connection with the same node is not reported and
/// not in use. The reactor is asked for it.
pub proof fn law_outdone_session_is_closed<P: ServiceTypes>(
    state: ServiceState<P>,
    fd: RawFd,
    res_id: ResourceId,
    remote_id: P::NodeId,
    time: P::Timestamp,
    after: ServiceState<P>,
    calls: Seq<Callback<P>>,
    addr: P::Addr,
    side: Direction,
    c_id: ResourceId,
    c_side: Direction,
)
    requires
        remote_id != state.local_id,
        waiting(state, fd, addr, side),
        state.handles(fd, res_id, SessionEvent::Established(Some(remote_id)), time, after, calls),
        rivalling(state, fd, res_id, remote_id, c_id, c_side),
        !stays_over(state.local_id, remote_id, res_id, side, c_id, c_side),
    ensures
        forall|i: int|
            0 <= i < calls.len() ==> (#[trigger] calls[i] matches Callback::Disconnected {
                reason,
                ..
            } && reason is Conflict),
        after.remotes.contains_key(res_id) <==> state.remotes.contains_key(res_id),
        after.remotes.contains_key(res_id) ==> after.remotes[res_id] is Disconnecting,
        state.actions.is_prefix_of(after.actions),
        !state.remotes.contains_key(res_id) ==> after.actions.skip(
            state.actions.len() as int,
        ).contains(Action::UnregisterTransport(res_id)),
{
    let (conflicting, gone, stored) = lemma_settled(
        state,
        fd,
        res_id,
        remote_id,
        time,
        after,
        calls,
        addr,
        side,
    );
    let claimed = state.claimed(fd, remote_id);
    let closed = closings(
        above(state.local_id, remote_id),
        res_id,
        side,
        conflicting,
    );
    assert(conflicting.contains((c_id, c_side)));
    let i = choose|i: int| 0 <= i < conflicting.len() && conflicting[i] == (c_id, c_side);
    assert(closed[i] == res_id);
    assert(closed.contains(res_id));
    law_closed_for_another(claimed, closed, res_id);
    lemma_actions_grow(claimed, closed);
    if !state.remotes.contains_key(res_id) {
        lemma_asked(claimed, closed, res_id);
    }
    assert forall|i: int| 0 <= i < calls.len() implies (
    #[trigger] calls[i] matches Callback::Disconnected { reason, .. } && reason is Conflict) by {
        lemma_only_notices::<P>(gone, i);
    }
}

/// A session that stays against every other connection with the same node is in use, with nothing
/// received and nothing to send, and reported last: with the node, the address and side of its
/// connection, and the time.
pub proof fn law_session_is_established<P: ServiceTypes>(
    state: ServiceState<P>,
    fd: RawFd,
    res_id: ResourceId,
    remote_id: P::NodeId,
    time: P::Timestamp,
    after: ServiceState<P>,
    calls: Seq<Callback<P>>,
    addr: P::Addr,
    side: Direction,
)
    requires
        remote_id != state.local_id,
        waiting(state, fd, addr, side),
        state.handles(fd, res_id, SessionEvent::Established(Some(remote_id)), time, after, calls),
        forall|c_id: ResourceId, c_side: Direction| #[trigger]
            rivalling(state, fd, res_id, remote_id, c_id, c_side) ==> c_id != res_id && stays_over(
                state.local_id,
                remote_id,
                res_id,
                side,
                c_id,
                c_side,
            ),
    ensures
        calls.len() > 0,
        calls.last() == (Callback::<P>::Established { remote_id, addr, direction: side, time }),
        forall|i: int|
            0 <= i < calls.len() - 1 ==> (#[trigger] calls[i] matches Callback::Disconnected {
                reason,
                ..
            } && reason is Conflict),
        after.remotes.contains_key(res_id),
        after.remotes[res_id] matches RemoteView::Connected {
            remote_id: node,
            addr: stored,
            direction,
            received,
            sendable,
        } && node == remote_id && cloned(addr, stored) && direction == side && received.len() == 0
            && sendable.len() == 0,
        state.actions.is_prefix_of(after.actions),
{
    let (conflicting, gone, stored) = lemma_settled(
        state,
        fd,
        res_id,
        remote_id,
        time,
        after,
        calls,
        addr,
        side,
    );
    let claimed = state.claimed(fd, remote_id);
    let closed = closings(
        above(state.local_id, remote_id),
        res_id,
        side,
        conflicting,
    );
    assert(!closed.contains(res_id)) by {
        if closed.contains(res_id) {
            let i = choose|i: int| 0 <= i < closed.len() && closed[i] == res_id;
            let (c_id, c_side) = conflicting[i];
            assert(conflicting.contains((c_id, c_side)));
            assert(rivalling(state, fd, res_id, remote_id, c_id, c_side));
        }
    }
    lemma_actions_grow(claimed, closed);
    assert forall|i: int| 0 <= i < calls.len() - 1 implies (
    #[trigger] calls[i] matches Callback::Disconnected { reason, .. } && reason is Conflict) by {
        lemma_only_notices::<P>(gone, i);
    }
}

/// What becomes of another remote when a session is taken in: a session in use with the same node
/// against which the new one stays is closed for that reason and asked for. Every other remote
/// stays as it is.
pub proof fn law_other_remotes_when_settled<P: ServiceTypes>(
    state: ServiceState<P>,
    fd: RawFd,
    res_id: ResourceId,
    remote_id: P::NodeId,
    time: P::Timestamp,
    after: ServiceState<P>,
    calls: Seq<Callback<P>>,
    addr: P::Addr,
    side: Direction,
    id: ResourceId,
)
    requires
        remote_id != state.local_id,
        waiting(state, fd, addr, side),
        state.handles(fd, res_id, SessionEvent::Established(Some(remote_id)), time, after, calls),
        id != res_id,
        forall|c_fd: RawFd| #[trigger]
            state.outbound.contains_key(c_fd) ==> state.outbound[c_fd].res_id != Some(id),
    ensures
        after.remotes.contains_key(id) <==> state.remotes.contains_key(id),
        state.remotes.contains_key(id) ==> match state.remotes[id] {
            RemoteView::Connected { remote_id: node, direction, .. } => if node == remote_id
                && stays_over(state.local_id, remote_id, res_id, side, id, direction) {
                &&& after.remotes[id] == RemoteView::<P>::Disconnecting {
                    remote_id: Some(remote_id),
                    direction,
                    reason: DisconnectReason::Conflict,
                }
                &&& after.actions.skip(state.actions.len() as int).contains(
                    Action::UnregisterTransport(id),
                )
            } else {
                after.remotes[id] == state.remotes[id]
            },
            RemoteView::Disconnecting { .. } => after.remotes[id] == state.remotes[id],
        },
{
    let (conflicting, gone, stored) = lemma_settled(
        state,
        fd,
        res_id,
        remote_id,
        time,
        after,
        calls,
        addr,
        side,
    );
    let claimed = state.claimed(fd, remote_id);
    let closed = closings(
        above(state.local_id, remote_id),
        res_id,
        side,
        conflicting,
    );
    law_closed_for_another(claimed, closed, id);
    if closed.contains(id) {
        let i = choose|i: int| 0 <= i < closed.len() && closed[i] == id;
        let (c_id, c_side) = conflicting[i];
        assert(conflicting.contains((c_id, c_side)));
        assert(rivalling(state, fd, res_id, remote_id, c_id, c_side));
        assert(c_id == id);
        lemma_asked(claimed, closed, id);
    } else if state.remotes.contains_key(id) {
        if let RemoteView::Connected { remote_id: node, direction, .. } = state.remotes[id] {
            if node == remote_id {
                assert(rivalling(state, fd, res_id, remote_id, id, direction));
                assert(conflicting.contains((id, direction)));
                let i = choose|i: int|
                    0 <= i < conflicting.len() && conflicting[i] == (id, direction);
                assert(closed[i] != id);
            }
        }
    }
}

/// Where a session stays against every other connection with the same node, each of those makes
/// way: the reactor is asked for each, once, and the controller hears of each, once, in the same
/// order, sessions before attempts, before it hears of the session. Without any, the session is
/// all it hears of.
///
/// No two connections have the same resource. The links that make way are returned.
pub proof fn law_each_rival_makes_way<P: ServiceTypes>(
    state: ServiceState<P>,
    fd: RawFd,
    res_id: ResourceId,
    remote_id: P::NodeId,
    time: P::Timestamp,
    after: ServiceState<P>,
    calls: Seq<Callback<P>>,
    addr: P::Addr,
    side: Direction,
) -> (links: Seq<(ResourceId, Direction)>)
    requires
        remote_id != state.local_id,
        waiting(state, fd, addr, side),
        state.handles(fd, res_id, SessionEvent::Established(Some(remote_id)), time, after, calls),
        forall|c_id: ResourceId, c_side: Direction| #[trigger]
            rivalling(state, fd, res_id, remote_id, c_id, c_side) ==> c_id != res_id && stays_over(
                state.local_id,
                remote_id,
                res_id,
                side,
                c_id,
                c_side,
            ),
        forall|c_fd: RawFd| #[trigger]
            state.outbound.contains_key(c_fd) ==> match state.outbound[c_fd].res_id {
                Some(c_id) => !state.remotes.contains_key(c_id),
                None => true,
            },
        forall|c_fd: RawFd, d_fd: RawFd|
            #![trigger state.outbound.contains_key(c_fd), state.outbound.contains_key(d_fd)]
            state.outbound.contains_key(c_fd) && state.outbound.contains_key(d_fd) && c_fd != d_fd
                && state.outbound[c_fd].res_id is Some ==> state.outbound[c_fd].res_id
                != state.outbound[d_fd].res_id,
    ensures
        forall|c_id: ResourceId, c_side: Direction| #[trigger]
            links.contains((c_id, c_side)) <==> rivalling(
                state,
                fd,
                res_id,
                remote_id,
                c_id,
                c_side,
            ),
        forall|i: int, j: int|
            0 <= i < j < links.len() ==> (#[trigger] links[i]).0 != (#[trigger] links[j]).0,
        forall|i: int, j: int|
            0 <= i < j < links.len() && state.remotes.contains_key((#[trigger] links[j]).0)
                ==> state.remotes.contains_key((#[trigger] links[i]).0),
        after.actions.len() == state.actions.len() + links.len(),
        forall|i: int|
            0 <= i < links.len() ==> after.actions[state.actions.len() + i] == Action::<
                P::Listener,
                P::Transport,
            >::UnregisterTransport((#[trigger] links[i]).0),
        calls.len() == links.len() + 1,
        forall|i: int|
            0 <= i < links.len() ==> calls[i] == (Callback::<P>::Disconnected {
                remote_id,
                direction: (#[trigger] links[i]).1,
                reason: DisconnectReason::Conflict,
            }),
        calls.last() is Established,
{
    let (links, gone, stored) = lemma_settled(
        state,
        fd,
        res_id,
        remote_id,
        time,
        after,
        calls,
        addr,
        side,
    );
    law_session_is_established(state, fd, res_id, remote_id, time, after, calls, addr, side);
    let claimed = state.claimed(fd, remote_id);
    let closed = closings(
        above(state.local_id, remote_id),
        res_id,
        side,
        links,
    );
    assert forall|i: int| 0 <= i < links.len() implies rivalling(
        state,
        fd,
        res_id,
        remote_id,
        (#[trigger] links[i]).0,
        links[i].1,
    ) && closed[i] == links[i].0 by {
        let (c_id, c_side) = links[i];
        assert(links.contains((c_id, c_side)));
    }
    assert(!closed.contains(res_id)) by {
        if closed.contains(res_id) {
            let i = choose|i: int| 0 <= i < closed.len() && closed[i] == res_id;
            assert(links[i].0 == res_id);
        }
    }
    let (sessions, attempts) = choose|sessions: Seq<ResourceId>, attempts: Seq<RawFd>| #[trigger]
        claimed.conflicts_by(fd, res_id, remote_id, links, sessions, attempts);
    let split = sessions.len() as int;
    assert forall|i: int| 0 <= i < split implies {
        &&& (#[trigger] links[i]).0 == sessions[i]
        &&& claimed.rivals(sessions[i], res_id, remote_id)
        &&& links[i].1 == claimed.remotes[sessions[i]].side()
    } by {
        assert(links[i] == claimed.session_links(sessions)[i]);
        assert(sessions.contains(sessions[i]));
    }
    assert forall|i: int| split <= i < links.len() implies {
        &&& claimed.rival_attempts(attempts[i - split], fd, remote_id)
        &&& claimed.outbound[attempts[i - split]].res_id == Some((#[trigger] links[i]).0)
        &&& links[i].1 == Direction::Outbound
        &&& !claimed.remotes.contains_key(links[i].0)
    } by {
        assert(links[i] == claimed.attempt_links(attempts)[i - split]);
        assert(attempts.contains(attempts[i - split]));
        assert(state.outbound.contains_key(attempts[i - split]));
    }
    assert forall|i: int, j: int| 0 <= i < j < links.len() implies (#[trigger] links[i]).0 != (
    #[trigger] links[j]).0 by {
        if j < split {
            assert(sessions[i] != sessions[j]);
        } else if i >= split {
            assert(attempts[i - split] != attempts[j - split]);
            assert(attempts.contains(attempts[i - split]));
            assert(attempts.contains(attempts[j - split]));
            assert(state.outbound.contains_key(attempts[i - split]));
            assert(state.outbound.contains_key(attempts[j - split]));
        }
    }
    assert forall|i: int|
        0 <= i < closed.len() && claimed.remotes.contains_key(#[trigger] closed[i]) implies {
        &&& claimed.remotes[closed[i]] is Connected
        &&& forall|j: int| 0 <= j < i ==> #[trigger] closed[j] != closed[i]
    } by {
        assert(closed[i] == links[i].0);
        assert forall|j: int| 0 <= j < i implies #[trigger] closed[j] != closed[i] by {
            assert(closed[j] == links[j].0);
        }
    }
    assert forall|i: int, j: int|
        0 <= i < j < links.len() && state.remotes.contains_key(
            (#[trigger] links[j]).0,
        ) implies state.remotes.contains_key((#[trigger] links[i]).0) by {
        if i >= split {
            assert(!claimed.remotes.contains_key(links[j].0));
        }
    }
    law_asked_for_each(claimed, closed);
    assert forall|i: int| 0 <= i < links.len() implies after.actions[state.actions.len() + i]
        == Action::<P::Listener, P::Transport>::UnregisterTransport((#[trigger] links[i]).0) by {
        assert(closed[i] == links[i].0);
    }
    assert forall|i: int| 0 <= i < gone.len() implies #[trigger] gone[i] == Some(
        (remote_id, links[i].1),
    ) by {
        let shut = claimed.all_closed(closed.take(i));
        assert(links[i].0 == closed[i]);
        law_closed_for_another(claimed, closed.take(i), closed[i]);
        assert(shut.answers(closed[i], gone[i]));
        if i < split {
            assert(claimed.rivals(sessions[i], res_id, remote_id));
        } else {
            let c_fd = attempts[i - split];
            assert(shut.attempts(c_fd, closed[i]));
            if let Some((node, told)) = gone[i] {
                let d_fd = choose|d_fd: RawFd| #[trigger]
                    shut.attempts(d_fd, closed[i]) && shut.outbound[d_fd].remote_id == node;
                assert(state.outbound.contains_key(c_fd) && state.outbound.contains_key(d_fd));
                assert(c_fd == d_fd);
            }
        }
    }
    lemma_all_noticed::<P>(gone, remote_id, links);
    links
}

/// Where every closed connection has its node, the controller is told of each, in order.
proof fn lemma_all_noticed<P: ServiceTypes>(
    gone: Seq<Gone<P::NodeId>>,
    remote_id: P::NodeId,
    links: Seq<(ResourceId, Direction)>,
)
    requires
        gone.len() == links.len(),
        forall|i: int|
            0 <= i < gone.len() ==> #[trigger] gone[i] == Some((remote_id, links[i].1)),
    ensures
        ({
            let told = notices::<P>(gone);
            &&& told.len() == links.len()
            &&& forall|i: int|
                0 <= i < links.len() ==> told[i] == (Callback::<P>::Disconnected {
                    remote_id,
                    direction: (#[trigger] links[i]).1,
                    reason: DisconnectReason::Conflict,
                })
        }),
    decreases gone.len(),
{
    if gone.len() > 0 {
        let fewer = gone.drop_last();
        assert forall|i: int| 0 <= i < fewer.len() implies #[trigger] fewer[i] == Some(
            (remote_id, links.drop_last()[i].1),
        ) by {
            assert(fewer[i] == gone[i]);
        }
        lemma_all_noticed::<P>(fewer, remote_id, links.drop_last());
        assert(gone.last() == gone[gone.len() - 1]);
        assert forall|i: int| 0 <= i < links.len() implies notices::<P>(
            gone,
        )[i] == (Callback::<P>::Disconnected {
            remote_id,
            direction: (#[trigger] links[i]).1,
            reason: DisconnectReason::Conflict,
        }) by {
            if i < links.len() - 1 {
                assert(links.drop_last()[i] == links[i]);
            }
        }
    }
}

/// A connection against which a new session with the same node stays is closed: the reactor is
/// asked for it and the controller hears of it, whether or not the new session stays against the
/// others too.
pub proof fn law_beaten_connection_is_closed<P: ServiceTypes>(
    state: ServiceState<P>,
    fd: RawFd,
    res_id: ResourceId,
    remote_id: P::NodeId,
    time: P::Timestamp,
    after: ServiceState<P>,
    calls: Seq<Callback<P>>,
    addr: P::Addr,
    side: Direction,
    c_id: ResourceId,
    c_side: Direction,
)
    requires
        remote_id != state.local_id,
        waiting(state, fd, addr, side),
        state.handles(fd, res_id, SessionEvent::Established(Some(remote_id)), time, after, calls),
        rivalling(state, fd, res_id, remote_id, c_id, c_side),
        c_id != res_id,
        stays_over(state.local_id, remote_id, res_id, side, c_id, c_side),
        state.remotes.contains_key(c_id) ==> (state.remotes[c_id] matches RemoteView::Connected {
            remote_id: node,
            direction,
            ..
        } && node == remote_id && direction == c_side),
        forall|c_fd: RawFd| #[trigger]
            state.outbound.contains_key(c_fd) && state.outbound[c_fd].res_id == Some(c_id)
                ==> state.outbound[c_fd].remote_id == remote_id,
    ensures
        after.actions.skip(state.actions.len() as int).contains(Action::UnregisterTransport(c_id)),
        calls.contains(
            Callback::Disconnected {
                remote_id,
                direction: c_side,
                reason: DisconnectReason::Conflict,
            },
        ),
{
    let (conflicting, gone, stored) = lemma_settled(
        state,
        fd,
        res_id,
        remote_id,
        time,
        after,
        calls,
        addr,
        side,
    );
    let claimed = state.claimed(fd, remote_id);
    let closed = closings(above(state.local_id, remote_id), res_id, side, conflicting);
    assert(conflicting.contains((c_id, c_side)));
    let i = choose|i: int| 0 <= i < conflicting.len() && conflicting[i] == (c_id, c_side);
    assert(closed[i] == c_id);
    assert(closed.contains(c_id));
    lemma_asked(claimed, closed, c_id);
    let shut = claimed.all_closed(closed.take(i));
    law_closed_for_another(claimed, closed.take(i), c_id);
    assert(shut.answers(closed[i], gone[i]));
    if !state.remotes.contains_key(c_id) {
        let c_fd = choose|c_fd: RawFd|
            {
                &&& #[trigger] state.outbound.contains_key(c_fd)
                &&& c_fd != fd
                &&& state.outbound[c_fd].remote_id == remote_id
                &&& state.outbound[c_fd].res_id == Some(c_id)
            };
        assert(shut.attempts(c_fd, c_id));
        if let Some((node, told)) = gone[i] {
            let d_fd = choose|d_fd: RawFd| #[trigger]
                shut.attempts(d_fd, c_id) && shut.outbound[d_fd].remote_id == node;
            assert(state.outbound.contains_key(d_fd));
        }
    }
    assert(gone[i] == Some((remote_id, c_side)));
    lemma_noticed::<P>(gone, i);
    let told = notices::<P>(gone);
    let gone_call = Callback::<P>::Disconnected {
        remote_id,
        direction: c_side,
        reason: DisconnectReason::Conflict,
    };
    let k = choose|k: int| 0 <= k < told.len() && told[k] == gone_call;
    assert(calls[k] == gone_call);
}

/// A session that is reported as established is reported as disconnected with the same node and
/// side: when its transport drops out of the poll, and when it is handed over after it was
/// disconnected for any reason.
pub proof fn law_goes_as_it_came<P: ServiceTypes>(
    state: ServiceState<P>,
    fd: RawFd,
    res_id: ResourceId,
    told: Option<P::NodeId>,
    time: P::Timestamp,
    after: ServiceState<P>,
    calls: Seq<Callback<P>>,
    i: int,
    reason: DisconnectReason<P>,
    any_fd: RawFd,
)
    requires
        told is Some,
        state.handles(fd, res_id, SessionEvent::Established(told), time, after, calls),
        0 <= i < calls.len(),
        calls[i] is Established,
    ensures
        ({
            let remote_id = calls[i]->Established_remote_id;
            let direction = calls[i]->Established_direction;
            &&& told == Some(remote_id)
            &&& after.drop_notice(res_id, any_fd) == Some(
                Callback::<P>::Disconnected {
                    remote_id,
                    direction,
                    reason: DisconnectReason::Connection(None),
                },
            )
            &&& after.disconnected(res_id, reason).handover_notice(res_id, any_fd) == Some(
                Callback::<P>::Disconnected { remote_id, direction, reason },
            )
            &&& after.disconnected(res_id, reason).drop_notice(res_id, any_fd) == Some(
                Callback::<P>::Disconnected {
                    remote_id,
                    direction,
                    reason: DisconnectReason::Connection(None),
                },
            )
        }),
{
    law_established_is_the_only_one(state, fd, res_id, told->0, time, after, calls, i);
    let (conflicting, gone, stored) = choose|
        conflicting: Seq<(ResourceId, Direction)>,
        gone: Seq<Gone<P::NodeId>>,
        stored: P::Addr,
    | #[trigger]
        state.establishes(
            fd,
            res_id,
            told->0,
            time,
            conflicting,
            gone,
            stored,
            after,
            calls,
        );
    if i < notices::<P>(gone).len() {
        lemma_only_notices::<P>(gone, i);
    }
}

/// When a transport drops out of the poll, its remote is forgotten and nothing else, and the
/// controller hears that the node is gone, on the side that opened the connection, where the node
/// is known. A connection without a session is forgotten: of an accepted one the controller hears
/// nothing, and of an attempt of ours that it failed.
pub proof fn law_dropped_transport<P: ServiceTypes>(
    state: ServiceState<P>,
    id: ResourceId,
    fd: RawFd,
)
    ensures
        ({
            let after = state.released(id, fd);
            let call = state.drop_notice(id, fd);
            &&& after.local_id == state.local_id
            &&& after.listening == state.listening
            &&& after.bound == state.bound
            &&& after.metrics == state.metrics
            &&& after.actions == state.actions
            &&& after.remotes =~= state.remotes.remove(id)
            &&& if state.remotes.contains_key(id) {
                &&& after.inbound == state.inbound
                &&& after.outbound == state.outbound
                &&& match state.remotes[id] {
                    RemoteView::Connected { remote_id, direction, .. } => call == Some(
                        Callback::<P>::Disconnected {
                            remote_id,
                            direction,
                            reason: DisconnectReason::Connection(None),
                        },
                    ),
                    RemoteView::Disconnecting { remote_id: Some(remote_id), direction, .. } => call
                        == Some(
                        Callback::<P>::Disconnected {
                            remote_id,
                            direction,
                            reason: DisconnectReason::Connection(None),
                        },
                    ),
                    RemoteView::Disconnecting { remote_id: None, .. } => call is None,
                }
            } else {
                &&& after.inbound =~= state.inbound.remove(fd)
                &&& state.inbound.contains_key(fd) ==> after.outbound == state.outbound
                    && call is None
                &&& !state.inbound.contains_key(fd) ==> after.outbound =~= state.outbound.remove(fd)
                &&& !state.inbound.contains_key(fd) && state.outbound.contains_key(fd) ==> call
                    == Some(
                    Callback::<P>::Disconnected {
                        remote_id: state.outbound[fd].remote_id,
                        direction: Direction::Outbound,
                        reason: DisconnectReason::Connection(None),
                    },
                )
                &&& !state.inbound.contains_key(fd) && !state.outbound.contains_key(fd)
                    ==> call is None
            }
        }),
{
    let after = state.released(id, fd);
    assert(after.remotes =~= state.remotes.remove(id));
    if !state.remotes.contains_key(id) {
        assert(after.inbound =~= state.inbound.remove(fd));
    }
}

/// What the controller hears when a transport is handed over is the reason for which its remote
/// was disconnected, where the node is known. A connection without a session is reported as one
/// that dropped out of the poll, and forgotten in the same way.
pub proof fn law_handed_over_transport<P: ServiceTypes>(
    state: ServiceState<P>,
    id: ResourceId,
    fd: RawFd,
)
    ensures
        ({
            let call = state.handover_notice(id, fd);
            if state.remotes.contains_key(id) {
                state.remotes[id] matches RemoteView::Disconnecting { remote_id, direction, reason }
                    ==> match remote_id {
                    Some(remote_id) => call == Some(
                        Callback::<P>::Disconnected { remote_id, direction, reason },
                    ),
                    None => call is None,
                }
            } else if !state.inbound.contains_key(fd) && state.outbound.contains_key(fd) {
                call == Some(
                    Callback::<P>::Disconnected {
                        remote_id: state.outbound[fd].remote_id,
                        direction: Direction::Outbound,
                        reason: DisconnectReason::Connection(None),
                    },
                )
            } else {
                call is None
            }
        }),
{
}

/// Forgetting a connection without a session touches nothing but that connection. The controller
/// hears of an attempt of ours alone.
pub proof fn law_forgotten_connection<P: ServiceTypes>(state: ServiceState<P>, fd: RawFd)
    ensures
        ({
            let after = state.cleaned(fd);
            let call = state.cleanup_notice(fd);
            &&& after.local_id == state.local_id
            &&& after.listening == state.listening
            &&& after.bound == state.bound
            &&& after.remotes == state.remotes
            &&& after.metrics == state.metrics
            &&& after.actions == state.actions
            &&& after.inbound =~= state.inbound.remove(fd)
            &&& state.inbound.contains_key(fd) ==> after.outbound == state.outbound && call is None
            &&& !state.inbound.contains_key(fd) ==> after.outbound =~= state.outbound.remove(fd)
            &&& !state.inbound.contains_key(fd) && !state.outbound.contains_key(fd) ==> call is None
            &&& !state.inbound.contains_key(fd) && state.outbound.contains_key(fd) ==> call == Some(
                Callback::<P>::Disconnected {
                    remote_id: state.outbound[fd].remote_id,
                    direction: Direction::Outbound,
                    reason: DisconnectReason::Connection(None),
                },
            )
        }),
{
    assert(state.cleaned(fd).inbound =~= state.inbound.remove(fd));
}

/// A transport that becomes part of the poll gets its resource into the attempt of ours or the
/// accepted connection behind its descriptor, which is otherwise as before. A listener moves, with
/// its address, to those that are part of the poll. Nothing else changes.
pub proof fn law_registration<P: ServiceTypes>(
    state: ServiceState<P>,
    fd: RawFd,
    id: ResourceId,
    ty: ResourceType,
)
    requires
        ty is Listener ==> state.listening.contains_key(fd),
    ensures
        ({
            let after = state.registered(fd, id, ty);
            &&& after.local_id == state.local_id
            &&& after.remotes == state.remotes
            &&& after.metrics == state.metrics
            &&& after.actions == state.actions
            &&& after.inbound.remove(fd) =~= state.inbound.remove(fd)
            &&& after.outbound.remove(fd) =~= state.outbound.remove(fd)
            &&& after.inbound.contains_key(fd) <==> state.inbound.contains_key(fd)
            &&& after.outbound.contains_key(fd) <==> state.outbound.contains_key(fd)
            &&& state.inbound.contains_key(fd) ==> after.inbound[fd].addr == state.inbound[fd].addr
            &&& state.outbound.contains_key(fd) ==> after.outbound[fd].addr
                == state.outbound[fd].addr && after.outbound[fd].remote_id
                == state.outbound[fd].remote_id
            &&& match ty {
                ResourceType::Listener => {
                    &&& after.inbound =~= state.inbound
                    &&& after.outbound =~= state.outbound
                    &&& after.listening =~= state.listening.remove(fd)
                    &&& after.bound.remove(fd) =~= state.bound.remove(fd)
                    &&& after.bound.contains_key(fd)
                    &&& after.bound[fd] == state.listening[fd]
                },
                ResourceType::Transport => {
                    &&& after.listening == state.listening
                    &&& after.bound == state.bound
                    &&& state.outbound.contains_key(fd) ==> after.outbound[fd].res_id == Some(id)
                        && after.inbound =~= state.inbound
                    &&& !state.outbound.contains_key(fd) && state.inbound.contains_key(fd)
                        ==> after.inbound[fd].res_id == Some(id)
                },
            }
        }),
{
    let after = state.registered(fd, id, ty);
    assert(after.inbound.remove(fd) =~= state.inbound.remove(fd));
    assert(after.outbound.remove(fd) =~= state.outbound.remove(fd));
}

/// A connection that is taken in waits for its session under its descriptor, with its address and
/// no resource yet, beside all others. The reactor is asked to poll its transport, after
/// everything else.
pub proof fn law_taken_in<P: ServiceTypes>(
    state: ServiceState<P>,
    fd: RawFd,
    addr: P::Addr,
    transport: P::Transport,
    other: RawFd,
)
    ensures
        ({
            let after = state.accepting(fd, addr, transport);
            &&& after.local_id == state.local_id
            &&& after.listening == state.listening
            &&& after.bound == state.bound
            &&& after.outbound == state.outbound
            &&& after.remotes == state.remotes
            &&& after.metrics == state.metrics
            &&& after.actions == state.actions.push(Action::RegisterTransport(transport))
            &&& after.inbound.contains_key(fd)
            &&& after.inbound[fd].addr == addr
            &&& after.inbound[fd].res_id is None
            &&& other != fd ==> {
                &&& after.inbound.contains_key(other) <==> state.inbound.contains_key(other)
                &&& state.inbound.contains_key(other) ==> after.inbound[other]
                    == state.inbound[other]
            }
        }),
{
}

/// About an accepted connection with a known address the controller is asked; one that it wants
/// gets a session; a session gets a transport as one that the remote opened; and one with a
/// transport is taken in. On any other answer the connection is dropped. The descriptor and
/// address that are asked about are those that were answered, and the time is that of the event.
pub proof fn law_questions_about_a_connection<P: ServiceTypes>(
    state: ServiceState<P>,
    listener_fd: RawFd,
    fd: RawFd,
    remote: P::Addr,
    transport: P::Transport,
    error: P::Error,
    time: P::Timestamp,
)
    ensures
        listener_step(
            state,
            listener_fd,
            ListenerEvent::Accepted { fd, remote: Some(remote) },
            time,
        ) == (ListenerAction::<P>::Consult { fd, remote, time }),
        listener_step(state, listener_fd, ListenerEvent::Accepted { fd, remote: None }, time)
            is Drop,
        listener_step(
            state,
            listener_fd,
            ListenerEvent::Consulted { fd, remote, accept: true },
            time,
        ) == (ListenerAction::<P>::EstablishSession { fd, remote, time }),
        listener_step(
            state,
            listener_fd,
            ListenerEvent::Consulted { fd, remote, accept: false },
            time,
        ) is Drop,
        listener_step(
            state,
            listener_fd,
            ListenerEvent::SessionReady { fd, remote, ready: true },
            time,
        ) == (ListenerAction::<P>::CreateTransport { fd, remote, direction: Direction::Inbound }),
        listener_step(
            state,
            listener_fd,
            ListenerEvent::SessionReady { fd, remote, ready: false },
            time,
        ) is Drop,
        listener_step(
            state,
            listener_fd,
            ListenerEvent::TransportReady { fd, remote, transport: Some(transport) },
            time,
        ) is Registering,
        listener_step(
            state,
            listener_fd,
            ListenerEvent::TransportReady { fd, remote, transport: None },
            time,
        ) is Drop,
        state.listening.contains_key(listener_fd) ==> listener_step(
            state,
            listener_fd,
            ListenerEvent::Failure { error },
            time,
        ) == ListenerAction::<P>::Report(
            Callback::AcceptFailure { socket: state.listening[listener_fd], error, time },
        ),
        !state.listening.contains_key(listener_fd) && state.bound.contains_key(listener_fd)
            ==> listener_step(state, listener_fd, ListenerEvent::Failure { error }, time)
            == ListenerAction::<P>::Report(
            Callback::AcceptFailure { socket: state.bound[listener_fd], error, time },
        ),
        state.has_listener(listener_fd) <==> state.listening.contains_key(listener_fd)
            || state.bound.contains_key(listener_fd),
{
}

/// Bytes over a transport without a session in use change nothing.
pub proof fn law_data_without_session<P: ServiceTypes>(
    state: ServiceState<P>,
    fd: RawFd,
    res_id: ResourceId,
    data: Vec<u8>,
    time: P::Timestamp,
    after: ServiceState<P>,
    calls: Seq<Callback<P>>,
)
    requires
        state.remotes.contains_key(res_id) ==> state.remotes[res_id] is Disconnecting,
        state.handles(fd, res_id, SessionEvent::Data(data), time, after, calls),
    ensures
        after == state,
        calls.len() == 0,
{
}

/// Bytes over a session in use are all counted as received from its node, whatever they are, and
/// nothing else is counted. No other remote, connection or listener is touched.
pub proof fn law_data_is_counted<P: ServiceTypes>(
    state: ServiceState<P>,
    fd: RawFd,
    res_id: ResourceId,
    data: Vec<u8>,
    time: P::Timestamp,
    after: ServiceState<P>,
    calls: Seq<Callback<P>>,
    remote_id: P::NodeId,
    node: P::NodeId,
)
    requires
        state.remotes.contains_key(res_id),
        state.remotes[res_id] matches RemoteView::Connected { remote_id: n, .. } && n == remote_id,
        tally(state.metrics, remote_id).bytes_received + data@.len() <= usize::MAX,
        state.handles(fd, res_id, SessionEvent::Data(data), time, after, calls),
    ensures
        after.local_id == state.local_id,
        after.listening == state.listening,
        after.bound == state.bound,
        after.inbound == state.inbound,
        after.outbound == state.outbound,
        after.remotes.remove(res_id) =~= state.remotes.remove(res_id),
        after.remotes.contains_key(res_id),
        ({
            let was = tally(state.metrics, node);
            let is = tally(after.metrics, node);
            let more: int = if node == remote_id {
                data@.len() as int
            } else {
                0
            };
            &&& is.bytes_received == was.bytes_received + more
            &&& is.bytes_sent == was.bytes_sent
            &&& is.messages_sent == was.messages_sent
            &&& is.messages_received == was.messages_received
            &&& is.inbound_connection_attempts == was.inbound_connection_attempts
            &&& is.outbound_connection_attempts == was.outbound_connection_attempts
            &&& is.disconnects == was.disconnects
        }),
{
    assert(after.remotes.remove(res_id) =~= state.remotes.remove(res_id));
}

/// The bytes of a session in use, those of before and the new ones behind them, are read frame by
/// frame, each from where the last one ended, and each frame is handed to the controller, until
/// what is left is no whole frame. That is kept, with all else that is known of the remote, and
/// nothing is asked of the reactor. Where it is no frame at all, the controller hears of the error,
/// the remote is disconnected for the same error, and the reactor is asked for the transport.
///
/// What is left before and after each frame is returned.
pub proof fn law_data_is_read<P: ServiceTypes>(
    state: ServiceState<P>,
    fd: RawFd,
    res_id: ResourceId,
    data: Vec<u8>,
    time: P::Timestamp,
    after: ServiceState<P>,
    calls: Seq<Callback<P>>,
    remote_id: P::NodeId,
    addr: P::Addr,
    direction: Direction,
    received: Seq<u8>,
    sendable: Seq<u8>,
) -> (rests: Seq<Seq<u8>>)
    requires
        state.remotes.contains_key(res_id),
        state.remotes[res_id] == (RemoteView::<P>::Connected {
            remote_id,
            addr,
            direction,
            received,
            sendable,
        }),
        received.len() + data@.len() <= usize::MAX,
        state.handles(fd, res_id, SessionEvent::Data(data), time, after, calls),
    ensures
        rests.len() > 0,
        rests[0] == received + data@,
        rests.len() - 1 <= calls.len() <= rests.len(),
        forall|i: int|
            0 <= i < rests.len() - 1 ==> {
                &&& #[trigger] calls[i] matches Callback::Frame { res_id: id, frame }
                &&& id == res_id
                &&& rests[i + 1].len() <= rests[i].len()
                &&& rests[i + 1] == rests[i].skip(rests[i].len() - rests[i + 1].len())
                &&& <P::InFrame as Frame>::reads(
                    rests[i],
                    Ok(Some(frame)),
                    (rests[i].len() - rests[i + 1].len()) as nat,
                )
            },
        calls.len() == rests.len() - 1 ==> {
            &&& <P::InFrame as Frame>::reads(rests.last(), Ok(None), 0)
            &&& after.remotes[res_id] == (RemoteView::<P>::Connected {
                remote_id,
                addr,
                direction,
                received: rests.last(),
                sendable,
            })
            &&& after.actions == state.actions
        },
        calls.len() == rests.len() ==> {
            &&& calls.last() matches Callback::FrameUnparsable { res_id: id, error }
            &&& id == res_id
            &&& exists|taken: nat| #[trigger]
                <P::InFrame as Frame>::reads(rests.last(), Err(*error), taken)
            &&& after.remotes[res_id] == (RemoteView::<P>::Disconnecting {
                remote_id: Some(remote_id),
                direction,
                reason: DisconnectReason::Framing(FramingError::Unparsable(error)),
            })
            &&& after.actions == state.actions.push(Action::UnregisterTransport(res_id))
        },
{
    let counted = state.counting(remote_id, data@.len());
    let buffered = counted.with_received(res_id, received + data@);
    let (rests, frames, failure) = choose|
        rests: Seq<Seq<u8>>,
        frames: Seq<P::InFrame>,
        failure: Option<Arc<<P::InFrame as Frame>::Error>>,
    | #[trigger]
        buffered.frames(res_id, rests, frames, failure, after, calls);
    assert forall|i: int| 0 <= i < rests.len() - 1 implies {
        &&& #[trigger] calls[i] matches Callback::Frame { res_id: id, frame }
        &&& id == res_id
        &&& rests[i + 1].len() <= rests[i].len()
        &&& rests[i + 1] == rests[i].skip(rests[i].len() - rests[i + 1].len())
        &&& <P::InFrame as Frame>::reads(
            rests[i],
            Ok(Some(frame)),
            (rests[i].len() - rests[i + 1].len()) as nat,
        )
    } by {
        assert(pops(rests[i], Ok(Some(frames[i])), rests[i + 1]));
    }
    rests
}

/// Bytes that the queue of a session cannot hold end the session: nothing is told to the
/// controller yet, and the reactor is asked for the transport.
pub proof fn law_data_without_room<P: ServiceTypes>(
    state: ServiceState<P>,
    fd: RawFd,
    res_id: ResourceId,
    data: Vec<u8>,
    time: P::Timestamp,
    after: ServiceState<P>,
    calls: Seq<Callback<P>>,
)
    requires
        state.remotes.contains_key(res_id),
        state.remotes[res_id] is Connected,
        state.remotes[res_id]->received.len() + data@.len() > usize::MAX,
        state.handles(fd, res_id, SessionEvent::Data(data), time, after, calls),
    ensures
        calls.len() == 0,
        after.actions == state.actions.push(Action::UnregisterTransport(res_id)),
        after.remotes.contains_key(res_id),
        after.remotes[res_id] == (RemoteView::<P>::Disconnecting {
            remote_id: Some(state.remotes[res_id]->Connected_remote_id),
            direction: state.remotes[res_id]->Connected_direction,
            reason: DisconnectReason::Framing(FramingError::NoRoom),
        }),
{
}

/// The end of a session is told to nobody yet. A remote in use is kept with the error until its
/// transport, for which the reactor is asked, is handed over.
pub proof fn law_session_ends<P: ServiceTypes>(
    state: ServiceState<P>,
    fd: RawFd,
    res_id: ResourceId,
    error: P::Error,
    time: P::Timestamp,
    after: ServiceState<P>,
    calls: Seq<Callback<P>>,
)
    requires
        state.handles(fd, res_id, SessionEvent::Terminated(error), time, after, calls),
    ensures
        calls.len() == 0,
        after.local_id == state.local_id,
        after.listening == state.listening,
        after.bound == state.bound,
        after.inbound == state.inbound,
        after.outbound == state.outbound,
        after.metrics == state.metrics,
        after.remotes.remove(res_id) =~= state.remotes.remove(res_id),
        after.remotes.contains_key(res_id) <==> state.remotes.contains_key(res_id),
        state.remotes.contains_key(res_id) && state.remotes[res_id] is Disconnecting ==> after
            == state,
        !(state.remotes.contains_key(res_id) && state.remotes[res_id] is Disconnecting)
            ==> after.actions == state.actions.push(Action::UnregisterTransport(res_id)),
        state.remotes.contains_key(res_id) ==> (state.remotes[res_id] matches RemoteView::Connected {
            remote_id,
            direction,
            ..
        } ==> after.remotes[res_id] == (RemoteView::<P>::Disconnecting {
            remote_id: Some(remote_id),
            direction,
            reason: DisconnectReason::Connection(Some(error)),
        })),
{
    assert(after.remotes.remove(res_id) =~= state.remotes.remove(res_id));
}

/// A session can be taken in unless the counter of an accepted connection is full or an attempt of
/// ours ended at another node, and bytes unless the counter of their node is full.
pub proof fn law_what_can_be_taken<P: ServiceTypes>(
    state: ServiceState<P>,
    fd: RawFd,
    res_id: ResourceId,
    remote_id: P::NodeId,
    count: nat,
)
    ensures
        state.inbound.contains_key(fd) && tally(state.metrics, remote_id).inbound_connection_attempts
            < usize::MAX ==> state.can_establish(fd, remote_id),
        !state.inbound.contains_key(fd) && state.outbound.contains_key(fd)
            && state.outbound[fd].remote_id == remote_id ==> state.can_establish(fd, remote_id),
        !state.inbound.contains_key(fd) && !state.outbound.contains_key(fd) ==> state.can_establish(
            fd,
            remote_id,
        ),
        remote_id == state.local_id ==> state.can_establish(fd, remote_id),
        !state.remotes.contains_key(res_id) ==> state.can_count(res_id, count),
        state.remotes.contains_key(res_id) && state.remotes[res_id] is Disconnecting
            ==> state.can_count(res_id, count),
        state.remotes.contains_key(res_id) && (state.remotes[res_id] matches RemoteView::Connected {
            remote_id: node,
            ..
        } && tally(state.metrics, node).bytes_received + count <= usize::MAX) ==> state.can_count(
            res_id,
            count,
        ),
{
}

/// A list of the connected remotes names each of them, with its node and side, and no other.
pub proof fn law_active_remotes_are_listed<P: ServiceTypes>(
    remotes: Map<ResourceId, RemoteView<P>>,
    list: Seq<(ResourceId, P::NodeId, Direction)>,
)
    requires
        lists_active(remotes, list),
    ensures
        forall|id: ResourceId| #[trigger]
            remotes.contains_key(id) ==> (remotes[id] matches RemoteView::Connected {
                remote_id,
                direction,
                ..
            } ==> list.contains((id, remote_id, direction))),
        forall|i: int|
            0 <= i < list.len() ==> {
                &&& remotes.contains_key((#[trigger] list[i]).0)
                &&& remotes[list[i].0] matches RemoteView::Connected { remote_id, direction, .. }
                &&& remote_id == list[i].1
                &&& direction == list[i].2
            },
        list.no_duplicates(),
{
    assert forall|id: ResourceId| #[trigger] remotes.contains_key(id) implies (
    remotes[id] matches RemoteView::Connected { remote_id, direction, .. } ==> list.contains(
        (id, remote_id, direction),
    )) by {
        if remotes[id] is Connected {
            let i = choose|i: int| 0 <= i < list.len() && (#[trigger] list[i]).0 == id;
            assert(list[i] == (id, remotes[id]->Connected_remote_id, remotes[id]->Connected_direction));
        }
    }
}

/// An accepted connection waits under its descriptor, with its address, until its session is
/// taken in or its transport is out of the poll. No other call changes that, and none but its
/// registration changes its resource.
pub proof fn law_accepted_connection_waits<P: ServiceTypes>(
    before: ServiceState<P>,
    call: Call<P>,
    after: ServiceState<P>,
    fd: RawFd,
)
    requires
        call.leads(before, after),
        before.inbound.contains_key(fd),
        match call {
            Call::Transport { fd: over, event, .. } => over != fd || !(event is Established),
            Call::Released { fd: over, .. } => over != fd,
            Call::Cleanup { fd: over } => over != fd,
            Call::Accepting { fd: over, .. } => over != fd,
            _ => true,
        },
    ensures
        after.inbound.contains_key(fd),
        after.inbound[fd].addr == before.inbound[fd].addr,
        !(call is Registered) ==> after.inbound[fd] == before.inbound[fd],
{
    lemma_waiting_kept(before, call, after);
}

/// An attempt of ours to connect stays, with its address and the node that it is meant for, until
/// its session is taken in or its transport is out of the poll.
pub proof fn law_attempt_waits<P: ServiceTypes>(
    before: ServiceState<P>,
    call: Call<P>,
    after: ServiceState<P>,
    fd: RawFd,
)
    requires
        call.leads(before, after),
        before.outbound.contains_key(fd),
        match call {
            Call::Transport { fd: over, event, .. } => over != fd || !(event is Established),
            Call::Released { fd: over, .. } => over != fd,
            Call::Cleanup { fd: over } => over != fd,
            _ => true,
        },
    ensures
        after.outbound.contains_key(fd),
        after.outbound[fd].addr == before.outbound[fd].addr,
        after.outbound[fd].remote_id == before.outbound[fd].remote_id,
        !(call is Registered) ==> after.outbound[fd] == before.outbound[fd],
{
    lemma_waiting_kept(before, call, after);
}

/// What calls on transports do to the connections without a session.
proof fn lemma_waiting_kept<P: ServiceTypes>(
    before: ServiceState<P>,
    call: Call<P>,
    after: ServiceState<P>,
)
    requires
        call.leads(before, after),
    ensures
        call matches Call::CloseConflicting { .. } ==> after.inbound == before.inbound
            && after.outbound == before.outbound && after.metrics == before.metrics
            && after.local_id == before.local_id && after.listening == before.listening
            && after.bound == before.bound && before.actions.is_prefix_of(after.actions),
        call matches Call::Transport { fd, event, .. } ==> {
            &&& after.inbound == before.inbound || (event is Established && after.inbound
                == before.inbound.remove(fd))
            &&& after.outbound == before.outbound || (event is Established && after.outbound
                == before.outbound.remove(fd))
            &&& before.actions.is_prefix_of(after.actions)
        },
        call is Framed ==> before.actions.is_prefix_of(after.actions) && after.inbound
            == before.inbound && after.outbound == before.outbound,
{
    match call {
        Call::CloseConflicting { ids } => {
            lemma_all_closed(before, ids);
            lemma_actions_grow(before, ids);
        },
        Call::Transport { fd, res_id, event, time, calls } => {
            match event {
                SessionEvent::Established(remote_id) => {
                    if remote_id->0 != before.local_id && before.claim(fd) is Some {
                        let (conflicting, gone, stored) = choose|
                            conflicting: Seq<(ResourceId, Direction)>,
                            gone: Seq<Gone<P::NodeId>>,
                            stored: P::Addr,
                        | #[trigger]
                            before.establishes(
                                fd,
                                res_id,
                                remote_id->0,
                                time,
                                conflicting,
                                gone,
                                stored,
                                after,
                                calls,
                            );
                        let claimed = before.claimed(fd, remote_id->0);
                        let closed = closings(
                            above(before.local_id, remote_id->0),
                            res_id,
                            (before.claim(fd)->0).1,
                            conflicting,
                        );
                        lemma_all_closed(claimed, closed);
                        lemma_actions_grow(claimed, closed);
                    } else {
                        assert(before.actions =~= after.actions.take(before.actions.len() as int));
                    }
                },
                _ => {
                    assert(before.actions =~= after.actions.take(before.actions.len() as int));
                },
            }
        },
        Call::Framed { .. } => {
            assert(before.actions =~= after.actions.take(before.actions.len() as int));
        },
        _ => {},
    }
}

/// Whatever is called, what was asked of the reactor before stays asked, in order, until the
/// reactor takes it.
pub proof fn law_what_was_asked_stays<P: ServiceTypes>(
    before: ServiceState<P>,
    call: Call<P>,
    after: ServiceState<P>,
)
    requires
        call.leads(before, after),
        !(call is Next),
    ensures
        before.actions.is_prefix_of(after.actions),
{
    lemma_waiting_kept(before, call, after);
    if !(call is CloseConflicting || call is Transport || call is Framed) {
        assert(before.actions =~= after.actions.take(before.actions.len() as int));
    }
}

/// Only sessions and their bytes are counted, and only they and their end change the remotes.
pub proof fn law_the_rest_is_not_counted<P: ServiceTypes>(
    before: ServiceState<P>,
    call: Call<P>,
    after: ServiceState<P>,
)
    requires
        call.leads(before, after),
    ensures
        !(call is Transport) ==> after.metrics == before.metrics,
        call is Registered || call is Cleanup || call is Accepting || call is Listen
            || call is HandoverListener || call is Next ==> after.remotes == before.remotes,
        after.local_id == before.local_id,
{
    match call {
        Call::CloseConflicting { ids } => {
            lemma_all_closed(before, ids);
        },
        Call::Transport { fd, res_id, event, time, calls } => {
            lemma_stays_local(before, call, after);
        },
        _ => {},
    }
}

/// An event on a transport leaves alone who this node is.
proof fn lemma_stays_local<P: ServiceTypes>(
    before: ServiceState<P>,
    call: Call<P>,
    after: ServiceState<P>,
)
    requires
        call is Transport,
        call.leads(before, after),
    ensures
        after.local_id == before.local_id,
{
    if let Call::Transport { fd, res_id, event, time, calls } = call {
        if let SessionEvent::Established(remote_id) = event {
            lemma_established_keeps(before, fd, res_id, remote_id->0, time, after, calls);
        }
    }
}

/// A listener that is taken on is known by its address under its descriptor, beside all others,
/// and the reactor is asked to poll it, after everything else.
pub proof fn law_listener_is_taken_on<P: ServiceTypes>(
    state: ServiceState<P>,
    fd: RawFd,
    local_addr: P::SocketAddr,
    socket: P::Listener,
    other: RawFd,
)
    ensures
        ({
            let after = state.listening_on(fd, local_addr, socket);
            &&& after.local_id == state.local_id
            &&& after.bound == state.bound
            &&& after.inbound == state.inbound
            &&& after.outbound == state.outbound
            &&& after.remotes == state.remotes
            &&& after.metrics == state.metrics
            &&& after.actions == state.actions.push(Action::RegisterListener(socket))
            &&& after.listening.contains_key(fd)
            &&& after.listening[fd] == local_addr
            &&& other != fd ==> {
                &&& after.listening.contains_key(other) <==> state.listening.contains_key(other)
                &&& state.listening.contains_key(other) ==> after.listening[other]
                    == state.listening[other]
            }
        }),
{
}

/// A listener that is handed over is the only thing that is forgotten.
pub proof fn law_listener_is_let_go<P: ServiceTypes>(
    state: ServiceState<P>,
    fd: RawFd,
    other: RawFd,
)
    ensures
        ({
            let after = state.unbound(fd);
            &&& after.local_id == state.local_id
            &&& after.listening == state.listening
            &&& after.inbound == state.inbound
            &&& after.outbound == state.outbound
            &&& after.remotes == state.remotes
            &&& after.metrics == state.metrics
            &&& after.actions == state.actions
            &&& !after.bound.contains_key(fd)
            &&& other != fd ==> {
                &&& after.bound.contains_key(other) <==> state.bound.contains_key(other)
                &&& state.bound.contains_key(other) ==> after.bound[other] == state.bound[other]
            }
        }),
{
}

/// The controller hears of a listener that became part of the poll, by the address with which it
/// was taken on, and nothing of a transport.
pub proof fn law_listening_is_told<P: ServiceTypes>(
    state: ServiceState<P>,
    fd: RawFd,
    local_addr: P::SocketAddr,
    socket: P::Listener,
)
    ensures
        state.listening_on(fd, local_addr, socket).registration_notice(fd, ResourceType::Listener)
            == Some(Callback::<P>::Listening { socket: local_addr }),
        state.registration_notice(fd, ResourceType::Transport) is None,
        state.listening.contains_key(fd) ==> state.registration_notice(fd, ResourceType::Listener)
            == Some(Callback::<P>::Listening { socket: state.listening[fd] }),
{
}

/// An error of the poll itself, or of a listener, changes nothing and is told to nobody. One of a
/// transport is taken as the transport dropping out of the poll.
pub proof fn law_errors<P: ServiceTypes>(state: ServiceState<P>, id: ResourceId, fd: RawFd)
    ensures
        state.failed(ReactorError::Poll) == state,
        state.failure_notice(ReactorError::Poll) is None,
        state.failed(ReactorError::ListenerDisconnect { id }) == state,
        state.failure_notice(ReactorError::ListenerDisconnect { id }) is None,
        ({
            let dropped = ReactorError::TransportDisconnect { id, fd };
            &&& state.failed(dropped) == state.released(id, fd)
            &&& state.failure_notice(dropped) == state.drop_notice(id, fd)
        }),
{
}

/// The reactor gets what was asked first, and what the controller asks for now after all that was
/// asked before. What it did not get yet stays, in order, and nothing else changes.
pub proof fn law_first_asked_first_served<P: ServiceTypes>(
    state: ServiceState<P>,
    more: Seq<Action<P::Listener, P::Transport>>,
)
    ensures
        ({
            let after = state.advanced(more);
            &&& after.local_id == state.local_id
            &&& after.listening == state.listening
            &&& after.bound == state.bound
            &&& after.inbound == state.inbound
            &&& after.outbound == state.outbound
            &&& after.remotes == state.remotes
            &&& after.metrics == state.metrics
            &&& match state.next_action(more) {
                Some(action) => seq![action] + after.actions == state.actions + more,
                None => state.actions.len() == 0 && more.len() == 0 && after.actions.len() == 0,
            }
        }),
{
    let all = state.actions + more;
    if all.len() > 0 {
        assert(seq![all.first()] + all.skip(1) =~= all);
    }
}

} // verus!
