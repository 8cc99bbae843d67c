//! What holds of a service over any number of calls.

use std::sync::Arc;
use vstd::prelude::*;

use crate::action::Action;
use crate::ident::{above, lawful, lemma_above_total};
use crate::service::conflict::{closing, closings};
use crate::service::lifecycle::ResourceType;
use crate::service::listener::{listener_step, ListenerAction, ListenerEvent};
use crate::service::state::{notices, Callback, Gone, ServiceState, SessionEvent};
use crate::transport::frame::{drains, pops, Frame};
use crate::transport::laws::{
    encodes, faithful, joined, law_frames_read_back, law_pieces, law_pieces_of_any_stream,
    law_sent_frames_arrive, lemma_lockstep, marshals, settled,
};
use crate::transport::remotes::{
    DisconnectReason, FramingError, RawFd, ResourceId, ServiceTypes,
};
use crate::Direction;

verus! {

/// Of two connections that conflict one is closed, and it is one of the two.
pub proof fn law_one_of_two(
    precedence: bool,
    res_id: ResourceId,
    direction: Direction,
    c_id: ResourceId,
    c_link: Direction,
)
    ensures
        closing(precedence, res_id, direction, c_id, c_link) == res_id || closing(
            precedence,
            res_id,
            direction,
            c_id,
            c_link,
        ) == c_id,
        direction == c_link ==> closing(precedence, res_id, direction, c_id, c_link) >= res_id
            && closing(precedence, res_id, direction, c_id, c_link) >= c_id,
{
}

/// Whether the session of `new`, over `fd` with `remote_id`, meets exactly one other connection
/// with that node, `old`: one in use or an attempt of ours, and opened by the other side.
pub open spec fn meets<P: ServiceTypes>(
    state: ServiceState<P>,
    fd: RawFd,
    new: ResourceId,
    old: ResourceId,
    remote_id: P::NodeId,
) -> bool {
    &&& state.claim(fd) matches Some((_, side))
    &&& new != old
    &&& !state.remotes.contains_key(new)
    &&& state.remotes.contains_key(old) ==> state.rivals(old, new, remote_id)
    &&& state.claimed(fd, remote_id).conflicts(
        fd,
        new,
        remote_id,
        seq![(old, other_side(side))],
    )
}

/// The side that did not open a connection.
pub open spec fn other_side(side: Direction) -> Direction {
    match side {
        Direction::Inbound => Direction::Outbound,
        Direction::Outbound => Direction::Inbound,
    }
}

/// Of the two connections that meet, the one that we opened and the one that they opened.
pub open spec fn ours_and_theirs<P: ServiceTypes>(
    state: ServiceState<P>,
    fd: RawFd,
    new: ResourceId,
    old: ResourceId,
) -> (ResourceId, ResourceId) {
    if (state.claim(fd)->0).1 is Outbound {
        (new, old)
    } else {
        (old, new)
    }
}

/// Whether the reactor is asked for `closed` and for nothing else, and `kept` stays: as the only
/// session in use with `remote_id`, or as the attempt of ours that it is.
pub open spec fn keeps<P: ServiceTypes>(
    state: ServiceState<P>,
    remote_id: P::NodeId,
    new: ResourceId,
    closed: ResourceId,
    kept: ResourceId,
    after: ServiceState<P>,
) -> bool {
    &&& after.actions == state.actions.push(Action::UnregisterTransport(closed))
    &&& !after.in_session(closed)
    &&& forall|id: ResourceId| #[trigger]
        after.in_session(id) && after.remotes[id].node() == Some(remote_id) ==> id == kept
    &&& if kept == new || state.in_session(kept) {
        after.in_session(kept) && after.remotes[kept].node() == Some(remote_id)
    } else {
        exists|fd: RawFd| #[trigger]
            after.attempts(fd, kept) && after.outbound[fd].remote_id == remote_id
    }
}

/// There is only one way to name a single connection that conflicts.
proof fn lemma_single_conflict<P: ServiceTypes>(
    state: ServiceState<P>,
    fd: RawFd,
    res_id: ResourceId,
    remote_id: P::NodeId,
    link: (ResourceId, Direction),
    conflicting: Seq<(ResourceId, Direction)>,
)
    requires
        state.conflicts(fd, res_id, remote_id, seq![link]),
        state.conflicts(fd, res_id, remote_id, conflicting),
    ensures
        conflicting == seq![link],
        forall|id: ResourceId| #[trigger]
            state.rivals(id, res_id, remote_id) ==> id == link.0,
        state.rivals(link.0, res_id, remote_id) || exists|c_fd: RawFd| #[trigger]
            state.attempts(c_fd, link.0) && state.outbound[c_fd].remote_id == remote_id && c_fd
                != fd,
{
    let (s1, a1) = choose|sessions: Seq<ResourceId>, attempts: Seq<RawFd>| #[trigger]
        state.conflicts_by(fd, res_id, remote_id, seq![link], sessions, attempts);
    let (s2, a2) = choose|sessions: Seq<ResourceId>, attempts: Seq<RawFd>| #[trigger]
        state.conflicts_by(fd, res_id, remote_id, conflicting, sessions, attempts);
    assert(s1.len() + a1.len() == seq![link].len());
    lemma_same_singles(s1, s2);
    lemma_same_singles(a1, a2);
    assert(conflicting == seq![link]);
    assert(link == seq![link][0]);
    if s1.len() == 1 {
        assert(s1.contains(s1[0]));
        assert(link == state.session_links(s1)[0]);
    } else {
        assert(a1.contains(a1[0]));
        assert(link == state.attempt_links(a1)[0]);
        assert(state.attempts(a1[0], link.0));
    }
    assert forall|id: ResourceId| #[trigger] state.rivals(id, res_id, remote_id) implies id
        == link.0 by {
        assert(s1.contains(id));
    }
}

/// A sequence without repetitions is settled by what it contains, where that is one thing at most.
proof fn lemma_same_singles<A>(a: Seq<A>, b: Seq<A>)
    requires
        a.len() <= 1,
        b.no_duplicates(),
        forall|x: A| #[trigger] a.contains(x) <==> b.contains(x),
    ensures
        a == b,
{
    if a.len() == 1 {
        assert(a.contains(a[0]));
    }
    if b.len() > 0 {
        assert(b.contains(b[0]));
        assert(a.contains(b[0]));
    }
    if b.len() > 1 {
        assert(b.contains(b[1]));
        assert(a.contains(b[1]));
    }
    assert(a =~= b);
}

/// Where two connections with the same node meet, the one that was opened by the node below the
/// other is closed.
pub proof fn law_lower_end_gives_way<P: ServiceTypes>(
    state: ServiceState<P>,
    fd: RawFd,
    new: ResourceId,
    old: ResourceId,
    remote_id: P::NodeId,
    time: P::Timestamp,
    after: ServiceState<P>,
    calls: Seq<Callback<P>>,
)
    requires
        remote_id != state.local_id,
        meets(state, fd, new, old, remote_id),
        state.established(fd, new, remote_id, time, after, calls),
    ensures
        ({
            let (ours, theirs) = ours_and_theirs(state, fd, new, old);
            if above(state.local_id, remote_id) {
                keeps(state, remote_id, new, theirs, ours, after)
            } else {
                keeps(state, remote_id, new, ours, theirs, after)
            }
        }),
{
    let (conflicting, gone, stored) = choose|
        conflicting: Seq<(ResourceId, Direction)>,
        gone: Seq<Gone<P::NodeId>>,
        stored: P::Addr,
    | #[trigger]
        state.establishes(
            fd,
            new,
            remote_id,
            time,
            conflicting,
            gone,
            stored,
            after,
            calls,
        );
    let side = (state.claim(fd)->0).1;
    let claimed = state.claimed(fd, remote_id);
    lemma_single_conflict(claimed, fd, new, remote_id, (old, other_side(side)), conflicting);
    let closed = closings(above(state.local_id, remote_id), new, side, conflicting);
    assert(conflicting[0] == (old, other_side(side)));
    assert(closed =~= seq![closed[0]]);
    assert(closed.drop_last() =~= Seq::empty());
    reveal_with_fuel(ServiceState::all_closed, 2);
    let shut = claimed.disconnected(closed[0], DisconnectReason::Conflict);
    assert(claimed.all_closed(closed) == shut);
    assert(closed.contains(new) <==> closed[0] == new);
    let kept = if closed[0] == new {
        old
    } else {
        new
    };
    assert forall|id: ResourceId| #[trigger]
        after.in_session(id) && after.remotes[id].node() == Some(remote_id) implies id == kept by {
        if id != new {
            assert(claimed.rivals(id, new, remote_id));
        }
    }
    if closed[0] == new {
        assert(after == shut);
        if !state.in_session(old) {
            let c_fd = choose|c_fd: RawFd| #[trigger]
                claimed.attempts(c_fd, old) && claimed.outbound[c_fd].remote_id == remote_id && c_fd
                    != fd;
            assert(after.attempts(c_fd, old));
        }
    }
}

/// Two nodes that connected to each other close the same one of the two connections and keep the
/// other, whichever of the two either of them sees established last: what stays is the connection
/// that was opened by the node above the other.
///
/// At `a` the session of `a_new` meets the connection `a_old`, and at `b` the session of `b_new`
/// meets `b_old`.
pub proof fn law_ends_agree<P: ServiceTypes>(
    a: ServiceState<P>,
    a_fd: RawFd,
    a_new: ResourceId,
    a_old: ResourceId,
    a_time: P::Timestamp,
    a_after: ServiceState<P>,
    a_calls: Seq<Callback<P>>,
    b: ServiceState<P>,
    b_fd: RawFd,
    b_new: ResourceId,
    b_old: ResourceId,
    b_time: P::Timestamp,
    b_after: ServiceState<P>,
    b_calls: Seq<Callback<P>>,
)
    requires
        lawful::<P::NodeId>(),
        a.local_id != b.local_id,
        meets(a, a_fd, a_new, a_old, b.local_id),
        meets(b, b_fd, b_new, b_old, a.local_id),
        a.established(a_fd, a_new, b.local_id, a_time, a_after, a_calls),
        b.established(b_fd, b_new, a.local_id, b_time, b_after, b_calls),
    ensures
        ({
            let (by_a_at_a, by_b_at_a) = ours_and_theirs(a, a_fd, a_new, a_old);
            let (by_b_at_b, by_a_at_b) = ours_and_theirs(b, b_fd, b_new, b_old);
            if above(a.local_id, b.local_id) {
                &&& keeps(a, b.local_id, a_new, by_b_at_a, by_a_at_a, a_after)
                &&& keeps(b, a.local_id, b_new, by_b_at_b, by_a_at_b, b_after)
            } else {
                &&& keeps(a, b.local_id, a_new, by_a_at_a, by_b_at_a, a_after)
                &&& keeps(b, a.local_id, b_new, by_a_at_b, by_b_at_b, b_after)
            }
        }),
{
    lemma_above_total(a.local_id, b.local_id);
    law_lower_end_gives_way(a, a_fd, a_new, a_old, b.local_id, a_time, a_after, a_calls);
    law_lower_end_gives_way(b, b_fd, b_new, b_old, a.local_id, b_time, b_after, b_calls);
}

/// A remote that is being disconnected stays as it is when it is disconnected again: the first
/// reason counts, the reactor is not asked twice, and the answer is the same.
pub proof fn law_disconnect_once<P: ServiceTypes>(
    state: ServiceState<P>,
    res_id: ResourceId,
    first: DisconnectReason<P>,
    second: DisconnectReason<P>,
    gone: Gone<P::NodeId>,
)
    requires
        state.remotes.contains_key(res_id),
    ensures
        state.disconnected(res_id, first).disconnected(res_id, second) == state.disconnected(
            res_id,
            first,
        ),
        state.answers(res_id, gone) <==> state.disconnected(res_id, first).answers(res_id, gone),
{
}

/// What a session in use was disconnected for is what the controller hears when the transport is
/// handed over. After that the service does not know the remote any more.
pub proof fn law_reason_reported<P: ServiceTypes>(
    state: ServiceState<P>,
    res_id: ResourceId,
    fd: RawFd,
    reason: DisconnectReason<P>,
)
    requires
        state.in_session(res_id),
    ensures
        state.disconnected(res_id, reason).handover_notice(res_id, fd) == Some(
            Callback::Disconnected::<P> {
                remote_id: state.remotes[res_id].node()->0,
                direction: state.remotes[res_id].side(),
                reason,
            },
        ),
        !state.disconnected(res_id, reason).released(res_id, fd).remotes.contains_key(res_id),
{
}

/// Once a remote is disconnected, its session is not in use, so that the transport can be handed
/// over, and what still arrives is dropped.
pub proof fn law_disconnected_is_deaf<P: ServiceTypes>(
    state: ServiceState<P>,
    res_id: ResourceId,
    reason: DisconnectReason<P>,
    data: Seq<u8>,
    after: ServiceState<P>,
    calls: Seq<Callback<P>>,
)
    requires
        state.disconnected(res_id, reason).receives(res_id, data, after, calls),
    ensures
        !state.disconnected(res_id, reason).in_session(res_id),
        after == state.disconnected(res_id, reason),
        calls.len() == 0,
{
}

/// Closing connections in favour of another touches nothing but the remotes that are closed and
/// the actions: a session in use among them is not in use any more, and the rest stays.
pub proof fn lemma_all_closed<P: ServiceTypes>(state: ServiceState<P>, ids: Seq<ResourceId>)
    ensures
        ({
            let after = state.all_closed(ids);
            &&& after.local_id == state.local_id
            &&& after.listening == state.listening
            &&& after.bound == state.bound
            &&& after.inbound == state.inbound
            &&& after.outbound == state.outbound
            &&& after.metrics == state.metrics
            &&& after.remotes.dom() == state.remotes.dom()
            &&& forall|id: ResourceId| #[trigger]
                after.in_session(id) <==> state.in_session(id) && !ids.contains(id)
            &&& forall|id: ResourceId|
                !ids.contains(id) && state.remotes.contains_key(id) ==> #[trigger] after.remotes[id]
                    == state.remotes[id]
            &&& forall|id: ResourceId|
                state.remotes.contains_key(id) ==> (#[trigger] after.remotes[id]).node()
                    == state.remotes[id].node()
        }),
    decreases ids.len(),
{
    if ids.len() > 0 {
        lemma_all_closed(state, ids.drop_last());
        let before = state.all_closed(ids.drop_last());
        let after = state.all_closed(ids);
        assert(after.remotes.dom() =~= state.remotes.dom());
        assert forall|id: ResourceId| ids.contains(id) <==> ids.drop_last().contains(id) || id
            == ids.last() by {
            if ids.contains(id) && id != ids.last() {
                let i = choose|i: int| 0 <= i < ids.len() && ids[i] == id;
                assert(ids.drop_last()[i] == id);
            }
            if ids.drop_last().contains(id) {
                let i = choose|i: int| 0 <= i < ids.len() - 1 && ids.drop_last()[i] == id;
                assert(ids[i] == id);
            }
            assert(ids[ids.len() - 1] == ids.last());
        }
        assert(after == before.disconnected(ids.last(), DisconnectReason::Conflict));
        assert forall|id: ResourceId| #[trigger] after.in_session(id) <==> state.in_session(id)
            && !ids.contains(id) by {
            assert(before.in_session(id) <==> state.in_session(id)
                && !ids.drop_last().contains(id));
        }
        assert forall|id: ResourceId|
            !ids.contains(id) && state.remotes.contains_key(
                id,
            ) implies #[trigger] after.remotes[id] == state.remotes[id] by {
            assert(before.remotes[id] == state.remotes[id]);
        }
        assert forall|id: ResourceId| state.remotes.contains_key(id) implies (
        #[trigger] after.remotes[id]).node() == state.remotes[id].node() by {
            assert(before.remotes[id].node() == state.remotes[id].node());
            assert(before.remotes.contains_key(id));
        }
    }
}

/// Whether no node has two sessions in use, and this node has none with itself.
pub open spec fn sound<P: ServiceTypes>(state: ServiceState<P>) -> bool {
    &&& forall|a: ResourceId, b: ResourceId|
        #![trigger state.in_session(a), state.in_session(b)]
        state.in_session(a) && state.in_session(b) && state.remotes[a].node()
            == state.remotes[b].node() ==> a == b
    &&& forall|a: ResourceId| #[trigger]
        state.in_session(a) ==> state.remotes[a].node() != Some(state.local_id)
}

/// When the controller hears that a session is established, that session is in use with the node
/// that it hears of, which is another node than this one, and no other session with that node is
/// in use.
pub proof fn law_established_is_the_only_one<P: ServiceTypes>(
    state: ServiceState<P>,
    fd: RawFd,
    res_id: ResourceId,
    remote_id: P::NodeId,
    time: P::Timestamp,
    after: ServiceState<P>,
    calls: Seq<Callback<P>>,
    i: int,
)
    requires
        state.established(fd, res_id, remote_id, time, after, calls),
        0 <= i < calls.len(),
        calls[i] is Established,
    ensures
        i == calls.len() - 1,
        calls[i]->Established_remote_id == remote_id,
        remote_id != state.local_id,
        after.in_session(res_id),
        after.remotes[res_id].node() == Some(remote_id),
        forall|id: ResourceId| #[trigger]
            after.in_session(id) && after.remotes[id].node() == Some(remote_id) ==> id == res_id,
{
    let (conflicting, gone, stored) = choose|
        conflicting: Seq<(ResourceId, Direction)>,
        gone: Seq<Gone<P::NodeId>>,
        stored: P::Addr,
    | #[trigger]
        state.establishes(
            fd,
            res_id,
            remote_id,
            time,
            conflicting,
            gone,
            stored,
            after,
            calls,
        );
    lemma_notices::<P>(gone);
    lemma_established_alone(
        state,
        fd,
        res_id,
        remote_id,
        time,
        conflicting,
        gone,
        stored,
        after,
        calls,
    );
}

/// What the controller is told of closed connections is only that.
proof fn lemma_notices<P: ServiceTypes>(gone: Seq<Gone<P::NodeId>>)
    ensures
        forall|i: int|
            0 <= i < notices::<P>(gone).len() ==> (#[trigger] notices::<P>(gone)[i]) is Disconnected,
    decreases gone.len(),
{
    if gone.len() > 0 {
        lemma_notices::<P>(gone.drop_last());
    }
}

/// What the controller is told of a closed connection is among what it is told of all of them.
pub proof fn lemma_noticed<P: ServiceTypes>(gone: Seq<Gone<P::NodeId>>, k: int)
    requires
        0 <= k < gone.len(),
        gone[k] is Some,
    ensures
        notices::<P>(gone).contains(
            Callback::Disconnected {
                remote_id: (gone[k]->0).0,
                direction: (gone[k]->0).1,
                reason: DisconnectReason::Conflict,
            },
        ),
    decreases gone.len(),
{
    let told = Callback::<P>::Disconnected {
        remote_id: (gone[k]->0).0,
        direction: (gone[k]->0).1,
        reason: DisconnectReason::Conflict,
    };
    let all = notices::<P>(gone);
    if k == gone.len() - 1 {
        assert(all[all.len() - 1] == told);
    } else {
        lemma_noticed::<P>(gone.drop_last(), k);
        let before = notices::<P>(gone.drop_last());
        let j = choose|j: int| 0 <= j < before.len() && before[j] == told;
        assert(all[j] == told);
    }
}

/// A session that has to make way for a new one with the same node is reported as disconnected
/// before the new one is reported as established, so that the controller never counts two.
pub proof fn law_old_session_is_reported_first<P: ServiceTypes>(
    state: ServiceState<P>,
    fd: RawFd,
    res_id: ResourceId,
    remote_id: P::NodeId,
    time: P::Timestamp,
    after: ServiceState<P>,
    calls: Seq<Callback<P>>,
    c_id: ResourceId,
)
    requires
        state.established(fd, res_id, remote_id, time, after, calls),
        calls.len() > 0,
        calls.last() is Established,
        state.rivals(c_id, res_id, remote_id),
    ensures
        calls.drop_last().contains(
            Callback::Disconnected {
                remote_id,
                direction: state.remotes[c_id].side(),
                reason: DisconnectReason::Conflict,
            },
        ),
        !after.in_session(c_id),
{
    let (conflicting, gone, stored) = choose|
        conflicting: Seq<(ResourceId, Direction)>,
        gone: Seq<Gone<P::NodeId>>,
        stored: P::Addr,
    | #[trigger]
        state.establishes(
            fd,
            res_id,
            remote_id,
            time,
            conflicting,
            gone,
            stored,
            after,
            calls,
        );
    lemma_notices::<P>(gone);
    let claimed = state.claimed(fd, remote_id);
    let closed = closings(
        above(state.local_id, remote_id),
        res_id,
        (state.claim(fd)->0).1,
        conflicting,
    );
    let (sessions, attempts) = choose|sessions: Seq<ResourceId>, attempts: Seq<RawFd>| #[trigger]
        claimed.conflicts_by(fd, res_id, remote_id, conflicting, sessions, attempts);
    assert(claimed.rivals(c_id, res_id, remote_id));
    assert(sessions.contains(c_id));
    let k = choose|k: int| 0 <= k < sessions.len() && sessions[k] == c_id;
    assert(conflicting[k] == claimed.session_links(sessions)[k]);
    assert(!closed.contains(res_id));
    assert(closed[k] == res_id || closed[k] == c_id);
    assert(closed.contains(closed[k]));
    let shut = claimed.all_closed(closed.take(k));
    lemma_all_closed(claimed, closed.take(k));
    lemma_all_closed(claimed, closed);
    lemma_sides_stay(claimed, closed.take(k), c_id);
    assert(shut.answers(closed[k], gone[k]));
    assert(gone[k] == Some((remote_id, state.remotes[c_id].side())));
    lemma_noticed::<P>(gone, k);
    assert(calls.drop_last() =~= notices::<P>(gone));
    assert(!claimed.all_closed(closed).in_session(c_id));
}

/// Closing connections does not change who opened them.
proof fn lemma_sides_stay<P: ServiceTypes>(
    state: ServiceState<P>,
    ids: Seq<ResourceId>,
    id: ResourceId,
)
    requires
        state.remotes.contains_key(id),
    ensures
        state.all_closed(ids).remotes.contains_key(id),
        state.all_closed(ids).remotes[id].side() == state.remotes[id].side(),
    decreases ids.len(),
{
    if ids.len() > 0 {
        lemma_sides_stay(state, ids.drop_last(), id);
    }
}

/// When bytes are no frame, the controller hears of that last, after the frames before them. It
/// is not told of the disconnection until the transport is handed over, and then with the same
/// error.
pub proof fn law_unparsable_is_reported_first<P: ServiceTypes>(
    state: ServiceState<P>,
    res_id: ResourceId,
    data: Seq<u8>,
    after: ServiceState<P>,
    calls: Seq<Callback<P>>,
    i: int,
    fd: RawFd,
)
    requires
        state.receives(res_id, data, after, calls),
        0 <= i < calls.len(),
        calls[i] is FrameUnparsable,
    ensures
        i == calls.len() - 1,
        forall|j: int| 0 <= j < i ==> (#[trigger] calls[j]) is Frame,
        !after.in_session(res_id),
        after.handover_notice(res_id, fd) == Some(
            Callback::Disconnected::<P> {
                remote_id: state.remotes[res_id].node()->0,
                direction: state.remotes[res_id].side(),
                reason: DisconnectReason::Framing(
                    FramingError::Unparsable(calls[i]->FrameUnparsable_error),
                ),
            },
        ),
{
    assert(state.in_session(res_id));
    let counted = state.counting(state.remotes[res_id].node()->0, data.len());
    let buffered = counted.with_received(res_id, state.received(res_id) + data);
    let (rests, frames, failure) = choose|
        rests: Seq<Seq<u8>>,
        frames: Seq<P::InFrame>,
        failure: Option<Arc<<P::InFrame as Frame>::Error>>,
    | #[trigger]
        buffered.frames(res_id, rests, frames, failure, after, calls);
}

/// A new session leaves no other session with its node in use, and no session is in use that was
/// not before but the new one.
proof fn lemma_established_alone<P: ServiceTypes>(
    state: ServiceState<P>,
    fd: RawFd,
    res_id: ResourceId,
    remote_id: P::NodeId,
    time: P::Timestamp,
    conflicting: Seq<(ResourceId, Direction)>,
    gone: Seq<Gone<P::NodeId>>,
    stored: P::Addr,
    after: ServiceState<P>,
    calls: Seq<Callback<P>>,
)
    requires
        state.establishes(
            fd,
            res_id,
            remote_id,
            time,
            conflicting,
            gone,
            stored,
            after,
            calls,
        ),
    ensures
        ({
            let closed = closings(
                above(state.local_id, remote_id),
                res_id,
                (state.claim(fd)->0).1,
                conflicting,
            );
            if closed.contains(res_id) {
                &&& forall|id: ResourceId| #[trigger]
                    after.in_session(id) ==> state.in_session(id)
            } else {
                &&& after.in_session(res_id)
                &&& after.remotes[res_id].node() == Some(remote_id)
                &&& forall|id: ResourceId| #[trigger]
                    after.in_session(id) && id != res_id ==> {
                        &&& state.in_session(id)
                        &&& after.remotes[id].node() != Some(remote_id)
                    }
            }
        }),
        forall|id: ResourceId| #[trigger]
            after.in_session(id) && id != res_id ==> after.remotes[id].node()
                == state.remotes[id].node(),
        after.in_session(res_id) ==> after.remotes[res_id].node() == Some(remote_id) || (
        state.in_session(res_id) && after.remotes[res_id].node() == state.remotes[res_id].node()),
        after.local_id == state.local_id,
{
    let claimed = state.claimed(fd, remote_id);
    let closed = closings(
        above(state.local_id, remote_id),
        res_id,
        (state.claim(fd)->0).1,
        conflicting,
    );
    lemma_all_closed(claimed, closed);
    let shut = claimed.all_closed(closed);
    assert forall|id: ResourceId| shut.in_session(id) <==> state.in_session(id)
        && !closed.contains(id) by {
        assert(claimed.in_session(id) <==> state.in_session(id));
    }
    assert forall|id: ResourceId| #[trigger] after.in_session(id) && id != res_id implies {
        &&& state.in_session(id)
        &&& after.remotes[id].node() == state.remotes[id].node()
    } by {
        assert(shut.in_session(id));
        assert(shut.remotes[id].node() == claimed.remotes[id].node());
    }
    if !closed.contains(res_id) {
        assert forall|id: ResourceId| #[trigger] after.in_session(id) && id
            != res_id implies after.remotes[id].node() != Some(remote_id) by {
            if after.remotes[id].node() == Some(remote_id) {
                assert(shut.in_session(id));
                assert(claimed.in_session(id));
                assert(claimed.rivals(id, res_id, remote_id));
                let (sessions, attempts) = choose|sessions: Seq<ResourceId>, attempts: Seq<RawFd>|
                 #[trigger]
                    claimed.conflicts_by(fd, res_id, remote_id, conflicting, sessions, attempts);
                assert(sessions.contains(id));
                let k = choose|k: int| 0 <= k < sessions.len() && sessions[k] == id;
                assert(conflicting[k] == claimed.session_links(sessions)[k]);
                assert(closed[k] == res_id || closed[k] == id);
            }
        }
    } else {
        assert(shut.in_session(res_id) <==> false);
        assert forall|id: ResourceId| #[trigger] after.in_session(id) implies state.in_session(
            id,
        ) by {
            assert(shut.in_session(id));
        }
    }
}

/// One call to a service.
pub ghost enum Call<P: ServiceTypes> {
    Disconnect { res_id: ResourceId, reason: DisconnectReason<P> },
    CloseConflicting { ids: Seq<ResourceId> },
    Transport {
        fd: RawFd,
        res_id: ResourceId,
        event: SessionEvent<P>,
        time: P::Timestamp,
        calls: Seq<Callback<P>>,
    },
    Framed { res_id: ResourceId, calls: Seq<Callback<P>> },
    Registered { fd: RawFd, id: ResourceId, ty: ResourceType },
    Released { id: ResourceId, fd: RawFd },
    Cleanup { fd: RawFd },
    Accepting { fd: RawFd, addr: P::Addr, transport: P::Transport },
    Listen { fd: RawFd, local_addr: P::SocketAddr, socket: P::Listener },
    HandoverListener { fd: RawFd },
    Next { actions: Seq<Action<P::Listener, P::Transport>> },
}

impl<P: ServiceTypes> Call<P> {
    /// Whether the call may lead from `before` to `after`.
    pub open spec fn leads(self, before: ServiceState<P>, after: ServiceState<P>) -> bool {
        match self {
            Call::Disconnect { res_id, reason } => after == before.disconnected(res_id, reason),
            Call::CloseConflicting { ids } => after == before.all_closed(ids),
            Call::Transport { fd, res_id, event, time, calls } => before.handles(
                fd,
                res_id,
                event,
                time,
                after,
                calls,
            ),
            Call::Framed { res_id, calls } => before.in_session(res_id) && before.framed(
                res_id,
                after,
                calls,
            ),
            Call::Registered { fd, id, ty } => {
                &&& ty is Listener ==> before.listening.contains_key(fd)
                &&& after == before.registered(fd, id, ty)
            },
            Call::Released { id, fd } => after == before.released(id, fd),
            Call::Cleanup { fd } => after == before.cleaned(fd),
            Call::Accepting { fd, addr, transport } => after == before.accepting(
                fd,
                addr,
                transport,
            ),
            Call::Listen { fd, local_addr, socket } => after == before.listening_on(
                fd,
                local_addr,
                socket,
            ),
            Call::HandoverListener { fd } => after == before.unbound(fd),
            Call::Next { actions } => after == (ServiceState { actions, ..before }),
        }
    }
}

/// Whether no session is in use after that was not before, or that has got another node.
pub open spec fn narrows<P: ServiceTypes>(
    before: ServiceState<P>,
    after: ServiceState<P>,
) -> bool {
    &&& after.local_id == before.local_id
    &&& forall|id: ResourceId| #[trigger]
        after.in_session(id) ==> before.in_session(id) && after.remotes[id].node()
            == before.remotes[id].node()
}

proof fn lemma_narrowing_is_sound<P: ServiceTypes>(
    before: ServiceState<P>,
    after: ServiceState<P>,
)
    requires
        sound(before),
        narrows(before, after),
    ensures
        sound(after),
{
    assert forall|a: ResourceId, b: ResourceId|
        #![trigger after.in_session(a), after.in_session(b)]
        after.in_session(a) && after.in_session(b) && after.remotes[a].node()
            == after.remotes[b].node() implies a == b by {
        assert(before.in_session(a) && before.in_session(b));
    }
    assert forall|a: ResourceId| #[trigger] after.in_session(a) implies after.remotes[a].node()
        != Some(after.local_id) by {
        assert(before.in_session(a));
    }
}

proof fn lemma_framed_narrows<P: ServiceTypes>(
    before: ServiceState<P>,
    res_id: ResourceId,
    after: ServiceState<P>,
    calls: Seq<Callback<P>>,
)
    requires
        before.in_session(res_id),
        before.framed(res_id, after, calls),
    ensures
        narrows(before, after),
{
}

/// Every call leaves at most one session in use with each node, and none with this node itself.
pub proof fn law_stays_sound<P: ServiceTypes>(
    before: ServiceState<P>,
    call: Call<P>,
    after: ServiceState<P>,
)
    requires
        sound(before),
        call.leads(before, after),
    ensures
        sound(after),
{
    match call {
        Call::CloseConflicting { ids } => {
            lemma_all_closed(before, ids);
            assert(narrows(before, after));
            lemma_narrowing_is_sound(before, after);
        },
        Call::Transport { fd, res_id, event, time, calls } => {
            match event {
                SessionEvent::Established(remote_id) => {
                    lemma_established_stays_sound(
                        before,
                        fd,
                        res_id,
                        remote_id->0,
                        time,
                        after,
                        calls,
                    );
                },
                SessionEvent::Data(data) => {
                    if before.in_session(res_id) {
                        let node = before.remotes[res_id].node()->0;
                        let counted = before.counting(node, data@.len());
                        let received = before.received(res_id) + data@;
                        if received.len() <= usize::MAX {
                            let buffered = counted.with_received(res_id, received);
                            lemma_framed_narrows(buffered, res_id, after, calls);
                            assert(narrows(before, buffered));
                        }
                        assert(narrows(before, after)) by {
                            assert forall|id: ResourceId| #[trigger]
                                after.in_session(id) implies before.in_session(id)
                                && after.remotes[id].node() == before.remotes[id].node() by {
                                if received.len() <= usize::MAX {
                                    assert(counted.with_received(res_id, received).in_session(id));
                                }
                            }
                        }
                    }
                    lemma_narrowing_is_sound(before, after);
                },
                SessionEvent::Terminated(_) => {
                    lemma_narrowing_is_sound(before, after);
                },
            }
        },
        Call::Framed { res_id, calls } => {
            lemma_framed_narrows(before, res_id, after, calls);
            lemma_narrowing_is_sound(before, after);
        },
        _ => {
            assert(narrows(before, after));
            lemma_narrowing_is_sound(before, after);
        },
    }
}

proof fn lemma_established_stays_sound<P: ServiceTypes>(
    before: ServiceState<P>,
    fd: RawFd,
    res_id: ResourceId,
    remote_id: P::NodeId,
    time: P::Timestamp,
    after: ServiceState<P>,
    calls: Seq<Callback<P>>,
)
    requires
        sound(before),
        before.established(fd, res_id, remote_id, time, after, calls),
    ensures
        sound(after),
{
    if remote_id == before.local_id || before.claim(fd) is None {
        lemma_narrowing_is_sound(before, after);
    } else {
        let (conflicting, gone, stored) = choose|
            conflicting: Seq<(ResourceId, Direction)>,
            gone: Seq<Gone<P::NodeId>>,
            stored: P::Addr,
        | #[trigger]
            before.establishes(
                fd,
                res_id,
                remote_id,
                time,
                conflicting,
                gone,
                stored,
                after,
                calls,
            );
        lemma_established_alone(
            before,
            fd,
            res_id,
            remote_id,
            time,
            conflicting,
            gone,
            stored,
            after,
            calls,
        );
        let closed = closings(
            above(before.local_id, remote_id),
            res_id,
            (before.claim(fd)->0).1,
            conflicting,
        );
        if closed.contains(res_id) {
            lemma_all_closed(before.claimed(fd, remote_id), closed);
            assert(narrows(before, after)) by {
                assert(!after.in_session(res_id));
            }
            lemma_narrowing_is_sound(before, after);
        } else {
            assert forall|a: ResourceId, b: ResourceId|
                #![trigger after.in_session(a), after.in_session(b)]
                after.in_session(a) && after.in_session(b) && after.remotes[a].node()
                    == after.remotes[b].node() implies a == b by {
                if a != res_id && b != res_id {
                    assert(before.in_session(a) && before.in_session(b));
                }
            }
            assert forall|a: ResourceId| #[trigger]
                after.in_session(a) implies after.remotes[a].node() != Some(after.local_id) by {
                if a != res_id {
                    assert(before.in_session(a));
                }
            }
        }
    }
}

/// Whether `states` starts with a service of `local_id` that just started, and each of the others
/// comes from the one before by the call in `script`.
pub open spec fn runs<P: ServiceTypes>(
    local_id: P::NodeId,
    script: Seq<Call<P>>,
    states: Seq<ServiceState<P>>,
) -> bool {
    &&& states.len() == script.len() + 1
    &&& states[0] == ServiceState::<P>::fresh(local_id)
    &&& forall|i: int|
        0 <= i < script.len() ==> (#[trigger] script[i]).leads(states[i], states[i + 1])
}

/// At no time does a service have two sessions in use with the same node, or one with itself,
/// whatever calls were made to it.
pub proof fn law_always_sound<P: ServiceTypes>(
    local_id: P::NodeId,
    script: Seq<Call<P>>,
    states: Seq<ServiceState<P>>,
    i: int,
)
    requires
        runs(local_id, script, states),
        0 <= i < states.len(),
    ensures
        sound(states[i]),
    decreases i,
{
    if i > 0 {
        law_always_sound(local_id, script, states, i - 1);
        assert(script[i - 1].leads(states[i - 1], states[i - 1 + 1]));
        law_stays_sound(states[i - 1], script[i - 1], states[i]);
    }
}

/// Calls leave alone who this node is, start no attempt to connect, and only ever add to the
/// counters.
pub proof fn law_bookkeeping<P: ServiceTypes>(
    before: ServiceState<P>,
    call: Call<P>,
    after: ServiceState<P>,
    node: P::NodeId,
    fd: RawFd,
)
    requires
        call.leads(before, after),
        match call {
            Call::Transport { fd, res_id, event, .. } => match event {
                SessionEvent::Established(remote_id) => before.can_establish(fd, remote_id->0),
                SessionEvent::Data(data) => before.can_count(res_id, data@.len()),
                SessionEvent::Terminated(_) => true,
            },
            _ => true,
        },
    ensures
        after.local_id == before.local_id,
        after.outbound.contains_key(fd) ==> before.outbound.contains_key(fd)
            && after.outbound[fd].remote_id == before.outbound[fd].remote_id,
        ({
            let (was, is) = (before.counters(node), after.counters(node));
            &&& was.bytes_received <= is.bytes_received
            &&& was.inbound_connection_attempts <= is.inbound_connection_attempts
            &&& was.bytes_sent == is.bytes_sent
            &&& was.messages_sent == is.messages_sent
            &&& was.messages_received == is.messages_received
            &&& was.outbound_connection_attempts == is.outbound_connection_attempts
            &&& was.disconnects == is.disconnects
        }),
{
    match call {
        Call::CloseConflicting { ids } => {
            lemma_all_closed(before, ids);
        },
        Call::Transport { fd: over, res_id, event, time, calls } => {
            if let SessionEvent::Established(remote_id) = event {
                lemma_established_keeps(before, over, res_id, remote_id->0, time, after, calls);
            }
        },
        _ => {},
    }
}

/// A new session touches neither who this node is nor the listeners, and of the connections
/// without a session and the counters only its own.
pub proof fn lemma_established_keeps<P: ServiceTypes>(
    before: ServiceState<P>,
    fd: RawFd,
    res_id: ResourceId,
    remote_id: P::NodeId,
    time: P::Timestamp,
    after: ServiceState<P>,
    calls: Seq<Callback<P>>,
)
    requires
        before.established(fd, res_id, remote_id, time, after, calls),
    ensures
        after.local_id == before.local_id,
        after.listening == before.listening,
        after.bound == before.bound,
        if remote_id == before.local_id || before.claim(fd) is None {
            after.metrics == before.metrics && after.outbound == before.outbound
        } else {
            after.metrics == before.claimed(fd, remote_id).metrics && after.outbound
                == before.claimed(fd, remote_id).outbound
        },
{
    if remote_id != before.local_id && before.claim(fd) is Some {
        let (conflicting, gone, stored) = choose|
            conflicting: Seq<(ResourceId, Direction)>,
            gone: Seq<Gone<P::NodeId>>,
            stored: P::Addr,
        | #[trigger]
            before.establishes(
                fd,
                res_id,
                remote_id,
                time,
                conflicting,
                gone,
                stored,
                after,
                calls,
            );
        let closed = closings(
            above(before.local_id, remote_id),
            res_id,
            (before.claim(fd)->0).1,
            conflicting,
        );
        lemma_all_closed(before.claimed(fd, remote_id), closed);
    }
}

/// Whether `event` is the outcome of what `action` asks for about an accepted connection.
pub open spec fn follows<P: ServiceTypes>(
    action: ListenerAction<P>,
    event: ListenerEvent<P>,
) -> bool {
    match (action, event) {
        (
            ListenerAction::Consult { fd, remote, .. },
            ListenerEvent::Consulted { fd: same_fd, remote: same_remote, .. },
        ) => fd == same_fd && remote == same_remote,
        (
            ListenerAction::EstablishSession { fd, remote, .. },
            ListenerEvent::SessionReady { fd: same_fd, remote: same_remote, .. },
        ) => fd == same_fd && remote == same_remote,
        (
            ListenerAction::CreateTransport { fd, remote, .. },
            ListenerEvent::TransportReady { fd: same_fd, remote: same_remote, .. },
        ) => fd == same_fd && remote == same_remote,
        _ => false,
    }
}

/// A connection is taken in only after every answer about it was good: its address was known, the
/// controller wanted it, and a session was set up over it, all of the same descriptor and address
/// under which it is then tracked.
pub proof fn law_tracked_after_every_answer<P: ServiceTypes>(
    states: Seq<ServiceState<P>>,
    listener_fd: RawFd,
    events: Seq<ListenerEvent<P>>,
    time: P::Timestamp,
)
    requires
        events.len() > 0,
        states.len() == events.len(),
        events[0] is Accepted,
        events.last() is TransportReady,
        forall|i: int|
            0 < i < events.len() ==> follows(
                listener_step(states[i - 1], listener_fd, events[i - 1], time),
                #[trigger] events[i],
            ),
    ensures
        events.len() == 4,
        ({
            let fd = events[3]->TransportReady_fd;
            let remote = events[3]->TransportReady_remote;
            &&& events[0] == (ListenerEvent::<P>::Accepted { fd, remote: Some(remote) })
            &&& events[1] == (ListenerEvent::<P>::Consulted { fd, remote, accept: true })
            &&& events[2] == (ListenerEvent::<P>::SessionReady { fd, remote, ready: true })
        }),
{
    if events.len() > 1 {
        assert(events[1] is Consulted);
    }
    if events.len() > 2 {
        assert(events[2] is SessionReady);
    }
    if events.len() > 3 {
        assert(events[3] is TransportReady);
    }
    if events.len() > 4 {
        assert(follows(listener_step(states[3], listener_fd, events[3], time), events[4]));
    }
}

/// From the moment it is taken on until it is handed over, a listener is known by its address,
/// so that its failures can be reported. No call but taking on another listener with the same
/// descriptor changes that.
pub proof fn law_listeners_are_known<P: ServiceTypes>(
    before: ServiceState<P>,
    call: Call<P>,
    after: ServiceState<P>,
    fd: RawFd,
)
    requires
        call.leads(before, after),
    ensures
        call matches Call::Listen { fd: new, local_addr, .. } ==> (new == fd
            ==> after.has_listener(fd) && after.socket(fd) == local_addr),
        before.has_listener(fd) && !(call matches Call::HandoverListener { fd: gone } && gone == fd)
            ==> after.has_listener(fd),
        before.has_listener(fd) && !(call matches Call::HandoverListener { fd: gone } && gone == fd)
            && !(call matches Call::Listen { fd: new, .. } && new == fd) ==> after.socket(fd)
            == before.socket(fd),
{
    match call {
        Call::CloseConflicting { ids } => {
            lemma_all_closed(before, ids);
        },
        Call::Transport { fd: over, res_id, event, time, calls } => {
            if let SessionEvent::Established(remote_id) = event {
                lemma_established_keeps(before, over, res_id, remote_id->0, time, after, calls);
            }
        },
        _ => {},
    }
}

spec fn unshared<E>(failure: Option<Arc<E>>) -> Option<E> {
    match failure {
        None => None,
        Some(error) => Some(*error),
    }
}

/// Whether `calls` hand the first of `sent` to the controller, and nothing else.
pub open spec fn delivers<P: ServiceTypes>(
    calls: Seq<Callback<P>>,
    res_id: ResourceId,
    sent: Seq<P::InFrame>,
) -> bool {
    &&& calls.len() <= sent.len()
    &&& forall|i: int|
        0 <= i < calls.len() ==> {
            &&& #[trigger] calls[i] matches Callback::Frame { res_id: id, frame }
            &&& id == res_id
            &&& frame.same_as(&sent[i])
        }
}

/// What the other end of a new session marshalled is what the controller gets, in order, and the
/// session stays in use with nothing left over.
pub proof fn law_frames_are_delivered<P: ServiceTypes>(
    state: ServiceState<P>,
    res_id: ResourceId,
    sent: Seq<P::InFrame>,
    queues: Seq<Seq<u8>>,
    after: ServiceState<P>,
    calls: Seq<Callback<P>>,
)
    requires
        faithful::<P::InFrame>(),
        marshals(sent, queues),
        state.in_session(res_id),
        state.received(res_id).len() == 0,
        queues.last().len() <= usize::MAX,
        state.receives(res_id, queues.last(), after, calls),
    ensures
        delivers(calls, res_id, sent),
        calls.len() == sent.len(),
        after.in_session(res_id),
        after.received(res_id).len() == 0,
        after.actions == state.actions,
{
    let data = queues.last();
    assert(state.received(res_id) + data =~= data);
    let buffered = state.counting(state.remotes[res_id].node()->0, data.len()).with_received(
        res_id,
        data,
    );
    let (rests, frames, failure) = choose|
        rests: Seq<Seq<u8>>,
        frames: Seq<P::InFrame>,
        failure: Option<Arc<<P::InFrame as Frame>::Error>>,
    | #[trigger]
        buffered.frames(res_id, rests, frames, failure, after, calls);
    law_sent_frames_arrive(sent, queues, rests, frames, unshared(failure));
}

/// It does not matter in how many pieces the encodings of some frames arrive: two pieces one after
/// the other give the controller as many of the frames that were sent as both at once, and leave
/// the service in the same state.
pub proof fn law_pieces_of_data<P: ServiceTypes>(
    state: ServiceState<P>,
    res_id: ResourceId,
    sent: Seq<P::InFrame>,
    parts: Seq<Seq<u8>>,
    first: Seq<u8>,
    second: Seq<u8>,
    between: ServiceState<P>,
    first_calls: Seq<Callback<P>>,
    after: ServiceState<P>,
    second_calls: Seq<Callback<P>>,
    at_once: ServiceState<P>,
    calls: Seq<Callback<P>>,
)
    requires
        faithful::<P::InFrame>(),
        encodes(sent, parts),
        state.in_session(res_id),
        (state.received(res_id) + first + second).is_prefix_of(joined(parts)),
        (state.received(res_id) + first + second).len() <= usize::MAX,
        state.can_count(res_id, first.len() + second.len()),
        state.receives(res_id, first, between, first_calls),
        between.receives(res_id, second, after, second_calls),
        state.receives(res_id, first + second, at_once, calls),
    ensures
        delivers(first_calls + second_calls, res_id, sent),
        delivers(calls, res_id, sent),
        (first_calls + second_calls).len() == calls.len(),
        after == at_once,
{
    let node = state.remotes[res_id].node()->0;
    let start = state.counting(node, first.len()).with_received(
        res_id,
        state.received(res_id) + first,
    );
    let (r1, f1, e1) = choose|
        rests: Seq<Seq<u8>>,
        frames: Seq<P::InFrame>,
        failure: Option<Arc<<P::InFrame as Frame>::Error>>,
    | #[trigger]
        start.frames(res_id, rests, frames, failure, between, first_calls);
    let whole = state.counting(node, (first + second).len()).with_received(
        res_id,
        state.received(res_id) + (first + second),
    );
    let (r, f, e) = choose|
        rests: Seq<Seq<u8>>,
        frames: Seq<P::InFrame>,
        failure: Option<Arc<<P::InFrame as Frame>::Error>>,
    | #[trigger]
        whole.frames(res_id, rests, frames, failure, at_once, calls);
    let stream = state.received(res_id) + first + second;
    assert(state.received(res_id) + (first + second) =~= stream);
    let begun = state.received(res_id) + first;
    assert(begun.is_prefix_of(joined(parts))) by {
        assert(stream =~= joined(parts).take(stream.len() as int));
        assert forall|i: int| 0 <= i < begun.len() implies begun[i] == joined(parts)[i] by {
            assert(stream[i] == begun[i]);
        }
        assert(begun =~= joined(parts).take(begun.len() as int));
    }
    law_frames_read_back(sent, parts, r1, f1, unshared(e1));
    assert(e1 is None);
    assert(between == start.with_received(res_id, r1.last()));
    let more = between.counting(node, second.len()).with_received(
        res_id,
        between.received(res_id) + second,
    );
    assert(stream =~= joined(parts.take(f1.len() as int)) + (r1.last() + second));
    let (r2, f2, e2) = choose|
        rests: Seq<Seq<u8>>,
        frames: Seq<P::InFrame>,
        failure: Option<Arc<<P::InFrame as Frame>::Error>>,
    | #[trigger]
        more.frames(res_id, rests, frames, failure, after, second_calls);
    law_pieces(
        sent,
        parts,
        (r1, f1, unshared(e1)),
        second,
        (r2, f2, unshared(e2)),
        (r, f, unshared(e)),
    );
    let both = first_calls + second_calls;
    assert forall|i: int| 0 <= i < both.len() implies {
        &&& #[trigger] both[i] matches Callback::Frame { res_id: id, frame }
        &&& id == res_id
        &&& frame.same_as(&sent[i])
    } by {
        assert((f1 + f2)[i].same_as(&sent[i]));
    }
    assert(after.metrics =~= at_once.metrics);
    assert(after.remotes =~= at_once.remotes);
    assert(after =~= at_once);
}

/// Whether `calls` and `others` tell the controller the same of what arrived over `res_id`: the
/// same frames, and then that bytes are no frame, or not.
pub open spec fn same_told<P: ServiceTypes>(
    calls: Seq<Callback<P>>,
    others: Seq<Callback<P>>,
    res_id: ResourceId,
) -> bool {
    &&& calls.len() == others.len()
    &&& forall|i: int|
        0 <= i < calls.len() ==> match #[trigger] calls[i] {
            Callback::Frame { res_id: id, frame } => {
                &&& id == res_id
                &&& others[i] matches Callback::Frame { res_id: other, frame: same }
                &&& other == res_id
                &&& frame.same_as(&same)
            },
            Callback::FrameUnparsable { res_id: id, .. } => {
                &&& id == res_id
                &&& others[i] matches Callback::FrameUnparsable { res_id: other, .. }
                &&& other == res_id
            },
            _ => false,
        }
}

/// It does not matter in how many pieces any bytes arrive, frames or not: two pieces one after the
/// other tell the controller the same as both at once. Either way the session stays in use, in
/// the same state, with nothing but frames told, all bytes counted and nothing asked of the
/// reactor; or it is closed. Where it is closed at the first piece, the second is not counted.
pub proof fn law_pieces_of_any_data<P: ServiceTypes>(
    state: ServiceState<P>,
    res_id: ResourceId,
    first: Seq<u8>,
    second: Seq<u8>,
    between: ServiceState<P>,
    first_calls: Seq<Callback<P>>,
    after: ServiceState<P>,
    second_calls: Seq<Callback<P>>,
    at_once: ServiceState<P>,
    calls: Seq<Callback<P>>,
)
    requires
        settled::<P::InFrame>(),
        state.in_session(res_id),
        (state.received(res_id) + first + second).len() <= usize::MAX,
        state.can_count(res_id, first.len() + second.len()),
        state.receives(res_id, first, between, first_calls),
        between.receives(res_id, second, after, second_calls),
        state.receives(res_id, first + second, at_once, calls),
    ensures
        same_told(first_calls + second_calls, calls, res_id),
        after.in_session(res_id) <==> at_once.in_session(res_id),
        after.in_session(res_id) ==> {
            &&& after == at_once
            &&& after.actions == state.actions
            &&& after.metrics == state.counting(
                state.remotes[res_id].node()->0,
                first.len() + second.len(),
            ).metrics
            &&& forall|i: int| 0 <= i < calls.len() ==> (#[trigger] calls[i]) is Frame
        },
        after.actions == at_once.actions,
        after.remotes.remove(res_id) == at_once.remotes.remove(res_id),
        between.in_session(res_id) ==> after.metrics == at_once.metrics,
        !between.in_session(res_id) ==> after == between && second_calls.len() == 0,
{
    let node = state.remotes[res_id].node()->0;
    let begun = state.received(res_id) + first;
    let whole = state.received(res_id) + (first + second);
    assert(whole =~= begun + second);
    let start = state.counting(node, first.len()).with_received(res_id, begun);
    let (r1, f1, e1) = choose|
        rests: Seq<Seq<u8>>,
        frames: Seq<P::InFrame>,
        failure: Option<Arc<<P::InFrame as Frame>::Error>>,
    | #[trigger]
        start.frames(res_id, rests, frames, failure, between, first_calls);
    let all = state.counting(node, (first + second).len()).with_received(res_id, whole);
    let (r, f, e) = choose|
        rests: Seq<Seq<u8>>,
        frames: Seq<P::InFrame>,
        failure: Option<Arc<<P::InFrame as Frame>::Error>>,
    | #[trigger]
        all.frames(res_id, rests, frames, failure, at_once, calls);
    let both = first_calls + second_calls;
    if e1 is Some {
        lemma_lockstep(
            (r1, f1, unshared(e1)),
            second,
            (r, f, unshared(e)),
            f1.len() as int,
        );
        assert(both =~= first_calls);
        assert forall|i: int| 0 <= i < f1.len() implies f1[i].same_as(&f[i]) by {}
    } else {
        lemma_drained(r1, f1);
        assert(between == start.with_received(res_id, r1.last()));
        let more = between.counting(node, second.len()).with_received(
            res_id,
            between.received(res_id) + second,
        );
        assert((r1.last() + second).len() <= usize::MAX);
        let (r2, f2, e2) = choose|
            rests: Seq<Seq<u8>>,
            frames: Seq<P::InFrame>,
            failure: Option<Arc<<P::InFrame as Frame>::Error>>,
        | #[trigger]
            more.frames(res_id, rests, frames, failure, after, second_calls);
        law_pieces_of_any_stream(
            (r1, f1, unshared(e1)),
            second,
            (r2, f2, unshared(e2)),
            (r, f, unshared(e)),
        );
        assert forall|i: int| 0 <= i < (f1 + f2).len() implies (f1 + f2)[i].same_as(&f[i]) by {}
        assert(after.metrics =~= at_once.metrics);
        if e is None {
            assert(after.remotes =~= at_once.remotes);
            assert(after =~= at_once);
        }
    }
    assert(after.remotes.remove(res_id) =~= at_once.remotes.remove(res_id));
}

/// What is left of a queue is no longer than the queue.
proof fn lemma_drained<F: Frame>(rests: Seq<Seq<u8>>, frames: Seq<F>)
    requires
        drains(rests, frames, None),
    ensures
        rests.last().len() <= rests.first().len(),
    decreases frames.len(),
{
    if frames.len() > 0 {
        let rests2 = rests.drop_first();
        let frames2 = frames.drop_first();
        assert(pops(rests[0], Ok(Some(frames[0])), rests[0int + 1]));
        assert(rests2.last() == rests.last());
        assert forall|i: int| 0 <= i < frames2.len() implies pops(
            rests2[i],
            Ok(Some(#[trigger] frames2[i])),
            rests2[i + 1],
        ) by {
            assert(pops(rests[i + 1], Ok(Some(frames[i + 1])), rests[i + 1 + 1]));
        }
        lemma_drained(rests2, frames2);
    }
}

} // verus!
