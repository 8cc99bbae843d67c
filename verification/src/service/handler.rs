//! The service itself.

use std::collections::{HashMap, VecDeque};
use std::sync::Arc;
use vstd::prelude::*;
use vstd::seq_lib::lemma_seq_contains_after_push;
use vstd::std_specs::iter::IteratorSpec;

use crate::action::Action;
use crate::ident::{is_above, lawful, same};
use crate::service::conflict::{is_among, resolve};
use crate::service::state::{
    deliveries, notices, Callback, Gone, Metrics, ServiceState, SessionEvent,
};
use crate::transport::frame::{drains, pops, productive, Frame, Marshaller, NoRoom};
use crate::transport::remotes::{
    enumerates, lemma_enumerates, lists_active, DisconnectReason, FramingError, Inbound, Outbound,
    RawFd, Remote, Remotes, ResourceId, ServiceTypes,
};
use crate::Direction;

verus! {

broadcast use vstd::std_specs::hash::group_hash_axioms;

/// Keeps track of listeners, connections and sessions.
pub struct Service<P: ServiceTypes> {
    /// Node id for the service.
    pub local_id: P::NodeId,
    /// Listeners that are not part of the poll yet.
    pub listening: HashMap<RawFd, P::SocketAddr>,
    /// Listeners that are part of the poll.
    pub bound: HashMap<RawFd, P::SocketAddr>,
    /// Accepted connections without a session.
    pub inbound: HashMap<RawFd, Inbound<P>>,
    /// Opened connections without a session.
    pub outbound: HashMap<RawFd, Outbound<P>>,
    /// Remotes with a session.
    pub remotes: Remotes<P>,
    /// Counters by node.
    pub metrics: HashMap<P::NodeId, Metrics>,
    /// Buffer for the actions which have to be delivered to the reactor when it asks for them.
    pub actions: VecDeque<Action<P::Listener, P::Transport>>,
}

impl<P: ServiceTypes> View for Service<P> {
    type V = ServiceState<P>;

    open spec fn view(&self) -> ServiceState<P> {
        ServiceState {
            local_id: self.local_id,
            listening: self.listening@,
            bound: self.bound@,
            inbound: self.inbound@,
            outbound: self.outbound@,
            remotes: self.remotes@,
            metrics: self.metrics@,
            actions: self.actions@,
        }
    }
}

impl<P: ServiceTypes> Service<P> {
    /// The node of an attempt of ours to connect that the reactor knows as `res_id`.
    fn attempt(&self, res_id: ResourceId) -> (gone: Gone<P::NodeId>)
        ensures
            match gone {
                Some((node, side)) => {
                    &&& side is Outbound
                    &&& exists|fd: RawFd| #[trigger]
                        self@.attempts(fd, res_id) && self@.outbound[fd].remote_id == node
                },
                None => forall|fd: RawFd| !#[trigger] self@.attempts(fd, res_id),
            },
    {
        let walk = self.outbound.iter();
        proof {
            lemma_enumerates(self.outbound@, walk.remaining());
        }
        for entry in entries: walk
            invariant
                enumerates(self.outbound@, entries.seq()),
                forall|k: int|
                    0 <= k < entries.index() ==> (#[trigger] entries.seq()[k]).1.res_id != Some(
                        res_id,
                    ),
        {
            let (fd, outbound) = entry;
            if let Some(id) = outbound.res_id {
                if id == res_id {
                    assert(self@.attempts(*fd, res_id));
                    return Some((outbound.remote_id, Direction::Outbound));
                }
            }
        }
        None
    }

    /// Asks for the disconnection of a remote.
    pub fn disconnect(
        &mut self,
        res_id: ResourceId,
        reason: DisconnectReason<P>,
    ) -> (gone: Gone<P::NodeId>)
        ensures
            final(self)@ == old(self)@.disconnected(res_id, reason),
            old(self)@.answers(res_id, gone),
    {
        match self.remotes.get(&res_id) {
            None => {
                // A remote with no session. Only an attempt of ours to connect has a node.
                let gone = self.attempt(res_id);
                self.actions.push_back(Action::UnregisterTransport(res_id));
                gone
            },
            Some(Remote::Disconnecting { remote_id, direction, .. }) => match *remote_id {
                Some(id) => Some((id, *direction)),
                None => None,
            },
            Some(Remote::Connected { remote_id, direction, .. }) => {
                let remote_id = *remote_id;
                let direction = *direction;
                self.remotes.insert(
                    res_id,
                    Remote::Disconnecting { remote_id: Some(remote_id), direction, reason },
                );
                self.actions.push_back(Action::UnregisterTransport(res_id));
                Some((remote_id, direction))
            },
        }
    }

    /// The sessions in use with the same node under another resource.
    fn rival_sessions(&self, res_id: ResourceId, remote_id: P::NodeId) -> (links: Vec<
        (ResourceId, Direction),
    >)
        requires
            lawful::<P::NodeId>(),
        ensures
            exists|sessions: Seq<ResourceId>|
                {
                    &&& #[trigger] self@.names_rivals(res_id, remote_id, sessions)
                    &&& links@ == self@.session_links(sessions)
                },
    {
        let active = self.remotes.active();
        let mut links: Vec<(ResourceId, Direction)> = Vec::new();
        let ghost mut sessions: Seq<ResourceId> = Seq::empty();
        let mut i: usize = 0;
        while i < active.len()
            invariant
                lawful::<P::NodeId>(),
                i <= active@.len(),
                lists_active(self@.remotes, active@),
                links@ == self@.session_links(sessions),
                sessions.no_duplicates(),
                forall|c_id: ResourceId| #[trigger]
                    sessions.contains(c_id) <==> self@.rivals(c_id, res_id, remote_id)
                        && exists|k: int| 0 <= k < i && (#[trigger] active@[k]).0 == c_id,
            decreases active@.len() - i,
        {
            let (c_id, node, direction) = active[i];
            let ghost before = sessions;
            if same(&node, &remote_id) && c_id != res_id {
                links.push((c_id, direction));
                proof {
                    sessions = sessions.push(c_id);
                    assert(!before.contains(c_id));
                    assert(links@ =~= self@.session_links(sessions));
                }
            }
            proof {
                assert(active@[i as int].0 == c_id);
                assert forall|id: ResourceId| #[trigger]
                    sessions.contains(id) <==> self@.rivals(id, res_id, remote_id)
                        && exists|k: int|
                        0 <= k < i + 1 && (#[trigger] active@[k]).0 == id by {
                    lemma_seq_contains_after_push(before, c_id, id);
                }
            }
            i = i + 1;
        }
        proof {
            assert(self@.names_rivals(res_id, remote_id, sessions));
        }
        links
    }

    /// Our attempts to connect to the same node over another descriptor.
    fn rival_attempts(&self, fd: RawFd, remote_id: P::NodeId) -> (links: Vec<
        (ResourceId, Direction),
    >)
        requires
            lawful::<P::NodeId>(),
        ensures
            exists|attempts: Seq<RawFd>|
                {
                    &&& #[trigger] self@.names_rival_attempts(fd, remote_id, attempts)
                    &&& links@ == self@.attempt_links(attempts)
                },
    {
        let mut links: Vec<(ResourceId, Direction)> = Vec::new();
        let ghost mut attempts: Seq<RawFd> = Seq::empty();
        let walk = self.outbound.iter();
        proof {
            lemma_enumerates(self.outbound@, walk.remaining());
        }
        for entry in entries: walk
            invariant
                lawful::<P::NodeId>(),
                enumerates(self.outbound@, entries.seq()),
                links@ == self@.attempt_links(attempts),
                attempts.no_duplicates(),
                forall|c_fd: RawFd| #[trigger]
                    attempts.contains(c_fd) <==> self@.rival_attempts(c_fd, fd, remote_id)
                        && exists|k: int|
                        0 <= k < entries.index() && *(#[trigger] entries.seq()[k]).0 == c_fd,
        {
            let (c_fd, other) = entry;
            let ghost before = attempts;
            if same(&other.remote_id, &remote_id) && *c_fd != fd {
                if let Some(c_id) = other.res_id {
                    links.push((c_id, Direction::Outbound));
                    proof {
                        attempts = attempts.push(*c_fd);
                        assert(!before.contains(*c_fd));
                        assert(links@ =~= self@.attempt_links(attempts));
                    }
                }
            }
            proof {
                let here = entries.index() as int;
                assert(*entries.seq()[here].0 == *c_fd);
                assert forall|id: RawFd| #[trigger]
                    attempts.contains(id) <==> self@.rival_attempts(id, fd, remote_id)
                        && exists|k: int|
                        0 <= k < here + 1 && *(#[trigger] entries.seq()[k]).0 == id by {
                    lemma_seq_contains_after_push(before, *c_fd, id);
                }
            }
        }
        proof {
            assert(self@.names_rival_attempts(fd, remote_id, attempts));
        }
        links
    }

    /// The connections that conflict with a session of `res_id` with `remote_id`.
    pub fn conflicting(&self, fd: RawFd, res_id: ResourceId, remote_id: P::NodeId) -> (links: Vec<
        (ResourceId, Direction),
    >)
        requires
            lawful::<P::NodeId>(),
        ensures
            self@.conflicts(fd, res_id, remote_id, links@),
    {
        let mut links = self.rival_sessions(res_id, remote_id);
        let ghost first = links@;
        let mut attempts = self.rival_attempts(fd, remote_id);
        let ghost second = attempts@;
        links.append(&mut attempts);
        proof {
            let s = choose|s: Seq<ResourceId>|
                {
                    &&& #[trigger] self@.names_rivals(res_id, remote_id, s)
                    &&& first == self@.session_links(s)
                };
            let a = choose|a: Seq<RawFd>|
                {
                    &&& #[trigger] self@.names_rival_attempts(fd, remote_id, a)
                    &&& second == self@.attempt_links(a)
                };
            assert(self@.conflicts_by(fd, res_id, remote_id, links@, s, a));
        }
        links
    }

    /// Disconnects each of `ids` in favour of another connection.
    ///
    /// The controller is told of each at once: were it told when the transport is handed over,
    /// it would hear of the new connection before it hears that the old one is gone.
    pub fn close_conflicting(&mut self, ids: &Vec<ResourceId>) -> (calls: Vec<Callback<P>>)
        ensures
            final(self)@ == old(self)@.all_closed(ids@),
            exists|gone: Seq<Gone<P::NodeId>>|
                {
                    &&& #[trigger] old(self)@.all_answer(ids@, gone)
                    &&& calls@ == notices::<P>(gone)
                },
    {
        let mut calls: Vec<Callback<P>> = Vec::new();
        let ghost mut gone: Seq<Gone<P::NodeId>> = Seq::empty();
        let mut i: usize = 0;
        while i < ids.len()
            invariant
                i <= ids@.len(),
                self@ == old(self)@.all_closed(ids@.take(i as int)),
                gone.len() == i,
                forall|k: int|
                    0 <= k < i ==> old(self)@.all_closed(ids@.take(k)).answers(
                        ids@[k],
                        #[trigger] gone[k],
                    ),
                calls@ == notices::<P>(gone),
            decreases ids@.len() - i,
        {
            let ghost before = gone;
            let answer = self.disconnect(ids[i], DisconnectReason::Conflict);
            proof {
                gone = gone.push(answer);
                assert(gone.drop_last() =~= before);
                assert(ids@.take(i + 1).drop_last() =~= ids@.take(i as int));
            }
            if let Some((remote_id, direction)) = answer {
                calls.push(
                    Callback::Disconnected {
                        remote_id,
                        direction,
                        reason: DisconnectReason::Conflict,
                    },
                );
            }
            i = i + 1;
        }
        proof {
            assert(ids@.take(ids@.len() as int) =~= ids@);
            assert(old(self)@.all_answer(ids@, gone));
        }
        calls
    }

    /// Takes the connection behind `fd` out of those without a session, now that its session is
    /// with `remote_id`.
    fn take_claim(&mut self, fd: RawFd, remote_id: P::NodeId) -> (claim: Option<
        (P::Addr, Direction),
    >)
        requires
            lawful::<P::NodeId>(),
            old(self)@.inbound.contains_key(fd) ==> old(self)@.counters(
                remote_id,
            ).inbound_connection_attempts < usize::MAX,
        ensures
            claim == old(self)@.claim(fd),
            claim is Some ==> final(self)@ == old(self)@.claimed(fd, remote_id),
            claim is None ==> final(self)@ == old(self)@,
    {
        if let Some(remote) = self.inbound.remove(&fd) {
            let metrics = self.metrics.entry(remote_id).or_insert(Metrics::default());
            metrics.inbound_connection_attempts = metrics.inbound_connection_attempts + 1;
            assert(self@ =~= old(self)@.claimed(fd, remote_id));
            Some((remote.addr, Direction::Inbound))
        } else if let Some(remote) = self.outbound.remove(&fd) {
            assert(self@ =~= old(self)@.claimed(fd, remote_id));
            Some((remote.addr, Direction::Outbound))
        } else {
            assert(self@ =~= old(self)@);
            None
        }
    }

    /// A session over `res_id` was established with `remote_id`.
    pub fn session_established(
        &mut self,
        fd: RawFd,
        res_id: ResourceId,
        remote_id: P::NodeId,
        time: P::Timestamp,
    ) -> (calls: Vec<Callback<P>>)
        requires
            lawful::<P::NodeId>(),
            old(self)@.can_establish(fd, remote_id),
        ensures
            old(self)@.established(fd, res_id, remote_id, time, final(self)@, calls@),
    {
        // Make sure we don't try to connect to ourselves by mistake.
        if same(&remote_id, &self.local_id) {
            let _ = self.disconnect(res_id, DisconnectReason::SelfConnection);
            return Vec::new();
        }
        let (addr, direction) = match self.take_claim(fd, remote_id) {
            Some(claim) => claim,
            None => {
                return Vec::new();
            },
        };
        let ghost claimed = self@;
        let precedence = is_above(&self.local_id, &remote_id);
        let conflicting = self.conflicting(fd, res_id, remote_id);
        let disconnect = resolve(precedence, res_id, direction, &conflicting);
        let mut calls = self.close_conflicting(&disconnect);
        let ghost gone = choose|gone: Seq<Gone<P::NodeId>>|
            {
                &&& #[trigger] claimed.all_answer(disconnect@, gone)
                &&& calls@ == notices::<P>(gone)
            };
        let ghost mut stored = addr;
        if !is_among(&disconnect, res_id) {
            let kept = addr.clone();
            proof {
                stored = kept;
            }
            self.remotes.insert(res_id, Remote::connected(remote_id, kept, direction));
            calls.push(Callback::Established { remote_id, addr, direction, time });
        }
        proof {
            assert(old(self)@.establishes(
                fd,
                res_id,
                remote_id,
                time,
                conflicting@,
                gone,
                stored,
                self@,
                calls@,
            ));
        }
        calls
    }

    /// Takes the frames out of what was received, as calls for the controller, until what is left
    /// is not a whole frame or is none at all.
    fn take_frames(marshaller: &mut Marshaller, res_id: ResourceId) -> (res: (
        Vec<Callback<P>>,
        Option<<P::InFrame as Frame>::Error>,
    ))
        requires
            productive::<P::InFrame>(),
        ensures
            final(marshaller)@.sendable == old(marshaller)@.sendable,
            exists|rests: Seq<Seq<u8>>, frames: Seq<P::InFrame>|
                {
                    &&& #[trigger] drains(rests, frames, res.1)
                    &&& rests.first() == old(marshaller)@.received
                    &&& rests.last() == final(marshaller)@.received
                    &&& res.0@ == deliveries::<P>(res_id, frames)
                },
    {
        let mut calls: Vec<Callback<P>> = Vec::new();
        let ghost mut rests: Seq<Seq<u8>> = seq![marshaller@.received];
        let ghost mut frames: Seq<P::InFrame> = Seq::empty();
        loop
            invariant
                productive::<P::InFrame>(),
                marshaller@.sendable == old(marshaller)@.sendable,
                rests.len() == frames.len() + 1,
                rests.first() == old(marshaller)@.received,
                rests.last() == marshaller@.received,
                forall|i: int|
                    0 <= i < frames.len() ==> pops(
                        rests[i],
                        Ok(Some(#[trigger] frames[i])),
                        rests[i + 1],
                    ),
                calls@ == deliveries::<P>(res_id, frames),
            decreases marshaller@.received.len(),
        {
            match marshaller.unmarshall::<P::InFrame>() {
                Ok(Some(frame)) => {
                    calls.push(Callback::Frame { res_id, frame });
                    proof {
                        rests = rests.push(marshaller@.received);
                        frames = frames.push(frame);
                        assert(calls@ =~= deliveries::<P>(res_id, frames));
                    }
                },
                Ok(None) => {
                    let res = (calls, None);
                    assert(drains(rests, frames, res.1));
                    return res;
                },
                Err(error) => {
                    let res = (calls, Some(error));
                    assert(drains(rests, frames, res.1));
                    return res;
                },
            }
        }
    }

    /// Bytes from the remote of `res_id` were put into its read queue, or did not fit.
    pub fn data_buffered(
        &mut self,
        res_id: ResourceId,
        buffered: Result<(), NoRoom>,
    ) -> (calls: Vec<Callback<P>>)
        requires
            productive::<P::InFrame>(),
            old(self)@.in_session(res_id),
        ensures
            buffered is Err ==> {
                &&& final(self)@ == old(self)@.disconnected(
                    res_id,
                    DisconnectReason::Framing(FramingError::NoRoom),
                )
                &&& calls@.len() == 0
            },
            buffered is Ok ==> old(self)@.framed(res_id, final(self)@, calls@),
    {
        if buffered.is_err() {
            let _ = self.disconnect(res_id, DisconnectReason::Framing(FramingError::NoRoom));
            return Vec::new();
        }
        let mut calls: Vec<Callback<P>> = Vec::new();
        if let Some(Remote::Connected { remote_id, addr, direction, mut marshaller }) =
            self.remotes.remove(&res_id) {
            let (mut taken, failure) = Self::take_frames(&mut marshaller, res_id);
            let ghost (rests, frames) = choose|rests: Seq<Seq<u8>>, frames: Seq<P::InFrame>|
                {
                    &&& #[trigger] drains(rests, frames, failure)
                    &&& rests.first() == old(self)@.received(res_id)
                    &&& rests.last() == marshaller@.received
                    &&& taken@ == deliveries::<P>(res_id, frames)
                };
            self.remotes.insert(
                res_id,
                Remote::Connected { remote_id, addr, direction, marshaller },
            );
            match failure {
                Some(error) => {
                    let error = Arc::new(error);
                    taken.push(Callback::FrameUnparsable { res_id, error: share(&error) });
                    let _ = self.disconnect(
                        res_id,
                        DisconnectReason::Framing(FramingError::Unparsable(error)),
                    );
                    assert(self@ =~= old(self)@.disconnected(
                        res_id,
                        DisconnectReason::Framing(FramingError::Unparsable(error)),
                    ));
                    assert(old(self)@.frames(
                        res_id,
                        rests,
                        frames,
                        Some(error),
                        self@,
                        taken@,
                    ));
                },
                None => {
                    assert(self@ =~= old(self)@.with_received(res_id, rests.last()));
                    assert(old(self)@.frames(res_id, rests, frames, None, self@, taken@));
                },
            }
            calls = taken;
        }
        calls
    }

    /// Bytes arrived over `res_id`.
    pub fn data_received(&mut self, res_id: ResourceId, data: Vec<u8>) -> (calls: Vec<Callback<P>>)
        requires
            old(self)@.in_session(res_id) ==> lawful::<P::NodeId>() && productive::<P::InFrame>(),
            old(self)@.can_count(res_id, data@.len()),
        ensures
            old(self)@.receives(res_id, data@, final(self)@, calls@),
    {
        match self.remotes.remove(&res_id) {
            Some(Remote::Connected { remote_id, addr, direction, mut marshaller }) => {
                let metrics = self.metrics.entry(remote_id).or_insert(Metrics::default());
                metrics.bytes_received = metrics.bytes_received + data.len();
                let buffered = marshaller.receive(data);
                self.remotes.insert(
                    res_id,
                    Remote::Connected { remote_id, addr, direction, marshaller },
                );
                proof {
                    let counted = old(self)@.counting(remote_id, data@.len());
                    let received = old(self)@.received(res_id) + data@;
                    if received.len() <= usize::MAX {
                        assert(self@ =~= counted.with_received(res_id, received));
                    } else {
                        assert(self@ =~= counted);
                    }
                }
                self.data_buffered(res_id, buffered)
            },
            Some(remote) => {
                self.remotes.insert(res_id, remote);
                assert(self@ =~= old(self)@);
                Vec::new()
            },
            None => {
                assert(self@ =~= old(self)@);
                Vec::new()
            },
        }
    }

    /// Something happened on the transport `res_id`. Returns the calls for the controller.
    pub fn handle_transport_event(
        &mut self,
        fd: RawFd,
        res_id: ResourceId,
        event: SessionEvent<P>,
        time: P::Timestamp,
    ) -> (calls: Vec<Callback<P>>)
        requires
            match event {
                SessionEvent::Established(remote_id) => {
                    &&& remote_id is Some
                    &&& lawful::<P::NodeId>()
                    &&& old(self)@.can_establish(fd, remote_id->0)
                },
                SessionEvent::Data(data) => {
                    &&& old(self)@.in_session(res_id) ==> lawful::<P::NodeId>() && productive::<
                        P::InFrame,
                    >()
                    &&& old(self)@.can_count(res_id, data@.len())
                },
                SessionEvent::Terminated(_) => true,
            },
        ensures
            old(self)@.handles(fd, res_id, event, time, final(self)@, calls@),
    {
        match event {
            SessionEvent::Established(remote_id) => self.session_established(
                fd,
                res_id,
                remote_id.unwrap(),
                time,
            ),
            SessionEvent::Data(data) => self.data_received(res_id, data),
            SessionEvent::Terminated(error) => {
                let _ = self.disconnect(res_id, DisconnectReason::Connection(Some(error)));
                Vec::new()
            },
        }
    }
}

/// Another pointer to the same value.
///
/// `Arc::clone` makes a pointer to the allocation that its argument points to. The contract
/// claims that what is behind the two pointers is the same value.
#[verifier::external_body]
fn share<T>(value: &Arc<T>) -> (res: Arc<T>)
    ensures
        res == *value,
{
    Arc::clone(value)
}

} // verus!
