//! The remote peers of a service.

use std::collections::HashMap;
use std::hash::Hash;
use std::sync::Arc;
use vstd::prelude::*;
use vstd::std_specs::iter::IteratorSpec;

use crate::transport::frame::{Frame, Marshaller};
use crate::Direction;

verus! {

broadcast use vstd::std_specs::hash::group_hash_axioms;

/// Identifier of a resource that the reactor manages. A later resource has a higher one, and none
/// is used twice.
pub type ResourceId = u64;

/// File descriptor of a resource.
pub type RawFd = i32;

/// The types over which a service is built.
pub trait ServiceTypes: Sized {
    /// Identity of a node.
    type NodeId: Copy + Ord + Hash;

    /// Address of a remote peer.
    type Addr: Clone;

    /// Address to which a listener is bound.
    type SocketAddr: Copy;

    /// A resource that accepts connections.
    type Listener;

    /// A resource that carries a session.
    type Transport;

    /// Framing for incoming messages.
    type InFrame: Frame;

    /// What goes wrong with a connection.
    type Error;

    /// A moment in time.
    type Timestamp: Copy;
}

/// What is wrong with the bytes from a remote.
pub enum FramingError<P: ServiceTypes> {
    /// More bytes arrived than the read queue can hold.
    NoRoom,
    /// The bytes do not encode a frame.
    Unparsable(Arc<<P::InFrame as Frame>::Error>),
}

/// Why a remote is disconnected.
pub enum DisconnectReason<P: ServiceTypes> {
    /// The remote is this very node.
    SelfConnection,
    /// Another connection with the same node is kept in place of this one.
    Conflict,
    /// The bytes from the remote cannot be framed.
    Framing(FramingError<P>),
    /// The connection failed. There is no error where the reactor dropped the connection.
    Connection(Option<P::Error>),
}

impl<P: ServiceTypes> DisconnectReason<P> {
    /// The reason for a connection that the reactor dropped.
    pub fn connection() -> (res: Self)
        ensures
            res == DisconnectReason::<P>::Connection(None),
    {
        DisconnectReason::Connection(None)
    }
}

/// A connection that we accepted and whose session is not established yet.
pub struct Inbound<P: ServiceTypes> {
    /// The resource, once the connection is part of the poll.
    pub res_id: Option<ResourceId>,
    /// Where the connection comes from.
    pub addr: P::Addr,
}

/// A connection that we opened and whose session is not established yet.
pub struct Outbound<P: ServiceTypes> {
    /// The resource, once the connection is part of the poll.
    pub res_id: Option<ResourceId>,
    /// Where the connection goes.
    pub addr: P::Addr,
    /// The node that is expected there.
    pub remote_id: P::NodeId,
}

/// A remote with a session.
#[allow(inconsistent_fields)]
pub enum Remote<P: ServiceTypes> {
    /// The session is in use.
    Connected {
        remote_id: P::NodeId,
        addr: P::Addr,
        direction: Direction,
        marshaller: Marshaller,
    },
    /// The reactor was asked to give the transport back.
    Disconnecting {
        remote_id: Option<P::NodeId>,
        direction: Direction,
        reason: DisconnectReason<P>,
    },
}

/// A remote, with its queues as sequences of bytes.
#[allow(inconsistent_fields)]
pub ghost enum RemoteView<P: ServiceTypes> {
    Connected {
        remote_id: P::NodeId,
        addr: P::Addr,
        direction: Direction,
        received: Seq<u8>,
        sendable: Seq<u8>,
    },
    Disconnecting {
        remote_id: Option<P::NodeId>,
        direction: Direction,
        reason: DisconnectReason<P>,
    },
}

impl<P: ServiceTypes> RemoteView<P> {
    /// The node at the other end, where it is known.
    pub open spec fn node(self) -> Option<P::NodeId> {
        match self {
            RemoteView::Connected { remote_id, .. } => Some(remote_id),
            RemoteView::Disconnecting { remote_id, .. } => remote_id,
        }
    }

    /// Which side opened the connection.
    pub open spec fn side(self) -> Direction {
        match self {
            RemoteView::Connected { direction, .. } => direction,
            RemoteView::Disconnecting { direction, .. } => direction,
        }
    }
}

impl<P: ServiceTypes> View for Remote<P> {
    type V = RemoteView<P>;

    open spec fn view(&self) -> RemoteView<P> {
        match *self {
            Remote::Connected { remote_id, addr, direction, marshaller } => RemoteView::Connected {
                remote_id,
                addr,
                direction,
                received: marshaller@.received,
                sendable: marshaller@.sendable,
            },
            Remote::Disconnecting { remote_id, direction, reason } => RemoteView::Disconnecting {
                remote_id,
                direction,
                reason,
            },
        }
    }
}

impl<P: ServiceTypes> Remote<P> {
    /// A remote whose session was just established.
    pub fn connected(remote_id: P::NodeId, addr: P::Addr, direction: Direction) -> (res: Self)
        ensures
            res@ == (RemoteView::<P>::Connected {
                remote_id,
                addr,
                direction,
                received: Seq::empty(),
                sendable: Seq::empty(),
            }),
    {
        let marshaller = Marshaller::new();
        assert(marshaller@.received =~= Seq::empty());
        assert(marshaller@.sendable =~= Seq::empty());
        Remote::Connected { remote_id, addr, direction, marshaller }
    }

    /// The node at the other end, where it is known.
    pub fn remote_id(&self) -> (res: Option<P::NodeId>)
        ensures
            res == self@.node(),
    {
        match self {
            Remote::Connected { remote_id, .. } => Some(*remote_id),
            Remote::Disconnecting { remote_id, .. } => *remote_id,
        }
    }

    /// Which side opened the connection.
    pub fn direction(&self) -> (res: Direction)
        ensures
            res == self@.side(),
    {
        match self {
            Remote::Connected { direction, .. } => *direction,
            Remote::Disconnecting { direction, .. } => *direction,
        }
    }
}

/// The remotes with a session, by the resource that carries it.
pub struct Remotes<P: ServiceTypes> {
    map: HashMap<ResourceId, Remote<P>>,
}

impl<P: ServiceTypes> View for Remotes<P> {
    type V = Map<ResourceId, RemoteView<P>>;

    closed spec fn view(&self) -> Map<ResourceId, RemoteView<P>> {
        self.map@.map_values(|remote: Remote<P>| remote@)
    }
}

/// Whether `list` names every connected remote of `remotes` once, with its node and side, and
/// nothing else.
pub open spec fn lists_active<P: ServiceTypes>(
    remotes: Map<ResourceId, RemoteView<P>>,
    list: Seq<(ResourceId, P::NodeId, Direction)>,
) -> bool {
    &&& forall|i: int, j: int|
        0 <= i < j < list.len() ==> (#[trigger] list[i]).0 != (#[trigger] list[j]).0
    &&& forall|i: int|
        0 <= i < list.len() ==> {
            let (id, node, side) = #[trigger] list[i];
            &&& remotes.contains_key(id)
            &&& remotes[id] is Connected
            &&& remotes[id].node() == Some(node)
            &&& remotes[id].side() == side
        }
    &&& forall|id: ResourceId| #[trigger]
        remotes.contains_key(id) && remotes[id] is Connected ==> exists|i: int|
            0 <= i < list.len() && (#[trigger] list[i]).0 == id
}

/// Whether `entries` walks over all entries of `map`, each once.
pub open spec fn enumerates<K, V>(map: Map<K, V>, entries: Seq<(&K, &V)>) -> bool {
    &&& forall|i: int|
        0 <= i < entries.len() ==> {
            &&& map.contains_key(*(#[trigger] entries[i]).0)
            &&& map[*entries[i].0] == *entries[i].1
        }
    &&& forall|i: int, j: int|
        0 <= i < j < entries.len() ==> *(#[trigger] entries[i]).0 != *(#[trigger] entries[j]).0
    &&& forall|key: K| #[trigger]
        map.contains_key(key) ==> exists|i: int|
            0 <= i < entries.len() && *(#[trigger] entries[i]).0 == key
}

/// A walk over a hash map that repeats no entry and misses none visits each key once.
pub proof fn lemma_enumerates<K, V>(map: Map<K, V>, entries: Seq<(&K, &V)>)
    requires
        entries.no_duplicates(),
        forall|i: int|
            0 <= i < entries.len() ==> {
                &&& #[trigger] map.contains_key(*entries[i].0)
                &&& map[*entries[i].0] == *entries[i].1
            },
        forall|key: K| #[trigger] map.contains_key(key) ==> entries.contains((&key, &map[key])),
    ensures
        enumerates(map, entries),
{
    assert forall|i: int|
        0 <= i < entries.len() implies {
            &&& map.contains_key(*(#[trigger] entries[i]).0)
            &&& map[*entries[i].0] == *entries[i].1
        } by {
        assert(map.contains_key(*entries[i].0));
    }
    assert forall|i: int, j: int| 0 <= i < j < entries.len() implies *(
    #[trigger] entries[i]).0 != *(#[trigger] entries[j]).0 by {
        if *entries[i].0 == *entries[j].0 {
            assert(entries[i] == entries[j]);
        }
    }
    assert forall|key: K| #[trigger] map.contains_key(key) implies exists|i: int|
        0 <= i < entries.len() && *(#[trigger] entries[i]).0 == key by {
        let i = choose|i: int| 0 <= i < entries.len() && entries[i] == (&key, &map[key]);
        assert(*entries[i].0 == key);
    }
}

impl<P: ServiceTypes> Remotes<P> {
    /// No remotes.
    pub fn new() -> (res: Self)
        ensures
            res@ == Map::<ResourceId, RemoteView<P>>::empty(),
    {
        let res = Remotes { map: HashMap::new() };
        assert(res@ =~= Map::<ResourceId, RemoteView<P>>::empty());
        res
    }

    /// The remote whose session `id` carries.
    pub fn get(&self, id: &ResourceId) -> (res: Option<&Remote<P>>)
        ensures
            res is Some <==> self@.contains_key(*id),
            res matches Some(remote) ==> remote@ == self@[*id],
    {
        self.map.get(id)
    }

    /// Makes `remote` the one whose session `id` carries, in place of any other.
    pub fn insert(&mut self, id: ResourceId, remote: Remote<P>)
        ensures
            final(self)@ == old(self)@.insert(id, remote@),
    {
        self.map.insert(id, remote);
        assert(self@ =~= old(self)@.insert(id, remote@));
    }

    /// Takes out the remote whose session `id` carries.
    pub fn remove(&mut self, id: &ResourceId) -> (res: Option<Remote<P>>)
        ensures
            final(self)@ == old(self)@.remove(*id),
            res is Some <==> old(self)@.contains_key(*id),
            res matches Some(remote) ==> remote@ == old(self)@[*id],
    {
        let res = self.map.remove(id);
        assert(self@ =~= old(self)@.remove(*id));
        res
    }

    /// The connected remotes, in no particular order.
    pub fn active(&self) -> (list: Vec<(ResourceId, P::NodeId, Direction)>)
        ensures
            lists_active(self@, list@),
    {
        let mut list: Vec<(ResourceId, P::NodeId, Direction)> = Vec::new();
        let walk = self.map.iter();
        proof {
            lemma_enumerates(self.map@, walk.remaining());
        }
        for entry in entries: walk
            invariant
                enumerates(self.map@, entries.seq()),
                forall|i: int, j: int|
                    0 <= i < j < list@.len() ==> (#[trigger] list@[i]).0 != (#[trigger] list@[j]).0,
                forall|i: int|
                    0 <= i < list@.len() ==> {
                        let (id, node, side) = #[trigger] list@[i];
                        &&& exists|k: int|
                            0 <= k < entries.index() && *(#[trigger] entries.seq()[k]).0 == id
                        &&& self@.contains_key(id)
                        &&& self@[id] is Connected
                        &&& self@[id].node() == Some(node)
                        &&& self@[id].side() == side
                    },
                forall|k: int|
                    0 <= k < entries.index() && self@[*(#[trigger] entries.seq()[k]).0] is Connected
                        ==> exists|i: int|
                        0 <= i < list@.len() && (#[trigger] list@[i]).0 == *entries.seq()[k].0,
        {
            let (id, remote) = entry;
            let ghost before = list@;
            match remote {
                Remote::Connected { remote_id, direction, .. } => {
                    list.push((*id, *remote_id, *direction));
                    assert(list@[before.len() as int].0 == *id);
                    assert(forall|i: int|
                        0 <= i < before.len() ==> list@[i] == #[trigger] before[i]);
                },
                Remote::Disconnecting { .. } => {},
            }
        }
        list
    }
}

} // verus!
