//! Which of two connections with the same node is kept.
//!
//! Two nodes that are both configured to connect to each other end up with two connections. One
//! node takes precedence, and the connection that it opened is the one that stays.

use vstd::prelude::*;

use crate::transport::remotes::ResourceId;
use crate::Direction;

verus! {

/// Which of two connections is closed: the new one, `res_id`, or the one that was there, `c_id`.
///
/// Where one was opened by either side, the one that was opened by the node with precedence
/// stays. Where both were opened by the same side, the newer one is closed: the one with the
/// higher resource id.
pub open spec fn closing(
    precedence: bool,
    res_id: ResourceId,
    direction: Direction,
    c_id: ResourceId,
    c_link: Direction,
) -> ResourceId {
    if direction == c_link {
        if res_id < c_id {
            c_id
        } else {
            res_id
        }
    } else if (direction is Outbound) == precedence {
        c_id
    } else {
        res_id
    }
}

/// The connections that are closed in favour of another, one for each of `conflicting`.
pub open spec fn closings(
    precedence: bool,
    res_id: ResourceId,
    direction: Direction,
    conflicting: Seq<(ResourceId, Direction)>,
) -> Seq<ResourceId> {
    Seq::new(
        conflicting.len(),
        |i: int| closing(precedence, res_id, direction, conflicting[i].0, conflicting[i].1),
    )
}

/// Decides each conflict of the new connection `res_id`.
pub fn resolve(
    precedence: bool,
    res_id: ResourceId,
    direction: Direction,
    conflicting: &Vec<(ResourceId, Direction)>,
) -> (disconnect: Vec<ResourceId>)
    ensures
        disconnect@ == closings(precedence, res_id, direction, conflicting@),
{
    let mut disconnect: Vec<ResourceId> = Vec::new();
    let mut i: usize = 0;
    while i < conflicting.len()
        invariant
            i <= conflicting@.len(),
            disconnect@ == closings(precedence, res_id, direction, conflicting@).take(i as int),
        decreases conflicting@.len() - i,
    {
        let (c_id, c_link) = conflicting[i];
        let close: ResourceId = match (direction, c_link) {
            (Direction::Inbound, Direction::Outbound) => if precedence {
                res_id
            } else {
                c_id
            },
            (Direction::Outbound, Direction::Inbound) => if precedence {
                c_id
            } else {
                res_id
            },
            (Direction::Inbound, Direction::Inbound) => res_id.max(c_id),
            (Direction::Outbound, Direction::Outbound) => res_id.max(c_id),
        };
        disconnect.push(close);
        i = i + 1;
    }
    disconnect
}

/// Whether `id` is among `ids`.
pub fn is_among(ids: &Vec<ResourceId>, id: ResourceId) -> (res: bool)
    ensures
        res == ids@.contains(id),
{
    let mut i: usize = 0;
    while i < ids.len()
        invariant
            i <= ids@.len(),
            forall|j: int| 0 <= j < i ==> ids@[j] != id,
        decreases ids@.len() - i,
    {
        if ids[i] == id {
            return true;
        }
        i = i + 1;
    }
    false
}

} // verus!
