//! Peer records: liveness timestamps and the three-valued status.

use vstd::prelude::*;
use crate::bt_dht::BtDhtHash;
use crate::krpc::KAddress;

verus! {

/// Maximum wait, in seconds, before a node becomes questionable.
pub const MAX_LAST_SEEN_SECS: u64 = 15 * 60;

/// Maximum number of unanswered refresh requests before a questionable
/// node becomes bad.
pub const MAX_REFRESH_REQUESTS: usize = 2;

/// Liveness status of a node, ordered `Bad < Questionable < Good`.
#[derive(Copy, Clone, Debug, PartialEq, Eq, Structural)]
pub enum NodeStatus {
    Bad,
    Questionable,
    Good,
}

/// Numeric rank of a status, respecting the order `Bad < Questionable < Good`.
pub open spec fn status_rank(s: NodeStatus) -> int {
    match s {
        NodeStatus::Bad => 0,
        NodeStatus::Questionable => 1,
        NodeStatus::Good => 2,
    }
}

impl NodeStatus {
    /// Numeric rank; larger means more alive.
    pub fn rank(&self) -> (r: u8)
        ensures
            r == status_rank(*self),
    {
        match self {
            NodeStatus::Bad => 0,
            NodeStatus::Questionable => 1,
            NodeStatus::Good => 2,
        }
    }
}

/// A node participating in the DHT. Timestamps count seconds on a
/// monotonic clock that the caller supplies as `now`.
#[derive(Copy, Clone, Debug)]
pub struct Node {
    pub id: BtDhtHash,
    pub addr: KAddress,
    pub last_request: Option<u64>,
    pub last_response: Option<u64>,
    pub refresh_requests: usize,
}

/// Two node records stand for the same peer: same id and same address.
pub open spec fn node_eq(a: Node, b: Node) -> bool {
    a.id@ == b.id@ && a.addr == b.addr
}

/// A slot holds a real peer rather than a placeholder: placeholders never
/// carry a response timestamp, and insertion only admits nodes that do.
pub open spec fn occupied(n: Node) -> bool {
    n.last_response is Some
}

/// Whether a timestamp lies within the freshness window before `now`.
/// A timestamp ahead of `now` counts as fresh.
pub open spec fn spec_recent(ts: u64, now: u64) -> bool {
    now - ts < MAX_LAST_SEEN_SECS
}

/// The status of a node at time `now`, as a pure function of the record.
pub open spec fn spec_status(n: Node, now: u64) -> NodeStatus {
    match n.last_response {
        None => NodeStatus::Bad,
        Some(lr) => if spec_recent(lr, now) {
            NodeStatus::Good
        } else if n.last_request matches Some(lq) && spec_recent(lq, now) {
            NodeStatus::Good
        } else if n.refresh_requests < MAX_REFRESH_REQUESTS {
            NodeStatus::Questionable
        } else {
            NodeStatus::Bad
        },
    }
}

fn recent(ts: u64, now: u64) -> (r: bool)
    ensures
        r == spec_recent(ts, now),
{
    now < ts || now - ts < MAX_LAST_SEEN_SECS
}

impl Node {
    /// A node with the given status as of time `now`. A `Questionable`
    /// node is backdated by the freshness window, so `now` must leave
    /// room for that.
    pub fn new(id: BtDhtHash, addr: KAddress, status: NodeStatus, now: u64) -> (r: Node)
        requires
            status == NodeStatus::Questionable ==> now >= MAX_LAST_SEEN_SECS,
        ensures
            r.id == id,
            r.addr == addr,
            r.last_request is None,
            r.refresh_requests == 0,
            occupied(r) <==> status != NodeStatus::Bad,
            spec_status(r, now) == status,
    {
        Node {
            id,
            addr,
            last_response: match status {
                NodeStatus::Good => Some(now),
                NodeStatus::Questionable => Some(now - MAX_LAST_SEEN_SECS),
                NodeStatus::Bad => None,
            },
            last_request: None,
            refresh_requests: 0,
        }
    }

    /// Record that we sent the node a request: a node not currently good
    /// uses up one refresh request.
    pub fn local_request(&mut self, now: u64)
        requires
            old(self).refresh_requests < usize::MAX,
        ensures
            final(self).id == old(self).id,
            final(self).addr == old(self).addr,
            final(self).last_request == old(self).last_request,
            final(self).last_response == old(self).last_response,
            spec_status(*old(self), now) != NodeStatus::Good ==> final(self).refresh_requests
                == old(self).refresh_requests + 1,
            spec_status(*old(self), now) == NodeStatus::Good ==> final(self).refresh_requests
                == old(self).refresh_requests,
    {
        if self.status(now) != NodeStatus::Good {
            self.refresh_requests = self.refresh_requests + 1;
        }
    }

    /// Record that the node sent us a request.
    pub fn remote_request(&mut self, now: u64)
        ensures
            *final(self) == (Node { last_request: Some(now), ..*old(self) }),
    {
        self.last_request = Some(now);
    }

    /// Record that the node answered one of our requests.
    pub fn remote_response(&mut self, now: u64)
        ensures
            *final(self) == (Node { last_response: Some(now), refresh_requests: 0, ..*old(self) }),
            occupied(*final(self)),
    {
        self.last_response = Some(now);
        self.refresh_requests = 0;
    }

    /// The node's identifier.
    pub fn id(&self) -> (r: &BtDhtHash)
        ensures
            r == self.id,
    {
        &self.id
    }

    /// The node's address.
    pub fn addr(&self) -> (r: &KAddress)
        ensures
            r == self.addr,
    {
        &self.addr
    }

    /// Current status of the node at time `now`.
    pub fn status(&self, now: u64) -> (r: NodeStatus)
        ensures
            r == spec_status(*self, now),
    {
        match self.recently_responded(now) {
            NodeStatus::Good => NodeStatus::Good,
            NodeStatus::Bad => NodeStatus::Bad,
            NodeStatus::Questionable => self.recently_requested(now),
        }
    }

    /// First scenario: the node answered us recently. `Questionable`
    /// here means it has answered before, but not recently.
    fn recently_responded(&self, now: u64) -> (r: NodeStatus)
        ensures
            match self.last_response {
                None => r == NodeStatus::Bad,
                Some(lr) => r == if spec_recent(lr, now) {
                    NodeStatus::Good
                } else {
                    NodeStatus::Questionable
                },
            },
    {
        match self.last_response {
            None => NodeStatus::Bad,
            Some(lr) => if recent(lr, now) {
                NodeStatus::Good
            } else {
                NodeStatus::Questionable
            },
        }
    }

    /// Second scenario, reached when the first found the node
    /// questionable: a recent request from the node keeps it good, and
    /// too many unanswered refreshes make it bad.
    fn recently_requested(&self, now: u64) -> (r: NodeStatus)
        ensures
            r == if self.last_request matches Some(lq) && spec_recent(lq, now) {
                NodeStatus::Good
            } else if self.refresh_requests < MAX_REFRESH_REQUESTS {
                NodeStatus::Questionable
            } else {
                NodeStatus::Bad
            },
    {
        match self.last_request {
            Some(lq) => {
                if recent(lq, now) {
                    return NodeStatus::Good;
                }
            },
            None => {},
        }
        if self.refresh_requests < MAX_REFRESH_REQUESTS {
            NodeStatus::Questionable
        } else {
            NodeStatus::Bad
        }
    }

    /// Whether this record stands for the same peer as `other`.
    pub fn same_peer(&self, other: &Node) -> (r: bool)
        ensures
            r == node_eq(*self, *other),
    {
        self.id.same(&other.id) && self.addr == other.addr
    }
}

} // verus!
