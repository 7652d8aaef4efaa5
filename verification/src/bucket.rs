//! Fixed-capacity bucket of peers sharing an identifier prefix.

use vstd::prelude::*;
use crate::bt_dht::BtDhtHash;
use crate::krpc::KAddress;
use crate::node::Node;
use crate::node::NodeStatus;
use crate::node::node_eq;
use crate::node::occupied;
use crate::node::spec_status;
use crate::node::status_rank;

verus! {

/// Number of node slots in a bucket.
pub const MAX_BUCKET_SIZE: usize = 8;

/// A bucket holds exactly eight slots. Fresh buckets are filled with bad
/// placeholder nodes, so insertion never needs an "empty" case.
#[derive(Copy, Clone, Debug)]
pub struct Bucket {
    pub nodes: [Node; 8],
}

/// An occupied slot has no earlier slot standing for the same peer; in
/// particular no two occupied slots stand for the same peer.
pub open spec fn wf_bucket(s: Seq<Node>) -> bool {
    forall|j: int|
        0 <= j < s.len() && occupied(#[trigger] s[j]) ==> forall|i: int|
            0 <= i < j ==> !node_eq(#[trigger] s[i], s[j])
}

/// First slot index at or after `k` standing for the same peer as `n`,
/// or 8 when none does.
pub open spec fn find_eq_idx(s: Seq<Node>, n: Node, k: int) -> int
    decreases s.len() - k,
{
    if k < 0 || k >= s.len() {
        s.len() as int
    } else if node_eq(s[k], n) {
        k
    } else {
        find_eq_idx(s, n, k + 1)
    }
}

/// First slot index at or after `k` whose status at `now` ranks strictly
/// below `st`, or 8 when none does.
pub open spec fn find_lower_idx(s: Seq<Node>, st: NodeStatus, now: u64, k: int) -> int
    decreases s.len() - k,
{
    if k < 0 || k >= s.len() {
        s.len() as int
    } else if status_rank(spec_status(s[k], now)) < status_rank(st) {
        k
    } else {
        find_lower_idx(s, st, now, k + 1)
    }
}

/// What a bucket holds after the attempt to add `n` at time `now`, and
/// whether the attempt reports success.
pub open spec fn spec_add_node(s: Seq<Node>, n: Node, now: u64) -> (Seq<Node>, bool) {
    let st = spec_status(n, now);
    if st == NodeStatus::Bad {
        (s, true)
    } else {
        let fe = find_eq_idx(s, n, 0);
        if fe < s.len() {
            if status_rank(st) >= status_rank(spec_status(s[fe], now)) {
                (s.update(fe, n), true)
            } else {
                (s, true)
            }
        } else {
            let fl = find_lower_idx(s, st, now, 0);
            if fl < s.len() {
                (s.update(fl, n), true)
            } else {
                (s, false)
            }
        }
    }
}

pub proof fn lemma_find_eq_char(s: Seq<Node>, n: Node, k: int)
    requires
        0 <= k <= s.len(),
    ensures
        k <= find_eq_idx(s, n, k) <= s.len(),
        forall|j: int| k <= j < find_eq_idx(s, n, k) ==> !node_eq(s[j], n),
        find_eq_idx(s, n, k) < s.len() ==> node_eq(s[find_eq_idx(s, n, k)], n),
    decreases s.len() - k,
{
    if k < s.len() && !node_eq(s[k], n) {
        lemma_find_eq_char(s, n, k + 1);
    }
}

pub proof fn lemma_find_lower_char(s: Seq<Node>, st: NodeStatus, now: u64, k: int)
    requires
        0 <= k <= s.len(),
    ensures
        k <= find_lower_idx(s, st, now, k) <= s.len(),
        forall|j: int|
            k <= j < find_lower_idx(s, st, now, k) ==> status_rank(spec_status(s[j], now))
                >= status_rank(st),
        find_lower_idx(s, st, now, k) < s.len() ==> status_rank(
            spec_status(s[find_lower_idx(s, st, now, k)], now),
        ) < status_rank(st),
    decreases s.len() - k,
{
    if k < s.len() && !(status_rank(spec_status(s[k], now)) < status_rank(st)) {
        lemma_find_lower_char(s, st, now, k + 1);
    }
}

/// Adding a node to a well-formed bucket keeps it well-formed.
pub proof fn lemma_add_node_wf(s: Seq<Node>, n: Node, now: u64)
    requires
        wf_bucket(s),
    ensures
        wf_bucket(spec_add_node(s, n, now).0),
{
    let st = spec_status(n, now);
    if st != NodeStatus::Bad {
        lemma_find_eq_char(s, n, 0);
        let fe = find_eq_idx(s, n, 0);
        if fe < s.len() {
            if status_rank(st) >= status_rank(spec_status(s[fe], now)) {
                let t = s.update(fe, n);
                assert forall|j: int|
                    0 <= j < t.len() && occupied(#[trigger] t[j]) implies forall|i: int|
                    0 <= i < j ==> !node_eq(#[trigger] t[i], t[j]) by {
                    assert forall|i: int| 0 <= i < j implies !node_eq(#[trigger] t[i], t[j]) by {
                        if j == fe {
                            assert(!node_eq(s[i], n));
                        } else if i == fe {
                            if occupied(s[j]) && node_eq(n, s[j]) {
                                assert(node_eq(s[fe], s[j]));
                            }
                        }
                    }
                }
            }
        } else {
            lemma_find_lower_char(s, st, now, 0);
            let fl = find_lower_idx(s, st, now, 0);
            if fl < s.len() {
                let t = s.update(fl, n);
                assert forall|j: int|
                    0 <= j < t.len() && occupied(#[trigger] t[j]) implies forall|i: int|
                    0 <= i < j ==> !node_eq(#[trigger] t[i], t[j]) by {
                    assert forall|i: int| 0 <= i < j implies !node_eq(#[trigger] t[i], t[j]) by {
                        if j == fl {
                            assert(!node_eq(s[i], n));
                        } else if i == fl {
                            if node_eq(n, s[j]) {
                                assert(node_eq(s[j], n));
                            }
                        }
                    }
                }
            }
        }
    }
}

impl Bucket {
    /// A bucket of eight bad placeholder slots: zeroed id, zero address,
    /// no timestamps.
    pub fn new() -> (r: Bucket)
        ensures
            r.nodes@.len() == 8,
            forall|i: int| 0 <= i < 8 ==> !occupied(#[trigger] r.nodes@[i]),
            forall|i: int, t: u64| 0 <= i < 8 ==> #[trigger] spec_status(r.nodes@[i], t)
                == NodeStatus::Bad,
            forall|i: int|
                0 <= i < 8 ==> (#[trigger] r.nodes@[i]).id@ == crate::bt_dht::zero_bytes(20)
                    && r.nodes@[i].addr == (KAddress { ip: 0, port: 0 })
                    && r.nodes@[i].last_request is None && r.nodes@[i].last_response is None
                    && r.nodes@[i].refresh_requests == 0,
            wf_bucket(r.nodes@),
    {
        let zero = [0u8; 20];
        proof {
            assert(zero@ =~= crate::bt_dht::zero_bytes(20));
        }
        let id = BtDhtHash(zero);
        let addr = KAddress { ip: 0, port: 0 };
        let node = Node::new(id, addr, NodeStatus::Bad, 0);
        Bucket { nodes: [node; 8] }
    }

    /// The good nodes of the bucket, in stored order.
    pub fn good_nodes(&self, now: u64) -> (r: Vec<Node>)
        ensures
            r@ == self.nodes@.filter(|n: Node| spec_status(n, now) == NodeStatus::Good),
    {
        let mut out: Vec<Node> = Vec::new();
        let mut i: usize = 0;
        while i < 8
            invariant
                0 <= i <= 8,
                self.nodes@.len() == 8,
                out@ == self.nodes@.subrange(0, i as int).filter(
                    |n: Node| spec_status(n, now) == NodeStatus::Good,
                ),
            decreases 8 - i,
        {
            let ghost pre = self.nodes@.subrange(0, i as int);
            let ghost post = self.nodes@.subrange(0, i + 1);
            if self.nodes[i].status(now) == NodeStatus::Good {
                out.push(self.nodes[i]);
            }
            proof {
                reveal(Seq::filter);
                assert(post.drop_last() =~= pre);
                assert(post.last() == self.nodes@[i as int]);
            }
            i += 1;
        }
        proof {
            assert(self.nodes@.subrange(0, 8) =~= self.nodes@);
        }
        out
    }

    /// The nodes worth contacting: every node not in a bad state, in
    /// stored order.
    pub fn pingable_nodes(&self, now: u64) -> (r: Vec<Node>)
        ensures
            r@ == self.nodes@.filter(|n: Node| spec_status(n, now) != NodeStatus::Bad),
    {
        let mut out: Vec<Node> = Vec::new();
        let mut i: usize = 0;
        while i < 8
            invariant
                0 <= i <= 8,
                self.nodes@.len() == 8,
                out@ == self.nodes@.subrange(0, i as int).filter(
                    |n: Node| spec_status(n, now) != NodeStatus::Bad,
                ),
            decreases 8 - i,
        {
            let ghost pre = self.nodes@.subrange(0, i as int);
            let ghost post = self.nodes@.subrange(0, i + 1);
            if self.nodes[i].status(now) != NodeStatus::Bad {
                out.push(self.nodes[i]);
            }
            proof {
                reveal(Seq::filter);
                assert(post.drop_last() =~= pre);
                assert(post.last() == self.nodes@[i as int]);
            }
            i += 1;
        }
        proof {
            assert(self.nodes@.subrange(0, 8) =~= self.nodes@);
        }
        out
    }

    /// Every slot of the bucket, placeholders included.
    pub fn iter(&self) -> (r: &[Node; 8])
        ensures
            r@ == self.nodes@,
    {
        &self.nodes
    }

    /// Whether the bucket holds no good node and should be refreshed.
    pub fn needs_refresh(&self, now: u64) -> (r: bool)
        ensures
            r == forall|i: int|
                0 <= i < 8 ==> spec_status(#[trigger] self.nodes@[i], now) != NodeStatus::Good,
    {
        let mut i: usize = 0;
        while i < 8
            invariant
                0 <= i <= 8,
                self.nodes@.len() == 8,
                forall|j: int|
                    0 <= j < i ==> spec_status(#[trigger] self.nodes@[j], now) != NodeStatus::Good,
            decreases 8 - i,
        {
            if self.nodes[i].status(now) == NodeStatus::Good {
                return false;
            }
            i += 1;
        }
        true
    }

    /// Attempt to add a node. A bad node is dropped and counts as placed.
    /// A slot standing for the same peer is replaced when the new record
    /// ranks at least as high. Otherwise the first slot ranking strictly
    /// lower is replaced. Reports false exactly when no slot gives way.
    pub fn add_node(&mut self, new_node: Node, now: u64) -> (r: bool)
        requires
            wf_bucket(old(self).nodes@),
        ensures
            (final(self).nodes@, r) == spec_add_node(old(self).nodes@, new_node, now),
            wf_bucket(final(self).nodes@),
    {
        proof {
            lemma_add_node_wf(self.nodes@, new_node, now);
        }
        let new_status = new_node.status(now);
        if new_status == NodeStatus::Bad {
            return true;
        }
        let mut i: usize = 0;
        while i < 8
            invariant
                0 <= i <= 8,
                self.nodes@ == old(self).nodes@,
                self.nodes@.len() == 8,
                wf_bucket(old(self).nodes@),
                new_status == spec_status(new_node, now),
                new_status != NodeStatus::Bad,
                find_eq_idx(self.nodes@, new_node, 0) == find_eq_idx(
                    self.nodes@,
                    new_node,
                    i as int,
                ),
            decreases 8 - i,
        {
            proof {
                lemma_add_node_wf(self.nodes@, new_node, now);
            }
            if self.nodes[i].same_peer(&new_node) {
                if new_node.status(now).rank() >= self.nodes[i].status(now).rank() {
                    self.nodes[i] = new_node;
                }
                return true;
            }
            i += 1;
        }
        let mut k: usize = 0;
        while k < 8
            invariant
                0 <= k <= 8,
                self.nodes@ == old(self).nodes@,
                self.nodes@.len() == 8,
                wf_bucket(old(self).nodes@),
                new_status == spec_status(new_node, now),
                new_status != NodeStatus::Bad,
                find_eq_idx(self.nodes@, new_node, 0) == 8,
                find_lower_idx(self.nodes@, new_status, now, 0) == find_lower_idx(
                    self.nodes@,
                    new_status,
                    now,
                    k as int,
                ),
            decreases 8 - k,
        {
            proof {
                lemma_add_node_wf(self.nodes@, new_node, now);
            }
            if self.nodes[k].status(now).rank() < new_status.rank() {
                self.nodes[k] = new_node;
                return true;
            }
            k += 1;
        }
        false
    }
}

} // verus!
